//! The 256-bit hash values that identify nodes and address the key space,
//! the opaque digest primitive, and the tree's hashing rules.
use vstd::prelude::*;
use sha3::{Digest, Sha3_256};

verus! {

/// What the SHA3-256 primitive returns for a byte sequence. The algorithm
/// itself is outside this library; only its determinism and output length
/// are relied on.
pub uninterp spec fn digest(bytes: Seq<u8>) -> Seq<u8>;

/// Relies on sha3::Sha3_256 (the `Digest` trait): a 32-byte digest that
/// depends on the input bytes alone.
#[verifier::external_body]
pub(crate) fn sha3_digest(bytes: &Vec<u8>) -> (r: Vec<u8>)
    ensures
        r@ == digest(bytes@),
        r@.len() == 32,
{
    Sha3_256::digest(bytes.as_slice()).to_vec()
}

/// A 256-bit hash: the identity of a tree node and the path of a key.
pub struct HashValue {
    pub bytes: Vec<u8>,
}

impl View for HashValue {
    type V = Seq<u8>;

    open spec fn view(&self) -> Seq<u8> {
        self.bytes@
    }
}

impl HashValue {
    /// A valid hash holds exactly 32 bytes.
    pub open spec fn wf(&self) -> bool {
        self.bytes@.len() == 32
    }

    /// Wraps 32 bytes as a hash value; rejects any other length.
    pub fn from_vec(bytes: Vec<u8>) -> (r: Option<HashValue>)
        ensures
            bytes@.len() == 32 ==> (r matches Some(h) && h@ == bytes@ && h.wf()),
            bytes@.len() != 32 ==> r is None,
    {
        if bytes.len() == 32 {
            Some(HashValue { bytes })
        } else {
            None
        }
    }

    /// A fresh copy of the underlying bytes.
    pub fn to_vec(&self) -> (r: Vec<u8>)
        ensures
            r@ == self@,
    {
        copy_bytes(&self.bytes)
    }

    /// Byte-wise equality of two hash values.
    pub fn equals(&self, other: &HashValue) -> (r: bool)
        ensures
            r == (self@ == other@),
    {
        bytes_eq(&self.bytes, &other.bytes)
    }

    /// An identical hash value.
    pub fn dup(&self) -> (r: HashValue)
        ensures
            r@ == self@,
            self.wf() ==> r.wf(),
    {
        HashValue { bytes: copy_bytes(&self.bytes) }
    }
}

/// A fresh vector with the same bytes.
pub(crate) fn copy_bytes(v: &Vec<u8>) -> (r: Vec<u8>)
    ensures
        r@ == v@,
{
    let mut out: Vec<u8> = Vec::new();
    let mut i: usize = 0;
    while i < v.len()
        invariant
            i <= v@.len(),
            out@ == v@.take(i as int),
        decreases v@.len() - i,
    {
        out.push(v[i]);
        i = i + 1;
        proof {
            assert(out@ =~= v@.take(i as int));
        }
    }
    proof {
        assert(v@.take(v@.len() as int) =~= v@);
    }
    out
}

/// Byte-wise equality of two vectors.
pub(crate) fn bytes_eq(a: &Vec<u8>, b: &Vec<u8>) -> (r: bool)
    ensures
        r == (a@ == b@),
{
    if a.len() != b.len() {
        proof {
            assert(a@ != b@);
        }
        return false;
    }
    let mut i: usize = 0;
    while i < a.len()
        invariant
            i <= a@.len(),
            a@.len() == b@.len(),
            forall|j: int| 0 <= j < i ==> a@[j] == b@[j],
        decreases a@.len() - i,
    {
        if a[i] != b[i] {
            proof {
                assert(a@[i as int] != b@[i as int]);
            }
            return false;
        }
        i = i + 1;
    }
    proof {
        assert(a@ =~= b@);
    }
    true
}

/// Tree depth bound: a 256-bit key yields 64 nibbles of path.
pub const MAX_DEPTH: usize = 64;

/// The nibble (4-bit unit) of a 32-byte key at position `i`, counting from
/// the most significant nibble of the first byte.
pub open spec fn spec_nibble(key: Seq<u8>, i: int) -> u8 {
    if i % 2 == 0 {
        key[i / 2] / 16
    } else {
        key[i / 2] % 16
    }
}

/// Extracts the `i`th nibble of a 32-byte key.
pub fn nibble_at(key: &HashValue, i: usize) -> (n: u8)
    requires
        key.wf(),
        i < MAX_DEPTH,
    ensures
        n == spec_nibble(key@, i as int),
        n < 16,
{
    let b = key.bytes[i / 2];
    if i % 2 == 0 {
        b / 16
    } else {
        b % 16
    }
}

/// Returns `original_key` with its `n`th nibble replaced by `nibble`.
pub fn update_nibble(original_key: &HashValue, n: usize, nibble: u8) -> (r: HashValue)
    requires
        original_key.wf(),
        n < MAX_DEPTH,
        nibble < 16,
    ensures
        r.wf(),
        r@ == original_key@.update(
            n as int / 2,
            if n as int % 2 == 0 {
                (original_key@[n as int / 2] % 16 + nibble * 16) as u8
            } else {
                (original_key@[n as int / 2] / 16 * 16 + nibble) as u8
            },
        ),
{
    let mut bytes = copy_bytes(&original_key.bytes);
    let old_byte = bytes[n / 2];
    let new_byte: u8 = if n % 2 == 0 {
        old_byte % 16 + nibble * 16
    } else {
        old_byte / 16 * 16 + nibble
    };
    bytes.set(n / 2, new_byte);
    HashValue { bytes }
}

/// The canonical hash of the empty subtree: the bytes of the sentinel label
/// `SPARSE_MERKLE_PLACEHOLDER_HASH`, zero-padded to 32 bytes.
pub open spec fn spec_placeholder() -> Seq<u8> {
    seq![
        83u8, 80u8, 65u8, 82u8, 83u8, 69u8, 95u8, 77u8, 69u8, 82u8, 75u8, 76u8, 69u8, 95u8, 80u8,
        76u8, 65u8, 67u8, 69u8, 72u8, 79u8, 76u8, 68u8, 69u8, 82u8, 95u8, 72u8, 65u8, 83u8, 72u8,
        0u8, 0u8,
    ]
}

/// The well-known placeholder hash as a value.
pub fn placeholder_hash() -> (r: HashValue)
    ensures
        r@ == spec_placeholder(),
        r.wf(),
{
    let mut v: Vec<u8> = Vec::new();
    v.push(83);
    v.push(80);
    v.push(65);
    v.push(82);
    v.push(83);
    v.push(69);
    v.push(95);
    v.push(77);
    v.push(69);
    v.push(82);
    v.push(75);
    v.push(76);
    v.push(69);
    v.push(95);
    v.push(80);
    v.push(76);
    v.push(65);
    v.push(67);
    v.push(69);
    v.push(72);
    v.push(79);
    v.push(76);
    v.push(68);
    v.push(69);
    v.push(82);
    v.push(95);
    v.push(72);
    v.push(65);
    v.push(83);
    v.push(72);
    v.push(0);
    v.push(0);
    proof {
        assert(v@ =~= spec_placeholder());
    }
    HashValue { bytes: v }
}

/// Hashing rule for a leaf whose value hash is already known:
/// `digest(0x00 || key || value_hash)`.
pub open spec fn spec_leaf_hash_from_value_hash(key: Seq<u8>, value_hash: Seq<u8>) -> Seq<u8> {
    digest(seq![0u8] + key + value_hash)
}

/// Hashing rule for a leaf: `digest(0x00 || key || digest(value))`.
pub open spec fn spec_leaf_hash(key: Seq<u8>, value: Seq<u8>) -> Seq<u8> {
    spec_leaf_hash_from_value_hash(key, digest(value))
}

/// The concatenation of the first `n` of 16 child hashes.
pub open spec fn spec_cat_hashes(hs: Seq<Seq<u8>>, n: int) -> Seq<u8>
    decreases n,
{
    if n <= 0 {
        Seq::empty()
    } else {
        spec_cat_hashes(hs, n - 1) + hs[n - 1]
    }
}

/// Hashing rule for an internal node over its 16 child hashes (the
/// placeholder standing in for each empty child):
/// `digest(0x01 || child_0 || ... || child_15)`.
pub open spec fn spec_internal_hash(hs: Seq<Seq<u8>>) -> Seq<u8> {
    digest(seq![1u8] + spec_cat_hashes(hs, 16))
}

/// Computes a leaf hash from the key and the value's digest.
pub fn leaf_hash_from_value_hash(key: &HashValue, value_hash: &HashValue) -> (r: HashValue)
    ensures
        r@ == spec_leaf_hash_from_value_hash(key@, value_hash@),
        r.wf(),
{
    let mut buf: Vec<u8> = Vec::new();
    buf.push(0u8);
    proof {
        assert(buf@ =~= seq![0u8] + key@.take(0));
    }
    append_bytes(&mut buf, &key.bytes);
    proof {
        assert(buf@ =~= seq![0u8] + key@);
    }
    append_bytes(&mut buf, &value_hash.bytes);
    proof {
        assert(buf@ =~= seq![0u8] + key@ + value_hash@);
    }
    HashValue { bytes: sha3_digest(&buf) }
}

/// Computes a leaf hash from the key and the raw value bytes.
pub fn leaf_hash(key: &HashValue, value: &Vec<u8>) -> (r: HashValue)
    ensures
        r@ == spec_leaf_hash(key@, value@),
        r.wf(),
{
    let vh = HashValue { bytes: sha3_digest(value) };
    leaf_hash_from_value_hash(key, &vh)
}

/// Appends all of `src` to `dst`.
pub(crate) fn append_bytes(dst: &mut Vec<u8>, src: &Vec<u8>)
    ensures
        final(dst)@ == old(dst)@ + src@,
{
    let mut i: usize = 0;
    while i < src.len()
        invariant
            i <= src@.len(),
            dst@ == old(dst)@ + src@.take(i as int),
        decreases src@.len() - i,
    {
        dst.push(src[i]);
        i = i + 1;
        proof {
            assert(dst@ =~= old(dst)@ + src@.take(i as int));
        }
    }
    proof {
        assert(old(dst)@ + src@.take(src@.len() as int) =~= old(dst)@ + src@);
    }
}

} // verus!

//! Merkle proofs: the sibling-hash path that lets anyone recompute a
//! claimed root from a key and its value or absence, with no access to
//! the node store.
use vstd::prelude::*;
use crate::hash::{
    bytes_eq, leaf_hash_from_value_hash, nibble_at, placeholder_hash, sha3_digest, digest,
    spec_internal_hash, spec_leaf_hash_from_value_hash, spec_nibble, spec_placeholder, HashValue,
    append_bytes, spec_cat_hashes,
};
use crate::StateError;

verus! {

/// An inclusion or exclusion proof: the terminal leaf (its key and value
/// hash) or `None` when the walk ended at an empty slot, and one level of
/// 15 sibling hashes per internal node from the root down.
pub struct SparseMerkleProof {
    pub leaf: Option<(HashValue, HashValue)>,
    pub siblings: Vec<Vec<HashValue>>,
}

/// The sibling hashes of one proof level as sequences.
pub open spec fn level_view(level: Vec<HashValue>) -> Seq<Seq<u8>> {
    Seq::new(level@.len(), |i: int| level@[i]@)
}

/// The 16 child hashes of a level: the 15 recorded siblings with `mine`
/// standing at position `pos`.
pub open spec fn full_children(sibs: Seq<Seq<u8>>, pos: int, mine: Seq<u8>) -> Seq<Seq<u8>> {
    Seq::new(
        16,
        |i: int|
            if i == pos {
                mine
            } else if i < pos {
                sibs[i]
            } else {
                sibs[i - 1]
            },
    )
}

/// Recomputes the root implied by a proof: folds the levels from `d`
/// down, placing the running hash at the key's nibble of each level.
pub open spec fn spec_fold(key: Seq<u8>, start: Seq<u8>, sibs: Seq<Seq<Seq<u8>>>, d: int) -> Seq<
    u8,
>
    decreases sibs.len() - d,
{
    if d < 0 || d >= sibs.len() {
        start
    } else {
        spec_internal_hash(
            full_children(
                sibs[d],
                spec_nibble(key, d) as int,
                spec_fold(key, start, sibs, d + 1),
            ),
        )
    }
}

/// All proof levels as sequences.
pub open spec fn sibs_view(p: SparseMerkleProof) -> Seq<Seq<Seq<u8>>> {
    Seq::new(p.siblings@.len(), |i: int| level_view(p.siblings@[i]))
}

/// The sibling counts a verifier accepts: at most one level per nibble of
/// the key, 15 siblings in each.
pub open spec fn proof_shape_ok(p: SparseMerkleProof) -> bool {
    p.siblings@.len() <= 64 && forall|i: int|
        0 <= i < p.siblings@.len() ==> (#[trigger] p.siblings@[i])@.len() == 15
}

/// The hash a proof's terminal stands for: the recorded leaf's hash, or
/// the placeholder for a proven-empty slot.
pub open spec fn start_hash(p: SparseMerkleProof) -> Seq<u8> {
    match p.leaf {
        Some((lk, lvh)) => spec_leaf_hash_from_value_hash(lk@, lvh@),
        None => spec_placeholder(),
    }
}

/// Consistency of the claim with the terminal: a present value must be
/// the recorded leaf's own, under the claimed key; absence allows either
/// an empty terminal or another leaf occupying the key's path.
pub open spec fn claim_ok(key: Seq<u8>, claim: Option<Seq<u8>>, p: SparseMerkleProof) -> bool {
    match claim {
        Some(v) => p.leaf matches Some((lk, lvh)) && lk@ == key && lvh@ == digest(v),
        None => match p.leaf {
            None => true,
            Some((lk, lvh)) => lk@.len() == 32 && lk@ != key && (forall|j: int|
                0 <= j < p.siblings@.len() ==> spec_nibble(lk@, j) == spec_nibble(key, j)),
        },
    }
}

/// A proof is valid for `(root, key, claim)` when its shape is right, the
/// claim is consistent with its terminal, and folding reproduces `root`.
pub open spec fn proof_valid(
    root: Seq<u8>,
    key: Seq<u8>,
    claim: Option<Seq<u8>>,
    p: SparseMerkleProof,
) -> bool {
    &&& proof_shape_ok(p)
    &&& claim_ok(key, claim, p)
    &&& spec_fold(key, start_hash(p), sibs_view(p), 0) == root
}

/// Folds the proof levels from `d` down and returns the implied hash at
/// depth `d`.
fn fold_proof(key: &HashValue, start: HashValue, siblings: &Vec<Vec<HashValue>>, d: usize) -> (r:
    HashValue)
    requires
        key.wf(),
        siblings@.len() <= 64,
        d <= siblings@.len(),
        forall|i: int| 0 <= i < siblings@.len() ==> (#[trigger] siblings@[i])@.len() == 15,
        start.wf(),
    ensures
        r@ == spec_fold(key@, start@, sibs_view_raw(siblings@), d as int),
        r.wf(),
    decreases siblings@.len() - d,
{
    if d == siblings.len() {
        return start;
    }
    let deeper = fold_proof(key, start, siblings, d + 1);
    let nib = nibble_at(key, d);
    let level = &siblings[d];
    let ghost full = full_children(
        level_view(siblings@[d as int]),
        spec_nibble(key@, d as int) as int,
        deeper@,
    );
    let mut buf: Vec<u8> = Vec::new();
    buf.push(1u8);
    proof {
        assert(buf@ =~= seq![1u8] + spec_cat_hashes(full, 0));
    }
    let mut i: usize = 0;
    while i < 16
        invariant
            i <= 16,
            key.wf(),
            d < siblings@.len() <= 64,
            level == siblings@[d as int],
            level@.len() == 15,
            nib == spec_nibble(key@, d as int),
            full == full_children(
                level_view(siblings@[d as int]),
                spec_nibble(key@, d as int) as int,
                deeper@,
            ),
            buf@ == seq![1u8] + spec_cat_hashes(full, i as int),
        decreases 16 - i,
    {
        if i == nib as usize {
            append_bytes(&mut buf, &deeper.bytes);
        } else if i < nib as usize {
            append_bytes(&mut buf, &level[i].bytes);
        } else {
            append_bytes(&mut buf, &level[i - 1].bytes);
        }
        proof {
            assert(full[i as int] == if i as int == nib as int {
                deeper@
            } else if (i as int) < nib as int {
                level_view(siblings@[d as int])[i as int]
            } else {
                level_view(siblings@[d as int])[i as int - 1]
            });
            assert(buf@ =~= seq![1u8] + spec_cat_hashes(full, i as int + 1));
        }
        i = i + 1;
    }
    HashValue { bytes: sha3_digest(&buf) }
}

/// The levels of a raw sibling vector as sequences.
pub open spec fn sibs_view_raw(s: Seq<Vec<HashValue>>) -> Seq<Seq<Seq<u8>>> {
    Seq::new(s.len(), |i: int| level_view(s[i]))
}

impl SparseMerkleProof {
    /// Checks this proof against a root, a key and a claimed value or
    /// absence. `ProofLengthMismatch` exactly when the sibling counts are
    /// inconsistent with the key's depth; `InvalidProof` exactly when the
    /// counts fit but the claim or the recomputed root does not.
    pub fn verify(
        &self,
        expected_root: &HashValue,
        key: &HashValue,
        claim: Option<&Vec<u8>>,
    ) -> (r: Result<(), StateError>)
        requires
            key.wf(),
        ensures
            r is Ok <==> proof_valid(
                expected_root@,
                key@,
                match claim {
                    Some(v) => Some(v@),
                    None => None,
                },
                *self,
            ),
            !proof_shape_ok(*self) ==> r == Err::<(), StateError>(StateError::ProofLengthMismatch),
            r is Err && proof_shape_ok(*self) ==> r == Err::<(), StateError>(
                StateError::InvalidProof,
            ),
    {
        if self.siblings.len() > 64 {
            return Err(StateError::ProofLengthMismatch);
        }
        let mut i: usize = 0;
        while i < self.siblings.len()
            invariant
                i <= self.siblings@.len(),
                forall|j: int| 0 <= j < i ==> (#[trigger] self.siblings@[j])@.len() == 15,
            decreases self.siblings@.len() - i,
        {
            if self.siblings[i].len() != 15 {
                return Err(StateError::ProofLengthMismatch);
            }
            i = i + 1;
        }
        let consistent: bool = match (claim, &self.leaf) {
            (Some(v), Some((lk, lvh))) => {
                let vh = sha3_digest(v);
                lk.equals(key) && bytes_eq(&lvh.bytes, &vh)
            },
            (Some(_), None) => false,
            (None, None) => true,
            (None, Some((lk, lvh))) => {
                if lk.equals(key) {
                    false
                } else {
                    prefix_agrees(lk, key, self.siblings.len())
                }
            },
        };
        if !consistent {
            return Err(StateError::InvalidProof);
        }
        let start = match &self.leaf {
            Some((lk, lvh)) => leaf_hash_from_value_hash(lk, lvh),
            None => placeholder_hash(),
        };
        proof {
            assert(start@ == start_hash(*self));
            assert(sibs_view_raw(self.siblings@) =~= sibs_view(*self));
        }
        let folded = fold_proof(key, start, &self.siblings, 0);
        if folded.equals(expected_root) {
            Ok(())
        } else {
            Err(StateError::InvalidProof)
        }
    }
}

/// Whether the first `n` nibbles of `a` and `b` agree.
fn prefix_agrees(a: &HashValue, b: &HashValue, n: usize) -> (r: bool)
    requires
        n <= 64,
    ensures
        a.wf() && b.wf() ==> r == (forall|j: int|
            0 <= j < n ==> spec_nibble(a@, j) == spec_nibble(b@, j)),
        !(a.wf() && b.wf()) ==> r == false,
{
    if a.bytes.len() != 32 || b.bytes.len() != 32 {
        return false;
    }
    let mut j: usize = 0;
    while j < n
        invariant
            j <= n <= 64,
            a.wf(),
            b.wf(),
            forall|jj: int| 0 <= jj < j ==> spec_nibble(a@, jj) == spec_nibble(b@, jj),
        decreases n - j,
    {
        if nibble_at(a, j) != nibble_at(b, j) {
            return false;
        }
        j = j + 1;
    }
    true
}

} // verus!

verus! {

/// The hash a generated terminal stands for.
pub open spec fn terminal_hash(r: Option<(HashValue, HashValue)>) -> Seq<u8> {
    match r {
        Some((lk, lvh)) => spec_leaf_hash_from_value_hash(lk@, lvh@),
        None => spec_placeholder(),
    }
}

/// Walks `key`'s path through the subtree `t` at `depth`, recording each
/// level's 15 sibling hashes, and returns the terminal leaf (key and
/// value hash) or `None` for an empty slot. Folding what was recorded
/// reproduces the subtree's hash.
pub fn gen_proof(
    t: &crate::tree::TreeNode,
    key: &HashValue,
    depth: usize,
    siblings: &mut Vec<Vec<HashValue>>,
) -> (r: Option<(HashValue, HashValue)>)
    requires
        crate::tree::t_wf(*t),
        crate::stree::s_ok(crate::tree::t_view(*t), depth as int),
        key.wf(),
        depth <= 64,
        old(siblings)@.len() == depth,
    ensures
        final(siblings)@.len() <= 64,
        final(siblings)@.len() >= depth,
        forall|i: int| 0 <= i < depth ==> final(siblings)@[i] == old(siblings)@[i],
        forall|i: int|
            depth <= i < final(siblings)@.len() ==> (#[trigger] final(siblings)@[i])@.len() == 15,
        spec_fold(key@, terminal_hash(r), sibs_view_raw(final(siblings)@), depth as int)
            == crate::tree::t_hash(*t),
        match crate::stree::s_lookup(crate::tree::t_view(*t), key@, depth as int) {
            Some(v) => r matches Some((lk, lvh)) && lk@ == key@ && lvh@ == digest(v),
            None => match r {
                None => true,
                Some((lk, lvh)) => lk@.len() == 32 && lk@ != key@ && (forall|j: int|
                    depth <= j < final(siblings)@.len() ==> spec_nibble(lk@, j) == spec_nibble(
                        key@,
                        j,
                    )),
            },
        },
        match r {
            Some((lk, lvh)) => crate::stree::s_lookup(
                crate::tree::t_view(*t),
                lk@,
                depth as int,
            ) is Some,
            None => true,
        },
    decreases 64 - depth,
{
    match t {
        crate::tree::TreeNode::Empty => {
            proof {
                assert(spec_fold(
                    key@,
                    spec_placeholder(),
                    sibs_view_raw(siblings@),
                    depth as int,
                ) == spec_placeholder());
            }
            None
        },
        crate::tree::TreeNode::Leaf { hash, key: k2, value } => {
            let lvh = HashValue { bytes: sha3_digest(value) };
            proof {
                assert(hash@ == spec_leaf_hash_from_value_hash(k2@, digest(value@)));
            }
            Some((k2.dup(), lvh))
        },
        crate::tree::TreeNode::Internal { hash, children } => {
            let ghost tv = crate::tree::t_view(*t);
            proof {
                crate::tree::lemma_t_view_kids(children@, 16);
            }
            let nib = nibble_at(key, depth);
            let mut level: Vec<HashValue> = Vec::new();
            let mut i: usize = 0;
            while i < 16
                invariant
                    i <= 16,
                    nib < 16,
                    nib == spec_nibble(key@, depth as int),
                    children@.len() == 16,
                    level@.len() == if i <= nib as usize {
                        i as int
                    } else {
                        i - 1
                    },
                    forall|j: int|
                        0 <= j < level@.len() ==> (#[trigger] level@[j])@ == crate::tree::t_hash(
                            children@[
                                if j < nib as int {
                                    j
                                } else {
                                    j + 1
                                }
                            ],
                        ),
                decreases 16 - i,
            {
                if i != nib as usize {
                    level.push(crate::tree::hash_of_node(&children[i]));
                }
                i = i + 1;
            }
            siblings.push(level);
            let ghost sibs_before = siblings@;
            let r = gen_proof(&children[nib as usize], key, depth + 1, siblings);
            proof {
                assert(siblings@[depth as int] == sibs_before[depth as int]);
                assert(sibs_view_raw(siblings@)[depth as int] == level_view(
                    siblings@[depth as int],
                ));
                assert(full_children(
                    level_view(siblings@[depth as int]),
                    nib as int,
                    crate::tree::t_hash(children@[nib as int]),
                ) =~= Seq::new(16, |j: int| crate::tree::t_hash(children@[j])));
                assert(spec_fold(key@, terminal_hash(r), sibs_view_raw(siblings@), depth as int)
                    == spec_internal_hash(
                    full_children(
                        sibs_view_raw(siblings@)[depth as int],
                        spec_nibble(key@, depth as int) as int,
                        spec_fold(
                            key@,
                            terminal_hash(r),
                            sibs_view_raw(siblings@),
                            depth as int + 1,
                        ),
                    ),
                ));
                assert(crate::stree::s_lookup(tv, key@, depth as int) == crate::stree::s_lookup(
                    crate::tree::t_view(children@[nib as int]),
                    key@,
                    depth as int + 1,
                ));
                if r is Some {
                    let rp = r->0;
                    let lk = rp.0;
                    let child_v = crate::tree::t_view(children@[nib as int]);
                    assert(crate::stree::s_nib_ok(child_v, depth as int, nib as int));
                    assert(crate::stree::s_lookup(child_v, lk@, depth as int + 1) is Some);
                    crate::stree::lemma_lookup_nib(
                        child_v,
                        lk@,
                        depth as int,
                        nib as int,
                        depth as int + 1,
                    );
                    assert(spec_nibble(lk@, depth as int) as int == nib as int);
                    assert(crate::stree::s_lookup(tv, lk@, depth as int)
                        == crate::stree::s_lookup(child_v, lk@, depth as int + 1));
                }
            }
            r
        },
    }
}

} // verus!

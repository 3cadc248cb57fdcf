//! The mathematical model of the jellyfish sparse Merkle tree: a pure tree
//! shape over key and value byte sequences, with lookup, insert and delete
//! as specification functions. The executable tree refines this model.
use vstd::prelude::*;
use crate::hash::spec_nibble;

verus! {

/// The model tree. An internal node always carries exactly 16 subtrees,
/// one per nibble; empty subtrees are explicit.
pub enum STree {
    Empty,
    Leaf { key: Seq<u8>, value: Seq<u8> },
    Node { kids: Seq<STree> },
}

/// Sixteen empty subtrees.
pub open spec fn s_empty16() -> Seq<STree> {
    Seq::new(16, |i: int| STree::Empty)
}

/// The value stored under `k`, walking by the nibble at each depth.
/// A leaf matches only on its full key, so a lookup is insensitive to the
/// exact depth at which path compression placed the leaf.
pub open spec fn s_lookup(t: STree, k: Seq<u8>, d: int) -> Option<Seq<u8>>
    decreases t,
{
    match t {
        STree::Empty => None,
        STree::Leaf { key, value } => if key == k {
            Some(value)
        } else {
            None
        },
        STree::Node { kids } => if kids.len() == 16 {
            s_lookup(kids[spec_nibble(k, d) as int], k, d + 1)
        } else {
            None
        },
    }
}

/// The tree after associating `k` with `v`. When two leaves would collide,
/// internal nodes are extended one level per shared nibble until the paths
/// diverge.
pub open spec fn s_insert(t: STree, k: Seq<u8>, v: Seq<u8>, d: int) -> STree
    decreases 64 - d,
{
    match t {
        STree::Empty => STree::Leaf { key: k, value: v },
        STree::Leaf { key, value } => if key == k {
            STree::Leaf { key: k, value: v }
        } else if d < 0 || d >= 64 {
            t
        } else if spec_nibble(key, d) == spec_nibble(k, d) {
            STree::Node {
                kids: s_empty16().update(
                    spec_nibble(k, d) as int,
                    s_insert(STree::Leaf { key, value }, k, v, d + 1),
                ),
            }
        } else {
            STree::Node {
                kids: s_empty16().update(
                    spec_nibble(key, d) as int,
                    STree::Leaf { key, value },
                ).update(spec_nibble(k, d) as int, STree::Leaf { key: k, value: v }),
            }
        },
        STree::Node { kids } => if kids.len() == 16 && 0 <= d < 64 {
            STree::Node {
                kids: kids.update(
                    spec_nibble(k, d) as int,
                    s_insert(kids[spec_nibble(k, d) as int], k, v, d + 1),
                ),
            }
        } else {
            t
        },
    }
}

/// Every leaf key in `t` has nibble `i` at position `d`: the condition for
/// `t` to stand as child `i` of an internal node at depth `d`.
pub open spec fn s_nib_ok(t: STree, d: int, i: int) -> bool
    decreases t,
{
    match t {
        STree::Empty => true,
        STree::Leaf { key, value } => spec_nibble(key, d) as int == i,
        STree::Node { kids } => forall|j: int| 0 <= j < kids.len() ==> s_nib_ok(
            #[trigger] kids[j],
            d,
            i,
        ),
    }
}

/// Structural soundness of a subtree rooted at depth `d`: keys are 32
/// bytes, internal nodes sit above depth 64 with 16 children, and each
/// child only holds keys whose nibble at `d` selects it.
pub open spec fn s_ok(t: STree, d: int) -> bool
    decreases t,
{
    match t {
        STree::Empty => true,
        STree::Leaf { key, value } => key.len() == 32,
        STree::Node { kids } => 0 <= d < 64 && kids.len() == 16 && (forall|i: int|
            0 <= i < 16 ==> s_ok(#[trigger] kids[i], d + 1)) && (forall|i: int|
            0 <= i < 16 ==> s_nib_ok(#[trigger] kids[i], d, i)),
    }
}

/// Every leaf key in `t` agrees with `k` on all nibbles before `d`: what a
/// walk along `k`'s path guarantees about the subtree it reaches at `d`.
pub open spec fn s_agree(t: STree, k: Seq<u8>, d: int) -> bool
    decreases t,
{
    match t {
        STree::Empty => true,
        STree::Leaf { key, value } => forall|j: int| 0 <= j < d ==> spec_nibble(key, j)
            == spec_nibble(k, j),
        STree::Node { kids } => forall|i: int| 0 <= i < kids.len() ==> s_agree(
            #[trigger] kids[i],
            k,
            d,
        ),
    }
}

/// How many of the first `n` subtrees are non-empty.
pub open spec fn s_nonempty_count(kids: Seq<STree>, n: int) -> int
    decreases n,
{
    if n <= 0 {
        0
    } else {
        s_nonempty_count(kids, n - 1) + if kids[n - 1] is Empty {
            0int
        } else {
            1int
        }
    }
}

/// The position of the first non-empty subtree at or after `i`, or 16.
pub open spec fn s_first_nonempty(kids: Seq<STree>, i: int) -> int
    decreases 16 - i,
{
    if i < 0 || i >= 16 {
        16
    } else if !(kids[i] is Empty) {
        i
    } else {
        s_first_nonempty(kids, i + 1)
    }
}

/// The tree after removing `k`. An internal node left with a single leaf
/// collapses to that leaf, compacting the path; one left with no children
/// collapses to the empty tree.
pub open spec fn s_delete(t: STree, k: Seq<u8>, d: int) -> STree
    decreases t,
{
    match t {
        STree::Empty => STree::Empty,
        STree::Leaf { key, value } => if key == k {
            STree::Empty
        } else {
            t
        },
        STree::Node { kids } => if kids.len() == 16 {
            s_collapse(
                kids.update(
                    spec_nibble(k, d) as int,
                    s_delete(kids[spec_nibble(k, d) as int], k, d + 1),
                ),
            )
        } else {
            t
        },
    }
}

/// Path compaction after a removal.
pub open spec fn s_collapse(kids: Seq<STree>) -> STree {
    if s_nonempty_count(kids, 16) == 0 {
        STree::Empty
    } else if s_nonempty_count(kids, 16) == 1 && kids[s_first_nonempty(kids, 0)] is Leaf {
        kids[s_first_nonempty(kids, 0)]
    } else {
        STree::Node { kids }
    }
}

} // verus!

verus! {

/// Two distinct 32-byte keys that agree on every nibble before `d` differ
/// at some nibble position in `[d, 64)`.
pub proof fn lemma_keys_differ_nibble(k1: Seq<u8>, k2: Seq<u8>, d: int)
    requires
        k1.len() == 32,
        k2.len() == 32,
        k1 != k2,
        0 <= d <= 64,
        forall|j: int| 0 <= j < d ==> spec_nibble(k1, j) == spec_nibble(k2, j),
    ensures
        exists|j: int| d <= j < 64 && spec_nibble(k1, j) != spec_nibble(k2, j),
{
    assert(exists|i: int| 0 <= i < 32 && k1[i] != k2[i]) by {
        if forall|i: int| 0 <= i < 32 ==> k1[i] == k2[i] {
            assert(k1 =~= k2);
        }
    }
    let bi = choose|i: int| 0 <= i < 32 && k1[i] != k2[i];
    assert(spec_nibble(k1, 2 * bi) == k1[bi] / 16);
    assert(spec_nibble(k1, 2 * bi + 1) == k1[bi] % 16);
    assert(spec_nibble(k2, 2 * bi) == k2[bi] / 16);
    assert(spec_nibble(k2, 2 * bi + 1) == k2[bi] % 16);
    if spec_nibble(k1, 2 * bi) == spec_nibble(k2, 2 * bi) && spec_nibble(k1, 2 * bi + 1)
        == spec_nibble(k2, 2 * bi + 1) {
        assert(k1[bi] == k1[bi] / 16 * 16 + k1[bi] % 16);
        assert(k2[bi] == k2[bi] / 16 * 16 + k2[bi] % 16);
        assert(false);
    }
    if spec_nibble(k1, 2 * bi) != spec_nibble(k2, 2 * bi) {
        assert(d <= 2 * bi < 64 && spec_nibble(k1, 2 * bi) != spec_nibble(k2, 2 * bi));
    } else {
        assert(d <= 2 * bi + 1 < 64 && spec_nibble(k1, 2 * bi + 1) != spec_nibble(k2, 2 * bi + 1));
    }
}

/// A walk that starts at the root constrains nothing yet.
pub proof fn lemma_agree_zero(t: STree, k: Seq<u8>)
    ensures
        s_agree(t, k, 0),
    decreases t,
{
    match t {
        STree::Empty => {},
        STree::Leaf { key, value } => {},
        STree::Node { kids } => {
            assert forall|i: int| 0 <= i < kids.len() implies s_agree(#[trigger] kids[i], k, 0) by {
                lemma_agree_zero(kids[i], k);
            }
        },
    }
}

/// Agreement below `d` plus the right nibble at `d` extends agreement to
/// below `d + 1`.
pub proof fn lemma_agree_extend(t: STree, k: Seq<u8>, d: int)
    requires
        s_agree(t, k, d),
        s_nib_ok(t, d, spec_nibble(k, d) as int),
    ensures
        s_agree(t, k, d + 1),
    decreases t,
{
    match t {
        STree::Empty => {},
        STree::Leaf { key, value } => {},
        STree::Node { kids } => {
            assert forall|i: int| 0 <= i < kids.len() implies s_agree(#[trigger] kids[i], k, d + 1)
            by {
                lemma_agree_extend(kids[i], k, d);
            }
        },
    }
}

/// The count never goes negative.
pub proof fn lemma_count_nonneg(kids: Seq<STree>, n: int)
    ensures
        s_nonempty_count(kids, n) >= 0,
    decreases n,
{
    if n > 0 {
        lemma_count_nonneg(kids, n - 1);
    }
}

/// A non-empty entry below `n` makes the count at least one.
pub proof fn lemma_count_ge_one(kids: Seq<STree>, j: int, n: int)
    requires
        0 <= j < n,
        !(kids[j] is Empty),
    ensures
        s_nonempty_count(kids, n) >= 1,
    decreases n,
{
    lemma_count_nonneg(kids, n - 1);
    if j < n - 1 {
        lemma_count_ge_one(kids, j, n - 1);
    }
}

/// Two non-empty entries below `n` make the count at least two.
pub proof fn lemma_count_ge_two(kids: Seq<STree>, j1: int, j2: int, n: int)
    requires
        0 <= j1 < j2 < n,
        !(kids[j1] is Empty),
        !(kids[j2] is Empty),
    ensures
        s_nonempty_count(kids, n) >= 2,
    decreases n,
{
    if j2 < n - 1 {
        lemma_count_ge_two(kids, j1, j2, n - 1);
    } else {
        lemma_count_ge_one(kids, j1, n - 1);
    }
}

/// What the first-non-empty scan returns.
pub proof fn lemma_first_props(kids: Seq<STree>, i: int)
    requires
        0 <= i <= 16,
    ensures
        i <= s_first_nonempty(kids, i) <= 16,
        s_first_nonempty(kids, i) < 16 ==> !(kids[s_first_nonempty(kids, i)] is Empty),
        forall|j: int| i <= j < s_first_nonempty(kids, i) ==> kids[j] is Empty,
    decreases 16 - i,
{
    if i < 16 && kids[i] is Empty {
        lemma_first_props(kids, i + 1);
    }
}

/// A count of zero means every entry is empty; a count of one pins every
/// entry but the first non-empty one to empty.
pub proof fn lemma_count_cases(kids: Seq<STree>)
    ensures
        s_nonempty_count(kids, 16) == 0 ==> forall|j: int| 0 <= j < 16 ==> kids[j] is Empty,
        s_nonempty_count(kids, 16) == 1 ==> {
            let f = s_first_nonempty(kids, 0);
            &&& 0 <= f < 16
            &&& !(kids[f] is Empty)
            &&& forall|j: int| 0 <= j < 16 && j != f ==> kids[j] is Empty
        },
{
    lemma_first_props(kids, 0);
    let f = s_first_nonempty(kids, 0);
    if s_nonempty_count(kids, 16) == 0 {
        assert forall|j: int| 0 <= j < 16 implies kids[j] is Empty by {
            if !(kids[j] is Empty) {
                lemma_count_ge_one(kids, j, 16);
            }
        }
    }
    if s_nonempty_count(kids, 16) == 1 {
        if f == 16 {
            assert forall|j: int| 0 <= j < 16 implies kids[j] is Empty by {}
            assert(s_nonempty_count(kids, 16) == 0) by {
                lemma_count_all_empty(kids, 16);
            }
            assert(false);
        }
        assert forall|j: int| 0 <= j < 16 && j != f implies kids[j] is Empty by {
            if !(kids[j] is Empty) {
                if j < f {
                    lemma_count_ge_two(kids, j, f, 16);
                } else {
                    lemma_count_ge_two(kids, f, j, 16);
                }
            }
        }
    }
}

/// All-empty entries count to zero.
pub proof fn lemma_count_all_empty(kids: Seq<STree>, n: int)
    requires
        forall|j: int| 0 <= j < n ==> kids[j] is Empty,
    ensures
        s_nonempty_count(kids, n) == 0,
    decreases n,
{
    if n > 0 {
        lemma_count_all_empty(kids, n - 1);
    }
}

} // verus!

verus! {

/// After inserting `k -> v`, looking up `k` finds `v`.
pub proof fn lemma_insert_same(t: STree, k: Seq<u8>, v: Seq<u8>, d: int)
    requires
        s_ok(t, d),
        s_agree(t, k, d),
        k.len() == 32,
        0 <= d <= 64,
    ensures
        s_lookup(s_insert(t, k, v, d), k, d) == Some(v),
    decreases 64 - d,
{
    match t {
        STree::Empty => {
            assert(s_insert(t, k, v, d) == STree::Leaf { key: k, value: v });
            assert(s_lookup(s_insert(t, k, v, d), k, d) == Some(v));
        },
        STree::Leaf { key, value } => {
            if key == k {
                assert(s_insert(t, k, v, d) == STree::Leaf { key: k, value: v });
                assert(s_lookup(s_insert(t, k, v, d), k, d) == Some(v));
            } else {
                lemma_keys_differ_nibble(key, k, d);
                let w = choose|j: int| d <= j < 64 && spec_nibble(key, j) != spec_nibble(k, j);
                assert(d < 64);
                if spec_nibble(key, d) == spec_nibble(k, d) {
                    let sub = s_insert(STree::Leaf { key, value }, k, v, d + 1);
                    assert(s_agree(STree::Leaf { key, value }, k, d + 1));
                    lemma_insert_same(STree::Leaf { key, value }, k, v, d + 1);
                    let kids = s_empty16().update(spec_nibble(k, d) as int, sub);
                    assert(kids.len() == 16);
                    assert(kids[spec_nibble(k, d) as int] == sub);
                    assert(s_insert(t, k, v, d) == STree::Node { kids });
                    assert(s_lookup(sub, k, d + 1) == Some(v));
                    assert(s_lookup(STree::Node { kids }, k, d) == s_lookup(
                        kids[spec_nibble(k, d) as int],
                        k,
                        d + 1,
                    ));
                    assert(s_lookup(s_insert(t, k, v, d), k, d) == Some(v));
                } else {
                    let kids = s_empty16().update(
                        spec_nibble(key, d) as int,
                        STree::Leaf { key, value },
                    ).update(spec_nibble(k, d) as int, STree::Leaf { key: k, value: v });
                    assert(kids.len() == 16);
                    assert(kids[spec_nibble(k, d) as int] == STree::Leaf { key: k, value: v });
                    assert(s_insert(t, k, v, d) == STree::Node { kids });
                    assert(s_lookup(kids[spec_nibble(k, d) as int], k, d + 1) == Some(v));
                    assert(s_lookup(s_insert(t, k, v, d), k, d) == Some(v));
                }
            }
        },
        STree::Node { kids } => {
            assert(0 <= d < 64 && kids.len() == 16);
            let nib = spec_nibble(k, d) as int;
            let kid = kids[nib];
            assert(s_ok(kid, d + 1));
            assert(s_agree(kid, k, d));
            assert(s_nib_ok(kid, d, nib));
            lemma_agree_extend(kid, k, d);
            lemma_insert_same(kid, k, v, d + 1);
            let kids2 = kids.update(nib, s_insert(kid, k, v, d + 1));
            assert(kids2.len() == 16);
            assert(kids2[nib] == s_insert(kid, k, v, d + 1));
            assert(s_insert(t, k, v, d) == STree::Node { kids: kids2 });
            assert(s_lookup(s_insert(t, k, v, d), k, d) == Some(v));
        },
    }
}

/// Inserting `k -> v` leaves the binding of any other key alone.
pub proof fn lemma_insert_other(t: STree, k: Seq<u8>, v: Seq<u8>, k2: Seq<u8>, d: int)
    requires
        k2 != k,
    ensures
        s_lookup(s_insert(t, k, v, d), k2, d) == s_lookup(t, k2, d),
    decreases 64 - d,
{
    match t {
        STree::Empty => {},
        STree::Leaf { key, value } => {
            if key == k {
            } else if d < 0 || d >= 64 {
            } else {
                let nib_k = spec_nibble(k, d) as int;
                let nib_key = spec_nibble(key, d) as int;
                let nib_k2 = spec_nibble(k2, d) as int;
                assert(0 <= nib_k < 16);
                assert(0 <= nib_key < 16);
                assert(0 <= nib_k2 < 16);
                if nib_key == nib_k {
                    let sub = s_insert(STree::Leaf { key, value }, k, v, d + 1);
                    let kids = s_empty16().update(nib_k, sub);
                    assert(kids.len() == 16);
                    assert(s_insert(t, k, v, d) == STree::Node { kids });
                    if nib_k2 == nib_k {
                        lemma_insert_other(STree::Leaf { key, value }, k, v, k2, d + 1);
                        assert(s_lookup(kids[nib_k2], k2, d + 1) == s_lookup(
                            STree::Leaf { key, value },
                            k2,
                            d + 1,
                        ));
                        assert(s_lookup(STree::Leaf { key, value }, k2, d + 1) == s_lookup(
                            t,
                            k2,
                            d,
                        ));
                    } else {
                        assert(kids[nib_k2] == s_empty16()[nib_k2]);
                        assert(kids[nib_k2] is Empty);
                        assert(s_lookup(kids[nib_k2], k2, d + 1) is None);
                        if key == k2 {
                            assert(spec_nibble(key, d) == spec_nibble(k2, d));
                            assert(false);
                        }
                        assert(s_lookup(t, k2, d) is None);
                    }
                } else {
                    let kids = s_empty16().update(nib_key, STree::Leaf { key, value }).update(
                        nib_k,
                        STree::Leaf { key: k, value: v },
                    );
                    assert(kids.len() == 16);
                    assert(s_insert(t, k, v, d) == STree::Node { kids });
                    if nib_k2 == nib_k {
                        assert(kids[nib_k2] == STree::Leaf { key: k, value: v });
                        assert(s_lookup(kids[nib_k2], k2, d + 1) is None);
                        if key == k2 {
                            assert(spec_nibble(key, d) == spec_nibble(k2, d));
                            assert(false);
                        }
                        assert(s_lookup(t, k2, d) is None);
                    } else if nib_k2 == nib_key {
                        assert(kids[nib_k2] == STree::Leaf { key, value });
                        assert(s_lookup(kids[nib_k2], k2, d + 1) == s_lookup(t, k2, d));
                    } else {
                        assert(kids[nib_k2] == s_empty16()[nib_k2]);
                        assert(kids[nib_k2] is Empty);
                        assert(s_lookup(kids[nib_k2], k2, d + 1) is None);
                        if key == k2 {
                            assert(spec_nibble(key, d) == spec_nibble(k2, d));
                            assert(false);
                        }
                        assert(s_lookup(t, k2, d) is None);
                    }
                }
            }
        },
        STree::Node { kids } => {
            if kids.len() == 16 && 0 <= d < 64 {
                let nib_k = spec_nibble(k, d) as int;
                let nib_k2 = spec_nibble(k2, d) as int;
                assert(0 <= nib_k < 16);
                assert(0 <= nib_k2 < 16);
                let kids2 = kids.update(nib_k, s_insert(kids[nib_k], k, v, d + 1));
                assert(kids2.len() == 16);
                assert(s_insert(t, k, v, d) == STree::Node { kids: kids2 });
                if nib_k2 == nib_k {
                    lemma_insert_other(kids[nib_k], k, v, k2, d + 1);
                    assert(s_lookup(kids2[nib_k2], k2, d + 1) == s_lookup(kids[nib_k2], k2, d + 1));
                } else {
                    assert(kids2[nib_k2] == kids[nib_k2]);
                    assert(s_lookup(kids2[nib_k2], k2, d + 1) == s_lookup(kids[nib_k2], k2, d + 1));
                }
                assert(s_lookup(s_insert(t, k, v, d), k2, d) == s_lookup(kids2[nib_k2], k2, d + 1));
                assert(s_lookup(t, k2, d) == s_lookup(kids[nib_k2], k2, d + 1));
            }
        },
    }
}

/// Re-inserting a binding the tree already holds changes nothing.
pub proof fn lemma_insert_noop(t: STree, k: Seq<u8>, v: Seq<u8>, d: int)
    requires
        s_lookup(t, k, d) == Some(v),
    ensures
        s_insert(t, k, v, d) == t,
    decreases t,
{
    match t {
        STree::Empty => {},
        STree::Leaf { key, value } => {
            assert(key == k && value == v);
        },
        STree::Node { kids } => {
            assert(kids.len() == 16);
            if 0 <= d < 64 {
                let nib = spec_nibble(k, d) as int;
                assert(0 <= nib < 16);
                lemma_insert_noop(kids[nib], k, v, d + 1);
                assert(kids.update(nib, kids[nib]) =~= kids);
            }
        },
    }
}

} // verus!

verus! {

/// Insertion keeps the tree structurally sound, and keeps every
/// nibble-position constraint that the new key itself satisfies.
pub proof fn lemma_insert_preserves_ok(t: STree, k: Seq<u8>, v: Seq<u8>, d: int)
    requires
        s_ok(t, d),
        s_agree(t, k, d),
        k.len() == 32,
        0 <= d <= 64,
    ensures
        s_ok(s_insert(t, k, v, d), d),
        forall|dj: int, i: int|
            #![trigger s_nib_ok(s_insert(t, k, v, d), dj, i)]
            s_nib_ok(t, dj, i) && spec_nibble(k, dj) as int == i ==> s_nib_ok(
                s_insert(t, k, v, d),
                dj,
                i,
            ),
    decreases 64 - d,
{
    let r = s_insert(t, k, v, d);
    match t {
        STree::Empty => {
            assert(r == STree::Leaf { key: k, value: v });
        },
        STree::Leaf { key, value } => {
            if key == k {
                assert(r == STree::Leaf { key: k, value: v });
            } else if d >= 64 {
                assert(r == t);
            } else if spec_nibble(key, d) == spec_nibble(k, d) {
                let lf = STree::Leaf { key, value };
                let sub = s_insert(lf, k, v, d + 1);
                let nib_k = spec_nibble(k, d) as int;
                let kids = s_empty16().update(nib_k, sub);
                assert(r == STree::Node { kids });
                assert(s_agree(lf, k, d + 1));
                lemma_insert_preserves_ok(lf, k, v, d + 1);
                assert(s_ok(sub, d + 1));
                assert(s_nib_ok(lf, d, nib_k));
                assert(s_nib_ok(sub, d, nib_k));
                assert forall|i: int| 0 <= i < 16 implies s_ok(#[trigger] kids[i], d + 1)
                    && s_nib_ok(kids[i], d, i) by {
                    if i != nib_k {
                        assert(kids[i] == s_empty16()[i]);
                        assert(kids[i] is Empty);
                    }
                }
                assert(s_ok(r, d));
                assert forall|dj: int, i: int|
                    #![trigger s_nib_ok(s_insert(t, k, v, d), dj, i)]
                    s_nib_ok(t, dj, i) && spec_nibble(k, dj) as int == i implies s_nib_ok(
                    r,
                    dj,
                    i,
                ) by {
                    assert(s_nib_ok(sub, dj, i));
                    assert forall|j: int| 0 <= j < 16 implies s_nib_ok(#[trigger] kids[j], dj, i)
                    by {
                        if j != nib_k {
                            assert(kids[j] == s_empty16()[j]);
                            assert(kids[j] is Empty);
                        }
                    }
                }
            } else {
                let nib_key = spec_nibble(key, d) as int;
                let nib_k = spec_nibble(k, d) as int;
                let lf = STree::Leaf { key, value };
                let nl = STree::Leaf { key: k, value: v };
                let kids = s_empty16().update(nib_key, lf).update(nib_k, nl);
                assert(r == STree::Node { kids });
                assert forall|i: int| 0 <= i < 16 implies s_ok(#[trigger] kids[i], d + 1)
                    && s_nib_ok(kids[i], d, i) by {
                    if i != nib_k && i != nib_key {
                        assert(kids[i] == s_empty16()[i]);
                        assert(kids[i] is Empty);
                    }
                }
                assert(s_ok(r, d));
                assert forall|dj: int, i: int|
                    #![trigger s_nib_ok(s_insert(t, k, v, d), dj, i)]
                    s_nib_ok(t, dj, i) && spec_nibble(k, dj) as int == i implies s_nib_ok(
                    r,
                    dj,
                    i,
                ) by {
                    assert forall|j: int| 0 <= j < 16 implies s_nib_ok(#[trigger] kids[j], dj, i)
                    by {
                        if j != nib_k && j != nib_key {
                            assert(kids[j] == s_empty16()[j]);
                            assert(kids[j] is Empty);
                        }
                    }
                }
            }
        },
        STree::Node { kids } => {
            let nib_k = spec_nibble(k, d) as int;
            let kid = kids[nib_k];
            let sub = s_insert(kid, k, v, d + 1);
            let kids2 = kids.update(nib_k, sub);
            assert(r == STree::Node { kids: kids2 });
            assert(s_agree(kid, k, d));
            assert(s_nib_ok(kid, d, nib_k));
            lemma_agree_extend(kid, k, d);
            lemma_insert_preserves_ok(kid, k, v, d + 1);
            assert forall|i: int| 0 <= i < 16 implies s_ok(#[trigger] kids2[i], d + 1)
                && s_nib_ok(kids2[i], d, i) by {
                if i != nib_k {
                    assert(kids2[i] == kids[i]);
                }
            }
            assert(s_ok(r, d));
            assert forall|dj: int, i: int|
                #![trigger s_nib_ok(s_insert(t, k, v, d), dj, i)]
                s_nib_ok(t, dj, i) && spec_nibble(k, dj) as int == i implies s_nib_ok(
                r,
                dj,
                i,
            ) by {
                assert(s_nib_ok(kid, dj, i));
                assert(s_nib_ok(sub, dj, i));
                assert forall|j: int| 0 <= j < 16 implies s_nib_ok(#[trigger] kids2[j], dj, i) by {
                    if j != nib_k {
                        assert(kids2[j] == kids[j]);
                        assert(s_nib_ok(kids[j], dj, i));
                    }
                }
            }
        },
    }
}

} // verus!

verus! {

/// Deletion keeps the tree structurally sound and never adds leaf keys.
pub proof fn lemma_delete_preserves_ok(t: STree, k: Seq<u8>, d: int)
    requires
        s_ok(t, d),
    ensures
        s_ok(s_delete(t, k, d), d),
        forall|dj: int, i: int|
            #![trigger s_nib_ok(s_delete(t, k, d), dj, i)]
            s_nib_ok(t, dj, i) ==> s_nib_ok(s_delete(t, k, d), dj, i),
    decreases t,
{
    let r = s_delete(t, k, d);
    match t {
        STree::Empty => {},
        STree::Leaf { key, value } => {},
        STree::Node { kids } => {
            let nib = spec_nibble(k, d) as int;
            let kid = kids[nib];
            let dk = s_delete(kid, k, d + 1);
            let kids2 = kids.update(nib, dk);
            lemma_delete_preserves_ok(kid, k, d + 1);
            assert(r == s_collapse(kids2));
            assert forall|i: int| 0 <= i < 16 implies s_ok(#[trigger] kids2[i], d + 1)
                && s_nib_ok(kids2[i], d, i) by {
                if i != nib {
                    assert(kids2[i] == kids[i]);
                } else {
                    assert(s_nib_ok(kid, d, nib));
                    assert(s_nib_ok(dk, d, nib));
                }
            }
            lemma_count_cases(kids2);
            lemma_first_props(kids2, 0);
            let f = s_first_nonempty(kids2, 0);
            if s_nonempty_count(kids2, 16) == 0 {
                assert(r is Empty);
            } else if s_nonempty_count(kids2, 16) == 1 && kids2[f] is Leaf {
                assert(r == kids2[f]);
                assert(s_ok(kids2[f], d + 1));
                assert(s_ok(r, d));
                assert forall|dj: int, i: int|
                    #![trigger s_nib_ok(s_delete(t, k, d), dj, i)]
                    s_nib_ok(t, dj, i) implies s_nib_ok(r, dj, i) by {
                    if f == nib {
                        assert(s_nib_ok(kid, dj, i));
                        assert(s_nib_ok(dk, dj, i));
                    } else {
                        assert(s_nib_ok(kids[f], dj, i));
                    }
                }
            } else {
                assert(r == STree::Node { kids: kids2 });
                assert(s_ok(r, d));
                assert forall|dj: int, i: int|
                    #![trigger s_nib_ok(s_delete(t, k, d), dj, i)]
                    s_nib_ok(t, dj, i) implies s_nib_ok(r, dj, i) by {
                    assert(s_nib_ok(kid, dj, i));
                    assert(s_nib_ok(dk, dj, i));
                    assert forall|j: int| 0 <= j < 16 implies s_nib_ok(#[trigger] kids2[j], dj, i)
                    by {
                        if j != nib {
                            assert(kids2[j] == kids[j]);
                            assert(s_nib_ok(kids[j], dj, i));
                        }
                    }
                }
            }
        },
    }
}

/// After deleting `k`, looking up `k` finds nothing.
pub proof fn lemma_delete_same(t: STree, k: Seq<u8>, d: int)
    requires
        s_ok(t, d),
    ensures
        s_lookup(s_delete(t, k, d), k, d) is None,
    decreases t,
{
    let r = s_delete(t, k, d);
    match t {
        STree::Empty => {},
        STree::Leaf { key, value } => {},
        STree::Node { kids } => {
            let nib = spec_nibble(k, d) as int;
            let kid = kids[nib];
            let dk = s_delete(kid, k, d + 1);
            let kids2 = kids.update(nib, dk);
            lemma_delete_same(kid, k, d + 1);
            assert(s_lookup(dk, k, d + 1) is None);
            assert(r == s_collapse(kids2));
            lemma_count_cases(kids2);
            lemma_first_props(kids2, 0);
            let f = s_first_nonempty(kids2, 0);
            if s_nonempty_count(kids2, 16) == 0 {
                assert(r is Empty);
            } else if s_nonempty_count(kids2, 16) == 1 && kids2[f] is Leaf {
                assert(r == kids2[f]);
                if f == nib {
                    assert(s_lookup(r, k, d + 1) is None);
                    assert(s_lookup(r, k, d) is None);
                } else {
                    assert(kids2[f] == kids[f]);
                    assert(s_nib_ok(kids[f], d, f));
                    let lk = r->Leaf_key;
                    assert(spec_nibble(lk, d) as int == f);
                    assert(lk != k);
                    assert(s_lookup(r, k, d) is None);
                }
            } else {
                assert(r == STree::Node { kids: kids2 });
                assert(s_lookup(r, k, d) == s_lookup(kids2[nib], k, d + 1));
            }
        },
    }
}

/// Deleting `k` leaves the binding of any other key alone.
pub proof fn lemma_delete_other(t: STree, k: Seq<u8>, k2: Seq<u8>, d: int)
    requires
        s_ok(t, d),
        k2 != k,
    ensures
        s_lookup(s_delete(t, k, d), k2, d) == s_lookup(t, k2, d),
    decreases t,
{
    let r = s_delete(t, k, d);
    match t {
        STree::Empty => {},
        STree::Leaf { key, value } => {},
        STree::Node { kids } => {
            let nib = spec_nibble(k, d) as int;
            let nib2 = spec_nibble(k2, d) as int;
            let kid = kids[nib];
            let dk = s_delete(kid, k, d + 1);
            let kids2 = kids.update(nib, dk);
            lemma_delete_other(kid, k, k2, d + 1);
            lemma_delete_preserves_ok(kid, k, d + 1);
            assert(s_lookup(dk, k2, d + 1) == s_lookup(kid, k2, d + 1));
            assert(r == s_collapse(kids2));
            assert(s_lookup(t, k2, d) == s_lookup(kids[nib2], k2, d + 1));
            lemma_count_cases(kids2);
            lemma_first_props(kids2, 0);
            let f = s_first_nonempty(kids2, 0);
            if s_nonempty_count(kids2, 16) == 0 {
                assert(r is Empty);
                if nib2 == nib {
                    assert(dk is Empty);
                    assert(s_lookup(kids[nib2], k2, d + 1) == s_lookup(dk, k2, d + 1));
                } else {
                    assert(kids2[nib2] == kids[nib2]);
                    assert(kids[nib2] is Empty);
                }
                assert(s_lookup(t, k2, d) is None);
            } else if s_nonempty_count(kids2, 16) == 1 && kids2[f] is Leaf {
                assert(r == kids2[f]);
                let lk = r->Leaf_key;
                if f == nib {
                    assert(r == dk);
                    assert(s_nib_ok(kid, d, nib));
                    assert(s_nib_ok(dk, d, nib));
                    assert(spec_nibble(lk, d) as int == nib);
                    if nib2 == nib {
                        assert(s_lookup(r, k2, d) == s_lookup(dk, k2, d + 1));
                    } else {
                        assert(kids2[nib2] == kids[nib2]);
                        assert(kids[nib2] is Empty);
                        assert(s_lookup(t, k2, d) is None);
                        assert(lk != k2);
                        assert(s_lookup(r, k2, d) is None);
                    }
                } else {
                    assert(kids2[f] == kids[f]);
                    assert(s_nib_ok(kids[f], d, f));
                    assert(spec_nibble(lk, d) as int == f);
                    if nib2 == f {
                        assert(s_lookup(r, k2, d) == s_lookup(kids[nib2], k2, d + 1));
                    } else {
                        assert(lk != k2);
                        assert(s_lookup(r, k2, d) is None);
                        if nib2 == nib {
                            assert(dk == kids2[nib]);
                            assert(dk is Empty);
                            assert(s_lookup(kids[nib2], k2, d + 1) == s_lookup(dk, k2, d + 1));
                        } else {
                            assert(kids2[nib2] == kids[nib2]);
                            assert(kids[nib2] is Empty);
                        }
                        assert(s_lookup(t, k2, d) is None);
                    }
                }
            } else {
                assert(r == STree::Node { kids: kids2 });
                if nib2 == nib {
                    assert(s_lookup(r, k2, d) == s_lookup(dk, k2, d + 1));
                } else {
                    assert(kids2[nib2] == kids[nib2]);
                    assert(s_lookup(r, k2, d) == s_lookup(kids2[nib2], k2, d + 1));
                }
            }
        },
    }
}

} // verus!

verus! {

/// A key bound anywhere inside a child constrained to nibble `i` at
/// position `d` has nibble `i` there itself.
pub proof fn lemma_lookup_nib(t: STree, k: Seq<u8>, d: int, i: int, dl: int)
    requires
        s_nib_ok(t, d, i),
        s_lookup(t, k, dl) is Some,
    ensures
        spec_nibble(k, d) as int == i,
    decreases t,
{
    match t {
        STree::Empty => {},
        STree::Leaf { key, value } => {
            assert(key == k);
        },
        STree::Node { kids } => {
            lemma_lookup_nib(kids[spec_nibble(k, dl) as int], k, d, i, dl + 1);
        },
    }
}

} // verus!

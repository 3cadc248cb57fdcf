//! The executable tree: an owned node structure whose every node caches its
//! subtree hash. Well-formedness ties each cached hash to the hashing rule
//! over the node's abstract view.
use vstd::prelude::*;
use crate::hash::{
    spec_placeholder, spec_leaf_hash, spec_internal_hash, HashValue,
};
use crate::stree::{STree, s_ok, s_agree, s_nib_ok, s_lookup, s_insert, lemma_agree_extend, lemma_keys_differ_nibble};
use crate::hash::{spec_nibble, nibble_at};
use crate::node::{Node, n_hash, n_wf};

verus! {

/// An in-memory tree node. `hash` caches the Merkle hash of the subtree.
pub enum TreeNode {
    Empty,
    Leaf { hash: HashValue, key: HashValue, value: Vec<u8> },
    Internal { hash: HashValue, children: Vec<TreeNode> },
}

/// The cached subtree hash, the placeholder standing in for an empty tree.
pub open spec fn t_hash(t: TreeNode) -> Seq<u8> {
    match t {
        TreeNode::Empty => spec_placeholder(),
        TreeNode::Leaf { hash, .. } => hash@,
        TreeNode::Internal { hash, .. } => hash@,
    }
}

/// The abstract views of the first `n` children.
pub open spec fn t_view_kids(children: Seq<TreeNode>, n: int) -> Seq<STree>
    decreases children, n,
{
    if n <= 0 || n > children.len() {
        Seq::empty()
    } else {
        t_view_kids(children, n - 1).push(t_view(children[n - 1]))
    }
}

/// The abstract tree this node represents.
pub open spec fn t_view(t: TreeNode) -> STree
    decreases t, 0int,
{
    match t {
        TreeNode::Empty => STree::Empty,
        TreeNode::Leaf { hash, key, value } => STree::Leaf { key: key@, value: value@ },
        TreeNode::Internal { hash, children } => STree::Node {
            kids: t_view_kids(children@, children@.len() as int),
        },
    }
}

/// The child views line up index by index with the children.
pub proof fn lemma_t_view_kids(children: Seq<TreeNode>, n: int)
    requires
        0 <= n <= children.len(),
    ensures
        t_view_kids(children, n).len() == n,
        forall|i: int| 0 <= i < n ==> t_view_kids(children, n)[i] == t_view(children[i]),
    decreases n,
{
    if n > 0 {
        lemma_t_view_kids(children, n - 1);
    }
}

/// Well-formedness: keys are 32 bytes, internal nodes carry 16 children,
/// and every cached hash equals the hashing rule applied to the node.
pub open spec fn t_wf(t: TreeNode) -> bool
    decreases t,
{
    match t {
        TreeNode::Empty => true,
        TreeNode::Leaf { hash, key, value } => key@.len() == 32 && hash.wf() && hash@
            == spec_leaf_hash(key@, value@),
        TreeNode::Internal { hash, children } => children@.len() == 16 && hash.wf() && hash@
            == spec_internal_hash(Seq::new(16, |i: int| t_hash(children@[i]))) && (forall|i: int|
            0 <= i < 16 ==> t_wf(#[trigger] children@[i])),
    }
}

/// The cached hash is a function of the abstract view alone: two
/// well-formed trees with the same view hash identically.
pub proof fn lemma_hash_from_view(t1: TreeNode, t2: TreeNode)
    requires
        t_wf(t1),
        t_wf(t2),
        t_view(t1) == t_view(t2),
    ensures
        t_hash(t1) == t_hash(t2),
    decreases t1,
{
    match t1 {
        TreeNode::Empty => {
            assert(t_view(t2) is Empty);
            assert(t2 is Empty);
        },
        TreeNode::Leaf { hash, key, value } => {
            assert(t2 is Leaf);
        },
        TreeNode::Internal { hash, children } => {
            assert(t2 is Internal);
            let c1 = children;
            let c2 = t2->Internal_children;
            assert(c2@.len() == 16);
            lemma_t_view_kids(c1@, c1@.len() as int);
            lemma_t_view_kids(c2@, c2@.len() as int);
            assert(t_view(t1)->Node_kids == t_view_kids(c1@, c1@.len() as int));
            assert(t_view(t2)->Node_kids == t_view_kids(c2@, c2@.len() as int));
            assert forall|i: int| 0 <= i < 16 implies t_hash(c1@[i]) == t_hash(#[trigger] c2@[i])
            by {
                assert(t_view_kids(c1@, c1@.len() as int)[i] == t_view(c1@[i]));
                assert(t_view_kids(c2@, c2@.len() as int)[i] == t_view(c2@[i]));
                assert(t_view(t1)->Node_kids[i] == t_view(t2)->Node_kids[i]);
                assert(t_view(c1@[i]) == t_view(c2@[i]));
                lemma_hash_from_view(c1@[i], c2@[i]);
            }
            assert(Seq::new(16, |i: int| t_hash(c1@[i])) =~= Seq::new(
                16,
                |i: int| t_hash(c2@[i]),
            ));
        },
    }
}

} // verus!

verus! {

/// Computes the internal-node hash over the 16 children's cached hashes.
pub fn internal_hash_children(children: &Vec<TreeNode>) -> (r: HashValue)
    requires
        children@.len() == 16,
    ensures
        r@ == crate::hash::spec_internal_hash(Seq::new(16, |i: int| t_hash(children@[i]))),
        r.wf(),
{
    let ghost hs = Seq::new(16, |i: int| t_hash(children@[i]));
    let mut buf: Vec<u8> = Vec::new();
    buf.push(1u8);
    proof {
        assert(buf@ =~= seq![1u8] + crate::hash::spec_cat_hashes(hs, 0));
    }
    let mut i: usize = 0;
    while i < 16
        invariant
            i <= 16,
            children@.len() == 16,
            hs == Seq::new(16, |j: int| t_hash(children@[j])),
            buf@ == seq![1u8] + crate::hash::spec_cat_hashes(hs, i as int),
        decreases 16 - i,
    {
        match &children[i] {
            TreeNode::Empty => {
                let p = crate::hash::placeholder_hash();
                crate::hash::append_bytes(&mut buf, &p.bytes);
            },
            TreeNode::Leaf { hash, .. } => {
                crate::hash::append_bytes(&mut buf, &hash.bytes);
            },
            TreeNode::Internal { hash, .. } => {
                crate::hash::append_bytes(&mut buf, &hash.bytes);
            },
        }
        proof {
            assert(hs[i as int] == t_hash(children@[i as int]));
            assert(buf@ =~= seq![1u8] + crate::hash::spec_cat_hashes(hs, i as int + 1));
        }
        i = i + 1;
    }
    HashValue { bytes: crate::hash::sha3_digest(&buf) }
}

/// The cached hash of a node as a fresh value.
pub fn hash_of_node(t: &TreeNode) -> (r: HashValue)
    ensures
        r@ == t_hash(*t),
        t_wf(*t) ==> r.wf(),
{
    match t {
        TreeNode::Empty => crate::hash::placeholder_hash(),
        TreeNode::Leaf { hash, .. } => hash.dup(),
        TreeNode::Internal { hash, .. } => hash.dup(),
    }
}

/// What one engine operation did: the nodes it created, the nodes it
/// superseded (with a flag marking leaves), and how many new leaves it made.
pub struct UpdateBatch {
    pub nodes: Vec<(HashValue, Node)>,
    pub stale: Vec<(HashValue, bool)>,
    pub new_leaves: usize,
}

/// How many superseded nodes were leaves.
pub open spec fn stale_leaf_count(s: Seq<(HashValue, bool)>) -> int
    decreases s.len(),
{
    if s.len() == 0 {
        0
    } else {
        stale_leaf_count(s.drop_last()) + if s.last().1 {
            1int
        } else {
            0int
        }
    }
}

/// Appending one mark adds its flag to the leaf count.
pub proof fn lemma_stale_push(s: Seq<(HashValue, bool)>, e: (HashValue, bool))
    ensures
        stale_leaf_count(s.push(e)) == stale_leaf_count(s) + if e.1 {
            1int
        } else {
            0int
        },
{
    assert(s.push(e).drop_last() =~= s);
    assert(s.push(e).last() == e);
}

/// Every created node is recorded under its own hash; every stale mark
/// carries a valid hash.
pub open spec fn ub_wf(b: UpdateBatch) -> bool {
    (forall|i: int|
        0 <= i < b.nodes@.len() ==> (#[trigger] b.nodes@[i]).0.wf() && b.nodes@[i].0@ == n_hash(
            b.nodes@[i].1,
        ) && n_wf(b.nodes@[i].1)) && (forall|i: int|
        0 <= i < b.stale@.len() ==> (#[trigger] b.stale@[i]).0.wf())
}

impl UpdateBatch {
    /// An empty record.
    pub fn new() -> (r: UpdateBatch)
        ensures
            ub_wf(r),
            r.nodes@.len() == 0,
            r.stale@.len() == 0,
            r.new_leaves == 0,
    {
        UpdateBatch { nodes: Vec::new(), stale: Vec::new(), new_leaves: 0 }
    }
}

/// The persisted form of an internal node with these children.
fn persist_internal(children: &Vec<TreeNode>) -> (r: Node)
    requires
        children@.len() == 16,
        forall|i: int| 0 <= i < 16 ==> t_wf(#[trigger] children@[i]),
    ensures
        n_wf(r),
        n_hash(r) == crate::hash::spec_internal_hash(Seq::new(16, |i: int| t_hash(children@[i]))),
{
    let mut cs: Vec<Option<HashValue>> = Vec::new();
    let mut i: usize = 0;
    while i < 16
        invariant
            i <= 16,
            children@.len() == 16,
            forall|j: int| 0 <= j < 16 ==> t_wf(#[trigger] children@[j]),
            cs@.len() == i,
            forall|j: int|
                0 <= j < i ==> crate::node::n_child_hash(#[trigger] cs@[j]) == t_hash(
                    children@[j],
                ) && (cs@[j] matches Some(h) ==> h.wf()),
        decreases 16 - i,
    {
        let c: Option<HashValue> = match &children[i] {
            TreeNode::Empty => None,
            TreeNode::Leaf { hash, .. } => Some(hash.dup()),
            TreeNode::Internal { hash, .. } => Some(hash.dup()),
        };
        cs.push(c);
        i = i + 1;
    }
    let r = Node::Internal { children: cs };
    proof {
        assert(Seq::new(16, |j: int| crate::node::n_child_hash(r->Internal_children@[j])) =~= Seq::new(
            16,
            |j: int| t_hash(children@[j]),
        ));
    }
    r
}

/// Creates a fresh leaf for `key -> value` and records it as a new node.
fn make_leaf(key: &HashValue, value: &Vec<u8>, batch: &mut UpdateBatch) -> (r: TreeNode)
    requires
        key.wf(),
        ub_wf(*old(batch)),
    ensures
        t_wf(r),
        t_view(r) == (STree::Leaf { key: key@, value: value@ }),
        ub_wf(*final(batch)),
        final(batch).stale@ == old(batch).stale@,
        final(batch).new_leaves == if old(batch).new_leaves < usize::MAX {
            old(batch).new_leaves + 1
        } else {
            old(batch).new_leaves as int
        },
{
    let h = crate::hash::leaf_hash(key, value);
    batch.nodes.push((h.dup(), Node::Leaf { key: key.dup(), blob: crate::hash::copy_bytes(value) }));
    if batch.new_leaves < usize::MAX {
        batch.new_leaves = batch.new_leaves + 1;
    }
    TreeNode::Leaf { hash: h, key: key.dup(), value: crate::hash::copy_bytes(value) }
}

} // verus!

verus! {

/// Sixteen empty children.
fn empty_children() -> (r: Vec<TreeNode>)
    ensures
        r@.len() == 16,
        forall|j: int| 0 <= j < 16 ==> (#[trigger] r@[j]) is Empty,
{
    let mut children: Vec<TreeNode> = Vec::new();
    let mut i: usize = 0;
    while i < 16
        invariant
            i <= 16,
            children@.len() == i,
            forall|j: int| 0 <= j < i ==> (#[trigger] children@[j]) is Empty,
        decreases 16 - i,
    {
        children.push(TreeNode::Empty);
        i = i + 1;
    }
    children
}

/// Builds the internal node over `children`, recording it as newly created.
fn build_internal(children: Vec<TreeNode>, batch: &mut UpdateBatch) -> (r: TreeNode)
    requires
        children@.len() == 16,
        forall|i: int| 0 <= i < 16 ==> t_wf(#[trigger] children@[i]),
        ub_wf(*old(batch)),
    ensures
        t_wf(r),
        r is Internal,
        r->Internal_children@ == children@,
        ub_wf(*final(batch)),
        final(batch).stale@ == old(batch).stale@,
        final(batch).new_leaves == old(batch).new_leaves,
{
    let ih = internal_hash_children(&children);
    let pnode = persist_internal(&children);
    batch.nodes.push((ih.dup(), pnode));
    TreeNode::Internal { hash: ih, children }
}

/// Inserts `key -> value` into the subtree `t` rooted at `depth`,
/// returning the rewritten subtree. Rewritten nodes along the path are
/// marked stale; created nodes are recorded under their hashes. The
/// binding must actually change the tree: a no-op re-insert is the
/// caller's case to skip.
pub fn insert_tree(
    t: TreeNode,
    key: &HashValue,
    value: &Vec<u8>,
    depth: usize,
    batch: &mut UpdateBatch,
) -> (r: TreeNode)
    requires
        t_wf(t),
        s_ok(t_view(t), depth as int),
        s_agree(t_view(t), key@, depth as int),
        key.wf(),
        depth <= 64,
        s_lookup(t_view(t), key@, depth as int) != Some(value@),
        ub_wf(*old(batch)),
    ensures
        t_wf(r),
        t_view(r) == s_insert(t_view(t), key@, value@, depth as int),
        ub_wf(*final(batch)),
        final(batch).new_leaves == if old(batch).new_leaves < usize::MAX {
            old(batch).new_leaves + 1
        } else {
            old(batch).new_leaves as int
        },
        stale_leaf_count(final(batch).stale@) == stale_leaf_count(old(batch).stale@) + if s_lookup(
            t_view(t),
            key@,
            depth as int,
        ) is Some {
            1int
        } else {
            0int
        },
    decreases 64 - depth,
{
    match t {
        TreeNode::Empty => make_leaf(key, value, batch),
        TreeNode::Leaf { hash, key: key2, value: value2 } => {
            let ghost tv = t_view(t);
            if key2.equals(key) {
                batch.stale.push((hash, true));
                proof {
                    lemma_stale_push(old(batch).stale@, (hash, true));
                }
                make_leaf(key, value, batch)
            } else {
                proof {
                    lemma_keys_differ_nibble(key2@, key@, depth as int);
                }
                assert(depth < 64) by {
                    let j = choose|j: int|
                        depth <= j < 64 && spec_nibble(key2@, j) != spec_nibble(key@, j);
                }
                let nib2 = nibble_at(&key2, depth);
                let nibk = nibble_at(key, depth);
                let mut children = empty_children();
                if nib2 == nibk {
                    let old_leaf = TreeNode::Leaf { hash, key: key2, value: value2 };
                    proof {
                        assert(t_view(old_leaf) == tv);
                        assert(s_agree(t_view(old_leaf), key@, depth as int + 1));
                    }
                    let sub = insert_tree(old_leaf, key, value, depth + 1, batch);
                    children.set(nibk as usize, sub);
                    let r = build_internal(children, batch);
                    proof {
                        lemma_t_view_kids(r->Internal_children@, 16);
                        assert(t_view(r)->Node_kids =~= crate::stree::s_empty16().update(
                            spec_nibble(key@, depth as int) as int,
                            s_insert(tv, key@, value@, depth as int + 1),
                        ));
                    }
                    r
                } else {
                    let new_leaf = make_leaf(key, value, batch);
                    let old_leaf = TreeNode::Leaf { hash, key: key2, value: value2 };
                    children.set(nib2 as usize, old_leaf);
                    children.set(nibk as usize, new_leaf);
                    let r = build_internal(children, batch);
                    proof {
                        lemma_t_view_kids(r->Internal_children@, 16);
                        assert(t_view(r)->Node_kids =~= crate::stree::s_empty16().update(
                            spec_nibble(key2@, depth as int) as int,
                            tv,
                        ).update(
                            spec_nibble(key@, depth as int) as int,
                            STree::Leaf { key: key@, value: value@ },
                        ));
                    }
                    r
                }
            }
        },
        TreeNode::Internal { hash, children } => {
            let ghost tv = t_view(t);
            let ghost c0 = children@;
            proof {
                lemma_t_view_kids(c0, 16);
                assert(tv->Node_kids.len() == 16);
            }
            let mut children = children;
            let nib = nibble_at(key, depth);
            let ghost nibi = spec_nibble(key@, depth as int) as int;
            let child = children.remove(nib as usize);
            proof {
                assert(child == c0[nibi]);
                assert(t_view(child) == tv->Node_kids[nibi]);
                assert(s_ok(t_view(child), depth as int + 1));
                assert(s_agree(t_view(child), key@, depth as int));
                assert(s_nib_ok(t_view(child), depth as int, nibi));
                lemma_agree_extend(t_view(child), key@, depth as int);
                assert(s_lookup(tv, key@, depth as int) == s_lookup(
                    t_view(child),
                    key@,
                    depth as int + 1,
                ));
            }
            let sub = insert_tree(child, key, value, depth + 1, batch);
            children.insert(nib as usize, sub);
            proof {
                assert(children@ =~= c0.update(nibi, sub));
                assert(forall|i: int|
                    0 <= i < 16 && i != nibi ==> #[trigger] children@[i] == c0[i]);
            }
            let ghost st_before = batch.stale@;
            batch.stale.push((hash, false));
            proof {
                lemma_stale_push(st_before, (hash, false));
            }
            let r = build_internal(children, batch);
            proof {
                lemma_t_view_kids(r->Internal_children@, 16);
                assert(t_view(r)->Node_kids =~= tv->Node_kids.update(
                    nibi,
                    s_insert(tv->Node_kids[nibi], key@, value@, depth as int + 1),
                ));
            }
            r
        },
    }
}

} // verus!

verus! {

/// Reads the value bound to `key` in the subtree `t` rooted at `depth`.
pub fn lookup_tree(t: &TreeNode, key: &HashValue, depth: usize) -> (r: Option<Vec<u8>>)
    requires
        t_wf(*t),
        s_ok(t_view(*t), depth as int),
        key.wf(),
        depth <= 64,
    ensures
        match r {
            Some(v) => s_lookup(t_view(*t), key@, depth as int) == Some(v@),
            None => s_lookup(t_view(*t), key@, depth as int) is None,
        },
    decreases 64 - depth,
{
    match t {
        TreeNode::Empty => None,
        TreeNode::Leaf { key: key2, value, .. } => {
            if key2.equals(key) {
                Some(crate::hash::copy_bytes(value))
            } else {
                None
            }
        },
        TreeNode::Internal { children, .. } => {
            proof {
                lemma_t_view_kids(children@, 16);
            }
            let nib = nibble_at(key, depth);
            proof {
                assert(t_view(*t)->Node_kids[spec_nibble(key@, depth as int) as int] == t_view(
                    children@[spec_nibble(key@, depth as int) as int],
                ));
            }
            lookup_tree(&children[nib as usize], key, depth + 1)
        },
    }
}

/// Removes `key` from the subtree `t` rooted at `depth`, collapsing an
/// internal node left with a single leaf. The key must be present.
pub fn delete_tree(t: TreeNode, key: &HashValue, depth: usize, batch: &mut UpdateBatch) -> (r:
    TreeNode)
    requires
        t_wf(t),
        s_ok(t_view(t), depth as int),
        key.wf(),
        depth <= 64,
        s_lookup(t_view(t), key@, depth as int) is Some,
        ub_wf(*old(batch)),
    ensures
        t_wf(r),
        t_view(r) == crate::stree::s_delete(t_view(t), key@, depth as int),
        ub_wf(*final(batch)),
        final(batch).new_leaves == old(batch).new_leaves,
        stale_leaf_count(final(batch).stale@) == stale_leaf_count(old(batch).stale@) + 1,
    decreases 64 - depth,
{
    match t {
        TreeNode::Empty => {
            proof {
                assert(false);
            }
            TreeNode::Empty
        },
        TreeNode::Leaf { hash, key: key2, value: value2 } => {
            proof {
                assert(key2@ == key@);
            }
            let ghost st_before = batch.stale@;
            batch.stale.push((hash, true));
            proof {
                lemma_stale_push(st_before, (hash, true));
            }
            TreeNode::Empty
        },
        TreeNode::Internal { hash, children } => {
            let ghost tv = t_view(t);
            let ghost c0 = children@;
            proof {
                lemma_t_view_kids(c0, 16);
            }
            let mut children = children;
            let nib = nibble_at(key, depth);
            let ghost nibi = spec_nibble(key@, depth as int) as int;
            let child = children.remove(nib as usize);
            proof {
                assert(child == c0[nibi]);
                assert(t_view(child) == tv->Node_kids[nibi]);
                assert(s_ok(t_view(child), depth as int + 1));
                assert(s_lookup(tv, key@, depth as int) == s_lookup(
                    t_view(child),
                    key@,
                    depth as int + 1,
                ));
            }
            let sub = delete_tree(child, key, depth + 1, batch);
            children.insert(nib as usize, sub);
            proof {
                assert(children@ =~= c0.update(nibi, sub));
            }
            let ghost st_before = batch.stale@;
            batch.stale.push((hash, false));
            proof {
                lemma_stale_push(st_before, (hash, false));
            }
            let ghost kids2v = t_view_kids(children@, 16);
            proof {
                lemma_t_view_kids(children@, 16);
                assert(kids2v =~= tv->Node_kids.update(
                    nibi,
                    crate::stree::s_delete(tv->Node_kids[nibi], key@, depth as int + 1),
                ));
                assert(crate::stree::s_delete(tv, key@, depth as int) == crate::stree::s_collapse(
                    kids2v,
                ));
            }
            let mut count: usize = 0;
            let mut first: usize = 16;
            let mut i: usize = 0;
            while i < 16
                invariant
                    i <= 16,
                    children@.len() == 16,
                    kids2v == t_view_kids(children@, 16),
                    kids2v.len() == 16,
                    forall|j: int| 0 <= j < 16 ==> kids2v[j] == t_view(children@[j]),
                    count == crate::stree::s_nonempty_count(kids2v, i as int),
                    count <= i,
                    first == 16 || (first < i && !(kids2v[first as int] is Empty)),
                    first == 16 ==> forall|j: int| 0 <= j < i ==> kids2v[j] is Empty,
                    first < 16 ==> forall|j: int| 0 <= j < first ==> kids2v[j] is Empty,
                decreases 16 - i,
            {
                let nonempty = match &children[i] {
                    TreeNode::Empty => false,
                    _ => true,
                };
                proof {
                    assert(t_view(children@[i as int]) == kids2v[i as int]);
                    assert(nonempty == !(kids2v[i as int] is Empty));
                }
                if nonempty {
                    count = count + 1;
                    if first == 16 {
                        first = i;
                    }
                }
                i = i + 1;
            }
            proof {
                crate::stree::lemma_first_props(kids2v, 0);
                if first < 16 {
                    let f = crate::stree::s_first_nonempty(kids2v, 0);
                    assert(f < 16 ==> !(kids2v[f] is Empty));
                    if f < first {
                        assert(kids2v[f] is Empty);
                        assert(false);
                    }
                    if f > first {
                        assert(!(kids2v[first as int] is Empty));
                        assert(false);
                    }
                    assert(f == first);
                }
            }
            if count == 0 {
                proof {
                    assert(crate::stree::s_collapse(kids2v) is Empty);
                }
                TreeNode::Empty
            } else if count == 1 {
                proof {
                    assert(first < 16) by {
                        if first == 16 {
                            crate::stree::lemma_count_all_empty(kids2v, 16);
                        }
                    }
                }
                let c = children.remove(first);
                match c {
                    TreeNode::Leaf { hash: lh, key: lk, value: lv } => {
                        let r = TreeNode::Leaf { hash: lh, key: lk, value: lv };
                        proof {
                            assert(t_view(r) == kids2v[first as int]);
                            assert(kids2v[first as int] is Leaf);
                            assert(crate::stree::s_collapse(kids2v) == kids2v[first as int]);
                        }
                        r
                    },
                    other => {
                        children.insert(first, other);
                        proof {
                            assert(children@ =~= c0.update(nibi, sub));
                            assert(t_view_kids(children@, 16) == kids2v);
                            assert(!(kids2v[first as int] is Leaf));
                            assert(crate::stree::s_collapse(kids2v) == (STree::Node {
                                kids: kids2v,
                            }));
                        }
                        let r = build_internal(children, batch);
                        proof {
                            lemma_t_view_kids(r->Internal_children@, 16);
                            assert(t_view(r)->Node_kids =~= kids2v);
                        }
                        r
                    },
                }
            } else {
                proof {
                    crate::stree::lemma_count_nonneg(kids2v, 16);
                    assert(crate::stree::s_collapse(kids2v) == (STree::Node { kids: kids2v }));
                }
                let r = build_internal(children, batch);
                proof {
                    lemma_t_view_kids(r->Internal_children@, 16);
                    assert(t_view(r)->Node_kids =~= kids2v);
                }
                r
            }
        },
    }
}

} // verus!

verus! {

/// Materializes the subtree stored under `root`, walking the store by
/// content hash. `path` holds the nibbles walked so far; a stored leaf
/// whose key contradicts its position, a node nested deeper than the key
/// width, and an unresolvable hash are all surfaced as `MissingNode`.
pub fn load_tree(
    store: &crate::store::MockStateNodeStore,
    root: &HashValue,
    depth: usize,
    path: &Vec<u8>,
) -> (r: Result<TreeNode, crate::StateError>)
    requires
        store.wf(),
        root.wf(),
        depth <= 64,
        path@.len() == depth,
    ensures
        r matches Ok(t) ==> t_wf(t) && t_hash(t) == root@ && s_ok(t_view(t), depth as int) && (
        forall|j: int| 0 <= j < depth ==> s_nib_ok(t_view(t), j, path@[j] as int)),
        root@ != spec_placeholder() && !store.m().contains_key(root@) ==> r is Err,
    decreases 64 - depth,
{
    let p = crate::hash::placeholder_hash();
    if root.equals(&p) {
        return Ok(TreeNode::Empty);
    }
    let node = match store.get(root) {
        Some(n) => n,
        None => {
            return Err(crate::StateError::MissingNode);
        },
    };
    match node {
        Node::Leaf { key, blob } => {
            let mut j: usize = 0;
            while j < depth
                invariant
                    j <= depth,
                    depth <= 64,
                    path@.len() == depth,
                    key.wf(),
                    forall|jj: int| 0 <= jj < j ==> spec_nibble(key@, jj) == path@[jj],
                decreases depth - j,
            {
                if nibble_at(key, j) != path[j] {
                    return Err(crate::StateError::MissingNode);
                }
                j = j + 1;
            }
            let t = TreeNode::Leaf {
                hash: root.dup(),
                key: key.dup(),
                value: crate::hash::copy_bytes(blob),
            };
            proof {
                assert(n_hash(store.m()[root@]) == root@);
                assert(t_wf(t));
            }
            Ok(t)
        },
        Node::Internal { children } => {
            if depth >= 64 {
                return Err(crate::StateError::MissingNode);
            }
            let mut kids: Vec<TreeNode> = Vec::new();
            let mut i: usize = 0;
            while i < 16
                invariant
                    i <= 16,
                    store.wf(),
                    depth < 64,
                    path@.len() == depth,
                    children@.len() == 16,
                    forall|jj: int|
                        0 <= jj < 16 ==> (#[trigger] children@[jj] matches Some(h) ==> h.wf()),
                    kids@.len() == i,
                    forall|jj: int|
                        0 <= jj < i ==> t_wf(#[trigger] kids@[jj]) && t_hash(kids@[jj])
                            == crate::node::n_child_hash(children@[jj]) && s_ok(
                            t_view(kids@[jj]),
                            depth as int + 1,
                        ) && s_nib_ok(t_view(kids@[jj]), depth as int, jj),
                    forall|jj: int, pj: int|
                        #![trigger s_nib_ok(t_view(kids@[jj]), pj, path@[pj] as int)]
                        0 <= jj < i && 0 <= pj < depth ==> s_nib_ok(
                            t_view(kids@[jj]),
                            pj,
                            path@[pj] as int,
                        ),
                decreases 16 - i,
            {
                match &children[i] {
                    None => {
                        kids.push(TreeNode::Empty);
                    },
                    Some(ch) => {
                        let mut path2 = crate::hash::copy_bytes(path);
                        path2.push(i as u8);
                        match load_tree(store, ch, depth + 1, &path2) {
                            Ok(sub) => {
                                proof {
                                    assert forall|pj: int| 0 <= pj < depth implies s_nib_ok(
                                        t_view(sub),
                                        pj,
                                        path@[pj] as int,
                                    ) by {
                                        assert(path2@[pj] == path@[pj]);
                                        assert(s_nib_ok(t_view(sub), pj, path2@[pj] as int));
                                    }
                                    assert(path2@[depth as int] == i as u8);
                                    assert(s_nib_ok(t_view(sub), depth as int, i as int));
                                }
                                kids.push(sub);
                            },
                            Err(e) => {
                                return Err(e);
                            },
                        }
                    },
                }
                i = i + 1;
            }
            let t = TreeNode::Internal { hash: root.dup(), children: kids };
            proof {
                assert(n_hash(store.m()[root@]) == root@);
                assert(Seq::new(16, |jj: int| t_hash(t->Internal_children@[jj])) =~= Seq::new(
                    16,
                    |jj: int| crate::node::n_child_hash(children@[jj]),
                ));
                assert(t_wf(t));
                lemma_t_view_kids(t->Internal_children@, 16);
                assert(s_ok(t_view(t), depth as int));
                assert forall|j: int| 0 <= j < depth implies s_nib_ok(
                    t_view(t),
                    j,
                    path@[j] as int,
                ) by {
                    assert forall|jj: int|
                        0 <= jj < t_view(t)->Node_kids.len() implies s_nib_ok(
                        #[trigger] t_view(t)->Node_kids[jj],
                        j,
                        path@[j] as int,
                    ) by {
                        assert(t_view(t)->Node_kids[jj] == t_view(t->Internal_children@[jj]));
                    }
                }
            }
            Ok(t)
        },
    }
}

} // verus!

verus! {

/// Appends every key/value pair reachable in `t` to `out`: each appended
/// pair is a live binding, every live binding appears, and no key is
/// appended twice.
pub fn collect_leaves(t: &TreeNode, depth: usize, out: &mut Vec<(HashValue, Vec<u8>)>)
    requires
        t_wf(*t),
        s_ok(t_view(*t), depth as int),
        depth <= 64,
    ensures
        final(out)@.len() >= old(out)@.len(),
        forall|i: int| 0 <= i < old(out)@.len() ==> final(out)@[i] == old(out)@[i],
        forall|i: int|
            old(out)@.len() <= i < final(out)@.len() ==> (#[trigger] final(out)@[i]).0.wf()
                && s_lookup(t_view(*t), final(out)@[i].0@, depth as int) == Some(
                final(out)@[i].1@,
            ),
        forall|k: Seq<u8>|
            #![trigger s_lookup(t_view(*t), k, depth as int)]
            s_lookup(t_view(*t), k, depth as int) is Some ==> exists|i: int|
                old(out)@.len() <= i < final(out)@.len() && (#[trigger] final(out)@[i]).0@ == k,
        forall|i: int, j: int|
            old(out)@.len() <= i < j < final(out)@.len() ==> (#[trigger] final(out)@[i]).0@ != (
            #[trigger] final(out)@[j]).0@,
    decreases 64 - depth,
{
    match t {
        TreeNode::Empty => {
            proof {
                assert(t_view(*t) is Empty);
                assert forall|k: Seq<u8>| !(s_lookup(t_view(*t), k, depth as int) is Some) by {
                    assert(s_lookup(t_view(*t), k, depth as int) is None);
                }
            }
        },
        TreeNode::Leaf { key, value, .. } => {
            let ghost base = out@.len() as int;
            out.push((key.dup(), crate::hash::copy_bytes(value)));
            proof {
                assert(out@[base].0@ == key@);
                assert(out@[base].1@ == value@);
                assert forall|k: Seq<u8>|
                    s_lookup(t_view(*t), k, depth as int) is Some implies exists|i: int|
                    base <= i < out@.len() && (#[trigger] out@[i]).0@ == k by {
                    assert(k == key@);
                    assert(out@[base].0@ == k);
                }
            }
        },
        TreeNode::Internal { children, .. } => {
            let ghost tv = t_view(*t);
            let ghost base = out@.len() as int;
            proof {
                lemma_t_view_kids(children@, 16);
            }
            let mut i: usize = 0;
            while i < 16
                invariant
                    i <= 16,
                    depth < 64,
                    t_wf(*t),
                    t is Internal,
                    t->Internal_children == children,
                    tv == t_view(*t),
                    s_ok(tv, depth as int),
                    children@.len() == 16,
                    tv->Node_kids.len() == 16,
                    forall|j: int| 0 <= j < 16 ==> tv->Node_kids[j] == t_view(children@[j]),
                    out@.len() >= base,
                    forall|j: int| 0 <= j < base ==> out@[j] == old(out)@[j],
                    base == old(out)@.len(),
                    forall|j: int|
                        base <= j < out@.len() ==> (#[trigger] out@[j]).0.wf() && s_lookup(
                            tv,
                            out@[j].0@,
                            depth as int,
                        ) == Some(out@[j].1@),
                    forall|k: Seq<u8>|
                        #![trigger s_lookup(tv, k, depth as int)]
                        s_lookup(tv, k, depth as int) is Some && spec_nibble(k, depth as int) < i
                            ==> exists|j: int| base <= j < out@.len() && (#[trigger] out@[j]).0@
                            == k,
                    forall|a: int, b: int|
                        base <= a < b < out@.len() ==> (#[trigger] out@[a]).0@ != (
                        #[trigger] out@[b]).0@,
                    forall|j: int|
                        base <= j < out@.len() ==> spec_nibble((#[trigger] out@[j]).0@, depth as int)
                            < i,
                decreases 16 - i,
            {
                let ghost pre = out@.len() as int;
                let ghost child_v = t_view(children@[i as int]);
                proof {
                    assert(tv->Node_kids[i as int] == t_view(children@[i as int]));
                    assert(tv->Node_kids[i as int] == child_v);
                    assert(s_ok(tv->Node_kids[i as int], depth as int + 1));
                    assert(s_nib_ok(tv->Node_kids[i as int], depth as int, i as int));
                }
                collect_leaves(&children[i as usize], depth + 1, out);
                proof {
                    assert forall|j: int|
                        base <= j < out@.len() implies (#[trigger] out@[j]).0.wf() && s_lookup(
                        tv,
                        out@[j].0@,
                        depth as int,
                    ) == Some(out@[j].1@) by {
                        if j >= pre {
                            assert(s_lookup(child_v, out@[j].0@, depth as int + 1) == Some(
                                out@[j].1@,
                            ));
                            crate::stree::lemma_lookup_nib(
                                child_v,
                                out@[j].0@,
                                depth as int,
                                i as int,
                                depth as int + 1,
                            );
                            assert(spec_nibble(out@[j].0@, depth as int) as int == i as int);
                            assert(s_lookup(tv, out@[j].0@, depth as int) == s_lookup(
                                child_v,
                                out@[j].0@,
                                depth as int + 1,
                            ));
                        }
                    }
                    assert forall|k: Seq<u8>|
                        s_lookup(tv, k, depth as int) is Some && spec_nibble(k, depth as int) < i
                            + 1 implies exists|j: int|
                        base <= j < out@.len() && (#[trigger] out@[j]).0@ == k by {
                        if spec_nibble(k, depth as int) < i {
                            let j = choose|j: int|
                                base <= j < pre && (#[trigger] out@[j]).0@ == k;
                            assert(base <= j < out@.len() && out@[j].0@ == k);
                        } else {
                            assert(spec_nibble(k, depth as int) == i);
                            assert(s_lookup(tv, k, depth as int) == s_lookup(
                                child_v,
                                k,
                                depth as int + 1,
                            ));
                            let j = choose|j: int|
                                pre <= j < out@.len() && (#[trigger] out@[j]).0@ == k;
                            assert(base <= j < out@.len() && out@[j].0@ == k);
                        }
                    }
                    assert forall|j: int|
                        base <= j < out@.len() implies spec_nibble(
                        (#[trigger] out@[j]).0@,
                        depth as int,
                    ) < i + 1 by {
                        if j >= pre {
                            crate::stree::lemma_lookup_nib(
                                child_v,
                                out@[j].0@,
                                depth as int,
                                i as int,
                                depth as int + 1,
                            );
                        }
                    }
                    assert forall|a: int, b: int|
                        base <= a < b < out@.len() implies (#[trigger] out@[a]).0@ != (
                        #[trigger] out@[b]).0@ by {
                        if a < pre && b >= pre {
                            crate::stree::lemma_lookup_nib(
                                child_v,
                                out@[b].0@,
                                depth as int,
                                i as int,
                                depth as int + 1,
                            );
                            assert(spec_nibble(out@[a].0@, depth as int) < i as int);
                        }
                    }
                }
                i = i + 1;
            }
            proof {
                assert forall|k: Seq<u8>|
                    s_lookup(tv, k, depth as int) is Some implies spec_nibble(k, depth as int)
                    < 16 by {}
            }
        },
    }
}

} // verus!

verus! {

/// The leaf count of stale marks never goes negative.
pub proof fn lemma_stale_nonneg(s: Seq<(HashValue, bool)>)
    ensures
        stale_leaf_count(s) >= 0,
    decreases s.len(),
{
    if s.len() > 0 {
        lemma_stale_nonneg(s.drop_last());
    }
}

/// A zero leaf count means no mark is flagged as a leaf.
pub proof fn lemma_stale_zero(s: Seq<(HashValue, bool)>)
    requires
        stale_leaf_count(s) == 0,
    ensures
        forall|i: int| 0 <= i < s.len() ==> !(#[trigger] s[i]).1,
    decreases s.len(),
{
    if s.len() > 0 {
        lemma_stale_nonneg(s.drop_last());
        assert(!s.last().1);
        lemma_stale_zero(s.drop_last());
        assert forall|i: int| 0 <= i < s.len() implies !(#[trigger] s[i]).1 by {
            if i < s.len() - 1 {
                assert(s.drop_last()[i] == s[i]);
            }
        }
    }
}

} // verus!

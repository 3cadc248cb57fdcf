//! The state tree facade: a pending-write cache layered over the last
//! committed snapshot, commits that fold the staged writes into a new
//! root, an accumulated change set, and a flush to the backing store.
use vstd::prelude::*;
use crate::hash::{placeholder_hash, spec_placeholder, HashValue};
use crate::node::{n_hash, n_wf, HMap, Node};
use crate::store::{MockStateNodeStore, StaleNodeIndex};
use crate::stree::{
    lemma_agree_zero, lemma_delete_other, lemma_delete_preserves_ok, lemma_delete_same,
    lemma_insert_other, lemma_insert_preserves_ok, lemma_insert_same, s_lookup, s_ok, STree,
};
use crate::tree::{
    collect_leaves, delete_tree, hash_of_node, insert_tree, load_tree, lookup_tree, t_hash,
    t_view, t_wf, TreeNode, UpdateBatch, ub_wf,
};
use crate::StateError;

verus! {

/// The view of a staged write: a value to bind, or a tombstone.
pub open spec fn blob_view(o: Option<Vec<u8>>) -> Option<Seq<u8>> {
    match o {
        Some(v) => Some(v@),
        None => None,
    }
}

/// Everything committed but not yet flushed: the nodes created, the nodes
/// superseded, and leaf accounting.
pub struct ChangeSet {
    pub node_batch: HMap<Node>,
    pub stale_node_index_batch: Vec<StaleNodeIndex>,
    pub num_new_leaves: usize,
    pub num_stale_leaves: usize,
}

/// Every batched node sits under its content hash; stale records carry
/// valid hashes.
pub open spec fn cs_wf(cs: ChangeSet) -> bool {
    cs.node_batch.wf() && (forall|x: Seq<u8>|
        #![trigger cs.node_batch.m().contains_key(x)]
        cs.node_batch.m().contains_key(x) ==> n_wf(cs.node_batch.m()[x]) && n_hash(
            cs.node_batch.m()[x],
        ) == x) && (forall|i: int|
        0 <= i < cs.stale_node_index_batch@.len() ==> (#[trigger] cs.stale_node_index_batch@[i]).node_key.wf())
}

impl ChangeSet {
    /// An empty change set.
    pub fn new() -> (r: ChangeSet)
        ensures
            cs_wf(r),
            r.node_batch.entries@.len() == 0,
            r.stale_node_index_batch@.len() == 0,
            r.num_new_leaves == 0,
            r.num_stale_leaves == 0,
    {
        ChangeSet {
            node_batch: HMap::new(),
            stale_node_index_batch: Vec::new(),
            num_new_leaves: 0,
            num_stale_leaves: 0,
        }
    }
}

/// Folds one engine operation's record into the accumulated change set.
/// A superseded node that was created since the last flush will never be
/// persisted: it is dropped from the batch instead of being marked stale,
/// and a dropped leaf is taken back out of the new-leaf count.
fn merge_batch(cs: &mut ChangeSet, ub: UpdateBatch, version: u64)
    requires
        cs_wf(*old(cs)),
        ub_wf(ub),
    ensures
        cs_wf(*final(cs)),
        crate::tree::stale_leaf_count(ub.stale@) == 0 ==> final(cs).num_stale_leaves == old(
            cs,
        ).num_stale_leaves && final(cs).num_new_leaves == (if ub.new_leaves <= usize::MAX - old(
            cs,
        ).num_new_leaves {
            old(cs).num_new_leaves + ub.new_leaves
        } else {
            usize::MAX as int
        }),
        (crate::tree::stale_leaf_count(ub.stale@) == 1 && ub.new_leaves == 1 && 1 <= old(
            cs,
        ).num_new_leaves && old(cs).num_new_leaves < usize::MAX && old(cs).num_stale_leaves
            < usize::MAX) ==> ((final(cs).num_new_leaves == old(cs).num_new_leaves
            && final(cs).num_stale_leaves == old(cs).num_stale_leaves) || (final(cs).num_new_leaves
            == old(cs).num_new_leaves + 1 && final(cs).num_stale_leaves == old(
            cs,
        ).num_stale_leaves + 1)),
{
    proof {
        if crate::tree::stale_leaf_count(ub.stale@) == 0 {
            crate::tree::lemma_stale_zero(ub.stale@);
        }
    }
    let ghost noleaf = forall|i: int| 0 <= i < ub.stale@.len() ==> !(#[trigger] ub.stale@[i]).1;
    let ghost st_all = ub.stale@;
    let ghost nl_all = ub.new_leaves;
    let ghost onesup = crate::tree::stale_leaf_count(st_all) == 1 && nl_all == 1 && 1 <= old(
        cs,
    ).num_new_leaves && old(cs).num_new_leaves < usize::MAX && old(cs).num_stale_leaves
        < usize::MAX;
    let mut ub = ub;
    while ub.nodes.len() > 0
        invariant
            cs_wf(*cs),
            ub_wf(ub),
            ub.stale@ == st_all,
            ub.new_leaves == nl_all,
            cs.num_new_leaves == old(cs).num_new_leaves,
            cs.num_stale_leaves == old(cs).num_stale_leaves,
        decreases ub.nodes@.len(),
    {
        let (h, nd) = ub.nodes.pop().unwrap();
        proof {
            assert(h.wf() && h@ == n_hash(nd) && n_wf(nd));
        }
        cs.node_batch.insert(h, nd);
    }
    while ub.stale.len() > 0
        invariant
            cs_wf(*cs),
            ub_wf(ub),
            ub.stale@.len() <= st_all.len(),
            ub.stale@ == st_all.take(ub.stale@.len() as int),
            ub.new_leaves == nl_all,
            noleaf == (forall|i: int| 0 <= i < st_all.len() ==> !(#[trigger] st_all[i]).1),
            noleaf ==> cs.num_new_leaves == old(cs).num_new_leaves,
            noleaf ==> cs.num_stale_leaves == old(cs).num_stale_leaves,
            onesup == (crate::tree::stale_leaf_count(st_all) == 1 && nl_all == 1 && 1 <= old(
                cs,
            ).num_new_leaves && old(cs).num_new_leaves < usize::MAX && old(cs).num_stale_leaves
                < usize::MAX),
            onesup ==> crate::tree::stale_leaf_count(ub.stale@) == 0
                || crate::tree::stale_leaf_count(ub.stale@) == 1,
            onesup && crate::tree::stale_leaf_count(ub.stale@) == 1 ==> cs.num_new_leaves == old(
                cs,
            ).num_new_leaves && cs.num_stale_leaves == old(cs).num_stale_leaves,
            onesup && crate::tree::stale_leaf_count(ub.stale@) == 0 ==> ((cs.num_new_leaves == old(
                cs,
            ).num_new_leaves - 1 && cs.num_stale_leaves == old(cs).num_stale_leaves) || (
            cs.num_new_leaves == old(cs).num_new_leaves && cs.num_stale_leaves == old(
                cs,
            ).num_stale_leaves + 1)),
        decreases ub.stale@.len(),
    {
        let ghost k = ub.stale@.len() - 1;
        proof {
            assert(st_all.take(k + 1).len() == k + 1);
            assert(k + 1 <= st_all.len());
        }
        let (h, is_leaf) = ub.stale.pop().unwrap();
        proof {
            assert((h, is_leaf) == st_all.take(k + 1)[k]);
            assert(st_all.take(k + 1)[k] == st_all[k]);
            assert(ub.stale@ =~= st_all.take(k));
            assert(st_all.take(k + 1).drop_last() =~= st_all.take(k));
            assert(st_all.take(k + 1).last() == st_all[k]);
            assert(crate::tree::stale_leaf_count(st_all.take(k + 1))
                == crate::tree::stale_leaf_count(st_all.take(k)) + if is_leaf {
                1int
            } else {
                0int
            });
            crate::tree::lemma_stale_nonneg(st_all.take(k));
        }
        if cs.node_batch.contains(&h) {
            cs.node_batch.remove(&h);
            if is_leaf && cs.num_new_leaves > 0 {
                cs.num_new_leaves = cs.num_new_leaves - 1;
            }
        } else {
            cs.stale_node_index_batch.push(
                StaleNodeIndex { stale_since_version: version, node_key: h },
            );
            if is_leaf && cs.num_stale_leaves < usize::MAX {
                cs.num_stale_leaves = cs.num_stale_leaves + 1;
            }
        }
    }
    proof {
        assert(crate::tree::stale_leaf_count(ub.stale@) == 0);
    }
    if ub.new_leaves <= usize::MAX - cs.num_new_leaves {
        cs.num_new_leaves = cs.num_new_leaves + ub.new_leaves;
    } else {
        cs.num_new_leaves = usize::MAX;
    }
}

/// A versioned, authenticated key/value view over a node store: staged
/// writes layer over the last committed snapshot until `commit` folds
/// them into a new root, and `flush` persists the accumulated change set.
pub struct StateTree {
    store: MockStateNodeStore,
    root: HashValue,
    tree: TreeNode,
    loaded: bool,
    pending: HMap<Option<Vec<u8>>>,
    acc: ChangeSet,
    version: u64,
}

impl StateTree {
    /// Internal consistency: valid store and change set, a well-formed
    /// materialized snapshot whose hash is the tracked root.
    pub closed spec fn inv(&self) -> bool {
        &&& self.store.wf()
        &&& self.pending.wf()
        &&& cs_wf(self.acc)
        &&& self.root.wf()
        &&& (self.loaded ==> t_wf(self.tree) && s_ok(t_view(self.tree), 0) && self.root@ == t_hash(
            self.tree,
        ))
    }

    /// The tracked committed root hash.
    pub closed spec fn root_view(&self) -> Seq<u8> {
        self.root@
    }

    /// Whether the committed snapshot is materialized in memory.
    pub closed spec fn is_loaded(&self) -> bool {
        self.loaded
    }

    /// The committed snapshot as a model tree.
    pub closed spec fn committed(&self) -> STree {
        t_view(self.tree)
    }

    /// The committed binding of `k`.
    pub open spec fn committed_lookup(&self, k: Seq<u8>) -> Option<Seq<u8>> {
        s_lookup(self.committed(), k, 0)
    }

    /// The staged write for `k`: `None` when nothing is staged, else the
    /// staged value or tombstone.
    pub closed spec fn staged(&self, k: Seq<u8>) -> Option<Option<Seq<u8>>> {
        if self.pending.m().contains_key(k) {
            Some(blob_view(self.pending.m()[k]))
        } else {
            None
        }
    }

    /// How many writes are staged.
    pub closed spec fn staged_count(&self) -> nat {
        self.pending.entries@.len()
    }

    /// Whether no write is staged.
    pub open spec fn nothing_staged(&self) -> bool {
        self.staged_count() == 0
    }

    /// What a read returns: the staged write if any, else the committed
    /// binding.
    pub open spec fn spec_get(&self, k: Seq<u8>) -> Option<Seq<u8>> {
        match self.staged(k) {
            Some(sv) => sv,
            None => self.committed_lookup(k),
        }
    }

    /// The accumulated, not-yet-flushed change set.
    pub closed spec fn acc_spec(&self) -> ChangeSet {
        self.acc
    }

    /// The backing node store.
    pub closed spec fn store_spec(&self) -> MockStateNodeStore {
        self.store
    }

    /// Accumulated-change-set accounting, for read-only inspection.
    pub open spec fn acc_num_new_leaves(&self) -> usize {
        self.acc_spec().num_new_leaves
    }

    /// See `acc_num_new_leaves`.
    pub open spec fn acc_num_stale_leaves(&self) -> usize {
        self.acc_spec().num_stale_leaves
    }

    /// Constructs a view rooted at `root`, or at the canonical empty root.
    pub fn new(store: MockStateNodeStore, root: Option<HashValue>) -> (r: StateTree)
        requires
            store.wf(),
            root matches Some(h) ==> h.wf(),
        ensures
            r.inv(),
            r.nothing_staged(),
            r.staged_count() == 0,
            forall|k: Seq<u8>| r.staged(k) is None,
            r.store_spec() == store,
            match root {
                Some(h) => r.root_view() == h@,
                None => r.root_view() == spec_placeholder(),
            },
            r.is_loaded() == (match root {
                Some(h) => h@ == spec_placeholder(),
                None => true,
            }),
            r.is_loaded() ==> r.committed() == STree::Empty,
            r.acc_num_new_leaves() == 0,
            r.acc_num_stale_leaves() == 0,
            r.acc_spec().node_batch.entries@.len() == 0,
            r.acc_spec().stale_node_index_batch@.len() == 0,
    {
        let ph = placeholder_hash();
        match root {
            None => StateTree {
                store,
                root: ph,
                tree: TreeNode::Empty,
                loaded: true,
                pending: HMap::new(),
                acc: ChangeSet::new(),
                version: 0,
            },
            Some(h) => {
                let loaded = h.equals(&ph);
                StateTree {
                    store,
                    root: h,
                    tree: TreeNode::Empty,
                    loaded,
                    pending: HMap::new(),
                    acc: ChangeSet::new(),
                    version: 0,
                }
            },
        }
    }

    /// Materializes the committed snapshot from the store if it is not in
    /// memory yet. Fails with `MissingNode` when the root cannot be
    /// resolved: never treated as an empty tree.
    fn ensure_loaded(&mut self) -> (r: Result<(), StateError>)
        requires
            old(self).inv(),
        ensures
            final(self).inv(),
            final(self).root_view() == old(self).root_view(),
            forall|k: Seq<u8>| final(self).staged(k) == old(self).staged(k),
            final(self).nothing_staged() == old(self).nothing_staged(),
            final(self).acc_spec() == old(self).acc_spec(),
            final(self).store_spec() == old(self).store_spec(),
            r is Ok ==> final(self).is_loaded(),
            r is Err ==> r == Err::<(), StateError>(StateError::MissingNode) && *final(self)
                == *old(self),
            old(self).is_loaded() ==> r is Ok && *final(self) == *old(self),
            !old(self).is_loaded() && old(self).root_view() != spec_placeholder() && !old(
                self,
            ).store_spec().m().contains_key(old(self).root_view()) ==> r is Err,
            final(self).root == old(self).root,
            final(self).pending == old(self).pending,
            final(self).acc == old(self).acc,
            final(self).store == old(self).store,
            final(self).version == old(self).version,
    {
        if self.loaded {
            return Ok(());
        }
        let path: Vec<u8> = Vec::new();
        match load_tree(&self.store, &self.root, 0, &path) {
            Ok(t) => {
                self.tree = t;
                self.loaded = true;
                Ok(())
            },
            Err(_) => Err(StateError::MissingNode),
        }
    }

    /// Stages `key -> value`. No storage access; never fails.
    pub fn put(&mut self, key: HashValue, value: Vec<u8>)
        requires
            old(self).inv(),
            key.wf(),
        ensures
            final(self).inv(),
            final(self).staged(key@) == Some(Some(value@)),
            forall|k: Seq<u8>| k != key@ ==> final(self).staged(k) == old(self).staged(k),
            final(self).staged_count() == old(self).staged_count() + (if old(self).staged(key@)
                is Some {
                0int
            } else {
                1int
            }),
            !final(self).nothing_staged(),
            final(self).root_view() == old(self).root_view(),
            final(self).committed() == old(self).committed(),
            final(self).is_loaded() == old(self).is_loaded(),
            final(self).acc_spec() == old(self).acc_spec(),
            final(self).store_spec() == old(self).store_spec(),
    {
        self.pending.insert(key, Some(value));
    }

    /// Stages a tombstone for `key`: reads see it as absent until commit.
    pub fn remove(&mut self, key: &HashValue)
        requires
            old(self).inv(),
            key.wf(),
        ensures
            final(self).inv(),
            final(self).staged(key@) == Some(None::<Seq<u8>>),
            forall|k: Seq<u8>| k != key@ ==> final(self).staged(k) == old(self).staged(k),
            final(self).staged_count() == old(self).staged_count() + (if old(self).staged(key@)
                is Some {
                0int
            } else {
                1int
            }),
            !final(self).nothing_staged(),
            final(self).root_view() == old(self).root_view(),
            final(self).committed() == old(self).committed(),
            final(self).is_loaded() == old(self).is_loaded(),
            final(self).acc_spec() == old(self).acc_spec(),
            final(self).store_spec() == old(self).store_spec(),
    {
        self.pending.insert(key.dup(), None);
    }

    /// Reads `key`: the staged write first, then the committed snapshot.
    /// `MissingNode` only when the snapshot itself cannot be resolved.
    pub fn get(&mut self, key: &HashValue) -> (r: Result<Option<Vec<u8>>, StateError>)
        requires
            old(self).inv(),
            key.wf(),
        ensures
            final(self).inv(),
            final(self).root_view() == old(self).root_view(),
            forall|k: Seq<u8>| final(self).staged(k) == old(self).staged(k),
            final(self).acc_spec() == old(self).acc_spec(),
            final(self).store_spec() == old(self).store_spec(),
            final(self).is_loaded() == (old(self).is_loaded() || (r is Ok && old(self).staged(
                key@,
            ) is None)),
            old(self).is_loaded() ==> final(self).committed() == old(self).committed(),
            old(self).is_loaded() || old(self).staged(key@) is Some ==> r is Ok,
            r matches Ok(v) ==> blob_view(v) == final(self).spec_get(key@),
            r is Err ==> r == Err::<Option<Vec<u8>>, StateError>(StateError::MissingNode)
                && *final(self) == *old(self),
            !old(self).is_loaded() && old(self).staged(key@) is None && old(self).root_view()
                != spec_placeholder() && !old(self).store_spec().m().contains_key(
                old(self).root_view(),
            ) ==> r is Err,
    {
        let staged = match self.pending.get(key) {
            Some(o) => Some(
                match o {
                    Some(v) => Some(crate::hash::copy_bytes(v)),
                    None => None,
                },
            ),
            None => None,
        };
        match staged {
            Some(o) => Ok(o),
            None => {
                match self.ensure_loaded() {
                    Ok(()) => Ok(lookup_tree(&self.tree, key, 0)),
                    Err(e) => Err(e),
                }
            },
        }
    }

    /// The current committed root hash; staged writes do not affect it.
    pub fn root_hash(&self) -> (r: HashValue)
        requires
            self.inv(),
        ensures
            r@ == self.root_view(),
            r.wf(),
    {
        self.root.dup()
    }

    /// The committed root hash is a function of the committed key/value
    /// mapping alone: two materialized views holding the same committed
    /// snapshot agree on their root hash.
    pub proof fn lemma_root_from_committed(a: &StateTree, b: &StateTree)
        requires
            a.inv(),
            b.inv(),
            a.is_loaded(),
            b.is_loaded(),
            a.committed() == b.committed(),
        ensures
            a.root_view() == b.root_view(),
    {
        crate::tree::lemma_hash_from_view(a.tree, b.tree);
    }
}

} // verus!

verus! {

impl StateTree {
    /// Applies all staged writes as one batch against the committed
    /// snapshot: computes the new root, merges the produced node and
    /// stale-node records into the accumulated change set, and clears the
    /// pending cache. Committing with nothing staged returns the current
    /// root unchanged, and re-committing bindings the snapshot already
    /// holds yields the same root hash.
    pub fn commit(&mut self) -> (r: Result<HashValue, StateError>)
        requires
            old(self).inv(),
        ensures
            final(self).inv(),
            final(self).store_spec() == old(self).store_spec(),
            old(self).is_loaded() ==> r is Ok && final(self).is_loaded(),
            old(self).nothing_staged() ==> r is Ok && *final(self) == *old(self),
            r is Err ==> r == Err::<HashValue, StateError>(StateError::MissingNode) && *final(self)
                == *old(self),
            !old(self).is_loaded() && !old(self).nothing_staged() && old(self).root_view()
                != spec_placeholder() && !old(self).store_spec().m().contains_key(
                old(self).root_view(),
            ) ==> r is Err,
            r matches Ok(h) ==> h@ == final(self).root_view() && h.wf()
                && final(self).nothing_staged(),
            r is Ok && !old(self).nothing_staged() ==> final(self).is_loaded(),
            r is Ok ==> final(self).staged_count() == 0 && (forall|k: Seq<u8>|
                final(self).staged(k) is None),
            r is Ok && old(self).is_loaded() ==> (forall|k: Seq<u8>|
                #![trigger final(self).committed_lookup(k)]
                final(self).committed_lookup(k) == (match old(self).staged(k) {
                    Some(sv) => sv,
                    None => old(self).committed_lookup(k),
                })),
            (r is Ok && old(self).is_loaded() && (forall|k: Seq<u8>|
                #![trigger old(self).staged(k)]
                old(self).staged(k) matches Some(sv) ==> sv == old(self).committed_lookup(k)))
                ==> final(self).root_view() == old(self).root_view(),
            (r is Ok && old(self).is_loaded() && (forall|k: Seq<u8>|
                #![trigger old(self).staged(k)]
                old(self).staged(k) matches Some(sv) ==> sv is Some && old(self).committed_lookup(k) is None) && old(self).acc_num_new_leaves() + old(self).staged_count() <= usize::MAX) ==> final(self).acc_num_new_leaves() == old(self).acc_num_new_leaves() + old(self).staged_count() && final(self).acc_num_stale_leaves()
                == old(self).acc_num_stale_leaves(),
            (r is Ok && old(self).is_loaded() && old(self).staged_count() == 1 && (forall|
                k: Seq<u8>,
            |
                #![trigger old(self).staged(k)]
                old(self).staged(k) matches Some(sv) ==> sv is Some && old(self).committed_lookup(
                    k,
                ) is Some && sv != old(self).committed_lookup(k)) && 1 <= old(
                self,
            ).acc_num_new_leaves() && old(self).acc_num_new_leaves() < usize::MAX && old(
                self,
            ).acc_num_stale_leaves() < usize::MAX) ==> ((final(self).acc_num_new_leaves() == old(
                self,
            ).acc_num_new_leaves() && final(self).acc_num_stale_leaves() == old(
                self,
            ).acc_num_stale_leaves()) || (final(self).acc_num_new_leaves()
                == old(self).acc_num_new_leaves() + 1 && final(self).acc_num_stale_leaves()
                == old(self).acc_num_stale_leaves() + 1)),
    {
        if self.pending.len() == 0 {
            proof {
                assert(self.pending.m() =~= Map::<Seq<u8>, Option<Vec<u8>>>::empty());
            }
            return Ok(self.root.dup());
        }
        match self.ensure_loaded() {
            Err(e) => {
                return Err(StateError::MissingNode);
            },
            Ok(()) => {},
        }
        let ph = placeholder_hash();
        let was_empty = self.root.equals(&ph);
        let mut ops: HMap<Option<Vec<u8>>> = HMap::new();
        core::mem::swap(&mut ops, &mut self.pending);
        proof {
            crate::node::lemma_alist_props(ops.entries@);
        }
        let ghost tree0 = self.tree;
        let ghost tv0 = t_view(self.tree);
        let ghost acc0 = self.acc;
        let ghost allfresh = (forall|ii: int|
            0 <= ii < ops.entries@.len() ==> (#[trigger] ops.entries@[ii]).1 is Some && s_lookup(
                tv0,
                ops.entries@[ii].0@,
                0,
            ) is None) && acc0.num_new_leaves + ops.entries@.len() <= usize::MAX;
        let ghost allnoop = forall|ii: int|
            0 <= ii < ops.entries@.len() ==> blob_view((#[trigger] ops.entries@[ii]).1)
                == s_lookup(tv0, ops.entries@[ii].0@, 0);
        let ghost onesup = ops.entries@.len() == 1 && (forall|ii: int|
            0 <= ii < ops.entries@.len() ==> (#[trigger] ops.entries@[ii]).1 is Some && s_lookup(
                tv0,
                ops.entries@[ii].0@,
                0,
            ) is Some && blob_view(ops.entries@[ii].1) != s_lookup(tv0, ops.entries@[ii].0@, 0))
            && 1 <= acc0.num_new_leaves && acc0.num_new_leaves < usize::MAX
            && acc0.num_stale_leaves < usize::MAX;
        let mut j: usize = 0;
        while j < ops.entries.len()
            invariant
                j <= ops.entries@.len(),
                ops.wf(),
                self.store.wf(),
                cs_wf(self.acc),
                self.pending.wf(),
                self.pending.entries@.len() == 0,
                self.root.wf(),
                self.root == old(self).root,
                self.store == old(self).store,
                self.loaded,
                t_wf(self.tree),
                s_ok(t_view(self.tree), 0),
                tv0 == t_view(tree0),
                allnoop == (forall|ii: int|
                    0 <= ii < ops.entries@.len() ==> blob_view((#[trigger] ops.entries@[ii]).1)
                        == s_lookup(tv0, ops.entries@[ii].0@, 0)),
                allnoop ==> self.tree == tree0,
                allfresh == ((forall|ii: int|
                    0 <= ii < ops.entries@.len() ==> (#[trigger] ops.entries@[ii]).1 is Some
                        && s_lookup(tv0, ops.entries@[ii].0@, 0) is None)
                    && acc0.num_new_leaves + ops.entries@.len() <= usize::MAX),
                acc0 == old(self).acc,
                allfresh ==> self.acc.num_new_leaves == acc0.num_new_leaves + j
                    && self.acc.num_stale_leaves == acc0.num_stale_leaves,
                onesup == (ops.entries@.len() == 1 && (forall|ii: int|
                    0 <= ii < ops.entries@.len() ==> (#[trigger] ops.entries@[ii]).1 is Some
                        && s_lookup(tv0, ops.entries@[ii].0@, 0) is Some && blob_view(
                        ops.entries@[ii].1,
                    ) != s_lookup(tv0, ops.entries@[ii].0@, 0)) && 1 <= acc0.num_new_leaves
                    && acc0.num_new_leaves < usize::MAX && acc0.num_stale_leaves < usize::MAX),
                onesup && j == 0 ==> self.acc == acc0,
                onesup && j == 1 ==> ((self.acc.num_new_leaves == acc0.num_new_leaves
                    && self.acc.num_stale_leaves == acc0.num_stale_leaves) || (
                self.acc.num_new_leaves == acc0.num_new_leaves + 1 && self.acc.num_stale_leaves
                    == acc0.num_stale_leaves + 1)),
                forall|ii: int|
                    0 <= ii < j ==> s_lookup(
                        t_view(self.tree),
                        (#[trigger] ops.entries@[ii]).0@,
                        0,
                    ) == blob_view(ops.entries@[ii].1),
                forall|k: Seq<u8>|
                    #![trigger s_lookup(t_view(self.tree), k, 0)]
                    (forall|ii: int| 0 <= ii < j ==> (#[trigger] ops.entries@[ii]).0@ != k)
                        ==> s_lookup(t_view(self.tree), k, 0) == s_lookup(tv0, k, 0),
            decreases ops.entries@.len() - j,
        {
            let ghost pretree = self.tree;
            let cur = lookup_tree(&self.tree, &ops.entries[j].0, 0);
            let ghost kj = ops.entries@[j as int].0@;
            match &ops.entries[j].1 {
                Some(v) => {
                    let noop = match &cur {
                        Some(c) => crate::hash::bytes_eq(c, v),
                        None => false,
                    };
                    if !noop {
                        let mut ub = UpdateBatch::new();
                        let mut tr = TreeNode::Empty;
                        core::mem::swap(&mut tr, &mut self.tree);
                        let ghost tvj = t_view(tr);
                        proof {
                            lemma_agree_zero(tvj, kj);
                            if cur is Some {
                                assert(s_lookup(tvj, kj, 0) == Some(cur->0@));
                                assert(cur->0@ != v@);
                            }
                        }
                        let newtr = insert_tree(tr, &ops.entries[j].0, v, 0, &mut ub);
                        proof {
                            lemma_insert_preserves_ok(tvj, kj, v@, 0);
                            lemma_insert_same(tvj, kj, v@, 0);
                            if allnoop {
                                assert(blob_view(ops.entries@[j as int].1) == s_lookup(
                                    tv0,
                                    kj,
                                    0,
                                ));
                                assert(false);
                            }
                        }
                        self.tree = newtr;
                        let ghost accpre = self.acc;
                        merge_batch(&mut self.acc, ub, self.version);
                        proof {
                            if allfresh {
                                assert(s_lookup(tvj, kj, 0) is None);
                                assert(crate::tree::stale_leaf_count(ub.stale@) == 0);
                                assert(accpre.num_new_leaves == acc0.num_new_leaves + j);
                                assert(ub.new_leaves == 1);
                                assert(self.acc.num_new_leaves == accpre.num_new_leaves + 1);
                                assert(self.acc.num_stale_leaves == accpre.num_stale_leaves);
                            }
                            if onesup {
                                assert(j == 0);
                                assert(accpre == acc0);
                                assert(blob_view(ops.entries@[j as int].1) != s_lookup(
                                    tv0,
                                    kj,
                                    0,
                                ));
                                assert(s_lookup(tvj, kj, 0) == s_lookup(tv0, kj, 0));
                                assert(s_lookup(tvj, kj, 0) is Some);
                                assert(ub.new_leaves == 1);
                                assert(crate::tree::stale_leaf_count(ub.stale@) == 1);
                                assert((self.acc.num_new_leaves == acc0.num_new_leaves
                                    && self.acc.num_stale_leaves == acc0.num_stale_leaves) || (
                                self.acc.num_new_leaves == acc0.num_new_leaves + 1
                                    && self.acc.num_stale_leaves == acc0.num_stale_leaves + 1));
                            }
                            assert forall|ii: int| 0 <= ii < j + 1 implies s_lookup(
                                t_view(self.tree),
                                (#[trigger] ops.entries@[ii]).0@,
                                0,
                            ) == blob_view(ops.entries@[ii].1) by {
                                if ii < j {
                                    assert(ops.entries@[ii].0@ != kj);
                                    lemma_insert_other(tvj, kj, v@, ops.entries@[ii].0@, 0);
                                    assert(s_lookup(tvj, ops.entries@[ii].0@, 0) == blob_view(
                                        ops.entries@[ii].1,
                                    ));
                                }
                            }
                            assert forall|k: Seq<u8>|
                                (forall|ii: int|
                                    0 <= ii < j + 1 ==> (#[trigger] ops.entries@[ii]).0@
                                        != k) implies #[trigger] s_lookup(t_view(self.tree), k, 0)
                                == s_lookup(tv0, k, 0) by {
                                assert(kj != k);
                                lemma_insert_other(tvj, kj, v@, k, 0);
                                assert(s_lookup(tvj, k, 0) == s_lookup(tv0, k, 0));
                            }
                        }
                    } else {
                        proof {
                            assert(s_lookup(t_view(self.tree), kj, 0) == Some(v@));
                            if allfresh {
                                assert(s_lookup(t_view(self.tree), kj, 0) == s_lookup(
                                    tv0,
                                    kj,
                                    0,
                                ));
                                assert(false);
                            }
                            if onesup {
                                assert(j == 0);
                                assert(s_lookup(t_view(self.tree), kj, 0) == s_lookup(
                                    tv0,
                                    kj,
                                    0,
                                ));
                                assert(blob_view(ops.entries@[j as int].1) == Some(v@));
                                assert(false);
                            }
                        }
                    }
                },
                None => {
                    match &cur {
                        Some(_) => {
                            let mut ub = UpdateBatch::new();
                            let mut tr = TreeNode::Empty;
                            core::mem::swap(&mut tr, &mut self.tree);
                            let ghost tvj = t_view(tr);
                            proof {
                                lemma_agree_zero(tvj, kj);
                                if allnoop {
                                    assert(blob_view(ops.entries@[j as int].1) == s_lookup(
                                        tv0,
                                        kj,
                                        0,
                                    ));
                                    assert(false);
                                }
                            }
                            let newtr = delete_tree(tr, &ops.entries[j].0, 0, &mut ub);
                            proof {
                                lemma_delete_preserves_ok(tvj, kj, 0);
                                lemma_delete_same(tvj, kj, 0);
                                if allfresh {
                                    assert(ops.entries@[j as int].1 is Some);
                                    assert(false);
                                }
                                if onesup {
                                    assert(ops.entries@[j as int].1 is Some);
                                    assert(false);
                                }
                            }
                            self.tree = newtr;
                            merge_batch(&mut self.acc, ub, self.version);
                            proof {
                                assert forall|ii: int| 0 <= ii < j + 1 implies s_lookup(
                                    t_view(self.tree),
                                    (#[trigger] ops.entries@[ii]).0@,
                                    0,
                                ) == blob_view(ops.entries@[ii].1) by {
                                    if ii < j {
                                        assert(ops.entries@[ii].0@ != kj);
                                        lemma_delete_other(tvj, kj, ops.entries@[ii].0@, 0);
                                    }
                                }
                                assert forall|k: Seq<u8>|
                                    (forall|ii: int|
                                        0 <= ii < j + 1 ==> (#[trigger] ops.entries@[ii]).0@
                                            != k) implies #[trigger] s_lookup(
                                    t_view(self.tree),
                                    k,
                                    0,
                                ) == s_lookup(tv0, k, 0) by {
                                    assert(kj != k);
                                    lemma_delete_other(tvj, kj, k, 0);
                                }
                            }
                        },
                        None => {
                            proof {
                                assert(s_lookup(t_view(self.tree), kj, 0) is None);
                                if allfresh {
                                    assert(ops.entries@[j as int].1 is Some);
                                    assert(false);
                                }
                                if onesup {
                                    assert(ops.entries@[j as int].1 is Some);
                                    assert(false);
                                }
                            }
                        },
                    }
                },
            }
            j = j + 1;
        }
        self.root = hash_of_node(&self.tree);
        if was_empty {
            let ph2 = placeholder_hash();
            if !self.root.equals(&ph2) {
                let ghost st0 = self.acc.stale_node_index_batch@;
                self.acc.stale_node_index_batch.push(
                    StaleNodeIndex { stale_since_version: self.version, node_key: ph2 },
                );
                proof {
                    assert forall|i: int|
                        0 <= i < self.acc.stale_node_index_batch@.len() implies (
                    #[trigger] self.acc.stale_node_index_batch@[i]).node_key.wf() by {
                        if i < st0.len() {
                            assert(self.acc.stale_node_index_batch@[i] == st0[i]);
                        }
                    }
                }
            }
        }
        if self.version < u64::MAX {
            self.version = self.version + 1;
        }
        proof {
            assert(self.pending.m() =~= Map::<Seq<u8>, Option<Vec<u8>>>::empty());
            if allnoop {
                crate::tree::lemma_hash_from_view(self.tree, tree0);
            }
            if old(self).is_loaded() {
                crate::node::lemma_alist_props(old(self).pending.entries@);
                assert forall|k: Seq<u8>| #[trigger] final(self).committed_lookup(k) == (
                match old(self).staged(k) {
                    Some(sv) => sv,
                    None => old(self).committed_lookup(k),
                }) by {
                    if old(self).pending.m().contains_key(k) {
                        let ii = choose|ii: int|
                            0 <= ii < ops.entries@.len() && (#[trigger] ops.entries@[ii]).0@ == k;
                        assert(old(self).pending.m()[k] == ops.entries@[ii].1);
                        assert(s_lookup(t_view(self.tree), ops.entries@[ii].0@, 0) == blob_view(
                            ops.entries@[ii].1,
                        ));
                    }
                }
                if (forall|k: Seq<u8>|
                    #![trigger old(self).staged(k)]
                    old(self).staged(k) matches Some(sv) ==> sv is Some && old(self).committed_lookup(k) is None) && old(self).acc.num_new_leaves + old(self).staged_count() <= usize::MAX {
                    assert(allfresh) by {
                        assert forall|ii: int| 0 <= ii < ops.entries@.len() implies (
                        #[trigger] ops.entries@[ii]).1 is Some && s_lookup(
                            tv0,
                            ops.entries@[ii].0@,
                            0,
                        ) is None by {
                            assert(old(self).pending.m().contains_key(ops.entries@[ii].0@));
                            assert(old(self).staged(ops.entries@[ii].0@) == Some(
                                blob_view(old(self).pending.m()[ops.entries@[ii].0@]),
                            ));
                            assert(old(self).pending.m()[ops.entries@[ii].0@]
                                == ops.entries@[ii].1);
                        }
                    }
                }
                if (forall|k: Seq<u8>|
                    #![trigger old(self).staged(k)]
                    old(self).staged(k) matches Some(sv) ==> sv == old(self).committed_lookup(
                        k,
                    )) {
                    assert(allnoop) by {
                        assert forall|ii: int| 0 <= ii < ops.entries@.len() implies blob_view(
                            (#[trigger] ops.entries@[ii]).1,
                        ) == s_lookup(tv0, ops.entries@[ii].0@, 0) by {
                            assert(old(self).pending.m().contains_key(ops.entries@[ii].0@));
                            assert(old(self).staged(ops.entries@[ii].0@) == Some(
                                blob_view(old(self).pending.m()[ops.entries@[ii].0@]),
                            ));
                            assert(old(self).pending.m()[ops.entries@[ii].0@]
                                == ops.entries@[ii].1);
                        }
                    }
                }
                if old(self).staged_count() == 1 && (forall|k: Seq<u8>|
                    #![trigger old(self).staged(k)]
                    old(self).staged(k) matches Some(sv) ==> sv is Some && old(
                        self,
                    ).committed_lookup(k) is Some && sv != old(self).committed_lookup(k)) && 1
                    <= old(self).acc.num_new_leaves && old(self).acc.num_new_leaves < usize::MAX
                    && old(self).acc.num_stale_leaves < usize::MAX {
                    assert(onesup) by {
                        assert(ops.entries@.len() == 1);
                        assert forall|ii: int| 0 <= ii < ops.entries@.len() implies (
                        #[trigger] ops.entries@[ii]).1 is Some && s_lookup(
                            tv0,
                            ops.entries@[ii].0@,
                            0,
                        ) is Some && blob_view(ops.entries@[ii].1) != s_lookup(
                            tv0,
                            ops.entries@[ii].0@,
                            0,
                        ) by {
                            assert(old(self).pending.m().contains_key(ops.entries@[ii].0@));
                            assert(old(self).staged(ops.entries@[ii].0@) == Some(
                                blob_view(old(self).pending.m()[ops.entries@[ii].0@]),
                            ));
                            assert(old(self).pending.m()[ops.entries@[ii].0@]
                                == ops.entries@[ii].1);
                        }
                    }
                }
            }
        }
        Ok(self.root.dup())
    }
}

} // verus!

verus! {

impl StateTree {
    /// Hands the accumulated change set to the node store — every batched
    /// node becomes durable under its hash, stale records are kept for
    /// later pruning — then clears the accumulator. The snapshot, root
    /// and staged writes are untouched.
    pub fn flush(&mut self) -> (r: Result<(), StateError>)
        requires
            old(self).inv(),
        ensures
            final(self).inv(),
            r is Ok,
            final(self).root_view() == old(self).root_view(),
            final(self).is_loaded() == old(self).is_loaded(),
            final(self).committed() == old(self).committed(),
            forall|k: Seq<u8>| final(self).staged(k) == old(self).staged(k),
            final(self).nothing_staged() == old(self).nothing_staged(),
            forall|x: Seq<u8>|
                #![trigger final(self).store_spec().m().contains_key(x)]
                old(self).acc_spec().node_batch.m().contains_key(x) ==> final(self).store_spec().m().contains_key(x) && final(self).store_spec().m()[x] == old(self).acc_spec().node_batch.m()[x],
            forall|x: Seq<u8>|
                #![trigger final(self).store_spec().m().contains_key(x)]
                !old(self).acc_spec().node_batch.m().contains_key(x) ==> final(self).store_spec().m().contains_key(x) == old(self).store_spec().m().contains_key(x)
                    && (old(self).store_spec().m().contains_key(x) ==> final(self).store_spec().m()[x] == old(self).store_spec().m()[x]),
            final(self).store_spec().stale@ == old(self).store_spec().stale@ + old(
                self,
            ).acc_spec().stale_node_index_batch@,
            final(self).acc_spec().node_batch.entries@.len() == 0,
            final(self).acc_spec().stale_node_index_batch@.len() == 0,
            final(self).acc_num_new_leaves() == 0,
            final(self).acc_num_stale_leaves() == 0,
    {
        let mut batch = ChangeSet::new();
        core::mem::swap(&mut batch, &mut self.acc);
        proof {
            crate::node::lemma_alist_props(batch.node_batch.entries@);
        }
        let ghost full = batch.node_batch.entries@;
        let ghost full_stale = batch.stale_node_index_batch@;
        let ghost store0 = self.store;
        proof {
            assert forall|x: Seq<u8>|
                #[trigger] crate::node::alist_map(full).contains_key(x) implies n_wf(
                crate::node::alist_map(full)[x],
            ) && n_hash(crate::node::alist_map(full)[x]) == x by {
                assert(batch.node_batch.m().contains_key(x));
            }
        }
        while batch.node_batch.entries.len() > 0
            invariant
                self.store.wf(),
                self.root == old(self).root,
                self.tree == old(self).tree,
                self.loaded == old(self).loaded,
                self.pending == old(self).pending,
                self.version == old(self).version,
                cs_wf(self.acc),
                self.acc.node_batch.entries@.len() == 0,
                self.acc.stale_node_index_batch@.len() == 0,
                self.acc.num_new_leaves == 0,
                self.acc.num_stale_leaves == 0,
                batch.node_batch.entries@ == full.take(batch.node_batch.entries@.len() as int),
                batch.node_batch.entries@.len() <= full.len(),
                crate::node::alist_wf(full),
                batch.stale_node_index_batch@ == full_stale,
                self.store.stale@ == store0.stale@,
                forall|ii: int|
                    batch.node_batch.entries@.len() <= ii < full.len()
                        ==> self.store.m().contains_key((#[trigger] full[ii]).0@)
                        && self.store.m()[full[ii].0@] == full[ii].1,
                forall|x: Seq<u8>|
                    #![trigger self.store.m().contains_key(x)]
                    (forall|ii: int|
                        batch.node_batch.entries@.len() <= ii < full.len() ==> (
                        #[trigger] full[ii]).0@ != x) ==> self.store.m().contains_key(x)
                        == store0.m().contains_key(x) && (store0.m().contains_key(x)
                        ==> self.store.m()[x] == store0.m()[x]),
                forall|x: Seq<u8>|
                    #![trigger crate::node::alist_map(full).contains_key(x)]
                    crate::node::alist_map(full).contains_key(x) ==> n_wf(
                        crate::node::alist_map(full)[x],
                    ) && n_hash(crate::node::alist_map(full)[x]) == x,
            decreases batch.node_batch.entries@.len(),
        {
            let ghost k = batch.node_batch.entries@.len() - 1;
            let (h, n) = batch.node_batch.entries.pop().unwrap();
            proof {
                assert((h, n) == full[k]);
                crate::node::lemma_alist_props(full);
                assert(crate::node::alist_map(full).contains_key(h@));
                assert(crate::node::alist_map(full)[full[k].0@] == full[k].1);
                assert(h@ == n_hash(n) && n_wf(n) && h.wf());
                assert(batch.node_batch.entries@ =~= full.take(k));
            }
            self.store.put_node(h, n);
        }
        proof {
            assert(full_stale.skip(0) =~= full_stale);
            assert(store0.stale@ + full_stale.take(0) =~= store0.stale@);
        }
        while batch.stale_node_index_batch.len() > 0
            invariant
                self.store.wf(),
                self.root == old(self).root,
                self.tree == old(self).tree,
                self.loaded == old(self).loaded,
                self.pending == old(self).pending,
                self.version == old(self).version,
                cs_wf(self.acc),
                self.acc.node_batch.entries@.len() == 0,
                self.acc.stale_node_index_batch@.len() == 0,
                self.acc.num_new_leaves == 0,
                self.acc.num_stale_leaves == 0,
                batch.stale_node_index_batch@.len() <= full_stale.len(),
                batch.stale_node_index_batch@ == full_stale.skip(
                    full_stale.len() - batch.stale_node_index_batch@.len(),
                ),
                self.store.stale@ == store0.stale@ + full_stale.take(
                    full_stale.len() - batch.stale_node_index_batch@.len(),
                ),
                forall|ii: int|
                    0 <= ii < full.len() ==> self.store.m().contains_key((#[trigger] full[ii]).0@)
                        && self.store.m()[full[ii].0@] == full[ii].1,
                forall|x: Seq<u8>|
                    #![trigger self.store.m().contains_key(x)]
                    (forall|ii: int| 0 <= ii < full.len() ==> (#[trigger] full[ii]).0@ != x)
                        ==> self.store.m().contains_key(x) == store0.m().contains_key(x) && (
                    store0.m().contains_key(x) ==> self.store.m()[x] == store0.m()[x]),
            decreases batch.stale_node_index_batch@.len(),
        {
            let ghost i = full_stale.len() - batch.stale_node_index_batch@.len();
            let s = batch.stale_node_index_batch.remove(0);
            proof {
                assert(s == full_stale.skip(i)[0]);
                assert(s == full_stale[i]);
                assert(batch.stale_node_index_batch@ =~= full_stale.skip(i + 1));
            }
            self.store.put_stale(s);
            proof {
                assert(self.store.stale@ =~= store0.stale@ + full_stale.take(i + 1));
            }
        }
        proof {
            crate::node::lemma_alist_props(full);
            assert(full_stale.take(full_stale.len() as int) =~= full_stale);
            assert(self.store.stale@ == store0.stale@ + full_stale);
        }
        Ok(())
    }

    /// A read-only copy of the current root and the accumulated,
    /// not-yet-flushed change set.
    pub fn change_sets(&self) -> (r: (HashValue, ChangeSet))
        requires
            self.inv(),
        ensures
            r.0@ == self.root_view(),
            r.0.wf(),
            cs_wf(r.1),
            r.1.node_batch.entries@.len() == self.acc_spec().node_batch.entries@.len(),
            forall|x: Seq<u8>|
                #![trigger r.1.node_batch.m().contains_key(x)]
                r.1.node_batch.m().contains_key(x) <==> self.acc_spec().node_batch.m().contains_key(
                    x,
                ),
            forall|x: Seq<u8>|
                #![trigger r.1.node_batch.m().contains_key(x)]
                r.1.node_batch.m().contains_key(x) ==> crate::node::n_same(
                    r.1.node_batch.m()[x],
                    self.acc_spec().node_batch.m()[x],
                ),
            r.1.stale_node_index_batch@.len() == self.acc_spec().stale_node_index_batch@.len(),
            forall|i: int|
                0 <= i < r.1.stale_node_index_batch@.len() ==> (
                #[trigger] r.1.stale_node_index_batch@[i]).node_key@ == self.acc_spec().stale_node_index_batch@[i].node_key@
                    && r.1.stale_node_index_batch@[i].stale_since_version == self.acc_spec().stale_node_index_batch@[i].stale_since_version,
            r.1.num_new_leaves == self.acc_num_new_leaves(),
            r.1.num_stale_leaves == self.acc_num_stale_leaves(),
    {
        let mut nb: HMap<Node> = HMap::new();
        let mut i: usize = 0;
        proof {
            crate::node::lemma_alist_props(self.acc.node_batch.entries@);
        }
        while i < self.acc.node_batch.entries.len()
            invariant
                self.inv(),
                i <= self.acc.node_batch.entries@.len(),
                nb.wf(),
                nb.entries@.len() == i,
                forall|x: Seq<u8>|
                    #![trigger nb.m().contains_key(x)]
                    nb.m().contains_key(x) ==> n_wf(nb.m()[x]) && n_hash(nb.m()[x]) == x,
                forall|x: Seq<u8>|
                    #![trigger nb.m().contains_key(x)]
                    nb.m().contains_key(x) ==> exists|ii: int|
                        0 <= ii < i && (#[trigger] self.acc.node_batch.entries@[ii]).0@ == x,
                forall|ii: int|
                    0 <= ii < i ==> nb.m().contains_key(
                        (#[trigger] self.acc.node_batch.entries@[ii]).0@,
                    ),
                forall|x: Seq<u8>|
                    #![trigger nb.m().contains_key(x)]
                    nb.m().contains_key(x) ==> crate::node::n_same(
                        nb.m()[x],
                        self.acc.node_batch.m()[x],
                    ),
            decreases self.acc.node_batch.entries@.len() - i,
        {
            let h = self.acc.node_batch.entries[i].0.dup();
            let n = self.acc.node_batch.entries[i].1.dup();
            proof {
                crate::node::lemma_alist_props(self.acc.node_batch.entries@);
                let e = self.acc.node_batch.entries@[i as int];
                assert(self.acc.node_batch.m().contains_key(e.0@));
                assert(self.acc.node_batch.m()[e.0@] == e.1);
                assert(n_wf(e.1) && n_hash(e.1) == e.0@);
                if nb.m().contains_key(h@) {
                    let ii = choose|ii: int|
                        0 <= ii < i && (#[trigger] self.acc.node_batch.entries@[ii]).0@ == h@;
                    assert(self.acc.node_batch.entries@[ii].0@
                        == self.acc.node_batch.entries@[i as int].0@);
                    assert(false);
                }
            }
            nb.insert(h, n);
            i = i + 1;
        }
        let mut st: Vec<StaleNodeIndex> = Vec::new();
        let mut j: usize = 0;
        while j < self.acc.stale_node_index_batch.len()
            invariant
                self.inv(),
                j <= self.acc.stale_node_index_batch@.len(),
                st@.len() == j,
                forall|ii: int| 0 <= ii < j ==> (#[trigger] st@[ii]).node_key.wf(),
                forall|ii: int|
                    0 <= ii < j ==> (#[trigger] st@[ii]).node_key@
                        == self.acc.stale_node_index_batch@[ii].node_key@
                        && st@[ii].stale_since_version
                        == self.acc.stale_node_index_batch@[ii].stale_since_version,
            decreases self.acc.stale_node_index_batch@.len() - j,
        {
            let e = &self.acc.stale_node_index_batch[j];
            st.push(
                StaleNodeIndex {
                    stale_since_version: e.stale_since_version,
                    node_key: e.node_key.dup(),
                },
            );
            j = j + 1;
        }
        proof {
            crate::node::lemma_alist_props(self.acc.node_batch.entries@);
            assert forall|x: Seq<u8>| #[trigger] nb.m().contains_key(x)
                <==> self.acc.node_batch.m().contains_key(x) by {
                if nb.m().contains_key(x) {
                    let ii = choose|ii: int|
                        0 <= ii < self.acc.node_batch.entries@.len() && (
                        #[trigger] self.acc.node_batch.entries@[ii]).0@ == x;
                    assert(self.acc.node_batch.m().contains_key(
                        self.acc.node_batch.entries@[ii].0@,
                    ));
                }
                if self.acc.node_batch.m().contains_key(x) {
                    let ii = choose|ii: int|
                        0 <= ii < self.acc.node_batch.entries@.len() && (
                        #[trigger] self.acc.node_batch.entries@[ii]).0@ == x;
                    assert(self.acc.node_batch.entries@[ii].0@ == x);
                }
            }
        }
        (
            self.root.dup(),
            ChangeSet {
                node_batch: nb,
                stale_node_index_batch: st,
                num_new_leaves: self.acc.num_new_leaves,
                num_stale_leaves: self.acc.num_stale_leaves,
            },
        )
    }

    /// Enumerates every live binding reachable from the committed root:
    /// exactly the committed entries, each once, staged writes excluded.
    pub fn dump(&mut self) -> (r: Result<Vec<(HashValue, Vec<u8>)>, StateError>)
        requires
            old(self).inv(),
        ensures
            final(self).inv(),
            final(self).root_view() == old(self).root_view(),
            forall|k: Seq<u8>| final(self).staged(k) == old(self).staged(k),
            final(self).acc_spec() == old(self).acc_spec(),
            final(self).store_spec() == old(self).store_spec(),
            final(self).is_loaded() == (old(self).is_loaded() || r is Ok),
            old(self).is_loaded() ==> r is Ok && final(self).committed() == old(self).committed(),
            r is Err ==> r == Err::<Vec<(HashValue, Vec<u8>)>, StateError>(
                StateError::MissingNode,
            ) && *final(self) == *old(self),
            !old(self).is_loaded() && old(self).root_view() != spec_placeholder() && !old(
                self,
            ).store_spec().m().contains_key(old(self).root_view()) ==> r is Err,
            r matches Ok(v) ==> {
                &&& forall|i: int|
                    0 <= i < v@.len() ==> (#[trigger] v@[i]).0.wf() && final(self).committed_lookup(v@[i].0@) == Some(v@[i].1@)
                &&& forall|k: Seq<u8>|
                    #![trigger final(self).committed_lookup(k)]
                    final(self).committed_lookup(k) is Some ==> exists|i: int|
                        0 <= i < v@.len() && (#[trigger] v@[i]).0@ == k
                &&& forall|i: int, j: int|
                    0 <= i < j < v@.len() ==> (#[trigger] v@[i]).0@ != (#[trigger] v@[j]).0@
            },
    {
        match self.ensure_loaded() {
            Err(e) => {
                return Err(StateError::MissingNode);
            },
            Ok(()) => {},
        }
        let mut out: Vec<(HashValue, Vec<u8>)> = Vec::new();
        collect_leaves(&self.tree, 0, &mut out);
        Ok(out)
    }
}

/// A finite, non-restartable walk over a dump's entries.
pub struct StateIter {
    items: Vec<(HashValue, Vec<u8>)>,
    pos: usize,
}

impl StateIter {
    /// The full sequence of entries this walk yields.
    pub closed spec fn seq(&self) -> Seq<(HashValue, Vec<u8>)> {
        self.items@
    }

    /// How many entries were already yielded.
    pub closed spec fn pos_spec(&self) -> usize {
        self.pos
    }

    /// The next entry; after exhaustion it stays exhausted.
    pub fn next(&mut self) -> (r: Option<(HashValue, Vec<u8>)>)
        ensures
            final(self).seq() == old(self).seq(),
            old(self).pos_spec() < old(self).seq().len() ==> (r matches Some(p) && p.0@ == old(self).seq()[old(self).pos_spec() as int].0@ && p.1@ == old(self).seq()[old(self).pos_spec() as int].1@ && final(self).pos_spec() == old(self).pos_spec() + 1),
            old(self).pos_spec() >= old(self).seq().len() ==> r is None && final(self).pos_spec()
                == old(self).pos_spec(),
    {
        if self.pos < self.items.len() {
            let h = self.items[self.pos].0.dup();
            let v = crate::hash::copy_bytes(&self.items[self.pos].1);
            let ghost p = self.items@[self.pos as int];
            self.pos = self.pos + 1;
            proof {
                assert(h@ == p.0@);
            }
            Some((HashValue { bytes: h.bytes }, v))
        } else {
            None
        }
    }
}

} // verus!

verus! {

impl StateTree {
    /// Reads `key` from the committed snapshot together with a Merkle
    /// proof of the result. The returned proof verifies against the
    /// current root for exactly the returned value or absence.
    pub fn get_with_proof(&mut self, key: &HashValue) -> (r: Result<
        (Option<Vec<u8>>, crate::merkle_proof::SparseMerkleProof),
        StateError,
    >)
        requires
            old(self).inv(),
            key.wf(),
        ensures
            final(self).inv(),
            final(self).root_view() == old(self).root_view(),
            forall|k: Seq<u8>| final(self).staged(k) == old(self).staged(k),
            final(self).acc_spec() == old(self).acc_spec(),
            final(self).store_spec() == old(self).store_spec(),
            final(self).is_loaded() == (old(self).is_loaded() || r is Ok),
            old(self).is_loaded() ==> r is Ok && final(self).committed() == old(self).committed(),
            r is Err ==> r == Err::<
                (Option<Vec<u8>>, crate::merkle_proof::SparseMerkleProof),
                StateError,
            >(StateError::MissingNode) && *final(self) == *old(self),
            !old(self).is_loaded() && old(self).root_view() != spec_placeholder() && !old(
                self,
            ).store_spec().m().contains_key(old(self).root_view()) ==> r is Err,
            r matches Ok(p) ==> blob_view(p.0) == final(self).committed_lookup(key@)
                && crate::merkle_proof::proof_valid(
                final(self).root_view(),
                key@,
                blob_view(p.0),
                p.1,
            ),
    {
        match self.ensure_loaded() {
            Err(e) => {
                return Err(StateError::MissingNode);
            },
            Ok(()) => {},
        }
        let mut sibs: Vec<Vec<HashValue>> = Vec::new();
        let leaf = crate::merkle_proof::gen_proof(&self.tree, key, 0, &mut sibs);
        let value = lookup_tree(&self.tree, key, 0);
        let pf = crate::merkle_proof::SparseMerkleProof { leaf, siblings: sibs };
        proof {
            assert(crate::merkle_proof::sibs_view(pf) =~= crate::merkle_proof::sibs_view_raw(
                pf.siblings@,
            ));
            assert(crate::merkle_proof::start_hash(pf) == crate::merkle_proof::terminal_hash(
                leaf,
            ));
        }
        Ok((value, pf))
    }

    /// A content-equal copy of the backing store, for opening further
    /// views over the same persisted state.
    pub fn store_snapshot(&self) -> (r: MockStateNodeStore)
        requires
            self.inv(),
        ensures
            r.wf(),
            forall|x: Seq<u8>|
                #![trigger r.m().contains_key(x)]
                r.m().contains_key(x) <==> self.store_spec().m().contains_key(x),
    {
        let mut nodes: HMap<Node> = HMap::new();
        let mut i: usize = 0;
        while i < self.store.nodes.entries.len()
            invariant
                self.inv(),
                i <= self.store.nodes.entries@.len(),
                nodes.wf(),
                forall|x: Seq<u8>|
                    #![trigger nodes.m().contains_key(x)]
                    nodes.m().contains_key(x) ==> n_wf(nodes.m()[x]) && n_hash(nodes.m()[x]) == x,
                forall|x: Seq<u8>|
                    #![trigger nodes.m().contains_key(x)]
                    nodes.m().contains_key(x) <==> exists|ii: int|
                        0 <= ii < i && (#[trigger] self.store.nodes.entries@[ii]).0@ == x,
            decreases self.store.nodes.entries@.len() - i,
        {
            let h = self.store.nodes.entries[i].0.dup();
            let n = self.store.nodes.entries[i].1.dup();
            proof {
                crate::node::lemma_alist_props(self.store.nodes.entries@);
                let e = self.store.nodes.entries@[i as int];
                assert(self.store.nodes.m().contains_key(e.0@));
                assert(self.store.nodes.m()[e.0@] == e.1);
                assert(n_wf(e.1) && n_hash(e.1) == e.0@);
            }
            nodes.insert(h, n);
            proof {
                assert forall|x: Seq<u8>| #[trigger] nodes.m().contains_key(x) implies exists|
                    ii: int,
                |
                    0 <= ii < i + 1 && (#[trigger] self.store.nodes.entries@[ii]).0@ == x by {
                    if x != self.store.nodes.entries@[i as int].0@ {
                        let ii = choose|ii: int|
                            0 <= ii < i && (#[trigger] self.store.nodes.entries@[ii]).0@ == x;
                        assert(self.store.nodes.entries@[ii].0@ == x);
                    } else {
                        assert(self.store.nodes.entries@[i as int].0@ == x);
                    }
                }
            }
            i = i + 1;
        }
        proof {
            crate::node::lemma_alist_props(self.store.nodes.entries@);
        }
        MockStateNodeStore { nodes, stale: Vec::new() }
    }
}

} // verus!

verus! {

impl StateTree {
    /// A finite walk over every live binding of the committed root, in
    /// the same order `dump` returns them; exhausted once all are yielded.
    pub fn dump_iter(&mut self) -> (r: Result<StateIter, StateError>)
        requires
            old(self).inv(),
        ensures
            final(self).inv(),
            final(self).root_view() == old(self).root_view(),
            forall|k: Seq<u8>| final(self).staged(k) == old(self).staged(k),
            final(self).acc_spec() == old(self).acc_spec(),
            final(self).store_spec() == old(self).store_spec(),
            final(self).is_loaded() == (old(self).is_loaded() || r is Ok),
            old(self).is_loaded() ==> r is Ok && final(self).committed() == old(self).committed(),
            r is Err ==> r == Err::<StateIter, StateError>(StateError::MissingNode) && *final(self)
                == *old(self),
            !old(self).is_loaded() && old(self).root_view() != spec_placeholder() && !old(
                self,
            ).store_spec().m().contains_key(old(self).root_view()) ==> r is Err,
            r matches Ok(it) ==> {
                &&& it.pos_spec() == 0
                &&& forall|i: int|
                    0 <= i < it.seq().len() ==> (#[trigger] it.seq()[i]).0.wf() && final(self).committed_lookup(it.seq()[i].0@) == Some(it.seq()[i].1@)
                &&& forall|k: Seq<u8>|
                    #![trigger final(self).committed_lookup(k)]
                    final(self).committed_lookup(k) is Some ==> exists|i: int|
                        0 <= i < it.seq().len() && (#[trigger] it.seq()[i]).0@ == k
                &&& forall|i: int, j: int|
                    0 <= i < j < it.seq().len() ==> (#[trigger] it.seq()[i]).0@ != (
                    #[trigger] it.seq()[j]).0@
            },
    {
        match self.ensure_loaded() {
            Err(e) => {
                return Err(StateError::MissingNode);
            },
            Ok(()) => {},
        }
        let mut out: Vec<(HashValue, Vec<u8>)> = Vec::new();
        collect_leaves(&self.tree, 0, &mut out);
        Ok(StateIter { items: out, pos: 0 })
    }
}

} // verus!

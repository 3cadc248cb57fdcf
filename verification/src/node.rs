//! The persisted form of tree nodes — what a commit hands to the backing
//! store — and a hash-keyed map with a mathematical `Map` view.
use vstd::prelude::*;
use crate::hash::{
    copy_bytes, spec_placeholder, spec_leaf_hash, spec_internal_hash, HashValue,
};

verus! {

/// A node as the backing store holds it: a leaf carries the full key and
/// the value; an internal node carries 16 child references by node hash,
/// `None` marking an empty child.
pub enum Node {
    Leaf { key: HashValue, blob: Vec<u8> },
    Internal { children: Vec<Option<HashValue>> },
}

/// Well-formedness of a persisted node.
pub open spec fn n_wf(n: Node) -> bool {
    match n {
        Node::Leaf { key, blob } => key.wf(),
        Node::Internal { children } => children@.len() == 16 && (forall|i: int|
            0 <= i < 16 ==> (#[trigger] children@[i] matches Some(h) ==> h.wf())),
    }
}

/// The hash a child reference contributes: the placeholder when absent.
pub open spec fn n_child_hash(c: Option<HashValue>) -> Seq<u8> {
    match c {
        Some(h) => h@,
        None => spec_placeholder(),
    }
}

/// The hash of a persisted node under the tree's hashing rule.
pub open spec fn n_hash(n: Node) -> Seq<u8> {
    match n {
        Node::Leaf { key, blob } => spec_leaf_hash(key@, blob@),
        Node::Internal { children } => spec_internal_hash(
            Seq::new(16, |i: int| n_child_hash(children@[i])),
        ),
    }
}

/// Structural sameness of two persisted nodes, view by view.
pub open spec fn n_same(a: Node, b: Node) -> bool {
    match a {
        Node::Leaf { key: ka, blob: ba } => b matches Node::Leaf { key: kb, blob: bb }
            && ka@ == kb@ && ba@ == bb@,
        Node::Internal { children: ca } => b matches Node::Internal { children: cb }
            && ca@.len() == cb@.len() && (forall|i: int|
            0 <= i < ca@.len() ==> n_child_hash(#[trigger] ca@[i]) == n_child_hash(cb@[i])
                && (ca@[i] is None <==> cb@[i] is None)),
    }
}

impl Node {
    /// A structurally identical copy.
    pub fn dup(&self) -> (r: Node)
        ensures
            n_same(*self, r),
            n_same(r, *self),
            n_wf(*self) ==> n_wf(r),
            n_wf(*self) ==> n_hash(r) == n_hash(*self),
    {
        let r = match self {
            Node::Leaf { key, blob } => Node::Leaf {
                key: key.dup(),
                blob: copy_bytes(blob),
            },
            Node::Internal { children } => {
                let mut cs: Vec<Option<HashValue>> = Vec::new();
                let mut i: usize = 0;
                while i < children.len()
                    invariant
                        i <= children@.len(),
                        cs@.len() == i,
                        forall|j: int|
                            0 <= j < i ==> n_child_hash(#[trigger] cs@[j]) == n_child_hash(
                                children@[j],
                            ) && (cs@[j] is None <==> children@[j] is None) && (cs@[j] matches Some(
                                h,
                            ) ==> h.wf() == children@[j]->0.wf()),
                    decreases children@.len() - i,
                {
                    let c: Option<HashValue> = match &children[i] {
                        Some(h) => Some(h.dup()),
                        None => None,
                    };
                    cs.push(c);
                    i = i + 1;
                }
                Node::Internal { children: cs }
            },
        };
        proof {
            if self is Internal && n_wf(*self) {
                assert(Seq::new(16, |i: int| n_child_hash(r->Internal_children@[i])) =~= Seq::new(
                    16,
                    |i: int| n_child_hash(self->Internal_children@[i]),
                ));
            }
        }
        r
    }
}

/// The abstract mapping held by an association list of hash-keyed entries.
pub open spec fn alist_map<V>(s: Seq<(HashValue, V)>) -> Map<Seq<u8>, V>
    decreases s.len(),
{
    if s.len() == 0 {
        Map::empty()
    } else {
        alist_map(s.drop_last()).insert(s.last().0@, s.last().1)
    }
}

/// Distinct well-formed keys.
pub open spec fn alist_wf<V>(s: Seq<(HashValue, V)>) -> bool {
    (forall|i: int| 0 <= i < s.len() ==> (#[trigger] s[i].0).wf()) && (forall|i: int, j: int|
        0 <= i < j < s.len() ==> s[i].0@ != s[j].0@)
}

/// How the entry list realises its abstract map.
pub proof fn lemma_alist_props<V>(s: Seq<(HashValue, V)>)
    requires
        alist_wf(s),
    ensures
        forall|x: Seq<u8>|
            #![trigger alist_map(s).contains_key(x)]
            alist_map(s).contains_key(x) ==> exists|i: int|
                0 <= i < s.len() && (#[trigger] s[i]).0@ == x,
        forall|i: int| 0 <= i < s.len() ==> alist_map(s).contains_key((#[trigger] s[i]).0@),
        forall|i: int| 0 <= i < s.len() ==> alist_map(s)[(#[trigger] s[i]).0@] == s[i].1,
    decreases s.len(),
{
    if s.len() > 0 {
        assert(alist_wf(s.drop_last()));
        lemma_alist_props(s.drop_last());
        assert forall|i: int| 0 <= i < s.len() implies alist_map(s)[(#[trigger] s[i]).0@]
            == s[i].1 by {
            if i < s.len() - 1 {
                assert(s.drop_last()[i] == s[i]);
                assert(s[i].0@ != s.last().0@);
                assert(alist_map(s.drop_last())[s.drop_last()[i].0@] == s.drop_last()[i].1);
            }
        }
        assert forall|i: int| 0 <= i < s.len() implies alist_map(s).contains_key(
            (#[trigger] s[i]).0@,
        ) by {
            if i < s.len() - 1 {
                assert(s.drop_last()[i] == s[i]);
                assert(alist_map(s.drop_last()).contains_key(s.drop_last()[i].0@));
            }
        }
        assert forall|x: Seq<u8>| #[trigger] alist_map(s).contains_key(x) implies exists|i: int|
            0 <= i < s.len() && (#[trigger] s[i]).0@ == x by {
            if x != s.last().0@ {
                assert(alist_map(s.drop_last()).contains_key(x));
                let i = choose|i: int|
                    0 <= i < s.drop_last().len() && (#[trigger] s.drop_last()[i]).0@ == x;
                assert(s.drop_last()[i] == s[i]);
                assert(s[i].0@ == x);
            } else {
                assert(s[s.len() - 1].0@ == x);
            }
        }
    }
}

/// A map from 256-bit hashes to values, backed by a vector of entries with
/// distinct keys.
pub struct HMap<V> {
    pub entries: Vec<(HashValue, V)>,
}

impl<V> HMap<V> {
    /// Distinct well-formed keys throughout.
    pub open spec fn wf(&self) -> bool {
        alist_wf(self.entries@)
    }

    /// The mapping this structure holds.
    pub open spec fn m(&self) -> Map<Seq<u8>, V> {
        alist_map(self.entries@)
    }

    /// An empty map.
    pub fn new() -> (r: HMap<V>)
        ensures
            r.wf(),
            r.m() == Map::<Seq<u8>, V>::empty(),
            r.entries@.len() == 0,
    {
        HMap { entries: Vec::new() }
    }

    /// Number of entries.
    pub fn len(&self) -> (r: usize)
        ensures
            r == self.entries@.len(),
    {
        self.entries.len()
    }

    /// The position of the entry for `h`, if one exists.
    fn index_of(&self, h: &HashValue) -> (r: Option<usize>)
        requires
            self.wf(),
        ensures
            match r {
                Some(i) => i < self.entries@.len() && self.entries@[i as int].0@ == h@,
                None => forall|i: int| 0 <= i < self.entries@.len() ==> (
                #[trigger] self.entries@[i]).0@ != h@,
            },
    {
        let mut i: usize = 0;
        while i < self.entries.len()
            invariant
                i <= self.entries@.len(),
                forall|j: int| 0 <= j < i ==> (#[trigger] self.entries@[j]).0@ != h@,
            decreases self.entries@.len() - i,
        {
            if self.entries[i].0.equals(h) {
                return Some(i);
            }
            i = i + 1;
        }
        None
    }

    /// Whether `h` has an entry.
    pub fn contains(&self, h: &HashValue) -> (r: bool)
        requires
            self.wf(),
        ensures
            r == self.m().contains_key(h@),
    {
        proof {
            lemma_alist_props(self.entries@);
        }
        self.index_of(h).is_some()
    }

    /// The value stored for `h`.
    pub fn get(&self, h: &HashValue) -> (r: Option<&V>)
        requires
            self.wf(),
        ensures
            match r {
                Some(v) => self.m().contains_key(h@) && self.m()[h@] == *v,
                None => !self.m().contains_key(h@),
            },
    {
        proof {
            lemma_alist_props(self.entries@);
        }
        match self.index_of(h) {
            Some(i) => Some(&self.entries[i].1),
            None => None,
        }
    }

    /// Binds `h` to `v`, replacing any previous binding.
    pub fn insert(&mut self, h: HashValue, v: V)
        requires
            old(self).wf(),
            h.wf(),
        ensures
            final(self).wf(),
            final(self).m() == old(self).m().insert(h@, v),
            final(self).entries@.len() == if old(self).m().contains_key(h@) {
                old(self).entries@.len() as int
            } else {
                old(self).entries@.len() + 1int
            },
    {
        proof {
            lemma_alist_props(self.entries@);
        }
        match self.index_of(&h) {
            Some(i) => {
                self.entries.set(i, (h, v));
                proof {
                    lemma_alist_set(old(self).entries@, i as int, (h, v));
                }
            },
            None => {
                self.entries.push((h, v));
                proof {
                    assert(self.entries@.drop_last() =~= old(self).entries@);
                }
            },
        }
    }

    /// Removes the binding for `h` if there is one.
    pub fn remove(&mut self, h: &HashValue)
        requires
            old(self).wf(),
        ensures
            final(self).wf(),
            final(self).m() == old(self).m().remove(h@),
            final(self).entries@.len() == if old(self).m().contains_key(h@) {
                old(self).entries@.len() - 1int
            } else {
                old(self).entries@.len() as int
            },
    {
        proof {
            lemma_alist_props(self.entries@);
        }
        match self.index_of(h) {
            Some(i) => {
                self.entries.remove(i);
                proof {
                    lemma_alist_remove(old(self).entries@, i as int);
                    assert(old(self).entries@[i as int].0@ == h@);
                }
            },
            None => {
                proof {
                    assert(!old(self).m().contains_key(h@));
                    assert(final(self).m() =~= old(self).m().remove(h@));
                }
            },
        }
    }
}

/// Replacing the entry at `i` updates the abstract map at the old key's
/// slot, provided the new entry keeps that key.
pub proof fn lemma_alist_set<V>(s: Seq<(HashValue, V)>, i: int, e: (HashValue, V))
    requires
        alist_wf(s),
        0 <= i < s.len(),
        e.0@ == s[i].0@,
        e.0.wf(),
    ensures
        alist_wf(s.update(i, e)),
        alist_map(s.update(i, e)) == alist_map(s).insert(e.0@, e.1),
    decreases s.len(),
{
    lemma_alist_props(s);
    let s2 = s.update(i, e);
    assert(alist_wf(s2));
    lemma_alist_props(s2);
    assert forall|x: Seq<u8>| #[trigger] alist_map(s2).contains_key(x)
        <==> alist_map(s).insert(e.0@, e.1).contains_key(x) by {
        if alist_map(s2).contains_key(x) {
            let j = choose|j: int| 0 <= j < s2.len() && (#[trigger] s2[j]).0@ == x;
            if j != i {
                assert(s[j].0@ == x);
            }
        }
        if alist_map(s).insert(e.0@, e.1).contains_key(x) {
            if x == e.0@ {
                assert(s2[i].0@ == x);
            } else {
                let j = choose|j: int| 0 <= j < s.len() && (#[trigger] s[j]).0@ == x;
                assert(s2[j].0@ == x);
            }
        }
    }
    assert forall|x: Seq<u8>| alist_map(s2).contains_key(x) implies #[trigger] alist_map(s2)[x]
        == alist_map(s).insert(e.0@, e.1)[x] by {
        let j = choose|j: int| 0 <= j < s2.len() && (#[trigger] s2[j]).0@ == x;
        if j == i {
            assert(alist_map(s2)[x] == e.1);
        } else {
            assert(s[j].0@ == x);
            assert(x != e.0@);
            assert(alist_map(s2)[x] == s2[j].1);
        }
    }
    assert(alist_map(s2) =~= alist_map(s).insert(e.0@, e.1));
}

/// Dropping the entry at `i` removes exactly its key from the abstract map.
pub proof fn lemma_alist_remove<V>(s: Seq<(HashValue, V)>, i: int)
    requires
        alist_wf(s),
        0 <= i < s.len(),
    ensures
        alist_wf(s.remove(i)),
        alist_map(s.remove(i)) == alist_map(s).remove(s[i].0@),
{
    lemma_alist_props(s);
    let s2 = s.remove(i);
    assert forall|a: int, b: int| 0 <= a < b < s2.len() implies s2[a].0@ != s2[b].0@ by {
        if a < i && b < i {
        } else if a < i {
            assert(s2[b] == s[b + 1]);
        } else {
            assert(s2[a] == s[a + 1]);
            assert(s2[b] == s[b + 1]);
        }
    }
    assert forall|a: int| 0 <= a < s2.len() implies (#[trigger] s2[a]).0.wf() by {
        if a < i {
        } else {
            assert(s2[a] == s[a + 1]);
        }
    }
    assert(alist_wf(s2));
    lemma_alist_props(s2);
    assert forall|x: Seq<u8>| #[trigger] alist_map(s2).contains_key(x)
        <==> alist_map(s).remove(s[i].0@).contains_key(x) by {
        if alist_map(s2).contains_key(x) {
            let j = choose|j: int| 0 <= j < s2.len() && (#[trigger] s2[j]).0@ == x;
            if j < i {
                assert(s[j].0@ == x);
            } else {
                assert(s2[j] == s[j + 1]);
                assert(s[j + 1].0@ == x);
            }
        }
        if alist_map(s).remove(s[i].0@).contains_key(x) {
            let j = choose|j: int| 0 <= j < s.len() && (#[trigger] s[j]).0@ == x;
            assert(j != i);
            if j < i {
                assert(s2[j].0@ == x);
            } else {
                assert(s2[j - 1] == s[j]);
                assert(s2[j - 1].0@ == x);
            }
        }
    }
    assert forall|x: Seq<u8>| alist_map(s2).contains_key(x) implies #[trigger] alist_map(s2)[x]
        == alist_map(s).remove(s[i].0@)[x] by {
        let j = choose|j: int| 0 <= j < s2.len() && (#[trigger] s2[j]).0@ == x;
        if j < i {
            assert(s[j].0@ == x);
            assert(alist_map(s)[x] == s[j].1);
        } else {
            assert(s2[j] == s[j + 1]);
            assert(alist_map(s)[x] == s[j + 1].1);
        }
    }
    assert(alist_map(s2) =~= alist_map(s).remove(s[i].0@));
}

} // verus!

use vstd::prelude::*;

use crate::lookup::binary_lookup;
use crate::lookup::found_at;
use crate::lookup::lemma_lookup_pos_props;
use crate::lookup::lookup_pos;
use crate::node::kv_map;
use crate::node::sorted_strict;
use crate::node::BtreeNode;
use crate::node::DeleteFromChildOperation;
use crate::node::DeleteFromSelfOperation;
use crate::node_map::lemma_kv_contains;
use crate::node_map::lemma_remove_insert_is_update;
use crate::node_map::lemma_seq_occ_from_all;
use crate::node_map::lemma_seq_occ_index;
use crate::node_map::lemma_seq_wf_from_all;
use crate::node_map::lemma_seq_wf_index;

verus! {

/// Swapping the subtree at position `i` for a well-formed subtree of the
/// same height whose keys all come from the old one keeps the node well
/// formed; outside the old subtree's keys nothing changes, and on them the
/// node's map now follows the new subtree.
pub proof fn lemma_replace_child<V>(o: BtreeNode<V>, n1: BtreeNode<V>, i: int, c1: BtreeNode<V>)
    requires
        o.wf(),
        0 <= i < o.children@.len(),
        c1.wf(),
        c1.max_count == o.max_count,
        c1.height() == o.children@[i].height(),
        forall|x: i32| #[trigger]
            c1.entry_map().dom().contains(x) ==> o.children@[i].entry_map().dom().contains(x),
        n1.keys@ == o.keys@,
        n1.values@ == o.values@,
        n1.children@ == o.children@.update(i, c1),
        n1.max_count == o.max_count,
    ensures
        n1.wf(),
        n1.height() == o.height(),
        n1.leaf() == o.leaf(),
        forall|x: i32|
            !(#[trigger] o.children@[i].entry_map().dom().contains(x)) ==> (
            n1.entry_map().dom().contains(x) <==> o.entry_map().dom().contains(x)) && (
            o.entry_map().dom().contains(x) ==> n1.entry_map()[x] == o.entry_map()[x]),
        forall|x: i32| #[trigger]
            o.children@[i].entry_map().dom().contains(x) ==> (n1.entry_map().dom().contains(x)
                <==> c1.entry_map().dom().contains(x)) && (c1.entry_map().dom().contains(x)
                ==> n1.entry_map()[x] == c1.entry_map()[x]) && !o.keys@.contains(x),
        (o.inner_occ() && c1.occ_bounds() && c1.inner_occ()) ==> n1.inner_occ(),
{
    let c0 = o.children@[i];
    assert(n1.children@[i] == c1);
    assert forall|j: int| 0 <= j < n1.children@.len() implies (#[trigger] n1.children@[j]).wf()
        && n1.children@[j].max_count == n1.max_count by {
        if j != i {
            lemma_seq_wf_index(o.children@, o.max_count, j);
        }
    }
    lemma_seq_wf_from_all(n1.children@, n1.max_count);
    assert(n1.separated()) by {
        assert forall|j: int, x: i32|
            0 <= j < n1.children@.len() && #[trigger] n1.children@[j].entry_map().dom().contains(x)
            implies (j < n1.key_count() ==> x < n1.keys@[j]) && (0 < j ==> n1.keys@[j - 1] < x) by {
            if j == i {
                assert(c0.entry_map().dom().contains(x));
            } else {
                assert(o.children@[j].entry_map().dom().contains(x));
            }
        }
    }
    assert(n1.height() == o.height()) by {
        if i == 0 {
            assert(n1.children@[0] == c1);
            assert(c0.height() + 1 == o.height());
        } else {
            assert(n1.children@[0] == o.children@[0]);
            assert(o.children@[0].height() + 1 == o.height());
        }
    }
    assert(n1.level()) by {
        assert forall|j: int| 0 <= j < n1.children@.len() implies (#[trigger] n1.children@[j]).height()
            + 1 == n1.height() by {
            if j == i {
                assert(c0.height() + 1 == o.height());
            } else {
                assert(o.children@[j].height() + 1 == o.height());
            }
        }
    }
    assert(n1.wf());
    assert forall|x: i32|
        !(#[trigger] c0.entry_map().dom().contains(x)) implies (n1.entry_map().dom().contains(x)
        <==> o.entry_map().dom().contains(x)) && (o.entry_map().dom().contains(x)
        ==> n1.entry_map()[x] == o.entry_map()[x]) by {
        n1.lemma_entry_contains(x);
        o.lemma_entry_contains(x);
        if n1.entry_map().dom().contains(x) {
            if n1.keys@.contains(x) {
                let a = choose|a: int| 0 <= a < n1.keys@.len() && n1.keys@[a] == x;
                n1.lemma_entry_get_own(a);
                o.lemma_entry_get_own(a);
            } else {
                let j = choose|j: int|
                    0 <= j < n1.children@.len() && #[trigger] n1.children@[j].entry_map().dom().contains(
                        x,
                    );
                assert(j != i);
                n1.lemma_entry_get_child(j, x);
                assert(o.children@[j].entry_map().dom().contains(x));
                o.lemma_entry_get_child(j, x);
            }
        } else if o.entry_map().dom().contains(x) {
            if o.keys@.contains(x) {
                assert(n1.keys@.contains(x));
            } else {
                let j = choose|j: int|
                    0 <= j < o.children@.len() && #[trigger] o.children@[j].entry_map().dom().contains(
                        x,
                    );
                assert(j != i);
                assert(n1.children@[j].entry_map().dom().contains(x));
            }
        }
    }
    assert forall|x: i32| #[trigger] c0.entry_map().dom().contains(x) implies (
    n1.entry_map().dom().contains(x) <==> c1.entry_map().dom().contains(x)) && (
    c1.entry_map().dom().contains(x) ==> n1.entry_map()[x] == c1.entry_map()[x])
        && !o.keys@.contains(x) by {
        o.lemma_entry_get_child(i, x);
        o.lemma_unique_holder(x);
        n1.lemma_entry_contains(x);
        if c1.entry_map().dom().contains(x) {
            n1.lemma_entry_get_child(i, x);
        } else if n1.entry_map().dom().contains(x) {
            if n1.keys@.contains(x) {
            } else {
                let j = choose|j: int|
                    0 <= j < n1.children@.len() && #[trigger] n1.children@[j].entry_map().dom().contains(
                        x,
                    );
                if j != i {
                    assert(o.children@[j].entry_map().dom().contains(x));
                }
            }
        }
    }
    if o.inner_occ() && c1.occ_bounds() && c1.inner_occ() {
        assert forall|j: int| 0 <= j < n1.children@.len() implies (#[trigger] n1.children@[j]).occ_bounds()
            && n1.children@[j].inner_occ() by {
            if j != i {
                lemma_seq_occ_index(o.children@, j);
            }
        }
        lemma_seq_occ_from_all(n1.children@);
    }
}

/// Removing the entry at position `i` of a leaf removes exactly its key
/// from the subtree map.
pub proof fn lemma_leaf_remove<V>(o: BtreeNode<V>, n1: BtreeNode<V>, i: int)
    requires
        o.wf(),
        o.leaf(),
        0 <= i < o.key_count(),
        n1.keys@ == o.keys@.remove(i),
        n1.values@ == o.values@.remove(i),
        n1.children@ == o.children@,
        n1.max_count == o.max_count,
    ensures
        n1.wf(),
        n1.leaf(),
        n1.height() == 1,
        n1.entry_map() == o.entry_map().remove(o.keys@[i]),
        n1.key_count() == o.key_count() - 1,
        n1.inner_occ(),
{
    assert(sorted_strict(n1.keys@)) by {
        assert forall|a: int, b: int| 0 <= a < b < n1.keys@.len() implies n1.keys@[a] < n1.keys@[b] by {
            let a0 = if a < i {
                a
            } else {
                a + 1
            };
            let b0 = if b < i {
                b
            } else {
                b + 1
            };
            assert(n1.keys@[a] == o.keys@[a0]);
            assert(n1.keys@[b] == o.keys@[b0]);
            assert(o.keys@[a0] < o.keys@[b0]);
        }
    }
    assert(n1.wf());
    assert forall|x: i32| #[trigger] n1.entry_map().dom().contains(x) implies o.entry_map().remove(
        o.keys@[i],
    ).dom().contains(x) && n1.entry_map()[x] == o.entry_map().remove(o.keys@[i])[x] by {
        n1.lemma_entry_contains(x);
        let a = choose|a: int| 0 <= a < n1.keys@.len() && n1.keys@[a] == x;
        n1.lemma_entry_get_own(a);
        let a0 = if a < i {
            a
        } else {
            a + 1
        };
        assert(o.keys@[a0] == x);
        o.lemma_entry_get_own(a0);
        if a0 < i {
            assert(o.keys@[a0] < o.keys@[i]);
        } else {
            assert(o.keys@[i] < o.keys@[a0]);
        }
    }
    assert forall|x: i32| #[trigger] o.entry_map().remove(o.keys@[i]).dom().contains(x)
        implies n1.entry_map().dom().contains(x) by {
        o.lemma_entry_contains(x);
        n1.lemma_entry_contains(x);
        let a = choose|a: int| 0 <= a < o.keys@.len() && o.keys@[a] == x;
        assert(a != i) by {
            assert(x != o.keys@[i]);
        }
        if a < i {
            assert(n1.keys@[a] == x);
        } else {
            assert(n1.keys@[a - 1] == x);
        }
    }
    assert(n1.entry_map() =~= o.entry_map().remove(o.keys@[i]));
}

impl<V> BtreeNode<V> {
    /// Takes the least entry out of this subtree when its leaf can spare
    /// one; otherwise leaves the subtree's content unchanged.
    pub fn pop_min(&mut self) -> (r: Option<(i32, V)>)
        requires
            old(self).wf(),
        ensures
            final(self).wf(),
            final(self).max_count == old(self).max_count,
            final(self).height() == old(self).height(),
            final(self).leaf() == old(self).leaf(),
            !old(self).leaf() ==> final(self).keys@ == old(self).keys@ && final(self).values@
                == old(self).values@,
            old(self).inner_occ() ==> final(self).inner_occ(),
            (r is Some) == old(self).can_pop_min(),
            match r {
                Option::Some(e) => {
                    &&& old(self).entry_map().dom().contains(e.0)
                    &&& old(self).entry_map()[e.0] == e.1
                    &&& final(self).entry_map() == old(self).entry_map().remove(e.0)
                    &&& forall|x: i32| #[trigger]
                        old(self).entry_map().dom().contains(x) ==> e.0 <= x
                    &&& final(self).key_count() >= old(self).key_count() - 1
                    &&& old(self).leaf() ==> final(self).key_count() == old(self).key_count() - 1
                },
                Option::None => {
                    &&& final(self).entry_map() == old(self).entry_map()
                    &&& final(self).key_count() == old(self).key_count()
                    &&& final(self).same_content(*old(self))
                    &&& (old(self).leaf() ==> *final(self) == *old(self))
                },
            },
        decreases *old(self),
    {
        let ghost o = *old(self);
        if !self.is_leaf() {
            proof {
                lemma_seq_wf_index(o.children@, o.max_count, 0);
                if o.inner_occ() {
                    lemma_seq_occ_index(o.children@, 0);
                }
            }
            let mut child = self.children.remove(0);
            let r = child.pop_min();
            let ghost c1 = child;
            let ghost rg = r;
            self.children.insert(0, child);
            proof {
                lemma_remove_insert_is_update(o.children@, 0, c1);
                assert(self.children@ == o.children@.update(0, c1));
                lemma_replace_child(o, *self, 0, c1);
                let c0 = o.children@[0];
                match rg {
                    Option::Some(e) => {
                        assert(c0.entry_map().dom().contains(e.0));
                        o.lemma_entry_get_child(0, e.0);
                        assert forall|x: i32| #[trigger] o.entry_map().dom().contains(x) implies e.0
                            <= x by {
                            o.lemma_entry_contains(x);
                            if o.keys@.contains(x) {
                                let a = choose|a: int| 0 <= a < o.keys@.len() && o.keys@[a] == x;
                                assert(e.0 < o.keys@[0]);
                                if a > 0 {
                                    assert(o.keys@[0] < o.keys@[a]);
                                }
                            } else {
                                let j = choose|j: int|
                                    0 <= j < o.children@.len() && #[trigger] o.children@[j].entry_map().dom().contains(
                                        x,
                                    );
                                if j > 0 {
                                    assert(e.0 < o.keys@[0]);
                                    assert(o.keys@[j - 1] < x);
                                    if 0 < j - 1 {
                                        assert(o.keys@[0] < o.keys@[j - 1]);
                                    }
                                }
                            }
                        }
                        assert forall|x: i32|
                            #![all_triggers]
                            true implies (self.entry_map().dom().contains(x) <==> o.entry_map().remove(
                            e.0,
                        ).dom().contains(x)) && (self.entry_map().dom().contains(x)
                            ==> self.entry_map()[x] == o.entry_map().remove(e.0)[x]) by {
                            if c0.entry_map().dom().contains(x) {
                                o.lemma_entry_get_child(0, x);
                            } else {
                                assert(x != e.0);
                            }
                        }
                        assert(self.entry_map() =~= o.entry_map().remove(e.0));
                    },
                    Option::None => {
                        assert forall|x: i32|
                            #![all_triggers]
                            true implies (self.entry_map().dom().contains(x)
                            <==> o.entry_map().dom().contains(x)) && (
                        self.entry_map().dom().contains(x) ==> self.entry_map()[x]
                            == o.entry_map()[x]) by {
                            if c0.entry_map().dom().contains(x) {
                                o.lemma_entry_get_child(0, x);
                            }
                        }
                        assert(self.entry_map() =~= o.entry_map());
                        crate::node_map::lemma_same_content_assemble(*self, o, 0);
                    },
                }
            }
            r
        } else {
            proof {
                crate::node_map::lemma_same_content_refl(o);
            }
            if self.is_more_than_min_count() {
                let entry = self.remove_head_entry();
                proof {
                    lemma_leaf_remove(o, *self, 0);
                    o.lemma_entry_get_own(0);
                    assert forall|x: i32| #[trigger] o.entry_map().dom().contains(x) implies entry.0
                        <= x by {
                        o.lemma_entry_contains(x);
                        let a = choose|a: int| 0 <= a < o.keys@.len() && o.keys@[a] == x;
                        if a > 0 {
                            assert(o.keys@[0] < o.keys@[a]);
                        }
                    }
                }
                Some(entry)
            } else {
                None
            }
        }
    }

    /// Takes the greatest entry out of this subtree when its leaf can spare
    /// one; otherwise leaves the subtree's content unchanged.
    pub fn pop_max(&mut self) -> (r: Option<(i32, V)>)
        requires
            old(self).wf(),
        ensures
            final(self).wf(),
            final(self).max_count == old(self).max_count,
            final(self).height() == old(self).height(),
            final(self).leaf() == old(self).leaf(),
            !old(self).leaf() ==> final(self).keys@ == old(self).keys@ && final(self).values@
                == old(self).values@,
            old(self).inner_occ() ==> final(self).inner_occ(),
            (r is Some) == old(self).can_pop_max(),
            match r {
                Option::Some(e) => {
                    &&& old(self).entry_map().dom().contains(e.0)
                    &&& old(self).entry_map()[e.0] == e.1
                    &&& final(self).entry_map() == old(self).entry_map().remove(e.0)
                    &&& forall|x: i32| #[trigger]
                        old(self).entry_map().dom().contains(x) ==> x <= e.0
                    &&& final(self).key_count() >= old(self).key_count() - 1
                    &&& old(self).leaf() ==> final(self).key_count() == old(self).key_count() - 1
                },
                Option::None => {
                    &&& final(self).entry_map() == old(self).entry_map()
                    &&& final(self).key_count() == old(self).key_count()
                    &&& final(self).same_content(*old(self))
                    &&& (old(self).leaf() ==> *final(self) == *old(self))
                },
            },
        decreases *old(self),
    {
        let ghost o = *old(self);
        if !self.is_leaf() {
            let last = self.children.len() - 1;
            proof {
                lemma_seq_wf_index(o.children@, o.max_count, last as int);
                if o.inner_occ() {
                    lemma_seq_occ_index(o.children@, last as int);
                }
                assert(o.children@[last as int] == o.children@.last());
            }
            let mut child = self.children.remove(last);
            let r = child.pop_max();
            let ghost c1 = child;
            let ghost rg = r;
            self.children.insert(last, child);
            proof {
                lemma_remove_insert_is_update(o.children@, last as int, c1);
                assert(self.children@ == o.children@.update(last as int, c1));
                lemma_replace_child(o, *self, last as int, c1);
                let c0 = o.children@[last as int];
                match rg {
                    Option::Some(e) => {
                        assert(c0.entry_map().dom().contains(e.0));
                        o.lemma_entry_get_child(last as int, e.0);
                        assert forall|x: i32| #[trigger] o.entry_map().dom().contains(x) implies x
                            <= e.0 by {
                            o.lemma_entry_contains(x);
                            if o.keys@.contains(x) {
                                let a = choose|a: int| 0 <= a < o.keys@.len() && o.keys@[a] == x;
                                assert(o.keys@[last as int - 1] < e.0);
                                if a < last as int - 1 {
                                    assert(o.keys@[a] < o.keys@[last as int - 1]);
                                }
                            } else {
                                let j = choose|j: int|
                                    0 <= j < o.children@.len() && #[trigger] o.children@[j].entry_map().dom().contains(
                                        x,
                                    );
                                if j < last as int {
                                    assert(x < o.keys@[j]);
                                    assert(o.keys@[last as int - 1] < e.0);
                                    if j < last as int - 1 {
                                        assert(o.keys@[j] < o.keys@[last as int - 1]);
                                    }
                                }
                            }
                        }
                        assert forall|x: i32|
                            #![all_triggers]
                            true implies (self.entry_map().dom().contains(x) <==> o.entry_map().remove(
                            e.0,
                        ).dom().contains(x)) && (self.entry_map().dom().contains(x)
                            ==> self.entry_map()[x] == o.entry_map().remove(e.0)[x]) by {
                            if c0.entry_map().dom().contains(x) {
                                o.lemma_entry_get_child(last as int, x);
                            } else {
                                assert(x != e.0);
                            }
                        }
                        assert(self.entry_map() =~= o.entry_map().remove(e.0));
                    },
                    Option::None => {
                        assert forall|x: i32|
                            #![all_triggers]
                            true implies (self.entry_map().dom().contains(x)
                            <==> o.entry_map().dom().contains(x)) && (
                        self.entry_map().dom().contains(x) ==> self.entry_map()[x]
                            == o.entry_map()[x]) by {
                            if c0.entry_map().dom().contains(x) {
                                o.lemma_entry_get_child(last as int, x);
                            }
                        }
                        assert(self.entry_map() =~= o.entry_map());
                        crate::node_map::lemma_same_content_assemble(*self, o, last as int);
                    },
                }
            }
            r
        } else {
            proof {
                crate::node_map::lemma_same_content_refl(o);
            }
            if self.is_more_than_min_count() {
                let entry = self.remove_tail_entry();
                proof {
                    let kc = o.key_count();
                    assert(self.keys@ =~= o.keys@.remove(kc - 1));
                    assert(self.values@ =~= o.values@.remove(kc - 1));
                    lemma_leaf_remove(o, *self, kc - 1);
                    o.lemma_entry_get_own(kc - 1);
                    assert forall|x: i32| #[trigger] o.entry_map().dom().contains(x) implies x
                        <= entry.0 by {
                        o.lemma_entry_contains(x);
                        let a = choose|a: int| 0 <= a < o.keys@.len() && o.keys@[a] == x;
                        if a < kc - 1 {
                            assert(o.keys@[a] < o.keys@[kc - 1]);
                        }
                    }
                }
                Some(entry)
            } else {
                None
            }
        }
    }
}


impl<V> BtreeNode<V> {
    /// Decides how to repair the removal of this node's entry at `index`:
    /// harvest the in-order predecessor from the subtree left of the key,
    /// else the in-order successor from the subtree right of it (either
    /// harvest already performed), else ask for the two subtrees to be
    /// merged, collapsing this node when the key was its last.
    pub fn resolve_delete_from_self_operation(&mut self, index: usize) -> (operation:
        DeleteFromSelfOperation<V>)
        requires
            old(self).wf(),
            !old(self).leaf(),
            index < old(self).key_count(),
        ensures
            final(self).wf(),
            final(self).max_count == old(self).max_count,
            final(self).height() == old(self).height(),
            final(self).leaf() == old(self).leaf(),
            final(self).keys@ == old(self).keys@,
            final(self).values@ == old(self).values@,
            old(self).inner_occ() ==> final(self).inner_occ(),
            match operation {
                DeleteFromSelfOperation::Replace(e) => {
                    &&& old(self).entry_map().dom().contains(e.0)
                    &&& old(self).entry_map()[e.0] == e.1
                    &&& final(self).entry_map() == old(self).entry_map().remove(e.0)
                    &&& !old(self).keys@.contains(e.0)
                    &&& (old(self).children@[index as int].can_pop_max() || old(self).children@[
                        index as int + 1
                    ].can_pop_min())
                    &&& (old(self).children@[index as int].can_pop_max() ==> e.0 < old(
                        self,
                    ).keys@[index as int])
                    &&& (!old(self).children@[index as int].can_pop_max() ==> old(self).keys@[
                        index as int
                    ] < e.0)
                    &&& forall|x: i32| #[trigger]
                        final(self).children@[index as int].entry_map().dom().contains(x) ==> x
                            < e.0
                    &&& forall|x: i32| #[trigger]
                        final(self).children@[index as int + 1].entry_map().dom().contains(x)
                            ==> e.0 < x
                    &&& (index > 0 ==> old(self).keys@[index as int - 1] < e.0)
                    &&& (index + 1 < old(self).key_count() ==> e.0 < old(self).keys@[index as int
                        + 1])
                },
                DeleteFromSelfOperation::Merge => {
                    &&& final(self).entry_map() == old(self).entry_map()
                    &&& !old(self).children@[index as int].can_pop_max()
                    &&& !old(self).children@[index as int + 1].can_pop_min()
                    &&& old(self).key_count() != 1
                    &&& ((old(self).children@[index as int].leaf() && old(self).children@[index
                        as int + 1].leaf()) ==> final(self).children@ == old(self).children@)
                },
                DeleteFromSelfOperation::MergeToSelf => {
                    &&& final(self).entry_map() == old(self).entry_map()
                    &&& !old(self).children@[index as int].can_pop_max()
                    &&& !old(self).children@[index as int + 1].can_pop_min()
                    &&& old(self).key_count() == 1
                    &&& ((old(self).children@[index as int].leaf() && old(self).children@[index
                        as int + 1].leaf()) ==> final(self).children@ == old(self).children@)
                },
            },
    {
        let ghost o = *old(self);
        proof {
            assert(index + 1 <= self.keys.len());
            lemma_seq_wf_index(o.children@, o.max_count, index as int);
            lemma_seq_wf_index(o.children@, o.max_count, index as int + 1);
            if o.inner_occ() {
                lemma_seq_occ_index(o.children@, index as int);
                lemma_seq_occ_index(o.children@, index as int + 1);
            }
        }
        let mut left = self.children.remove(index);
        let rmax = left.pop_max();
        let ghost l1 = left;
        let ghost rmaxg = rmax;
        self.children.insert(index, left);
        proof {
            lemma_remove_insert_is_update(o.children@, index as int, l1);
            assert(self.children@ == o.children@.update(index as int, l1));
            lemma_replace_child(o, *self, index as int, l1);
        }
        let ghost mid = *self;
        let ghost cl = o.children@[index as int];
        let ghost cr = o.children@[index as int + 1];
        match rmax {
            Some(entry) => {
                proof {
                    assert(cl.entry_map().dom().contains(entry.0));
                    o.lemma_entry_get_child(index as int, entry.0);
                    assert(entry.0 < o.keys@[index as int]);
                    assert forall|x: i32|
                        #![all_triggers]
                        true implies (mid.entry_map().dom().contains(x)
                        <==> o.entry_map().remove(entry.0).dom().contains(x)) && (
                    mid.entry_map().dom().contains(x) ==> mid.entry_map()[x] == o.entry_map().remove(
                        entry.0,
                    )[x]) by {
                        if cl.entry_map().dom().contains(x) {
                            o.lemma_entry_get_child(index as int, x);
                        } else {
                            assert(x != entry.0);
                        }
                    }
                    assert(mid.entry_map() =~= o.entry_map().remove(entry.0));
                    assert forall|x: i32| #[trigger]
                        mid.children@[index as int].entry_map().dom().contains(x) implies x
                        < entry.0 by {
                        assert(l1.entry_map().dom().contains(x));
                        assert(cl.entry_map().dom().contains(x));
                    }
                    assert forall|x: i32| #[trigger]
                        mid.children@[index as int + 1].entry_map().dom().contains(x) implies entry.0
                        < x by {
                        assert(mid.children@[index as int + 1] == cr);
                        assert(cr.entry_map().dom().contains(x));
                        assert(o.keys@[index as int] < x);
                    }
                    o.lemma_unique_holder(entry.0);
                }
                return DeleteFromSelfOperation::Replace(entry);
            },
            None => {},
        }
        proof {
            assert forall|x: i32|
                #![all_triggers]
                true implies (mid.entry_map().dom().contains(x) <==> o.entry_map().dom().contains(
                x,
            )) && (mid.entry_map().dom().contains(x) ==> mid.entry_map()[x] == o.entry_map()[x]) by {
                if cl.entry_map().dom().contains(x) {
                    o.lemma_entry_get_child(index as int, x);
                }
            }
            assert(mid.entry_map() =~= o.entry_map());
            assert(mid.children@[index as int + 1] == cr);
        }
        let mut right = self.children.remove(index + 1);
        let rmin = right.pop_min();
        let ghost r1 = right;
        let ghost rming = rmin;
        self.children.insert(index + 1, right);
        proof {
            lemma_remove_insert_is_update(mid.children@, index as int + 1, r1);
            assert(self.children@ == mid.children@.update(index as int + 1, r1));
            lemma_replace_child(mid, *self, index as int + 1, r1);
        }
        let ghost fin = *self;
        match rmin {
            Some(entry) => {
                proof {
                    assert(cr.entry_map().dom().contains(entry.0));
                    mid.lemma_entry_get_child(index as int + 1, entry.0);
                    o.lemma_entry_get_child(index as int + 1, entry.0);
                    assert(o.keys@[index as int] < entry.0);
                    assert forall|x: i32|
                        #![all_triggers]
                        true implies (fin.entry_map().dom().contains(x)
                        <==> mid.entry_map().remove(entry.0).dom().contains(x)) && (
                    fin.entry_map().dom().contains(x) ==> fin.entry_map()[x] == mid.entry_map().remove(
                        entry.0,
                    )[x]) by {
                        if cr.entry_map().dom().contains(x) {
                            mid.lemma_entry_get_child(index as int + 1, x);
                        } else {
                            assert(x != entry.0);
                        }
                    }
                    assert(fin.entry_map() =~= o.entry_map().remove(entry.0));
                    assert forall|x: i32| #[trigger]
                        fin.children@[index as int].entry_map().dom().contains(x) implies x
                        < entry.0 by {
                        assert(fin.children@[index as int] == mid.children@[index as int]);
                        assert(mid.children@[index as int] == l1);
                        assert(l1.entry_map().dom().contains(x));
                        assert(cl.entry_map().dom().contains(x));
                        assert(x < o.keys@[index as int]);
                    }
                    assert forall|x: i32| #[trigger]
                        fin.children@[index as int + 1].entry_map().dom().contains(x) implies entry.0
                        < x by {
                        assert(r1.entry_map().dom().contains(x));
                        assert(cr.entry_map().dom().contains(x));
                    }
                    o.lemma_unique_holder(entry.0);
                }
                return DeleteFromSelfOperation::Replace(entry);
            },
            None => {},
        }
        proof {
            assert forall|x: i32|
                #![all_triggers]
                true implies (fin.entry_map().dom().contains(x) <==> mid.entry_map().dom().contains(
                x,
            )) && (fin.entry_map().dom().contains(x) ==> fin.entry_map()[x] == mid.entry_map()[x]) by {
                if cr.entry_map().dom().contains(x) {
                    mid.lemma_entry_get_child(index as int + 1, x);
                }
            }
            assert(fin.entry_map() =~= o.entry_map());
            if cl.leaf() && cr.leaf() {
                assert(l1 == cl);
                assert(r1 == cr);
                assert(fin.children@ =~= o.children@);
            }
        }
        if self.current_count() != 1 {
            DeleteFromSelfOperation::Merge
        } else {
            DeleteFromSelfOperation::MergeToSelf
        }
    }
}



/// Overwriting the entry at `index` with a harvested entry that separates
/// the two subtrees beside it trades the old key for the new entry in the
/// subtree map.
proof fn lemma_self_replace<V>(o: BtreeNode<V>, n1: BtreeNode<V>, index: int, key: i32, value: V)
    requires
        o.wf(),
        !o.leaf(),
        0 <= index < o.key_count(),
        forall|x: i32| #[trigger] o.children@[index].entry_map().dom().contains(x) ==> x < key,
        forall|x: i32| #[trigger] o.children@[index + 1].entry_map().dom().contains(x) ==> key < x,
        index > 0 ==> o.keys@[index - 1] < key,
        index + 1 < o.key_count() ==> key < o.keys@[index + 1],
        n1.keys@ == o.keys@.update(index, key),
        n1.values@ == o.values@.update(index, value),
        n1.children@ == o.children@,
        n1.max_count == o.max_count,
    ensures
        n1.wf(),
        n1.entry_map() == o.entry_map().remove(o.keys@[index]).insert(key, value),
        n1.height() == o.height(),
        n1.leaf() == o.leaf(),
        n1.key_count() == o.key_count(),
        o.inner_occ() ==> n1.inner_occ(),
{
    let ki = o.keys@[index];
    assert(sorted_strict(n1.keys@)) by {
        assert forall|a: int, b: int| 0 <= a < b < n1.keys@.len() implies n1.keys@[a] < n1.keys@[b] by {
            if a != index && b != index {
                assert(o.keys@[a] < o.keys@[b]);
            } else if a == index {
                if index + 1 < b {
                    assert(o.keys@[index + 1] < o.keys@[b]);
                }
            } else {
                if a < index - 1 {
                    assert(o.keys@[a] < o.keys@[index - 1]);
                }
            }
        }
    }
    assert(n1.separated()) by {
        assert forall|j: int, x: i32|
            0 <= j < n1.children@.len() && #[trigger] n1.children@[j].entry_map().dom().contains(x)
            implies (j < n1.key_count() ==> x < n1.keys@[j]) && (0 < j ==> n1.keys@[j - 1] < x) by {
            assert(o.children@[j].entry_map().dom().contains(x));
            if j < n1.key_count() && j != index {
                assert(x < o.keys@[j]);
            }
            if 0 < j && j != index + 1 {
                assert(o.keys@[j - 1] < x);
            }
        }
    }
    assert(n1.height() == o.height()) by {
        assert(n1.children@[0] == o.children@[0]);
        assert(o.children@[0].height() + 1 == o.height());
    }
    assert(n1.level()) by {
        assert forall|j: int| 0 <= j < n1.children@.len() implies (#[trigger] n1.children@[j]).height()
            + 1 == n1.height() by {
            assert(o.children@[j].height() + 1 == o.height());
        }
    }
    assert(n1.wf());
    o.lemma_entry_get_own(index);
    o.lemma_unique_holder(key);
    o.lemma_unique_holder(ki);
    assert(o.keys@.contains(ki)) by {
        assert(o.keys@[index] == ki);
    }
    assert forall|x: i32|
        #![all_triggers]
        true implies (n1.entry_map().dom().contains(x) <==> o.entry_map().remove(ki).insert(
        key,
        value,
    ).dom().contains(x)) && (n1.entry_map().dom().contains(x) ==> n1.entry_map()[x]
        == o.entry_map().remove(ki).insert(key, value)[x]) by {
        n1.lemma_entry_contains(x);
        o.lemma_entry_contains(x);
        if x == key {
            assert(n1.keys@[index] == key);
            n1.lemma_entry_get_own(index);
        } else if x == ki {
            if n1.entry_map().dom().contains(x) {
                if n1.keys@.contains(x) {
                    let a = choose|a: int| 0 <= a < n1.keys@.len() && n1.keys@[a] == x;
                    assert(a != index);
                    assert(o.keys@[a] == x);
                    if a < index {
                        assert(o.keys@[a] < o.keys@[index]);
                    } else {
                        assert(o.keys@[index] < o.keys@[a]);
                    }
                } else {
                    let j = choose|j: int|
                        0 <= j < n1.children@.len() && #[trigger] n1.children@[j].entry_map().dom().contains(
                            x,
                        );
                    assert(o.children@[j].entry_map().dom().contains(x));
                    assert(!o.keys@.contains(x));
                }
            }
        } else {
            if n1.keys@.contains(x) {
                let a = choose|a: int| 0 <= a < n1.keys@.len() && n1.keys@[a] == x;
                assert(a != index);
                assert(o.keys@[a] == x);
                n1.lemma_entry_get_own(a);
                o.lemma_entry_get_own(a);
            } else if o.keys@.contains(x) {
                let a = choose|a: int| 0 <= a < o.keys@.len() && o.keys@[a] == x;
                assert(a != index);
                assert(n1.keys@[a] == x);
            } else {
                if n1.entry_map().dom().contains(x) {
                    let j = choose|j: int|
                        0 <= j < n1.children@.len() && #[trigger] n1.children@[j].entry_map().dom().contains(
                            x,
                        );
                    n1.lemma_entry_get_child(j, x);
                    assert(o.children@[j].entry_map().dom().contains(x));
                    o.lemma_entry_get_child(j, x);
                } else if o.entry_map().dom().contains(x) {
                    let j = choose|j: int|
                        0 <= j < o.children@.len() && #[trigger] o.children@[j].entry_map().dom().contains(
                            x,
                        );
                    assert(n1.children@[j].entry_map().dom().contains(x));
                }
            }
        }
    }
    assert(n1.entry_map() =~= o.entry_map().remove(ki).insert(key, value));
}

/// A leaf's subtree map is exactly the pairing of its keys with its values.
proof fn lemma_leaf_entry_map<V>(n: BtreeNode<V>)
    requires
        n.leaf(),
    ensures
        n.entry_map() == kv_map(n.keys@, n.values@),
{
    assert(n.entry_map() =~= kv_map(n.keys@, n.values@));
}

/// Pairing up a concatenation of two runs of keys around a middle key gives
/// the union of the runs' maps with the middle entry added, as long as the
/// runs stand strictly below and above the middle key.
proof fn lemma_kv_parts<V>(ks1: Seq<i32>, vs1: Seq<V>, k0: i32, v0: V, ks2: Seq<i32>, vs2: Seq<V>)
    requires
        ks1.len() == vs1.len(),
        ks2.len() == vs2.len(),
        forall|a: int| 0 <= a < ks1.len() ==> ks1[a] < k0,
        forall|a: int| 0 <= a < ks2.len() ==> k0 < ks2[a],
    ensures
        kv_map(ks1 + seq![k0] + ks2, vs1 + seq![v0] + vs2) == kv_map(ks1, vs1).union_prefer_right(
            kv_map(ks2, vs2),
        ).insert(k0, v0),
    decreases ks2.len(),
{
    if ks2.len() == 0 {
        assert((ks1 + seq![k0] + ks2) =~= ks1 + seq![k0]);
        assert((vs1 + seq![v0] + vs2) =~= vs1 + seq![v0]);
        assert((ks1 + seq![k0]).drop_last() =~= ks1);
        assert((vs1 + seq![v0]).drop_last() =~= vs1);
        assert(kv_map(ks1 + seq![k0], vs1 + seq![v0]) == kv_map(ks1, vs1).insert(k0, v0));
        lemma_kv_contains(ks2, vs2, k0);
        assert(kv_map(ks2, vs2) =~= Map::<i32, V>::empty());
        assert(kv_map(ks1, vs1).union_prefer_right(kv_map(ks2, vs2)) =~= kv_map(ks1, vs1));
    } else {
        lemma_kv_parts(ks1, vs1, k0, v0, ks2.drop_last(), vs2.drop_last());
        assert((ks1 + seq![k0] + ks2).drop_last() =~= ks1 + seq![k0] + ks2.drop_last());
        assert((vs1 + seq![v0] + vs2).drop_last() =~= vs1 + seq![v0] + vs2.drop_last());
        assert((ks1 + seq![k0] + ks2).last() == ks2.last());
        assert((vs1 + seq![v0] + vs2).last() == vs2.last());
        assert(kv_map(ks1 + seq![k0] + ks2, vs1 + seq![v0] + vs2) == kv_map(
            ks1,
            vs1,
        ).union_prefer_right(kv_map(ks2.drop_last(), vs2.drop_last())).insert(k0, v0).insert(
            ks2.last(),
            vs2.last(),
        ));
        assert(ks2.last() != k0);
        assert(kv_map(ks1, vs1).union_prefer_right(
            kv_map(ks2.drop_last(), vs2.drop_last()),
        ).insert(k0, v0).insert(ks2.last(), vs2.last()) =~= kv_map(ks1, vs1).union_prefer_right(
            kv_map(ks2, vs2),
        ).insert(k0, v0));
    }
}

impl<V> BtreeNode<V> {
    /// In a well-formed node with one leaf subtree, every subtree is a leaf
    /// and the node stands two levels tall.
    proof fn lemma_all_leaves(self, i: int)
        requires
            self.wf(),
            0 <= i < self.children@.len(),
            self.children@[i].leaf(),
        ensures
            forall|j: int| 0 <= j < self.children@.len() ==> (#[trigger] self.children@[j]).leaf(),
            self.height() == 2,
    {
        assert(self.children@[i].height() + 1 == self.height());
        assert forall|j: int| 0 <= j < self.children@.len() implies (
        #[trigger] self.children@[j]).leaf() by {
            assert(self.children@[j].height() + 1 == self.height());
            crate::node_map::lemma_height_one_leaf(self.children@[j]);
        }
    }

}


/// The node assembled from two same-height subtrees around a separator that
/// stands between their key ranges: it is well formed, stands at the
/// subtrees' height, and holds exactly their entries plus the separator.
#[verifier::rlimit(100)]
proof fn lemma_merge_with_separator<V>(
    cl: BtreeNode<V>,
    cr: BtreeNode<V>,
    m: BtreeNode<V>,
    sk: i32,
    sv: V,
)
    requires
        cl.wf(),
        cr.wf(),
        cl.max_count == cr.max_count,
        cl.height() == cr.height(),
        forall|x: i32| #[trigger] cl.entry_map().dom().contains(x) ==> x < sk,
        forall|x: i32| #[trigger] cr.entry_map().dom().contains(x) ==> sk < x,
        m.keys@ == cl.keys@ + seq![sk] + cr.keys@,
        m.values@ == cl.values@ + seq![sv] + cr.values@,
        m.children@ == cl.children@ + cr.children@,
        m.max_count == cl.max_count,
    ensures
        m.wf(),
        m.height() == cl.height(),
        m.leaf() == cl.leaf(),
        m.key_count() == cl.key_count() + cr.key_count() + 1,
        m.entry_map() == cl.entry_map().union_prefer_right(cr.entry_map()).insert(sk, sv),
        (cl.inner_occ() && cr.inner_occ()) ==> m.inner_occ(),
{
    let a = cl.key_count();
    let b = cr.key_count();
    let ca = cl.children@.len() as int;
    assert(cr.leaf() == cl.leaf()) by {
        if cl.leaf() && !cr.leaf() {
            crate::node_map::lemma_height_pos(cr.children@[0]);
        }
        if !cl.leaf() && cr.leaf() {
            crate::node_map::lemma_height_pos(cl.children@[0]);
        }
    }
    assert forall|p: int| 0 <= p < a implies cl.keys@[p] < sk by {
        assert(cl.keys@.contains(cl.keys@[p]));
        cl.lemma_entry_contains(cl.keys@[p]);
    }
    assert forall|p: int| 0 <= p < b implies sk < cr.keys@[p] by {
        assert(cr.keys@.contains(cr.keys@[p]));
        cr.lemma_entry_contains(cr.keys@[p]);
    }
    assert(sorted_strict(m.keys@)) by {
        assert forall|p: int, q: int| 0 <= p < q < m.keys@.len() implies m.keys@[p] < m.keys@[q] by {
            let kp = if p < a {
                cl.keys@[p]
            } else if p == a {
                sk
            } else {
                cr.keys@[p - a - 1]
            };
            let kq = if q < a {
                cl.keys@[q]
            } else if q == a {
                sk
            } else {
                cr.keys@[q - a - 1]
            };
            assert(m.keys@[p] == kp && m.keys@[q] == kq);
        }
    }
    if !cl.leaf() {
        assert forall|j: int| 0 <= j < m.children@.len() implies (#[trigger] m.children@[j]).wf()
            && m.children@[j].max_count == m.max_count by {
            if j < ca {
                lemma_seq_wf_index(cl.children@, cl.max_count, j);
            } else {
                lemma_seq_wf_index(cr.children@, cr.max_count, j - ca);
            }
        }
        lemma_seq_wf_from_all(m.children@, m.max_count);
        assert(m.separated()) by {
            assert forall|j: int, x: i32|
                0 <= j < m.children@.len() && #[trigger] m.children@[j].entry_map().dom().contains(
                    x,
                ) implies (j < m.key_count() ==> x < m.keys@[j]) && (0 < j ==> m.keys@[j - 1] < x) by {
                if j < ca {
                    assert(cl.children@[j].entry_map().dom().contains(x));
                    cl.lemma_entry_get_child(j, x);
                    if j < a {
                        assert(x < cl.keys@[j]);
                    }
                    if 0 < j {
                        assert(cl.keys@[j - 1] < x);
                    }
                } else {
                    assert(cr.children@[j - ca].entry_map().dom().contains(x));
                    cr.lemma_entry_get_child(j - ca, x);
                    if j - ca < b {
                        assert(x < cr.keys@[j - ca]);
                        assert(m.keys@[j] == cr.keys@[j - ca]);
                    }
                    if 0 < j - ca {
                        assert(cr.keys@[j - ca - 1] < x);
                        assert(m.keys@[j - 1] == cr.keys@[j - ca - 1]);
                    } else {
                        assert(m.keys@[j - 1] == sk);
                    }
                }
            }
        }
        assert(m.height() == cl.height()) by {
            assert(m.children@[0] == cl.children@[0]);
            assert(cl.children@[0].height() + 1 == cl.height());
        }
        assert(m.level()) by {
            assert forall|j: int| 0 <= j < m.children@.len() implies (#[trigger] m.children@[j]).height()
                + 1 == m.height() by {
                if j < ca {
                    assert(cl.children@[j].height() + 1 == cl.height());
                } else {
                    assert(m.children@[j] == cr.children@[j - ca]);
                    assert(cr.children@[j - ca].height() + 1 == cr.height());
                }
            }
        }
    }
    assert(m.wf());
    assert forall|x: i32|
        #![all_triggers]
        true implies (m.entry_map().dom().contains(x) <==> cl.entry_map().union_prefer_right(
        cr.entry_map(),
    ).insert(sk, sv).dom().contains(x)) && (m.entry_map().dom().contains(x) ==> m.entry_map()[x]
        == cl.entry_map().union_prefer_right(cr.entry_map()).insert(sk, sv)[x]) by {
        m.lemma_entry_contains(x);
        cl.lemma_entry_contains(x);
        cr.lemma_entry_contains(x);
        if x == sk {
            assert(m.keys@[a] == sk);
            m.lemma_entry_get_own(a);
        } else if cl.entry_map().dom().contains(x) {
            if cl.keys@.contains(x) {
                let p = choose|p: int| 0 <= p < cl.keys@.len() && cl.keys@[p] == x;
                assert(m.keys@[p] == x);
                m.lemma_entry_get_own(p);
                cl.lemma_entry_get_own(p);
            } else {
                let j = choose|j: int|
                    0 <= j < cl.children@.len() && #[trigger] cl.children@[j].entry_map().dom().contains(
                        x,
                    );
                assert(m.children@[j] == cl.children@[j]);
                assert(m.children@[j].entry_map().dom().contains(x));
                m.lemma_entry_get_child(j, x);
                cl.lemma_entry_get_child(j, x);
            }
        } else if cr.entry_map().dom().contains(x) {
            if cr.keys@.contains(x) {
                let p = choose|p: int| 0 <= p < cr.keys@.len() && cr.keys@[p] == x;
                assert(m.keys@[a + 1 + p] == x);
                m.lemma_entry_get_own(a + 1 + p);
                cr.lemma_entry_get_own(p);
            } else {
                let j = choose|j: int|
                    0 <= j < cr.children@.len() && #[trigger] cr.children@[j].entry_map().dom().contains(
                        x,
                    );
                assert(m.children@[ca + j] == cr.children@[j]);
                assert(m.children@[ca + j].entry_map().dom().contains(x));
                m.lemma_entry_get_child(ca + j, x);
                cr.lemma_entry_get_child(j, x);
            }
        } else {
            if m.entry_map().dom().contains(x) {
                if m.keys@.contains(x) {
                    let p = choose|p: int| 0 <= p < m.keys@.len() && m.keys@[p] == x;
                    if p < a {
                        assert(cl.keys@[p] == x);
                    } else if p > a {
                        assert(cr.keys@[p - a - 1] == x);
                    }
                } else {
                    let j = choose|j: int|
                        0 <= j < m.children@.len() && #[trigger] m.children@[j].entry_map().dom().contains(
                            x,
                        );
                    if j < ca {
                        assert(cl.children@[j].entry_map().dom().contains(x));
                    } else {
                        assert(cr.children@[j - ca].entry_map().dom().contains(x));
                    }
                }
            }
        }
    }
    assert(m.entry_map() =~= cl.entry_map().union_prefer_right(cr.entry_map()).insert(sk, sv));
    if cl.inner_occ() && cr.inner_occ() {
        assert forall|j: int| 0 <= j < m.children@.len() implies (#[trigger] m.children@[j]).occ_bounds()
            && m.children@[j].inner_occ() by {
            if j < ca {
                lemma_seq_occ_index(cl.children@, j);
            } else {
                lemma_seq_occ_index(cr.children@, j - ca);
            }
        }
        lemma_seq_occ_from_all(m.children@);
    }
}

/// Folding the two subtrees beside the entry at `index` into one
/// replacement subtree that holds their entries and the separator, minus
/// `key`, removes exactly `key` from this node's map.
#[verifier::rlimit(100)]
proof fn lemma_fold_children<V>(o: BtreeNode<V>, n1: BtreeNode<V>, m1: BtreeNode<V>, index: int, key: i32)
    requires
        o.wf(),
        !o.leaf(),
        0 <= index < o.key_count(),
        o.keys@[index] == key || o.children@[index].entry_map().dom().contains(key)
            || o.children@[index + 1].entry_map().dom().contains(key),
        m1.wf(),
        m1.max_count == o.max_count,
        m1.height() == o.children@[index].height(),
        m1.entry_map() == o.children@[index].entry_map().union_prefer_right(
            o.children@[index + 1].entry_map(),
        ).insert(o.keys@[index], o.values@[index]).remove(key),
        n1.keys@ == o.keys@.remove(index),
        n1.values@ == o.values@.remove(index),
        n1.children@ == o.children@.remove(index).update(index, m1),
        n1.max_count == o.max_count,
    ensures
        n1.wf(),
        n1.entry_map() == o.entry_map().remove(key),
        n1.height() == o.height(),
        n1.leaf() == o.leaf(),
        n1.key_count() == o.key_count() - 1,
        (o.inner_occ() && m1.occ_bounds() && m1.inner_occ()) ==> n1.inner_occ(),
{
    let ki = o.keys@[index];
    let cl = o.children@[index];
    let cr = o.children@[index + 1];
    lemma_seq_wf_index(o.children@, o.max_count, index);
    lemma_seq_wf_index(o.children@, o.max_count, index + 1);
    assert(o.keys@.contains(ki)) by {
        assert(o.keys@[index] == ki);
    }
    o.lemma_entry_get_own(index);
    o.lemma_unique_holder(ki);
    o.lemma_unique_holder(key);
    assert(n1.children@.len() == o.children@.len() - 1);
    assert(n1.children@[index] == m1);
    assert(forall|j: int| 0 <= j < index ==> n1.children@[j] == o.children@[j]);
    assert(forall|j: int| index < j < n1.children@.len() ==> n1.children@[j] == o.children@[j + 1]);
    assert(sorted_strict(n1.keys@)) by {
        assert forall|p: int, q: int| 0 <= p < q < n1.keys@.len() implies n1.keys@[p] < n1.keys@[q] by {
            let p0 = if p < index {
                p
            } else {
                p + 1
            };
            let q0 = if q < index {
                q
            } else {
                q + 1
            };
            assert(o.keys@[p0] < o.keys@[q0]);
        }
    }
    assert forall|j: int| 0 <= j < n1.children@.len() implies (#[trigger] n1.children@[j]).wf()
        && n1.children@[j].max_count == n1.max_count by {
        if j < index {
            lemma_seq_wf_index(o.children@, o.max_count, j);
        } else if j > index {
            lemma_seq_wf_index(o.children@, o.max_count, j + 1);
        }
    }
    lemma_seq_wf_from_all(n1.children@, n1.max_count);
    assert(n1.separated()) by {
        assert forall|j: int, x: i32|
            0 <= j < n1.children@.len() && #[trigger] n1.children@[j].entry_map().dom().contains(x)
            implies (j < n1.key_count() ==> x < n1.keys@[j]) && (0 < j ==> n1.keys@[j - 1] < x) by {
            if j < index {
                assert(o.children@[j].entry_map().dom().contains(x));
            } else if j == index {
                assert(x == ki || cl.entry_map().dom().contains(x) || cr.entry_map().dom().contains(
                    x,
                ));
                if index < n1.key_count() {
                    assert(n1.keys@[index] == o.keys@[index + 1]);
                    if x == ki {
                        assert(o.keys@[index] < o.keys@[index + 1]);
                    } else if cl.entry_map().dom().contains(x) {
                        assert(x < o.keys@[index]);
                        assert(o.keys@[index] < o.keys@[index + 1]);
                    } else {
                        assert(x < o.keys@[index + 1]);
                    }
                }
                if 0 < index {
                    assert(n1.keys@[index - 1] == o.keys@[index - 1]);
                    if x == ki {
                        assert(o.keys@[index - 1] < o.keys@[index]);
                    } else if cl.entry_map().dom().contains(x) {
                        assert(o.keys@[index - 1] < x);
                    } else {
                        assert(o.keys@[index] < x);
                        assert(o.keys@[index - 1] < o.keys@[index]);
                    }
                }
            } else {
                assert(o.children@[j + 1].entry_map().dom().contains(x));
                if j < n1.key_count() {
                    assert(n1.keys@[j] == o.keys@[j + 1]);
                }
                assert(n1.keys@[j - 1] == o.keys@[j]);
            }
        }
    }
    assert(cl.height() + 1 == o.height());
    assert(n1.height() == o.height()) by {
        if index == 0 {
            assert(n1.children@[0] == m1);
        } else {
            assert(n1.children@[0] == o.children@[0]);
            assert(o.children@[0].height() + 1 == o.height());
        }
    }
    assert(n1.level()) by {
        assert forall|j: int| 0 <= j < n1.children@.len() implies (#[trigger] n1.children@[j]).height()
            + 1 == n1.height() by {
            if j < index {
                assert(o.children@[j].height() + 1 == o.height());
            } else if j > index {
                assert(n1.children@[j] == o.children@[j + 1]);
                assert(o.children@[j + 1].height() + 1 == o.height());
            }
        }
    }
    assert(n1.wf());
    assert forall|x: i32|
        #![all_triggers]
        true implies (n1.entry_map().dom().contains(x) <==> o.entry_map().remove(
        key,
    ).dom().contains(x)) && (n1.entry_map().dom().contains(x) ==> n1.entry_map()[x]
        == o.entry_map().remove(key)[x]) by {
        n1.lemma_entry_contains(x);
        o.lemma_entry_contains(x);
        if x == key {
            if n1.entry_map().dom().contains(x) {
                if n1.keys@.contains(x) {
                    let p = choose|p: int| 0 <= p < n1.keys@.len() && n1.keys@[p] == x;
                    let p0 = if p < index {
                        p
                    } else {
                        p + 1
                    };
                    assert(o.keys@[p0] == x);
                    assert(o.keys@.contains(x));
                } else {
                    let j = choose|j: int|
                        0 <= j < n1.children@.len() && #[trigger] n1.children@[j].entry_map().dom().contains(
                            x,
                        );
                    if j == index {
                        assert(!m1.entry_map().dom().contains(key));
                    } else {
                        let j0 = if j < index {
                            j
                        } else {
                            j + 1
                        };
                        assert(o.children@[j0].entry_map().dom().contains(x));
                    }
                }
            }
        } else if x == ki {
            assert(m1.entry_map().dom().contains(ki));
            assert(m1.entry_map()[ki] == o.values@[index]);
            n1.lemma_entry_get_child(index, ki);
        } else if cl.entry_map().dom().contains(x) {
            o.lemma_entry_get_child(index, x);
            assert(!cr.entry_map().dom().contains(x)) by {
                if cr.entry_map().dom().contains(x) {
                    assert(o.keys@[index] < x);
                }
                assert(x < o.keys@[index]);
            }
            assert(m1.entry_map().dom().contains(x));
            assert(m1.entry_map()[x] == cl.entry_map()[x]);
            n1.lemma_entry_get_child(index, x);
        } else if cr.entry_map().dom().contains(x) {
            o.lemma_entry_get_child(index + 1, x);
            assert(m1.entry_map().dom().contains(x));
            assert(m1.entry_map()[x] == cr.entry_map()[x]);
            n1.lemma_entry_get_child(index, x);
        } else {
            if n1.keys@.contains(x) {
                let p = choose|p: int| 0 <= p < n1.keys@.len() && n1.keys@[p] == x;
                let p0 = if p < index {
                    p
                } else {
                    p + 1
                };
                assert(o.keys@[p0] == x);
                n1.lemma_entry_get_own(p);
                o.lemma_entry_get_own(p0);
            } else if o.keys@.contains(x) {
                let p0 = choose|p0: int| 0 <= p0 < o.keys@.len() && o.keys@[p0] == x;
                assert(p0 != index);
                if p0 < index {
                    assert(n1.keys@[p0] == x);
                } else {
                    assert(n1.keys@[p0 - 1] == x);
                }
            } else {
                if n1.entry_map().dom().contains(x) {
                    let j = choose|j: int|
                        0 <= j < n1.children@.len() && #[trigger] n1.children@[j].entry_map().dom().contains(
                            x,
                        );
                    n1.lemma_entry_get_child(j, x);
                    if j == index {
                        assert(x == ki || cl.entry_map().dom().contains(x)
                            || cr.entry_map().dom().contains(x));
                    } else {
                        let j0 = if j < index {
                            j
                        } else {
                            j + 1
                        };
                        assert(o.children@[j0].entry_map().dom().contains(x));
                        o.lemma_entry_get_child(j0, x);
                    }
                } else if o.entry_map().dom().contains(x) {
                    let j0 = choose|j0: int|
                        0 <= j0 < o.children@.len() && #[trigger] o.children@[j0].entry_map().dom().contains(
                            x,
                        );
                    if j0 == index || j0 == index + 1 {
                        assert(m1.entry_map().dom().contains(x));
                        assert(n1.children@[index].entry_map().dom().contains(x));
                    } else if j0 < index {
                        assert(n1.children@[j0].entry_map().dom().contains(x));
                    } else {
                        assert(n1.children@[j0 - 1].entry_map().dom().contains(x));
                    }
                }
            }
        }
    }
    assert(n1.entry_map() =~= o.entry_map().remove(key));
    if o.inner_occ() && m1.occ_bounds() && m1.inner_occ() {
        assert forall|j: int| 0 <= j < n1.children@.len() implies (#[trigger] n1.children@[j]).occ_bounds()
            && n1.children@[j].inner_occ() by {
            if j < index {
                lemma_seq_occ_index(o.children@, j);
            } else if j > index {
                lemma_seq_occ_index(o.children@, j + 1);
            }
        }
        lemma_seq_occ_from_all(n1.children@);
    }
}

/// A node left with no key and a single subtree stands for exactly that
/// subtree: its map is the subtree's map.
proof fn lemma_single_child_map<V>(o: BtreeNode<V>)
    requires
        o.key_count() == 0,
        o.values@.len() == 0,
        o.children@.len() == 1,
    ensures
        o.entry_map() == o.children@[0].entry_map(),
{
    assert(kv_map(o.keys@, o.values@) =~= Map::<i32, V>::empty());
    assert(crate::node::seq_union(o.children@) =~= o.children@[0].entry_map().union_prefer_right(
        crate::node::seq_union(o.children@.drop_first()),
    ));
    assert(o.children@.drop_first().len() == 0);
    assert(crate::node::seq_union(o.children@.drop_first()) =~= Map::<i32, V>::empty());
    assert(o.entry_map() =~= o.children@[0].entry_map());
}


/// Rotating an entry in from the right sibling of the deficient leaf at
/// position `i`: with `key` already deleted from that leaf, the separator
/// `keys[i]` becomes the leaf's new tail and the sibling's head entry
/// becomes the new separator.  The subtree map loses exactly `key`.
#[verifier::rlimit(100)]
proof fn lemma_rotate_left<V>(
    o: BtreeNode<V>,
    n1: BtreeNode<V>,
    d0: BtreeNode<V>,
    e0: BtreeNode<V>,
    e1: BtreeNode<V>,
    i: int,
    key: i32,
)
    requires
        o.wf(),
        !o.leaf(),
        !found_at(o.keys@, key),
        lookup_pos(o.keys@, key) == i,
        0 <= i < o.children@.len() - 1,
        o.children@[i].leaf(),
        o.children@[i + 1].key_count() > o.children@[i + 1].min_spec(),
        d0.wf(),
        d0.leaf(),
        d0.max_count == o.max_count,
        d0.entry_map() == o.children@[i].entry_map().remove(key),
        e0.keys@ == d0.keys@.push(o.keys@[i]),
        e0.values@ == d0.values@.push(o.values@[i]),
        e0.children@.len() == 0,
        e0.max_count == o.max_count,
        e1.keys@ == o.children@[i + 1].keys@.remove(0),
        e1.values@ == o.children@[i + 1].values@.remove(0),
        e1.children@ == o.children@[i + 1].children@,
        e1.max_count == o.children@[i + 1].max_count,
        n1.keys@ == o.keys@.update(i, o.children@[i + 1].keys@[0]),
        n1.values@ == o.values@.update(i, o.children@[i + 1].values@[0]),
        n1.children@ == o.children@.update(i, e0).update(i + 1, e1),
        n1.max_count == o.max_count,
    ensures
        n1.wf(),
        n1.entry_map() == o.entry_map().remove(key),
        n1.height() == o.height(),
        n1.leaf() == o.leaf(),
        n1.key_count() == o.key_count(),
        (o.inner_occ() && d0.key_count() == o.children@[i].key_count() - 1) ==> n1.inner_occ(),
{
    let c0 = o.children@[i];
    let c1 = o.children@[i + 1];
    let k0 = o.keys@[i];
    let v0 = o.values@[i];
    let m1 = c1.keys@[0];
    let kc = o.key_count();
    lemma_lookup_pos_props(o.keys@, key);
    o.lemma_all_leaves(i);
    lemma_seq_wf_index(o.children@, o.max_count, i);
    lemma_seq_wf_index(o.children@, o.max_count, i + 1);
    assert(c1.entry_map().dom().contains(m1) && c1.entry_map()[m1] == c1.values@[0]) by {
        c1.lemma_entry_get_own(0);
    }
    assert(i < kc);
    assert(k0 < m1);
    assert(key < k0);
    assert(i > 0 ==> o.keys@[i - 1] < key);
    assert forall|p: int| 0 <= p < d0.keys@.len() implies d0.keys@[p] < k0 by {
        assert(d0.keys@.contains(d0.keys@[p]));
        d0.lemma_entry_contains(d0.keys@[p]);
        assert(c0.entry_map().dom().contains(d0.keys@[p]));
    }
    assert forall|p: int| 0 <= p < d0.keys@.len() implies i > 0 ==> o.keys@[i - 1] < d0.keys@[p] by {
        assert(d0.keys@.contains(d0.keys@[p]));
        d0.lemma_entry_contains(d0.keys@[p]);
        assert(c0.entry_map().dom().contains(d0.keys@[p]));
    }
    assert(sorted_strict(e0.keys@)) by {
        assert forall|p: int, q: int| 0 <= p < q < e0.keys@.len() implies e0.keys@[p] < e0.keys@[q] by {
            if q < d0.keys@.len() {
                assert(d0.keys@[p] < d0.keys@[q]);
            } else {
                assert(e0.keys@[q] == k0);
                assert(e0.keys@[p] == d0.keys@[p]);
            }
        }
    }
    assert(e0.wf());
    lemma_leaf_entry_map(e0);
    lemma_leaf_entry_map(d0);
    assert(e0.keys@.drop_last() =~= d0.keys@);
    assert(e0.values@.drop_last() =~= d0.values@);
    assert(e0.entry_map() == d0.entry_map().insert(k0, v0));
    lemma_leaf_remove(c1, e1, 0);
    assert(e1.entry_map() == c1.entry_map().remove(m1));
    assert(sorted_strict(n1.keys@)) by {
        assert forall|p: int, q: int| 0 <= p < q < n1.keys@.len() implies n1.keys@[p] < n1.keys@[q] by {
            if p == i {
                assert(i + 1 <= kc);
                if q == i + 1 {
                    assert(m1 < o.keys@[i + 1]);
                } else {
                    assert(m1 < o.keys@[i + 1]);
                    assert(o.keys@[i + 1] <= o.keys@[q]);
                    if i + 1 < q {
                        assert(o.keys@[i + 1] < o.keys@[q]);
                    }
                }
            } else if q == i {
                assert(o.keys@[p] <= o.keys@[i]);
                if p < i {
                    assert(o.keys@[p] < o.keys@[i]);
                }
                assert(o.keys@[i] < m1);
            } else {
                assert(o.keys@[p] < o.keys@[q]);
            }
        }
    }
    assert(n1.children@[i] == e0);
    assert(n1.children@[i + 1] == e1);
    assert(forall|j: int|
        0 <= j < n1.children@.len() && j != i && j != i + 1 ==> n1.children@[j] == o.children@[j]);
    assert forall|j: int| 0 <= j < n1.children@.len() implies (#[trigger] n1.children@[j]).wf()
        && n1.children@[j].max_count == n1.max_count by {
        if j != i && j != i + 1 {
            lemma_seq_wf_index(o.children@, o.max_count, j);
        }
    }
    lemma_seq_wf_from_all(n1.children@, n1.max_count);
    assert forall|p: int| 0 <= p < c1.keys@.len() implies m1 <= c1.keys@[p] by {
        if p > 0 {
            assert(c1.keys@[0] < c1.keys@[p]);
        }
    }
    assert(n1.separated()) by {
        assert forall|j: int, x: i32|
            0 <= j < n1.children@.len() && #[trigger] n1.children@[j].entry_map().dom().contains(x)
            implies (j < n1.key_count() ==> x < n1.keys@[j]) && (0 < j ==> n1.keys@[j - 1] < x) by {
            if j == i {
                if x == k0 {
                } else {
                    assert(d0.entry_map().dom().contains(x));
                    assert(c0.entry_map().dom().contains(x));
                    assert(x < k0);
                }
                assert(x < m1);
                if 0 < i {
                    assert(n1.keys@[i - 1] == o.keys@[i - 1]);
                    if x == k0 {
                        assert(o.keys@[i - 1] < o.keys@[i]);
                    }
                }
            } else if j == i + 1 {
                assert(c1.entry_map().dom().contains(x));
                c1.lemma_entry_contains(x);
                let p = choose|p: int| 0 <= p < c1.keys@.len() && c1.keys@[p] == x;
                assert(x != m1);
                assert(m1 <= x);
                if i + 1 < n1.key_count() {
                    assert(n1.keys@[i + 1] == o.keys@[i + 1]);
                    assert(x < o.keys@[i + 1]);
                }
            } else {
                assert(o.children@[j].entry_map().dom().contains(x));
                if j < n1.key_count() && j != i {
                    assert(n1.keys@[j] == o.keys@[j]);
                    assert(x < o.keys@[j]);
                }
                if 0 < j && j - 1 != i {
                    assert(n1.keys@[j - 1] == o.keys@[j - 1]);
                    assert(o.keys@[j - 1] < x);
                }
                if j - 1 == i {
                    assert(o.keys@[i] < x);
                    assert(m1 < x) by {
                        assert(x < o.keys@[i + 1] || j - 1 == i + 1 || !(j < o.children@.len()));
                        assert(o.keys@[i + 1] <= x || j == i + 2);
                        if j == i + 2 {
                            assert(o.keys@[i + 1] < x);
                        }
                        assert(m1 < o.keys@[i + 1]);
                    }
                }
            }
        }
    }
    assert(e0.height() == 1 && e1.height() == 1);
    assert(n1.children@[0].leaf()) by {
        if i == 0 {
        } else {
            assert(n1.children@[0] == o.children@[0]);
            assert(o.children@[0].leaf());
        }
    }
    assert(n1.height() == 2 && o.height() == 2);
    assert(n1.level()) by {
        assert forall|j: int| 0 <= j < n1.children@.len() implies (#[trigger] n1.children@[j]).height()
            + 1 == n1.height() by {
            if j != i && j != i + 1 {
                assert(o.children@[j].leaf());
            }
        }
    }
    assert(n1.wf());
    o.lemma_unique_holder(key);
    assert(!o.keys@.contains(key)) by {
        crate::lookup::lemma_lookup_not_found(o.keys@, key);
    }
    assert forall|x: i32|
        #![all_triggers]
        true implies (n1.entry_map().dom().contains(x) <==> o.entry_map().remove(
        key,
    ).dom().contains(x)) && (n1.entry_map().dom().contains(x) ==> n1.entry_map()[x]
        == o.entry_map().remove(key)[x]) by {
        n1.lemma_entry_contains(x);
        o.lemma_entry_contains(x);
        if x == k0 {
            n1.lemma_entry_get_child(i, x);
            o.lemma_entry_get_own(i);
            assert(e0.entry_map()[k0] == v0);
        } else if x == key {
            if n1.entry_map().dom().contains(x) {
                if n1.keys@.contains(x) {
                    let p = choose|p: int| 0 <= p < n1.keys@.len() && n1.keys@[p] == x;
                    if p == i {
                        assert(x == m1);
                    } else {
                        assert(o.keys@[p] == x);
                    }
                } else {
                    let j = choose|j: int|
                        0 <= j < n1.children@.len() && #[trigger] n1.children@[j].entry_map().dom().contains(
                            x,
                        );
                    if j == i {
                        assert(x == k0 || d0.entry_map().dom().contains(x));
                    } else if j == i + 1 {
                        assert(c1.entry_map().dom().contains(x));
                        assert(k0 < x);
                    } else {
                        assert(o.children@[j].entry_map().dom().contains(x));
                        if j < i {
                            assert(x < o.keys@[j]);
                            assert(o.keys@[j] < key || j == i);
                            assert(o.keys@[j] < key);
                        } else {
                            assert(o.keys@[j - 1] < x);
                            assert(key <= o.keys@[i]);
                            assert(o.keys@[i] <= o.keys@[j - 1]);
                        }
                    }
                }
            }
        } else if x == m1 {
            assert(n1.keys@[i] == m1);
            n1.lemma_entry_get_own(i);
            o.lemma_entry_get_child(i + 1, m1);
        } else if c0.entry_map().dom().contains(x) {
            o.lemma_entry_get_child(i, x);
            assert(d0.entry_map().dom().contains(x));
            assert(e0.entry_map().dom().contains(x)) by {
                assert(x != k0);
            }
            n1.lemma_entry_get_child(i, x);
            assert(e0.entry_map()[x] == d0.entry_map()[x]);
        } else if c1.entry_map().dom().contains(x) {
            o.lemma_entry_get_child(i + 1, x);
            assert(e1.entry_map().dom().contains(x)) by {
                assert(x != m1);
            }
            n1.lemma_entry_get_child(i + 1, x);
            assert(x != key) by {
                assert(k0 < x);
            }
        } else {
            if n1.keys@.contains(x) {
                let p = choose|p: int| 0 <= p < n1.keys@.len() && n1.keys@[p] == x;
                assert(p != i);
                assert(o.keys@[p] == x);
                n1.lemma_entry_get_own(p);
                o.lemma_entry_get_own(p);
            } else if o.keys@.contains(x) {
                let p = choose|p: int| 0 <= p < o.keys@.len() && o.keys@[p] == x;
                assert(p != i) by {
                    if p == i {
                        assert(x == k0);
                    }
                }
                assert(n1.keys@[p] == x);
            } else {
                if n1.entry_map().dom().contains(x) {
                    let j = choose|j: int|
                        0 <= j < n1.children@.len() && #[trigger] n1.children@[j].entry_map().dom().contains(
                            x,
                        );
                    assert(j != i && j != i + 1) by {
                        if j == i {
                            assert(x == k0 || d0.entry_map().dom().contains(x));
                        }
                        if j == i + 1 {
                            assert(c1.entry_map().dom().contains(x));
                        }
                    }
                    n1.lemma_entry_get_child(j, x);
                    assert(o.children@[j].entry_map().dom().contains(x));
                    o.lemma_entry_get_child(j, x);
                } else if o.entry_map().dom().contains(x) {
                    let j = choose|j: int|
                        0 <= j < o.children@.len() && #[trigger] o.children@[j].entry_map().dom().contains(
                            x,
                        );
                    assert(j != i && j != i + 1);
                    assert(n1.children@[j].entry_map().dom().contains(x));
                }
            }
        }
    }
    assert(n1.entry_map() =~= o.entry_map().remove(key));
    if o.inner_occ() && d0.key_count() == c0.key_count() - 1 {
        lemma_seq_occ_index(o.children@, i);
        lemma_seq_occ_index(o.children@, i + 1);
        assert(e0.key_count() == c0.key_count());
        assert(e1.key_count() == c1.key_count() - 1);
        assert forall|j: int| 0 <= j < n1.children@.len() implies (#[trigger] n1.children@[j]).occ_bounds()
            && n1.children@[j].inner_occ() by {
            if j != i && j != i + 1 {
                lemma_seq_occ_index(o.children@, j);
            }
        }
        lemma_seq_occ_from_all(n1.children@);
    }
}


/// Rotating an entry in from the left sibling of the deficient leaf at
/// position `i`: with `key` already deleted from that leaf, the separator
/// `keys[i-1]` becomes the leaf's new head and the sibling's tail entry
/// becomes the new separator.  The subtree map loses exactly `key`.
#[verifier::rlimit(100)]
proof fn lemma_rotate_right<V>(
    o: BtreeNode<V>,
    n1: BtreeNode<V>,
    d: BtreeNode<V>,
    ei: BtreeNode<V>,
    es: BtreeNode<V>,
    i: int,
    key: i32,
)
    requires
        o.wf(),
        !o.leaf(),
        !found_at(o.keys@, key),
        lookup_pos(o.keys@, key) == i,
        0 < i < o.children@.len(),
        o.children@[i].leaf(),
        o.children@[i - 1].key_count() > o.children@[i - 1].min_spec(),
        d.wf(),
        d.leaf(),
        d.max_count == o.max_count,
        d.entry_map() == o.children@[i].entry_map().remove(key),
        ei.keys@ == d.keys@.insert(0, o.keys@[i - 1]),
        ei.values@ == d.values@.insert(0, o.values@[i - 1]),
        ei.children@.len() == 0,
        ei.max_count == o.max_count,
        es.keys@ == o.children@[i - 1].keys@.drop_last(),
        es.values@ == o.children@[i - 1].values@.drop_last(),
        es.children@ == o.children@[i - 1].children@,
        es.max_count == o.children@[i - 1].max_count,
        n1.keys@ == o.keys@.update(i - 1, o.children@[i - 1].keys@.last()),
        n1.values@ == o.values@.update(i - 1, o.children@[i - 1].values@.last()),
        n1.children@ == o.children@.update(i, ei).update(i - 1, es),
        n1.max_count == o.max_count,
    ensures
        n1.wf(),
        n1.entry_map() == o.entry_map().remove(key),
        n1.height() == o.height(),
        n1.leaf() == o.leaf(),
        n1.key_count() == o.key_count(),
        (o.inner_occ() && d.key_count() == o.children@[i].key_count() - 1) ==> n1.inner_occ(),
{
    let ci = o.children@[i];
    let cs = o.children@[i - 1];
    let k0 = o.keys@[i - 1];
    let v0 = o.values@[i - 1];
    let sl = cs.key_count();
    let mm = cs.keys@.last();
    let kc = o.key_count();
    lemma_lookup_pos_props(o.keys@, key);
    o.lemma_all_leaves(i);
    lemma_seq_wf_index(o.children@, o.max_count, i);
    lemma_seq_wf_index(o.children@, o.max_count, i - 1);
    assert(sl >= 1);
    assert(cs.entry_map().dom().contains(mm) && cs.entry_map()[mm] == cs.values@[sl - 1]) by {
        cs.lemma_entry_get_own(sl - 1);
    }
    assert(mm < k0);
    assert(i - 1 > 0 ==> o.keys@[i - 2] < mm);
    assert(k0 < key);
    assert(i < kc ==> key < o.keys@[i]);
    assert forall|p: int| 0 <= p < d.keys@.len() implies k0 < d.keys@[p] && (i < kc
        ==> d.keys@[p] < o.keys@[i]) by {
        assert(d.keys@.contains(d.keys@[p]));
        d.lemma_entry_contains(d.keys@[p]);
        assert(ci.entry_map().dom().contains(d.keys@[p]));
    }
    assert(sorted_strict(ei.keys@)) by {
        assert forall|p: int, q: int| 0 <= p < q < ei.keys@.len() implies ei.keys@[p] < ei.keys@[q] by {
            if p == 0 {
                assert(ei.keys@[q] == d.keys@[q - 1]);
            } else {
                assert(d.keys@[p - 1] < d.keys@[q - 1]);
            }
        }
    }
    assert(ei.wf());
    lemma_leaf_entry_map(ei);
    lemma_leaf_entry_map(d);
    assert(ei.keys@ =~= Seq::<i32>::empty() + seq![k0] + d.keys@);
    assert(ei.values@ =~= Seq::<V>::empty() + seq![v0] + d.values@);
    lemma_kv_parts(Seq::<i32>::empty(), Seq::<V>::empty(), k0, v0, d.keys@, d.values@);
    assert(kv_map(Seq::<i32>::empty(), Seq::<V>::empty()) =~= Map::<i32, V>::empty());
    assert(kv_map(Seq::<i32>::empty(), Seq::<V>::empty()).union_prefer_right(
        kv_map(d.keys@, d.values@),
    ) =~= kv_map(d.keys@, d.values@));
    assert(ei.entry_map() == d.entry_map().insert(k0, v0));
    assert(es.keys@ =~= cs.keys@.remove(sl - 1));
    assert(es.values@ =~= cs.values@.remove(sl - 1));
    lemma_leaf_remove(cs, es, sl - 1);
    assert(es.entry_map() == cs.entry_map().remove(mm));
    assert(sorted_strict(n1.keys@)) by {
        assert forall|p: int, q: int| 0 <= p < q < n1.keys@.len() implies n1.keys@[p] < n1.keys@[q] by {
            if q == i - 1 {
                assert(o.keys@[p] <= o.keys@[i - 2]);
                if p < i - 2 {
                    assert(o.keys@[p] < o.keys@[i - 2]);
                }
            } else if p == i - 1 {
                assert(mm < k0);
                assert(o.keys@[i - 1] <= o.keys@[q]);
                if i - 1 < q {
                    assert(o.keys@[i - 1] < o.keys@[q]);
                }
            } else {
                assert(o.keys@[p] < o.keys@[q]);
            }
        }
    }
    assert(n1.children@[i] == ei);
    assert(n1.children@[i - 1] == es);
    assert(forall|j: int|
        0 <= j < n1.children@.len() && j != i && j != i - 1 ==> n1.children@[j] == o.children@[j]);
    assert forall|j: int| 0 <= j < n1.children@.len() implies (#[trigger] n1.children@[j]).wf()
        && n1.children@[j].max_count == n1.max_count by {
        if j != i && j != i - 1 {
            lemma_seq_wf_index(o.children@, o.max_count, j);
        }
    }
    lemma_seq_wf_from_all(n1.children@, n1.max_count);
    assert forall|p: int| 0 <= p < cs.keys@.len() implies cs.keys@[p] <= mm by {
        if p < sl - 1 {
            assert(cs.keys@[p] < cs.keys@[sl - 1]);
        }
    }
    assert(n1.separated()) by {
        assert forall|j: int, x: i32|
            0 <= j < n1.children@.len() && #[trigger] n1.children@[j].entry_map().dom().contains(x)
            implies (j < n1.key_count() ==> x < n1.keys@[j]) && (0 < j ==> n1.keys@[j - 1] < x) by {
            if j == i {
                if x == k0 {
                } else {
                    assert(d.entry_map().dom().contains(x));
                    assert(ci.entry_map().dom().contains(x));
                    assert(k0 < x);
                }
                assert(mm < x);
                if i < n1.key_count() {
                    assert(n1.keys@[i] == o.keys@[i]);
                    if x == k0 {
                        assert(o.keys@[i - 1] < o.keys@[i]);
                    } else {
                        assert(d.keys@.contains(x)) by {
                            d.lemma_entry_contains(x);
                        }
                    }
                }
            } else if j == i - 1 {
                assert(cs.entry_map().dom().contains(x));
                cs.lemma_entry_contains(x);
                let p = choose|p: int| 0 <= p < cs.keys@.len() && cs.keys@[p] == x;
                assert(x != mm);
                assert(x <= mm);
                if 0 < j {
                    assert(n1.keys@[i - 2] == o.keys@[i - 2]);
                    assert(o.keys@[i - 2] < x);
                }
            } else {
                assert(o.children@[j].entry_map().dom().contains(x));
                if j < n1.key_count() && j != i - 1 {
                    assert(n1.keys@[j] == o.keys@[j]);
                    assert(x < o.keys@[j]);
                }
                if 0 < j && j - 1 != i - 1 {
                    assert(n1.keys@[j - 1] == o.keys@[j - 1]);
                    assert(o.keys@[j - 1] < x);
                }
                if j - 1 == i - 1 {
                    assert(j == i);
                }
            }
        }
    }
    assert(ei.height() == 1 && es.height() == 1);
    assert(n1.children@[0].leaf()) by {
        if i - 1 == 0 {
        } else if i == 0 {
        } else {
            assert(n1.children@[0] == o.children@[0]);
            assert(o.children@[0].leaf());
        }
    }
    assert(n1.height() == 2 && o.height() == 2);
    assert(n1.level()) by {
        assert forall|j: int| 0 <= j < n1.children@.len() implies (#[trigger] n1.children@[j]).height()
            + 1 == n1.height() by {
            if j != i && j != i - 1 {
                assert(o.children@[j].leaf());
            }
        }
    }
    assert(n1.wf());
    o.lemma_unique_holder(key);
    assert(!o.keys@.contains(key)) by {
        crate::lookup::lemma_lookup_not_found(o.keys@, key);
    }
    assert forall|x: i32|
        #![all_triggers]
        true implies (n1.entry_map().dom().contains(x) <==> o.entry_map().remove(
        key,
    ).dom().contains(x)) && (n1.entry_map().dom().contains(x) ==> n1.entry_map()[x]
        == o.entry_map().remove(key)[x]) by {
        n1.lemma_entry_contains(x);
        o.lemma_entry_contains(x);
        if x == k0 {
            n1.lemma_entry_get_child(i, x);
            o.lemma_entry_get_own(i - 1);
            assert(ei.entry_map()[k0] == v0);
        } else if x == key {
            if n1.entry_map().dom().contains(x) {
                if n1.keys@.contains(x) {
                    let p = choose|p: int| 0 <= p < n1.keys@.len() && n1.keys@[p] == x;
                    if p == i - 1 {
                        assert(x == mm);
                    } else {
                        assert(o.keys@[p] == x);
                    }
                } else {
                    let j = choose|j: int|
                        0 <= j < n1.children@.len() && #[trigger] n1.children@[j].entry_map().dom().contains(
                            x,
                        );
                    if j == i {
                        assert(x == k0 || d.entry_map().dom().contains(x));
                    } else if j == i - 1 {
                        assert(cs.entry_map().dom().contains(x));
                        assert(x < k0);
                    } else {
                        assert(o.children@[j].entry_map().dom().contains(x));
                        if j < i {
                            assert(x < o.keys@[j]);
                            assert(o.keys@[j] <= o.keys@[i - 1]);
                        } else {
                            assert(o.keys@[j - 1] < x);
                            assert(i < kc ==> key < o.keys@[i]);
                            assert(key <= o.keys@[j - 1] || j - 1 < i);
                            assert(j - 1 >= i);
                            if i < j - 1 {
                                assert(o.keys@[i] < o.keys@[j - 1]);
                            }
                        }
                    }
                }
            }
        } else if x == mm {
            assert(n1.keys@[i - 1] == mm);
            n1.lemma_entry_get_own(i - 1);
            o.lemma_entry_get_child(i - 1, mm);
        } else if ci.entry_map().dom().contains(x) {
            o.lemma_entry_get_child(i, x);
            assert(d.entry_map().dom().contains(x));
            assert(ei.entry_map().dom().contains(x)) by {
                assert(x != k0);
            }
            n1.lemma_entry_get_child(i, x);
            assert(ei.entry_map()[x] == d.entry_map()[x]);
        } else if cs.entry_map().dom().contains(x) {
            o.lemma_entry_get_child(i - 1, x);
            assert(es.entry_map().dom().contains(x)) by {
                assert(x != mm);
            }
            n1.lemma_entry_get_child(i - 1, x);
            assert(x != key) by {
                assert(x < k0);
            }
        } else {
            if n1.keys@.contains(x) {
                let p = choose|p: int| 0 <= p < n1.keys@.len() && n1.keys@[p] == x;
                assert(p != i - 1);
                assert(o.keys@[p] == x);
                n1.lemma_entry_get_own(p);
                o.lemma_entry_get_own(p);
            } else if o.keys@.contains(x) {
                let p = choose|p: int| 0 <= p < o.keys@.len() && o.keys@[p] == x;
                assert(p != i - 1) by {
                    if p == i - 1 {
                        assert(x == k0);
                    }
                }
                assert(n1.keys@[p] == x);
            } else {
                if n1.entry_map().dom().contains(x) {
                    let j = choose|j: int|
                        0 <= j < n1.children@.len() && #[trigger] n1.children@[j].entry_map().dom().contains(
                            x,
                        );
                    assert(j != i && j != i - 1) by {
                        if j == i {
                            assert(x == k0 || d.entry_map().dom().contains(x));
                        }
                        if j == i - 1 {
                            assert(cs.entry_map().dom().contains(x));
                        }
                    }
                    n1.lemma_entry_get_child(j, x);
                    assert(o.children@[j].entry_map().dom().contains(x));
                    o.lemma_entry_get_child(j, x);
                } else if o.entry_map().dom().contains(x) {
                    let j = choose|j: int|
                        0 <= j < o.children@.len() && #[trigger] o.children@[j].entry_map().dom().contains(
                            x,
                        );
                    assert(j != i && j != i - 1);
                    assert(n1.children@[j].entry_map().dom().contains(x));
                }
            }
        }
    }
    assert(n1.entry_map() =~= o.entry_map().remove(key));
    if o.inner_occ() && d.key_count() == ci.key_count() - 1 {
        lemma_seq_occ_index(o.children@, i);
        lemma_seq_occ_index(o.children@, i - 1);
        assert(ei.key_count() == ci.key_count());
        assert(es.key_count() == cs.key_count() - 1);
        assert forall|j: int| 0 <= j < n1.children@.len() implies (#[trigger] n1.children@[j]).occ_bounds()
            && n1.children@[j].inner_occ() by {
            if j != i && j != i - 1 {
                lemma_seq_occ_index(o.children@, j);
            }
        }
        lemma_seq_occ_from_all(n1.children@);
    }
}


impl<V> BtreeNode<V> {
    /// What merging the two subtrees beside the entry at `index` and then
    /// deleting `key` inside the merge does to this node, exactly: normally
    /// the separator leaves this node and the two subtrees become one that
    /// holds their combined entries and the separator, minus `key`; when
    /// that merge ends at capacity it is split back in two and this node's
    /// key count is unchanged.  A merge of two leaves that fit together
    /// never splits back.
    pub open spec fn merge_effect(self, n1: Self, index: int, key: i32) -> bool {
        let cl = self.children@[index];
        let cr = self.children@[index + 1];
        let combined_keys = cl.keys@ + seq![self.keys@[index]] + cr.keys@;
        let combined_values = cl.values@ + seq![self.values@[index]] + cr.values@;
        let p = lookup_pos(combined_keys, key);
        &&& self.key_count() - 1 <= n1.key_count()
        &&& n1.key_count() <= self.key_count()
        &&& (n1.key_count() == self.key_count() - 1 ==> {
            &&& n1.keys@ == self.keys@.remove(index)
            &&& n1.values@ == self.values@.remove(index)
            &&& n1.children@.len() == self.children@.len() - 1
            &&& (forall|j: int| 0 <= j < index ==> n1.children@[j] == self.children@[j])
            &&& (forall|j: int|
                index < j < n1.children@.len() ==> n1.children@[j] == self.children@[j + 1])
            &&& n1.children@[index].entry_map() == cl.entry_map().union_prefer_right(
                cr.entry_map(),
            ).insert(self.keys@[index], self.values@[index]).remove(key)
            &&& (cl.leaf() ==> n1.children@[index].leaf() && n1.children@[index].keys@
                == combined_keys.remove(p) && n1.children@[index].values@
                == combined_values.remove(p))
        })
        &&& ((cl.leaf() && cl.key_count() + cr.key_count() < self.max_count)
            ==> n1.key_count() == self.key_count() - 1)
    }

    /// Merges the two subtrees beside the entry at `index` around that
    /// entry, deletes `key` inside the merged subtree, and splits the
    /// result back in two if it ended at capacity.  `key` must be the
    /// separator itself or stand in one of the two subtrees, so exactly it
    /// leaves the map; the subtree keeps its height.
    fn merge_and_delete(&mut self, index: usize, key: i32)
        requires
            old(self).wf(),
            old(self).inner_occ(),
            !old(self).leaf(),
            index < old(self).key_count(),
            old(self).keys@[index as int] == key || old(self).children@[index as int].entry_map().dom().contains(
                key,
            ) || old(self).children@[index as int + 1].entry_map().dom().contains(key),
        ensures
            final(self).wf(),
            final(self).max_count == old(self).max_count,
            final(self).entry_map() == old(self).entry_map().remove(key),
            final(self).height() == old(self).height(),
            final(self).leaf() == old(self).leaf(),
            old(self).key_count() - 1 <= final(self).key_count(),
            final(self).key_count() <= old(self).key_count(),
            old(self).max_count % 2 == 1 ==> final(self).inner_occ(),
            (old(self).key_count() == 1 && final(self).key_count() == 0)
                ==> final(self).children@.len() == 1 && final(self).children@[0].key_count() >= 1,
            old(self).merge_effect(*final(self), index as int, key),
        decreases old(self).height(), 1int,
    {
        let ghost o = *old(self);
        proof {
            assert(index + 1 <= self.keys.len());
            lemma_seq_wf_index(o.children@, o.max_count, index as int);
            lemma_seq_wf_index(o.children@, o.max_count, index as int + 1);
            lemma_seq_occ_index(o.children@, index as int);
            lemma_seq_occ_index(o.children@, index as int + 1);
        }
        let sep_k = self.keys.remove(index);
        let sep_v = self.values.remove(index);
        let cl = self.children.remove(index);
        let cr = self.children.remove(index);
        let ghost clg = cl;
        let ghost crg = cr;
        let mut merged = cl;
        merged.push_kv((sep_k, sep_v));
        let mut merged = merged.merge(cr);
        proof {
            let i = index as int;
            assert forall|x: i32| #[trigger] clg.entry_map().dom().contains(x) implies x < sep_k by {
                assert(o.children@[i].entry_map().dom().contains(x));
            }
            assert forall|x: i32| #[trigger] crg.entry_map().dom().contains(x) implies sep_k < x by {
                assert(o.children@[i + 1].entry_map().dom().contains(x));
            }
            assert(merged.keys@ =~= clg.keys@ + seq![sep_k] + crg.keys@);
            assert(merged.values@ =~= clg.values@ + seq![sep_v] + crg.values@);
            lemma_merge_with_separator(clg, crg, merged, sep_k, sep_v);
            assert(clg.height() + 1 == o.height());
            assert(merged.entry_map().dom().contains(key));
            assert(merged.key_count() >= 2 * clg.min_spec() + 1 >= 3);
        }
        let ghost mg = merged;
        merged.delete(key);
        let ghost m1 = merged;
        self.children.insert(index, merged);
        let ghost folded = *self;
        proof {
            lemma_remove_insert_is_update(o.children@.remove(index as int), index as int, m1);
            assert(self.children@ == o.children@.remove(index as int).update(index as int, m1));
            lemma_fold_children(o, folded, m1, index as int, key);
        }
        if self.children[index].is_full() {
            let c = self.children.remove(index);
            let ghost cg = c;
            let ((sk2, sv2), (l, r)) = c.split_node();
            self.keys.insert(index, sk2);
            self.values.insert(index, sv2);
            self.children.insert(index, l);
            proof {
                assert(index < self.children.len());
            }
            self.children.insert(index + 1, r);
            proof {
                let i = index as int;
                assert(cg == m1);
                assert(m1.entry_map().dom().contains(sk2));
                folded.lemma_entry_get_child(i, sk2);
                assert(lookup_pos(folded.keys@, sk2) == i && !found_at(folded.keys@, sk2)) by {
                    lemma_lookup_pos_props(folded.keys@, sk2);
                    assert forall|j: int| 0 <= j < i implies folded.keys@[j] < sk2 by {
                        if j < i - 1 {
                            assert(folded.keys@[j] < folded.keys@[i - 1]);
                        }
                    }
                    if i < folded.key_count() {
                        crate::lookup::lemma_lookup_pos_in_range(folded.keys@, sk2, i);
                    } else {
                        let p = lookup_pos(folded.keys@, sk2);
                        if p < folded.keys@.len() {
                            assert(folded.keys@[p] < sk2);
                        }
                    }
                }
                lemma_remove_insert_is_update(folded.children@, i, l);
                assert(self.children@ == folded.children@.update(i, l).insert(i + 1, r));
                assert(m1.entry_map().insert(sk2, sv2) =~= m1.entry_map());
                crate::node_insert::lemma_insert_split(folded, *self, m1, l, r, sk2, sv2, sk2, sv2);
                assert(folded.entry_map().insert(sk2, sv2) =~= folded.entry_map());
                assert(self.entry_map() == o.entry_map().remove(key));
                // Occupancy of the two halves and the untouched subtrees.
                if o.max_count % 2 == 1 {
                    assert(m1.key_count() <= 2 * (o.max_count - 1) + 1);
                    assert(l.occ_bounds());
                    assert(r.occ_bounds()) by {
                        assert(m1.key_count() >= m1.max_count);
                        assert(o.max_count == 2 * (o.max_count as int / 2) + 1);
                    }
                    assert(m1.inner_occ());
                    assert forall|j: int|
                        0 <= j < self.children@.len() implies (#[trigger] self.children@[j]).occ_bounds()
                        && self.children@[j].inner_occ() by {
                        if j < i {
                            assert(self.children@[j] == o.children@[j]);
                            lemma_seq_occ_index(o.children@, j);
                        } else if j > i + 1 {
                            assert(self.children@[j] == folded.children@[j - 1]);
                            assert(folded.children@[j - 1] == o.children@[j]);
                            lemma_seq_occ_index(o.children@, j);
                        }
                    }
                    lemma_seq_occ_from_all(self.children@);
                }
                assert(self.key_count() == o.key_count());
                // A merge of two leaves that fit together is never split
                // back: it could not have reached capacity.
                assert(!(clg.leaf() && clg.key_count() + crg.key_count() < o.max_count)) by {
                    if clg.leaf() && clg.key_count() + crg.key_count() < o.max_count {
                        assert(m1.key_count() == mg.key_count() - 1);
                        assert(m1.key_count() >= m1.max_count);
                    }
                }
                assert(o.merge_effect(*self, index as int, key));
            }
        } else {
            proof {
                assert(m1.key_count() >= 2 * clg.min_spec());
                if o.max_count % 2 == 1 {
                    assert(m1.occ_bounds());
                    assert(m1.inner_occ());
                }
                if o.key_count() == 1 {
                    assert(self.children@.len() == 1);
                    assert(self.children@[0] == m1);
                    assert(m1.key_count() >= 2 * clg.min_spec() >= 2);
                }
                // The merge took effect: the separator left and the merged
                // subtree stands where the two stood.
                let i = index as int;
                assert(forall|j: int| 0 <= j < i ==> self.children@[j] == o.children@[j]);
                assert(forall|j: int|
                    i < j < self.children@.len() ==> self.children@[j] == o.children@[j + 1]);
                if clg.leaf() {
                    assert(m1.keys@ == mg.keys@.remove(lookup_pos(mg.keys@, key)));
                    assert(m1.values@ == mg.values@.remove(lookup_pos(mg.keys@, key)));
                }
                assert(o.merge_effect(*self, i, key));
            }
        }
    }

    /// Carries out the repair that `resolve_delete_from_self_operation`
    /// chose for the entry at `index`: overwrite it with the harvested
    /// entry, or drop it into the merge of the two subtrees beside it and
    /// delete it there, collapsing this node into the merge when the entry
    /// was its last and the merge did not have to split again.
    pub fn apply_delete_from_self_operation(
        &mut self,
        index: usize,
        operation: DeleteFromSelfOperation<V>,
    )
        requires
            old(self).wf(),
            old(self).inner_occ(),
            !old(self).leaf(),
            index < old(self).key_count(),
            match operation {
                DeleteFromSelfOperation::Replace(e) => {
                    &&& forall|x: i32| #[trigger]
                        old(self).children@[index as int].entry_map().dom().contains(x) ==> x < e.0
                    &&& forall|x: i32| #[trigger]
                        old(self).children@[index as int + 1].entry_map().dom().contains(x)
                            ==> e.0 < x
                    &&& (index > 0 ==> old(self).keys@[index as int - 1] < e.0)
                    &&& (index + 1 < old(self).key_count() ==> e.0 < old(self).keys@[index as int
                        + 1])
                },
                DeleteFromSelfOperation::Merge => old(self).key_count() >= 2,
                DeleteFromSelfOperation::MergeToSelf => old(self).key_count() == 1,
            },
        ensures
            final(self).wf(),
            final(self).max_count == old(self).max_count,
            match operation {
                DeleteFromSelfOperation::Replace(e) => {
                    &&& final(self).entry_map() == old(self).entry_map().remove(
                        old(self).keys@[index as int],
                    ).insert(e.0, e.1)
                    &&& final(self).keys@ == old(self).keys@.update(index as int, e.0)
                    &&& final(self).values@ == old(self).values@.update(index as int, e.1)
                    &&& final(self).children@ == old(self).children@
                    &&& final(self).height() == old(self).height()
                    &&& final(self).leaf() == old(self).leaf()
                    &&& final(self).key_count() == old(self).key_count()
                    &&& (old(self).inner_occ() ==> final(self).inner_occ())
                },
                DeleteFromSelfOperation::Merge => {
                    &&& final(self).entry_map() == old(self).entry_map().remove(
                        old(self).keys@[index as int],
                    )
                    &&& final(self).height() == old(self).height()
                    &&& final(self).leaf() == old(self).leaf()
                    &&& old(self).key_count() - 1 <= final(self).key_count()
                    &&& final(self).key_count() <= old(self).key_count()
                    &&& (old(self).max_count % 2 == 1 ==> final(self).inner_occ())
                    &&& old(self).merge_effect(
                        *final(self),
                        index as int,
                        old(self).keys@[index as int],
                    )
                },
                DeleteFromSelfOperation::MergeToSelf => {
                    &&& final(self).entry_map() == old(self).entry_map().remove(
                        old(self).keys@[0],
                    )
                    &&& old(self).height() - 1 <= final(self).height()
                    &&& final(self).height() <= old(self).height()
                    &&& final(self).key_count() >= 1
                    &&& (old(self).max_count % 2 == 1 ==> final(self).inner_occ()
                        && final(self).key_count() <= old(self).max_count - 1)
                    &&& ({
                        let cl = old(self).children@[0];
                        let cr = old(self).children@[1];
                        let ck = cl.keys@ + seq![old(self).keys@[0]] + cr.keys@;
                        let cv = cl.values@ + seq![old(self).values@[0]] + cr.values@;
                        (cl.leaf() && cl.key_count() + cr.key_count() < old(self).max_count)
                            ==> final(self).leaf() && final(self).height() + 1 == old(
                            self,
                        ).height() && final(self).keys@ == ck.remove(
                            lookup_pos(ck, old(self).keys@[0]),
                        ) && final(self).values@ == cv.remove(lookup_pos(ck, old(self).keys@[0]))
                    })
                },
            },
        decreases old(self).height(), 2int,
    {
        let ghost o = *old(self);
        match operation {
            DeleteFromSelfOperation::Replace(pair) => {
                let (key, value) = pair;
                let _ = self.keys.remove(index);
                self.keys.insert(index, key);
                let _ = self.values.remove(index);
                self.values.insert(index, value);
                proof {
                    assert(self.keys@ =~= o.keys@.update(index as int, key));
                    assert(self.values@ =~= o.values@.update(index as int, value));
                    lemma_self_replace(o, *self, index as int, key, value);
                }
            },
            DeleteFromSelfOperation::Merge => {
                let key = self.keys[index];
                self.merge_and_delete(index, key);
            },
            DeleteFromSelfOperation::MergeToSelf => {
                let key = self.keys[0];
                self.merge_and_delete(0, key);
                if self.is_empty() {
                    let ghost mid = *self;
                    let c = self.children.remove(0);
                    proof {
                        lemma_single_child_map(mid);
                        lemma_seq_wf_index(mid.children@, mid.max_count, 0);
                    }
                    self.keys = c.keys;
                    self.values = c.values;
                    self.children = c.children;
                    self.max_count = c.max_count;
                    proof {
                        assert(mid.children@[0].height() + 1 == mid.height());
                        if o.max_count % 2 == 1 {
                            lemma_seq_occ_index(mid.children@, 0);
                        }
                    }
                }
            },
        }
    }

    /// Reads the deletion table: how `key`, absent from this node itself, is
    /// to be deleted through the subtree at its lookup position.
    pub fn get_delete_from_child_operation(&self, key: i32, index: usize) -> (operation:
        DeleteFromChildOperation)
        requires
            self.wf(),
            !found_at(self.keys@, key),
            index as int == lookup_pos(self.keys@, key),
            self.leaf() || self.key_count() >= 1,
        ensures
            operation == self.child_op(key),
    {
        proof {
            lemma_lookup_pos_props(self.keys@, key);
        }
        if self.is_leaf() {
            return DeleteFromChildOperation::NoOp;
        }
        proof {
            lemma_seq_wf_index(self.children@, self.max_count, index as int);
        }
        if self.children[index].is_more_than_min_count() {
            return DeleteFromChildOperation::Delegate;
        }
        if !self.children[index].subtree_has_key(key) {
            return DeleteFromChildOperation::NoOp;
        }
        if self.children[index].is_leaf() && index < self.children.len() - 1 {
            proof {
                lemma_seq_wf_index(self.children@, self.max_count, index as int + 1);
            }
            if self.children[index + 1].is_more_than_min_count() {
                return DeleteFromChildOperation::RotateLeft;
            }
        }
        if self.children[index].is_leaf() && index > 0 {
            proof {
                lemma_seq_wf_index(self.children@, self.max_count, index as int - 1);
            }
            if self.children[index - 1].is_more_than_min_count() {
                return DeleteFromChildOperation::RotateRight;
            }
        }
        if self.current_count() != 1 && index < self.children.len() - 1 {
            return DeleteFromChildOperation::MergeToRight;
        }
        if self.current_count() != 1 {
            return DeleteFromChildOperation::MergeToLeft;
        }
        DeleteFromChildOperation::MergeToSelf
    }

    /// Carries out the deletion-table row that `get_delete_from_child_operation`
    /// chose for a key absent from this node itself: do nothing, descend
    /// into a subtree that can spare a key, strengthen a deficient leaf by a
    /// rotation and then descend, or merge the deficient subtree with a
    /// sibling around their separator and delete inside the merge.
    #[verifier::rlimit(100)]
    pub fn apply_delete_from_child_operation(
        &mut self,
        key: i32,
        index: usize,
        operation: DeleteFromChildOperation,
    )
        requires
            old(self).wf(),
            old(self).inner_occ(),
            !found_at(old(self).keys@, key),
            index as int == lookup_pos(old(self).keys@, key),
            operation == old(self).child_op(key),
            old(self).leaf() || old(self).key_count() >= 1,
        ensures
            final(self).wf(),
            final(self).max_count == old(self).max_count,
            final(self).entry_map() == old(self).entry_map().remove(key),
            old(self).max_count % 2 == 1 ==> final(self).inner_occ(),
            !old(self).del_collapses(key) ==> final(self).height() == old(self).height()
                && final(self).leaf() == old(self).leaf() && final(self).key_count() >= old(
                self,
            ).key_count() - 1 && final(self).key_count() <= old(self).key_count(),
            old(self).del_collapses(key) ==> old(self).height() - 1 <= final(self).height()
                && final(self).height() <= old(self).height() && final(self).key_count() >= 1,
            !old(self).leaf() ==> final(self).key_count() >= 1,
            !old(self).entry_map().dom().contains(key) ==> final(self).same_content(*old(self))
                && final(self).height() == old(self).height() && final(self).leaf() == old(
                self,
            ).leaf(),
            old(self).leaf() ==> *final(self) == *old(self),
            (old(self).max_count % 2 == 1 && old(self).key_count() > old(self).min_spec())
                ==> final(self).key_count() >= old(self).min_spec(),
            (old(self).max_count % 2 == 1 && old(self).key_count() <= old(self).max_count - 1)
                ==> final(self).key_count() <= old(self).max_count - 1,
            match operation {
                DeleteFromChildOperation::NoOp => *final(self) == *old(self),
                DeleteFromChildOperation::Delegate => ({
                    let i = lookup_pos(old(self).keys@, key);
                    &&& final(self).keys@ == old(self).keys@
                    &&& final(self).values@ == old(self).values@
                    &&& final(self).children@.len() == old(self).children@.len()
                    &&& (forall|j: int|
                        0 <= j < old(self).children@.len() && j != i ==> old(self).children@[j]
                            == final(self).children@[j])
                    &&& final(self).children@[i].entry_map() == old(self).children@[i].entry_map().remove(
                        key,
                    )
                }),
                DeleteFromChildOperation::RotateLeft => ({
                    let i = lookup_pos(old(self).keys@, key);
                    let c = old(self).children@[i];
                    let s = old(self).children@[i + 1];
                    let p = lookup_pos(c.keys@, key);
                    &&& final(self).keys@ == old(self).keys@.update(i, s.keys@[0])
                    &&& final(self).values@ == old(self).values@.update(i, s.values@[0])
                    &&& final(self).children@.len() == old(self).children@.len()
                    &&& (forall|j: int|
                        0 <= j < old(self).children@.len() && j != i && j != i + 1 ==> old(
                            self,
                        ).children@[j] == final(self).children@[j])
                    &&& final(self).children@[i].keys@ == c.keys@.remove(p).push(
                        old(self).keys@[i],
                    )
                    &&& final(self).children@[i].values@ == c.values@.remove(p).push(
                        old(self).values@[i],
                    )
                    &&& final(self).children@[i].key_count() == c.key_count()
                    &&& final(self).children@[i + 1].keys@ == s.keys@.remove(0)
                    &&& final(self).children@[i + 1].values@ == s.values@.remove(0)
                    &&& final(self).children@[i + 1].key_count() == s.key_count() - 1
                }),
                DeleteFromChildOperation::RotateRight => ({
                    let i = lookup_pos(old(self).keys@, key);
                    let c = old(self).children@[i];
                    let s = old(self).children@[i - 1];
                    let p = lookup_pos(c.keys@, key);
                    &&& final(self).keys@ == old(self).keys@.update(i - 1, s.keys@.last())
                    &&& final(self).values@ == old(self).values@.update(i - 1, s.values@.last())
                    &&& final(self).children@.len() == old(self).children@.len()
                    &&& (forall|j: int|
                        0 <= j < old(self).children@.len() && j != i - 1 && j != i ==> old(
                            self,
                        ).children@[j] == final(self).children@[j])
                    &&& final(self).children@[i].keys@ == c.keys@.remove(p).insert(
                        0,
                        old(self).keys@[i - 1],
                    )
                    &&& final(self).children@[i].values@ == c.values@.remove(p).insert(
                        0,
                        old(self).values@[i - 1],
                    )
                    &&& final(self).children@[i].key_count() == c.key_count()
                    &&& final(self).children@[i - 1].keys@ == s.keys@.drop_last()
                    &&& final(self).children@[i - 1].values@ == s.values@.drop_last()
                    &&& final(self).children@[i - 1].key_count() == s.key_count() - 1
                }),
                DeleteFromChildOperation::MergeToRight => old(self).merge_effect(
                    *final(self),
                    lookup_pos(old(self).keys@, key),
                    key,
                ),
                DeleteFromChildOperation::MergeToLeft => old(self).merge_effect(
                    *final(self),
                    lookup_pos(old(self).keys@, key) - 1,
                    key,
                ),
                DeleteFromChildOperation::MergeToSelf => ({
                    let cl = old(self).children@[0];
                    let cr = old(self).children@[1];
                    let ck = cl.keys@ + seq![old(self).keys@[0]] + cr.keys@;
                    let cv = cl.values@ + seq![old(self).values@[0]] + cr.values@;
                    (cl.leaf() && cl.key_count() + cr.key_count() < old(self).max_count)
                        ==> final(self).leaf() && final(self).height() + 1 == old(self).height()
                        && final(self).keys@ == ck.remove(lookup_pos(ck, key))
                        && final(self).values@ == cv.remove(lookup_pos(ck, key))
                }),
            },
        decreases old(self).height(), 2int,
    {
        let ghost o = *old(self);
        proof {
            lemma_lookup_pos_props(o.keys@, key);
            o.lemma_route(key);
        }
        match operation {
            DeleteFromChildOperation::NoOp => {
                proof {
                    if !o.leaf() {
                        lemma_seq_wf_index(o.children@, o.max_count, index as int);
                    }
                    assert(!o.entry_map().dom().contains(key));
                    assert(o.entry_map().remove(key) =~= o.entry_map());
                    crate::node_map::lemma_same_content_refl(o);
                }
            },
            DeleteFromChildOperation::Delegate => {
                proof {
                    lemma_seq_wf_index(o.children@, o.max_count, index as int);
                    lemma_seq_occ_index(o.children@, index as int);
                }
                let mut child = self.children.remove(index);
                child.delete(key);
                let ghost c1 = child;
                self.children.insert(index, child);
                proof {
                    let c0 = o.children@[index as int];
                    lemma_remove_insert_is_update(o.children@, index as int, c1);
                    assert(self.children@ == o.children@.update(index as int, c1));
                    lemma_replace_child(o, *self, index as int, c1);
                    assert forall|x: i32|
                        #![all_triggers]
                        true implies (self.entry_map().dom().contains(x) <==> o.entry_map().remove(
                        key,
                    ).dom().contains(x)) && (self.entry_map().dom().contains(x)
                        ==> self.entry_map()[x] == o.entry_map().remove(key)[x]) by {
                        if c0.entry_map().dom().contains(x) {
                            o.lemma_entry_get_child(index as int, x);
                        } else {
                            if x == key {
                            }
                        }
                    }
                    assert(self.entry_map() =~= o.entry_map().remove(key));
                    if o.max_count % 2 == 1 {
                        assert(c1.occ_bounds());
                        assert(c1.inner_occ());
                    }
                    if !o.entry_map().dom().contains(key) {
                        assert(!c0.entry_map().dom().contains(key));
                        crate::node_map::lemma_same_content_assemble(*self, o, index as int);
                    }
                }
            },
            DeleteFromChildOperation::RotateLeft => {
                proof {
                    assert(index < self.children.len());
                    lemma_seq_wf_index(o.children@, o.max_count, index as int);
                    lemma_seq_wf_index(o.children@, o.max_count, index as int + 1);
                    assert((index as int) < o.children@.len() - 1);
                    assert(o.children@[index as int].inner_occ());
                }
                let mut c = self.children.remove(index);
                c.delete(key);
                let ghost d0 = c;
                let pair = (self.keys.remove(index), self.values.remove(index));
                c.push_kv(pair);
                let ghost e0g = c;
                self.children.insert(index, c);
                let mut sib = self.children.remove(index + 1);
                let up = sib.remove_head_entry();
                let ghost e1g = sib;
                self.children.insert(index + 1, sib);
                self.keys.insert(index, up.0);
                self.values.insert(index, up.1);
                proof {
                    let i = index as int;
                    assert(self.keys@ =~= o.keys@.update(i, o.children@[i + 1].keys@[0]));
                    assert(self.values@ =~= o.values@.update(i, o.children@[i + 1].values@[0]));
                    lemma_remove_insert_is_update(o.children@, i, e0g);
                    lemma_remove_insert_is_update(o.children@.update(i, e0g), i + 1, e1g);
                    assert(self.children@ == o.children@.update(i, e0g).update(i + 1, e1g));
                    lemma_rotate_left(o, *self, d0, e0g, e1g, i, key);
                    if o.max_count % 2 == 1 {
                        lemma_seq_occ_index(o.children@, i);
                    }
                }
            },
            DeleteFromChildOperation::RotateRight => {
                proof {
                    lemma_seq_wf_index(o.children@, o.max_count, index as int);
                    lemma_seq_wf_index(o.children@, o.max_count, index as int - 1);
                    assert(0 < index as int);
                    assert(o.children@[index as int].inner_occ());
                }
                let mut c = self.children.remove(index);
                c.delete(key);
                let ghost d = c;
                let pair = (self.keys.remove(index - 1), self.values.remove(index - 1));
                c.insert_entry(0, pair);
                let ghost eig = c;
                self.children.insert(index, c);
                let mut sib = self.children.remove(index - 1);
                let up = sib.remove_tail_entry();
                let ghost esg = sib;
                self.children.insert(index - 1, sib);
                self.keys.insert(index - 1, up.0);
                self.values.insert(index - 1, up.1);
                proof {
                    let i = index as int;
                    assert(self.keys@ =~= o.keys@.update(i - 1, o.children@[i - 1].keys@.last()));
                    assert(self.values@ =~= o.values@.update(
                        i - 1,
                        o.children@[i - 1].values@.last(),
                    ));
                    lemma_remove_insert_is_update(o.children@, i, eig);
                    lemma_remove_insert_is_update(o.children@.update(i, eig), i - 1, esg);
                    assert(self.children@ == o.children@.update(i, eig).update(i - 1, esg));
                    assert(esg.keys@ =~= o.children@[i - 1].keys@.drop_last());
                    assert(esg.values@ =~= o.children@[i - 1].values@.drop_last());
                    lemma_rotate_right(o, *self, d, eig, esg, i, key);
                    if o.max_count % 2 == 1 {
                        lemma_seq_occ_index(o.children@, i);
                    }
                }
            },
            DeleteFromChildOperation::MergeToRight => {
                self.merge_and_delete(index, key);
            },
            DeleteFromChildOperation::MergeToLeft => {
                self.merge_and_delete(index - 1, key);
            },
            DeleteFromChildOperation::MergeToSelf => {
                self.merge_and_delete(0, key);
                if self.is_empty() {
                    let ghost mid = *self;
                    let c = self.children.remove(0);
                    proof {
                        lemma_single_child_map(mid);
                        lemma_seq_wf_index(mid.children@, mid.max_count, 0);
                    }
                    self.keys = c.keys;
                    self.values = c.values;
                    self.children = c.children;
                    self.max_count = c.max_count;
                    proof {
                        assert(mid.children@[0].height() + 1 == mid.height());
                        if o.max_count % 2 == 1 {
                            lemma_seq_occ_index(mid.children@, 0);
                        }
                    }
                }
            },
        }
    }

    /// Removes `key` from the subtree rooted here; a key that is absent is
    /// left absent and the subtree's shape is untouched.  A subtree about to
    /// be descended into that cannot spare a key is first strengthened
    /// through a rotation or a merge, so only a one-key node whose two
    /// subtrees must merge may lose a level, and on a tree within the
    /// occupancy bounds that is only ever the root.
    pub fn delete(&mut self, key: i32)
        requires
            old(self).wf(),
            old(self).inner_occ(),
            old(self).leaf() || old(self).key_count() >= 1,
        ensures
            final(self).wf(),
            final(self).max_count == old(self).max_count,
            final(self).entry_map() == old(self).entry_map().remove(key),
            old(self).max_count % 2 == 1 ==> final(self).inner_occ(),
            !old(self).del_collapses(key) ==> final(self).height() == old(self).height()
                && final(self).leaf() == old(self).leaf() && final(self).key_count() >= old(
                self,
            ).key_count() - 1 && final(self).key_count() <= old(self).key_count(),
            old(self).del_collapses(key) ==> old(self).height() - 1 <= final(self).height()
                && final(self).height() <= old(self).height() && final(self).key_count() >= 1,
            !old(self).leaf() ==> final(self).key_count() >= 1,
            !old(self).entry_map().dom().contains(key) ==> final(self).same_content(*old(self))
                && final(self).height() == old(self).height() && final(self).leaf() == old(
                self,
            ).leaf(),
            old(self).leaf() ==> final(self).keys@ == (if old(self).entry_map().dom().contains(
                key,
            ) {
                old(self).keys@.remove(lookup_pos(old(self).keys@, key))
            } else {
                old(self).keys@
            }) && final(self).values@ == (if old(self).entry_map().dom().contains(key) {
                old(self).values@.remove(lookup_pos(old(self).keys@, key))
            } else {
                old(self).values@
            }),
            old(self).leaf() ==> final(self).key_count() == old(self).key_count() - (
            if old(self).entry_map().dom().contains(key) {
                1int
            } else {
                0int
            }),
            (old(self).max_count % 2 == 1 && old(self).key_count() > old(self).min_spec())
                ==> final(self).key_count() >= old(self).min_spec(),
            (old(self).max_count % 2 == 1 && old(self).key_count() <= old(self).max_count - 1)
                ==> final(self).key_count() <= old(self).max_count - 1,
        decreases old(self).height(), 3int,
    {
        let ghost o = *old(self);
        proof {
            lemma_lookup_pos_props(o.keys@, key);
            o.lemma_route(key);
        }
        match binary_lookup(&self.keys, key) {
            Ok(i) => {
                if self.is_leaf() {
                    let _ = self.keys.remove(i);
                    let _ = self.values.remove(i);
                    proof {
                        lemma_leaf_remove(o, *self, i as int);
                    }
                } else {
                    let operation = self.resolve_delete_from_self_operation(i);
                    let ghost mid = *self;
                    let ghost opg = operation;
                    proof {
                        match opg {
                            DeleteFromSelfOperation::Replace(e) => {
                                assert(e.0 != o.keys@[i as int]) by {
                                    assert(o.keys@.contains(o.keys@[i as int]));
                                }
                            },
                            DeleteFromSelfOperation::Merge => {},
                            DeleteFromSelfOperation::MergeToSelf => {},
                        }
                    }
                    self.apply_delete_from_self_operation(i, operation);
                    proof {
                        match opg {
                            DeleteFromSelfOperation::Replace(e) => {
                                assert(self.entry_map() =~= o.entry_map().remove(key));
                                assert(!o.del_collapses(key));
                            },
                            DeleteFromSelfOperation::Merge => {
                                assert(self.entry_map() =~= o.entry_map().remove(key));
                                assert(!o.del_collapses(key));
                            },
                            DeleteFromSelfOperation::MergeToSelf => {
                                assert(self.entry_map() =~= o.entry_map().remove(key));
                                assert(o.del_collapses(key));
                            },
                        }
                    }
                }
            },
            Err(i) => {
                let operation = self.get_delete_from_child_operation(key, i);
                self.apply_delete_from_child_operation(key, i, operation);
            },
        }
    }
}

} // verus!

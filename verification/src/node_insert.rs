use vstd::prelude::*;

use crate::lookup::binary_lookup;
use crate::lookup::found_at;
use crate::lookup::lemma_lookup_pos_props;
use crate::lookup::lookup_pos;
use crate::node::sorted_strict;
use crate::node::BtreeNode;
use crate::node_map::lemma_remove_insert_is_update;
use crate::node_map::lemma_seq_occ_from_all;
use crate::node_map::lemma_seq_occ_index;
use crate::node_map::lemma_seq_wf_from_all;
use crate::node_map::lemma_seq_wf_index;

verus! {

impl<V> BtreeNode<V> {
    /// Splits this node around its middle entry.  The left half takes the
    /// entries and subtrees before the middle, the right half those after
    /// it, and the middle entry itself is returned as the separator to be
    /// promoted one level up.
    #[verifier::rlimit(60)]
    pub fn split_node(self) -> (r: ((i32, V), (Self, Self)))
        requires
            self.wf(),
            self.key_count() >= 1,
        ensures
            ({
                let ((sep_k, sep_v), (left, right)) = r;
                &&& left.wf()
                &&& right.wf()
                &&& left.max_count == self.max_count
                &&& right.max_count == self.max_count
                &&& left.height() == self.height()
                &&& right.height() == self.height()
                &&& left.leaf() == self.leaf()
                &&& right.leaf() == self.leaf()
                &&& left.key_count() == self.key_count() / 2
                &&& right.key_count() == self.key_count() - self.key_count() / 2 - 1
                &&& sep_k == self.keys@[self.key_count() / 2]
                &&& sep_v == self.values@[self.key_count() / 2]
                &&& left.keys@ == self.keys@.subrange(0, self.key_count() / 2)
                &&& left.values@ == self.values@.subrange(0, self.key_count() / 2)
                &&& right.keys@ == self.keys@.subrange(self.key_count() / 2 + 1, self.key_count())
                &&& right.values@ == self.values@.subrange(
                    self.key_count() / 2 + 1,
                    self.key_count(),
                )
                &&& left.children@ == (if self.leaf() {
                    Seq::<BtreeNode<V>>::empty()
                } else {
                    self.children@.subrange(0, self.key_count() / 2 + 1)
                })
                &&& right.children@ == (if self.leaf() {
                    Seq::<BtreeNode<V>>::empty()
                } else {
                    self.children@.subrange(self.key_count() / 2 + 1, self.children@.len() as int)
                })
                &&& self.entry_map().dom().contains(sep_k)
                &&& self.entry_map()[sep_k] == sep_v
                &&& forall|x: i32| #[trigger]
                    left.entry_map().dom().contains(x) ==> x < sep_k
                        && self.entry_map().dom().contains(x) && self.entry_map()[x]
                        == left.entry_map()[x]
                &&& forall|x: i32| #[trigger]
                    right.entry_map().dom().contains(x) ==> sep_k < x
                        && self.entry_map().dom().contains(x) && self.entry_map()[x]
                        == right.entry_map()[x]
                &&& forall|x: i32| #[trigger]
                    self.entry_map().dom().contains(x) ==> left.entry_map().dom().contains(x) || x
                        == sep_k || right.entry_map().dom().contains(x)
                &&& (self.inner_occ() ==> left.inner_occ() && right.inner_occ())
            }),
    {
        let ghost n0 = self;
        let mid = self.keys.len() / 2;
        let mut keys = self.keys;
        let mut values = self.values;
        let mut children = self.children;
        let max_count = self.max_count;
        let right_keys = keys.split_off(mid + 1);
        let right_values = values.split_off(mid + 1);
        let sep_k = keys.pop().unwrap();
        let sep_v = values.pop().unwrap();
        let right_children = if children.len() > 0 {
            children.split_off(mid + 1)
        } else {
            Vec::new()
        };
        let left = BtreeNode { keys, values, children, max_count };
        let right = BtreeNode {
            keys: right_keys,
            values: right_values,
            children: right_children,
            max_count,
        };
        proof {
            let kc = n0.key_count();
            let m = kc / 2;
            let cl = n0.children@.len() as int;
            assert(left.keys@ =~= n0.keys@.subrange(0, m));
            assert(left.values@ =~= n0.values@.subrange(0, m));
            assert(right.keys@ =~= n0.keys@.subrange(m + 1, kc));
            assert(right.values@ =~= n0.values@.subrange(m + 1, kc));
            if n0.leaf() {
                assert(left.children@ =~= Seq::<BtreeNode<V>>::empty());
                assert(right.children@ =~= Seq::<BtreeNode<V>>::empty());
            } else {
                assert(left.children@ =~= n0.children@.subrange(0, m + 2 - 1));
                assert(right.children@ =~= n0.children@.subrange(m + 1, cl));
            }

            // The left half is well formed.
            assert(sorted_strict(left.keys@)) by {
                assert forall|a: int, b: int| 0 <= a < b < left.keys@.len() implies left.keys@[a]
                    < left.keys@[b] by {
                    assert(left.keys@[a] == n0.keys@[a]);
                    assert(left.keys@[b] == n0.keys@[b]);
                }
            }
            if !n0.leaf() {
                assert forall|j: int| 0 <= j < left.children@.len() implies (#[trigger] left.children@[j]).wf()
                    && left.children@[j].max_count == left.max_count by {
                    lemma_seq_wf_index(n0.children@, n0.max_count, j);
                    assert(left.children@[j] == n0.children@[j]);
                }
                lemma_seq_wf_from_all(left.children@, left.max_count);
                assert(left.separated()) by {
                    assert forall|j: int, x: i32|
                        0 <= j < left.children@.len() && #[trigger] left.children@[j].entry_map().dom().contains(
                            x,
                        ) implies (j < left.key_count() ==> x < left.keys@[j]) && (0 < j
                        ==> left.keys@[j - 1] < x) by {
                        assert(left.children@[j] == n0.children@[j]);
                        assert(n0.children@[j].entry_map().dom().contains(x));
                        if j < left.key_count() {
                            assert(left.keys@[j] == n0.keys@[j]);
                        }
                        if 0 < j {
                            assert(left.keys@[j - 1] == n0.keys@[j - 1]);
                        }
                    }
                }
                assert(left.children@[0] == n0.children@[0]);
                assert(n0.children@[0].height() + 1 == n0.height());
                assert(left.height() == n0.height());
                assert(left.level()) by {
                    assert forall|j: int| 0 <= j < left.children@.len() implies (
                    #[trigger] left.children@[j]).height() + 1 == left.height() by {
                        assert(left.children@[j] == n0.children@[j]);
                        assert(n0.children@[j].height() + 1 == n0.height());
                    }
                }
            }
            assert(left.wf());
            assert(left.height() == n0.height());

            // The right half is well formed.
            assert(sorted_strict(right.keys@)) by {
                assert forall|a: int, b: int| 0 <= a < b < right.keys@.len() implies right.keys@[a]
                    < right.keys@[b] by {
                    assert(right.keys@[a] == n0.keys@[m + 1 + a]);
                    assert(right.keys@[b] == n0.keys@[m + 1 + b]);
                }
            }
            if !n0.leaf() {
                assert forall|j: int| 0 <= j < right.children@.len() implies (#[trigger] right.children@[j]).wf()
                    && right.children@[j].max_count == right.max_count by {
                    lemma_seq_wf_index(n0.children@, n0.max_count, m + 1 + j);
                    assert(right.children@[j] == n0.children@[m + 1 + j]);
                }
                lemma_seq_wf_from_all(right.children@, right.max_count);
                assert(right.separated()) by {
                    assert forall|j: int, x: i32|
                        0 <= j < right.children@.len() && #[trigger] right.children@[j].entry_map().dom().contains(
                            x,
                        ) implies (j < right.key_count() ==> x < right.keys@[j]) && (0 < j
                        ==> right.keys@[j - 1] < x) by {
                        assert(right.children@[j] == n0.children@[m + 1 + j]);
                        assert(n0.children@[m + 1 + j].entry_map().dom().contains(x));
                        if j < right.key_count() {
                            assert(right.keys@[j] == n0.keys@[m + 1 + j]);
                        }
                        if 0 < j {
                            assert(right.keys@[j - 1] == n0.keys@[m + j]);
                        }
                    }
                }
                assert(right.children@[0] == n0.children@[m + 1]);
                assert(n0.children@[m + 1].height() + 1 == n0.height());
                assert(right.height() == n0.height());
                assert(right.level()) by {
                    assert forall|j: int| 0 <= j < right.children@.len() implies (
                    #[trigger] right.children@[j]).height() + 1 == right.height() by {
                        assert(right.children@[j] == n0.children@[m + 1 + j]);
                        assert(n0.children@[m + 1 + j].height() + 1 == n0.height());
                    }
                }
            }
            assert(right.wf());
            assert(right.height() == n0.height());

            // The separator is the middle entry.
            n0.lemma_entry_get_own(m);

            // Everything in the left half sits below the separator and keeps
            // its value from the whole.
            assert forall|x: i32| #[trigger] left.entry_map().dom().contains(x) implies x
                < n0.keys@[m] && n0.entry_map().dom().contains(x) && n0.entry_map()[x]
                == left.entry_map()[x] by {
                left.lemma_entry_contains(x);
                if left.keys@.contains(x) {
                    let a = choose|a: int| 0 <= a < left.keys@.len() && left.keys@[a] == x;
                    assert(n0.keys@[a] == x);
                    assert(n0.keys@[a] < n0.keys@[m]);
                    left.lemma_entry_get_own(a);
                    n0.lemma_entry_get_own(a);
                } else {
                    let j = choose|j: int|
                        0 <= j < left.children@.len() && #[trigger] left.children@[j].entry_map().dom().contains(
                            x,
                        );
                    assert(left.children@[j] == n0.children@[j]);
                    assert(n0.children@[j].entry_map().dom().contains(x));
                    left.lemma_entry_get_child(j, x);
                    n0.lemma_entry_get_child(j, x);
                    assert(x < n0.keys@[j]);
                    if j < m {
                        assert(n0.keys@[j] < n0.keys@[m]);
                    }
                }
            }

            // Everything in the right half sits above the separator and keeps
            // its value from the whole.
            assert forall|x: i32| #[trigger] right.entry_map().dom().contains(x) implies n0.keys@[m]
                < x && n0.entry_map().dom().contains(x) && n0.entry_map()[x]
                == right.entry_map()[x] by {
                right.lemma_entry_contains(x);
                if right.keys@.contains(x) {
                    let a = choose|a: int| 0 <= a < right.keys@.len() && right.keys@[a] == x;
                    assert(n0.keys@[m + 1 + a] == x);
                    assert(n0.keys@[m] < n0.keys@[m + 1 + a]);
                    right.lemma_entry_get_own(a);
                    n0.lemma_entry_get_own(m + 1 + a);
                } else {
                    let j = choose|j: int|
                        0 <= j < right.children@.len() && #[trigger] right.children@[j].entry_map().dom().contains(
                            x,
                        );
                    assert(right.children@[j] == n0.children@[m + 1 + j]);
                    assert(n0.children@[m + 1 + j].entry_map().dom().contains(x));
                    right.lemma_entry_get_child(j, x);
                    n0.lemma_entry_get_child(m + 1 + j, x);
                    assert(n0.keys@[m + j] < x);
                    if m < m + j {
                        assert(n0.keys@[m] < n0.keys@[m + j]);
                    }
                }
            }

            // Everything in the whole lands in one of the three parts.
            assert forall|x: i32| #[trigger] n0.entry_map().dom().contains(x) implies left.entry_map().dom().contains(
                x,
            ) || x == n0.keys@[m] || right.entry_map().dom().contains(x) by {
                n0.lemma_entry_contains(x);
                if n0.keys@.contains(x) {
                    let a = choose|a: int| 0 <= a < n0.keys@.len() && n0.keys@[a] == x;
                    if a < m {
                        assert(left.keys@[a] == x);
                        left.lemma_entry_contains(x);
                    } else if a > m {
                        assert(right.keys@[a - m - 1] == x);
                        right.lemma_entry_contains(x);
                    }
                } else {
                    let j = choose|j: int|
                        0 <= j < n0.children@.len() && #[trigger] n0.children@[j].entry_map().dom().contains(
                            x,
                        );
                    if j <= m {
                        assert(left.children@[j] == n0.children@[j]);
                        assert(left.children@[j].entry_map().dom().contains(x));
                        left.lemma_entry_contains(x);
                    } else {
                        assert(right.children@[j - m - 1] == n0.children@[j]);
                        assert(right.children@[j - m - 1].entry_map().dom().contains(x));
                        right.lemma_entry_contains(x);
                    }
                }
            }

            // Occupancy below carries into both halves.
            if n0.inner_occ() {
                if n0.leaf() {
                    assert(left.inner_occ());
                    assert(right.inner_occ());
                } else {
                    assert forall|j: int| 0 <= j < left.children@.len() implies (
                    #[trigger] left.children@[j]).occ_bounds() && left.children@[j].inner_occ() by {
                        lemma_seq_occ_index(n0.children@, j);
                        assert(left.children@[j] == n0.children@[j]);
                    }
                    lemma_seq_occ_from_all(left.children@);
                    assert forall|j: int| 0 <= j < right.children@.len() implies (
                    #[trigger] right.children@[j]).occ_bounds() && right.children@[j].inner_occ() by {
                        lemma_seq_occ_index(n0.children@, m + 1 + j);
                        assert(right.children@[j] == n0.children@[m + 1 + j]);
                    }
                    lemma_seq_occ_from_all(right.children@);
                }
            }
        }
        ((sep_k, sep_v), (left, right))
    }
}

/// Overwriting the value stored at `key`'s own position updates the subtree
/// map at `key` and changes nothing else.
proof fn lemma_insert_overwrite<V>(o: BtreeNode<V>, n1: BtreeNode<V>, key: i32, value: V)
    requires
        o.wf(),
        found_at(o.keys@, key),
        n1.keys@ == o.keys@,
        n1.values@ == o.values@.update(lookup_pos(o.keys@, key), value),
        n1.children@ == o.children@,
        n1.max_count == o.max_count,
    ensures
        n1.wf(),
        n1.entry_map() == o.entry_map().insert(key, value),
        n1.height() == o.height(),
        n1.leaf() == o.leaf(),
        n1.key_count() == o.key_count(),
        o.inner_occ() ==> n1.inner_occ(),
{
    let i = lookup_pos(o.keys@, key);
    lemma_lookup_pos_props(o.keys@, key);
    assert(n1.height() == o.height());
    assert(n1.separated()) by {
        assert forall|j: int, x: i32|
            0 <= j < n1.children@.len() && #[trigger] n1.children@[j].entry_map().dom().contains(x)
            implies (j < n1.key_count() ==> x < n1.keys@[j]) && (0 < j ==> n1.keys@[j - 1] < x) by {
            assert(o.children@[j].entry_map().dom().contains(x));
        }
    }
    assert(n1.level()) by {
        assert forall|j: int| 0 <= j < n1.children@.len() implies (#[trigger] n1.children@[j]).height()
            + 1 == n1.height() by {
            assert(o.children@[j].height() + 1 == o.height());
        }
    }
    assert(n1.wf());
    assert forall|x: i32| #[trigger] n1.entry_map().dom().contains(x) implies o.entry_map().insert(
        key,
        value,
    ).dom().contains(x) && n1.entry_map()[x] == o.entry_map().insert(key, value)[x] by {
        n1.lemma_entry_contains(x);
        if n1.keys@.contains(x) {
            let a = choose|a: int| 0 <= a < n1.keys@.len() && n1.keys@[a] == x;
            n1.lemma_entry_get_own(a);
            if a == i {
                assert(x == key);
            } else {
                if a < i {
                    assert(o.keys@[a] < o.keys@[i]);
                } else {
                    assert(o.keys@[i] < o.keys@[a]);
                }
                o.lemma_entry_get_own(a);
            }
        } else {
            let j = choose|j: int|
                0 <= j < n1.children@.len() && #[trigger] n1.children@[j].entry_map().dom().contains(x);
            n1.lemma_entry_get_child(j, x);
            assert(o.children@[j].entry_map().dom().contains(x));
            o.lemma_entry_get_child(j, x);
            assert(x != key) by {
                assert(o.keys@[i] == key);
            }
        }
    }
    assert forall|x: i32| #[trigger] o.entry_map().insert(key, value).dom().contains(x)
        implies n1.entry_map().dom().contains(x) by {
        if x == key {
            assert(n1.keys@[i] == key);
            n1.lemma_entry_contains(x);
        } else {
            o.lemma_entry_contains(x);
            n1.lemma_entry_contains(x);
        }
    }
    assert(n1.entry_map() =~= o.entry_map().insert(key, value));
}

/// Inserting a fresh entry at its lookup position in a leaf updates the
/// subtree map at `key` and changes nothing else.
proof fn lemma_insert_leaf<V>(o: BtreeNode<V>, n1: BtreeNode<V>, key: i32, value: V)
    requires
        o.wf(),
        o.leaf(),
        !found_at(o.keys@, key),
        n1.keys@ == o.keys@.insert(lookup_pos(o.keys@, key), key),
        n1.values@ == o.values@.insert(lookup_pos(o.keys@, key), value),
        n1.children@ == o.children@,
        n1.max_count == o.max_count,
    ensures
        n1.wf(),
        n1.entry_map() == o.entry_map().insert(key, value),
        n1.height() == o.height(),
        n1.leaf(),
        n1.key_count() == o.key_count() + 1,
        n1.inner_occ(),
{
    let i = lookup_pos(o.keys@, key);
    lemma_lookup_pos_props(o.keys@, key);
    assert(sorted_strict(n1.keys@)) by {
        assert forall|a: int, b: int| 0 <= a < b < n1.keys@.len() implies n1.keys@[a] < n1.keys@[b] by {
            if b < i {
                assert(o.keys@[a] < o.keys@[b]);
            } else if b == i {
                assert(o.keys@[a] < key);
            } else if a < i {
                assert(n1.keys@[b] == o.keys@[b - 1]);
                if a < b - 1 {
                    assert(o.keys@[a] < o.keys@[b - 1]);
                }
            } else if a == i {
                assert(n1.keys@[b] == o.keys@[b - 1]);
                assert(key <= o.keys@[i]);
                assert(o.keys@[i] != key);
                if i < b - 1 {
                    assert(o.keys@[i] < o.keys@[b - 1]);
                }
            } else {
                assert(o.keys@[a - 1] < o.keys@[b - 1]);
            }
        }
    }
    assert(n1.wf());
    assert forall|x: i32| #[trigger] n1.entry_map().dom().contains(x) implies o.entry_map().insert(
        key,
        value,
    ).dom().contains(x) && n1.entry_map()[x] == o.entry_map().insert(key, value)[x] by {
        n1.lemma_entry_contains(x);
        let a = choose|a: int| 0 <= a < n1.keys@.len() && n1.keys@[a] == x;
        n1.lemma_entry_get_own(a);
        if a == i {
            assert(x == key);
        } else if a < i {
            assert(o.keys@[a] == x);
            assert(o.keys@[a] < key);
            o.lemma_entry_get_own(a);
        } else {
            assert(o.keys@[a - 1] == x);
            assert(key <= o.keys@[i]);
            assert(o.keys@[i] != key);
            if i < a - 1 {
                assert(o.keys@[i] < o.keys@[a - 1]);
            }
            o.lemma_entry_get_own(a - 1);
        }
    }
    assert forall|x: i32| #[trigger] o.entry_map().insert(key, value).dom().contains(x)
        implies n1.entry_map().dom().contains(x) by {
        if x == key {
            assert(n1.keys@[i] == key);
            n1.lemma_entry_contains(x);
        } else {
            o.lemma_entry_contains(x);
            let a = choose|a: int| 0 <= a < o.keys@.len() && o.keys@[a] == x;
            if a < i {
                assert(n1.keys@[a] == x);
            } else {
                assert(n1.keys@[a + 1] == x);
            }
            n1.lemma_entry_contains(x);
        }
    }
    assert(n1.entry_map() =~= o.entry_map().insert(key, value));
}

/// Replacing the subtree at `key`'s lookup position with one whose map has
/// gained the entry `key -> value` does the same to the whole subtree map.
proof fn lemma_insert_child<V>(o: BtreeNode<V>, n1: BtreeNode<V>, c1: BtreeNode<V>, key: i32, value: V)
    requires
        o.wf(),
        !o.leaf(),
        !found_at(o.keys@, key),
        c1.wf(),
        c1.max_count == o.max_count,
        c1.entry_map() == o.children@[lookup_pos(o.keys@, key)].entry_map().insert(key, value),
        c1.height() == o.children@[lookup_pos(o.keys@, key)].height(),
        n1.keys@ == o.keys@,
        n1.values@ == o.values@,
        n1.children@ == o.children@.update(lookup_pos(o.keys@, key), c1),
        n1.max_count == o.max_count,
    ensures
        n1.wf(),
        n1.entry_map() == o.entry_map().insert(key, value),
        n1.height() == o.height(),
        n1.key_count() == o.key_count(),
        (o.inner_occ() && c1.occ_bounds() && c1.inner_occ()) ==> n1.inner_occ(),
{
    let i = lookup_pos(o.keys@, key);
    lemma_lookup_pos_props(o.keys@, key);
    o.lemma_route(key);
    let c0 = o.children@[i];
    assert(n1.children@[i] == c1);
    assert forall|j: int| 0 <= j < n1.children@.len() implies (#[trigger] n1.children@[j]).wf()
        && n1.children@[j].max_count == n1.max_count by {
        if j != i {
            lemma_seq_wf_index(o.children@, o.max_count, j);
        }
    }
    lemma_seq_wf_from_all(n1.children@, n1.max_count);
    assert(n1.separated()) by {
        assert forall|j: int, x: i32|
            0 <= j < n1.children@.len() && #[trigger] n1.children@[j].entry_map().dom().contains(x)
            implies (j < n1.key_count() ==> x < n1.keys@[j]) && (0 < j ==> n1.keys@[j - 1] < x) by {
            if j == i {
                if x != key {
                    assert(c0.entry_map().dom().contains(x));
                }
            } else {
                assert(o.children@[j].entry_map().dom().contains(x));
            }
        }
    }
    assert(n1.height() == o.height()) by {
        if i == 0 {
            assert(n1.children@[0] == c1);
            assert(c0.height() + 1 == o.height());
        } else {
            assert(n1.children@[0] == o.children@[0]);
            assert(o.children@[0].height() + 1 == o.height());
        }
    }
    assert(n1.level()) by {
        assert forall|j: int| 0 <= j < n1.children@.len() implies (#[trigger] n1.children@[j]).height()
            + 1 == n1.height() by {
            if j == i {
                assert(c0.height() + 1 == o.height());
            } else {
                assert(o.children@[j].height() + 1 == o.height());
            }
        }
    }
    assert(n1.wf());
    assert forall|x: i32| #[trigger] n1.entry_map().dom().contains(x) implies o.entry_map().insert(
        key,
        value,
    ).dom().contains(x) && n1.entry_map()[x] == o.entry_map().insert(key, value)[x] by {
        n1.lemma_entry_contains(x);
        if n1.keys@.contains(x) {
            let a = choose|a: int| 0 <= a < n1.keys@.len() && n1.keys@[a] == x;
            n1.lemma_entry_get_own(a);
            o.lemma_entry_get_own(a);
            assert(x != key);
        } else {
            let j = choose|j: int|
                0 <= j < n1.children@.len() && #[trigger] n1.children@[j].entry_map().dom().contains(x);
            n1.lemma_entry_get_child(j, x);
            if j == i {
                if x == key {
                    assert(c1.entry_map()[x] == value);
                } else {
                    assert(c0.entry_map().dom().contains(x));
                    assert(c1.entry_map()[x] == c0.entry_map()[x]);
                    o.lemma_entry_get_child(i, x);
                }
            } else {
                assert(o.children@[j].entry_map().dom().contains(x));
                o.lemma_entry_get_child(j, x);
                assert(x != key);
            }
        }
    }
    assert forall|x: i32| #[trigger] o.entry_map().insert(key, value).dom().contains(x)
        implies n1.entry_map().dom().contains(x) by {
        n1.lemma_entry_contains(x);
        if x == key {
            assert(c1.entry_map().dom().contains(key));
            assert(n1.children@[i].entry_map().dom().contains(key));
        } else {
            o.lemma_entry_contains(x);
            if o.keys@.contains(x) {
            } else {
                let j = choose|j: int|
                    0 <= j < o.children@.len() && #[trigger] o.children@[j].entry_map().dom().contains(x);
                if j == i {
                    assert(c1.entry_map().dom().contains(x));
                    assert(n1.children@[i].entry_map().dom().contains(x));
                } else {
                    assert(n1.children@[j].entry_map().dom().contains(x));
                }
            }
        }
    }
    assert(n1.entry_map() =~= o.entry_map().insert(key, value));
    if o.inner_occ() && c1.occ_bounds() && c1.inner_occ() {
        assert forall|j: int| 0 <= j < n1.children@.len() implies (#[trigger] n1.children@[j]).occ_bounds()
            && n1.children@[j].inner_occ() by {
            if j != i {
                lemma_seq_occ_index(o.children@, j);
            }
        }
        lemma_seq_occ_from_all(n1.children@);
    }
}

/// Replacing the subtree at `key`'s lookup position with its two halves and
/// promoting the separator between them leaves a well-formed node whose map
/// has gained exactly the entry `key -> value`.
#[verifier::rlimit(100)]
pub(crate) proof fn lemma_insert_split<V>(
    o: BtreeNode<V>,
    n1: BtreeNode<V>,
    c1: BtreeNode<V>,
    l: BtreeNode<V>,
    r: BtreeNode<V>,
    sk: i32,
    sv: V,
    key: i32,
    value: V,
)
    requires
        o.wf(),
        !o.leaf(),
        !found_at(o.keys@, key),
        c1.max_count == o.max_count,
        c1.entry_map() == o.children@[lookup_pos(o.keys@, key)].entry_map().insert(key, value),
        c1.height() == o.children@[lookup_pos(o.keys@, key)].height(),
        l.wf(),
        r.wf(),
        l.max_count == o.max_count,
        r.max_count == o.max_count,
        l.height() == c1.height(),
        r.height() == c1.height(),
        c1.entry_map().dom().contains(sk),
        c1.entry_map()[sk] == sv,
        forall|x: i32| #[trigger]
            l.entry_map().dom().contains(x) ==> x < sk && c1.entry_map().dom().contains(x)
                && c1.entry_map()[x] == l.entry_map()[x],
        forall|x: i32| #[trigger]
            r.entry_map().dom().contains(x) ==> sk < x && c1.entry_map().dom().contains(x)
                && c1.entry_map()[x] == r.entry_map()[x],
        forall|x: i32| #[trigger]
            c1.entry_map().dom().contains(x) ==> l.entry_map().dom().contains(x) || x == sk
                || r.entry_map().dom().contains(x),
        n1.keys@ == o.keys@.insert(lookup_pos(o.keys@, key), sk),
        n1.values@ == o.values@.insert(lookup_pos(o.keys@, key), sv),
        n1.children@ == o.children@.update(lookup_pos(o.keys@, key), l).insert(
            lookup_pos(o.keys@, key) + 1,
            r,
        ),
        n1.max_count == o.max_count,
    ensures
        n1.wf(),
        n1.entry_map() == o.entry_map().insert(key, value),
        n1.height() == o.height(),
        n1.key_count() == o.key_count() + 1,
        (o.inner_occ() && l.occ_bounds() && r.occ_bounds() && l.inner_occ() && r.inner_occ())
            ==> n1.inner_occ(),
{
    let i = lookup_pos(o.keys@, key);
    lemma_lookup_pos_props(o.keys@, key);
    o.lemma_route(key);
    let c0 = o.children@[i];
    let kc = o.key_count();
    assert(n1.children@.len() == o.children@.len() + 1);
    assert(n1.children@[i] == l);
    assert(n1.children@[i + 1] == r);
    assert(forall|j: int| 0 <= j < i ==> n1.children@[j] == o.children@[j]);
    assert(forall|j: int| i + 1 < j < n1.children@.len() ==> n1.children@[j] == o.children@[j - 1]);
    assert(forall|a: int| 0 <= a < i ==> n1.keys@[a] == o.keys@[a]);
    assert(n1.keys@[i] == sk);
    assert(forall|a: int| i < a < n1.keys@.len() ==> n1.keys@[a] == o.keys@[a - 1]);

    // Where the separator sits relative to this node's keys.
    assert(0 < i ==> o.keys@[i - 1] < sk) by {
        if sk != key {
            assert(c0.entry_map().dom().contains(sk));
        }
    }
    assert(i < kc ==> sk < o.keys@[i]) by {
        if sk != key {
            assert(c0.entry_map().dom().contains(sk));
        }
    }
    assert(sorted_strict(n1.keys@)) by {
        assert forall|a: int, b: int| 0 <= a < b < n1.keys@.len() implies n1.keys@[a] < n1.keys@[b] by {
            if b < i {
                assert(o.keys@[a] < o.keys@[b]);
            } else if b == i {
                assert(o.keys@[a] < o.keys@[i - 1] || a == i - 1);
                if a < i - 1 {
                    assert(o.keys@[a] < o.keys@[i - 1]);
                }
            } else if a < i {
                if a < b - 1 {
                    assert(o.keys@[a] < o.keys@[b - 1]);
                }
            } else if a == i {
                if i < b - 1 {
                    assert(o.keys@[i] < o.keys@[b - 1]);
                }
            } else {
                assert(o.keys@[a - 1] < o.keys@[b - 1]);
            }
        }
    }
    assert forall|j: int| 0 <= j < n1.children@.len() implies (#[trigger] n1.children@[j]).wf()
        && n1.children@[j].max_count == n1.max_count by {
        if j != i && j != i + 1 {
            if j < i {
                lemma_seq_wf_index(o.children@, o.max_count, j);
            } else {
                lemma_seq_wf_index(o.children@, o.max_count, j - 1);
            }
        }
    }
    lemma_seq_wf_from_all(n1.children@, n1.max_count);
    assert(n1.separated()) by {
        assert forall|j: int, x: i32|
            0 <= j < n1.children@.len() && #[trigger] n1.children@[j].entry_map().dom().contains(x)
            implies (j < n1.key_count() ==> x < n1.keys@[j]) && (0 < j ==> n1.keys@[j - 1] < x) by {
            if j < i {
                assert(o.children@[j].entry_map().dom().contains(x));
            } else if j == i {
                assert(x < sk);
                assert(c1.entry_map().dom().contains(x));
                if x != key {
                    assert(c0.entry_map().dom().contains(x));
                }
            } else if j == i + 1 {
                assert(sk < x);
                assert(c1.entry_map().dom().contains(x));
                if x != key {
                    assert(c0.entry_map().dom().contains(x));
                }
            } else {
                assert(o.children@[j - 1].entry_map().dom().contains(x));
            }
        }
    }
    assert(l.height() == c0.height());
    assert(n1.height() == o.height()) by {
        if i == 0 {
            assert(n1.children@[0] == l);
            assert(c0.height() + 1 == o.height());
        } else {
            assert(n1.children@[0] == o.children@[0]);
            assert(o.children@[0].height() + 1 == o.height());
        }
    }
    assert(n1.level()) by {
        assert forall|j: int| 0 <= j < n1.children@.len() implies (#[trigger] n1.children@[j]).height()
            + 1 == n1.height() by {
            if j < i {
                assert(o.children@[j].height() + 1 == o.height());
            } else if j == i || j == i + 1 {
                assert(c0.height() + 1 == o.height());
            } else {
                assert(o.children@[j - 1].height() + 1 == o.height());
            }
        }
    }
    assert(n1.wf());
    assert forall|x: i32| #[trigger] n1.entry_map().dom().contains(x) implies o.entry_map().insert(
        key,
        value,
    ).dom().contains(x) && n1.entry_map()[x] == o.entry_map().insert(key, value)[x] by {
        n1.lemma_entry_contains(x);
        if n1.keys@.contains(x) {
            let a = choose|a: int| 0 <= a < n1.keys@.len() && n1.keys@[a] == x;
            n1.lemma_entry_get_own(a);
            if a < i {
                o.lemma_entry_get_own(a);
                assert(x != key);
            } else if a == i {
                assert(x == sk);
                if sk == key {
                    assert(c1.entry_map()[key] == value);
                } else {
                    assert(c0.entry_map().dom().contains(sk));
                    assert(c1.entry_map()[sk] == c0.entry_map()[sk]);
                    o.lemma_entry_get_child(i, sk);
                }
            } else {
                o.lemma_entry_get_own(a - 1);
                assert(x != key);
            }
        } else {
            let j = choose|j: int|
                0 <= j < n1.children@.len() && #[trigger] n1.children@[j].entry_map().dom().contains(x);
            n1.lemma_entry_get_child(j, x);
            if j < i {
                assert(o.children@[j].entry_map().dom().contains(x));
                o.lemma_entry_get_child(j, x);
                assert(x != key);
            } else if j == i {
                assert(n1.entry_map()[x] == l.entry_map()[x]);
                assert(c1.entry_map().dom().contains(x));
                assert(c1.entry_map()[x] == l.entry_map()[x]);
                if x == key {
                    assert(c1.entry_map()[x] == value);
                } else {
                    assert(c0.entry_map().dom().contains(x));
                    assert(c1.entry_map()[x] == c0.entry_map()[x]);
                    o.lemma_entry_get_child(i, x);
                }
            } else if j == i + 1 {
                assert(n1.entry_map()[x] == r.entry_map()[x]);
                assert(c1.entry_map().dom().contains(x));
                assert(c1.entry_map()[x] == r.entry_map()[x]);
                if x == key {
                    assert(c1.entry_map()[x] == value);
                } else {
                    assert(c0.entry_map().dom().contains(x));
                    assert(c1.entry_map()[x] == c0.entry_map()[x]);
                    o.lemma_entry_get_child(i, x);
                }
            } else {
                assert(o.children@[j - 1].entry_map().dom().contains(x));
                o.lemma_entry_get_child(j - 1, x);
                assert(x != key);
            }
        }
    }
    assert forall|x: i32| #[trigger] o.entry_map().insert(key, value).dom().contains(x)
        implies n1.entry_map().dom().contains(x) by {
        n1.lemma_entry_contains(x);
        if x == key || c0.entry_map().dom().contains(x) {
            assert(c1.entry_map().dom().contains(x));
            if l.entry_map().dom().contains(x) {
                assert(n1.children@[i].entry_map().dom().contains(x));
            } else if r.entry_map().dom().contains(x) {
                assert(n1.children@[i + 1].entry_map().dom().contains(x));
            } else {
                assert(x == sk);
                assert(n1.keys@[i] == x);
            }
        }
        if x != key {
            o.lemma_entry_contains(x);
            if o.keys@.contains(x) {
                let a = choose|a: int| 0 <= a < o.keys@.len() && o.keys@[a] == x;
                if a < i {
                    assert(n1.keys@[a] == x);
                } else {
                    assert(n1.keys@[a + 1] == x);
                }
            } else {
                let j = choose|j: int|
                    0 <= j < o.children@.len() && #[trigger] o.children@[j].entry_map().dom().contains(x);
                if j < i {
                    assert(n1.children@[j].entry_map().dom().contains(x));
                } else if j == i {
                    assert(c1.entry_map().dom().contains(x));
                    if l.entry_map().dom().contains(x) {
                        assert(n1.children@[i].entry_map().dom().contains(x));
                    } else if r.entry_map().dom().contains(x) {
                        assert(n1.children@[i + 1].entry_map().dom().contains(x));
                    } else {
                        assert(x == sk);
                        assert(n1.keys@[i] == x);
                    }
                } else {
                    assert(n1.children@[j + 1].entry_map().dom().contains(x));
                }
            }
        }
    }
    assert(n1.entry_map() =~= o.entry_map().insert(key, value));
    if o.inner_occ() && l.occ_bounds() && r.occ_bounds() && l.inner_occ() && r.inner_occ() {
        assert forall|j: int| 0 <= j < n1.children@.len() implies (#[trigger] n1.children@[j]).occ_bounds()
            && n1.children@[j].inner_occ() by {
            if j < i {
                lemma_seq_occ_index(o.children@, j);
            } else if j > i + 1 {
                lemma_seq_occ_index(o.children@, j - 1);
            }
        }
        lemma_seq_occ_from_all(n1.children@);
    }
}

impl<V> BtreeNode<V> {
    /// Stores `value` under `key` in the subtree rooted here, overwriting
    /// the old value when the key is already present.  A subtree that grows
    /// beyond its capacity is split and repaired one level up, so on return
    /// only this node itself may stand at `max_count` keys; the caller
    /// resolves that overflow.
    pub fn insert(&mut self, key: i32, value: V)
        requires
            old(self).wf(),
        ensures
            final(self).wf(),
            final(self).entry_map() == old(self).entry_map().insert(key, value),
            final(self).height() == old(self).height(),
            final(self).max_count == old(self).max_count,
            final(self).leaf() == old(self).leaf(),
            old(self).key_count() <= final(self).key_count() <= old(self).key_count() + 1,
            old(self).leaf() ==> final(self).key_count() >= 1,
            old(self).leaf() ==> final(self).key_count() == old(self).key_count() + (
            if old(self).entry_map().dom().contains(key) {
                0int
            } else {
                1int
            }),
            (old(self).entry_map().dom().contains(key) && old(self).inner_occ())
                ==> final(self).key_count() == old(self).key_count(),
            (old(self).inner_occ() && old(self).max_count % 2 == 1) ==> final(self).inner_occ(),
        decreases *old(self),
    {
        let ghost o = *old(self);
        proof {
            lemma_lookup_pos_props(o.keys@, key);
            o.lemma_route(key);
        }
        match binary_lookup(&self.keys, key) {
            Ok(i) => {
                let _ = self.keys.remove(i);
                self.keys.insert(i, key);
                let _ = self.values.remove(i);
                self.values.insert(i, value);
                proof {
                    assert(self.keys@ =~= o.keys@);
                    assert(self.values@ =~= o.values@.update(i as int, value));
                    lemma_insert_overwrite(o, *self, key, value);
                }
            },
            Err(i) => {
                if self.is_leaf() {
                    self.keys.insert(i, key);
                    self.values.insert(i, value);
                    proof {
                        lemma_insert_leaf(o, *self, key, value);
                    }
                } else {
                    proof {
                        lemma_seq_wf_index(o.children@, o.max_count, i as int);
                        if o.inner_occ() {
                            lemma_seq_occ_index(o.children@, i as int);
                        }
                    }
                    let mut child = self.children.remove(i);
                    child.insert(key, value);
                    let ghost c1 = child;
                    if child.is_full() {
                        let ((sk, sv), (l, r)) = child.split_node();
                        self.keys.insert(i, sk);
                        self.values.insert(i, sv);
                        self.children.insert(i, l);
                        proof {
                            assert(i < self.children.len());
                        }
                        self.children.insert(i + 1, r);
                        proof {
                            lemma_remove_insert_is_update(o.children@, i as int, l);
                            assert(self.children@ == o.children@.update(i as int, l).insert(
                                i as int + 1,
                                r,
                            ));
                            lemma_insert_split(o, *self, c1, l, r, sk, sv, key, value);
                            if o.inner_occ() && o.max_count % 2 == 1 {
                                assert(o.children@[i as int].occ_bounds());
                                assert(c1.key_count() == c1.max_count);
                                assert(l.key_count() == c1.max_count as int / 2);
                                assert(r.key_count() == c1.max_count - c1.max_count as int / 2 - 1);
                                assert(c1.max_count == 2 * (c1.max_count as int / 2) + 1);
                                assert(l.occ_bounds());
                                assert(r.occ_bounds());
                                assert(c1.inner_occ());
                            }
                        }
                    } else {
                        self.children.insert(i, child);
                        proof {
                            lemma_remove_insert_is_update(o.children@, i as int, c1);
                            assert(self.children@ == o.children@.update(i as int, c1));
                            lemma_insert_child(o, *self, c1, key, value);
                            if o.inner_occ() && o.max_count % 2 == 1 {
                                assert(o.children@[i as int].occ_bounds());
                                assert(c1.occ_bounds());
                                assert(c1.inner_occ());
                            }
                        }
                    }
                }
            },
        }
    }
}

} // verus!

use vstd::prelude::*;

use crate::node::BtreeNode;

verus! {

/// An ordered map from `i32` keys to values, kept as a B-tree.
///
/// An absent `root` is the empty tree.  `max_count` is the key capacity of
/// every node, fixed at construction and at least two.
pub struct Btree<V> {
    pub root: Option<BtreeNode<V>>,
    pub max_count: usize,
}

impl<V> Btree<V> {
    /// The number of levels of the tree; the empty tree has none.
    pub open spec fn height(self) -> nat {
        match self.root {
            Option::None => 0,
            Option::Some(r) => r.height(),
        }
    }

    /// The abstract content of the tree.
    pub open spec fn as_map(self) -> Map<i32, V> {
        match self.root {
            Option::None => Map::empty(),
            Option::Some(r) => r.entry_map(),
        }
    }

    /// The tree's invariant: the root subtree is well formed (strictly
    /// ascending keys in every node, separated subtrees, all leaves at one
    /// depth, values parallel to keys), every node carries this tree's
    /// capacity, and the root holds a key unless the tree is empty.
    pub open spec fn inv(self) -> bool {
        &&& self.max_count >= 2
        &&& match self.root {
            Option::None => true,
            Option::Some(r) => r.wf() && r.max_count == self.max_count && r.key_count() >= 1,
        }
    }

    /// Occupancy at rest: every node below the root holds between
    /// `min_count` and `max_count - 1` keys, and the root holds between one
    /// and `max_count - 1` unless the tree is empty.  An even `max_count`
    /// cannot keep this bound: splitting a full node of `max_count` keys
    /// leaves the right half one key short of `min_count`, so occupancy is
    /// preserved only for odd capacities.
    pub open spec fn occupied(self) -> bool {
        match self.root {
            Option::None => true,
            Option::Some(r) => r.inner_occ() && 1 <= r.key_count() <= self.max_count - 1,
        }
    }
}

impl<V> View for Btree<V> {
    type V = Map<i32, V>;

    open spec fn view(&self) -> Map<i32, V> {
        self.as_map()
    }
}

/// A one-key root assembled around the separator of a split: it is well
/// formed and carries exactly the entries of the node that was split.
proof fn lemma_root_after_split<V>(
    n2: BtreeNode<V>,
    c1: BtreeNode<V>,
    l: BtreeNode<V>,
    r: BtreeNode<V>,
    sk: i32,
    sv: V,
)
    requires
        l.wf(),
        r.wf(),
        l.max_count == n2.max_count,
        r.max_count == n2.max_count,
        n2.max_count >= 2,
        l.height() == r.height(),
        c1.entry_map().dom().contains(sk),
        c1.entry_map()[sk] == sv,
        forall|x: i32| #[trigger]
            l.entry_map().dom().contains(x) ==> x < sk && c1.entry_map().dom().contains(x)
                && c1.entry_map()[x] == l.entry_map()[x],
        forall|x: i32| #[trigger]
            r.entry_map().dom().contains(x) ==> sk < x && c1.entry_map().dom().contains(x)
                && c1.entry_map()[x] == r.entry_map()[x],
        forall|x: i32| #[trigger]
            c1.entry_map().dom().contains(x) ==> l.entry_map().dom().contains(x) || x == sk
                || r.entry_map().dom().contains(x),
        n2.keys@.len() == 1,
        n2.keys@[0] == sk,
        n2.values@.len() == 1,
        n2.values@[0] == sv,
        n2.children@.len() == 2,
        n2.children@[0] == l,
        n2.children@[1] == r,
    ensures
        n2.wf(),
        n2.entry_map() == c1.entry_map(),
        n2.height() == l.height() + 1,
        n2.key_count() == 1,
        (l.occ_bounds() && r.occ_bounds() && l.inner_occ() && r.inner_occ()) ==> n2.inner_occ(),
{
    assert(n2.separated()) by {
        assert forall|j: int, x: i32|
            0 <= j < n2.children@.len() && #[trigger] n2.children@[j].entry_map().dom().contains(x)
            implies (j < n2.key_count() ==> x < n2.keys@[j]) && (0 < j ==> n2.keys@[j - 1] < x) by {
            if j == 0 {
                assert(l.entry_map().dom().contains(x));
            } else {
                assert(r.entry_map().dom().contains(x));
            }
        }
    }
    assert(n2.level()) by {
        assert forall|j: int| 0 <= j < n2.children@.len() implies (#[trigger] n2.children@[j]).height()
            + 1 == n2.height() by {
            assert(n2.children@[0] == l);
        }
    }
    crate::node_map::lemma_seq_wf_from_all(n2.children@, n2.max_count);
    assert(n2.wf());
    assert forall|x: i32| #[trigger] n2.entry_map().dom().contains(x) implies c1.entry_map().dom().contains(
        x,
    ) && n2.entry_map()[x] == c1.entry_map()[x] by {
        n2.lemma_entry_contains(x);
        if n2.keys@.contains(x) {
            assert(x == sk);
            n2.lemma_entry_get_own(0);
        } else {
            let j = choose|j: int|
                0 <= j < n2.children@.len() && #[trigger] n2.children@[j].entry_map().dom().contains(x);
            n2.lemma_entry_get_child(j, x);
            if j == 0 {
                assert(l.entry_map().dom().contains(x));
            } else {
                assert(r.entry_map().dom().contains(x));
            }
        }
    }
    assert forall|x: i32| #[trigger] c1.entry_map().dom().contains(x) implies n2.entry_map().dom().contains(
        x,
    ) by {
        n2.lemma_entry_contains(x);
        if l.entry_map().dom().contains(x) {
            assert(n2.children@[0].entry_map().dom().contains(x));
        } else if r.entry_map().dom().contains(x) {
            assert(n2.children@[1].entry_map().dom().contains(x));
        } else {
            assert(x == sk);
            assert(n2.keys@[0] == x);
        }
    }
    assert(n2.entry_map() =~= c1.entry_map());
    if l.occ_bounds() && r.occ_bounds() && l.inner_occ() && r.inner_occ() {
        crate::node_map::lemma_seq_occ_from_all(n2.children@);
    }
}

impl<V> Btree<V> {
    /// Creates an empty tree whose nodes will hold at most `max_count`
    /// keys.
    pub fn new(max_count: usize) -> (tree: Self)
        requires
            max_count >= 2,
        ensures
            tree@ == Map::<i32, V>::empty(),
            tree.root is None,
            tree.inv(),
            tree.occupied(),
            tree.max_count == max_count,
    {
        Btree { root: None, max_count }
    }
}

impl<V: Copy> Btree<V> {
    /// Looks `target_key` up and returns the stored entry, or nothing when
    /// the tree does not hold the key.
    pub fn search(&self, target_key: i32) -> (r: Option<(i32, V)>)
        requires
            self.inv(),
        ensures
            r == (if self@.dom().contains(target_key) {
                Option::Some((target_key, self@[target_key]))
            } else {
                Option::None::<(i32, V)>
            }),
    {
        match &self.root {
            None => None,
            Some(root) => root.search(target_key),
        }
    }
}

impl<V> Btree<V> {
    /// Stores `value` under `key`, overwriting the old value when the key
    /// is already present.  When the root overflows it is split and the two
    /// halves are wrapped in a new one-key root: the only way the tree
    /// grows in height.
    pub fn insert(&mut self, key: i32, value: V)
        requires
            old(self).inv(),
        ensures
            final(self).inv(),
            final(self)@ == old(self)@.insert(key, value),
            final(self).max_count == old(self).max_count,
            (old(self).occupied() && old(self).max_count % 2 == 1) ==> final(self).occupied(),
            final(self).root is Some,
            match final(self).root {
                Option::Some(r) => r.key_count() < final(self).max_count,
                Option::None => false,
            },
            old(self).height() <= final(self).height(),
            final(self).height() <= old(self).height() + 1,
            final(self).height() == old(self).height() + 1 ==> match final(self).root {
                Option::Some(r) => r.key_count() == 1,
                Option::None => false,
            },
            (old(self).occupied() && final(self).height() == old(self).height() + 1) ==> match old(
                self,
            ).root {
                Option::Some(r) => r.key_count() == old(self).max_count - 1 && !old(
                    self,
                )@.dom().contains(key),
                Option::None => true,
            },
    {
        let ghost t0 = *old(self);
        let max_count = self.max_count;
        let mut root = match self.root.take() {
            Some(r) => r,
            None => BtreeNode::new(max_count),
        };
        proof {
            if t0.root is None {
                assert(root.entry_map() == t0.as_map());
            }
        }
        let ghost r0 = root;
        root.insert(key, value);
        let ghost c1 = root;

        if root.is_full() {
            let ((k, v), (left, right)) = root.split_node();
            let mut keys: Vec<i32> = Vec::new();
            keys.push(k);
            let mut values: Vec<V> = Vec::new();
            values.push(v);
            let mut children: Vec<BtreeNode<V>> = Vec::new();
            children.push(left);
            children.push(right);
            root = BtreeNode::from(keys, values, children, max_count);
            proof {
                lemma_root_after_split(root, c1, left, right, k, v);
                if t0.occupied() && t0.max_count % 2 == 1 {
                    assert(c1.key_count() == c1.max_count);
                    assert(left.key_count() == c1.max_count as int / 2);
                    assert(right.key_count() == c1.max_count - c1.max_count as int / 2 - 1);
                    assert(c1.max_count == 2 * (c1.max_count as int / 2) + 1);
                    assert(left.occ_bounds());
                    assert(right.occ_bounds());
                    assert(c1.inner_occ());
                }
            }
        } else {
            proof {
                assert(root == c1);
                if t0.occupied() && t0.max_count % 2 == 1 {
                    assert(c1.inner_occ());
                    assert(c1.key_count() < c1.max_count);
                }
            }
        }
        self.root = Some(root);
    }

    /// Removes `key`; removing an absent key leaves the tree's content and
    /// height unchanged.  When the root runs out of keys it is dropped: the
    /// only way the tree shrinks in height, and by at most one level.
    ///
    /// Requires the occupancy bounds, which `new` establishes and which
    /// `insert` and `delete` keep for every odd capacity.  A tree of even
    /// capacity loses them at its first split (see `occupied`), after which
    /// this operation's precondition can no longer be met.
    pub fn delete(&mut self, key: i32)
        requires
            old(self).inv(),
            old(self).occupied(),
        ensures
            final(self).inv(),
            final(self)@ == old(self)@.remove(key),
            final(self).max_count == old(self).max_count,
            old(self).max_count % 2 == 1 ==> final(self).occupied(),
            old(self).height() - 1 <= final(self).height(),
            final(self).height() <= old(self).height(),
            !old(self)@.dom().contains(key) ==> final(self).height() == old(self).height(),
    {
        let root_opt = self.root.take();
        match root_opt {
            None => {
                proof {
                    assert(Map::<i32, V>::empty().remove(key) =~= Map::<i32, V>::empty());
                }
            },
            Some(mut root) => {
                root.delete(key);
                if root.is_empty() {
                    proof {
                        assert(root.leaf());
                        assert(root.entry_map() =~= Map::<i32, V>::empty());
                    }
                    self.root = None;
                } else {
                    self.root = Some(root);
                }
            },
        }
    }
}

} // verus!

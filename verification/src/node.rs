use vstd::prelude::*;

use crate::lookup::found_at;
use crate::lookup::lookup_pos;

verus! {

/// A single B-tree node.
///
/// `keys` and `values` are parallel vectors: `values[i]` is stored under
/// `keys[i]`.  `children` is empty for a leaf and holds `keys.len() + 1`
/// subtrees for an internal node.  `max_count` is the key capacity shared
/// by every node of one tree.
pub struct BtreeNode<V> {
    pub keys: Vec<i32>,
    pub values: Vec<V>,
    pub children: Vec<BtreeNode<V>>,
    pub max_count: usize,
}

/// The map that pairs each key of `ks` with the value of `vs` at the same
/// position.  On a repeated key the later position wins; well-formed nodes
/// never repeat a key.
pub open spec fn kv_map<V>(ks: Seq<i32>, vs: Seq<V>) -> Map<i32, V>
    decreases ks.len(),
{
    if ks.len() == 0 || vs.len() == 0 {
        Map::empty()
    } else {
        kv_map(ks.drop_last(), vs.drop_last()).insert(ks.last(), vs.last())
    }
}

/// The union of the entries of a sequence of subtrees.  On a repeated key a
/// later subtree wins; the subtrees of a well-formed node are disjoint.
pub open spec fn seq_union<V>(s: Seq<BtreeNode<V>>) -> Map<i32, V>
    decreases s,
{
    if s.len() == 0 {
        Map::empty()
    } else {
        s[0].entry_map().union_prefer_right(seq_union(s.drop_first()))
    }
}

/// Every node of `s` is well formed and carries the capacity `mc`.
pub open spec fn seq_wf<V>(s: Seq<BtreeNode<V>>, mc: usize) -> bool
    decreases s,
{
    s.len() == 0 || (s[0].wf() && s[0].max_count == mc && seq_wf(s.drop_first(), mc))
}

/// Every node of `s`, and every node below one, holds between `min_count`
/// and `max_count - 1` keys.
pub open spec fn seq_occ<V>(s: Seq<BtreeNode<V>>) -> bool
    decreases s,
{
    s.len() == 0 || (s[0].occ_bounds() && s[0].inner_occ() && seq_occ(s.drop_first()))
}

/// The nodes of `a` and `b` store the same data, position by position:
/// equal keys, values and capacity, and subtrees of the same content.  This
/// is equality of everything a tree stores, indifferent to how the vectors
/// holding it were built.
pub open spec fn seq_same_content<V>(a: Seq<BtreeNode<V>>, b: Seq<BtreeNode<V>>) -> bool
    decreases a,
{
    a.len() == b.len() && (a.len() == 0 || (a[0].same_content(b[0]) && seq_same_content(
        a.drop_first(),
        b.drop_first(),
    )))
}

/// The keys of `s` are strictly ascending.
pub open spec fn sorted_strict(s: Seq<i32>) -> bool {
    forall|i: int, j: int| 0 <= i < j < s.len() ==> s[i] < s[j]
}

impl<V> BtreeNode<V> {
    /// The number of keys stored in this node alone.
    pub open spec fn key_count(self) -> int {
        self.keys@.len() as int
    }

    /// A node without children is a leaf.
    pub open spec fn leaf(self) -> bool {
        self.children@.len() == 0
    }

    /// The least key count allowed in a non-root node at rest.
    pub open spec fn min_spec(self) -> int {
        self.max_count as int / 2
    }

    /// The key-value pairs stored in the subtree rooted at this node.
    pub open spec fn entry_map(self) -> Map<i32, V>
        decreases self,
    {
        seq_union(self.children@).union_prefer_right(kv_map(self.keys@, self.values@))
    }

    /// The number of levels of the subtree rooted here, measured along the
    /// leftmost spine; in a balanced subtree every path has this length.
    pub open spec fn height(self) -> nat
        decreases self,
    {
        if self.leaf() {
            1
        } else {
            1 + self.children@[0].height()
        }
    }

    /// Value alignment: values parallel the keys, and children number one
    /// more than the keys unless the node is a leaf.
    pub open spec fn aligned(self) -> bool {
        &&& self.values@.len() == self.keys@.len()
        &&& (self.leaf() || self.children@.len() == self.key_count() + 1)
    }

    /// Separation: the keys of child `i` lie strictly between `keys[i-1]`
    /// and `keys[i]`.
    pub open spec fn separated(self) -> bool {
        forall|i: int, k: i32|
            0 <= i < self.children@.len() && #[trigger] self.children@[i].entry_map().dom().contains(k)
                ==> (i < self.key_count() ==> k < self.keys@[i]) && (0 < i ==> self.keys@[i - 1] < k)
    }

    /// Balance: each child subtree stands one level below this node.
    pub open spec fn level(self) -> bool {
        forall|i: int|
            0 <= i < self.children@.len() ==> #[trigger] self.children@[i].height() + 1 == self.height()
    }

    /// Structural well-formedness of the subtree rooted here: strictly
    /// ascending keys, separated subtrees, balance, value alignment, and a
    /// shared capacity of at least two.
    pub open spec fn wf(self) -> bool
        decreases self,
    {
        &&& self.aligned()
        &&& sorted_strict(self.keys@)
        &&& self.max_count >= 2
        &&& self.separated()
        &&& self.level()
        &&& seq_wf(self.children@, self.max_count)
    }

    /// This node's own key count lies within the occupancy bounds asked of
    /// a non-root node.
    pub open spec fn occ_bounds(self) -> bool {
        self.min_spec() <= self.key_count() <= self.max_count - 1
    }

    /// Occupancy below this node: every node strictly under this one obeys
    /// `occ_bounds`; nothing is asked of this node itself.
    pub open spec fn inner_occ(self) -> bool
        decreases self,
    {
        seq_occ(self.children@)
    }

    /// The greatest entry of this subtree can be handed out: the rightmost
    /// leaf holds more than `min_count` keys.
    pub open spec fn can_pop_max(self) -> bool
        decreases self,
    {
        if self.leaf() {
            self.key_count() > self.min_spec()
        } else {
            self.children@.last().can_pop_max()
        }
    }

    /// Whether this subtree stores exactly the same data as `other`: equal
    /// keys, values and capacity in this node, and subtrees of the same
    /// content in the same positions.
    pub open spec fn same_content(self, other: Self) -> bool
        decreases self,
    {
        &&& self.keys@ == other.keys@
        &&& self.values@ == other.values@
        &&& self.max_count == other.max_count
        &&& seq_same_content(self.children@, other.children@)
    }

    /// The least entry of this subtree can be handed out: the leftmost leaf
    /// holds more than `min_count` keys.
    pub open spec fn can_pop_min(self) -> bool
        decreases self,
    {
        if self.leaf() {
            self.key_count() > self.min_spec()
        } else {
            self.children@[0].can_pop_min()
        }
    }
}

/// How a key found in an internal node is repaired after its removal:
/// overwrite it with a harvested neighbour entry, merge the two subtrees
/// beside it, or collapse this node into that merge when it holds no other
/// key.
pub enum DeleteFromSelfOperation<V> {
    Replace((i32, V)),
    Merge,
    MergeToSelf,
}

/// How a key that is absent from this node is deleted through a subtree:
/// not at all, by plain descent, by rotating an entry in from a sibling, by
/// merging the subtree into a sibling, or by collapsing this node when it
/// holds no other key.
pub enum DeleteFromChildOperation {
    NoOp,
    Delegate,
    RotateLeft,
    RotateRight,
    MergeToLeft,
    MergeToRight,
    MergeToSelf,
}

impl<V> BtreeNode<V> {
    /// The repair chosen when `k` is absent from this node itself: the row
    /// of the deletion table that fits the shape around the subtree at `k`'s
    /// lookup position.  A subtree that can spare a key is descended into as
    /// it stands; one at `min_count` that holds the key is first
    /// strengthened, by borrowing through the separator beside it when a
    /// sibling can donate, else by merging with a sibling around that
    /// separator (collapsing this node into the merge when this was its
    /// last key).
    pub open spec fn child_op(self, k: i32) -> DeleteFromChildOperation {
        let i = lookup_pos(self.keys@, k);
        let cl = self.children@.len() as int;
        if self.leaf() {
            DeleteFromChildOperation::NoOp
        } else if self.children@[i].key_count() > self.children@[i].min_spec() {
            DeleteFromChildOperation::Delegate
        } else if !self.children@[i].entry_map().dom().contains(k) {
            DeleteFromChildOperation::NoOp
        } else if self.children@[i].leaf() && i < cl - 1 && self.children@[i + 1].key_count()
            > self.children@[i + 1].min_spec() {
            DeleteFromChildOperation::RotateLeft
        } else if self.children@[i].leaf() && 0 < i && self.children@[i - 1].key_count()
            > self.children@[i - 1].min_spec() {
            DeleteFromChildOperation::RotateRight
        } else if self.key_count() != 1 && i < cl - 1 {
            DeleteFromChildOperation::MergeToRight
        } else if self.key_count() != 1 {
            DeleteFromChildOperation::MergeToLeft
        } else {
            DeleteFromChildOperation::MergeToSelf
        }
    }

    /// Whether deleting `k` here collapses this node into the merge of its
    /// two subtrees, losing one level of depth.  Only a one-key node whose
    /// two subtrees cannot spare an entry collapses; on a tree kept to the
    /// occupancy bounds that is only ever the root.
    pub open spec fn del_collapses(self, k: i32) -> bool {
        &&& !self.leaf()
        &&& self.key_count() == 1
        &&& if found_at(self.keys@, k) {
            !self.children@[0].can_pop_max() && !self.children@[1].can_pop_min()
        } else {
            self.child_op(k) is MergeToSelf
        }
    }
}

/// The keys and values of a node, detached from its children.
#[derive(Clone)]
pub struct BtreeNodeEntry<V> {
    pub keys: Vec<i32>,
    pub values: Vec<V>,
}

impl<V> BtreeNode<V> {
    /// An empty leaf with the given capacity.
    pub fn new(max_count: usize) -> (node: Self)
        ensures
            node == (BtreeNode {
                keys: node.keys,
                values: node.values,
                children: node.children,
                max_count,
            }),
            node.keys@.len() == 0,
            node.values@.len() == 0,
            node.children@.len() == 0,
            node.max_count == max_count,
            max_count >= 2 ==> node.wf(),
            node.entry_map() == Map::<i32, V>::empty(),
            node.height() == 1,
            node.inner_occ(),
    {
        let node = BtreeNode { keys: Vec::new(), values: Vec::new(), children: Vec::new(), max_count };
        proof {
            assert(node.entry_map() =~= Map::<i32, V>::empty());
        }
        node
    }

    /// A node assembled from its four parts, exactly as given.
    pub fn from(keys: Vec<i32>, values: Vec<V>, children: Vec<BtreeNode<V>>, max_count: usize) -> (node: Self)
        ensures
            node.keys == keys,
            node.values == values,
            node.children == children,
            node.max_count == max_count,
    {
        BtreeNode { keys, values, children, max_count }
    }

    /// Whether this node is a leaf.
    pub fn is_leaf(&self) -> (r: bool)
        ensures
            r == self.leaf(),
    {
        self.children.is_empty()
    }

    /// The number of keys stored in this node alone.
    pub fn current_count(&self) -> (r: usize)
        ensures
            r as int == self.key_count(),
    {
        self.keys.len()
    }

    /// The least key count allowed in a non-root node at rest.
    pub fn min_count(&self) -> (r: usize)
        ensures
            r as int == self.min_spec(),
    {
        self.max_count / 2
    }

    /// Whether this node holds no key at all.
    pub fn is_empty(&self) -> (r: bool)
        ensures
            r == (self.key_count() == 0),
    {
        self.keys.is_empty()
    }

    /// Whether this node has reached its capacity and must be split.
    pub fn is_full(&self) -> (r: bool)
        ensures
            r == (self.key_count() >= self.max_count),
    {
        self.keys.len() >= self.max_count
    }

    /// Whether this node can give an entry away and stay at `min_count`.
    pub fn is_more_than_min_count(&self) -> (r: bool)
        ensures
            r == (self.key_count() > self.min_spec()),
    {
        self.current_count() > self.min_count()
    }

    /// Whether `key` stands in this node itself (children are not searched).
    pub fn has_key(&self, key: i32) -> (r: bool)
        ensures
            r == self.keys@.contains(key),
    {
        let n = self.keys.len();
        let mut i: usize = 0;
        while i < n
            invariant
                0 <= i <= n,
                n == self.keys@.len(),
                forall|j: int| 0 <= j < i ==> self.keys@[j] != key,
            decreases n - i,
        {
            if self.keys[i] == key {
                return true;
            }
            i += 1;
        }
        false
    }

    /// Appends an entry after the last key and value.
    pub fn push_kv(&mut self, pair: (i32, V))
        ensures
            final(self).keys@ == old(self).keys@.push(pair.0),
            final(self).values@ == old(self).values@.push(pair.1),
            final(self).children == old(self).children,
            final(self).max_count == old(self).max_count,
    {
        let (key, value) = pair;
        self.keys.push(key);
        self.values.push(value);
    }

    /// Places an entry at `index`, shifting the later entries right.
    pub fn insert_entry(&mut self, index: usize, pair: (i32, V))
        requires
            index <= old(self).keys@.len(),
            index <= old(self).values@.len(),
        ensures
            final(self).keys@ == old(self).keys@.insert(index as int, pair.0),
            final(self).values@ == old(self).values@.insert(index as int, pair.1),
            final(self).children == old(self).children,
            final(self).max_count == old(self).max_count,
    {
        let (key, value) = pair;
        self.keys.insert(index, key);
        self.values.insert(index, value);
    }

    /// Removes and returns the first entry.
    pub fn remove_head_entry(&mut self) -> (entry: (i32, V))
        requires
            old(self).keys@.len() >= 1,
            old(self).values@.len() >= 1,
        ensures
            entry.0 == old(self).keys@[0],
            entry.1 == old(self).values@[0],
            final(self).keys@ == old(self).keys@.remove(0),
            final(self).values@ == old(self).values@.remove(0),
            final(self).children == old(self).children,
            final(self).max_count == old(self).max_count,
    {
        let key = self.keys.remove(0);
        let value = self.values.remove(0);
        (key, value)
    }

    /// Removes and returns the last entry.
    pub fn remove_tail_entry(&mut self) -> (entry: (i32, V))
        requires
            old(self).keys@.len() >= 1,
            old(self).values@.len() >= 1,
        ensures
            entry.0 == old(self).keys@.last(),
            entry.1 == old(self).values@.last(),
            final(self).keys@ == old(self).keys@.drop_last(),
            final(self).values@ == old(self).values@.drop_last(),
            final(self).children == old(self).children,
            final(self).max_count == old(self).max_count,
    {
        let key = self.keys.remove(self.keys.len() - 1);
        let value = self.values.remove(self.values.len() - 1);
        proof {
            assert(final(self).keys@ =~= old(self).keys@.drop_last());
            assert(final(self).values@ =~= old(self).values@.drop_last());
        }
        (key, value)
    }

    /// Gives this node's keys and values away, dropping the children.
    pub fn entry(self) -> (e: BtreeNodeEntry<V>)
        ensures
            e.keys == self.keys,
            e.values == self.values,
    {
        BtreeNodeEntry { keys: self.keys, values: self.values }
    }

    /// The plain concatenation of two nodes, this node's entries first.  The
    /// caller answers for the concatenation respecting order and separation.
    pub fn merge(self, other: Self) -> (merged: Self)
        ensures
            merged.keys@ == self.keys@ + other.keys@,
            merged.values@ == self.values@ + other.values@,
            merged.children@ == self.children@ + other.children@,
            merged.max_count == self.max_count,
    {
        let mut keys = self.keys;
        let mut other_keys = other.keys;
        keys.append(&mut other_keys);
        let mut values = self.values;
        let mut other_values = other.values;
        values.append(&mut other_values);
        let mut children = self.children;
        let mut other_children = other.children;
        children.append(&mut other_children);
        let max_count = self.max_count;
        BtreeNode { keys, values, children, max_count }
    }
}

impl<V> BtreeNodeEntry<V> {
    /// Removes and returns the first entry, or nothing when none is left.
    pub fn next(&mut self) -> (r: Option<(i32, V)>)
        requires
            old(self).values@.len() == old(self).keys@.len(),
        ensures
            final(self).values@.len() == final(self).keys@.len(),
            match r {
                Option::Some(p) => old(self).keys@.len() >= 1 && p.0 == old(self).keys@[0]
                    && p.1 == old(self).values@[0] && final(self).keys@ == old(self).keys@.remove(0)
                    && final(self).values@ == old(self).values@.remove(0),
                Option::None => old(self).keys@.len() == 0 && final(self).keys@ == old(self).keys@
                    && final(self).values@ == old(self).values@,
            },
    {
        if self.keys.is_empty() {
            return None;
        }
        Some((self.keys.remove(0), self.values.remove(0)))
    }

    /// Removes and returns the last entry, or nothing when none is left.
    pub fn next_back(&mut self) -> (r: Option<(i32, V)>)
        requires
            old(self).values@.len() == old(self).keys@.len(),
        ensures
            final(self).values@.len() == final(self).keys@.len(),
            match r {
                Option::Some(p) => old(self).keys@.len() >= 1 && p.0 == old(self).keys@.last()
                    && p.1 == old(self).values@.last() && final(self).keys@ == old(self).keys@.drop_last()
                    && final(self).values@ == old(self).values@.drop_last(),
                Option::None => old(self).keys@.len() == 0 && final(self).keys@ == old(self).keys@
                    && final(self).values@ == old(self).values@,
            },
    {
        let key = match self.keys.pop() {
            Option::Some(k) => k,
            Option::None => {
                return None;
            },
        };
        let value = match self.values.pop() {
            Option::Some(v) => v,
            Option::None => {
                return None;
            },
        };
        Some((key, value))
    }
}

} // verus!

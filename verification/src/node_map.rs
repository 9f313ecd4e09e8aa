use vstd::prelude::*;

use crate::lookup::found_at;
use crate::lookup::lemma_lookup_not_found;
use crate::lookup::lemma_lookup_pos_props;
use crate::lookup::lookup_pos;
use crate::node::kv_map;
use crate::node::seq_occ;
use crate::node::seq_same_content;
use crate::node::seq_union;
use crate::node::seq_wf;
use crate::node::BtreeNode;

verus! {

/// A key stands in `kv_map` exactly when it stands among the keys.
pub proof fn lemma_kv_contains<V>(ks: Seq<i32>, vs: Seq<V>, k: i32)
    requires
        ks.len() == vs.len(),
    ensures
        kv_map(ks, vs).dom().contains(k) <==> ks.contains(k),
    decreases ks.len(),
{
    if ks.len() > 0 {
        lemma_kv_contains(ks.drop_last(), vs.drop_last(), k);
        if ks.contains(k) {
            let j = choose|j: int| 0 <= j < ks.len() && ks[j] == k;
            if j < ks.len() - 1 {
                assert(ks.drop_last()[j] == k);
            }
        }
        if ks.drop_last().contains(k) {
            let j = choose|j: int| 0 <= j < ks.drop_last().len() && ks.drop_last()[j] == k;
            assert(ks[j] == k);
        }
    }
}

/// When no later position repeats the key at `i`, `kv_map` sends that key to
/// the value at `i`.
pub proof fn lemma_kv_get<V>(ks: Seq<i32>, vs: Seq<V>, i: int)
    requires
        ks.len() == vs.len(),
        0 <= i < ks.len(),
        forall|j: int| i < j < ks.len() ==> ks[j] != ks[i],
    ensures
        kv_map(ks, vs).dom().contains(ks[i]),
        kv_map(ks, vs)[ks[i]] == vs[i],
    decreases ks.len(),
{
    if i == ks.len() - 1 {
    } else {
        assert(ks.drop_last()[i] == ks[i]);
        lemma_kv_get(ks.drop_last(), vs.drop_last(), i);
        assert(ks.last() != ks[i]);
    }
}

/// A key stands in a union of subtree maps exactly when one subtree holds it.
pub proof fn lemma_seq_union_contains<V>(s: Seq<BtreeNode<V>>, k: i32)
    ensures
        seq_union(s).dom().contains(k) <==> exists|j: int|
            0 <= j < s.len() && #[trigger] s[j].entry_map().dom().contains(k),
    decreases s.len(),
{
    if s.len() > 0 {
        lemma_seq_union_contains(s.drop_first(), k);
        if seq_union(s).dom().contains(k) && !s[0].entry_map().dom().contains(k) {
            let j = choose|j: int|
                0 <= j < s.drop_first().len() && #[trigger] s.drop_first()[j].entry_map().dom().contains(
                    k,
                );
            assert(s[j + 1].entry_map().dom().contains(k));
        }
        if exists|j: int| 0 <= j < s.len() && #[trigger] s[j].entry_map().dom().contains(k) {
            let j = choose|j: int| 0 <= j < s.len() && #[trigger] s[j].entry_map().dom().contains(k);
            if j > 0 {
                assert(s.drop_first()[j - 1].entry_map().dom().contains(k));
            }
        }
    }
}

/// When exactly one subtree of `s` holds `k`, the union sends `k` to that
/// subtree's value.
pub proof fn lemma_seq_union_get<V>(s: Seq<BtreeNode<V>>, j: int, k: i32)
    requires
        0 <= j < s.len(),
        s[j].entry_map().dom().contains(k),
        forall|j2: int| 0 <= j2 < s.len() && j2 != j ==> !(#[trigger] s[j2].entry_map().dom().contains(k)),
    ensures
        seq_union(s).dom().contains(k),
        seq_union(s)[k] == s[j].entry_map()[k],
    decreases s.len(),
{
    if j == 0 {
        lemma_seq_union_contains(s.drop_first(), k);
        assert forall|j2: int|
            0 <= j2 < s.drop_first().len() implies !(#[trigger] s.drop_first()[j2].entry_map().dom().contains(
            k,
        )) by {
            assert(s.drop_first()[j2] == s[j2 + 1]);
        }
        assert(!seq_union(s.drop_first()).dom().contains(k));
    } else {
        assert(s.drop_first()[j - 1] == s[j]);
        assert forall|j2: int|
            0 <= j2 < s.drop_first().len() && j2 != j - 1 implies !(
        #[trigger] s.drop_first()[j2].entry_map().dom().contains(k)) by {
            assert(s.drop_first()[j2] == s[j2 + 1]);
        }
        lemma_seq_union_get(s.drop_first(), j - 1, k);
    }
}

/// Reads one position out of `seq_wf`.
pub proof fn lemma_seq_wf_index<V>(s: Seq<BtreeNode<V>>, mc: usize, j: int)
    requires
        seq_wf(s, mc),
        0 <= j < s.len(),
    ensures
        s[j].wf(),
        s[j].max_count == mc,
    decreases s.len(),
{
    if j > 0 {
        lemma_seq_wf_index(s.drop_first(), mc, j - 1);
        assert(s.drop_first()[j - 1] == s[j]);
    }
}

/// Builds `seq_wf` from its meaning at every position.
pub proof fn lemma_seq_wf_from_all<V>(s: Seq<BtreeNode<V>>, mc: usize)
    requires
        forall|j: int| 0 <= j < s.len() ==> (#[trigger] s[j]).wf() && s[j].max_count == mc,
    ensures
        seq_wf(s, mc),
    decreases s.len(),
{
    if s.len() > 0 {
        assert forall|j: int|
            0 <= j < s.drop_first().len() implies (#[trigger] s.drop_first()[j]).wf()
            && s.drop_first()[j].max_count == mc by {
            assert(s.drop_first()[j] == s[j + 1]);
        }
        lemma_seq_wf_from_all(s.drop_first(), mc);
    }
}

/// Reads one position out of `seq_occ`.
pub proof fn lemma_seq_occ_index<V>(s: Seq<BtreeNode<V>>, j: int)
    requires
        seq_occ(s),
        0 <= j < s.len(),
    ensures
        s[j].occ_bounds(),
        s[j].inner_occ(),
    decreases s.len(),
{
    if j > 0 {
        lemma_seq_occ_index(s.drop_first(), j - 1);
        assert(s.drop_first()[j - 1] == s[j]);
    }
}

/// Builds `seq_occ` from its meaning at every position.
pub proof fn lemma_seq_occ_from_all<V>(s: Seq<BtreeNode<V>>)
    requires
        forall|j: int| 0 <= j < s.len() ==> (#[trigger] s[j]).occ_bounds() && s[j].inner_occ(),
    ensures
        seq_occ(s),
    decreases s.len(),
{
    if s.len() > 0 {
        assert forall|j: int|
            0 <= j < s.drop_first().len() implies (#[trigger] s.drop_first()[j]).occ_bounds()
            && s.drop_first()[j].inner_occ() by {
            assert(s.drop_first()[j] == s[j + 1]);
        }
        lemma_seq_occ_from_all(s.drop_first());
    }
}

/// Every subtree stores the same data as itself.
pub proof fn lemma_same_content_refl<V>(n: BtreeNode<V>)
    ensures
        n.same_content(n),
    decreases n,
{
    lemma_seq_same_content_refl(n.children@);
}

/// Every run of subtrees stores the same data as itself.
pub proof fn lemma_seq_same_content_refl<V>(s: Seq<BtreeNode<V>>)
    ensures
        seq_same_content(s, s),
    decreases s,
{
    if s.len() > 0 {
        lemma_same_content_refl(s[0]);
        lemma_seq_same_content_refl(s.drop_first());
    }
}

/// Two runs of subtrees that agree position by position store the same data.
pub proof fn lemma_seq_same_content_from_all<V>(a: Seq<BtreeNode<V>>, b: Seq<BtreeNode<V>>)
    requires
        a.len() == b.len(),
        forall|j: int| 0 <= j < a.len() ==> (#[trigger] a[j]).same_content(b[j]),
    ensures
        seq_same_content(a, b),
    decreases a,
{
    if a.len() > 0 {
        assert forall|j: int|
            0 <= j < a.drop_first().len() implies (#[trigger] a.drop_first()[j]).same_content(
            b.drop_first()[j],
        ) by {
            assert(a.drop_first()[j] == a[j + 1]);
            assert(b.drop_first()[j] == b[j + 1]);
        }
        lemma_seq_same_content_from_all(a.drop_first(), b.drop_first());
    }
}

/// A node whose entries equal another's, and whose subtrees equal the
/// other's except for one of the same content, stores the same data.
pub proof fn lemma_same_content_assemble<V>(a: BtreeNode<V>, b: BtreeNode<V>, i: int)
    requires
        a.keys@ == b.keys@,
        a.values@ == b.values@,
        a.max_count == b.max_count,
        a.children@.len() == b.children@.len(),
        0 <= i < a.children@.len(),
        forall|j: int| 0 <= j < a.children@.len() && j != i ==> a.children@[j] == b.children@[j],
        a.children@[i].same_content(b.children@[i]),
    ensures
        a.same_content(b),
{
    assert forall|j: int|
        0 <= j < a.children@.len() implies (#[trigger] a.children@[j]).same_content(
        b.children@[j],
    ) by {
        if j != i {
            lemma_same_content_refl(a.children@[j]);
        }
    }
    lemma_seq_same_content_from_all(a.children@, b.children@);
}

/// Every subtree has at least one level.
pub proof fn lemma_height_pos<V>(n: BtreeNode<V>)
    ensures
        n.height() >= 1,
    decreases n,
{
}

/// A node of height one is a leaf.
pub proof fn lemma_height_one_leaf<V>(n: BtreeNode<V>)
    requires
        n.height() == 1,
    ensures
        n.leaf(),
{
    if !n.leaf() {
        lemma_height_pos(n.children@[0]);
    }
}

/// Taking an element out and putting another back at the same position is
/// an update.
pub proof fn lemma_remove_insert_is_update<T>(s: Seq<T>, i: int, c: T)
    requires
        0 <= i < s.len(),
    ensures
        s.remove(i).insert(i, c) == s.update(i, c),
{
    assert(s.remove(i).insert(i, c) =~= s.update(i, c));
}

impl<V> BtreeNode<V> {
    /// In a well-formed node, no key is held by two subtrees, nor by the node
    /// and a subtree at once.
    pub proof fn lemma_unique_holder(self, k: i32)
        requires
            self.wf(),
        ensures
            forall|j1: int, j2: int|
                0 <= j1 < j2 < self.children@.len() && #[trigger] self.children@[j1].entry_map().dom().contains(
                    k,
                ) ==> !(#[trigger] self.children@[j2].entry_map().dom().contains(k)),
            forall|j: int|
                0 <= j < self.children@.len() && #[trigger] self.children@[j].entry_map().dom().contains(k)
                    ==> !self.keys@.contains(k),
    {
        assert forall|j1: int, j2: int|
            0 <= j1 < j2 < self.children@.len() && #[trigger] self.children@[j1].entry_map().dom().contains(
                k,
            ) implies !(#[trigger] self.children@[j2].entry_map().dom().contains(k)) by {
            if self.children@[j2].entry_map().dom().contains(k) {
                assert(j1 < self.key_count());
                assert(k < self.keys@[j1]);
                assert(self.keys@[j2 - 1] < k);
                if j1 < j2 - 1 {
                    assert(self.keys@[j1] < self.keys@[j2 - 1]);
                }
            }
        }
        assert forall|j: int|
            0 <= j < self.children@.len() && #[trigger] self.children@[j].entry_map().dom().contains(k)
            implies !self.keys@.contains(k) by {
            if self.keys@.contains(k) {
                let m = choose|m: int| 0 <= m < self.keys@.len() && self.keys@[m] == k;
                if m >= j {
                    assert(j < self.key_count());
                    assert(k < self.keys@[j]);
                    if j < m {
                        assert(self.keys@[j] < self.keys@[m]);
                    }
                } else {
                    assert(self.keys@[j - 1] < k);
                    if m < j - 1 {
                        assert(self.keys@[m] < self.keys@[j - 1]);
                    }
                }
            }
        }
    }

    /// The entry stored at position `i` of a well-formed node is what the
    /// subtree map returns for its key.
    pub proof fn lemma_entry_get_own(self, i: int)
        requires
            self.wf(),
            0 <= i < self.key_count(),
        ensures
            self.entry_map().dom().contains(self.keys@[i]),
            self.entry_map()[self.keys@[i]] == self.values@[i],
    {
        assert forall|j: int| i < j < self.keys@.len() implies self.keys@[j] != self.keys@[i] by {
            assert(self.keys@[i] < self.keys@[j]);
        }
        lemma_kv_get(self.keys@, self.values@, i);
    }

    /// A key held by subtree `j` of a well-formed node is in the node's map,
    /// with the subtree's value, and is not one of the node's own keys.
    pub proof fn lemma_entry_get_child(self, j: int, k: i32)
        requires
            self.wf(),
            0 <= j < self.children@.len(),
            self.children@[j].entry_map().dom().contains(k),
        ensures
            self.entry_map().dom().contains(k),
            self.entry_map()[k] == self.children@[j].entry_map()[k],
            !self.keys@.contains(k),
    {
        self.lemma_unique_holder(k);
        lemma_kv_contains(self.keys@, self.values@, k);
        lemma_seq_union_get(self.children@, j, k);
    }

    /// A key is in a well-formed node's map exactly when the node or one of
    /// its subtrees holds it.
    pub proof fn lemma_entry_contains(self, k: i32)
        requires
            self.wf(),
        ensures
            self.entry_map().dom().contains(k) <==> (self.keys@.contains(k) || exists|j: int|
                0 <= j < self.children@.len() && #[trigger] self.children@[j].entry_map().dom().contains(
                    k,
                )),
    {
        lemma_kv_contains(self.keys@, self.values@, k);
        lemma_seq_union_contains(self.children@, k);
    }

    /// How a lookup position routes a key through a well-formed node: the key
    /// stands at that position, or in the subtree at that position, or
    /// nowhere in this subtree.
    pub proof fn lemma_route(self, k: i32)
        requires
            self.wf(),
        ensures
            found_at(self.keys@, k) ==> self.entry_map().dom().contains(k)
                && self.entry_map()[k] == self.values@[lookup_pos(self.keys@, k)],
            !found_at(self.keys@, k) ==> !self.keys@.contains(k) && forall|j: int|
                0 <= j < self.children@.len() && j != lookup_pos(self.keys@, k)
                    ==> !(#[trigger] self.children@[j].entry_map().dom().contains(k)),
            !found_at(self.keys@, k) && self.leaf() ==> !self.entry_map().dom().contains(k),
            !found_at(self.keys@, k) && !self.leaf() ==> 0 <= lookup_pos(self.keys@, k)
                < self.children@.len() && (self.entry_map().dom().contains(k)
                <==> self.children@[lookup_pos(self.keys@, k)].entry_map().dom().contains(k))
                && (self.entry_map().dom().contains(k) ==> self.entry_map()[k]
                == self.children@[lookup_pos(self.keys@, k)].entry_map()[k]),
    {
        let p = lookup_pos(self.keys@, k);
        lemma_lookup_pos_props(self.keys@, k);
        if found_at(self.keys@, k) {
            self.lemma_entry_get_own(p);
        } else {
            lemma_lookup_not_found(self.keys@, k);
            assert forall|j: int|
                0 <= j < self.children@.len() && j != p implies !(
            #[trigger] self.children@[j].entry_map().dom().contains(k)) by {
                if self.children@[j].entry_map().dom().contains(k) {
                    if j < p {
                        assert(self.keys@[j] < k);
                        assert(j < self.key_count());
                        assert(k < self.keys@[j]);
                    } else {
                        assert(p < self.keys@.len());
                        assert(k <= self.keys@[p]);
                        assert(self.keys@[p] != k);
                        assert(self.keys@[j - 1] < k);
                        if p < j - 1 {
                            assert(self.keys@[p] < self.keys@[j - 1]);
                        }
                    }
                }
            }
            self.lemma_entry_contains(k);
            if !self.leaf() {
                if self.children@[p].entry_map().dom().contains(k) {
                    self.lemma_entry_get_child(p, k);
                }
            }
        }
    }
}

} // verus!

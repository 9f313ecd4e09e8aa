use vstd::prelude::*;

use crate::tree::Btree;

verus! {

/// One step of the reference ordered map: what a tree operation must do to
/// the abstract model.
pub enum MapOp<V> {
    Insert(i32, V),
    Delete(i32),
}

/// The reference ordered map after one operation.
pub open spec fn apply_op<V>(m: Map<i32, V>, op: MapOp<V>) -> Map<i32, V> {
    match op {
        MapOp::Insert(k, v) => m.insert(k, v),
        MapOp::Delete(k) => m.remove(k),
    }
}

/// The reference ordered map after a whole trace of operations.
pub open spec fn apply_trace<V>(m: Map<i32, V>, ops: Seq<MapOp<V>>) -> Map<i32, V>
    decreases ops.len(),
{
    if ops.len() == 0 {
        m
    } else {
        apply_trace(apply_op(m, ops[0]), ops.drop_first())
    }
}

/// A trace extended by one operation ends where that operation leads.
pub proof fn lemma_apply_trace_push<V>(m: Map<i32, V>, ops: Seq<MapOp<V>>, op: MapOp<V>)
    ensures
        apply_trace(m, ops.push(op)) == apply_op(apply_trace(m, ops), op),
    decreases ops.len(),
{
    if ops.len() == 0 {
        assert(ops.push(op)[0] == op);
        assert(ops.push(op).drop_first() =~= Seq::<MapOp<V>>::empty());
        assert(apply_trace(m, ops.push(op)) == apply_trace(
            apply_op(m, op),
            Seq::<MapOp<V>>::empty(),
        ));
        assert(apply_trace(m, ops) == m);
    } else {
        assert(ops.push(op)[0] == ops[0]);
        assert(ops.push(op).drop_first() =~= ops.drop_first().push(op));
        lemma_apply_trace_push(apply_op(m, ops[0]), ops.drop_first(), op);
        assert(apply_trace(m, ops.push(op)) == apply_trace(
            apply_op(m, ops[0]),
            ops.drop_first().push(op),
        ));
        assert(apply_trace(m, ops) == apply_trace(apply_op(m, ops[0]), ops.drop_first()));
    }
}

/// Insert then search: after `insert(key, value)`, whose contract makes the
/// tree's view `t@.insert(key, value)`, a search for `key` — which by
/// `search`'s contract returns the stored pair exactly when the view holds
/// the key — finds `(key, value)`.
pub proof fn law_insert_search<V>(t1: Btree<V>, t2: Btree<V>, key: i32, value: V)
    requires
        t1.inv(),
        t2@ == t1@.insert(key, value),
    ensures
        t2@.dom().contains(key),
        t2@[key] == value,
{
}

/// Insert overwrite: storing under the same key twice leaves the second
/// value, and the second insert changes the set of stored keys not at all.
pub proof fn law_insert_overwrite<V>(t: Btree<V>, key: i32, v1: V, v2: V)
    requires
        t.inv(),
    ensures
        t@.insert(key, v1).insert(key, v2)[key] == v2,
        t@.insert(key, v1).insert(key, v2).dom() == t@.insert(key, v1).dom(),
        t@.insert(key, v1).insert(key, v2) == t@.insert(key, v2),
{
    assert(t@.insert(key, v1).insert(key, v2).dom() =~= t@.insert(key, v1).dom());
    assert(t@.insert(key, v1).insert(key, v2) =~= t@.insert(key, v2));
}

/// Delete then search: after `delete(key)`, whose contract makes the tree's
/// view `t@.remove(key)`, a search for `key` finds nothing.
pub proof fn law_delete_search<V>(t: Btree<V>, key: i32)
    requires
        t.inv(),
    ensures
        !t@.remove(key).dom().contains(key),
{
}

/// Delete is idempotent: deleting the same key twice has the effect of
/// deleting it once.
pub proof fn law_delete_idempotent<V>(t: Btree<V>, key: i32)
    requires
        t.inv(),
    ensures
        t@.remove(key).remove(key) == t@.remove(key),
{
    assert(t@.remove(key).remove(key) =~= t@.remove(key));
}

/// Model equivalence: a tree whose view tracks a trace of the reference
/// ordered map still tracks it after one more insert or delete.  Together
/// with `Btree::new` (empty view), `Btree::insert` (view becomes
/// `Map::insert`), `Btree::delete` (view becomes `Map::remove`) and
/// `Btree::search` (returns exactly the view's entry), the pairs a search
/// can recover from the tree after any finite trace are those of the
/// reference map.
pub proof fn law_model_equivalence<V>(t1: Btree<V>, t2: Btree<V>, ops: Seq<MapOp<V>>, op: MapOp<V>)
    requires
        t1@ == apply_trace(Map::<i32, V>::empty(), ops),
        t2@ == apply_op(t1@, op),
    ensures
        t2@ == apply_trace(Map::<i32, V>::empty(), ops.push(op)),
{
    lemma_apply_trace_push(Map::<i32, V>::empty(), ops, op);
}

} // verus!

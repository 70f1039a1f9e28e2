//! Laws of the map model that the engine's contracts step: `store`,
//! `delete` and `load` are specified against a `Map<u64, V>` view, and
//! these lemmas pin down what any single-threaded run of them observes.

use vstd::prelude::*;

verus! {

/// One mutating operation on the map.
pub enum MapOp<V> {
    Store(u64, V),
    Delete(u64),
}

/// The key an operation touches.
pub open spec fn op_key<V>(op: MapOp<V>) -> u64 {
    match op {
        MapOp::Store(k, _) => k,
        MapOp::Delete(k) => k,
    }
}

/// The model after one operation: exactly how `store` and `delete` step the
/// view in their contracts.
pub open spec fn apply_op<V>(m: Map<u64, V>, op: MapOp<V>) -> Map<u64, V> {
    match op {
        MapOp::Store(k, v) => m.insert(k, v),
        MapOp::Delete(k) => m.remove(k),
    }
}

/// The model after a sequence of operations.
pub open spec fn apply_ops<V>(m: Map<u64, V>, ops: Seq<MapOp<V>>) -> Map<u64, V>
    decreases ops.len(),
{
    if ops.len() == 0 {
        m
    } else {
        apply_op(apply_ops(m, ops.drop_last()), ops.last())
    }
}

/// The most recent operation of a sequence that touches key `k`, if any.
pub open spec fn last_op_on<V>(ops: Seq<MapOp<V>>, k: u64) -> Option<MapOp<V>>
    decreases ops.len(),
{
    if ops.len() == 0 {
        None
    } else if op_key(ops.last()) == k {
        Some(ops.last())
    } else {
        last_op_on(ops.drop_last(), k)
    }
}

/// Sequential semantics per key: after any sequence of stores and deletes,
/// a load of `k` observes the value of the most recent store of `k` not
/// followed by a delete of `k`; it observes nothing after a delete of `k`
/// with no later store; and it observes the starting contents if the
/// sequence never touched `k`. Since `store`, `delete` and `load` step and
/// read the engine's view by exactly these operations, this pins down every
/// load in a single-threaded run.
pub proof fn lemma_sequential_semantics<V>(m: Map<u64, V>, ops: Seq<MapOp<V>>, k: u64)
    ensures
        match last_op_on(ops, k) {
            Some(op) => match op {
                MapOp::Store(_, v) => apply_ops(m, ops).contains_key(k) && apply_ops(m, ops)[k]
                    == v,
                MapOp::Delete(_) => !apply_ops(m, ops).contains_key(k),
            },
            None => apply_ops(m, ops).contains_key(k) == m.contains_key(k) && (m.contains_key(k)
                ==> apply_ops(m, ops)[k] == m[k]),
        },
    decreases ops.len(),
{
    if ops.len() > 0 {
        lemma_sequential_semantics(m, ops.drop_last(), k);
    }
}

/// Deleting a key and then storing it again always revives it: the next
/// load observes the new value; the write is never dropped.
pub proof fn lemma_delete_then_store<V>(m: Map<u64, V>, k: u64, v: V)
    ensures
        m.remove(k).insert(k, v).contains_key(k),
        m.remove(k).insert(k, v)[k] == v,
{
}

} // verus!

//! The root set of the collector.
use vstd::prelude::*;
use crate::value::Value;
use crate::heap::PartitionedHeap;
use crate::remembered_set::RememberedSet;

verus! {

/// The roots: the fields of the mutable boxes in the static segment, and
/// the cell that holds the continuation table.
pub struct Roots {
    pub static_roots: Vec<Value>,
    pub continuation_table: Value,
}

/// Holds of the values that point to objects of `heap`.
pub open spec fn points_into(heap: PartitionedHeap) -> spec_fn(Value) -> bool {
    |v: Value| heap.is_heap_pointer(v)
}

/// The values that root visiting yields: the static roots that point into
/// the dynamic heap, then the continuation table if it does, then the
/// entries of the remembered set.
pub open spec fn root_values(
    heap: PartitionedHeap,
    static_roots: Seq<Value>,
    continuation_table: Value,
    remembered: Seq<Value>,
) -> Seq<Value> {
    static_roots.filter(points_into(heap)) + (if heap.is_heap_pointer(continuation_table) {
        seq![continuation_table]
    } else {
        Seq::empty()
    }) + remembered
}

/// The entries of an optional remembered set.
pub open spec fn remembered_values(remembered_set: Option<&RememberedSet>) -> Seq<Value> {
    match remembered_set {
        Some(set) => set.values(),
        None => Seq::empty(),
    }
}

/// Enumerate the roots of the dynamic heap, with an optional remembered set.
pub fn visit_roots(heap: &PartitionedHeap, roots: &Roots, remembered_set: Option<&RememberedSet>) -> (r: Vec<Value>)
    requires
        heap.wf(),
    ensures
        r@ == root_values(
            *heap,
            roots.static_roots@,
            roots.continuation_table,
            remembered_values(remembered_set),
        ),
{
    let mut result: Vec<Value> = Vec::new();
    let ghost f = points_into(*heap);
    let mut i: usize = 0;
    while i < roots.static_roots.len()
        invariant
            heap.wf(),
            f == points_into(*heap),
            i <= roots.static_roots@.len(),
            result@ == roots.static_roots@.subrange(0, i as int).filter(f),
        decreases roots.static_roots@.len() - i,
    {
        let value = roots.static_roots[i];
        let ghost prefix = roots.static_roots@.subrange(0, i as int);
        proof {
            assert(roots.static_roots@.subrange(0, i + 1) =~= prefix.push(value));
            prefix.lemma_filter_push(value, f);
        }
        let found = heap.lookup(value).is_some();
        if found {
            result.push(value);
        }
        proof {
            assert(f(value) == found);
            assert(prefix.push(value).filter(f) == if f(value) { prefix.filter(f).push(value) } else { prefix.filter(f) });
        }
        i = i + 1;
    }
    assert(roots.static_roots@.subrange(0, roots.static_roots@.len() as int) =~= roots.static_roots@);
    let ghost statics = result@;
    if heap.lookup(roots.continuation_table).is_some() {
        result.push(roots.continuation_table);
    }
    let ghost with_table = result@;
    match remembered_set {
        Some(set) => {
            let mut j: usize = 0;
            while j < set.len()
                invariant
                    j <= set.values().len(),
                    result@ == with_table + set.values().subrange(0, j as int),
                decreases set.values().len() - j,
            {
                result.push(set.get(j));
                j = j + 1;
                assert(result@ =~= with_table + set.values().subrange(0, j as int));
            }
            assert(set.values().subrange(0, set.values().len() as int) =~= set.values());
        },
        None => {
            assert(result@ =~= with_table + Seq::<Value>::empty());
        },
    }
    result
}

} // verus!

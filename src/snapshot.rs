//! Snapshot-at-the-beginning marking.
//!
//! The objects reachable from the roots when marking starts form the
//! snapshot. While marking runs, every object of the snapshot is marked, or
//! is reached from a grey object (marked and on the mark stack) through a
//! path of unmarked objects along fields that the grey object has not
//! scanned yet. The write barrier keeps this so: a store that cuts such a
//! path marks the value it overwrites. When the stack runs empty no grey
//! object is left, so every object of the snapshot is marked.
use vstd::prelude::*;
use crate::heap::{PartitionedHeap, MAX_PARTITIONS, TAG_ARRAY_SLICE_MIN, has_pointer_fields};
use crate::mark::{pointer_to, scan_start, mark_step, marks_grow, stack_ok, lemma_mark_step_grows, lemma_pointer_to_slot, lemma_pointer_to_injective, lemma_stack_ok_grow, lemma_pointer_to_is_heap_pointer};
use crate::value::Value;

verus! {

/// A slot of the heap: a partition and an index in it.
pub open spec fn is_slot(heap: PartitionedHeap, s: (int, int)) -> bool {
    0 <= s.0 < MAX_PARTITIONS && 0 <= s.1 < heap.partitions@[s.0].objects@.len()
}

pub open spec fn slot_marked(heap: PartitionedHeap, s: (int, int)) -> bool {
    heap.obj(s.0, s.1).marked
}

/// The slot a heap pointer points to.
pub open spec fn slot_of_value(heap: PartitionedHeap, v: Value) -> (int, int) {
    (heap.partition_of(v.address()), heap.slot_of(v.address()))
}

/// Field `i` of the object in slot `a` points to slot `b`.
pub open spec fn field_edge(heap: PartitionedHeap, a: (int, int), b: (int, int), i: int) -> bool {
    &&& 0 <= i < heap.obj(a.0, a.1).fields@.len()
    &&& has_pointer_fields(heap.obj(a.0, a.1).tag)
    &&& heap.is_heap_pointer(heap.obj(a.0, a.1).fields@[i])
    &&& slot_of_value(heap, heap.obj(a.0, a.1).fields@[i]) == b
}

/// An edge of `path` from position `j`, by a field at or after `from` if
/// `j` is the start.
pub open spec fn path_edge(heap: PartitionedHeap, path: Seq<(int, int)>, j: int, from: int) -> bool {
    exists|i: int| #[trigger] field_edge(heap, path[j], path[j + 1], i) && (j == 0 ==> i >= from)
}

/// `path` runs from a marked object, by its fields at or after `from`, over
/// unmarked objects.
pub open spec fn white_path(heap: PartitionedHeap, path: Seq<(int, int)>, from: int) -> bool {
    &&& path.len() > 0
    &&& forall|j: int| 0 <= j < path.len() ==> is_slot(heap, #[trigger] path[j])
    &&& slot_marked(heap, path[0])
    &&& forall|j: int| 1 <= j < path.len() ==> !slot_marked(heap, #[trigger] path[j])
    &&& forall|j: int| 0 <= j < path.len() - 1 ==> #[trigger] path_edge(heap, path, j, from)
}

/// `path` starts at a grey object, by fields it has not scanned yet.
pub open spec fn grey_path(heap: PartitionedHeap, stack: Seq<Value>, path: Seq<(int, int)>) -> bool {
    &&& white_path(heap, path, scan_start(heap.obj(path[0].0, path[0].1)))
    &&& stack.contains(pointer_to(heap, path[0].0, path[0].1))
}

/// Every object in the middle of being sliced, but the one in slot `g`, is
/// marked and on the mark stack.
pub open spec fn slices_on_stack(heap: PartitionedHeap, stack: Seq<Value>, g: (int, int)) -> bool {
    forall|p: int, k: int| 0 <= p < MAX_PARTITIONS && 0 <= k < heap.partitions@[p].objects@.len() && (p != g.0 || k != g.1)
        && (#[trigger] heap.obj(p, k)).tag >= TAG_ARRAY_SLICE_MIN ==> heap.obj(p, k).marked && stack.contains(
        pointer_to(heap, p, k),
    )
}

/// Objects being sliced are on the stack, the stack holds marked objects,
/// and every slot of `snapshot` is marked or at the end of a grey path.
pub open spec fn snapshot_covered(heap: PartitionedHeap, stack: Seq<Value>, snapshot: Set<(int, int)>) -> bool {
    &&& slices_on_stack(heap, stack, (-1, -1))
    &&& stack_ok(heap, stack)
    &&& forall|s: (int, int)| #[trigger] snapshot.contains(s) ==> is_slot(heap, s) && (slot_marked(heap, s)
        || exists|path: Seq<(int, int)>| #[trigger] grey_path(heap, stack, path) && path.last() == s)
}

/// The last position of `w` in `path`.
pub proof fn lemma_last_index(path: Seq<(int, int)>, w: (int, int)) -> (m: int)
    requires
        path.contains(w),
    ensures
        0 <= m < path.len(),
        path[m] == w,
        forall|j: int| m < j < path.len() ==> path[j] != w,
    decreases path.len(),
{
    if path.last() == w {
        path.len() - 1
    } else {
        let d = path.drop_last();
        let i = choose|i: int| 0 <= i < path.len() && path[i] == w;
        assert(i < path.len() - 1);
        assert(d[i] == w);
        let m = lemma_last_index(d, w);
        assert forall|j: int| m < j < path.len() implies path[j] != w by {
            if j < path.len() - 1 {
                assert(path[j] == d[j]);
            }
        }
        m
    }
}

/// Heaps with the same layout and fields, whose objects agree on holding
/// pointers, have the same edges.
pub open spec fn same_edges(h0: PartitionedHeap, h1: PartitionedHeap) -> bool {
    &&& h1.base == h0.base
    &&& h0.partitions@.len() == MAX_PARTITIONS
    &&& h1.partitions@.len() == h0.partitions@.len()
    &&& forall|p: int| 0 <= p < h0.partitions@.len() ==> (#[trigger] h1.partitions@[p]).objects@.len()
        == h0.partitions@[p].objects@.len()
    &&& forall|p: int, k: int| 0 <= p < h0.partitions@.len() && 0 <= k < h0.partitions@[p].objects@.len() ==> {
        &&& (#[trigger] h1.obj(p, k)).fields@ == h0.obj(p, k).fields@
        &&& has_pointer_fields(h1.obj(p, k).tag) == has_pointer_fields(h0.obj(p, k).tag)
    }
}

pub proof fn lemma_same_edges(h0: PartitionedHeap, h1: PartitionedHeap, a: (int, int), b: (int, int), i: int)
    requires
        same_edges(h0, h1),
        is_slot(h0, a),
    ensures
        field_edge(h1, a, b, i) == field_edge(h0, a, b, i),
{
    let v = h0.obj(a.0, a.1).fields@;
    assert(h1.obj(a.0, a.1).fields@ == v);
    if 0 <= i < v.len() {
        assert(h0.is_heap_pointer(v[i]) == h1.is_heap_pointer(v[i]));
    }
}

/// A path keeps being a path where edges stay and marks change only off it.
pub proof fn lemma_path_kept(
    h0: PartitionedHeap,
    h1: PartitionedHeap,
    path: Seq<(int, int)>,
    from0: int,
    from1: int,
)
    requires
        white_path(h0, path, from0),
        same_edges(h0, h1),
        slot_marked(h1, path[0]),
        from1 <= from0,
        forall|j: int| 1 <= j < path.len() ==> !slot_marked(h1, #[trigger] path[j]),
    ensures
        white_path(h1, path, from1),
{
    assert forall|j: int| 0 <= j < path.len() implies is_slot(h1, #[trigger] path[j]) by {
        assert(is_slot(h0, path[j]));
    }
    assert forall|j: int| 0 <= j < path.len() - 1 implies #[trigger] path_edge(h1, path, j, from1) by {
        assert(path_edge(h0, path, j, from0));
        let i = choose|i: int| #[trigger] field_edge(h0, path[j], path[j + 1], i) && (j == 0 ==> i >= from0);
        assert(is_slot(h0, path[j]));
        lemma_same_edges(h0, h1, path[j], path[j + 1], i);
    }
}

/// The part of a path from position `m` on is a path from there.
pub proof fn lemma_path_suffix(
    h0: PartitionedHeap,
    h1: PartitionedHeap,
    path: Seq<(int, int)>,
    from0: int,
    m: int,
)
    requires
        white_path(h0, path, from0),
        same_edges(h0, h1),
        1 <= m < path.len(),
        slot_marked(h1, path[m]),
        forall|j: int| m < j < path.len() ==> !slot_marked(h1, #[trigger] path[j]),
    ensures
        white_path(h1, path.subrange(m, path.len() as int), 0),
        path.subrange(m, path.len() as int).last() == path.last(),
        path.subrange(m, path.len() as int)[0] == path[m],
{
    let q = path.subrange(m, path.len() as int);
    assert forall|j: int| 0 <= j < q.len() implies is_slot(h1, #[trigger] q[j]) by {
        assert(q[j] == path[m + j]);
        assert(is_slot(h0, path[m + j]));
    }
    assert forall|j: int| 1 <= j < q.len() implies !slot_marked(h1, #[trigger] q[j]) by {
        assert(q[j] == path[m + j]);
    }
    assert forall|j: int| 0 <= j < q.len() - 1 implies #[trigger] path_edge(h1, q, j, 0) by {
        assert(q[j] == path[m + j]);
        assert(q[j + 1] == path[m + j + 1]);
        assert(path_edge(h0, path, m + j, from0));
        let i = choose|i: int| #[trigger] field_edge(h0, path[m + j], path[m + j + 1], i) && (m + j == 0 ==> i >= from0);
        assert(is_slot(h0, path[m + j]));
        lemma_same_edges(h0, h1, path[m + j], path[m + j + 1], i);
        assert(field_edge(h1, q[j], q[j + 1], i));
    }
}

/// Marking keeps edges when it keeps tags.
pub proof fn lemma_mark_step_same_edges(h0: PartitionedHeap, s0: Seq<Value>, h1: PartitionedHeap, s1: Seq<Value>, v: Value)
    requires
        h0.wf(),
        h1.wf(),
        mark_step(h0, s0, h1, s1, v),
    ensures
        same_edges(h0, h1),
        marks_grow(h0, h1),
        s0.len() <= s1.len(),
        forall|i: int| 0 <= i < s0.len() ==> s1[i] == #[trigger] s0[i],
        forall|p: int, k: int| 0 <= p < MAX_PARTITIONS && 0 <= k < h0.partitions@[p].objects@.len()
            ==> (#[trigger] h1.obj(p, k)).tag == h0.obj(p, k).tag,
{
    lemma_mark_step_grows(h0, s0, h1, s1, v);
    if h0.is_heap_pointer(v) && !h0.target(v).marked {
        lemma_pointer_to_slot(h0, v);
        assert forall|p: int, k: int| 0 <= p < MAX_PARTITIONS && 0 <= k < h0.partitions@[p].objects@.len()
            implies (#[trigger] h1.obj(p, k)).tag == h0.obj(p, k).tag by {
            if p != h0.partition_of(v.address()) || k != h0.slot_of(v.address()) {
                assert(h1.obj(p, k) == h0.obj(p, k));
            }
        }
    }
    if h0.is_heap_pointer(v) && !h0.target(v).marked {
        lemma_pointer_to_slot(h0, v);
        assert forall|p: int, k: int| 0 <= p < h0.partitions@.len() && 0 <= k < h0.partitions@[p].objects@.len() implies {
            &&& (#[trigger] h1.obj(p, k)).fields@ == h0.obj(p, k).fields@
            &&& h1.obj(p, k).tag == h0.obj(p, k).tag
        } by {
            if p != h0.partition_of(v.address()) || k != h0.slot_of(v.address()) {
                assert(h1.obj(p, k) == h0.obj(p, k));
            }
        }
    }
}

/// Marking keeps objects being sliced on the stack.
pub proof fn lemma_slices_kept(h0: PartitionedHeap, s0: Seq<Value>, h1: PartitionedHeap, s1: Seq<Value>, g: (int, int))
    requires
        h0.wf(),
        h1.wf(),
        same_edges(h0, h1),
        marks_grow(h0, h1),
        forall|i: int| 0 <= i < s0.len() ==> s1[i] == #[trigger] s0[i],
        s0.len() <= s1.len(),
        forall|p: int, k: int| 0 <= p < MAX_PARTITIONS && 0 <= k < h0.partitions@[p].objects@.len()
            ==> (#[trigger] h1.obj(p, k)).tag == h0.obj(p, k).tag,
        slices_on_stack(h0, s0, g),
        stack_ok(h0, s0),
    ensures
        slices_on_stack(h1, s1, g),
{
    assert forall|p: int, k: int| 0 <= p < MAX_PARTITIONS && 0 <= k < h1.partitions@[p].objects@.len() && (p != g.0 || k != g.1)
        && (#[trigger] h1.obj(p, k)).tag >= TAG_ARRAY_SLICE_MIN implies h1.obj(p, k).marked && s1.contains(
        pointer_to(h1, p, k),
    ) by {
        assert(h0.obj(p, k).tag == h1.obj(p, k).tag);
        assert(h0.obj(p, k).marked);
        let j = choose|j: int| 0 <= j < s0.len() && s0[j] == pointer_to(h0, p, k);
        assert(s1[j] == s0[j]);
    }
}

/// Marking a value and pushing it keeps the snapshot covered.
pub proof fn lemma_mark_step_covered(
    h0: PartitionedHeap,
    s0: Seq<Value>,
    h1: PartitionedHeap,
    s1: Seq<Value>,
    v: Value,
    snapshot: Set<(int, int)>,
)
    requires
        h0.wf(),
        h1.wf(),
        mark_step(h0, s0, h1, s1, v),
        snapshot_covered(h0, s0, snapshot),
    ensures
        snapshot_covered(h1, s1, snapshot),
{
    lemma_mark_step_same_edges(h0, s0, h1, s1, v);
    if h0.is_heap_pointer(v) && !h0.target(v).marked {
        lemma_pointer_to_slot(h0, v);
        let w = slot_of_value(h0, v);
        lemma_slices_kept(h0, s0, h1, s1, (-1, -1));
        assert forall|s: (int, int)| #[trigger] snapshot.contains(s) implies is_slot(h1, s) && (slot_marked(h1, s)
            || exists|path: Seq<(int, int)>| #[trigger] grey_path(h1, s1, path) && path.last() == s) by {
            assert(is_slot(h0, s));
            if !slot_marked(h1, s) {
                assert(!slot_marked(h0, s));
                let path = choose|path: Seq<(int, int)>| #[trigger] grey_path(h0, s0, path) && path.last() == s;
                let start0 = scan_start(h0.obj(path[0].0, path[0].1));
                assert(is_slot(h0, path[0]));
                if path.contains(w) {
                    let m = lemma_last_index(path, w);
                    assert(m >= 1) by {
                        if m == 0 {
                            assert(slot_marked(h0, path[0]));
                        }
                    }
                    assert forall|j: int| m < j < path.len() implies !slot_marked(h1, #[trigger] path[j]) by {
                        assert(!slot_marked(h0, path[j]));
                        assert(is_slot(h0, path[j]));
                    }
                    lemma_path_suffix(h0, h1, path, start0, m);
                    let q = path.subrange(m, path.len() as int);
                    assert(s1[s1.len() - 1] == v);
                    assert(s1.contains(pointer_to(h1, w.0, w.1)));
                    assert(!h0.obj(w.0, w.1).marked);
                    assert(scan_start(h1.obj(q[0].0, q[0].1)) == 0);
                    assert(grey_path(h1, s1, q));
                } else {
                    assert forall|j: int| 1 <= j < path.len() implies !slot_marked(h1, #[trigger] path[j]) by {
                        assert(path[j] != w);
                        assert(is_slot(h0, path[j]));
                        assert(!slot_marked(h0, path[j]));
                    }
                    assert(path[0] != w);
                    assert(h1.obj(path[0].0, path[0].1) == h0.obj(path[0].0, path[0].1));
                    lemma_path_kept(h0, h1, path, start0, start0);
                    let i = choose|i: int| 0 <= i < s0.len() && s0[i] == pointer_to(h0, path[0].0, path[0].1);
                    assert(s1[i] == s0[i]);
                    assert(grey_path(h1, s1, path));
                }
            }
        }
    }
}

/// A store into field `f` of the object in slot `x` keeps the snapshot
/// covered if the value it overwrites does not point to an unmarked object.
pub proof fn lemma_store_covered(
    h0: PartitionedHeap,
    h1: PartitionedHeap,
    stack: Seq<Value>,
    snapshot: Set<(int, int)>,
    x: (int, int),
    f: int,
)
    requires
        h0.wf(),
        h1.wf(),
        is_slot(h0, x),
        h1.agrees_except(&h0, x.0, x.1),
        h1.obj(x.0, x.1).marked == h0.obj(x.0, x.1).marked,
        h1.obj(x.0, x.1).tag == h0.obj(x.0, x.1).tag,
        0 <= f < h0.obj(x.0, x.1).fields@.len(),
        h1.obj(x.0, x.1).fields@.len() == h0.obj(x.0, x.1).fields@.len(),
        forall|i: int| 0 <= i < h0.obj(x.0, x.1).fields@.len() && i != f ==> h1.obj(x.0, x.1).fields@[i]
            == #[trigger] h0.obj(x.0, x.1).fields@[i],
        h0.is_heap_pointer(h0.obj(x.0, x.1).fields@[f]) ==> h0.target(h0.obj(x.0, x.1).fields@[f]).marked,
        snapshot_covered(h0, stack, snapshot),
    ensures
        snapshot_covered(h1, stack, snapshot),
{
    assert forall|p: int, k: int| 0 <= p < MAX_PARTITIONS && 0 <= k < h1.partitions@[p].objects@.len()
        implies (#[trigger] h1.obj(p, k)).marked == h0.obj(p, k).marked && h1.obj(p, k).tag == h0.obj(p, k).tag by {
        if p != x.0 || k != x.1 {
            assert(h1.obj(p, k) == h0.obj(p, k));
        }
    }
    assert forall|s: (int, int)| #[trigger] snapshot.contains(s) implies is_slot(h1, s) && (slot_marked(h1, s)
        || exists|path: Seq<(int, int)>| #[trigger] grey_path(h1, stack, path) && path.last() == s) by {
        assert(is_slot(h0, s));
        if !slot_marked(h1, s) {
            let path = choose|path: Seq<(int, int)>| #[trigger] grey_path(h0, stack, path) && path.last() == s;
            let start = scan_start(h0.obj(path[0].0, path[0].1));
            assert forall|j: int| 0 <= j < path.len() implies is_slot(h1, #[trigger] path[j]) by {
                assert(is_slot(h0, path[j]));
            }
            assert forall|j: int| 1 <= j < path.len() implies !slot_marked(h1, #[trigger] path[j]) by {
                assert(is_slot(h0, path[j]));
                assert(!slot_marked(h0, path[j]));
            }
            assert forall|j: int| 0 <= j < path.len() - 1 implies #[trigger] path_edge(h1, path, j, start) by {
                assert(path_edge(h0, path, j, start));
                let i = choose|i: int| #[trigger] field_edge(h0, path[j], path[j + 1], i) && (j == 0 ==> i >= start);
                let a = path[j];
                assert(is_slot(h0, a));
                assert(is_slot(h0, path[j + 1]));
                assert(!slot_marked(h0, path[j + 1]));
                if a == x && i == f {
                    let old_value = h0.obj(x.0, x.1).fields@[f];
                    lemma_pointer_to_slot(h0, old_value);
                    assert(false);
                }
                if a != x {
                    assert(h1.obj(a.0, a.1) == h0.obj(a.0, a.1));
                }
                let v = h0.obj(a.0, a.1).fields@[i];
                assert(h1.obj(a.0, a.1).fields@[i] == v);
                assert(h0.is_heap_pointer(v) == h1.is_heap_pointer(v));
                assert(field_edge(h1, path[j], path[j + 1], i));
            }
            assert(grey_path(h1, stack, path));
        }
    }
}

/// Adding an unmarked object, not in the middle of being sliced, keeps the
/// snapshot covered.
pub proof fn lemma_extension_covered(
    h0: PartitionedHeap,
    h1: PartitionedHeap,
    stack: Seq<Value>,
    snapshot: Set<(int, int)>,
)
    requires
        h0.wf(),
        h1.wf(),
        h1.extends(&h0),
        forall|p: int, k: int| 0 <= p < MAX_PARTITIONS && h0.partitions@[p].objects@.len() <= k < h1.partitions@[p].objects@.len()
            ==> !(#[trigger] h1.obj(p, k)).marked && h1.obj(p, k).tag < TAG_ARRAY_SLICE_MIN,
        snapshot_covered(h0, stack, snapshot),
    ensures
        snapshot_covered(h1, stack, snapshot),
{
    assert forall|p: int, k: int| 0 <= p < MAX_PARTITIONS && 0 <= k < h1.partitions@[p].objects@.len() && (p != -1 || k != -1)
        && (#[trigger] h1.obj(p, k)).tag >= TAG_ARRAY_SLICE_MIN implies h1.obj(p, k).marked && stack.contains(
        pointer_to(h1, p, k),
    ) by {
        if k < h0.partitions@[p].objects@.len() {
            assert(h1.obj(p, k) == h0.obj(p, k));
        }
    }
    assert forall|i: int| 0 <= i < stack.len() implies h1.is_heap_pointer(#[trigger] stack[i]) && h1.target(stack[i]).marked by {
        h0.lemma_object_address(stack[i].address());
    }
    assert forall|s: (int, int)| #[trigger] snapshot.contains(s) implies is_slot(h1, s) && (slot_marked(h1, s)
        || exists|path: Seq<(int, int)>| #[trigger] grey_path(h1, stack, path) && path.last() == s) by {
        assert(is_slot(h0, s));
        assert(h1.obj(s.0, s.1) == h0.obj(s.0, s.1));
        if !slot_marked(h1, s) {
            let path = choose|path: Seq<(int, int)>| #[trigger] grey_path(h0, stack, path) && path.last() == s;
            let start = scan_start(h0.obj(path[0].0, path[0].1));
            assert forall|j: int| 0 <= j < path.len() implies is_slot(h1, #[trigger] path[j]) by {
                assert(is_slot(h0, path[j]));
            }
            assert forall|j: int| 1 <= j < path.len() implies !slot_marked(h1, #[trigger] path[j]) by {
                assert(is_slot(h0, path[j]));
                assert(!slot_marked(h0, path[j]));
                assert(h1.obj(path[j].0, path[j].1) == h0.obj(path[j].0, path[j].1));
            }
            assert forall|j: int| 0 <= j < path.len() - 1 implies #[trigger] path_edge(h1, path, j, start) by {
                assert(path_edge(h0, path, j, start));
                let i = choose|i: int| #[trigger] field_edge(h0, path[j], path[j + 1], i) && (j == 0 ==> i >= start);
                let a = path[j];
                assert(is_slot(h0, a));
                assert(h1.obj(a.0, a.1) == h0.obj(a.0, a.1));
                let v = h0.obj(a.0, a.1).fields@[i];
                h0.lemma_object_address(v.address());
                assert(h1.is_heap_pointer(v));
                assert(field_edge(h1, path[j], path[j + 1], i));
            }
            assert(is_slot(h0, path[0]));
            assert(h1.obj(path[0].0, path[0].1) == h0.obj(path[0].0, path[0].1));
            assert(grey_path(h1, stack, path));
        }
    }
}

/// The snapshot is covered, where the object in slot `g`, which is being
/// scanned, counts as grey for its fields from `from` on.
pub open spec fn covered_while_scanning(
    heap: PartitionedHeap,
    stack: Seq<Value>,
    snapshot: Set<(int, int)>,
    g: (int, int),
    from: int,
) -> bool {
    &&& slices_on_stack(heap, stack, g)
    &&& stack_ok(heap, stack)
    &&& forall|s: (int, int)| #[trigger] snapshot.contains(s) ==> is_slot(heap, s) && (slot_marked(heap, s)
        || exists|path: Seq<(int, int)>| #[trigger] scanning_path(heap, stack, path, g, from) && path.last() == s)
}

/// A grey path, or a path from `g` by its fields from `from` on.
pub open spec fn scanning_path(heap: PartitionedHeap, stack: Seq<Value>, path: Seq<(int, int)>, g: (int, int), from: int) -> bool {
    grey_path(heap, stack, path) || (path.len() > 0 && path[0] == g && white_path(heap, path, from))
}

/// Popping a marked object off the stack to scan it.
pub proof fn lemma_pop_covered(heap: PartitionedHeap, stack: Seq<Value>, snapshot: Set<(int, int)>)
    requires
        heap.wf(),
        stack.len() > 0,
        heap.is_heap_pointer(stack.last()),
        snapshot_covered(heap, stack, snapshot),
    ensures
        covered_while_scanning(
            heap,
            stack.drop_last(),
            snapshot,
            slot_of_value(heap, stack.last()),
            scan_start(heap.obj(slot_of_value(heap, stack.last()).0, slot_of_value(heap, stack.last()).1)),
        ),
{
    let v = stack.last();
    let g = slot_of_value(heap, v);
    let rest = stack.drop_last();
    lemma_pointer_to_slot(heap, v);
    assert(stack[stack.len() - 1] == v);
    assert forall|p: int, k: int| 0 <= p < MAX_PARTITIONS && 0 <= k < heap.partitions@[p].objects@.len() && (p != g.0 || k != g.1)
        && (#[trigger] heap.obj(p, k)).tag >= TAG_ARRAY_SLICE_MIN implies heap.obj(p, k).marked && rest.contains(
        pointer_to(heap, p, k),
    ) by {
        let j = choose|j: int| 0 <= j < stack.len() && stack[j] == pointer_to(heap, p, k);
        if j == stack.len() - 1 {
            lemma_pointer_to_injective(heap, p, k, g.0, g.1);
        }
        assert(rest[j] == stack[j]);
    }
    assert forall|i: int| 0 <= i < rest.len() implies heap.is_heap_pointer(#[trigger] rest[i]) && heap.target(rest[i]).marked by {
        assert(rest[i] == stack[i]);
    }
    assert forall|s: (int, int)| #[trigger] snapshot.contains(s) implies is_slot(heap, s) && (slot_marked(heap, s)
        || exists|path: Seq<(int, int)>| #[trigger] scanning_path(heap, rest, path, g, scan_start(heap.obj(g.0, g.1)))
        && path.last() == s) by {
        if !slot_marked(heap, s) {
            let path = choose|path: Seq<(int, int)>| #[trigger] grey_path(heap, stack, path) && path.last() == s;
            assert(is_slot(heap, path[0]));
            if path[0] != g {
                let i = choose|i: int| 0 <= i < stack.len() && stack[i] == pointer_to(heap, path[0].0, path[0].1);
                if i == stack.len() - 1 {
                    lemma_pointer_to_injective(heap, path[0].0, path[0].1, g.0, g.1);
                }
                assert(rest[i] == stack[i]);
                assert(grey_path(heap, rest, path));
            }
            assert(scanning_path(heap, rest, path, g, scan_start(heap.obj(g.0, g.1))));
        }
    }
}

/// Popping a value that does not point into the heap changes nothing that
/// covers the snapshot.
pub proof fn lemma_pop_other_covered(heap: PartitionedHeap, stack: Seq<Value>, snapshot: Set<(int, int)>)
    requires
        heap.wf(),
        stack.len() > 0,
        !heap.is_heap_pointer(stack.last()),
        snapshot_covered(heap, stack, snapshot),
    ensures
        snapshot_covered(heap, stack.drop_last(), snapshot),
{
    let rest = stack.drop_last();
    assert(stack[stack.len() - 1] == stack.last());
    assert forall|s: (int, int)| #[trigger] snapshot.contains(s) implies is_slot(heap, s) && (slot_marked(heap, s)
        || exists|path: Seq<(int, int)>| #[trigger] grey_path(heap, rest, path) && path.last() == s) by {
        if !slot_marked(heap, s) {
            let path = choose|path: Seq<(int, int)>| #[trigger] grey_path(heap, stack, path) && path.last() == s;
            assert(is_slot(heap, path[0]));
            let i = choose|i: int| 0 <= i < stack.len() && stack[i] == pointer_to(heap, path[0].0, path[0].1);
            if i == stack.len() - 1 {
                lemma_pointer_to_is_heap_pointer(heap, path[0].0, path[0].1);
            }
            assert(rest[i] == stack[i]);
            assert(grey_path(heap, rest, path));
        }
    }
}

/// Setting up the scan: the scanned object's tag may change between array
/// tags, and it may go back on the stack.
pub proof fn lemma_scan_setup_covered(
    h0: PartitionedHeap,
    s0: Seq<Value>,
    h1: PartitionedHeap,
    s1: Seq<Value>,
    snapshot: Set<(int, int)>,
    g: (int, int),
    start: int,
)
    requires
        h0.wf(),
        h1.wf(),
        is_slot(h0, g),
        h0.obj(g.0, g.1).marked,
        start == scan_start(h0.obj(g.0, g.1)),
        h1.agrees_except(&h0, g.0, g.1),
        h1.obj(g.0, g.1).marked,
        h1.obj(g.0, g.1).fields == h0.obj(g.0, g.1).fields,
        h1.obj(g.0, g.1).forward == h0.obj(g.0, g.1).forward,
        has_pointer_fields(h1.obj(g.0, g.1).tag) == has_pointer_fields(h0.obj(g.0, g.1).tag),
        s1 == s0 || s1 == s0.push(pointer_to(h1, g.0, g.1)),
        covered_while_scanning(h0, s0, snapshot, g, start),
    ensures
        covered_while_scanning(h1, s1, snapshot, g, start),
{
    crate::mark::lemma_agrees_except_grows(h0, h1, g.0, g.1);
    lemma_stack_ok_grow(h0, h1, s0);
    lemma_pointer_to_is_heap_pointer(h1, g.0, g.1);
    assert forall|i: int| 0 <= i < s1.len() implies h1.is_heap_pointer(#[trigger] s1[i]) && h1.target(s1[i]).marked by {
        if i < s0.len() {
            assert(s1[i] == s0[i]);
        }
    }
    assert forall|p: int, k: int| 0 <= p < MAX_PARTITIONS && 0 <= k < h1.partitions@[p].objects@.len()
        && (p != g.0 || k != g.1) implies #[trigger] h1.obj(p, k) == h0.obj(p, k) by {
    }
    assert(same_edges(h0, h1));
    assert forall|p: int, k: int| 0 <= p < MAX_PARTITIONS && 0 <= k < h1.partitions@[p].objects@.len() && (p != g.0 || k != g.1)
        && (#[trigger] h1.obj(p, k)).tag >= TAG_ARRAY_SLICE_MIN implies h1.obj(p, k).marked && s1.contains(
        pointer_to(h1, p, k),
    ) by {
        assert(h1.obj(p, k) == h0.obj(p, k));
        let j = choose|j: int| 0 <= j < s0.len() && s0[j] == pointer_to(h0, p, k);
        assert(s1[j] == s0[j]);
    }
    assert forall|s: (int, int)| #[trigger] snapshot.contains(s) implies is_slot(h1, s) && (slot_marked(h1, s)
        || exists|path: Seq<(int, int)>| #[trigger] scanning_path(h1, s1, path, g, start) && path.last() == s) by {
        assert(is_slot(h0, s));
        assert(h1.partitions@[s.0].objects@.len() == h0.partitions@[s.0].objects@.len());
        if !slot_marked(h1, s) {
            assert(s != g);
            assert(h1.obj(s.0, s.1) == h0.obj(s.0, s.1));
            let path = choose|path: Seq<(int, int)>| #[trigger] scanning_path(h0, s0, path, g, start) && path.last() == s;
            assert(is_slot(h0, path[0]));
            assert forall|j: int| 1 <= j < path.len() implies !slot_marked(h1, #[trigger] path[j]) by {
                assert(is_slot(h0, path[j]));
                assert(!slot_marked(h0, path[j]));
                assert(path[j] != g);
                assert(h1.obj(path[j].0, path[j].1) == h0.obj(path[j].0, path[j].1));
            }
            if path[0] == g {
                lemma_path_kept(h0, h1, path, start, start);
                assert(scanning_path(h1, s1, path, g, start));
            } else {
                assert(h1.obj(path[0].0, path[0].1) == h0.obj(path[0].0, path[0].1));
                let from = scan_start(h0.obj(path[0].0, path[0].1));
                lemma_path_kept(h0, h1, path, from, from);
                let i = choose|i: int| 0 <= i < s0.len() && s0[i] == pointer_to(h0, path[0].0, path[0].1);
                assert(s1[i] == s0[i]);
                assert(grey_path(h1, s1, path));
                assert(scanning_path(h1, s1, path, g, start));
            }
        }
    }
}

/// Marking what field `i` of the scanned object points to moves its scan
/// on by one field.
pub proof fn lemma_scan_step_covered(
    h0: PartitionedHeap,
    s0: Seq<Value>,
    h1: PartitionedHeap,
    s1: Seq<Value>,
    v: Value,
    snapshot: Set<(int, int)>,
    g: (int, int),
    i: int,
)
    requires
        h0.wf(),
        h1.wf(),
        mark_step(h0, s0, h1, s1, v),
        is_slot(h0, g),
        h0.obj(g.0, g.1).marked,
        0 <= i < h0.obj(g.0, g.1).fields@.len(),
        h0.obj(g.0, g.1).fields@[i] == v,
        covered_while_scanning(h0, s0, snapshot, g, i),
    ensures
        covered_while_scanning(h1, s1, snapshot, g, i + 1),
{
    lemma_mark_step_same_edges(h0, s0, h1, s1, v);
    let marks_w = h0.is_heap_pointer(v) && !h0.target(v).marked;
    let w = slot_of_value(h0, v);
    if h0.is_heap_pointer(v) {
        lemma_pointer_to_slot(h0, v);
    }
    lemma_slices_kept(h0, s0, h1, s1, g);
    assert forall|s: (int, int)| #[trigger] snapshot.contains(s) implies is_slot(h1, s) && (slot_marked(h1, s)
        || exists|path: Seq<(int, int)>| #[trigger] scanning_path(h1, s1, path, g, i + 1) && path.last() == s) by {
        assert(is_slot(h0, s));
        assert(h1.partitions@[s.0].objects@.len() == h0.partitions@[s.0].objects@.len());
        if !slot_marked(h1, s) {
            assert(!slot_marked(h0, s));
            let path = choose|path: Seq<(int, int)>| #[trigger] scanning_path(h0, s0, path, g, i) && path.last() == s;
            assert(is_slot(h0, path[0]));
            if marks_w && path.contains(w) {
                let from0 = if grey_path(h0, s0, path) { scan_start(h0.obj(path[0].0, path[0].1)) } else { i };
                assert(white_path(h0, path, from0));
                let m = lemma_last_index(path, w);
                assert(m >= 1) by {
                    if m == 0 {
                        assert(slot_marked(h0, path[0]));
                    }
                }
                assert forall|j: int| m < j < path.len() implies !slot_marked(h1, #[trigger] path[j]) by {
                    assert(!slot_marked(h0, path[j]));
                    assert(is_slot(h0, path[j]));
                }
                lemma_path_suffix(h0, h1, path, from0, m);
                let q = path.subrange(m, path.len() as int);
                assert(s1[s1.len() - 1] == v);
                assert(v == pointer_to(h1, w.0, w.1));
                assert(s1.contains(pointer_to(h1, w.0, w.1)));
                assert(scan_start(h1.obj(q[0].0, q[0].1)) == 0);
                assert(grey_path(h1, s1, q));
                assert(scanning_path(h1, s1, q, g, i + 1));
            } else {
                assert forall|j: int| 1 <= j < path.len() implies !slot_marked(h1, #[trigger] path[j]) by {
                    assert(is_slot(h0, path[j]));
                    assert(!slot_marked(h0, path[j]));
                    if marks_w {
                        assert(path[j] != w);
                    }
                }
                assert(slot_marked(h0, path[0]));
                if grey_path(h0, s0, path) {
                    if marks_w {
                        assert(path[0] != w);
                    }
                    assert(h1.obj(path[0].0, path[0].1) == h0.obj(path[0].0, path[0].1));
                    let from = scan_start(h0.obj(path[0].0, path[0].1));
                    lemma_path_kept(h0, h1, path, from, from);
                    let k = choose|k: int| 0 <= k < s0.len() && s0[k] == pointer_to(h0, path[0].0, path[0].1);
                    assert(s1[k] == s0[k]);
                    assert(grey_path(h1, s1, path));
                    assert(scanning_path(h1, s1, path, g, i + 1));
                } else {
                    assert(path[0] == g);
                    assert(path.len() > 1) by {
                        if path.len() == 1 {
                            assert(path.last() == g);
                        }
                    }
                    assert(path_edge(h0, path, 0, i));
                    let i0 = choose|i0: int| #[trigger] field_edge(h0, path[0], path[0int + 1], i0) && (0int == 0 ==> i0 >= i);
                    assert(is_slot(h0, path[1]));
                    assert(!slot_marked(h0, path[1]));
                    if i0 == i {
                        assert(path[1] == w);
                        assert(path.contains(w));
                        assert(marks_w);
                    }
                    assert(path_edge(h0, path, 0, i + 1));
                    assert(white_path(h0, path, i + 1)) by {
                        assert forall|j: int| 0 <= j < path.len() - 1 implies #[trigger] path_edge(h0, path, j, i + 1) by {
                            if j > 0 {
                                assert(path_edge(h0, path, j, i));
                                let i1 = choose|i1: int| #[trigger] field_edge(h0, path[j], path[j + 1], i1) && (j == 0 ==> i1 >= i);
                                assert(field_edge(h0, path[j], path[j + 1], i1));
                            }
                        }
                    }
                    lemma_path_kept(h0, h1, path, i + 1, i + 1);
                    assert(scanning_path(h1, s1, path, g, i + 1));
                }
            }
        }
    }
}

/// The end of a scan: the scanned object is back on the stack with its
/// next slice from at most `from` on, or has no field from `from` on.
pub proof fn lemma_scan_finish_covered(
    heap: PartitionedHeap,
    stack: Seq<Value>,
    snapshot: Set<(int, int)>,
    g: (int, int),
    from: int,
)
    requires
        heap.wf(),
        is_slot(heap, g),
        heap.obj(g.0, g.1).marked,
        (stack.contains(pointer_to(heap, g.0, g.1)) && scan_start(heap.obj(g.0, g.1)) <= from)
            || from >= heap.obj(g.0, g.1).fields@.len() || !has_pointer_fields(heap.obj(g.0, g.1).tag),
        heap.obj(g.0, g.1).tag >= TAG_ARRAY_SLICE_MIN ==> stack.contains(pointer_to(heap, g.0, g.1)),
        covered_while_scanning(heap, stack, snapshot, g, from),
    ensures
        snapshot_covered(heap, stack, snapshot),
{
    assert forall|s: (int, int)| #[trigger] snapshot.contains(s) implies is_slot(heap, s) && (slot_marked(heap, s)
        || exists|path: Seq<(int, int)>| #[trigger] grey_path(heap, stack, path) && path.last() == s) by {
        if !slot_marked(heap, s) {
            let path = choose|path: Seq<(int, int)>| #[trigger] scanning_path(heap, stack, path, g, from) && path.last() == s;
            if !grey_path(heap, stack, path) {
                assert(path[0] == g);
                assert(path.len() > 1) by {
                    if path.len() == 1 {
                        assert(path.last() == g);
                    }
                }
                assert(path_edge(heap, path, 0, from));
                let i0 = choose|i0: int| #[trigger] field_edge(heap, path[0], path[0int + 1], i0) && (0int == 0 ==> i0 >= from);
                assert(stack.contains(pointer_to(heap, g.0, g.1)) && scan_start(heap.obj(g.0, g.1)) <= from);
                lemma_path_kept(heap, heap, path, from, scan_start(heap.obj(g.0, g.1)));
                assert(grey_path(heap, stack, path));
            }
        }
    }
}

/// Every object of the snapshot is marked.
pub open spec fn snapshot_marked_in(heap: PartitionedHeap, snapshot: Set<(int, int)>) -> bool {
    forall|s: (int, int)| #[trigger] snapshot.contains(s) ==> is_slot(heap, s) && slot_marked(heap, s)
}

/// No object is in the middle of being sliced.
pub open spec fn unsliced(heap: PartitionedHeap) -> bool {
    forall|p: int, k: int| 0 <= p < MAX_PARTITIONS && 0 <= k < heap.partitions@[p].objects@.len()
        ==> (#[trigger] heap.obj(p, k)).tag < TAG_ARRAY_SLICE_MIN
}

/// `path` starts at the object a root points to and follows fields.
pub open spec fn root_path(heap: PartitionedHeap, roots: Seq<Value>, path: Seq<(int, int)>) -> bool {
    &&& path.len() > 0
    &&& exists|r: Value| #[trigger] roots.contains(r) && heap.is_heap_pointer(r) && slot_of_value(heap, r) == path[0]
    &&& forall|j: int| 0 <= j < path.len() ==> is_slot(heap, #[trigger] path[j])
    &&& forall|j: int| 0 <= j < path.len() - 1 ==> #[trigger] path_edge(heap, path, j, 0)
}

/// The slots reachable from the roots.
pub open spec fn reachable_slots(heap: PartitionedHeap, roots: Seq<Value>) -> Set<(int, int)> {
    Set::new(|s: (int, int)| exists|path: Seq<(int, int)>| #[trigger] root_path(heap, roots, path) && path.last() == s)
}

/// The last position of `path` whose object is marked, given the first is.
pub proof fn lemma_last_marked(heap: PartitionedHeap, path: Seq<(int, int)>) -> (m: int)
    requires
        path.len() > 0,
        slot_marked(heap, path[0]),
    ensures
        0 <= m < path.len(),
        slot_marked(heap, path[m]),
        forall|j: int| m < j < path.len() ==> !slot_marked(heap, #[trigger] path[j]),
    decreases path.len(),
{
    if slot_marked(heap, path.last()) {
        path.len() - 1
    } else {
        let d = path.drop_last();
        assert(d[0] == path[0]);
        let m = lemma_last_marked(heap, d);
        assert forall|j: int| m < j < path.len() implies !slot_marked(heap, #[trigger] path[j]) by {
            if j < path.len() - 1 {
                assert(path[j] == d[j]);
            }
        }
        m
    }
}

/// Once the roots are marked on a heap where nothing else was marked and
/// nothing is being sliced, the objects reachable from the roots are
/// covered.
pub proof fn lemma_snapshot_start(
    h0: PartitionedHeap,
    h1: PartitionedHeap,
    stack: Seq<Value>,
    roots: Seq<Value>,
)
    requires
        h0.wf(),
        h1.wf(),
        unsliced(h0),
        marks_grow(h0, h1),
        forall|p: int, k: int| 0 <= p < MAX_PARTITIONS && 0 <= k < h0.partitions@[p].objects@.len()
            ==> (#[trigger] h1.obj(p, k)).tag == h0.obj(p, k).tag,
        stack_ok(h1, stack),
        forall|p: int, k: int| 0 <= p < MAX_PARTITIONS && 0 <= k < h1.partitions@[p].objects@.len()
            && #[trigger] h1.obj(p, k).marked ==> stack.contains(pointer_to(h1, p, k)),
        forall|r: Value| #[trigger] roots.contains(r) && h0.is_heap_pointer(r) ==> h1.target(r).marked,
    ensures
        snapshot_covered(h1, stack, reachable_slots(h0, roots)),
{
    let snapshot = reachable_slots(h0, roots);
    assert(same_edges(h0, h1));
    assert forall|p: int, k: int| 0 <= p < MAX_PARTITIONS && 0 <= k < h1.partitions@[p].objects@.len() && (p != -1 || k != -1)
        && (#[trigger] h1.obj(p, k)).tag >= TAG_ARRAY_SLICE_MIN implies h1.obj(p, k).marked && stack.contains(
        pointer_to(h1, p, k),
    ) by {
        assert(h0.obj(p, k).tag < TAG_ARRAY_SLICE_MIN);
    }
    assert forall|s: (int, int)| #[trigger] snapshot.contains(s) implies is_slot(h1, s) && (slot_marked(h1, s)
        || exists|path: Seq<(int, int)>| #[trigger] grey_path(h1, stack, path) && path.last() == s) by {
        let path = choose|path: Seq<(int, int)>| #[trigger] root_path(h0, roots, path) && path.last() == s;
        let r = choose|r: Value| #[trigger] roots.contains(r) && h0.is_heap_pointer(r) && slot_of_value(h0, r) == path[0];
        lemma_pointer_to_slot(h0, r);
        assert(is_slot(h0, path[path.len() - 1]));
        assert(slot_marked(h1, path[0]));
        let m = lemma_last_marked(h1, path);
        if m < path.len() - 1 {
            let q = path.subrange(m, path.len() as int);
            assert forall|j: int| 0 <= j < q.len() implies is_slot(h1, #[trigger] q[j]) by {
                assert(q[j] == path[m + j]);
                assert(is_slot(h0, path[m + j]));
            }
            assert forall|j: int| 1 <= j < q.len() implies !slot_marked(h1, #[trigger] q[j]) by {
                assert(q[j] == path[m + j]);
            }
            assert forall|j: int| 0 <= j < q.len() - 1 implies #[trigger] path_edge(h1, q, j, 0) by {
                assert(q[j] == path[m + j]);
                assert(q[j + 1] == path[m + j + 1]);
                assert(path_edge(h0, path, m + j, 0));
                let i = choose|i: int| #[trigger] field_edge(h0, path[m + j], path[m + j + 1], i) && (m + j == 0 ==> i >= 0);
                assert(is_slot(h0, path[m + j]));
                lemma_same_edges(h0, h1, path[m + j], path[m + j + 1], i);
                assert(field_edge(h1, q[j], q[j + 1], i));
            }
            assert(is_slot(h0, path[m]));
            assert(h0.obj(path[m].0, path[m].1).tag < TAG_ARRAY_SLICE_MIN);
            assert(scan_start(h1.obj(q[0].0, q[0].1)) == 0);
            assert(white_path(h1, q, 0));
            assert(grey_path(h1, stack, q));
            assert(q.last() == s);
        }
    }
}


/// With the mark stack empty, a covered snapshot is marked, and no object
/// is being sliced.
pub proof fn lemma_covered_complete(heap: PartitionedHeap, stack: Seq<Value>, snapshot: Set<(int, int)>)
    requires
        snapshot_covered(heap, stack, snapshot),
        stack.len() == 0,
    ensures
        forall|s: (int, int)| #[trigger] snapshot.contains(s) ==> is_slot(heap, s) && slot_marked(heap, s),
        unsliced(heap),
{
    assert forall|s: (int, int)| #[trigger] snapshot.contains(s) implies is_slot(heap, s) && slot_marked(heap, s) by {
        if !slot_marked(heap, s) {
            let path = choose|path: Seq<(int, int)>| #[trigger] grey_path(heap, stack, path) && path.last() == s;
            assert(!stack.contains(pointer_to(heap, path[0].0, path[0].1)));
        }
    }
    assert forall|p: int, k: int| 0 <= p < MAX_PARTITIONS && 0 <= k < heap.partitions@[p].objects@.len()
        implies (#[trigger] heap.obj(p, k)).tag < TAG_ARRAY_SLICE_MIN by {
        if heap.obj(p, k).tag >= TAG_ARRAY_SLICE_MIN {
            assert(!stack.contains(pointer_to(heap, p, k)));
        }
    }
}

/// Every object of the snapshot outlives the release of the evacuated
/// partitions: it lies outside them or has been copied out of them.
pub open spec fn snapshot_survives(heap: PartitionedHeap, snapshot: Set<(int, int)>) -> bool {
    forall|s: (int, int)| #[trigger] snapshot.contains(s) ==> is_slot(heap, s) && (heap.partitions@[s.0].to_be_evacuated
        ==> heap.is_forwarded(s.0, s.1))
}

} // verus!

//! Incremental marking with a mark stack.
//!
//! Marking an object sets its mark bit, records its words in its partition
//! and pushes it on the mark stack. An increment pops objects and marks the
//! objects their fields point to. A long array is scanned in slices of
//! `SLICE_INCREMENT` elements: its tag records where the next slice starts
//! and the array goes back on the stack until its last slice is done.
use vstd::prelude::*;
use crate::value::{Value, skew};
use crate::heap::{PartitionedHeap, Object, MAX_PARTITIONS, TAG_OBJECT, TAG_ARRAY, TAG_MUTBOX, TAG_ARRAY_SLICE_MIN, has_pointer_fields, lemma_words_update, lemma_words_element};
use crate::roots::{Roots, visit_roots, root_values, remembered_values};
use crate::remembered_set::RememberedSet;
use crate::time::BoundedTime;
use crate::snapshot::{snapshot_covered, covered_while_scanning, lemma_mark_step_covered, lemma_pop_covered, lemma_pop_other_covered, lemma_scan_setup_covered, lemma_scan_step_covered, lemma_scan_finish_covered};

verus! {

/// Elements of an array scanned in one slice.
pub const SLICE_INCREMENT: usize = 128;

pub struct MarkState {
    /// Marked objects whose fields are not yet scanned.
    pub mark_stack: Vec<Value>,
    /// The mark stack ran empty: marking is done for this cycle.
    pub complete: bool,
}

impl MarkState {
    pub fn new() -> (r: MarkState)
        ensures
            r.mark_stack@ == Seq::<Value>::empty(),
            !r.complete,
    {
        MarkState { mark_stack: Vec::new(), complete: false }
    }
}

/// Where the next slice of an object ends: after `SLICE_INCREMENT` elements
/// for a long array, after the last field otherwise.
pub open spec fn slice_end(o: Object) -> int {
    let start = scan_start(o);
    let length = o.fields@.len() as int;
    if crate::heap::is_array_tag(o.tag) && start < length && length - start > SLICE_INCREMENT {
        start + SLICE_INCREMENT
    } else {
        length
    }
}

/// The next slice leaves part of the array for later.
pub open spec fn is_sliced(o: Object) -> bool {
    slice_end(o) < o.fields@.len()
}

/// The tag of an array after its next slice: where the following slice
/// starts, or the plain array tag once it is done.
pub open spec fn slice_tag(o: Object) -> int {
    if is_sliced(o) {
        TAG_ARRAY_SLICE_MIN + slice_end(o)
    } else {
        TAG_ARRAY as int
    }
}

/// The fields of the next slice of the object in slot `k` of partition `p`
/// of `h0` point, where they point into the heap, to objects marked in `h1`.
pub open spec fn slice_scanned(h0: PartitionedHeap, p: int, k: int, h1: PartitionedHeap) -> bool {
    has_pointer_fields(h0.obj(p, k).tag) ==> forall|i: int| scan_start(h0.obj(p, k)) <= i < slice_end(h0.obj(p, k))
        && h0.is_heap_pointer(#[trigger] h0.obj(p, k).fields@[i]) ==> h1.target(h0.obj(p, k).fields@[i]).marked
}

/// Marking made progress on the top of the stack `s0` of `h0`: it was
/// popped, and its next slice scanned.
pub open spec fn top_scanned(h0: PartitionedHeap, s0: Seq<Value>, h1: PartitionedHeap) -> bool {
    &&& s0.len() > 0
    &&& h0.is_heap_pointer(s0.last()) && h0.target(s0.last()).marked ==> slice_scanned(
        h0,
        h0.partition_of(s0.last().address()),
        h0.slot_of(s0.last().address()),
        h1,
    )
}

/// `v` points to an object that `h0` left unmarked and that one of the
/// fields `lo..hi` of the object in slot `k` of partition `p` holds.
pub open spec fn pushed_field(h0: PartitionedHeap, p: int, k: int, lo: int, hi: int, v: Value) -> bool {
    &&& h0.is_heap_pointer(v)
    &&& !h0.target(v).marked
    &&& exists|i: int| lo <= i < hi && i < h0.obj(p, k).fields@.len() && #[trigger] h0.obj(p, k).fields@[i] == v
}

/// Every object that `h1` marks and `h0` did not is one that a field among
/// `lo..hi` of the object in slot `k` of partition `p` points to.
pub open spec fn marked_from_slice(h0: PartitionedHeap, h1: PartitionedHeap, p: int, k: int, lo: int, hi: int) -> bool {
    forall|q: int, j: int| 0 <= q < MAX_PARTITIONS && 0 <= j < h0.partitions@[q].objects@.len()
        && #[trigger] h1.obj(q, j).marked && !h0.obj(q, j).marked ==> exists|i: int| lo <= i < hi
        && i < h0.obj(p, k).fields@.len() && h0.is_heap_pointer(#[trigger] h0.obj(p, k).fields@[i])
        && h0.partition_of(h0.obj(p, k).fields@[i].address()) == q && h0.slot_of(h0.obj(p, k).fields@[i].address()) == j
}

/// Every object that `h1` marks and `h0` did not is the target of a field
/// of an object marked in `h1`: marking only follows pointers.
pub open spec fn marks_justified(h0: PartitionedHeap, h1: PartitionedHeap) -> bool {
    forall|q: int, j: int| 0 <= q < MAX_PARTITIONS && 0 <= j < h0.partitions@[q].objects@.len()
        && #[trigger] h1.obj(q, j).marked && !h0.obj(q, j).marked ==> exists|p: int, k: int, i: int|
        0 <= p < MAX_PARTITIONS && 0 <= k < h1.partitions@[p].objects@.len() && h1.obj(p, k).marked && 0 <= i
        < h1.obj(p, k).fields@.len() && h1.is_heap_pointer(#[trigger] h1.obj(p, k).fields@[i])
        && h1.partition_of(h1.obj(p, k).fields@[i].address()) == q && h1.slot_of(h1.obj(p, k).fields@[i].address()) == j
}

pub proof fn lemma_marks_justified_trans(h0: PartitionedHeap, h1: PartitionedHeap, h2: PartitionedHeap)
    requires
        marks_grow(h0, h1),
        marks_grow(h1, h2),
        h0.partitions@.len() == MAX_PARTITIONS,
        marks_justified(h0, h1),
        marks_justified(h1, h2),
    ensures
        marks_justified(h0, h2),
{
    assert forall|q: int, j: int| 0 <= q < MAX_PARTITIONS && 0 <= j < h0.partitions@[q].objects@.len()
        && #[trigger] h2.obj(q, j).marked && !h0.obj(q, j).marked implies exists|p: int, k: int, i: int|
        0 <= p < MAX_PARTITIONS && 0 <= k < h2.partitions@[p].objects@.len() && h2.obj(p, k).marked && 0 <= i
        < h2.obj(p, k).fields@.len() && h2.is_heap_pointer(#[trigger] h2.obj(p, k).fields@[i])
        && h2.partition_of(h2.obj(p, k).fields@[i].address()) == q && h2.slot_of(h2.obj(p, k).fields@[i].address()) == j by {
        assert(h1.partitions@[q].objects@.len() == h0.partitions@[q].objects@.len());
        if h1.obj(q, j).marked {
            let (p, k, i) = choose|p: int, k: int, i: int|
                0 <= p < MAX_PARTITIONS && 0 <= k < h1.partitions@[p].objects@.len() && h1.obj(p, k).marked && 0 <= i
                < h1.obj(p, k).fields@.len() && h1.is_heap_pointer(#[trigger] h1.obj(p, k).fields@[i])
                && h1.partition_of(h1.obj(p, k).fields@[i].address()) == q && h1.slot_of(h1.obj(p, k).fields@[i].address()) == j;
            assert(h2.partitions@[p].objects@.len() == h1.partitions@[p].objects@.len());
            assert(h2.obj(p, k).marked);
            assert(h2.obj(p, k).fields@ == h1.obj(p, k).fields@);
            let v = h1.obj(p, k).fields@[i];
            assert(h2.is_heap_pointer(v));
            assert(h2.is_heap_pointer(h2.obj(p, k).fields@[i]));
        }
    }
}

/// Marking more objects keeps a scanned slice scanned.
pub proof fn lemma_slice_scanned_grow(h0: PartitionedHeap, p: int, k: int, h1: PartitionedHeap, h2: PartitionedHeap)
    requires
        h1.wf(),
        marks_grow(h1, h2),
        slice_scanned(h0, p, k, h1),
        h0.base == h1.base,
        h0.partitions@.len() == MAX_PARTITIONS,
        forall|q: int| 0 <= q < MAX_PARTITIONS ==> (#[trigger] h1.partitions@[q]).objects@.len() == h0.partitions@[q].objects@.len(),
    ensures
        slice_scanned(h0, p, k, h2),
{
    if has_pointer_fields(h0.obj(p, k).tag) {
        assert forall|i: int| scan_start(h0.obj(p, k)) <= i < slice_end(h0.obj(p, k))
            && h0.is_heap_pointer(#[trigger] h0.obj(p, k).fields@[i]) implies h2.target(h0.obj(p, k).fields@[i]).marked by {
            let v = h0.obj(p, k).fields@[i];
            assert(h1.is_heap_pointer(v));
            h1.lemma_object_address(v.address());
            assert(h1.target(v).marked);
        }
    }
}

/// The effect of marking `v`: if it points to an unmarked object, that
/// object alone becomes marked and `v` is pushed on the stack; otherwise
/// nothing changes.
pub open spec fn mark_step(
    h0: PartitionedHeap,
    s0: Seq<Value>,
    h1: PartitionedHeap,
    s1: Seq<Value>,
    v: Value,
) -> bool {
    if h0.is_heap_pointer(v) && !h0.target(v).marked {
        let p = h0.partition_of(v.address());
        let k = h0.slot_of(v.address());
        &&& h1.agrees_except(&h0, p, k)
        &&& h1.obj(p, k).marked
        &&& h1.obj(p, k).tag == h0.obj(p, k).tag
        &&& h1.obj(p, k).forward == h0.obj(p, k).forward
        &&& h1.obj(p, k).fields == h0.obj(p, k).fields
        &&& s1 == s0.push(v)
    } else {
        h1 == h0 && s1 == s0
    }
}

/// `h1` is `h0` with more marked objects and possibly other array tags.
pub open spec fn marks_grow(h0: PartitionedHeap, h1: PartitionedHeap) -> bool {
    &&& h1.same_content(&h0)
    &&& forall|p: int, k: int| 0 <= p < h0.partitions@.len() && 0 <= k < h0.partitions@[p].objects@.len()
        && #[trigger] h0.obj(p, k).marked ==> h1.obj(p, k).marked
}

pub proof fn lemma_marks_grow_trans(h0: PartitionedHeap, h1: PartitionedHeap, h2: PartitionedHeap)
    requires
        marks_grow(h0, h1),
        marks_grow(h1, h2),
    ensures
        marks_grow(h0, h2),
{
    assert forall|p: int, k: int| 0 <= p < h0.partitions@.len() && 0 <= k < h0.partitions@[p].objects@.len()
        && #[trigger] h0.obj(p, k).marked implies h2.obj(p, k).marked by {
        assert(h1.partitions@[p].objects@.len() == h0.partitions@[p].objects@.len());
        assert(h1.obj(p, k).marked);
    }
    assert forall|p: int, k: int| 0 <= p < h2.partitions@.len() && 0 <= k < h2.partitions@[p].objects@.len() implies {
        &&& (#[trigger] h2.obj(p, k)).fields@ == h0.obj(p, k).fields@
        &&& h2.obj(p, k).forward == h0.obj(p, k).forward
    } by {
        assert(h1.partitions@[p].objects@.len() == h2.partitions@[p].objects@.len());
        assert(h1.obj(p, k).fields@ == h0.obj(p, k).fields@);
    }
    assert forall|p: int| 0 <= p < h2.partitions@.len() implies {
        &&& (#[trigger] h2.partitions@[p]).objects@.len() == h0.partitions@[p].objects@.len()
        &&& h2.partitions@[p].to_be_evacuated == h0.partitions@[p].to_be_evacuated
        &&& h2.partitions@[p].occupied == h0.partitions@[p].occupied
    } by {
        assert(h1.partitions@[p].objects@.len() == h0.partitions@[p].objects@.len());
    }
}

/// Marking changes no partition's evacuation flag.
pub proof fn lemma_marks_grow_no_evacuation(h0: PartitionedHeap, h1: PartitionedHeap)
    requires
        marks_grow(h0, h1),
        h0.no_evacuation(),
    ensures
        h1.no_evacuation(),
{
    assert forall|p: int| 0 <= p < h1.partitions@.len() implies !(#[trigger] h1.partitions@[p]).to_be_evacuated by {
        assert(!h0.partitions@[p].to_be_evacuated);
    }
}

/// A change of one object's mark bit or tag lets the marks grow.
pub proof fn lemma_agrees_except_grows(h0: PartitionedHeap, h1: PartitionedHeap, p: int, k: int)
    requires
        h0.wf(),
        h1.wf(),
        0 <= p < MAX_PARTITIONS,
        0 <= k < h0.partitions@[p].objects@.len(),
        h1.agrees_except(&h0, p, k),
        h0.obj(p, k).marked ==> h1.obj(p, k).marked,
        h1.obj(p, k).forward == h0.obj(p, k).forward,
        h1.obj(p, k).fields == h0.obj(p, k).fields,
    ensures
        marks_grow(h0, h1),
{
    assert forall|q: int| 0 <= q < h1.partitions@.len() implies {
        &&& (#[trigger] h1.partitions@[q]).objects@.len() == h0.partitions@[q].objects@.len()
        &&& h1.partitions@[q].to_be_evacuated == h0.partitions@[q].to_be_evacuated
        &&& h1.partitions@[q].occupied == h0.partitions@[q].occupied
    } by {
        assert(h0.partition_ok(q));
        assert(h1.partition_ok(q));
        assert forall|j: int| 0 <= j < h1.partitions@[q].objects@.len() && (q != p || j != k)
            implies h1.partitions@[q].objects@[j] == h0.partitions@[q].objects@[j] by {
            assert(h1.obj(q, j) == h0.obj(q, j));
        }
        if q == p {
            assert(h1.partitions@[q].objects@ =~= h0.partitions@[q].objects@.update(k, h1.obj(p, k)));
            lemma_words_update(h0.partitions@[q].objects@, k, h1.obj(p, k), false);
        } else {
            assert(h1.partitions@[q].objects@ =~= h0.partitions@[q].objects@);
        }
    }
}

pub proof fn lemma_mark_step_grows(h0: PartitionedHeap, s0: Seq<Value>, h1: PartitionedHeap, s1: Seq<Value>, v: Value)
    requires
        h0.wf(),
        h1.wf(),
        mark_step(h0, s0, h1, s1, v),
    ensures
        marks_grow(h0, h1),
{
    if h0.is_heap_pointer(v) && !h0.target(v).marked {
        h0.lemma_object_address(v.address());
        lemma_agrees_except_grows(h0, h1, h0.partition_of(v.address()), h0.slot_of(v.address()));
    }
}

/// The pointer to the object in slot `k` of partition `p`.
pub open spec fn pointer_to(heap: PartitionedHeap, p: int, k: int) -> Value {
    Value { raw: skew(heap.address_of(p, k)) as usize }
}

/// The first element of an array that is still to be scanned.
pub open spec fn scan_start(o: Object) -> int {
    if o.tag >= TAG_ARRAY_SLICE_MIN {
        o.tag - TAG_ARRAY_SLICE_MIN
    } else {
        0
    }
}

/// The first `n` fields of the object in slot `k` of partition `p` point to
/// marked objects, where they point into the heap.
pub open spec fn fields_marked(heap: PartitionedHeap, p: int, k: int, n: int) -> bool {
    forall|i: int| 0 <= i < n && i < heap.obj(p, k).fields@.len() && heap.is_heap_pointer(
        #[trigger] heap.obj(p, k).fields@[i],
    ) ==> heap.target(heap.obj(p, k).fields@[i]).marked
}

/// What marking keeps of one object: an unmarked object is not in the middle
/// of being sliced, and a marked object that holds pointers has had its
/// fields scanned, all of them unless it is on the mark stack, and those
/// before its next slice if it is.
pub open spec fn scan_ok(heap: PartitionedHeap, stack: Seq<Value>, p: int, k: int) -> bool {
    let o = heap.obj(p, k);
    &&& (!o.marked ==> o.tag < TAG_ARRAY_SLICE_MIN)
    &&& (o.marked && has_pointer_fields(o.tag) ==> if stack.contains(pointer_to(heap, p, k)) {
        fields_marked(heap, p, k, scan_start(o))
    } else {
        fields_marked(heap, p, k, o.fields@.len() as int)
    })
}

/// The mark stack holds pointers to marked objects.
pub open spec fn stack_ok(heap: PartitionedHeap, stack: Seq<Value>) -> bool {
    forall|i: int| 0 <= i < stack.len() ==> heap.is_heap_pointer(#[trigger] stack[i]) && heap.target(stack[i]).marked
}

/// The invariant of marking: every object is as `scan_ok` says, and the
/// stack holds marked objects.
pub open spec fn scan_invariant(heap: PartitionedHeap, stack: Seq<Value>) -> bool {
    scan_invariant_except(heap, stack, -1, -1)
}

/// The invariant of marking, but for the object in slot `k` of partition
/// `p`, which is being scanned.
pub open spec fn scan_invariant_except(heap: PartitionedHeap, stack: Seq<Value>, p: int, k: int) -> bool {
    &&& stack_ok(heap, stack)
    &&& forall|q: int, j: int| 0 <= q < MAX_PARTITIONS && 0 <= j < heap.partitions@[q].objects@.len()
        && (q != p || j != k) ==> #[trigger] scan_ok(heap, stack, q, j)
}

/// Every marked object that holds pointers points to marked objects only.
pub open spec fn marked_closed(heap: PartitionedHeap) -> bool {
    forall|p: int, k: int| 0 <= p < MAX_PARTITIONS && 0 <= k < heap.partitions@[p].objects@.len()
        && (#[trigger] heap.obj(p, k)).marked && has_pointer_fields(heap.obj(p, k).tag)
        ==> fields_marked(heap, p, k, heap.obj(p, k).fields@.len() as int)
}

/// Different slots have different pointers.
pub proof fn lemma_pointer_to_injective(heap: PartitionedHeap, p: int, k: int, q: int, j: int)
    requires
        heap.wf(),
        0 <= p < MAX_PARTITIONS,
        0 <= k < heap.partitions@[p].objects@.len(),
        0 <= q < MAX_PARTITIONS,
        0 <= j < heap.partitions@[q].objects@.len(),
        pointer_to(heap, p, k) == pointer_to(heap, q, j),
    ensures
        p == q && k == j,
{
    heap.lemma_address_decodes(p, k);
    heap.lemma_address_decodes(q, j);
}

/// A heap pointer is the pointer to its slot.
pub proof fn lemma_pointer_to_slot(heap: PartitionedHeap, v: Value)
    requires
        heap.wf(),
        heap.is_heap_pointer(v),
    ensures
        v == pointer_to(heap, heap.partition_of(v.address()), heap.slot_of(v.address())),
        0 <= heap.partition_of(v.address()) < MAX_PARTITIONS,
        0 <= heap.slot_of(v.address()) < heap.partitions@[heap.partition_of(v.address())].objects@.len(),
{
    heap.lemma_object_address(v.address());
}

/// Marking more objects keeps fields marked.
pub proof fn lemma_fields_marked_grow(h0: PartitionedHeap, h1: PartitionedHeap, p: int, k: int, n: int)
    requires
        h0.wf(),
        marks_grow(h0, h1),
        0 <= p < MAX_PARTITIONS,
        0 <= k < h0.partitions@[p].objects@.len(),
        fields_marked(h0, p, k, n),
    ensures
        fields_marked(h1, p, k, n),
{
    assert forall|i: int| 0 <= i < n && i < h1.obj(p, k).fields@.len() && h1.is_heap_pointer(
        #[trigger] h1.obj(p, k).fields@[i],
    ) implies h1.target(h1.obj(p, k).fields@[i]).marked by {
        let v = h1.obj(p, k).fields@[i];
        assert(v == h0.obj(p, k).fields@[i]);
        assert(h0.is_heap_pointer(v));
        h0.lemma_object_address(v.address());
        assert(h0.target(v).marked);
    }
}

/// An object that stays as it was, with the same stack membership, keeps
/// `scan_ok` when marks grow.
pub proof fn lemma_scan_ok_kept(
    h0: PartitionedHeap,
    s0: Seq<Value>,
    h1: PartitionedHeap,
    s1: Seq<Value>,
    p: int,
    k: int,
)
    requires
        h0.wf(),
        marks_grow(h0, h1),
        0 <= p < MAX_PARTITIONS,
        0 <= k < h0.partitions@[p].objects@.len(),
        h1.obj(p, k) == h0.obj(p, k),
        s1.contains(pointer_to(h1, p, k)) == s0.contains(pointer_to(h0, p, k)),
        scan_ok(h0, s0, p, k),
    ensures
        scan_ok(h1, s1, p, k),
{
    let o = h0.obj(p, k);
    if o.marked && has_pointer_fields(o.tag) {
        if s0.contains(pointer_to(h0, p, k)) {
            lemma_fields_marked_grow(h0, h1, p, k, scan_start(o));
        } else {
            lemma_fields_marked_grow(h0, h1, p, k, o.fields@.len() as int);
        }
    }
}

/// Marking keeps the stack's objects marked.
pub proof fn lemma_stack_ok_grow(h0: PartitionedHeap, h1: PartitionedHeap, s: Seq<Value>)
    requires
        h0.wf(),
        marks_grow(h0, h1),
        stack_ok(h0, s),
    ensures
        stack_ok(h1, s),
{
    assert forall|i: int| 0 <= i < s.len() implies h1.is_heap_pointer(#[trigger] s[i]) && h1.target(s[i]).marked by {
        h0.lemma_object_address(s[i].address());
    }
}

/// A mark step keeps the invariant of marking, also where the object in
/// slot `ek` of partition `ep` is left out, if that one is marked.
pub proof fn lemma_mark_step_scan(
    h0: PartitionedHeap,
    s0: Seq<Value>,
    h1: PartitionedHeap,
    s1: Seq<Value>,
    v: Value,
    ep: int,
    ek: int,
)
    requires
        h0.wf(),
        h1.wf(),
        mark_step(h0, s0, h1, s1, v),
        scan_invariant_except(h0, s0, ep, ek),
        0 <= ep < MAX_PARTITIONS && 0 <= ek < h0.partitions@[ep].objects@.len() ==> h0.obj(ep, ek).marked,
    ensures
        scan_invariant_except(h1, s1, ep, ek),
{
    lemma_mark_step_grows(h0, s0, h1, s1, v);
    if h0.is_heap_pointer(v) && !h0.target(v).marked {
        lemma_pointer_to_slot(h0, v);
        let p0 = h0.partition_of(v.address());
        let k0 = h0.slot_of(v.address());
        lemma_stack_ok_grow(h0, h1, s0);
        assert forall|i: int| 0 <= i < s1.len() implies h1.is_heap_pointer(#[trigger] s1[i]) && h1.target(s1[i]).marked by {
            if i < s0.len() {
                assert(s1[i] == s0[i]);
            } else {
                h1.lemma_object_address(v.address());
            }
        }
        assert forall|p: int, k: int| 0 <= p < MAX_PARTITIONS && 0 <= k < h1.partitions@[p].objects@.len()
            && (p != ep || k != ek) implies #[trigger] scan_ok(h1, s1, p, k) by {
            assert(scan_ok(h0, s0, p, k));
            if p == p0 && k == k0 {
                assert(s1.contains(pointer_to(h1, p, k))) by {
                    assert(s1[s1.len() - 1] == v);
                }
            } else {
                assert(h1.obj(p, k) == h0.obj(p, k));
                if s1.contains(pointer_to(h1, p, k)) {
                    let i = choose|i: int| 0 <= i < s1.len() && s1[i] == pointer_to(h1, p, k);
                    if i == s0.len() {
                        lemma_pointer_to_injective(h0, p, k, p0, k0);
                    } else {
                        assert(s0[i] == s1[i]);
                    }
                }
                if s0.contains(pointer_to(h0, p, k)) {
                    let i = choose|i: int| 0 <= i < s0.len() && s0[i] == pointer_to(h0, p, k);
                    assert(s1[i] == s0[i]);
                }
                lemma_scan_ok_kept(h0, s0, h1, s1, p, k);
            }
        }
    }
}

/// The object in slot `k` of partition `p` was just popped for scanning:
/// it is marked, the fields before its next slice point to marked objects,
/// and every other object keeps the invariant of marking.
pub open spec fn scan_pending(heap: PartitionedHeap, stack: Seq<Value>, p: int, k: int) -> bool {
    &&& heap.wf()
    &&& 0 <= p < MAX_PARTITIONS
    &&& 0 <= k < heap.partitions@[p].objects@.len()
    &&& heap.obj(p, k).marked
    &&& fields_marked(heap, p, k, scan_start(heap.obj(p, k)))
    &&& scan_invariant_except(heap, stack, p, k)
}

pub proof fn lemma_pointer_to_is_heap_pointer(heap: PartitionedHeap, p: int, k: int)
    requires
        heap.wf(),
        0 <= p < MAX_PARTITIONS,
        0 <= k < heap.partitions@[p].objects@.len(),
    ensures
        heap.is_heap_pointer(pointer_to(heap, p, k)),
        heap.partition_of(pointer_to(heap, p, k).address()) == p,
        heap.slot_of(pointer_to(heap, p, k).address()) == k,
{
    heap.lemma_address_decodes(p, k);
    crate::value::lemma_aligned_pred_odd(heap.address_of(p, k));
}

/// Setting up the scan of a popped object: a change of its tag and a push
/// of its pointer keep the invariant for the others.
proof fn lemma_scan_setup(
    h0: PartitionedHeap,
    s0: Seq<Value>,
    h1: PartitionedHeap,
    s1: Seq<Value>,
    p: int,
    k: int,
    start: int,
)
    requires
        scan_pending(h0, s0, p, k),
        h1.wf(),
        marks_grow(h0, h1),
        h1.agrees_except(&h0, p, k),
        h1.obj(p, k).marked,
        h1.obj(p, k).fields == h0.obj(p, k).fields,
        s1 == s0 || s1 == s0.push(pointer_to(h1, p, k)),
        start == scan_start(h0.obj(p, k)),
    ensures
        scan_invariant_except(h1, s1, p, k),
        fields_marked(h1, p, k, start),
{
    lemma_fields_marked_grow(h0, h1, p, k, start);
    lemma_stack_ok_grow(h0, h1, s0);
    lemma_pointer_to_is_heap_pointer(h1, p, k);
    assert forall|i: int| 0 <= i < s1.len() implies h1.is_heap_pointer(#[trigger] s1[i]) && h1.target(s1[i]).marked by {
        if i < s0.len() {
            assert(s1[i] == s0[i]);
        }
    }
    assert forall|q: int, j: int| 0 <= q < MAX_PARTITIONS && 0 <= j < h1.partitions@[q].objects@.len()
        && (q != -1 || j != -1) && (q != p || j != k) implies #[trigger] scan_ok(h1, s1, q, j) by {
        assert(scan_ok(h0, s0, q, j));
        assert(h1.obj(q, j) == h0.obj(q, j));
        if s1.contains(pointer_to(h1, q, j)) {
            let i = choose|i: int| 0 <= i < s1.len() && s1[i] == pointer_to(h1, q, j);
            if i == s0.len() {
                lemma_pointer_to_injective(h1, p, k, q, j);
            } else {
                assert(s0[i] == s1[i]);
            }
        }
        if s0.contains(pointer_to(h0, q, j)) {
            let i = choose|i: int| 0 <= i < s0.len() && s0[i] == pointer_to(h0, q, j);
            assert(s1[i] == s0[i]);
        }
        lemma_scan_ok_kept(h0, s0, h1, s1, q, j);
    }
}

/// Marking the object that field `i` of a marked object points to extends
/// the scanned prefix of that object by one field.
proof fn lemma_scan_field_step(
    h0: PartitionedHeap,
    s0: Seq<Value>,
    h1: PartitionedHeap,
    s1: Seq<Value>,
    v: Value,
    p: int,
    k: int,
    i: int,
)
    requires
        h0.wf(),
        h1.wf(),
        mark_step(h0, s0, h1, s1, v),
        0 <= p < MAX_PARTITIONS,
        0 <= k < h0.partitions@[p].objects@.len(),
        h0.obj(p, k).marked,
        0 <= i < h0.obj(p, k).fields@.len(),
        h0.obj(p, k).fields@[i] == v,
        fields_marked(h0, p, k, i),
    ensures
        fields_marked(h1, p, k, i + 1),
        h1.obj(p, k) == h0.obj(p, k),
        s1.contains(pointer_to(h1, p, k)) == s0.contains(pointer_to(h0, p, k)),
{
    lemma_mark_step_grows(h0, s0, h1, s1, v);
    lemma_fields_marked_grow(h0, h1, p, k, i);
    if h0.is_heap_pointer(v) {
        lemma_pointer_to_slot(h0, v);
    }
    if h0.is_heap_pointer(v) && !h0.target(v).marked {
        assert(h1.obj(p, k) == h0.obj(p, k));
        if s1.contains(pointer_to(h1, p, k)) {
            let j = choose|j: int| 0 <= j < s1.len() && s1[j] == pointer_to(h1, p, k);
            if j == s0.len() {
                lemma_pointer_to_injective(h0, p, k, h0.partition_of(v.address()), h0.slot_of(v.address()));
            } else {
                assert(s0[j] == s1[j]);
            }
        }
        if s0.contains(pointer_to(h0, p, k)) {
            let j = choose|j: int| 0 <= j < s0.len() && s0[j] == pointer_to(h0, p, k);
            assert(s1[j] == s0[j]);
        }
    }
    assert forall|j: int| 0 <= j < i + 1 && j < h1.obj(p, k).fields@.len() && h1.is_heap_pointer(
        #[trigger] h1.obj(p, k).fields@[j],
    ) implies h1.target(h1.obj(p, k).fields@[j]).marked by {
        if j == i {
            lemma_pointer_to_slot(h1, v);
        }
    }
}

/// The object on top of the mark stack is ready to be scanned once popped.
proof fn lemma_pop_pending(heap: PartitionedHeap, stack: Seq<Value>)
    requires
        heap.wf(),
        scan_invariant(heap, stack),
        stack.len() > 0,
    ensures
        heap.is_heap_pointer(stack.last()),
        scan_pending(
            heap,
            stack.drop_last(),
            heap.partition_of(stack.last().address()),
            heap.slot_of(stack.last().address()),
        ),
{
    let v = stack.last();
    let rest = stack.drop_last();
    assert(stack[stack.len() - 1] == v);
    lemma_pointer_to_slot(heap, v);
    let p = heap.partition_of(v.address());
    let k = heap.slot_of(v.address());
    assert(scan_ok(heap, stack, p, k));
    assert(stack.contains(pointer_to(heap, p, k)));
    assert forall|i: int| 0 <= i < rest.len() implies heap.is_heap_pointer(#[trigger] rest[i]) && heap.target(rest[i]).marked by {
        assert(rest[i] == stack[i]);
    }
    assert forall|q: int, j: int| 0 <= q < MAX_PARTITIONS && 0 <= j < heap.partitions@[q].objects@.len()
        && (q != p || j != k) implies #[trigger] scan_ok(heap, rest, q, j) by {
        assert(scan_ok(heap, stack, q, j));
        if stack.contains(pointer_to(heap, q, j)) {
            let i = choose|i: int| 0 <= i < stack.len() && stack[i] == pointer_to(heap, q, j);
            if i == stack.len() - 1 {
                lemma_pointer_to_injective(heap, p, k, q, j);
            } else {
                assert(rest[i] == stack[i]);
            }
        }
        if rest.contains(pointer_to(heap, q, j)) {
            let i = choose|i: int| 0 <= i < rest.len() && rest[i] == pointer_to(heap, q, j);
            assert(stack[i] == rest[i]);
        }
    }
}

/// The end of a scan restores the invariant of marking.
proof fn lemma_scan_finish(heap: PartitionedHeap, stack: Seq<Value>, p: int, k: int, i: int)
    requires
        0 <= p < MAX_PARTITIONS,
        0 <= k < heap.partitions@[p].objects@.len(),
        scan_invariant_except(heap, stack, p, k),
        heap.obj(p, k).marked,
        fields_marked(heap, p, k, i),
        stack.contains(pointer_to(heap, p, k)) ==> scan_start(heap.obj(p, k)) <= i,
        !stack.contains(pointer_to(heap, p, k)) ==> heap.obj(p, k).fields@.len() <= i,
    ensures
        scan_invariant(heap, stack),
{
    assert(scan_ok(heap, stack, p, k));
    assert forall|q: int, j: int| 0 <= q < MAX_PARTITIONS && 0 <= j < heap.partitions@[q].objects@.len()
        && (q != -1 || j != -1) implies #[trigger] scan_ok(heap, stack, q, j) by {
        if q == p && j == k {
        } else {
            assert(scan_ok(heap, stack, q, j));
        }
    }
}

/// When the mark stack is empty, the invariant of marking means that the
/// marked objects are closed under their pointers.
pub proof fn lemma_scan_complete(heap: PartitionedHeap, stack: Seq<Value>)
    requires
        scan_invariant(heap, stack),
        stack.len() == 0,
    ensures
        marked_closed(heap),
{
    assert forall|p: int, k: int| 0 <= p < MAX_PARTITIONS && 0 <= k < heap.partitions@[p].objects@.len()
        && (#[trigger] heap.obj(p, k)).marked && has_pointer_fields(heap.obj(p, k).tag)
        implies fields_marked(heap, p, k, heap.obj(p, k).fields@.len() as int) by {
        assert(scan_ok(heap, stack, p, k));
        assert(!stack.contains(pointer_to(heap, p, k)));
    }
}

/// A heap where nothing is marked and no array is being sliced, with an
/// empty stack, satisfies the invariant of marking.
pub proof fn lemma_scan_start(heap: PartitionedHeap)
    requires
        forall|p: int, k: int| 0 <= p < MAX_PARTITIONS && 0 <= k < heap.partitions@[p].objects@.len()
            ==> !(#[trigger] heap.obj(p, k)).marked && heap.obj(p, k).tag < TAG_ARRAY_SLICE_MIN,
    ensures
        scan_invariant(heap, Seq::empty()),
{
    assert forall|p: int, k: int| 0 <= p < MAX_PARTITIONS && 0 <= k < heap.partitions@[p].objects@.len()
        implies #[trigger] scan_ok(heap, Seq::empty(), p, k) by {
        assert(!heap.obj(p, k).marked);
    }
}

/// A field of the object that `u` points to holds `v`.
pub open spec fn points_to_from(heap: PartitionedHeap, u: Value, v: Value) -> bool {
    &&& heap.is_heap_pointer(u)
    &&& has_pointer_fields(heap.target(u).tag)
    &&& exists|i: int| 0 <= i < heap.target(u).fields@.len() && #[trigger] heap.target(u).fields@[i] == v
}

/// `path` starts at a root and each of its values is held by a field of the
/// object the value before it points to.
pub open spec fn is_path(heap: PartitionedHeap, roots: Seq<Value>, path: Seq<Value>) -> bool {
    &&& path.len() > 0
    &&& roots.contains(path[0])
    &&& forall|j: int| 0 <= j < path.len() - 1 ==> points_to_from(heap, #[trigger] path[j], path[j + 1])
}

/// Marking reaches everything: when the invariant of marking holds with an
/// empty mark stack and every root that points into the heap is marked,
/// every heap object on a path from the roots is marked. Marking that starts
/// with no object marked and no array mid-slice establishes the invariant
/// (`lemma_scan_start`), and marking the roots and running the increments
/// keeps it, so an uninterrupted marking that completes marks all objects
/// reachable from the roots.
pub proof fn law_marking_reaches_everything(
    heap: PartitionedHeap,
    stack: Seq<Value>,
    roots: Seq<Value>,
    path: Seq<Value>,
    j: int,
)
    requires
        heap.wf(),
        scan_invariant(heap, stack),
        stack.len() == 0,
        forall|r: Value| #[trigger] roots.contains(r) && heap.is_heap_pointer(r) ==> heap.target(r).marked,
        is_path(heap, roots, path),
        0 <= j < path.len(),
        heap.is_heap_pointer(path[j]),
    ensures
        heap.target(path[j]).marked,
    decreases j,
{
    if j > 0 {
        let u = path[j - 1];
        assert(points_to_from(heap, path[j - 1], path[(j - 1) + 1]));
        law_marking_reaches_everything(heap, stack, roots, path, j - 1);
        let i = choose|i: int| 0 <= i < heap.target(u).fields@.len() && #[trigger] heap.target(u).fields@[i] == path[j];
        lemma_scan_complete(heap, stack);
        lemma_pointer_to_slot(heap, u);
        let p = heap.partition_of(u.address());
        let k = heap.slot_of(u.address());
        assert(fields_marked(heap, p, k, heap.obj(p, k).fields@.len() as int));
        assert(heap.obj(p, k).fields@[i] == path[j]);
    }
}

/// Marking is idempotent: marking the same value again changes neither the
/// heap nor the mark stack, so the stack gains at most one entry.
pub proof fn law_mark_object_idempotent(
    h0: PartitionedHeap,
    s0: Seq<Value>,
    h1: PartitionedHeap,
    s1: Seq<Value>,
    h2: PartitionedHeap,
    s2: Seq<Value>,
    v: Value,
)
    requires
        h0.wf(),
        mark_step(h0, s0, h1, s1, v),
        mark_step(h1, s1, h2, s2, v),
    ensures
        h2 == h1,
        s2 == s1,
        s1 == s0 || s1 == s0.push(v),
        h0.is_heap_pointer(v) ==> h1.target(v).marked,
{
    if h0.is_heap_pointer(v) {
        h0.lemma_object_address(v.address());
    }
}

/// A mark step marks at most the object that the marked value points to.
pub proof fn law_mark_step_marks_only_target(
    h0: PartitionedHeap,
    s0: Seq<Value>,
    h1: PartitionedHeap,
    s1: Seq<Value>,
    v: Value,
    p: int,
    k: int,
)
    requires
        h0.wf(),
        mark_step(h0, s0, h1, s1, v),
        0 <= p < MAX_PARTITIONS,
        0 <= k < h0.partitions@[p].objects@.len(),
        h1.obj(p, k).marked,
        !h0.obj(p, k).marked,
    ensures
        h0.is_heap_pointer(v),
        v.address() == h0.address_of(p, k),
{
    if h0.is_heap_pointer(v) {
        h0.lemma_object_address(v.address());
    }
}

/// Work of one mark increment, within a time budget.
pub struct MarkIncrement {
    pub time: BoundedTime,
}

impl MarkIncrement {
    pub fn instance(limit: usize) -> (r: MarkIncrement)
        requires
            limit < usize::MAX,
        ensures
            r.time.wf(),
            r.time.steps == 0,
            r.time.limit == limit,
    {
        MarkIncrement { time: BoundedTime::new(limit) }
    }

    /// Begin a mark phase: allocation moves to a fresh partition, and the
    /// mark stack starts empty.
    pub fn start_phase(heap: &mut PartitionedHeap) -> (r: MarkState)
        requires
            old(heap).wf(),
        ensures
            final(heap).wf(),
            final(heap).extends(old(heap)),
            final(heap).partitions == old(heap).partitions,
            (exists|q: int| 0 <= q < MAX_PARTITIONS && #[trigger] old(heap).is_free_partition(q))
                ==> final(heap).is_free_partition(final(heap).allocation_index as int),
            r.mark_stack@ == Seq::<Value>::empty(),
            !r.complete,
    {
        heap.start_new_allocation_partition();
        MarkState::new()
    }

    /// Whether marking is done: it completed and the mark stack is empty.
    pub fn mark_completed(state: &MarkState) -> (r: bool)
        ensures
            r == (state.complete && state.mark_stack@.len() == 0),
            r ==> state.mark_stack@.len() == 0,
    {
        state.complete && state.mark_stack.len() == 0
    }

    /// Mark the object `value` points to, if it is an unmarked heap object.
    pub fn mark_object(&mut self, heap: &mut PartitionedHeap, state: &mut MarkState, value: Value)
        requires
            old(heap).no_evacuation(),
            old(heap).wf(),
            !old(state).complete,
            old(self).time.wf(),
        ensures
            final(heap).no_evacuation(),
            final(heap).wf(),
            final(self).time.wf(),
            final(self).time.limit == old(self).time.limit,
            final(self).time.steps >= old(self).time.steps,
            mark_step(*old(heap), old(state).mark_stack@, *final(heap), final(state).mark_stack@, value),
            final(state).complete == old(state).complete,
            scan_invariant(*old(heap), old(state).mark_stack@) ==> scan_invariant(*final(heap), final(state).mark_stack@),
            forall|snapshot: Set<(int, int)>| #[trigger] snapshot_covered(*old(heap), old(state).mark_stack@, snapshot)
                ==> snapshot_covered(*final(heap), final(state).mark_stack@, snapshot),
    {
        let ghost h0 = *heap;
        let ghost s0 = state.mark_stack@;
        self.time.tick();
        match heap.lookup(value) {
            Some((p, k)) => {
                if !heap.partitions[p].objects[k].marked {
                    heap.set_mark(p, k, true);
                    state.mark_stack.push(value);
                }
            },
            None => {},
        }
        proof {
            if scan_invariant(h0, s0) {
                lemma_mark_step_scan(h0, s0, *heap, state.mark_stack@, value, -1, -1);
            }
            assert forall|snapshot: Set<(int, int)>| #[trigger] snapshot_covered(h0, s0, snapshot)
                implies snapshot_covered(*heap, state.mark_stack@, snapshot) by {
                lemma_mark_step_covered(h0, s0, *heap, state.mark_stack@, value, snapshot);
            }
        }
    }

    /// Mark the objects that the fields of the object in slot `k` of
    /// partition `p` point to; for an array, those of its next slice.
    fn mark_fields(&mut self, heap: &mut PartitionedHeap, state: &mut MarkState, p: usize, k: usize)
        requires
            old(heap).obj(p as int, k as int).marked,
            old(heap).no_evacuation(),
            old(heap).wf(),
            !old(state).complete,
            old(self).time.wf(),
            p < MAX_PARTITIONS,
            k < old(heap).partitions@[p as int].objects@.len(),
        ensures
            final(heap).no_evacuation(),
            final(heap).wf(),
            marks_grow(*old(heap), *final(heap)),
            final(self).time.wf(),
            final(self).time.limit == old(self).time.limit,
            final(self).time.steps >= old(self).time.steps,
            final(state).complete == old(state).complete,
            scan_pending(*old(heap), old(state).mark_stack@, p as int, k as int)
                ==> scan_invariant(*final(heap), final(state).mark_stack@),
            forall|snapshot: Set<(int, int)>| old(heap).obj(p as int, k as int).marked && #[trigger] covered_while_scanning(
                *old(heap),
                old(state).mark_stack@,
                snapshot,
                (p as int, k as int),
                scan_start(old(heap).obj(p as int, k as int)),
            ) ==> snapshot_covered(*final(heap), final(state).mark_stack@, snapshot),
            slice_scanned(*old(heap), p as int, k as int, *final(heap)),
            crate::heap::is_array_tag(old(heap).obj(p as int, k as int).tag) ==> final(heap).obj(p as int, k as int).tag
                == slice_tag(old(heap).obj(p as int, k as int)),
            is_sliced(old(heap).obj(p as int, k as int)) ==> final(state).mark_stack@.len() > old(state).mark_stack@.len()
                && final(state).mark_stack@[old(state).mark_stack@.len() as int] == pointer_to(*old(heap), p as int, k as int),
            old(state).mark_stack@.len() <= final(state).mark_stack@.len(),
            forall|j: int| 0 <= j < old(state).mark_stack@.len() ==> #[trigger] final(state).mark_stack@[j] == old(state).mark_stack@[j],
            forall|j: int| old(state).mark_stack@.len() + (if is_sliced(old(heap).obj(p as int, k as int)) { 1int } else { 0int }) <= j
                < final(state).mark_stack@.len() ==> pushed_field(*old(heap), p as int, k as int, scan_start(
                old(heap).obj(p as int, k as int),
            ), slice_end(old(heap).obj(p as int, k as int)), #[trigger] final(state).mark_stack@[j]),
            marked_from_slice(*old(heap), *final(heap), p as int, k as int, scan_start(old(heap).obj(p as int, k as int)), slice_end(
                old(heap).obj(p as int, k as int),
            )),
    {
        let ghost h0 = *heap;
        let ghost s0 = state.mark_stack@;
        let ghost pending = scan_pending(h0, s0, p as int, k as int);
        let tag = heap.partitions[p].objects[k].tag;
        if !(tag == TAG_OBJECT || tag == TAG_ARRAY || tag == TAG_MUTBOX || tag >= TAG_ARRAY_SLICE_MIN) {
            proof {
                assert forall|snapshot: Set<(int, int)>| h0.obj(p as int, k as int).marked && #[trigger] covered_while_scanning(
                    h0, s0, snapshot, (p as int, k as int), scan_start(h0.obj(p as int, k as int)))
                    implies snapshot_covered(*heap, state.mark_stack@, snapshot) by {
                    lemma_scan_finish_covered(h0, s0, snapshot, (p as int, k as int), scan_start(h0.obj(p as int, k as int)));
                }
                if pending {
                    assert forall|q: int, j: int| 0 <= q < MAX_PARTITIONS && 0 <= j < heap.partitions@[q].objects@.len()
                        && (q != -1 || j != -1) implies #[trigger] scan_ok(*heap, state.mark_stack@, q, j) by {
                        if q != p || j != k {
                            assert(scan_ok(h0, s0, q, j));
                        }
                    }
                }
            }
            return;
        }
        proof {
            assert(heap.partition_ok(p as int));
            lemma_words_element(heap.partitions@[p as int].objects@, k as int, false);
        }
        let length = heap.partitions[p].objects[k].fields.len();
        let mut start: usize = 0;
        let mut end: usize = length;
        let ghost mut sliced = false;
        let ghost mut retagged = false;
        if tag == TAG_ARRAY || tag >= TAG_ARRAY_SLICE_MIN {
            if tag >= TAG_ARRAY_SLICE_MIN {
                start = (tag - TAG_ARRAY_SLICE_MIN) as usize;
            }
            if start < length && length - start > SLICE_INCREMENT {
                end = start + SLICE_INCREMENT;
                heap.set_tag(p, k, TAG_ARRAY_SLICE_MIN + end as u32);
                let address = heap.slot_address(p, k);
                state.mark_stack.push(Value::from_ptr(address));
                proof {
                    sliced = true;
                }
                self.time.advance(SLICE_INCREMENT);
            } else {
                heap.set_tag(p, k, TAG_ARRAY);
                if start < length {
                    self.time.advance(length - start);
                }
            }
            proof {
                lemma_agrees_except_grows(h0, *heap, p as int, k as int);
                retagged = true;
            }
        }
        let ghost h1 = *heap;
        let ghost s1 = state.mark_stack@;
        proof {
            if sliced {
                assert(s1[s1.len() - 1] == pointer_to(h1, p as int, k as int));
            }
            if pending {
                lemma_scan_setup(h0, s0, h1, s1, p as int, k as int, start as int);
            }
            assert forall|snapshot: Set<(int, int)>| h0.obj(p as int, k as int).marked && #[trigger] covered_while_scanning(
                h0, s0, snapshot, (p as int, k as int), scan_start(h0.obj(p as int, k as int)))
                implies covered_while_scanning(h1, s1, snapshot, (p as int, k as int), start as int) by {
                if retagged {
                    lemma_scan_setup_covered(h0, s0, h1, s1, snapshot, (p as int, k as int), start as int);
                }
            }
        }
        let mut i: usize = start;
        while i < end
            invariant
                heap.wf(),
                self.time.wf(),
                self.time.limit == old(self).time.limit,
                self.time.steps >= old(self).time.steps,
                state.complete == old(state).complete,
                !state.complete,
                marks_grow(h0, *heap),
                heap.no_evacuation(),
                h0.obj(p as int, k as int).fields@.len() == length,
                end <= length,
                p < MAX_PARTITIONS,
                k < heap.partitions@[p as int].objects@.len(),
                heap.obj(p as int, k as int).fields@ == h0.obj(p as int, k as int).fields@,
                heap.obj(p as int, k as int).tag == h1.obj(p as int, k as int).tag,
                heap.base == h1.base,
                pending ==> {
                    &&& scan_invariant_except(*heap, state.mark_stack@, p as int, k as int)
                    &&& fields_marked(*heap, p as int, k as int, i as int)
                    &&& heap.obj(p as int, k as int).marked
                    &&& state.mark_stack@.contains(pointer_to(*heap, p as int, k as int)) == s1.contains(pointer_to(h1, p as int, k as int))
                },
                i >= start,
                start == scan_start(h0.obj(p as int, k as int)) || !pending,
                sliced ==> h1.obj(p as int, k as int).tag == TAG_ARRAY_SLICE_MIN + end && s1.contains(pointer_to(h1, p as int, k as int)),
                !sliced ==> end == length && h1.obj(p as int, k as int).tag < TAG_ARRAY_SLICE_MIN,
                forall|snapshot: Set<(int, int)>| h0.obj(p as int, k as int).marked && #[trigger] covered_while_scanning(
                    h0, s0, snapshot, (p as int, k as int), scan_start(h0.obj(p as int, k as int)))
                    ==> covered_while_scanning(*heap, state.mark_stack@, snapshot, (p as int, k as int), i as int),
                h0.wf(),
                h0.partitions@[p as int].objects@.len() == heap.partitions@[p as int].objects@.len(),
                s1.contains(pointer_to(h1, p as int, k as int)) ==> state.mark_stack@.contains(pointer_to(*heap, p as int, k as int)),
                sliced == is_sliced(h0.obj(p as int, k as int)),
                end == slice_end(h0.obj(p as int, k as int)),
                start == scan_start(h0.obj(p as int, k as int)) || !has_pointer_fields(h0.obj(p as int, k as int).tag),
                sliced ==> state.mark_stack@.len() > s0.len() && state.mark_stack@[s0.len() as int] == pointer_to(h0, p as int, k as int),
                forall|j: int| start <= j < i && h0.is_heap_pointer(#[trigger] h0.obj(p as int, k as int).fields@[j])
                    ==> heap.target(h0.obj(p as int, k as int).fields@[j]).marked,
                s0.len() <= state.mark_stack@.len(),
                forall|j: int| 0 <= j < s0.len() ==> #[trigger] state.mark_stack@[j] == s0[j],
                forall|j: int| s0.len() + (if sliced { 1int } else { 0int }) <= j < state.mark_stack@.len()
                    ==> pushed_field(h0, p as int, k as int, start as int, i as int, #[trigger] state.mark_stack@[j]),
                marked_from_slice(h0, *heap, p as int, k as int, start as int, i as int),
                sliced ==> i <= end,
            decreases end - i,
        {
            let field = heap.partitions[p].objects[k].fields[i];
            let ghost before = *heap;
            let ghost stack_before = state.mark_stack@;
            self.mark_object(heap, state, field);
            proof {
                lemma_mark_step_grows(before, stack_before, *heap, state.mark_stack@, field);
                lemma_marks_grow_trans(h0, before, *heap);
                if pending {
                    lemma_mark_step_scan(before, stack_before, *heap, state.mark_stack@, field, p as int, k as int);
                    lemma_scan_field_step(before, stack_before, *heap, state.mark_stack@, field, p as int, k as int, i as int);
                }
                assert forall|snapshot: Set<(int, int)>| h0.obj(p as int, k as int).marked && #[trigger] covered_while_scanning(
                    h0, s0, snapshot, (p as int, k as int), scan_start(h0.obj(p as int, k as int)))
                    implies covered_while_scanning(*heap, state.mark_stack@, snapshot, (p as int, k as int), i + 1) by {
                    assert(before.obj(p as int, k as int).marked);
                    lemma_scan_step_covered(before, stack_before, *heap, state.mark_stack@, field, snapshot, (p as int, k as int), i as int);
                }
                crate::snapshot::lemma_mark_step_same_edges(before, stack_before, *heap, state.mark_stack@, field);
                assert forall|j: int| start <= j < i + 1 && h0.is_heap_pointer(#[trigger] h0.obj(p as int, k as int).fields@[j])
                    implies heap.target(h0.obj(p as int, k as int).fields@[j]).marked by {
                    let v = h0.obj(p as int, k as int).fields@[j];
                    h0.lemma_object_address(v.address());
                    assert(before.is_heap_pointer(v));
                    before.lemma_object_address(v.address());
                    if j < i {
                        assert(before.target(v).marked);
                    } else {
                        assert(v == field);
                    }
                }
                if stack_before.contains(pointer_to(before, p as int, k as int)) {
                    let j = choose|j: int| 0 <= j < stack_before.len() && stack_before[j] == pointer_to(before, p as int, k as int);
                    assert(state.mark_stack@[j] == stack_before[j]);
                }
            }
            i = i + 1;
        }
        proof {
            if pending {
                if sliced {
                    assert(scan_start(heap.obj(p as int, k as int)) == end);
                } else {
                    assert(scan_start(heap.obj(p as int, k as int)) == 0);
                }
                lemma_scan_finish(*heap, state.mark_stack@, p as int, k as int, i as int);
            }
            let lo = scan_start(h0.obj(p as int, k as int));
            let hi = slice_end(h0.obj(p as int, k as int));
            assert(start == lo);
            let base = s0.len() + (if sliced { 1int } else { 0int });
            assert forall|j: int| base <= j < state.mark_stack@.len() implies pushed_field(h0, p as int, k as int, lo, hi,
                #[trigger] state.mark_stack@[j]) by {
                assert(pushed_field(h0, p as int, k as int, start as int, i as int, state.mark_stack@[j]));
                let w = choose|w: int| start <= w < i && w < h0.obj(p as int, k as int).fields@.len()
                    && #[trigger] h0.obj(p as int, k as int).fields@[w] == state.mark_stack@[j];
                assert(w < hi);
            }
            assert forall|q: int, j: int| 0 <= q < MAX_PARTITIONS && 0 <= j < h0.partitions@[q].objects@.len()
                && #[trigger] heap.obj(q, j).marked && !h0.obj(q, j).marked implies exists|w: int| lo <= w < hi
                && w < h0.obj(p as int, k as int).fields@.len() && h0.is_heap_pointer(#[trigger] h0.obj(p as int, k as int).fields@[w])
                && h0.partition_of(h0.obj(p as int, k as int).fields@[w].address()) == q
                && h0.slot_of(h0.obj(p as int, k as int).fields@[w].address()) == j by {
                let w = choose|w: int| start <= w < i && w < h0.obj(p as int, k as int).fields@.len()
                    && h0.is_heap_pointer(#[trigger] h0.obj(p as int, k as int).fields@[w])
                    && h0.partition_of(h0.obj(p as int, k as int).fields@[w].address()) == q
                    && h0.slot_of(h0.obj(p as int, k as int).fields@[w].address()) == j;
                assert(w < hi);
            }
            assert forall|snapshot: Set<(int, int)>| h0.obj(p as int, k as int).marked && #[trigger] covered_while_scanning(
                h0, s0, snapshot, (p as int, k as int), scan_start(h0.obj(p as int, k as int)))
                implies snapshot_covered(*heap, state.mark_stack@, snapshot) by {
                assert(heap.obj(p as int, k as int).marked);
                lemma_scan_finish_covered(*heap, state.mark_stack@, snapshot, (p as int, k as int), i as int);
            }
        }
    }

    /// Mark the roots.
    pub fn mark_roots(
        &mut self,
        heap: &mut PartitionedHeap,
        state: &mut MarkState,
        roots: &Roots,
        remembered_set: Option<&RememberedSet>,
    )
        requires
            old(heap).no_evacuation(),
            !old(state).complete,
            old(heap).wf(),
            old(self).time.wf(),
        ensures
            final(heap).no_evacuation(),
            final(heap).wf(),
            marks_grow(*old(heap), *final(heap)),
            final(self).time.wf(),
            final(self).time.limit == old(self).time.limit,
            final(self).time.steps >= old(self).time.steps,
            final(state).complete == old(state).complete,
            forall|v: Value| #[trigger] root_values(
                *old(heap),
                roots.static_roots@,
                roots.continuation_table,
                remembered_values(remembered_set),
            ).contains(v) && old(heap).is_heap_pointer(v) ==> final(heap).target(v).marked,
            scan_invariant(*old(heap), old(state).mark_stack@) ==> scan_invariant(*final(heap), final(state).mark_stack@),
            forall|snapshot: Set<(int, int)>| #[trigger] snapshot_covered(*old(heap), old(state).mark_stack@, snapshot)
                ==> snapshot_covered(*final(heap), final(state).mark_stack@, snapshot),
            forall|p: int, k: int| 0 <= p < MAX_PARTITIONS && 0 <= k < old(heap).partitions@[p].objects@.len()
                ==> (#[trigger] final(heap).obj(p, k)).tag == old(heap).obj(p, k).tag,
            forall|p: int, k: int| 0 <= p < MAX_PARTITIONS && 0 <= k < final(heap).partitions@[p].objects@.len()
                && #[trigger] final(heap).obj(p, k).marked && !old(heap).obj(p, k).marked
                ==> final(state).mark_stack@.contains(pointer_to(*final(heap), p, k)),
            stack_ok(*old(heap), old(state).mark_stack@) ==> stack_ok(*final(heap), final(state).mark_stack@),
            forall|q: int, j: int| 0 <= q < MAX_PARTITIONS && 0 <= j < old(heap).partitions@[q].objects@.len()
                && #[trigger] final(heap).obj(q, j).marked && !old(heap).obj(q, j).marked ==> exists|v: Value|
                root_values(*old(heap), roots.static_roots@, roots.continuation_table, remembered_values(remembered_set)).contains(v)
                && old(heap).is_heap_pointer(v) && old(heap).partition_of(v.address()) == q && #[trigger] old(heap).slot_of(v.address()) == j,
            old(state).mark_stack@.len() <= final(state).mark_stack@.len(),
            forall|i: int| 0 <= i < old(state).mark_stack@.len() ==> #[trigger] final(state).mark_stack@[i] == old(state).mark_stack@[i],
    {
        let values = visit_roots(heap, roots, remembered_set);
        let ghost h0 = *heap;
        let ghost s0 = state.mark_stack@;
        let mut i: usize = 0;
        while i < values.len()
            invariant
                heap.wf(),
                self.time.wf(),
                self.time.limit == old(self).time.limit,
                self.time.steps >= old(self).time.steps,
                state.complete == old(state).complete,
                !state.complete,
                marks_grow(h0, *heap),
                heap.no_evacuation(),
                h0 == *old(heap),
                s0 == old(state).mark_stack@,
                h0.wf(),
                scan_invariant(h0, s0) ==> scan_invariant(*heap, state.mark_stack@),
                forall|snapshot: Set<(int, int)>| #[trigger] snapshot_covered(h0, s0, snapshot)
                    ==> snapshot_covered(*heap, state.mark_stack@, snapshot),
                forall|p: int, k: int| 0 <= p < MAX_PARTITIONS && 0 <= k < h0.partitions@[p].objects@.len()
                    ==> (#[trigger] heap.obj(p, k)).tag == h0.obj(p, k).tag,
                forall|p: int, k: int| 0 <= p < MAX_PARTITIONS && 0 <= k < heap.partitions@[p].objects@.len()
                    && #[trigger] heap.obj(p, k).marked && !h0.obj(p, k).marked
                    ==> state.mark_stack@.contains(pointer_to(*heap, p, k)),
                stack_ok(h0, s0) ==> stack_ok(*heap, state.mark_stack@),
                s0.len() <= state.mark_stack@.len(),
                values@ == root_values(h0, roots.static_roots@, roots.continuation_table, remembered_values(remembered_set)),
                forall|q: int, j: int| 0 <= q < MAX_PARTITIONS && 0 <= j < h0.partitions@[q].objects@.len()
                    && #[trigger] heap.obj(q, j).marked && !h0.obj(q, j).marked ==> exists|m: int| 0 <= m < i
                    && h0.is_heap_pointer(values@[m]) && h0.partition_of(values@[m].address()) == q && #[trigger] h0.slot_of(values@[m].address()) == j,
                forall|i: int| 0 <= i < s0.len() ==> #[trigger] state.mark_stack@[i] == s0[i],
                i <= values@.len(),
                forall|j: int| 0 <= j < i && h0.is_heap_pointer(values@[j]) ==> #[trigger] heap.target(values@[j]).marked,
            decreases values@.len() - i,
        {
            let ghost before = *heap;
            let ghost stack_before = state.mark_stack@;
            let value = values[i];
            self.mark_object(heap, state, value);
            proof {
                lemma_mark_step_grows(before, stack_before, *heap, state.mark_stack@, value);
                lemma_marks_grow_trans(h0, before, *heap);
                if scan_invariant(h0, s0) {
                    lemma_mark_step_scan(before, stack_before, *heap, state.mark_stack@, value, -1, -1);
                }
                assert forall|snapshot: Set<(int, int)>| #[trigger] snapshot_covered(h0, s0, snapshot)
                    implies snapshot_covered(*heap, state.mark_stack@, snapshot) by {
                    lemma_mark_step_covered(before, stack_before, *heap, state.mark_stack@, value, snapshot);
                }
                crate::snapshot::lemma_mark_step_same_edges(before, stack_before, *heap, state.mark_stack@, value);
                assert forall|p: int, k: int| 0 <= p < MAX_PARTITIONS && 0 <= k < heap.partitions@[p].objects@.len()
                    && #[trigger] heap.obj(p, k).marked && !h0.obj(p, k).marked
                    implies state.mark_stack@.contains(pointer_to(*heap, p, k)) by {
                    if before.obj(p, k).marked {
                        let j = choose|j: int| 0 <= j < stack_before.len() && stack_before[j] == pointer_to(before, p, k);
                        assert(state.mark_stack@[j] == stack_before[j]);
                    } else {
                        lemma_pointer_to_slot(before, value);
                        assert(state.mark_stack@[state.mark_stack@.len() - 1] == value);
                    }
                }
                assert forall|q: int, j: int| 0 <= q < MAX_PARTITIONS && 0 <= j < h0.partitions@[q].objects@.len()
                    && #[trigger] heap.obj(q, j).marked && !h0.obj(q, j).marked implies exists|m: int| 0 <= m < i + 1
                    && h0.is_heap_pointer(values@[m]) && h0.partition_of(values@[m].address()) == q && #[trigger] h0.slot_of(values@[m].address()) == j by {
                    assert(before.partitions@[q].objects@.len() == h0.partitions@[q].objects@.len());
                    if !before.obj(q, j).marked {
                        lemma_pointer_to_slot(before, value);
                        assert(values@[i as int] == value);
                        assert(h0.is_heap_pointer(value));
                    } else {
                        let m = choose|m: int| 0 <= m < i && h0.is_heap_pointer(values@[m]) && h0.partition_of(values@[m].address()) == q
                            && #[trigger] h0.slot_of(values@[m].address()) == j;
                    }
                }
                if stack_ok(h0, s0) {
                    lemma_stack_ok_grow(before, *heap, stack_before);
                    assert forall|i: int| 0 <= i < state.mark_stack@.len() implies heap.is_heap_pointer(#[trigger] state.mark_stack@[i])
                        && heap.target(state.mark_stack@[i]).marked by {
                        if i < stack_before.len() {
                            assert(state.mark_stack@[i] == stack_before[i]);
                        } else {
                            lemma_pointer_to_slot(before, value);
                            heap.lemma_object_address(value.address());
                        }
                    }
                }
                if h0.is_heap_pointer(value) {
                    h0.lemma_object_address(value.address());
                }
                assert forall|j: int| 0 <= j <= i && h0.is_heap_pointer(values@[j]) implies #[trigger] heap.target(values@[j]).marked by {
                    let a = values@[j].address();
                    h0.lemma_object_address(a);
                    let pp = h0.partition_of(a);
                    let kk = h0.slot_of(a);
                    assert(before.partitions@[pp].objects@.len() == h0.partitions@[pp].objects@.len());
                    assert(heap.partitions@[pp].objects@.len() == h0.partitions@[pp].objects@.len());
                    if j < i {
                        assert(before.target(values@[j]).marked);
                        assert(before.obj(pp, kk).marked);
                    } else {
                        assert(before.is_heap_pointer(value));
                    }
                }
            }
            i = i + 1;
        }
    }

    /// Pop and scan marked objects until the mark stack is empty, which
    /// completes marking, or the time budget is spent.
    pub fn run(&mut self, heap: &mut PartitionedHeap, state: &mut MarkState)
        requires
            old(heap).no_evacuation(),
            old(heap).wf(),
            old(self).time.wf(),
        ensures
            final(heap).no_evacuation(),
            final(heap).wf(),
            marks_grow(*old(heap), *final(heap)),
            final(self).time.wf(),
            final(self).time.limit == old(self).time.limit,
            final(self).time.steps >= old(self).time.steps,
            old(state).complete ==> final(state).complete && *final(heap) == *old(heap)
                && final(state).mark_stack@ == old(state).mark_stack@,
            final(state).complete ==> final(state).mark_stack@.len() == 0
                || old(state).complete,
            !final(state).complete ==> final(self).time.is_over_spec(),
            scan_invariant(*old(heap), old(state).mark_stack@) ==> scan_invariant(*final(heap), final(state).mark_stack@),
            marks_justified(*old(heap), *final(heap)),
            !old(self).time.is_over_spec() && !old(state).complete ==> final(state).complete || top_scanned(
                *old(heap),
                old(state).mark_stack@,
                *final(heap),
            ),
            forall|snapshot: Set<(int, int)>| #[trigger] snapshot_covered(*old(heap), old(state).mark_stack@, snapshot)
                ==> snapshot_covered(*final(heap), final(state).mark_stack@, snapshot),
    {
        if state.complete {
            proof {
                assert(*heap == *old(heap));
            }
            return;
        }
        let ghost h0 = *heap;
        let ghost s0 = state.mark_stack@;
        while !self.time.is_over()
            invariant
                heap.wf(),
                self.time.wf(),
                self.time.limit == old(self).time.limit,
                self.time.steps >= old(self).time.steps,
                marks_grow(h0, *heap),
                heap.no_evacuation(),
                h0 == *old(heap),
                s0 == old(state).mark_stack@,
                !state.complete,
                !old(state).complete,
                scan_invariant(h0, s0) ==> scan_invariant(*heap, state.mark_stack@),
                (*heap == h0 && state.mark_stack@ == s0 && self.time == old(self).time) || top_scanned(h0, s0, *heap),
                h0.wf(),
                marks_justified(h0, *heap),
                forall|snapshot: Set<(int, int)>| #[trigger] snapshot_covered(h0, s0, snapshot)
                    ==> snapshot_covered(*heap, state.mark_stack@, snapshot),
            decreases self.time.remaining(),
        {
            let ghost before = *heap;
            let ghost stack_before = state.mark_stack@;
            proof {
                if scan_invariant(h0, s0) && stack_before.len() > 0 {
                    lemma_pop_pending(before, stack_before);
                }
                assert forall|snapshot: Set<(int, int)>| #[trigger] snapshot_covered(h0, s0, snapshot) && stack_before.len() > 0
                    implies (before.is_heap_pointer(stack_before.last()) && before.target(stack_before.last()).marked
                    && covered_while_scanning(before, stack_before.drop_last(), snapshot,
                        crate::snapshot::slot_of_value(before, stack_before.last()),
                        scan_start(before.object_at(stack_before.last().address()))))
                    || (!before.is_heap_pointer(stack_before.last()) && snapshot_covered(before, stack_before.drop_last(), snapshot)) by {
                    assert(snapshot_covered(before, stack_before, snapshot));
                    assert(stack_before[stack_before.len() - 1] == stack_before.last());
                    if before.is_heap_pointer(stack_before.last()) {
                        lemma_pop_covered(before, stack_before, snapshot);
                    } else {
                        lemma_pop_other_covered(before, stack_before, snapshot);
                    }
                }
            }
            match state.mark_stack.pop() {
                None => {
                    state.complete = true;
                    return;
                },
                Some(value) => {
                    match heap.lookup(value) {
                        Some((p, k)) => {
                            if heap.partitions[p].objects[k].marked {
                                self.mark_fields(heap, state, p, k);
                                proof {
                                    lemma_marks_grow_trans(h0, before, *heap);
                                    if !top_scanned(h0, s0, before) {
                                        assert(stack_before == s0);
                                        assert(stack_before[stack_before.len() - 1] == value);
                                    } else if h0.is_heap_pointer(s0.last()) && h0.target(s0.last()).marked {
                                        lemma_slice_scanned_grow(h0, h0.partition_of(s0.last().address()),
                                            h0.slot_of(s0.last().address()), before, *heap);
                                    }
                                    assert forall|q: int, j: int| 0 <= q < MAX_PARTITIONS && 0 <= j < before.partitions@[q].objects@.len()
                                        && #[trigger] heap.obj(q, j).marked && !before.obj(q, j).marked implies exists|pp: int, kk: int, i: int|
                                        0 <= pp < MAX_PARTITIONS && 0 <= kk < heap.partitions@[pp].objects@.len() && heap.obj(pp, kk).marked && 0 <= i
                                        < heap.obj(pp, kk).fields@.len() && heap.is_heap_pointer(#[trigger] heap.obj(pp, kk).fields@[i])
                                        && heap.partition_of(heap.obj(pp, kk).fields@[i].address()) == q
                                        && heap.slot_of(heap.obj(pp, kk).fields@[i].address()) == j by {
                                        let i = choose|i: int| scan_start(before.obj(p as int, k as int)) <= i < slice_end(before.obj(p as int, k as int))
                                            && i < before.obj(p as int, k as int).fields@.len() && before.is_heap_pointer(#[trigger] before.obj(p as int, k as int).fields@[i])
                                            && before.partition_of(before.obj(p as int, k as int).fields@[i].address()) == q
                                            && before.slot_of(before.obj(p as int, k as int).fields@[i].address()) == j;
                                        assert(heap.obj(p as int, k as int).fields@ == before.obj(p as int, k as int).fields@);
                                        assert(heap.partitions@[p as int].objects@.len() == before.partitions@[p as int].objects@.len());
                                        let v = before.obj(p as int, k as int).fields@[i];
                                        before.lemma_object_address(v.address());
                                        assert(heap.is_heap_pointer(heap.obj(p as int, k as int).fields@[i]));
                                    }
                                    lemma_marks_justified_trans(h0, before, *heap);
                                }
                            } else {
                                proof {
                                    if !top_scanned(h0, s0, before) {
                                        assert(stack_before == s0);
                                        assert(stack_before[stack_before.len() - 1] == value);
                                    }
                                    assert forall|snapshot: Set<(int, int)>| #[trigger] snapshot_covered(h0, s0, snapshot)
                                        implies snapshot_covered(*heap, state.mark_stack@, snapshot) by {
                                        assert(snapshot_covered(before, stack_before, snapshot));
                                        assert(stack_ok(before, stack_before));
                                        assert(stack_before[stack_before.len() - 1] == value);
                                    }
                                    if scan_invariant(h0, s0) {
                                        assert(stack_ok(before, stack_before));
                                        assert(stack_before[stack_before.len() - 1] == value);
                                    }
                                }
                            }
                        },
                        None => {
                            proof {
                                if !top_scanned(h0, s0, before) {
                                    assert(stack_before == s0);
                                    assert(stack_before[stack_before.len() - 1] == value);
                                }
                                assert forall|snapshot: Set<(int, int)>| #[trigger] snapshot_covered(h0, s0, snapshot)
                                    implies snapshot_covered(*heap, state.mark_stack@, snapshot) by {
                                    assert(snapshot_covered(before, stack_before, snapshot));
                                    assert(stack_ok(before, stack_before));
                                    assert(stack_before[stack_before.len() - 1] == value);
                                }
                            }
                        },
                    }
                    self.time.tick();
                },
            }
        }
    }
}

} // verus!

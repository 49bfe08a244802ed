//! Incremental update: pointers to evacuated objects are rewritten to point
//! to their copies, and mark bits are cleared for the next cycle.
use vstd::prelude::*;
use crate::value::{Value, skew};
use crate::heap::{PartitionedHeap, MAX_PARTITIONS, TAG_OBJECT, TAG_ARRAY, TAG_MUTBOX, TAG_ARRAY_SLICE_MIN, has_pointer_fields};
use crate::evacuation::{HeapIteratorState, evacuated_before, walk_done};
use crate::roots::Roots;
use crate::time::BoundedTime;

verus! {

/// `v` resolved through forwarding: a pointer to an evacuated object
/// becomes a pointer to its copy; any other value stays as it is.
pub open spec fn forwarded_value(heap: PartitionedHeap, v: Value) -> Value {
    if heap.is_heap_pointer(v) {
        Value { raw: skew(heap.target(v).forward as int) as usize }
    } else {
        v
    }
}

/// Resolve forwarding of a value.
pub fn forward_if_possible(heap: &PartitionedHeap, value: Value) -> (r: Value)
    requires
        heap.wf(),
    ensures
        r == forwarded_value(*heap, value),
        heap.is_heap_pointer(value) ==> heap.is_heap_pointer(r) && r.address() == heap.target(value).forward,
{
    match heap.lookup(value) {
        Some((p, k)) => {
            let forward = heap.partitions[p].objects[k].forward;
            proof {
                assert(heap.forward_ok(p as int, k as int));
                if forward != heap.address_of(p as int, k as int) {
                    heap.lemma_object_address(forward as int);
                } else {
                    heap.lemma_address_decodes(p as int, k as int);
                }
            }
            Value::from_ptr(forward)
        },
        None => value,
    }
}

/// `h1` is `h0` where some marked objects outside evacuated partitions had
/// their pointer fields resolved through forwarding and their mark cleared.
pub open spec fn update_step(h0: PartitionedHeap, h1: PartitionedHeap) -> bool {
    &&& h1.base == h0.base
    &&& h1.allocation_index == h0.allocation_index
    &&& h1.partitions@.len() == h0.partitions@.len()
    &&& forall|p: int| 0 <= p < h0.partitions@.len() ==> {
        &&& (#[trigger] h1.partitions@[p]).objects@.len() == h0.partitions@[p].objects@.len()
        &&& h1.partitions@[p].to_be_evacuated == h0.partitions@[p].to_be_evacuated
    }
    &&& forall|p: int, k: int| 0 <= p < h0.partitions@.len() && 0 <= k < h0.partitions@[p].objects@.len() ==> {
        &&& (#[trigger] h1.obj(p, k)).tag == h0.obj(p, k).tag
        &&& h1.obj(p, k).forward == h0.obj(p, k).forward
        &&& (h1.obj(p, k).marked ==> h0.obj(p, k).marked)
        &&& (h1.obj(p, k).fields@ == h0.obj(p, k).fields@ || (h0.obj(p, k).marked && updated_fields(
            h0,
            p,
            k,
            h1.obj(p, k).fields@,
        )))
    }
}

/// `fields` are those of the object in slot `k` of partition `p` of
/// `heap`, each resolved through forwarding where the object holds pointers.
pub open spec fn updated_fields(heap: PartitionedHeap, p: int, k: int, fields: Seq<Value>) -> bool {
    let old_fields = heap.obj(p, k).fields@;
    &&& fields.len() == old_fields.len()
    &&& forall|i: int| 0 <= i < fields.len() ==> #[trigger] fields[i] == if has_pointer_fields(heap.obj(p, k).tag) {
        forwarded_value(heap, old_fields[i])
    } else {
        old_fields[i]
    }
}

/// Every object before `position` outside evacuated partitions is unmarked.
pub open spec fn unmarked_before(heap: PartitionedHeap, position: HeapIteratorState) -> bool {
    forall|p: int, k: int| 0 <= p < MAX_PARTITIONS && 0 <= k < heap.partitions@[p].objects@.len()
        && position.passed(p, k) && !heap.partitions@[p].to_be_evacuated ==> !(#[trigger] heap.obj(p, k)).marked
}

/// The pointer fields of the object in slot `k` of partition `p` are
/// resolved: none points to an object that forwards elsewhere.
pub open spec fn fields_resolved(heap: PartitionedHeap, p: int, k: int) -> bool {
    has_pointer_fields(heap.obj(p, k).tag) ==> forall|i: int| 0 <= i < heap.obj(p, k).fields@.len() ==> forwarded_value(
        heap,
        #[trigger] heap.obj(p, k).fields@[i],
    ) == heap.obj(p, k).fields@[i]
}

/// Of the objects `live` (those marked when the update started), the ones
/// before `position` have resolved fields, and the others are still marked.
pub open spec fn live_updated(heap: PartitionedHeap, position: HeapIteratorState, live: Set<(int, int)>) -> bool {
    forall|s: (int, int)| #[trigger] live.contains(s) ==> {
        &&& crate::snapshot::is_slot(heap, s)
        &&& !heap.partitions@[s.0].to_be_evacuated
        &&& if position.passed(s.0, s.1) {
            fields_resolved(heap, s.0, s.1)
        } else {
            heap.obj(s.0, s.1).marked
        }
    }
}

/// An update step keeps unchanged objects resolved and resolves the
/// objects it updates.
pub proof fn lemma_resolved_after_step(h0: PartitionedHeap, h1: PartitionedHeap, p: int, k: int)
    requires
        h0.wf(),
        update_step(h0, h1),
        0 <= p < MAX_PARTITIONS,
        0 <= k < h0.partitions@[p].objects@.len(),
        h1.obj(p, k) == h0.obj(p, k) && fields_resolved(h0, p, k) || updated_fields(h0, p, k, h1.obj(p, k).fields@),
    ensures
        fields_resolved(h1, p, k),
{
    assert(h1.obj(p, k).tag == h0.obj(p, k).tag);
    if has_pointer_fields(h1.obj(p, k).tag) {
        assert forall|i: int| 0 <= i < h1.obj(p, k).fields@.len() implies forwarded_value(
            h1,
            #[trigger] h1.obj(p, k).fields@[i],
        ) == h1.obj(p, k).fields@[i] by {
            let v = h1.obj(p, k).fields@[i];
            same_forwarding_update(h0, h1, v);
            if !(h1.obj(p, k) == h0.obj(p, k) && fields_resolved(h0, p, k)) {
                lemma_forwarded_value_idempotent(h0, h0.obj(p, k).fields@[i]);
            }
        }
    }
}

/// Heaps whose old objects keep their forwarding, and whose new objects
/// forward to themselves, resolve every value alike.
pub proof fn lemma_forwarding_same(h0: PartitionedHeap, h1: PartitionedHeap)
    requires
        h0.wf(),
        h1.wf(),
        h1.base == h0.base,
        forall|p: int| 0 <= p < MAX_PARTITIONS ==> (#[trigger] h1.partitions@[p]).objects@.len()
            >= h0.partitions@[p].objects@.len(),
        forall|p: int, k: int| 0 <= p < MAX_PARTITIONS && 0 <= k < h0.partitions@[p].objects@.len()
            ==> (#[trigger] h1.obj(p, k)).forward == h0.obj(p, k).forward,
        forall|p: int, k: int| 0 <= p < MAX_PARTITIONS && h0.partitions@[p].objects@.len() <= k < h1.partitions@[p].objects@.len()
            ==> (#[trigger] h1.obj(p, k)).forward == h1.address_of(p, k),
    ensures
        forall|v: Value| #[trigger] forwarded_value(h1, v) == forwarded_value(h0, v),
{
    assert forall|v: Value| #[trigger] forwarded_value(h1, v) == forwarded_value(h0, v) by {
        if h0.is_heap_pointer(v) {
            h0.lemma_object_address(v.address());
            assert(h1.is_heap_pointer(v));
        } else if h1.is_heap_pointer(v) {
            h1.lemma_object_address(v.address());
            let p = h1.partition_of(v.address());
            let k = h1.slot_of(v.address());
            assert(k >= h0.partitions@[p].objects@.len());
        }
    }
}

/// Fields that hold values resolved in a heap that resolves values alike
/// are resolved.
pub proof fn lemma_resolved_fields(h0: PartitionedHeap, h1: PartitionedHeap, p: int, k: int)
    requires
        h0.wf(),
        0 <= p < MAX_PARTITIONS,
        0 <= k < h1.partitions@[p].objects@.len(),
        forall|v: Value| #[trigger] forwarded_value(h1, v) == forwarded_value(h0, v),
        forall|i: int| 0 <= i < h1.obj(p, k).fields@.len() && has_pointer_fields(h1.obj(p, k).tag)
            ==> forwarded_value(h0, #[trigger] h1.obj(p, k).fields@[i]) == h1.obj(p, k).fields@[i],
    ensures
        fields_resolved(h1, p, k),
{
    if has_pointer_fields(h1.obj(p, k).tag) {
        assert forall|i: int| 0 <= i < h1.obj(p, k).fields@.len() implies forwarded_value(
            h1,
            #[trigger] h1.obj(p, k).fields@[i],
        ) == h1.obj(p, k).fields@[i] by {
        }
    }
}

/// The live objects stay as the update left them where only resolved
/// fields change and forwarding stays.
pub proof fn lemma_live_updated_kept(
    h0: PartitionedHeap,
    h1: PartitionedHeap,
    position: HeapIteratorState,
    live: Set<(int, int)>,
)
    requires
        h0.wf(),
        h1.wf(),
        live_updated(h0, position, live),
        h1.base == h0.base,
        forall|p: int| 0 <= p < MAX_PARTITIONS ==> (#[trigger] h1.partitions@[p]).objects@.len()
            >= h0.partitions@[p].objects@.len() && h1.partitions@[p].to_be_evacuated == h0.partitions@[p].to_be_evacuated,
        forall|v: Value| #[trigger] forwarded_value(h1, v) == forwarded_value(h0, v),
        forall|s: (int, int)| #[trigger] live.contains(s) ==> h1.obj(s.0, s.1) == h0.obj(s.0, s.1) || {
            &&& h1.obj(s.0, s.1).marked == h0.obj(s.0, s.1).marked
            &&& h1.obj(s.0, s.1).tag == h0.obj(s.0, s.1).tag
            &&& (position.passed(s.0, s.1) ==> fields_resolved(h1, s.0, s.1))
        },
    ensures
        live_updated(h1, position, live),
{
    assert forall|s: (int, int)| #[trigger] live.contains(s) implies {
        &&& crate::snapshot::is_slot(h1, s)
        &&& !h1.partitions@[s.0].to_be_evacuated
        &&& if position.passed(s.0, s.1) {
            fields_resolved(h1, s.0, s.1)
        } else {
            h1.obj(s.0, s.1).marked
        }
    } by {
        if h1.obj(s.0, s.1) == h0.obj(s.0, s.1) && position.passed(s.0, s.1) {
            assert(fields_resolved(h0, s.0, s.1));
            if has_pointer_fields(h1.obj(s.0, s.1).tag) {
                assert forall|i: int| 0 <= i < h1.obj(s.0, s.1).fields@.len() implies forwarded_value(
                    h1,
                    #[trigger] h1.obj(s.0, s.1).fields@[i],
                ) == h1.obj(s.0, s.1).fields@[i] by {
                    assert(forwarded_value(h0, h0.obj(s.0, s.1).fields@[i]) == h0.obj(s.0, s.1).fields@[i]);
                }
            }
        }
    }
}

/// Resolving forwarding twice is resolving it once.
pub proof fn lemma_forwarded_value_idempotent(heap: PartitionedHeap, v: Value)
    requires
        heap.wf(),
    ensures
        forwarded_value(heap, forwarded_value(heap, v)) == forwarded_value(heap, v),
{
    if heap.is_heap_pointer(v) {
        let a = v.address();
        heap.lemma_object_address(a);
        let p = heap.partition_of(a);
        let k = heap.slot_of(a);
        assert(heap.forward_ok(p, k));
        let f = heap.target(v).forward as int;
        if f != a {
            heap.lemma_object_address(f);
        } else {
            heap.lemma_address_decodes(p, k);
        }
        crate::value::lemma_aligned_pred_odd(f);
    }
}

/// Once evacuation is done, a pointer to a marked object, resolved through
/// forwarding as the update phase does for roots and fields, points to an
/// object outside the evacuated partitions, which survives their release.
pub proof fn law_update_avoids_evacuated_partitions(heap: PartitionedHeap, v: Value)
    requires
        heap.wf(),
        evacuated_before(heap, walk_done()),
        heap.is_heap_pointer(v),
        heap.target(v).marked,
    ensures
        heap.is_heap_pointer(forwarded_value(heap, v)),
        !heap.is_evacuated_address(forwarded_value(heap, v).address()),
{
    let a = v.address();
    heap.lemma_object_address(a);
    let p = heap.partition_of(a);
    let k = heap.slot_of(a);
    assert(heap.forward_ok(p, k));
    let f = heap.target(v).forward as int;
    if f != a {
        heap.lemma_object_address(f);
    } else {
        heap.lemma_address_decodes(p, k);
        assert(walk_done().passed(p, k));
    }
    crate::value::lemma_aligned_pred_odd(f);
}

/// Where no partition is being evacuated, nothing is forwarded: resolving
/// any value through forwarding returns it unchanged.
pub proof fn law_no_evacuation_no_forwarding(heap: PartitionedHeap, v: Value)
    requires
        heap.wf(),
        heap.no_evacuation(),
    ensures
        forwarded_value(heap, v) == v,
{
    if heap.is_heap_pointer(v) {
        let a = v.address();
        heap.lemma_object_address(a);
        let p = heap.partition_of(a);
        let k = heap.slot_of(a);
        assert(heap.forward_ok(p, k));
        assert(!heap.partitions@[p].to_be_evacuated);
        crate::value::lemma_aligned_pred_odd(a);
    }
}

/// Evacuating and then updating an object gives a copy whose fields are the
/// original's, with pointers resolved through forwarding: words that are not
/// heap pointers, and all payload words of an object without pointers, come
/// back bit for bit. `h0` is the heap before the evacuation that copied the
/// object in slot `k` of partition `p`, `h1` the heap after it (when the
/// update starts), and `h2` a heap in which the update has treated the copy,
/// as `UpdateIncrement::run` does for every marked object it passes.
pub proof fn law_evacuate_then_update_round_trip(
    h0: PartitionedHeap,
    h1: PartitionedHeap,
    h2: PartitionedHeap,
    p: int,
    k: int,
)
    requires
        crate::evacuation::evacuation_step(h0, h1),
        0 <= p < h0.partitions@.len(),
        0 <= k < h0.partitions@[p].objects@.len(),
        h1.obj(p, k).forward != h0.obj(p, k).forward,
        updated_fields(
            h1,
            h1.partition_of(h1.obj(p, k).forward as int),
            h1.slot_of(h1.obj(p, k).forward as int),
            h2.obj(h1.partition_of(h1.obj(p, k).forward as int), h1.slot_of(h1.obj(p, k).forward as int)).fields@,
        ),
    ensures
        ({
            let original = h0.obj(p, k).fields@;
            let copy = h2.obj(h1.partition_of(h1.obj(p, k).forward as int), h1.slot_of(h1.obj(p, k).forward as int)).fields@;
            &&& copy.len() == original.len()
            &&& forall|i: int| 0 <= i < original.len() && !h1.is_heap_pointer(original[i]) ==> #[trigger] copy[i] == original[i]
            &&& !has_pointer_fields(h0.obj(p, k).tag) ==> copy == original
            &&& forall|i: int| 0 <= i < original.len() && has_pointer_fields(h0.obj(p, k).tag) ==> #[trigger] copy[i]
                == forwarded_value(h1, original[i])
        }),
{
    assert(h1.obj(p, k).tag == h0.obj(p, k).tag);
    let original = h0.obj(p, k).fields@;
    let copy = h2.obj(h1.partition_of(h1.obj(p, k).forward as int), h1.slot_of(h1.obj(p, k).forward as int)).fields@;
    if !has_pointer_fields(h0.obj(p, k).tag) {
        assert(copy =~= original);
    }
}


/// Work of one update increment, within a time budget.
pub struct UpdateIncrement {
    pub time: BoundedTime,
}

impl UpdateIncrement {
    pub fn instance(limit: usize) -> (r: UpdateIncrement)
        requires
            limit < usize::MAX,
        ensures
            r.time.wf(),
            r.time.steps == 0,
            r.time.limit == limit,
    {
        UpdateIncrement { time: BoundedTime::new(limit) }
    }

    /// Resolve forwarding of every root.
    pub fn update_roots(heap: &PartitionedHeap, roots: &mut Roots)
        requires
            heap.wf(),
        ensures
            final(roots).static_roots@.len() == old(roots).static_roots@.len(),
            forall|i: int| 0 <= i < old(roots).static_roots@.len() ==> #[trigger] final(roots).static_roots@[i]
                == forwarded_value(*heap, old(roots).static_roots@[i]),
            final(roots).continuation_table == forwarded_value(*heap, old(roots).continuation_table),
    {
        let mut i: usize = 0;
        while i < roots.static_roots.len()
            invariant
                heap.wf(),
                i <= roots.static_roots@.len(),
                roots.static_roots@.len() == old(roots).static_roots@.len(),
                roots.continuation_table == old(roots).continuation_table,
                forall|j: int| 0 <= j < i ==> #[trigger] roots.static_roots@[j] == forwarded_value(*heap, old(roots).static_roots@[j]),
                forall|j: int| i <= j < roots.static_roots@.len() ==> #[trigger] roots.static_roots@[j] == old(roots).static_roots@[j],
            decreases roots.static_roots@.len() - i,
        {
            let value = forward_if_possible(heap, roots.static_roots[i]);
            roots.static_roots.set(i, value);
            i = i + 1;
        }
        roots.continuation_table = forward_if_possible(heap, roots.continuation_table);
    }

    /// Resolve forwarding in the fields of the object in slot `k` of
    /// partition `p`, and clear its mark.
    fn update_object(&mut self, heap: &mut PartitionedHeap, p: usize, k: usize)
        requires
            old(heap).wf(),
            old(self).time.wf(),
            p < MAX_PARTITIONS,
            k < old(heap).partitions@[p as int].objects@.len(),
            old(heap).obj(p as int, k as int).marked,
        ensures
            final(heap).wf(),
            final(heap).agrees_except(old(heap), p as int, k as int),
            final(heap).obj(p as int, k as int).tag == old(heap).obj(p as int, k as int).tag,
            final(heap).obj(p as int, k as int).forward == old(heap).obj(p as int, k as int).forward,
            !final(heap).obj(p as int, k as int).marked,
            updated_fields(*old(heap), p as int, k as int, final(heap).obj(p as int, k as int).fields@),
            final(self).time.wf(),
            final(self).time.limit == old(self).time.limit,
            final(self).time.steps >= old(self).time.steps,
    {
        let ghost h0 = *heap;
        let tag = heap.partitions[p].objects[k].tag;
        if tag == TAG_OBJECT || tag == TAG_ARRAY || tag == TAG_MUTBOX || tag >= TAG_ARRAY_SLICE_MIN {
            let length = heap.partitions[p].objects[k].fields.len();
            let mut i: usize = 0;
            while i < length
                invariant
                    heap.wf(),
                    self.time.wf(),
                    self.time.limit == old(self).time.limit,
                    self.time.steps >= old(self).time.steps,
                    h0 == *old(heap),
                    h0.wf(),
                    p < MAX_PARTITIONS,
                    k < h0.partitions@[p as int].objects@.len(),
                    i <= length,
                    length == h0.obj(p as int, k as int).fields@.len(),
                    heap.agrees_except(&h0, p as int, k as int),
                    heap.obj(p as int, k as int).tag == tag,
                    tag == h0.obj(p as int, k as int).tag,
                    heap.obj(p as int, k as int).forward == h0.obj(p as int, k as int).forward,
                    heap.obj(p as int, k as int).marked,
                    heap.obj(p as int, k as int).fields@.len() == length,
                    forall|j: int| 0 <= j < i ==> #[trigger] heap.obj(p as int, k as int).fields@[j]
                        == forwarded_value(h0, h0.obj(p as int, k as int).fields@[j]),
                    forall|j: int| i <= j < length ==> #[trigger] heap.obj(p as int, k as int).fields@[j]
                        == h0.obj(p as int, k as int).fields@[j],
                decreases length - i,
            {
                let ghost before = *heap;
                let field = heap.partitions[p].objects[k].fields[i];
                let value = forward_if_possible(heap, field);
                proof {
                    assert(forwarded_value(before, field) == forwarded_value(h0, field)) by {
                        lemma_same_forwarding(h0, before, p as int, k as int, field);
                    }
                }
                heap.set_field(p, k, i, value);
                proof {
                    lemma_agrees_except_trans(h0, before, *heap, p as int, k as int);
                }
                self.time.tick();
                i = i + 1;
            }
        }
        let ghost before = *heap;
        heap.set_mark(p, k, false);
        proof {
            lemma_agrees_except_trans(h0, before, *heap, p as int, k as int);
        }
    }
}

impl UpdateIncrement {
    /// Walk the partitions that are not evacuated from `position`, and
    /// update every marked object, until the walk is done or the time budget
    /// is spent.
    pub fn run(&mut self, heap: &mut PartitionedHeap, position: &mut HeapIteratorState)
        requires
            old(heap).wf(),
            old(self).time.wf(),
            unmarked_before(*old(heap), *old(position)),
        ensures
            final(heap).wf(),
            update_step(*old(heap), *final(heap)),
            final(self).time.wf(),
            final(self).time.limit == old(self).time.limit,
            final(self).time.steps >= old(self).time.steps,
            unmarked_before(*final(heap), *final(position)),
            !final(position).is_done() ==> final(self).time.is_over_spec(),
            *final(position) == *old(position) || old(position).before(*final(position)),
            !old(self).time.is_over_spec() && !old(position).is_done() ==> old(position).before(*final(position)),
            forall|p: int, k: int| 0 <= p < MAX_PARTITIONS && 0 <= k < old(heap).partitions@[p].objects@.len()
                && !old(position).passed(p, k) && final(position).passed(p, k) && !old(heap).partitions@[p].to_be_evacuated
                && #[trigger] old(heap).obj(p, k).marked ==> updated_fields(*old(heap), p, k, final(heap).obj(p, k).fields@)
                && !final(heap).obj(p, k).marked,
            forall|live: Set<(int, int)>| #[trigger] live_updated(*old(heap), *old(position), live)
                ==> live_updated(*final(heap), *final(position), live),
    {
        let ghost h0 = *heap;
        proof {
            lemma_update_step_refl(h0);
        }
        while position.partition_index < MAX_PARTITIONS && !self.time.is_over()
            invariant
                heap.wf(),
                h0 == *old(heap),
                h0.wf(),
                update_step(h0, *heap),
                self.time.wf(),
                self.time.limit == old(self).time.limit,
                self.time.steps >= old(self).time.steps,
                unmarked_before(*heap, *position),
                *position == *old(position) || old(position).before(*position),
                *position == *old(position) ==> self.time == old(self).time,
                forall|p: int, k: int| 0 <= p < MAX_PARTITIONS && 0 <= k < h0.partitions@[p].objects@.len()
                    && !position.passed(p, k) ==> #[trigger] heap.obj(p, k) == h0.obj(p, k),
                forall|p: int, k: int| 0 <= p < MAX_PARTITIONS && 0 <= k < h0.partitions@[p].objects@.len()
                    && !old(position).passed(p, k) && position.passed(p, k) && !h0.partitions@[p].to_be_evacuated
                    && #[trigger] h0.obj(p, k).marked ==> updated_fields(h0, p, k, heap.obj(p, k).fields@)
                    && !heap.obj(p, k).marked,
                forall|p: int, k: int| 0 <= p < MAX_PARTITIONS && 0 <= k < h0.partitions@[p].objects@.len()
                    && old(position).passed(p, k) ==> #[trigger] heap.obj(p, k) == h0.obj(p, k),
                *position == *old(position) || old(position).before(*position),
            decreases MAX_PARTITIONS - position.partition_index, self.time.remaining(),
        {
            let p = position.partition_index;
            if !heap.partitions[p].to_be_evacuated && position.slot < heap.partitions[p].objects.len() {
                let k = position.slot;
                let ghost before = *heap;
                let ghost pos_before = *position;
                if heap.partitions[p].objects[k].marked {
                    self.update_object(heap, p, k);
                    proof {
                        lemma_update_step_extend(h0, before, *heap, p as int, k as int);
                    }
                }
                position.slot = k + 1;
                self.time.tick();
                proof {
                    assert(before.partitions@[p as int].objects@.len() == h0.partitions@[p as int].objects@.len());
                    assert(!pos_before.passed(p as int, k as int));
                    assert(before.obj(p as int, k as int) == h0.obj(p as int, k as int));
                    assert forall|pp: int, kk: int| 0 <= pp < MAX_PARTITIONS && 0 <= kk < h0.partitions@[pp].objects@.len()
                        && !position.passed(pp, kk) implies #[trigger] heap.obj(pp, kk) == h0.obj(pp, kk) by {
                        assert(!pos_before.passed(pp, kk));
                        assert(before.partitions@[pp].objects@.len() == h0.partitions@[pp].objects@.len());
                        if pp != p || kk != k {
                            assert(heap.obj(pp, kk) == before.obj(pp, kk));
                        }
                    }
                    assert forall|pp: int, kk: int| 0 <= pp < MAX_PARTITIONS && 0 <= kk < h0.partitions@[pp].objects@.len()
                        && !old(position).passed(pp, kk) && position.passed(pp, kk) && !h0.partitions@[pp].to_be_evacuated
                        && #[trigger] h0.obj(pp, kk).marked implies updated_fields(h0, pp, kk, heap.obj(pp, kk).fields@)
                        && !heap.obj(pp, kk).marked by {
                        assert(before.partitions@[pp].objects@.len() == h0.partitions@[pp].objects@.len());
                        if pp == p && kk == k {
                            let f0 = h0.obj(pp, kk).fields@;
                            let f1 = heap.obj(pp, kk).fields@;
                            assert forall|i: int| 0 <= i < f1.len() implies #[trigger] f1[i] == if has_pointer_fields(h0.obj(pp, kk).tag) {
                                forwarded_value(h0, f0[i])
                            } else {
                                f0[i]
                            } by {
                                same_forwarding_update(h0, before, f0[i]);
                            }
                        } else {
                            assert(pos_before.passed(pp, kk));
                            assert(heap.obj(pp, kk) == before.obj(pp, kk));
                        }
                    }
                    assert forall|pp: int, kk: int| 0 <= pp < MAX_PARTITIONS && 0 <= kk < heap.partitions@[pp].objects@.len()
                        && position.passed(pp, kk) && !heap.partitions@[pp].to_be_evacuated
                        implies !(#[trigger] heap.obj(pp, kk)).marked by {
                        assert(before.partitions@[pp].objects@.len() == heap.partitions@[pp].objects@.len());
                        if pp != p || kk != k {
                            assert(heap.obj(pp, kk) == before.obj(pp, kk));
                        }
                    }
                }
            } else {
                position.partition_index = p + 1;
                position.slot = 0;
            }
        }
        proof {
            assert forall|live: Set<(int, int)>| #[trigger] live_updated(h0, *old(position), live)
                implies live_updated(*heap, *position, live) by {
                assert forall|s: (int, int)| #[trigger] live.contains(s) implies {
                    &&& crate::snapshot::is_slot(*heap, s)
                    &&& !heap.partitions@[s.0].to_be_evacuated
                    &&& if position.passed(s.0, s.1) {
                        fields_resolved(*heap, s.0, s.1)
                    } else {
                        heap.obj(s.0, s.1).marked
                    }
                } by {
                    assert(heap.partitions@[s.0].objects@.len() == h0.partitions@[s.0].objects@.len());
                    if position.passed(s.0, s.1) {
                        if old(position).passed(s.0, s.1) {
                            lemma_resolved_after_step(h0, *heap, s.0, s.1);
                        } else {
                            assert(h0.obj(s.0, s.1).marked);
                            lemma_resolved_after_step(h0, *heap, s.0, s.1);
                        }
                    }
                }
            }
        }
    }
}

proof fn lemma_update_step_refl(h: PartitionedHeap)
    ensures
        update_step(h, h),
{
}

/// An update step followed by the update of one marked object is an
/// update step.
proof fn lemma_update_step_extend(h0: PartitionedHeap, h1: PartitionedHeap, h2: PartitionedHeap, p: int, k: int)
    requires
        h0.wf(),
        h1.wf(),
        update_step(h0, h1),
        0 <= p < MAX_PARTITIONS,
        0 <= k < h1.partitions@[p].objects@.len(),
        h1.obj(p, k).marked,
        h2.agrees_except(&h1, p, k),
        h2.obj(p, k).tag == h1.obj(p, k).tag,
        h2.obj(p, k).forward == h1.obj(p, k).forward,
        !h2.obj(p, k).marked,
        updated_fields(h1, p, k, h2.obj(p, k).fields@),
    ensures
        update_step(h0, h2),
{
    assert forall|q: int, j: int| 0 <= q < h0.partitions@.len() && 0 <= j < h0.partitions@[q].objects@.len() implies {
        &&& (#[trigger] h2.obj(q, j)).tag == h0.obj(q, j).tag
        &&& h2.obj(q, j).forward == h0.obj(q, j).forward
        &&& (h2.obj(q, j).marked ==> h0.obj(q, j).marked)
        &&& (h2.obj(q, j).fields@ == h0.obj(q, j).fields@ || (h0.obj(q, j).marked && updated_fields(
            h0,
            q,
            j,
            h2.obj(q, j).fields@,
        )))
    } by {
        assert(h1.partitions@[q].objects@.len() == h0.partitions@[q].objects@.len());
        assert(h1.obj(q, j).tag == h0.obj(q, j).tag);
        if q == p && j == k {
            let f1 = h1.obj(p, k).fields@;
            let f0 = h0.obj(p, k).fields@;
            assert(h1.obj(p, k).marked);
            assert(f1 == f0 || updated_fields(h0, p, k, f1));
            if f1 == f0 {
                assert forall|i: int| 0 <= i < f0.len() implies #[trigger] h2.obj(p, k).fields@[i] == if has_pointer_fields(h0.obj(p, k).tag) {
                    forwarded_value(h0, f0[i])
                } else {
                    f0[i]
                } by {
                    same_forwarding_update(h0, h1, f0[i]);
                }
            } else {
                assert forall|i: int| 0 <= i < f0.len() implies #[trigger] h2.obj(p, k).fields@[i] == if has_pointer_fields(h0.obj(p, k).tag) {
                    forwarded_value(h0, f0[i])
                } else {
                    f0[i]
                } by {
                    same_forwarding_update(h0, h1, f0[i]);
                    same_forwarding_update(h0, h1, f1[i]);
                    if has_pointer_fields(h0.obj(p, k).tag) {
                        assert(f1[i] == forwarded_value(h0, f0[i]));
                        lemma_forwarded_value_idempotent(h0, f0[i]);
                    }
                }
            }
        } else {
            assert(h2.obj(q, j) == h1.obj(q, j));
        }
    }
}

/// Update steps keep forwarding as it is.
proof fn same_forwarding_update(h0: PartitionedHeap, h1: PartitionedHeap, v: Value)
    requires
        h0.wf(),
        update_step(h0, h1),
    ensures
        forwarded_value(h1, v) == forwarded_value(h0, v),
{
    if h0.is_heap_pointer(v) {
        h0.lemma_object_address(v.address());
    }
    assert(h0.is_heap_pointer(v) == h1.is_heap_pointer(v));
}

/// Objects that agree but in one slot forward alike.
pub proof fn lemma_same_forwarding(h0: PartitionedHeap, h1: PartitionedHeap, p: int, k: int, v: Value)
    requires
        h0.wf(),
        h1.agrees_except(&h0, p, k),
        0 <= p < MAX_PARTITIONS,
        0 <= k < h0.partitions@[p].objects@.len(),
        h1.obj(p, k).forward == h0.obj(p, k).forward,
    ensures
        forwarded_value(h1, v) == forwarded_value(h0, v),
{
    if h0.is_heap_pointer(v) {
        h0.lemma_object_address(v.address());
    }
    assert(h0.is_heap_pointer(v) == h1.is_heap_pointer(v));
}

pub proof fn lemma_agrees_except_trans(h0: PartitionedHeap, h1: PartitionedHeap, h2: PartitionedHeap, p: int, k: int)
    requires
        h1.agrees_except(&h0, p, k),
        h2.agrees_except(&h1, p, k),
    ensures
        h2.agrees_except(&h0, p, k),
{
    assert forall|q: int, j: int| 0 <= q < h2.partitions@.len() && 0 <= j < h2.partitions@[q].objects@.len()
        && (q != p || j != k) implies #[trigger] h2.obj(q, j) == h0.obj(q, j) by {
        assert(h1.obj(q, j) == h0.obj(q, j));
    }
}

} // verus!

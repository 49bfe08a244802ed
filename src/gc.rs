//! The collector: phase state machine, scheduling and barriers.
//!
//! A cycle runs through the phases Mark, Evacuate and Update and then
//! pauses. Work is done in time-bounded increments: a long one whenever the
//! mutator's call stack is empty, and a short one every
//! `ALLOCATION_INCREMENT_INTERVAL` allocations, which does work of the
//! current phase only and never changes the phase. The mutator writes
//! pointers through the write barrier and announces new objects through the
//! allocation barrier.
use vstd::prelude::*;
use crate::value::Value;
use crate::heap::{PartitionedHeap, MAX_PARTITIONS, PARTITION_WORDS, HEADER_WORDS, HEAP_LIMIT, has_pointer_fields};
use crate::mark::{MarkState, MarkIncrement, mark_step};
use crate::evacuation::{HeapIteratorState, EvacuationIncrement, GcError, evacuated_before, walk_done};
use crate::update::{UpdateIncrement, forward_if_possible, forwarded_value, unmarked_before, updated_fields};
use crate::roots::Roots;
use crate::time::{BoundedTime, LONG_INCREMENT_LIMIT, SHORT_INCREMENT_LIMIT};
use crate::snapshot::{snapshot_covered, snapshot_marked_in, snapshot_survives, unsliced, is_slot, slot_marked, reachable_slots};

verus! {

/// Allocations between two short increments.
pub const ALLOCATION_INCREMENT_INTERVAL: usize = 100;
/// Heap occupation, in words, above which a cycle always starts.
pub const CRITICAL_LIMIT: usize = MAX_PARTITIONS * PARTITION_WORDS - 2 * PARTITION_WORDS;

pub enum Phase {
    Pause,
    Mark(MarkState),
    Evacuate(HeapIteratorState),
    Update(HeapIteratorState),
    Stop,
}

/// The phase, without its state.
#[derive(Clone, Copy, Debug, PartialEq, Eq, Structural)]
pub enum PhaseKind {
    Pause,
    Mark,
    Evacuate,
    Update,
    Stop,
}

/// A place that holds a value: a static root, the continuation table cell,
/// or a field of a heap object.
#[derive(Clone, Copy, Debug, PartialEq, Eq, Structural)]
pub enum Location {
    StaticRoot(usize),
    ContinuationTable,
    Field(Value, usize),
}

/// A cycle started in `after` from the pause phase of `before`: the phase
/// left Pause, or a whole cycle ran, and the start occupation was recorded.
pub open spec fn cycle_started(before: IncrementalGc, after: IncrementalGc) -> bool {
    &&& after.phase_kind_spec() != PhaseKind::Pause || after.cycles@ == before.cycles@ + 1
    &&& after.last_occupation == before.heap.occupation_spec()
}

/// An increment with budget left made progress in the active phase it
/// stayed in: the top of the mark stack was scanned, or the walk of
/// evacuation (unless it failed) or update moved on.
pub open spec fn made_progress(before: IncrementalGc, after: IncrementalGc, failed: bool) -> bool {
    &&& before.phase_kind_spec() == PhaseKind::Mark && after.phase_kind_spec() == PhaseKind::Mark
        && !mark_complete_of(before.phase) ==> mark_complete_of(after.phase) || crate::mark::top_scanned(
        before.heap,
        mark_stack_of(before.phase),
        after.heap,
    )
    &&& before.phase_kind_spec() == PhaseKind::Evacuate && after.phase_kind_spec() == PhaseKind::Evacuate
        && !position_of(before.phase).is_done() ==> failed || position_of(before.phase).before(position_of(after.phase))
    &&& before.phase_kind_spec() == PhaseKind::Update && after.phase_kind_spec() == PhaseKind::Update
        && !position_of(before.phase).is_done() ==> position_of(before.phase).before(position_of(after.phase))
}

/// What the post-allocation barrier does to the heap `before.heap`,
/// giving `after`, for the new object `v`.
pub open spec fn post_allocation_effect(before: IncrementalGc, after: PartitionedHeap, v: Value) -> bool {
    match before.phase {
        Phase::Mark(_) | Phase::Evacuate(_) => before.heap.is_heap_pointer(v)
            && !before.heap.is_evacuated_address(v.address())
            ==> after.target(v).marked,
        Phase::Update(_) => before.heap.is_heap_pointer(v) ==> updated_fields(
            before.heap,
            before.heap.partition_of(v.address()),
            before.heap.slot_of(v.address()),
            after.target(v).fields@,
        ),
        _ => after == before.heap,
    }
}

/// Evacuation is stuck: the walk stands at a marked object of a partition
/// being evacuated that is not copied yet and whose copy does not fit.
pub open spec fn evacuation_blocked(gc: IncrementalGc) -> bool {
    let position = position_of(gc.phase);
    let p = position.partition_index as int;
    let k = position.slot as int;
    &&& gc.phase_kind_spec() == PhaseKind::Evacuate
    &&& p < MAX_PARTITIONS
    &&& k < gc.heap.partitions@[p].objects@.len()
    &&& gc.heap.partitions@[p].to_be_evacuated
    &&& gc.heap.obj(p, k).marked
    &&& !gc.heap.is_forwarded(p, k)
    &&& !gc.heap.can_allocate(gc.heap.obj(p, k).fields@.len() + HEADER_WORDS)
}

/// Whether marking is complete in the mark phase.
pub open spec fn mark_complete_of(phase: Phase) -> bool {
    match phase {
        Phase::Mark(state) => state.complete,
        _ => false,
    }
}

/// The mark stack of the mark phase.
pub open spec fn mark_stack_of(phase: Phase) -> Seq<Value> {
    match phase {
        Phase::Mark(state) => state.mark_stack@,
        _ => Seq::empty(),
    }
}

/// The walk position of the evacuation or update phase.
pub open spec fn position_of(phase: Phase) -> HeapIteratorState {
    match phase {
        Phase::Evacuate(position) => position,
        Phase::Update(position) => position,
        _ => walk_done(),
    }
}

/// Every object of the heap is unmarked.
pub open spec fn all_unmarked(heap: PartitionedHeap) -> bool {
    forall|p: int, k: int| 0 <= p < MAX_PARTITIONS && 0 <= k < heap.partitions@[p].objects@.len()
        ==> !(#[trigger] heap.obj(p, k)).marked
}

/// The start policy: the heap grew by more than a third since the last
/// cycle started and holds at least a partition's worth of words, or it is
/// close to full.
pub open spec fn should_start_spec(occupation: int, last_occupation: int) -> bool {
    (occupation > last_occupation && 100 * (occupation - last_occupation) > 33 * occupation
        && occupation >= PARTITION_WORDS) || occupation > CRITICAL_LIMIT
}

/// `h1` keeps the objects of evacuated partitions of `h0` as they were, and
/// adds none there.
pub open spec fn evacuation_frame(h0: PartitionedHeap, h1: PartitionedHeap) -> bool {
    &&& h1.base == h0.base
    &&& h1.partitions@.len() == h0.partitions@.len()
    &&& forall|p: int| 0 <= p < h0.partitions@.len() ==> {
        &&& (#[trigger] h1.partitions@[p]).to_be_evacuated == h0.partitions@[p].to_be_evacuated
        &&& h1.partitions@[p].objects@.len() >= h0.partitions@[p].objects@.len()
        &&& h0.partitions@[p].to_be_evacuated ==> h1.partitions@[p].objects@.len() == h0.partitions@[p].objects@.len()
    }
    &&& forall|p: int, k: int| 0 <= p < h0.partitions@.len() && 0 <= k < h0.partitions@[p].objects@.len()
        && h0.partitions@[p].to_be_evacuated ==> {
        &&& (#[trigger] h1.obj(p, k)).marked == h0.obj(p, k).marked
        &&& h1.obj(p, k).forward == h0.obj(p, k).forward
    }
}

/// `h1` marks no object that `h0` left unmarked, and its new objects are
/// unmarked.
pub open spec fn unmarking_frame(h0: PartitionedHeap, h1: PartitionedHeap) -> bool {
    &&& h1.base == h0.base
    &&& h1.partitions@.len() == h0.partitions@.len()
    &&& forall|p: int| 0 <= p < h0.partitions@.len() ==> {
        &&& (#[trigger] h1.partitions@[p]).to_be_evacuated == h0.partitions@[p].to_be_evacuated
        &&& h1.partitions@[p].objects@.len() >= h0.partitions@[p].objects@.len()
    }
    &&& forall|p: int, k: int| 0 <= p < h1.partitions@.len() && 0 <= k < h1.partitions@[p].objects@.len()
        && #[trigger] h1.obj(p, k).marked ==> k < h0.partitions@[p].objects@.len() && h0.obj(p, k).marked
}

pub proof fn lemma_evacuation_frame_keeps(h0: PartitionedHeap, h1: PartitionedHeap, position: HeapIteratorState)
    requires
        h0.wf(),
        evacuation_frame(h0, h1),
        evacuated_before(h0, position),
    ensures
        evacuated_before(h1, position),
        h0.no_evacuation() ==> h1.no_evacuation(),
{
    assert forall|p: int, k: int| 0 <= p < MAX_PARTITIONS && 0 <= k < h1.partitions@[p].objects@.len()
        && position.passed(p, k) && h1.partitions@[p].to_be_evacuated && #[trigger] h1.obj(p, k).marked
        implies h1.is_forwarded(p, k) by {
        assert(h0.partitions@[p].to_be_evacuated);
        assert(h0.obj(p, k).marked);
    }
    if h0.no_evacuation() {
        assert forall|p: int| 0 <= p < h1.partitions@.len() implies !(#[trigger] h1.partitions@[p]).to_be_evacuated by {
            assert(!h0.partitions@[p].to_be_evacuated);
        }
    }
}

pub proof fn lemma_unmarking_frame_keeps(h0: PartitionedHeap, h1: PartitionedHeap, position: HeapIteratorState)
    requires
        unmarking_frame(h0, h1),
        h0.partitions@.len() == MAX_PARTITIONS,
    ensures
        unmarked_before(h0, position) ==> unmarked_before(h1, position),
        all_unmarked(h0) ==> all_unmarked(h1),
{
    if unmarked_before(h0, position) {
        assert forall|p: int, k: int| 0 <= p < MAX_PARTITIONS && 0 <= k < h1.partitions@[p].objects@.len()
            && position.passed(p, k) && !h1.partitions@[p].to_be_evacuated implies !(#[trigger] h1.obj(p, k)).marked by {
            if h1.obj(p, k).marked {
                assert(h0.obj(p, k).marked);
            }
        }
    }
    if all_unmarked(h0) {
        assert forall|p: int, k: int| 0 <= p < MAX_PARTITIONS && 0 <= k < h1.partitions@[p].objects@.len()
            implies !(#[trigger] h1.obj(p, k)).marked by {
            if h1.obj(p, k).marked {
                assert(h0.obj(p, k).marked);
            }
        }
    }
}

/// A change of one object that keeps its mark bit and forwarding keeps
/// both frames.
pub proof fn lemma_single_change_frames(h0: PartitionedHeap, h1: PartitionedHeap, p: int, k: int)
    requires
        h0.wf(),
        0 <= p < MAX_PARTITIONS,
        0 <= k < h0.partitions@[p].objects@.len(),
        h1.agrees_except(&h0, p, k),
        h1.obj(p, k).marked == h0.obj(p, k).marked,
        h1.obj(p, k).forward == h0.obj(p, k).forward,
    ensures
        evacuation_frame(h0, h1),
        unmarking_frame(h0, h1),
{
    assert forall|q: int, j: int| 0 <= q < h1.partitions@.len() && 0 <= j < h1.partitions@[q].objects@.len()
        && #[trigger] h1.obj(q, j).marked implies j < h0.partitions@[q].objects@.len() && h0.obj(q, j).marked by {
        if q != p || j != k {
            assert(h1.obj(q, j) == h0.obj(q, j));
        }
    }
}

/// Allocation keeps both frames.
pub proof fn lemma_allocation_frames(h0: PartitionedHeap, h1: PartitionedHeap, v: Value)
    requires
        h0.wf(),
        h1.wf(),
        h1.extends(&h0),
        h1.is_heap_pointer(v),
        h1.partition_of(v.address()) == h1.allocation_index,
        h1.slot_of(v.address()) == h0.partitions@[h1.allocation_index as int].objects@.len(),
        h1.partitions@[h1.allocation_index as int].objects@.len() == h0.partitions@[h1.allocation_index as int].objects@.len() + 1,
        forall|q: int| 0 <= q < MAX_PARTITIONS && q != h1.allocation_index ==>
            (#[trigger] h1.partitions@[q]).objects@.len() == h0.partitions@[q].objects@.len(),
        !h1.target(v).marked,
    ensures
        evacuation_frame(h0, h1),
        unmarking_frame(h0, h1),
{
    let a = h1.allocation_index as int;
    assert forall|q: int, j: int| 0 <= q < h1.partitions@.len() && 0 <= j < h1.partitions@[q].objects@.len()
        && #[trigger] h1.obj(q, j).marked implies j < h0.partitions@[q].objects@.len() && h0.obj(q, j).marked by {
        if j >= h0.partitions@[q].objects@.len() {
            assert(q == a);
            assert(j == h1.slot_of(v.address()));
        }
    }
    assert forall|q: int| 0 <= q < h0.partitions@.len() implies {
        &&& (#[trigger] h1.partitions@[q]).to_be_evacuated == h0.partitions@[q].to_be_evacuated
        &&& h1.partitions@[q].objects@.len() >= h0.partitions@[q].objects@.len()
        &&& h0.partitions@[q].to_be_evacuated ==> h1.partitions@[q].objects@.len() == h0.partitions@[q].objects@.len()
    } by {
        if q == a {
            assert(!h1.partitions@[a].to_be_evacuated);
        }
    }
}

/// The collector with its heap and roots.
pub struct IncrementalGc {
    pub phase: Phase,
    pub heap: PartitionedHeap,
    pub roots: Roots,
    /// Allocations since the last short increment.
    pub allocation_count: usize,
    /// Occupation when the last cycle started.
    pub last_occupation: usize,
    /// The objects reachable from the roots when marking started.
    pub snapshot: Ghost<Set<(int, int)>>,
    /// Number of completed cycles.
    pub cycles: Ghost<nat>,
    /// The objects marked outside evacuated partitions when the update
    /// phase started.
    pub live: Ghost<Set<(int, int)>>,
}

impl IncrementalGc {
    pub open spec fn phase_kind_spec(&self) -> PhaseKind {
        match self.phase {
            Phase::Pause => PhaseKind::Pause,
            Phase::Mark(_) => PhaseKind::Mark,
            Phase::Evacuate(_) => PhaseKind::Evacuate,
            Phase::Update(_) => PhaseKind::Update,
            Phase::Stop => PhaseKind::Stop,
        }
    }

    /// Every object of the snapshot is marked.
    pub open spec fn snapshot_marked(&self) -> bool {
        snapshot_marked_in(self.heap, self.snapshot@)
    }

    pub open spec fn inv(&self) -> bool {
        &&& self.heap.wf()
        &&& self.allocation_count < ALLOCATION_INCREMENT_INTERVAL
        &&& match self.phase {
            Phase::Pause => self.heap.no_evacuation() && all_unmarked(self.heap) && unsliced(self.heap),
            Phase::Mark(state) => self.heap.no_evacuation() && if state.complete {
                &&& state.mark_stack@.len() == 0
                &&& unsliced(self.heap)
                &&& self.snapshot_marked()
            } else {
                snapshot_covered(self.heap, state.mark_stack@, self.snapshot@)
            },
            Phase::Evacuate(position) => evacuated_before(self.heap, position) && unsliced(self.heap)
                && self.snapshot_marked(),
            Phase::Update(position) => evacuated_before(self.heap, walk_done()) && unmarked_before(self.heap, position)
                && unsliced(self.heap) && snapshot_survives(self.heap, self.snapshot@)
                && crate::update::live_updated(self.heap, position, self.live@),
            Phase::Stop => true,
        }
    }

    /// A collector in the pause phase over an empty heap at `heap_base`.
    pub fn new(heap_base: usize, roots: Roots) -> (r: IncrementalGc)
        requires
            heap_base > 0,
            heap_base % 4 == 0,
            heap_base + MAX_PARTITIONS * crate::heap::PARTITION_SLOTS * 4 <= HEAP_LIMIT,
        ensures
            r.inv(),
            r.phase_kind_spec() == PhaseKind::Pause,
            r.heap.base == heap_base,
            r.roots == roots,
    {
        let heap = PartitionedHeap::new(heap_base);
        IncrementalGc { phase: Phase::Pause, heap, roots, allocation_count: 0, last_occupation: 0, snapshot: Ghost(Set::empty()), cycles: Ghost(0), live: Ghost(Set::empty()) }
    }

    pub fn phase_kind(&self) -> (r: PhaseKind)
        ensures
            r == self.phase_kind_spec(),
    {
        match &self.phase {
            Phase::Pause => PhaseKind::Pause,
            Phase::Mark(_) => PhaseKind::Mark,
            Phase::Evacuate(_) => PhaseKind::Evacuate,
            Phase::Update(_) => PhaseKind::Update,
            Phase::Stop => PhaseKind::Stop,
        }
    }

    /// Freeze the collector for an upgrade: no phase changes any more.
    pub fn stop_gc_on_upgrade(&mut self)
        requires
            old(self).inv(),
        ensures
            final(self).inv(),
            final(self).phase_kind_spec() == PhaseKind::Stop,
            final(self).heap == old(self).heap,
            final(self).roots == old(self).roots,
    {
        self.phase = Phase::Stop;
    }

    /// Whether the start policy asks for a new cycle.
    pub fn should_start(&self) -> (r: bool)
        requires
            self.heap.wf(),
        ensures
            r == should_start_spec(self.heap.occupation_spec(), self.last_occupation as int),
    {
        let occupation = self.heap.occupation();
        proof {
            assert(self.heap.occupation_spec() <= MAX_PARTITIONS * PARTITION_WORDS) by {
                lemma_occupied_bound(self.heap, MAX_PARTITIONS as int);
            }
        }
        let growth = if occupation > self.last_occupation { (occupation - self.last_occupation) as u64 } else { 0 };
        (occupation > self.last_occupation && 100 * growth > 33 * (occupation as u64)
            && occupation >= PARTITION_WORDS) || occupation > CRITICAL_LIMIT
    }
}

impl IncrementalGc {
    /// The location exists.
    pub open spec fn is_valid_location(&self, location: Location) -> bool {
        match location {
            Location::StaticRoot(i) => i < self.roots.static_roots@.len(),
            Location::ContinuationTable => true,
            Location::Field(object, i) => self.heap.is_heap_pointer(object) && i < self.heap.target(object).fields@.len(),
        }
    }

    /// The value a location holds.
    pub open spec fn location_value(&self, location: Location) -> Value {
        match location {
            Location::StaticRoot(i) => self.roots.static_roots@[i as int],
            Location::ContinuationTable => self.roots.continuation_table,
            Location::Field(object, i) => self.heap.target(object).fields@[i as int],
        }
    }

    /// The value a location holds.
    pub fn read_location(&self, location: Location) -> (r: Value)
        requires
            self.heap.wf(),
            self.is_valid_location(location),
        ensures
            r == self.location_value(location),
    {
        match location {
            Location::StaticRoot(i) => self.roots.static_roots[i],
            Location::ContinuationTable => self.roots.continuation_table,
            Location::Field(object, i) => {
                match self.heap.lookup(object) {
                    Some((p, k)) => self.heap.partitions[p].objects[k].fields[i],
                    None => {
                        proof {
                            assert(false);
                        }
                        object
                    },
                }
            },
        }
    }

    /// Store a value into a location, without any barrier.
    fn store(&mut self, location: Location, value: Value)
        requires
            old(self).heap.wf(),
            old(self).is_valid_location(location),
        ensures
            final(self).heap.wf(),
            final(self).is_valid_location(location),
            final(self).heap.same_content_except_fields(&old(self).heap),
            final(self).location_value(location) == value,
            final(self).phase == old(self).phase,
            final(self).allocation_count == old(self).allocation_count,
            final(self).last_occupation == old(self).last_occupation,
            final(self).snapshot == old(self).snapshot,
            final(self).live == old(self).live,
            final(self).roots.static_roots@.len() == old(self).roots.static_roots@.len(),
            evacuation_frame(old(self).heap, final(self).heap),
            unmarking_frame(old(self).heap, final(self).heap),
            forall|p: int, k: int| 0 <= p < MAX_PARTITIONS && 0 <= k < old(self).heap.partitions@[p].objects@.len()
                ==> (#[trigger] final(self).heap.obj(p, k)).marked == old(self).heap.obj(p, k).marked,
            forall|l: Location| #[trigger] old(self).is_valid_location(l) && location_differs(l, location)
                ==> final(self).is_valid_location(l) && final(self).location_value(l) == old(self).location_value(l),
            match location {
                Location::Field(object, i) => {
                    let x = (old(self).heap.partition_of(object.address()), old(self).heap.slot_of(object.address()));
                    &&& final(self).heap.agrees_except(&old(self).heap, x.0, x.1)
                    &&& final(self).heap.obj(x.0, x.1).marked == old(self).heap.obj(x.0, x.1).marked
                    &&& final(self).heap.obj(x.0, x.1).tag == old(self).heap.obj(x.0, x.1).tag
                    &&& final(self).heap.obj(x.0, x.1).fields@ == old(self).heap.obj(x.0, x.1).fields@.update(i as int, value)
                },
                _ => final(self).heap == old(self).heap,
            },
    {
        match location {
            Location::StaticRoot(i) => {
                self.roots.static_roots.set(i, value);
            },
            Location::ContinuationTable => {
                self.roots.continuation_table = value;
            },
            Location::Field(object, i) => {
                match self.heap.lookup(object) {
                    Some((p, k)) => {
                        self.heap.set_field(p, k, i, value);
                        proof {
                            lemma_single_change_frames(old(self).heap, self.heap, p as int, k as int);
                            assert forall|pp: int, kk: int| 0 <= pp < self.heap.partitions@.len() && 0 <= kk < self.heap.partitions@[pp].objects@.len()
                                implies (#[trigger] self.heap.obj(pp, kk)).fields@.len() == old(self).heap.obj(pp, kk).fields@.len() by {
                                if pp != p || kk != k {
                                    assert(self.heap.obj(pp, kk) == old(self).heap.obj(pp, kk));
                                }
                            }
                            old(self).heap.lemma_object_address(object.address());
                            assert forall|l: Location| #[trigger] old(self).is_valid_location(l) && location_differs(l, location)
                                implies self.is_valid_location(l) && self.location_value(l) == old(self).location_value(l) by {
                                if let Location::Field(o2, j) = l {
                                    old(self).heap.lemma_object_address(o2.address());
                                    old(self).heap.lemma_object_address(object.address());
                                }
                            }
                        }
                    },
                    None => {},
                }
            },
        }
    }
}

impl IncrementalGc {
    /// The value the write barrier stores for `value`: resolved through
    /// forwarding during the update phase and after a stop, as it is
    /// otherwise.
    pub open spec fn stored_value(&self, value: Value) -> Value {
        match self.phase {
            Phase::Update(_) | Phase::Stop => forwarded_value(self.heap, value),
            _ => value,
        }
    }

    /// Marking is in progress: the snapshot barrier is active.
    pub open spec fn is_marking(&self) -> bool {
        match self.phase {
            Phase::Mark(state) => !state.complete,
            _ => false,
        }
    }

    /// Write `value` into `location` through the pre-write barrier. While
    /// marking is in progress the value being overwritten is marked, so that
    /// everything reachable when marking started stays alive.
    pub fn write_with_barrier(&mut self, location: Location, value: Value)
        requires
            old(self).inv(),
            old(self).is_valid_location(location),
        ensures
            final(self).inv(),
            final(self).phase_kind_spec() == old(self).phase_kind_spec(),
            final(self).is_valid_location(location),
            final(self).location_value(location) == old(self).stored_value(value),
            final(self).roots.static_roots@.len() == old(self).roots.static_roots@.len(),
            final(self).heap.same_content_except_fields(&old(self).heap),
            forall|p: int, k: int| 0 <= p < MAX_PARTITIONS && 0 <= k < old(self).heap.partitions@[p].objects@.len()
                && #[trigger] final(self).heap.obj(p, k).marked && !old(self).heap.obj(p, k).marked ==> {
                &&& old(self).is_marking()
                &&& old(self).heap.is_heap_pointer(old(self).location_value(location))
                &&& old(self).heap.address_of(p, k) == old(self).location_value(location).address()
            },
            !old(self).is_marking() ==> forall|p: int, k: int| 0 <= p < MAX_PARTITIONS && 0 <= k < old(self).heap.partitions@[p].objects@.len()
                ==> (#[trigger] final(self).heap.obj(p, k)).marked == old(self).heap.obj(p, k).marked,
            old(self).is_marking() && old(self).heap.is_heap_pointer(old(self).location_value(location))
                ==> final(self).heap.target(old(self).location_value(location)).marked,
            forall|l: Location| #[trigger] old(self).is_valid_location(l) && location_differs(l, location)
                ==> final(self).is_valid_location(l) && final(self).location_value(l) == old(self).location_value(l),
            mark_stack_of(final(self).phase) == mark_stack_of(old(self).phase) || mark_stack_of(final(self).phase)
                == mark_stack_of(old(self).phase).push(old(self).location_value(location)),
    {
        let overwritten = self.read_location(location);
        let ghost h0 = self.heap;
        let ghost before = *self;
        let mut stored = value;
        match &mut self.phase {
            Phase::Mark(state) => {
                if !state.complete {
                    let mut increment = MarkIncrement::instance(SHORT_INCREMENT_LIMIT);
                    let ghost s_before = state.mark_stack@;
                    proof {
                        assert(snapshot_covered(h0, s_before, self.snapshot@));
                    }
                    increment.mark_object(&mut self.heap, state, overwritten);
                    proof {
                        lemma_mark_step_frames(h0, self.heap, overwritten);
                        assert(snapshot_covered(self.heap, state.mark_stack@, self.snapshot@));
                    }
                }
            },
            Phase::Update(_) | Phase::Stop => {
                stored = forward_if_possible(&self.heap, value);
            },
            _ => {},
        }
        let ghost h1 = self.heap;
        let ghost middle = *self;
        proof {
            if let Phase::Mark(state) = &self.phase {
                if state.complete {
                    assert(old(self).snapshot_marked());
                    assert(h1 == h0);
                } else {
                    assert(snapshot_covered(h1, state.mark_stack@, self.snapshot@));
                }
            }
        }
        proof {
            assert forall|l: Location| #[trigger] before.is_valid_location(l) implies middle.is_valid_location(l)
                && middle.location_value(l) == before.location_value(l) by {
                if let Location::Field(object, i) = l {
                    h0.lemma_object_address(object.address());
                    let pp = h0.partition_of(object.address());
                    let kk = h0.slot_of(object.address());
                    assert(h1.partitions@[pp].objects@.len() == h0.partitions@[pp].objects@.len());
                    if h1.obj(pp, kk) != h0.obj(pp, kk) {
                        assert(h1.obj(pp, kk).fields == h0.obj(pp, kk).fields);
                    }
                }
            }
            lemma_same_layout_refl(h0);
            if h0.is_heap_pointer(overwritten) {
                h0.lemma_object_address(overwritten.address());
            }
            if let Location::Field(object, i) = location {
                h0.lemma_object_address(object.address());
            }
        }
        self.store(location, stored);
        proof {
            let h2 = self.heap;
            lemma_same_layout_trans(h0, h1, h2);
            if let Phase::Update(position) = self.phase {
                lemma_evacuation_frame_keeps(h1, h2, walk_done());
                lemma_unmarking_frame_keeps(h1, h2, position);
            }
            if let Phase::Evacuate(position) = self.phase {
                lemma_evacuation_frame_keeps(h1, h2, position);
            }
            if let Phase::Mark(_) = self.phase {
                lemma_evacuation_frame_keeps(h1, h2, walk_done());
            }
            if let Phase::Pause = self.phase {
                lemma_evacuation_frame_keeps(h1, h2, walk_done());
                lemma_unmarking_frame_keeps(h1, h2, walk_done());
            }
            assert forall|p: int, k: int| 0 <= p < MAX_PARTITIONS && 0 <= k < h0.partitions@[p].objects@.len()
                && #[trigger] h2.obj(p, k).marked && !h0.obj(p, k).marked implies {
                &&& old(self).is_marking()
                &&& h0.is_heap_pointer(overwritten)
                &&& h0.address_of(p, k) == overwritten.address()
            } by {
                assert(h1.obj(p, k).marked);
                h0.lemma_address_decodes(p, k);
            }
            if old(self).is_marking() && h0.is_heap_pointer(overwritten) {
                assert(h1.target(overwritten).marked);
                h1.lemma_object_address(overwritten.address());
            }
            lemma_phase_facts_after_store(h0, h2);
            if let Phase::Update(position) = &self.phase {
                assert(h1 == h0);
                crate::update::lemma_forwarding_same(h1, h2);
                match location {
                    Location::Field(object, i) => {
                        h1.lemma_object_address(object.address());
                        let x = (h1.partition_of(object.address()), h1.slot_of(object.address()));
                        if self.live@.contains(x) && position.passed(x.0, x.1) {
                            assert(crate::update::fields_resolved(h1, x.0, x.1));
                            assert forall|j: int| 0 <= j < h2.obj(x.0, x.1).fields@.len() && has_pointer_fields(h2.obj(x.0, x.1).tag)
                                implies forwarded_value(h1, #[trigger] h2.obj(x.0, x.1).fields@[j]) == h2.obj(x.0, x.1).fields@[j] by {
                                if j == i as int {
                                    crate::update::lemma_forwarded_value_idempotent(h0, value);
                                } else {
                                    assert(h2.obj(x.0, x.1).fields@[j] == h1.obj(x.0, x.1).fields@[j]);
                                }
                            }
                            crate::update::lemma_resolved_fields(h1, h2, x.0, x.1);
                        }
                        assert forall|s: (int, int)| #[trigger] self.live@.contains(s) implies h2.obj(s.0, s.1) == h1.obj(s.0, s.1) || {
                            &&& h2.obj(s.0, s.1).marked == h1.obj(s.0, s.1).marked
                            &&& h2.obj(s.0, s.1).tag == h1.obj(s.0, s.1).tag
                            &&& (position.passed(s.0, s.1) ==> crate::update::fields_resolved(h2, s.0, s.1))
                        } by {
                            assert(is_slot(h1, s));
                        }
                    },
                    _ => {},
                }
                crate::update::lemma_live_updated_kept(h1, h2, *position, self.live@);
            }
            match &self.phase {
                Phase::Mark(state) => {
                    if state.complete {
                        lemma_snapshot_marked_kept(h0, h2, self.snapshot@);
                    } else {
                        match location {
                            Location::Field(object, i) => {
                                h1.lemma_object_address(object.address());
                                let x = (h1.partition_of(object.address()), h1.slot_of(object.address()));
                                assert(h1.obj(x.0, x.1).fields@[i as int] == overwritten);
                                if h1.is_heap_pointer(overwritten) {
                                    assert(h0.is_heap_pointer(overwritten));
                                }
                                crate::snapshot::lemma_store_covered(h1, h2, state.mark_stack@, self.snapshot@, x, i as int);
                            },
                            _ => {},
                        }
                    }
                },
                _ => {},
            }
        }
    }
}

/// A new unmarked object that is not being sliced keeps the snapshot facts.
proof fn lemma_allocation_snapshot(h0: PartitionedHeap, h1: PartitionedHeap, v: Value, tag: u32)
    requires
        h0.wf(),
        h1.wf(),
        h1.extends(&h0),
        h1.is_heap_pointer(v),
        h1.partition_of(v.address()) == h1.allocation_index,
        h1.slot_of(v.address()) == h0.partitions@[h1.allocation_index as int].objects@.len(),
        h1.partitions@[h1.allocation_index as int].objects@.len() == h0.partitions@[h1.allocation_index as int].objects@.len() + 1,
        forall|q: int| 0 <= q < MAX_PARTITIONS && q != h1.allocation_index ==>
            (#[trigger] h1.partitions@[q]).objects@.len() == h0.partitions@[q].objects@.len(),
        !h1.target(v).marked,
        h1.target(v).tag == tag,
        tag < crate::heap::TAG_ARRAY_SLICE_MIN,
    ensures
        unsliced(h0) ==> unsliced(h1),
        forall|stack: Seq<Value>, snapshot: Set<(int, int)>| #[trigger] snapshot_covered(h0, stack, snapshot)
            ==> snapshot_covered(h1, stack, snapshot),
        forall|snapshot: Set<(int, int)>| #[trigger] snapshot_marked_in(h0, snapshot) ==> snapshot_marked_in(h1, snapshot),
{
    let a = h1.allocation_index as int;
    assert forall|p: int, k: int| 0 <= p < MAX_PARTITIONS && h0.partitions@[p].objects@.len() <= k < h1.partitions@[p].objects@.len()
        implies !(#[trigger] h1.obj(p, k)).marked && h1.obj(p, k).tag < crate::heap::TAG_ARRAY_SLICE_MIN by {
        assert(p == a);
        assert(k == h1.slot_of(v.address()));
    }
    if unsliced(h0) {
        assert forall|p: int, k: int| 0 <= p < MAX_PARTITIONS && 0 <= k < h1.partitions@[p].objects@.len()
            implies (#[trigger] h1.obj(p, k)).tag < crate::heap::TAG_ARRAY_SLICE_MIN by {
            if k < h0.partitions@[p].objects@.len() {
                assert(h1.obj(p, k) == h0.obj(p, k));
            }
        }
    }
    assert forall|stack: Seq<Value>, snapshot: Set<(int, int)>| #[trigger] snapshot_covered(h0, stack, snapshot)
        implies snapshot_covered(h1, stack, snapshot) by {
        crate::snapshot::lemma_extension_covered(h0, h1, stack, snapshot);
    }
    assert forall|snapshot: Set<(int, int)>| #[trigger] snapshot_marked_in(h0, snapshot) implies snapshot_marked_in(h1, snapshot) by {
        assert forall|s: (int, int)| #[trigger] snapshot.contains(s) implies is_slot(h1, s) && slot_marked(h1, s) by {
            assert(is_slot(h0, s));
            assert(h1.obj(s.0, s.1) == h0.obj(s.0, s.1));
        }
    }
}

/// Setting a mark keeps the layout and lets marks grow.
proof fn lemma_set_mark_layout(h0: PartitionedHeap, h1: PartitionedHeap, p: int, k: int)
    requires
        h0.wf(),
        0 <= p < MAX_PARTITIONS,
        0 <= k < h0.partitions@[p].objects@.len(),
        h1.agrees_except(&h0, p, k),
        h1.obj(p, k).marked,
        h1.obj(p, k).tag == h0.obj(p, k).tag,
        h1.obj(p, k).forward == h0.obj(p, k).forward,
        h1.obj(p, k).fields == h0.obj(p, k).fields,
    ensures
        h1.same_content_except_fields(&h0),
        forall|q: int, j: int| 0 <= q < MAX_PARTITIONS && 0 <= j < h0.partitions@[q].objects@.len()
            && #[trigger] h0.obj(q, j).marked ==> h1.obj(q, j).marked,
{
    assert forall|q: int, j: int| 0 <= q < h1.partitions@.len() && 0 <= j < h1.partitions@[q].objects@.len() implies {
        &&& (#[trigger] h1.obj(q, j)).forward == h0.obj(q, j).forward
        &&& h1.obj(q, j).tag == h0.obj(q, j).tag
        &&& h1.obj(q, j).fields@.len() == h0.obj(q, j).fields@.len()
    } by {
        if q != p || j != k {
            assert(h1.obj(q, j) == h0.obj(q, j));
        }
    }
    assert forall|q: int, j: int| 0 <= q < MAX_PARTITIONS && 0 <= j < h0.partitions@[q].objects@.len()
        && #[trigger] h0.obj(q, j).marked implies h1.obj(q, j).marked by {
        if q != p || j != k {
            assert(h1.obj(q, j) == h0.obj(q, j));
        }
    }
}

/// Stores keep tags, so objects stay unsliced.
proof fn lemma_phase_facts_after_store(h0: PartitionedHeap, h2: PartitionedHeap)
    requires
        h0.partitions@.len() == MAX_PARTITIONS,
        h2.same_content_except_fields(&h0),
    ensures
        unsliced(h0) ==> unsliced(h2),
{
    if unsliced(h0) {
        assert forall|p: int, k: int| 0 <= p < MAX_PARTITIONS && 0 <= k < h2.partitions@[p].objects@.len()
            implies (#[trigger] h2.obj(p, k)).tag < crate::heap::TAG_ARRAY_SLICE_MIN by {
            assert(h2.obj(p, k).tag == h0.obj(p, k).tag);
        }
    }
}

/// Objects that keep their marks keep a marked snapshot marked.
proof fn lemma_snapshot_marked_kept(h0: PartitionedHeap, h1: PartitionedHeap, snapshot: Set<(int, int)>)
    requires
        h0.partitions@.len() == MAX_PARTITIONS,
        h1.same_content_except_fields(&h0),
        forall|p: int, k: int| 0 <= p < MAX_PARTITIONS && 0 <= k < h0.partitions@[p].objects@.len()
            && #[trigger] h0.obj(p, k).marked ==> h1.obj(p, k).marked,
        snapshot_marked_in(h0, snapshot),
    ensures
        snapshot_marked_in(h1, snapshot),
{
    assert forall|s: (int, int)| #[trigger] snapshot.contains(s) implies is_slot(h1, s) && slot_marked(h1, s) by {
        assert(is_slot(h0, s));
        assert(h1.partitions@[s.0].objects@.len() == h0.partitions@[s.0].objects@.len());
        assert(h0.obj(s.0, s.1).marked);
    }
}

impl IncrementalGc {
    /// React to a new object: during marking and evacuation it is marked, so
    /// this cycle keeps it (while marking is in progress it also goes on the
    /// mark stack, so that what it points to is marked too); during the
    /// update phase its pointer fields are resolved through forwarding.
    /// Nothing happens otherwise.
    pub fn post_allocation_barrier(&mut self, new_object: Value)
        requires
            old(self).inv(),
        ensures
            forall|p: int, k: int| 0 <= p < MAX_PARTITIONS && 0 <= k < old(self).heap.partitions@[p].objects@.len()
                && #[trigger] final(self).heap.obj(p, k).marked && !old(self).heap.obj(p, k).marked
                ==> old(self).heap.is_heap_pointer(new_object) && old(self).heap.address_of(p, k) == new_object.address(),
            old(self).phase_kind_spec() != PhaseKind::Update ==> forall|p: int, k: int| 0 <= p < MAX_PARTITIONS
                && 0 <= k < old(self).heap.partitions@[p].objects@.len() ==> (#[trigger] final(self).heap.obj(p, k)).fields@
                == old(self).heap.obj(p, k).fields@,
            old(self).phase_kind_spec() == PhaseKind::Update ==> forall|p: int, k: int| 0 <= p < MAX_PARTITIONS
                && 0 <= k < old(self).heap.partitions@[p].objects@.len() ==> (#[trigger] final(self).heap.obj(p, k)).marked
                == old(self).heap.obj(p, k).marked,
            final(self).inv(),
            final(self).phase_kind_spec() == old(self).phase_kind_spec(),
            final(self).snapshot@ == old(self).snapshot@,
            final(self).roots == old(self).roots,
            final(self).allocation_count == old(self).allocation_count,
            final(self).last_occupation == old(self).last_occupation,
            final(self).heap.same_content_except_fields(&old(self).heap),
            post_allocation_effect(*old(self), final(self).heap, new_object),
    {
        let ghost h0 = self.heap;
        proof {
            lemma_same_layout_refl(h0);
        }
        let kind = self.phase_kind();
        match self.heap.lookup(new_object) {
            Some((p, k)) => {
                proof {
                    h0.lemma_object_address(new_object.address());
                }
                if kind == PhaseKind::Mark || kind == PhaseKind::Evacuate {
                    if !self.heap.partitions[p].to_be_evacuated && !self.heap.partitions[p].objects[k].marked {
                        let mut pushed = false;
                        match &mut self.phase {
                            Phase::Mark(state) => {
                                if !state.complete {
                                    let ghost s_before = state.mark_stack@;
                                    proof {
                                        assert(snapshot_covered(h0, s_before, self.snapshot@));
                                    }
                                    let mut increment = MarkIncrement::instance(SHORT_INCREMENT_LIMIT);
                                    increment.mark_object(&mut self.heap, state, new_object);
                                    proof {
                                        lemma_mark_step_frames(h0, self.heap, new_object);
                                        assert(snapshot_covered(self.heap, state.mark_stack@, self.snapshot@));
                                    }
                                    pushed = true;
                                }
                            },
                            _ => {},
                        }
                        if !pushed {
                            self.heap.set_mark(p, k, true);
                        }
                        proof {
                            if !pushed {
                                lemma_set_mark_layout(h0, self.heap, p as int, k as int);
                            }
                            lemma_phase_facts_after_store(h0, self.heap);
                            assert forall|pp: int, kk: int| 0 <= pp < self.heap.partitions@.len() && 0 <= kk < self.heap.partitions@[pp].objects@.len() implies {
                                &&& (#[trigger] self.heap.obj(pp, kk)).forward == h0.obj(pp, kk).forward
                                &&& self.heap.obj(pp, kk).tag == h0.obj(pp, kk).tag
                                &&& self.heap.obj(pp, kk).fields@.len() == h0.obj(pp, kk).fields@.len()
                            } by {
                                if pp != p || kk != k {
                                    assert(self.heap.obj(pp, kk) == h0.obj(pp, kk));
                                }
                            }
                            assert forall|pp: int, kk: int| 0 <= pp < h0.partitions@.len() && 0 <= kk < h0.partitions@[pp].objects@.len()
                                && h0.partitions@[pp].to_be_evacuated implies {
                                &&& (#[trigger] self.heap.obj(pp, kk)).marked == h0.obj(pp, kk).marked
                                &&& self.heap.obj(pp, kk).forward == h0.obj(pp, kk).forward
                            } by {
                                if pp != p || kk != k {
                                    assert(self.heap.obj(pp, kk) == h0.obj(pp, kk));
                                }
                            }
                            if let Phase::Evacuate(position) = self.phase {
                                lemma_evacuation_frame_keeps(h0, self.heap, position);
                            }
                            if let Phase::Mark(_) = self.phase {
                                lemma_evacuation_frame_keeps(h0, self.heap, walk_done());
                            }
                        }
                    }
                } else if kind == PhaseKind::Update {
                    let tag = self.heap.partitions[p].objects[k].tag;
                    if tag == crate::heap::TAG_OBJECT || tag == crate::heap::TAG_ARRAY || tag == crate::heap::TAG_MUTBOX
                        || tag >= crate::heap::TAG_ARRAY_SLICE_MIN {
                        let length = self.heap.partitions[p].objects[k].fields.len();
                        let mut i: usize = 0;
                        while i < length
                            invariant
                                self.heap.wf(),
                                h0.wf(),
                                h0 == old(self).heap,
                                self.phase == old(self).phase,
                                self.snapshot == old(self).snapshot,
                                self.live == old(self).live,
                                self.roots == old(self).roots,
                                self.allocation_count == old(self).allocation_count,
                                self.last_occupation == old(self).last_occupation,
                                p < MAX_PARTITIONS,
                                k < h0.partitions@[p as int].objects@.len(),
                                i <= length,
                                length == h0.obj(p as int, k as int).fields@.len(),
                                tag == h0.obj(p as int, k as int).tag,
                                has_pointer_fields(tag),
                                self.heap.agrees_except(&h0, p as int, k as int),
                                self.heap.obj(p as int, k as int).tag == tag,
                                self.heap.obj(p as int, k as int).forward == h0.obj(p as int, k as int).forward,
                                self.heap.obj(p as int, k as int).marked == h0.obj(p as int, k as int).marked,
                                self.heap.obj(p as int, k as int).fields@.len() == length,
                                forall|j: int| 0 <= j < i ==> #[trigger] self.heap.obj(p as int, k as int).fields@[j]
                                    == forwarded_value(h0, h0.obj(p as int, k as int).fields@[j]),
                                forall|j: int| i <= j < length ==> #[trigger] self.heap.obj(p as int, k as int).fields@[j]
                                    == h0.obj(p as int, k as int).fields@[j],
                            decreases length - i,
                        {
                            let ghost before = self.heap;
                            let field = self.heap.partitions[p].objects[k].fields[i];
                            let value = forward_if_possible(&self.heap, field);
                            proof {
                                crate::update::lemma_same_forwarding(h0, before, p as int, k as int, field);
                            }
                            self.heap.set_field(p, k, i, value);
                            proof {
                                crate::update::lemma_agrees_except_trans(h0, before, self.heap, p as int, k as int);
                            }
                            i = i + 1;
                        }
                    }
                    proof {
                        lemma_single_change_frames(h0, self.heap, p as int, k as int);
                        assert forall|pp: int, kk: int| 0 <= pp < self.heap.partitions@.len() && 0 <= kk < self.heap.partitions@[pp].objects@.len() implies {
                            &&& (#[trigger] self.heap.obj(pp, kk)).forward == h0.obj(pp, kk).forward
                            &&& self.heap.obj(pp, kk).tag == h0.obj(pp, kk).tag
                            &&& self.heap.obj(pp, kk).fields@.len() == h0.obj(pp, kk).fields@.len()
                        } by {
                            if pp != p || kk != k {
                                assert(self.heap.obj(pp, kk) == h0.obj(pp, kk));
                            }
                        }
                        if let Phase::Update(position) = self.phase {
                            lemma_evacuation_frame_keeps(h0, self.heap, walk_done());
                            lemma_unmarking_frame_keeps(h0, self.heap, position);
                        }
                    }
                }
            },
            None => {},
        }
        proof {
            if let Phase::Update(position) = self.phase {
                let h1 = self.heap;
                assert(h1.same_content_except_fields(&h0));
                crate::update::lemma_forwarding_same(h0, h1);
                assert forall|s: (int, int)| #[trigger] self.live@.contains(s) implies h1.obj(s.0, s.1) == h0.obj(s.0, s.1) || {
                    &&& h1.obj(s.0, s.1).marked == h0.obj(s.0, s.1).marked
                    &&& h1.obj(s.0, s.1).tag == h0.obj(s.0, s.1).tag
                    &&& (position.passed(s.0, s.1) ==> crate::update::fields_resolved(h1, s.0, s.1))
                } by {
                    assert(is_slot(h0, s));
                    if h1.obj(s.0, s.1) != h0.obj(s.0, s.1) {
                        assert(h0.is_heap_pointer(new_object));
                        h0.lemma_object_address(new_object.address());
                        let x = (h0.partition_of(new_object.address()), h0.slot_of(new_object.address()));
                        assert(s == x);
                        assert(updated_fields(h0, x.0, x.1, h1.obj(x.0, x.1).fields@));
                        assert forall|j: int| 0 <= j < h1.obj(x.0, x.1).fields@.len() && has_pointer_fields(h1.obj(x.0, x.1).tag)
                            implies forwarded_value(h0, #[trigger] h1.obj(x.0, x.1).fields@[j]) == h1.obj(x.0, x.1).fields@[j] by {
                            crate::update::lemma_forwarded_value_idempotent(h0, h0.obj(x.0, x.1).fields@[j]);
                        }
                        crate::update::lemma_resolved_fields(h0, h1, x.0, x.1);
                    }
                }
                crate::update::lemma_live_updated_kept(h0, h1, position, self.live@);
            }
        }
    }
}

impl IncrementalGc {
    /// Run one increment within the budget of `time`. In the pause phase
    /// a cycle starts only if `start` holds: allocation moves to a fresh
    /// partition and the roots are marked. Marking continues until the mark
    /// stack is empty, which plans the evacuations; evacuation continues
    /// until every evacuated partition is walked, which updates the roots;
    /// the update continues until every other partition is walked, which
    /// frees the evacuated partitions and pauses. Each step stops when the
    /// budget is spent. After a stop nothing happens.
    pub fn run_increment(&mut self, time: &mut BoundedTime, start: bool) -> (r: Result<(), GcError>)
        requires
            old(self).inv(),
            old(time).wf(),
        ensures
            old(self).phase_kind_spec() == PhaseKind::Mark && final(self).phase_kind_spec() == PhaseKind::Mark
                ==> crate::mark::marks_justified(old(self).heap, final(self).heap),
            r.is_err() ==> evacuation_blocked(*final(self)),
            final(self).inv(),
            final(time).wf(),
            final(time).limit == old(time).limit,
            final(time).steps >= old(time).steps,
            r.is_ok() && (final(self).phase_kind_spec() == PhaseKind::Mark || final(self).phase_kind_spec()
                == PhaseKind::Evacuate || final(self).phase_kind_spec() == PhaseKind::Update) ==> final(time).is_over_spec(),
            old(self).phase_kind_spec() == PhaseKind::Stop ==> *final(self) == *old(self),
            old(self).phase_kind_spec() == PhaseKind::Pause && !start ==> *final(self) == *old(self),
            old(self).phase_kind_spec() != PhaseKind::Stop ==> final(self).phase_kind_spec() != PhaseKind::Stop,
            old(self).phase_kind_spec() == PhaseKind::Evacuate ==> final(self).phase_kind_spec() != PhaseKind::Mark,
            old(self).phase_kind_spec() == PhaseKind::Update ==> final(self).phase_kind_spec() == PhaseKind::Update
                || final(self).phase_kind_spec() == PhaseKind::Pause,
            old(self).phase_kind_spec() == PhaseKind::Pause && start ==> final(self).last_occupation
                == old(self).heap.occupation_spec(),
            r.is_err() ==> final(self).phase_kind_spec() == PhaseKind::Evacuate,
            old(self).phase_kind_spec() == PhaseKind::Pause && start ==> exists|h: PartitionedHeap| {
                &&& h.partitions == old(self).heap.partitions
                &&& h.base == old(self).heap.base
                &&& #[trigger] reachable_slots(h, crate::roots::root_values(
                    h,
                    old(self).roots.static_roots@,
                    old(self).roots.continuation_table,
                    Seq::empty(),
                )) == final(self).snapshot@
            },
            old(self).phase_kind_spec() != PhaseKind::Pause ==> final(self).snapshot@ == old(self).snapshot@,
            final(self).cycles@ == old(self).cycles@ || (final(self).cycles@ == old(self).cycles@ + 1
                && final(self).phase_kind_spec() == PhaseKind::Pause && old(self).phase_kind_spec() != PhaseKind::Stop),
            old(self).phase_kind_spec() == PhaseKind::Pause && start ==> final(self).phase_kind_spec() != PhaseKind::Pause
                || final(self).cycles@ == old(self).cycles@ + 1,
            old(self).phase_kind_spec() == PhaseKind::Mark && final(self).phase_kind_spec() == PhaseKind::Mark
                && !old(time).is_over_spec() ==> crate::mark::top_scanned(old(self).heap, mark_stack_of(old(self).phase),
                final(self).heap),
            old(self).phase_kind_spec() == PhaseKind::Evacuate && final(self).phase_kind_spec() == PhaseKind::Evacuate
                && !old(time).is_over_spec() ==> r.is_err() || position_of(old(self).phase).before(position_of(final(self).phase)),
            old(self).phase_kind_spec() == PhaseKind::Update && final(self).phase_kind_spec() == PhaseKind::Update
                && !old(time).is_over_spec() ==> position_of(old(self).phase).before(position_of(final(self).phase)),
    {
        let kind = self.phase_kind();
        if kind == PhaseKind::Stop {
            return Ok(());
        }
        if kind == PhaseKind::Pause {
            if !start {
                return Ok(());
            }
            self.last_occupation = self.heap.occupation();
            let ghost h0 = self.heap;
            let mut state = MarkIncrement::start_phase(&mut self.heap);
            let mut increment = MarkIncrement { time: *time };
            let ghost h1 = self.heap;
            let ghost roots_now = crate::roots::root_values(h1, self.roots.static_roots@, self.roots.continuation_table, Seq::empty());
            proof {
                assert(unsliced(h1)) by {
                    assert forall|p: int, k: int| 0 <= p < MAX_PARTITIONS && 0 <= k < h1.partitions@[p].objects@.len()
                        implies (#[trigger] h1.obj(p, k)).tag < crate::heap::TAG_ARRAY_SLICE_MIN by {
                        assert(h1.obj(p, k) == h0.obj(p, k));
                    }
                }
            }
            increment.mark_roots(&mut self.heap, &mut state, &self.roots, None);
            *time = increment.time;
            proof {
                lemma_marks_grow_keeps_no_evacuation(h1, self.heap);
                assert(crate::roots::remembered_values(None) == Seq::<Value>::empty());
                assert forall|p: int, k: int| 0 <= p < MAX_PARTITIONS && 0 <= k < self.heap.partitions@[p].objects@.len()
                    && #[trigger] self.heap.obj(p, k).marked implies state.mark_stack@.contains(
                    crate::mark::pointer_to(self.heap, p, k)) by {
                    assert(h1.obj(p, k) == h0.obj(p, k));
                }
                crate::snapshot::lemma_snapshot_start(h1, self.heap, state.mark_stack@, roots_now);
            }
            self.snapshot = Ghost(reachable_slots(h1, roots_now));
            self.phase = Phase::Mark(state);
        }
        proof {
            assert(self.inv());
        }
        let mut mark_done = false;
        match &mut self.phase {
            Phase::Mark(state) => {
                let ghost h0 = self.heap;
                let ghost was_complete = state.complete;
                let mut increment = MarkIncrement { time: *time };
                increment.run(&mut self.heap, state);
                *time = increment.time;
                mark_done = state.complete;
                proof {
                    lemma_marks_grow_keeps_no_evacuation(h0, self.heap);
                    if !was_complete && state.complete {
                        crate::snapshot::lemma_covered_complete(self.heap, state.mark_stack@, self.snapshot@);
                    }
                    if was_complete {
                        assert(self.heap == h0);
                    }
                    assert(mark_done ==> unsliced(self.heap) && state.mark_stack@.len() == 0);
                }
            },
            _ => {},
        }
        if mark_done {
            let ghost h0 = self.heap;
            proof {
                assert(unsliced(h0));
            }
            self.heap.plan_evacuations();
            self.phase = Phase::Evacuate(HeapIteratorState::new());
            proof {
                assert forall|p: int, k: int| 0 <= p < MAX_PARTITIONS && 0 <= k < self.heap.partitions@[p].objects@.len()
                    implies (#[trigger] self.heap.obj(p, k)).tag < crate::heap::TAG_ARRAY_SLICE_MIN by {
                    assert(self.heap.obj(p, k) == h0.obj(p, k));
                }
            }
        }
        let mut evacuation_done = false;
        match &mut self.phase {
            Phase::Evacuate(position) => {
                let mut increment = EvacuationIncrement { time: *time };
                let result = increment.run(&mut self.heap, position);
                *time = increment.time;
                match result {
                    Err(e) => {
                        return Err(e);
                    },
                    Ok(()) => {},
                }
                evacuation_done = position.partition_index >= MAX_PARTITIONS;
            },
            _ => {},
        }
        if evacuation_done {
            proof {
                if let Phase::Evacuate(position) = self.phase {
                    assert forall|p: int, k: int| 0 <= p < MAX_PARTITIONS && 0 <= k < self.heap.partitions@[p].objects@.len()
                        && walk_done().passed(p, k) && self.heap.partitions@[p].to_be_evacuated && #[trigger] self.heap.obj(p, k).marked
                        implies self.heap.is_forwarded(p, k) by {
                        assert(position.passed(p, k));
                    }
                }
            }
            UpdateIncrement::update_roots(&self.heap, &mut self.roots);
            self.phase = Phase::Update(HeapIteratorState::new());
            self.live = Ghost(Set::new(|s: (int, int)| is_slot(self.heap, s) && !self.heap.partitions@[s.0].to_be_evacuated
                && slot_marked(self.heap, s)));
            proof {
                assert(crate::update::live_updated(self.heap, HeapIteratorState { partition_index: 0, slot: 0 }, self.live@));
            }
        }
        let mut update_done = false;
        match &mut self.phase {
            Phase::Update(position) => {
                let ghost h0 = self.heap;
                proof {
                    assert(crate::update::live_updated(h0, *position, self.live@));
                }
                let mut increment = UpdateIncrement { time: *time };
                increment.run(&mut self.heap, position);
                *time = increment.time;
                update_done = position.partition_index >= MAX_PARTITIONS;
                proof {
                    assert(crate::update::live_updated(self.heap, *position, self.live@));
                    lemma_update_step_keeps_evacuated(h0, self.heap);
                    lemma_update_step_unsliced(h0, self.heap);
                }
            },
            _ => {},
        }
        if update_done {
            let ghost h0 = self.heap;
            proof {
                if let Phase::Update(position) = self.phase {
                    assert forall|p: int, k: int| 0 <= p < MAX_PARTITIONS && 0 <= k < h0.partitions@[p].objects@.len()
                        && !h0.partitions@[p].to_be_evacuated implies !(#[trigger] h0.obj(p, k)).marked by {
                        assert(position.passed(p, k));
                    }
                }
            }
            self.heap.free_evacuated_partitions();
            self.phase = Phase::Pause;
            self.cycles = Ghost(self.cycles@ + 1);
            proof {
                assert forall|p: int, k: int| 0 <= p < MAX_PARTITIONS && 0 <= k < self.heap.partitions@[p].objects@.len()
                    implies !(#[trigger] self.heap.obj(p, k)).marked && self.heap.obj(p, k).tag < crate::heap::TAG_ARRAY_SLICE_MIN by {
                    assert(!h0.partitions@[p].to_be_evacuated);
                    assert(self.heap.obj(p, k) == h0.obj(p, k));
                }
            }
        }
        Ok(())
    }
}

impl IncrementalGc {
    /// Count an allocation; every `ALLOCATION_INCREMENT_INTERVAL`
    /// allocations run a short increment of the current phase, which never
    /// changes the phase.
    pub fn allocation_increment(&mut self) -> (r: Result<(), GcError>)
        requires
            old(self).inv(),
        ensures
            old(self).phase_kind_spec() == PhaseKind::Mark ==> crate::mark::marks_justified(old(self).heap, final(self).heap),
            old(self).phase_kind_spec() == PhaseKind::Mark || old(self).phase_kind_spec() == PhaseKind::Evacuate ==> forall|p: int, k: int|
                0 <= p < MAX_PARTITIONS && 0 <= k < old(self).heap.partitions@[p].objects@.len()
                ==> (#[trigger] final(self).heap.obj(p, k)).fields@ == old(self).heap.obj(p, k).fields@,
            old(self).phase_kind_spec() == PhaseKind::Update ==> forall|p: int, k: int| 0 <= p < MAX_PARTITIONS
                && 0 <= k < old(self).heap.partitions@[p].objects@.len() && !old(self).heap.obj(p, k).marked
                ==> (#[trigger] final(self).heap.obj(p, k)).fields@ == old(self).heap.obj(p, k).fields@,
            r.is_err() ==> evacuation_blocked(*final(self)),
            final(self).inv(),
            final(self).phase_kind_spec() == old(self).phase_kind_spec(),
            final(self).roots == old(self).roots,
            keeps_objects(old(self).heap, final(self).heap),
            old(self).phase_kind_spec() == PhaseKind::Pause || old(self).phase_kind_spec() == PhaseKind::Stop
                ==> final(self).heap == old(self).heap && r.is_ok(),
            final(self).allocation_count == (old(self).allocation_count + 1) % ALLOCATION_INCREMENT_INTERVAL as int,
            old(self).allocation_count + 1 < ALLOCATION_INCREMENT_INTERVAL ==> final(self).heap == old(self).heap
                && final(self).phase == old(self).phase && r.is_ok(),
            old(self).allocation_count + 1 == ALLOCATION_INCREMENT_INTERVAL ==> made_progress(*old(self), *final(self), r.is_err()),
            old(self).phase_kind_spec() != PhaseKind::Evacuate ==> r.is_ok(),
            final(self).snapshot@ == old(self).snapshot@,
            final(self).cycles@ == old(self).cycles@,
            old(self).phase_kind_spec() == PhaseKind::Mark || old(self).phase_kind_spec() == PhaseKind::Evacuate ==> forall|p: int, k: int|
                0 <= p < MAX_PARTITIONS && 0 <= k < old(self).heap.partitions@[p].objects@.len() && #[trigger] old(self).heap.obj(p, k).marked
                ==> final(self).heap.obj(p, k).marked,
    {
        let ghost h0 = self.heap;
        proof {
            lemma_keeps_objects_refl(h0);
        }
        self.allocation_count = self.allocation_count + 1;
        if self.allocation_count < ALLOCATION_INCREMENT_INTERVAL {
            return Ok(());
        }
        self.allocation_count = 0;
        let time = BoundedTime::new(SHORT_INCREMENT_LIMIT);
        match &mut self.phase {
            Phase::Mark(state) => {
                let mut increment = MarkIncrement { time };
                increment.run(&mut self.heap, state);
                proof {
                    lemma_marks_grow_keeps_no_evacuation(h0, self.heap);
                    lemma_marks_grow_keeps_objects(h0, self.heap);
                }
            },
            Phase::Evacuate(position) => {
                let mut increment = EvacuationIncrement { time };
                let result = increment.run(&mut self.heap, position);
                proof {
                    lemma_evacuation_step_keeps_objects(h0, self.heap);
                }
                return result;
            },
            Phase::Update(position) => {
                let mut increment = UpdateIncrement { time };
                increment.run(&mut self.heap, position);
                proof {
                    lemma_update_step_keeps_evacuated(h0, self.heap);
                    lemma_update_step_keeps_objects(h0, self.heap);
                }
            },
            _ => {},
        }
        Ok(())
    }

    /// The allocation barrier: `post_allocation_barrier`, then the count
    /// of allocations with its short increments.
    pub fn allocation_barrier(&mut self, new_object: Value) -> (r: Result<(), GcError>)
        requires
            old(self).inv(),
        ensures
            (old(self).phase_kind_spec() == PhaseKind::Mark || old(self).phase_kind_spec() == PhaseKind::Evacuate)
                && old(self).heap.is_heap_pointer(new_object) ==> final(self).heap.target(new_object).fields@
                == old(self).heap.target(new_object).fields@,
            old(self).phase_kind_spec() == PhaseKind::Update && old(self).heap.is_heap_pointer(new_object)
                && !old(self).heap.target(new_object).marked ==> updated_fields(
                old(self).heap,
                old(self).heap.partition_of(new_object.address()),
                old(self).heap.slot_of(new_object.address()),
                final(self).heap.target(new_object).fields@,
            ),
            r.is_err() ==> old(self).allocation_count + 1 == ALLOCATION_INCREMENT_INTERVAL,
            r.is_err() ==> evacuation_blocked(*final(self)),
            final(self).inv(),
            final(self).phase_kind_spec() == old(self).phase_kind_spec(),
            keeps_objects(old(self).heap, final(self).heap),
            old(self).phase_kind_spec() == PhaseKind::Pause || old(self).phase_kind_spec() == PhaseKind::Stop
                ==> final(self).heap == old(self).heap && r.is_ok(),
            final(self).allocation_count == (old(self).allocation_count + 1) % ALLOCATION_INCREMENT_INTERVAL as int,
            old(self).allocation_count + 1 < ALLOCATION_INCREMENT_INTERVAL ==> post_allocation_effect(
                *old(self),
                final(self).heap,
                new_object,
            ),
            old(self).phase_kind_spec() != PhaseKind::Evacuate ==> r.is_ok(),
            (old(self).phase_kind_spec() == PhaseKind::Mark || old(self).phase_kind_spec() == PhaseKind::Evacuate)
                && old(self).heap.is_heap_pointer(new_object) && !old(self).heap.is_evacuated_address(new_object.address())
                ==> final(self).heap.target(new_object).marked,
    {
        let ghost h0 = self.heap;
        self.post_allocation_barrier(new_object);
        let ghost h1 = self.heap;
        let result = self.allocation_increment();
        proof {
            lemma_layout_keeps_objects(h0, h1);
            lemma_keeps_objects_trans(h0, h1, self.heap);
            if h0.is_heap_pointer(new_object) {
                h0.lemma_object_address(new_object.address());
                let p = h0.partition_of(new_object.address());
                let k = h0.slot_of(new_object.address());
                assert(h1.partitions@[p].objects@.len() == h0.partitions@[p].objects@.len());
                assert(self.heap.partitions@[p].objects@.len() >= h1.partitions@[p].objects@.len());
                assert(h1.obj(p, k).fields@ == self.heap.obj(p, k).fields@ || h1.obj(p, k).marked);
            }
        }
        result
    }

    /// Allocate an object with `tag` and `fields` and pass it through the
    /// allocation barrier. Fails when the heap has no room for the object,
    /// or for a copy that a short increment makes.
    pub fn allocate(&mut self, tag: u32, fields: Vec<Value>) -> (r: Result<Value, GcError>)
        requires
            old(self).inv(),
            fields@.len() + HEADER_WORDS <= PARTITION_WORDS,
            tag < crate::heap::TAG_ARRAY_SLICE_MIN,
        ensures
            r.is_err() ==> !old(self).heap.can_allocate(fields@.len() + HEADER_WORDS) || (old(self).allocation_count + 1
                == ALLOCATION_INCREMENT_INTERVAL && evacuation_blocked(*final(self))),
            final(self).inv(),
            final(self).phase_kind_spec() == old(self).phase_kind_spec(),
            !old(self).heap.can_allocate(fields@.len() + HEADER_WORDS) ==> r == Err::<Value, GcError>(GcError::OutOfMemory),
            old(self).heap.can_allocate(fields@.len() + HEADER_WORDS) && old(self).phase_kind_spec() != PhaseKind::Evacuate
                ==> r.is_ok(),
            r matches Ok(v) ==> {
                &&& !old(self).heap.is_heap_pointer(v)
                &&& final(self).heap.is_heap_pointer(v)
                &&& final(self).heap.target(v).fields@.len() == fields@.len()
            },
            old(self).phase_kind_spec() == PhaseKind::Pause || old(self).phase_kind_spec() == PhaseKind::Stop
                ==> (r matches Ok(v) ==> final(self).heap.target(v).fields@ == fields@ && final(self).heap.target(v).tag == tag
                && !final(self).heap.target(v).marked),
            old(self).phase_kind_spec() == PhaseKind::Mark || old(self).phase_kind_spec() == PhaseKind::Evacuate
                ==> (r matches Ok(v) ==> final(self).heap.target(v).marked),
    {
        let ghost h0 = self.heap;
        let ghost field_values = fields@;
        match self.heap.allocate(tag, fields) {
            None => Err(GcError::OutOfMemory),
            Some(value) => {
                let ghost h1 = self.heap;
                proof {
                    lemma_allocation_frames(h0, h1, value);
                    lemma_allocation_snapshot(h0, h1, value, tag);
                    match &self.phase {
                        Phase::Mark(state) => {
                            if state.complete {
                                assert(self.snapshot_marked());
                            } else {
                                assert(snapshot_covered(h1, state.mark_stack@, self.snapshot@));
                            }
                        },
                        _ => {},
                    }
                    h1.lemma_object_address(value.address());
                    if h0.is_heap_pointer(value) {
                        h0.lemma_object_address(value.address());
                    }
                    match self.phase {
                        Phase::Pause => {
                            lemma_evacuation_frame_keeps(h0, h1, walk_done());
                            lemma_unmarking_frame_keeps(h0, h1, walk_done());
                        },
                        Phase::Mark(_) => {
                            lemma_evacuation_frame_keeps(h0, h1, walk_done());
                        },
                        Phase::Evacuate(position) => {
                            lemma_evacuation_frame_keeps(h0, h1, position);
                        },
                        Phase::Update(position) => {
                            lemma_evacuation_frame_keeps(h0, h1, walk_done());
                            lemma_unmarking_frame_keeps(h0, h1, position);
                        },
                        Phase::Stop => {},
                    }
                }
                let result = self.allocation_barrier(value);
                proof {
                    let a = value.address();
                    let p = h1.partition_of(a);
                    let k = h1.slot_of(a);
                    assert(self.heap.partitions@[p].objects@.len() >= h1.partitions@[p].objects@.len());
                    assert(self.heap.obj(p, k).fields@.len() == h1.obj(p, k).fields@.len());
                }
                match result {
                    Err(e) => Err(e),
                    Ok(()) => Ok(value),
                }
            },
        }
    }

    /// Run an increment at a point where the mutator's call stack holds no
    /// pointer: a long one, starting a cycle if the start policy asks for it.
    pub fn empty_call_stack_increment(&mut self) -> (r: Result<(), GcError>)
        requires
            old(self).inv(),
        ensures
            r.is_err() ==> evacuation_blocked(*final(self)),
            final(self).inv(),
            old(self).phase_kind_spec() == PhaseKind::Stop ==> *final(self) == *old(self),
            old(self).phase_kind_spec() == PhaseKind::Pause && !should_start_spec(
                old(self).heap.occupation_spec(),
                old(self).last_occupation as int,
            ) ==> *final(self) == *old(self),
            old(self).phase_kind_spec() == PhaseKind::Pause && should_start_spec(
                old(self).heap.occupation_spec(),
                old(self).last_occupation as int,
            ) ==> cycle_started(*old(self), *final(self)),
            made_progress(*old(self), *final(self), r.is_err()),
    {
        let start = self.should_start();
        let mut time = BoundedTime::new(LONG_INCREMENT_LIMIT);
        self.run_increment(&mut time, start)
    }

    /// Run a long increment if a cycle is under way or the start policy
    /// asks for one.
    pub fn schedule_incremental_gc(&mut self) -> (r: Result<(), GcError>)
        requires
            old(self).inv(),
        ensures
            r.is_err() ==> evacuation_blocked(*final(self)),
            final(self).inv(),
            old(self).phase_kind_spec() == PhaseKind::Stop ==> *final(self) == *old(self),
            old(self).phase_kind_spec() == PhaseKind::Pause && !should_start_spec(
                old(self).heap.occupation_spec(),
                old(self).last_occupation as int,
            ) ==> *final(self) == *old(self),
            old(self).phase_kind_spec() == PhaseKind::Pause && should_start_spec(
                old(self).heap.occupation_spec(),
                old(self).last_occupation as int,
            ) ==> cycle_started(*old(self), *final(self)),
            made_progress(*old(self), *final(self), r.is_err()),
    {
        self.empty_call_stack_increment()
    }

    /// Run a long increment, starting a cycle in the pause phase whatever
    /// the start policy says.
    pub fn incremental_gc(&mut self) -> (r: Result<(), GcError>)
        requires
            old(self).inv(),
        ensures
            r.is_err() ==> evacuation_blocked(*final(self)),
            final(self).inv(),
            old(self).phase_kind_spec() == PhaseKind::Stop ==> *final(self) == *old(self),
            old(self).phase_kind_spec() != PhaseKind::Stop ==> final(self).phase_kind_spec() != PhaseKind::Stop,
            old(self).phase_kind_spec() == PhaseKind::Pause ==> cycle_started(*old(self), *final(self)),
            made_progress(*old(self), *final(self), r.is_err()),
    {
        let mut time = BoundedTime::new(LONG_INCREMENT_LIMIT);
        self.run_increment(&mut time, true)
    }
}

/// `h1` holds every object of `h0`, with its tag and number of fields.
pub open spec fn keeps_objects(h0: PartitionedHeap, h1: PartitionedHeap) -> bool {
    &&& h1.base == h0.base
    &&& h1.partitions@.len() == h0.partitions@.len()
    &&& forall|p: int| 0 <= p < h0.partitions@.len() ==> (#[trigger] h1.partitions@[p]).objects@.len()
        >= h0.partitions@[p].objects@.len()
    &&& forall|p: int, k: int| 0 <= p < h0.partitions@.len() && 0 <= k < h0.partitions@[p].objects@.len()
        ==> (#[trigger] h1.obj(p, k)).fields@.len() == h0.obj(p, k).fields@.len()
}

proof fn lemma_keeps_objects_refl(h: PartitionedHeap)
    ensures
        keeps_objects(h, h),
{
}

proof fn lemma_keeps_objects_trans(h0: PartitionedHeap, h1: PartitionedHeap, h2: PartitionedHeap)
    requires
        keeps_objects(h0, h1),
        keeps_objects(h1, h2),
    ensures
        keeps_objects(h0, h2),
{
    assert forall|p: int, k: int| 0 <= p < h0.partitions@.len() && 0 <= k < h0.partitions@[p].objects@.len()
        implies (#[trigger] h2.obj(p, k)).fields@.len() == h0.obj(p, k).fields@.len() by {
        assert(h1.partitions@[p].objects@.len() >= h0.partitions@[p].objects@.len());
        assert(h1.obj(p, k).fields@.len() == h0.obj(p, k).fields@.len());
    }
    assert forall|p: int| 0 <= p < h0.partitions@.len() implies (#[trigger] h2.partitions@[p]).objects@.len()
        >= h0.partitions@[p].objects@.len() by {
        assert(h1.partitions@[p].objects@.len() >= h0.partitions@[p].objects@.len());
    }
}

proof fn lemma_layout_keeps_objects(h0: PartitionedHeap, h1: PartitionedHeap)
    requires
        h1.same_content_except_fields(&h0),
    ensures
        keeps_objects(h0, h1),
{
}

proof fn lemma_marks_grow_keeps_objects(h0: PartitionedHeap, h1: PartitionedHeap)
    requires
        crate::mark::marks_grow(h0, h1),
    ensures
        keeps_objects(h0, h1),
{
}

proof fn lemma_update_step_keeps_objects(h0: PartitionedHeap, h1: PartitionedHeap)
    requires
        crate::update::update_step(h0, h1),
    ensures
        keeps_objects(h0, h1),
{
}

proof fn lemma_evacuation_step_keeps_objects(h0: PartitionedHeap, h1: PartitionedHeap)
    requires
        crate::evacuation::evacuation_step(h0, h1),
    ensures
        keeps_objects(h0, h1),
{
}

impl IncrementalGc {
    /// Whether `value` points to a marked heap object.
    pub fn is_marked(&self, value: Value) -> (r: bool)
        requires
            self.heap.wf(),
        ensures
            r == (self.heap.is_heap_pointer(value) && self.heap.target(value).marked),
    {
        match self.heap.lookup(value) {
            Some((p, k)) => self.heap.partitions[p].objects[k].marked,
            None => false,
        }
    }

    /// Field `index` of the object `object` points to, if both exist.
    pub fn field(&self, object: Value, index: usize) -> (r: Option<Value>)
        requires
            self.heap.wf(),
        ensures
            r.is_some() == (self.heap.is_heap_pointer(object) && index < self.heap.target(object).fields@.len()),
            r matches Some(v) ==> v == self.heap.target(object).fields@[index as int],
    {
        match self.heap.lookup(object) {
            Some((p, k)) => {
                if index < self.heap.partitions[p].objects[k].fields.len() {
                    Some(self.heap.partitions[p].objects[k].fields[index])
                } else {
                    None
                }
            },
            None => None,
        }
    }

    /// Words occupied by the objects of the heap.
    pub fn occupation(&self) -> (r: usize)
        requires
            self.heap.wf(),
        ensures
            r == self.heap.occupation_spec(),
    {
        self.heap.occupation()
    }
}

impl IncrementalGc {
    /// Whether marking is complete: the phase is Mark and the mark stack ran
    /// empty, so every object of the snapshot is marked.
    pub fn marking_complete(&self) -> (r: bool)
        requires
            self.inv(),
        ensures
            r == (self.phase_kind_spec() == PhaseKind::Mark && mark_complete_of(self.phase)),
            r ==> mark_stack_of(self.phase).len() == 0 && snapshot_marked_in(self.heap, self.snapshot@),
    {
        match &self.phase {
            Phase::Mark(state) => MarkIncrement::mark_completed(state),
            _ => false,
        }
    }
}

proof fn lemma_marks_grow_keeps_no_evacuation(h0: PartitionedHeap, h1: PartitionedHeap)
    requires
        h0.no_evacuation(),
        crate::mark::marks_grow(h0, h1),
    ensures
        h1.no_evacuation(),
{
    assert forall|p: int| 0 <= p < h1.partitions@.len() implies !(#[trigger] h1.partitions@[p]).to_be_evacuated by {
        assert(!h0.partitions@[p].to_be_evacuated);
    }
}

proof fn lemma_update_step_unsliced(h0: PartitionedHeap, h1: PartitionedHeap)
    requires
        h0.partitions@.len() == MAX_PARTITIONS,
        crate::update::update_step(h0, h1),
    ensures
        unsliced(h0) ==> unsliced(h1),
{
    if unsliced(h0) {
        assert forall|p: int, k: int| 0 <= p < MAX_PARTITIONS && 0 <= k < h1.partitions@[p].objects@.len()
            implies (#[trigger] h1.obj(p, k)).tag < crate::heap::TAG_ARRAY_SLICE_MIN by {
            assert(h1.obj(p, k).tag == h0.obj(p, k).tag);
        }
    }
}

proof fn lemma_update_step_keeps_evacuated(h0: PartitionedHeap, h1: PartitionedHeap)
    requires
        h0.wf(),
        evacuated_before(h0, walk_done()),
        crate::update::update_step(h0, h1),
    ensures
        evacuated_before(h1, walk_done()),
{
    assert forall|p: int, k: int| 0 <= p < MAX_PARTITIONS && 0 <= k < h1.partitions@[p].objects@.len()
        && walk_done().passed(p, k) && h1.partitions@[p].to_be_evacuated && #[trigger] h1.obj(p, k).marked
        implies h1.is_forwarded(p, k) by {
        assert(h0.obj(p, k).marked);
    }
}

proof fn lemma_same_layout_refl(h: PartitionedHeap)
    ensures
        h.same_content_except_fields(&h),
{
}

proof fn lemma_same_layout_trans(h0: PartitionedHeap, h1: PartitionedHeap, h2: PartitionedHeap)
    requires
        h1.same_content_except_fields(&h0),
        h2.same_content_except_fields(&h1),
    ensures
        h2.same_content_except_fields(&h0),
{
    assert forall|p: int, k: int| 0 <= p < h2.partitions@.len() && 0 <= k < h2.partitions@[p].objects@.len() implies {
        &&& (#[trigger] h2.obj(p, k)).forward == h0.obj(p, k).forward
        &&& h2.obj(p, k).tag == h0.obj(p, k).tag
        &&& h2.obj(p, k).fields@.len() == h0.obj(p, k).fields@.len()
    } by {
        assert(h1.partitions@[p].objects@.len() == h2.partitions@[p].objects@.len());
        assert(h1.obj(p, k).tag == h0.obj(p, k).tag);
    }
}

impl IncrementalGc {
    /// The pre-write barrier alone, run before a store into `location`:
    /// while marking is in progress the value there is marked.
    pub fn pre_write_barrier(&mut self, location: Location)
        requires
            old(self).inv(),
            old(self).is_valid_location(location),
        ensures
            final(self).inv(),
            final(self).phase_kind_spec() == old(self).phase_kind_spec(),
            final(self).roots == old(self).roots,
            final(self).heap.same_content_except_fields(&old(self).heap),
            final(self).is_valid_location(location),
            final(self).location_value(location) == old(self).location_value(location),
            forall|p: int, k: int| 0 <= p < MAX_PARTITIONS && 0 <= k < old(self).heap.partitions@[p].objects@.len()
                && #[trigger] final(self).heap.obj(p, k).marked && !old(self).heap.obj(p, k).marked ==> {
                &&& old(self).is_marking()
                &&& old(self).heap.is_heap_pointer(old(self).location_value(location))
                &&& old(self).heap.address_of(p, k) == old(self).location_value(location).address()
            },
            old(self).is_marking() && old(self).heap.is_heap_pointer(old(self).location_value(location))
                ==> final(self).heap.target(old(self).location_value(location)).marked,
            mark_stack_of(final(self).phase) == mark_stack_of(old(self).phase) || mark_stack_of(final(self).phase)
                == mark_stack_of(old(self).phase).push(old(self).location_value(location)),
    {
        let overwritten = self.read_location(location);
        let ghost h0 = self.heap;
        proof {
            lemma_same_layout_refl(h0);
            if h0.is_heap_pointer(overwritten) {
                h0.lemma_object_address(overwritten.address());
            }
            if let Location::Field(object, i) = location {
                h0.lemma_object_address(object.address());
            }
        }
        match &mut self.phase {
            Phase::Mark(state) => {
                if !state.complete {
                    let mut increment = MarkIncrement::instance(SHORT_INCREMENT_LIMIT);
                    increment.mark_object(&mut self.heap, state, overwritten);
                    proof {
                        lemma_mark_step_frames(h0, self.heap, overwritten);
                        if h0.is_heap_pointer(overwritten) {
                            self.heap.lemma_object_address(overwritten.address());
                        }
                        if let Location::Field(object, i) = location {
                            assert(self.heap.partitions@[h0.partition_of(object.address())].objects@.len()
                                == h0.partitions@[h0.partition_of(object.address())].objects@.len());
                            let pp = h0.partition_of(object.address());
                            let kk = h0.slot_of(object.address());
                            if h0.is_heap_pointer(overwritten) && !h0.target(overwritten).marked {
                                assert(self.heap.obj(pp, kk).fields == h0.obj(pp, kk).fields);
                            }
                        }
                    }
                }
            },
            _ => {},
        }
        proof {
            assert forall|p: int, k: int| 0 <= p < MAX_PARTITIONS && 0 <= k < h0.partitions@[p].objects@.len()
                && #[trigger] self.heap.obj(p, k).marked && !h0.obj(p, k).marked implies {
                &&& old(self).is_marking()
                &&& h0.is_heap_pointer(overwritten)
                &&& h0.address_of(p, k) == overwritten.address()
            } by {
                h0.lemma_address_decodes(p, k);
            }
        }
    }
}

/// Marking keeps the evacuation frame, marks at most the object `v` points
/// to, and keeps contents.
proof fn lemma_mark_step_frames(h0: PartitionedHeap, h1: PartitionedHeap, v: Value)
    requires
        h0.wf(),
        h1.wf(),
        h0.no_evacuation(),
        exists|s0: Seq<Value>, s1: Seq<Value>| mark_step(h0, s0, h1, s1, v),
    ensures
        h1.no_evacuation(),
        h1.same_content_except_fields(&h0),
        forall|p: int, k: int| 0 <= p < MAX_PARTITIONS && 0 <= k < h0.partitions@[p].objects@.len()
            && #[trigger] h1.obj(p, k).marked && !h0.obj(p, k).marked ==> h0.is_heap_pointer(v)
            && h0.address_of(p, k) == v.address(),
        h0.is_heap_pointer(v) ==> h1.target(v).marked,
{
    if h0.is_heap_pointer(v) {
        h0.lemma_object_address(v.address());
    }
    assert forall|p: int| 0 <= p < h1.partitions@.len() implies !(#[trigger] h1.partitions@[p]).to_be_evacuated by {
        assert(!h0.partitions@[p].to_be_evacuated);
    }
}

/// Two locations are different places: two fields differ in the address of
/// their object or in their index.
pub open spec fn location_differs(l1: Location, l2: Location) -> bool {
    match (l1, l2) {
        (Location::Field(o1, i1), Location::Field(o2, i2)) => o1.address() != o2.address() || i1 != i2,
        _ => l1 != l2,
    }
}

/// Snapshot at the beginning: once marking is complete, every object that
/// was reachable from the roots when marking started (the snapshot that
/// `run_increment` takes) is marked, whatever the mutator stored through the
/// write barrier and allocated in the meantime. Evacuation copies every
/// marked object of an evacuated partition (`law_snapshot_survives_cycle`),
/// and the update resolves the pointers of the live objects to the copies
/// (`law_update_resolves_live_objects`).
pub proof fn law_snapshot_marked_when_marking_completes(gc: IncrementalGc)
    requires
        gc.inv(),
        gc.phase matches Phase::Mark(state) && state.complete,
    ensures
        snapshot_marked_in(gc.heap, gc.snapshot@),
{
}

/// The snapshot survives the cycle: during the evacuation its objects stay
/// marked, so they are copied out of the partitions being evacuated, and
/// during the update each of them lies outside those partitions or has been
/// copied out of them. Releasing the evacuated partitions at the end of the
/// cycle therefore frees none of them.
pub proof fn law_snapshot_survives_cycle(gc: IncrementalGc)
    requires
        gc.inv(),
    ensures
        gc.phase_kind_spec() == PhaseKind::Evacuate ==> snapshot_marked_in(gc.heap, gc.snapshot@),
        gc.phase_kind_spec() == PhaseKind::Update ==> snapshot_survives(gc.heap, gc.snapshot@),
{
}

/// Once the update has walked the whole heap, every object that was marked
/// outside the evacuated partitions when the update started has its pointer
/// fields resolved: none points to an object that was copied away. With
/// `law_update_avoids_evacuated_partitions`, a resolved pointer to a marked
/// object lies outside the partitions that the end of the cycle releases.
pub proof fn law_update_resolves_live_objects(gc: IncrementalGc)
    requires
        gc.inv(),
        gc.phase_kind_spec() == PhaseKind::Update,
        position_of(gc.phase).is_done(),
    ensures
        forall|s: (int, int)| #[trigger] gc.live@.contains(s) ==> crate::update::fields_resolved(gc.heap, s.0, s.1),
{
    assert forall|s: (int, int)| #[trigger] gc.live@.contains(s) implies crate::update::fields_resolved(gc.heap, s.0, s.1) by {
        assert(position_of(gc.phase).passed(s.0, s.1));
    }
}

proof fn lemma_occupied_bound(heap: PartitionedHeap, n: int)
    requires
        heap.wf(),
        0 <= n <= MAX_PARTITIONS,
    ensures
        0 <= heap.occupied_in(n) <= n * PARTITION_WORDS,
    decreases n,
{
    if n > 0 {
        lemma_occupied_bound(heap, n - 1);
        assert(heap.partition_ok(n - 1));
    }
}

} // verus!

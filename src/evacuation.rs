//! Incremental evacuation: marked objects of the partitions chosen for
//! evacuation are copied to other partitions, and the originals forward to
//! their copies.
use vstd::prelude::*;
use crate::heap::{PartitionedHeap, MAX_PARTITIONS, HEADER_WORDS, lemma_words_element};
use crate::time::BoundedTime;
use crate::snapshot::unsliced;

verus! {

/// Failure of the collector: the heap has no room for a copy.
#[derive(Clone, Copy, Debug, PartialEq, Eq, Structural)]
pub enum GcError {
    OutOfMemory,
}

/// Position of a resumable walk over the heap: a partition and a slot.
#[derive(Clone, Copy, Debug, PartialEq, Eq, Structural)]
pub struct HeapIteratorState {
    pub partition_index: usize,
    pub slot: usize,
}

impl HeapIteratorState {
    /// The start of the heap.
    pub fn new() -> (r: HeapIteratorState)
        ensures
            r.partition_index == 0,
            r.slot == 0,
    {
        HeapIteratorState { partition_index: 0, slot: 0 }
    }

    /// The walk has passed every partition.
    pub open spec fn is_done(&self) -> bool {
        self.partition_index >= MAX_PARTITIONS
    }

    /// `other` lies strictly after this position.
    pub open spec fn before(&self, other: HeapIteratorState) -> bool {
        self.partition_index < other.partition_index || (self.partition_index == other.partition_index
            && self.slot < other.slot)
    }

    /// The slot `k` of partition `p` comes before the position.
    pub open spec fn passed(&self, p: int, k: int) -> bool {
        p < self.partition_index || (p == self.partition_index && k < self.slot)
    }
}

/// The end of a heap walk.
pub open spec fn walk_done() -> HeapIteratorState {
    HeapIteratorState { partition_index: MAX_PARTITIONS, slot: 0 }
}

/// Every marked object in an evacuated partition before `position` has
/// been copied.
pub open spec fn evacuated_before(heap: PartitionedHeap, position: HeapIteratorState) -> bool {
    forall|p: int, k: int| 0 <= p < MAX_PARTITIONS && 0 <= k < heap.partitions@[p].objects@.len()
        && position.passed(p, k) && heap.partitions@[p].to_be_evacuated && #[trigger] heap.obj(p, k).marked
        ==> heap.is_forwarded(p, k)
}

/// The object in slot `k` of partition `p` of `h0` forwards in `h1` to a
/// marked object that is new since `h0` and holds the same tag and fields.
pub open spec fn copied_to_new(h0: PartitionedHeap, h1: PartitionedHeap, p: int, k: int) -> bool {
    let f = h1.obj(p, k).forward as int;
    &&& h1.is_object_address(f)
    &&& h1.slot_of(f) >= h0.partitions@[h1.partition_of(f)].objects@.len()
    &&& h1.object_at(f).tag == h0.obj(p, k).tag
    &&& h1.object_at(f).fields@ == h0.obj(p, k).fields@
    &&& h1.object_at(f).marked
}

/// `h1` is `h0` with copies added and forwarding set for marked objects of
/// evacuated partitions, each to a new copy of itself; objects keep their
/// tags, fields and mark bits.
pub open spec fn evacuation_step(h0: PartitionedHeap, h1: PartitionedHeap) -> bool {
    &&& h1.base == h0.base
    &&& h1.partitions@.len() == h0.partitions@.len()
    &&& forall|p: int| 0 <= p < h0.partitions@.len() ==> {
        &&& (#[trigger] h1.partitions@[p]).objects@.len() >= h0.partitions@[p].objects@.len()
        &&& h1.partitions@[p].to_be_evacuated == h0.partitions@[p].to_be_evacuated
        &&& h0.partitions@[p].to_be_evacuated ==> h1.partitions@[p].objects@.len() == h0.partitions@[p].objects@.len()
    }
    &&& forall|p: int, k: int| 0 <= p < h0.partitions@.len() && 0 <= k < h0.partitions@[p].objects@.len() ==> {
        &&& (#[trigger] h1.obj(p, k)).tag == h0.obj(p, k).tag
        &&& h1.obj(p, k).fields@ == h0.obj(p, k).fields@
        &&& h1.obj(p, k).marked == h0.obj(p, k).marked
        &&& (h1.obj(p, k).forward != h0.obj(p, k).forward ==> h0.partitions@[p].to_be_evacuated
            && !h0.is_forwarded(p, k) && h0.obj(p, k).marked && copied_to_new(h0, h1, p, k))
    }
}

pub proof fn lemma_evacuation_step_trans(h0: PartitionedHeap, h1: PartitionedHeap, h2: PartitionedHeap)
    requires
        evacuation_step(h0, h1),
        evacuation_step(h1, h2),
    ensures
        evacuation_step(h0, h2),
{
    assert forall|p: int| 0 <= p < h0.partitions@.len() implies {
        &&& (#[trigger] h2.partitions@[p]).objects@.len() >= h0.partitions@[p].objects@.len()
        &&& h2.partitions@[p].to_be_evacuated == h0.partitions@[p].to_be_evacuated
        &&& h0.partitions@[p].to_be_evacuated ==> h2.partitions@[p].objects@.len() == h0.partitions@[p].objects@.len()
    } by {
        assert(h1.partitions@[p].objects@.len() >= h0.partitions@[p].objects@.len());
    }
    assert forall|p: int, k: int| 0 <= p < h0.partitions@.len() && 0 <= k < h0.partitions@[p].objects@.len() implies {
        &&& (#[trigger] h2.obj(p, k)).tag == h0.obj(p, k).tag
        &&& h2.obj(p, k).fields@ == h0.obj(p, k).fields@
        &&& h2.obj(p, k).marked == h0.obj(p, k).marked
        &&& (h2.obj(p, k).forward != h0.obj(p, k).forward ==> h0.partitions@[p].to_be_evacuated
            && !h0.is_forwarded(p, k) && h0.obj(p, k).marked && copied_to_new(h0, h2, p, k))
    } by {
        assert(h1.partitions@[p].objects@.len() >= h0.partitions@[p].objects@.len());
        assert(h1.obj(p, k).tag == h0.obj(p, k).tag);
        assert(h2.obj(p, k).tag == h1.obj(p, k).tag);
        if h2.obj(p, k).forward != h0.obj(p, k).forward {
            if h1.obj(p, k).forward != h0.obj(p, k).forward {
                let f = h1.obj(p, k).forward as int;
                assert(h2.obj(p, k).forward == h1.obj(p, k).forward);
                let q = h1.partition_of(f);
                let j = h1.slot_of(f);
                assert(h2.partitions@[q].objects@.len() >= h1.partitions@[q].objects@.len());
                assert(h2.obj(q, j).tag == h1.obj(q, j).tag);
            } else {
                let f = h2.obj(p, k).forward as int;
                let q = h2.partition_of(f);
                assert(h1.partitions@[q].objects@.len() >= h0.partitions@[q].objects@.len());
            }
        }
    }
}

/// Work of one evacuation increment, within a time budget.
pub struct EvacuationIncrement {
    pub time: BoundedTime,
}

impl EvacuationIncrement {
    pub fn instance(limit: usize) -> (r: EvacuationIncrement)
        requires
            limit < usize::MAX,
        ensures
            r.time.wf(),
            r.time.steps == 0,
            r.time.limit == limit,
    {
        EvacuationIncrement { time: BoundedTime::new(limit) }
    }

    /// Copy the object in slot `k` of evacuated partition `p`: the copy is
    /// marked, forwards to itself, and holds the same tag and fields, and the
    /// original forwards to it.
    pub fn evacuate_object(heap: &mut PartitionedHeap, p: usize, k: usize) -> (r: Result<(), GcError>)
        requires
            old(heap).wf(),
            p < MAX_PARTITIONS,
            k < old(heap).partitions@[p as int].objects@.len(),
            old(heap).partitions@[p as int].to_be_evacuated,
            !old(heap).is_forwarded(p as int, k as int),
        ensures
            final(heap).wf(),
            r.is_ok() ==> {
                let f = final(heap).obj(p as int, k as int).forward as int;
                &&& final(heap).is_forwarded(p as int, k as int)
                &&& final(heap).is_object_address(f)
                &&& !final(heap).is_evacuated_address(f)
                &&& final(heap).object_at(f).marked
                &&& final(heap).object_at(f).tag == old(heap).obj(p as int, k as int).tag
                &&& final(heap).object_at(f).fields@ == old(heap).obj(p as int, k as int).fields@
                &&& final(heap).partition_of(f) == final(heap).allocation_index
                &&& final(heap).slot_of(f) == old(heap).partitions@[final(heap).partition_of(f)].objects@.len()
                &&& final(heap).partitions@[final(heap).partition_of(f)].objects@.len() == final(heap).slot_of(f) + 1
            },
            old(heap).obj(p as int, k as int).marked ==> evacuation_step(*old(heap), *final(heap)),
            r.is_err() ==> *final(heap) == *old(heap),
            r.is_ok() == old(heap).can_allocate(old(heap).obj(p as int, k as int).fields@.len() + HEADER_WORDS),
            unsliced(*old(heap)) ==> unsliced(*final(heap)),
    {
        let copy = heap.partitions[p].objects[k].copy();
        proof {
            assert(heap.partition_ok(p as int));
            lemma_words_element(heap.partitions@[p as int].objects@, k as int, false);
        }
        let ghost h0 = *heap;
        match heap.allocate(copy.tag, copy.fields) {
            None => Err(GcError::OutOfMemory),
            Some(value) => {
                let ghost h1 = *heap;
                let (q, j) = match heap.lookup(value) {
                    Some(slot) => slot,
                    None => {
                        proof {
                            assert(false);
                        }
                        (0, 0)
                    },
                };
                proof {
                    h1.lemma_object_address(value.address());
                }
                heap.set_mark(q, j, true);
                let ghost h2 = *heap;
                let address = value.get_ptr();
                proof {
                    assert(h2.obj(q as int, j as int).forward == address);
                    assert(q == h2.allocation_index);
                    assert(h2.is_object_address(address as int)) by {
                        h2.lemma_address_decodes(q as int, j as int);
                    }
                    h2.lemma_address_decodes(q as int, j as int);
                    assert(h0.obj(p as int, k as int) == h2.obj(p as int, k as int));
                }
                heap.set_forward(p, k, address);
                proof {
                    heap.lemma_address_decodes(q as int, j as int);
                    heap.lemma_address_decodes(p as int, k as int);
                    assert(q != p);
                    assert forall|pp: int| 0 <= pp < h0.partitions@.len() implies {
                        &&& (#[trigger] heap.partitions@[pp]).objects@.len() >= h0.partitions@[pp].objects@.len()
                        &&& heap.partitions@[pp].to_be_evacuated == h0.partitions@[pp].to_be_evacuated
                        &&& h0.partitions@[pp].to_be_evacuated ==> heap.partitions@[pp].objects@.len() == h0.partitions@[pp].objects@.len()
                    } by {
                        assert(h1.partitions@[pp].objects@.len() >= h0.partitions@[pp].objects@.len());
                    }
                    if unsliced(h0) {
                        assert forall|pp: int, kk: int| 0 <= pp < MAX_PARTITIONS && 0 <= kk < heap.partitions@[pp].objects@.len()
                            implies (#[trigger] heap.obj(pp, kk)).tag < crate::heap::TAG_ARRAY_SLICE_MIN by {
                            if pp == q && kk == j {
                                assert(h0.obj(p as int, k as int).tag < crate::heap::TAG_ARRAY_SLICE_MIN);
                            } else {
                                assert(kk < h0.partitions@[pp].objects@.len() || pp == q);
                                if kk < h0.partitions@[pp].objects@.len() {
                                    assert(h1.obj(pp, kk) == h0.obj(pp, kk));
                                }
                                assert(h2.obj(pp, kk) == h1.obj(pp, kk));
                                if pp != p || kk != k {
                                    assert(heap.obj(pp, kk) == h2.obj(pp, kk));
                                }
                            }
                        }
                    }
                    assert forall|pp: int, kk: int| 0 <= pp < h0.partitions@.len() && 0 <= kk < h0.partitions@[pp].objects@.len() implies {
                        &&& (#[trigger] heap.obj(pp, kk)).tag == h0.obj(pp, kk).tag
                        &&& heap.obj(pp, kk).fields@ == h0.obj(pp, kk).fields@
                        &&& heap.obj(pp, kk).marked == h0.obj(pp, kk).marked
                        &&& (heap.obj(pp, kk).forward != h0.obj(pp, kk).forward ==> h0.partitions@[pp].to_be_evacuated
                            && !h0.is_forwarded(pp, kk))
                    } by {
                        assert(h1.obj(pp, kk) == h0.obj(pp, kk));
                        if pp == q {
                            assert(kk < j);
                        }
                        if pp != p || kk != k {
                            assert(h2.obj(pp, kk) == h1.obj(pp, kk));
                            assert(heap.obj(pp, kk) == h2.obj(pp, kk));
                        }
                    }
                }
                Ok(())
            },
        }
    }

    /// Walk the evacuated partitions from `position` and copy their marked
    /// objects that are not yet copied, until the walk is done or the time
    /// budget is spent.
    pub fn run(&mut self, heap: &mut PartitionedHeap, position: &mut HeapIteratorState) -> (r: Result<(), GcError>)
        requires
            old(heap).wf(),
            old(self).time.wf(),
            evacuated_before(*old(heap), *old(position)),
        ensures
            final(heap).wf(),
            evacuation_step(*old(heap), *final(heap)),
            final(self).time.wf(),
            final(self).time.limit == old(self).time.limit,
            final(self).time.steps >= old(self).time.steps,
            evacuated_before(*final(heap), *final(position)),
            r.is_ok() && !final(position).is_done() ==> final(self).time.is_over_spec(),
            r.is_err() ==> {
                let p = final(position).partition_index as int;
                let k = final(position).slot as int;
                &&& p < MAX_PARTITIONS
                &&& k < final(heap).partitions@[p].objects@.len()
                &&& final(heap).partitions@[p].to_be_evacuated
                &&& final(heap).obj(p, k).marked
                &&& !final(heap).is_forwarded(p, k)
                &&& !final(heap).can_allocate(final(heap).obj(p, k).fields@.len() + HEADER_WORDS)
            },
            unsliced(*old(heap)) ==> unsliced(*final(heap)),
            *final(position) == *old(position) || old(position).before(*final(position)),
            !old(self).time.is_over_spec() && !old(position).is_done() ==> r.is_err() || old(position).before(
                *final(position),
            ),
    {
        let ghost h0 = *heap;
        while position.partition_index < MAX_PARTITIONS && !self.time.is_over()
            invariant
                heap.wf(),
                h0 == *old(heap),
                evacuation_step(h0, *heap),
                self.time.wf(),
                self.time.limit == old(self).time.limit,
                self.time.steps >= old(self).time.steps,
                evacuated_before(*heap, *position),
                unsliced(h0) ==> unsliced(*heap),
                *position == *old(position) || old(position).before(*position),
                *position == *old(position) ==> self.time == old(self).time,
            decreases MAX_PARTITIONS - position.partition_index, self.time.remaining(),
        {
            let p = position.partition_index;
            if heap.partitions[p].to_be_evacuated && position.slot < heap.partitions[p].objects.len() {
                let k = position.slot;
                let ghost before = *heap;
                if heap.partitions[p].objects[k].marked && heap.partitions[p].objects[k].forward == heap.slot_address(p, k) {
                    match Self::evacuate_object(heap, p, k) {
                        Err(e) => {
                            proof {
                                lemma_evacuation_step_trans(h0, before, *heap);
                            }
                            return Err(e);
                        },
                        Ok(()) => {},
                    }
                    proof {
                        lemma_evacuation_step_trans(h0, before, *heap);
                    }
                }
                position.slot = k + 1;
                self.time.tick();
                proof {
                    assert forall|pp: int, kk: int| 0 <= pp < MAX_PARTITIONS && 0 <= kk < heap.partitions@[pp].objects@.len()
                        && position.passed(pp, kk) && heap.partitions@[pp].to_be_evacuated && #[trigger] heap.obj(pp, kk).marked
                        implies heap.is_forwarded(pp, kk) by {
                        assert(before.partitions@[pp].to_be_evacuated);
                        assert(before.partitions@[pp].objects@.len() == heap.partitions@[pp].objects@.len());
                        if pp == p && kk == k {
                            if !before.is_forwarded(pp, kk) && before.obj(pp, kk).marked {
                            } else if before.is_forwarded(pp, kk) {
                                assert(heap.obj(pp, kk).forward == before.obj(pp, kk).forward);
                            } else {
                                assert(heap.obj(pp, kk) == before.obj(pp, kk));
                            }
                        } else {
                            assert(before.obj(pp, kk).marked || !before.obj(pp, kk).marked);
                            if heap.obj(pp, kk).forward != before.obj(pp, kk).forward {
                            } else {
                                assert(before.obj(pp, kk).tag == heap.obj(pp, kk).tag);
                            }
                        }
                    }
                }
            } else {
                position.partition_index = p + 1;
                position.slot = 0;
            }
        }
        Ok(())
    }
}

} // verus!

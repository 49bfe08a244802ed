use motoko_gc::evacuation::{EvacuationIncrement, GcError, HeapIteratorState};
use motoko_gc::gc::{IncrementalGc, Location, PhaseKind};
use motoko_gc::heap::{PartitionedHeap, MAX_PARTITIONS, PARTITION_SLOTS, TAG_ARRAY, TAG_BLOB, TAG_OBJECT};
use motoko_gc::mark::{MarkIncrement, MarkState};
use motoko_gc::roots::{visit_roots, Roots};
use motoko_gc::remembered_set::RememberedSet;
use motoko_gc::update::{forward_if_possible, UpdateIncrement};
use motoko_gc::time::BoundedTime;
use motoko_gc::value::Value;

const HEAP_BASE: usize = 0x10000;

fn null() -> Value {
    Value::from_scalar(0)
}

fn new_gc(static_roots: usize) -> IncrementalGc {
    let roots = Roots { static_roots: vec![null(); static_roots], continuation_table: null() };
    IncrementalGc::new(HEAP_BASE, roots)
}

fn finish_cycle(gc: &mut IncrementalGc) {
    for _ in 0..100 {
        gc.incremental_gc().unwrap();
        if gc.phase_kind() == PhaseKind::Pause {
            return;
        }
    }
    panic!("cycle did not end");
}

#[test]
fn linked_list_cycle_keeps_live_half() {
    let mut gc = new_gc(1);
    let mut nodes = vec![null(); 1000];
    for i in (0..1000).rev() {
        let next = if i + 2 < 1000 { nodes[i + 2] } else { null() };
        nodes[i] = gc.allocate(TAG_OBJECT, vec![next, Value::from_scalar(i)]).unwrap();
    }
    gc.write_with_barrier(Location::StaticRoot(0), nodes[0]);
    assert_eq!(gc.occupation(), 4000);
    gc.incremental_gc().unwrap();
    assert_eq!(gc.phase_kind(), PhaseKind::Pause);
    let mut current = gc.read_location(Location::StaticRoot(0));
    let mut count = 0;
    while current.is_ptr() {
        assert_eq!(gc.field(current, 1), Some(Value::from_scalar(2 * count)));
        assert!(!gc.is_marked(current));
        current = gc.field(current, 0).unwrap();
        count += 1;
    }
    assert_eq!(count, 500);
    assert_eq!(gc.occupation(), 2000);
}

#[test]
fn snapshot_keeps_overwritten_target_for_one_cycle() {
    let mut gc = new_gc(1);
    let b = gc.allocate(TAG_OBJECT, vec![Value::from_scalar(7)]).unwrap();
    let a = gc.allocate(TAG_OBJECT, vec![b]).unwrap();
    gc.write_with_barrier(Location::StaticRoot(0), a);
    gc.run_increment(&mut BoundedTime::new(0), true).unwrap();
    assert_eq!(gc.phase_kind(), PhaseKind::Mark);
    assert!(gc.is_marked(a));
    assert!(!gc.is_marked(b));
    gc.write_with_barrier(Location::Field(a, 0), null());
    assert!(gc.is_marked(b));
    finish_cycle(&mut gc);
    assert_eq!(gc.field(b, 0), Some(Value::from_scalar(7)));
    finish_cycle(&mut gc);
    let root = gc.read_location(Location::StaticRoot(0));
    assert_eq!(gc.field(root, 0), Some(null()));
    assert_eq!(gc.field(b, 0), None);
    assert_eq!(gc.occupation(), 3);
}

#[test]
fn stop_on_upgrade_mid_mark_freezes_the_phase() {
    let mut gc = new_gc(1);
    let a = gc.allocate(TAG_OBJECT, vec![null()]).unwrap();
    gc.write_with_barrier(Location::StaticRoot(0), a);
    gc.run_increment(&mut BoundedTime::new(0), true).unwrap();
    assert_eq!(gc.phase_kind(), PhaseKind::Mark);
    gc.stop_gc_on_upgrade();
    assert_eq!(gc.phase_kind(), PhaseKind::Stop);
    let mut last = a;
    for _ in 0..250 {
        last = gc.allocate(TAG_OBJECT, vec![last]).unwrap();
        assert_eq!(gc.phase_kind(), PhaseKind::Stop);
    }
    gc.write_with_barrier(Location::Field(a, 0), last);
    assert_eq!(gc.field(a, 0), Some(last));
    gc.empty_call_stack_increment().unwrap();
    gc.incremental_gc().unwrap();
    gc.schedule_incremental_gc().unwrap();
    assert_eq!(gc.phase_kind(), PhaseKind::Stop);
    assert_eq!(gc.read_location(Location::StaticRoot(0)), a);
}

#[test]
fn repeated_mark_object_marks_once() {
    let mut heap = PartitionedHeap::new(HEAP_BASE);
    let v = heap.allocate(TAG_OBJECT, vec![null()]).unwrap();
    let mut state = MarkState::new();
    let mut increment = MarkIncrement::instance(100);
    increment.mark_object(&mut heap, &mut state, v);
    increment.mark_object(&mut heap, &mut state, v);
    increment.mark_object(&mut heap, &mut state, v);
    assert_eq!(state.mark_stack.len(), 1);
    let (p, k) = heap.lookup(v).unwrap();
    assert!(heap.partitions[p].objects[k].marked);
    assert_eq!(heap.partitions[p].marked_size, 3);
    increment.mark_object(&mut heap, &mut state, Value::from_scalar(5));
    assert_eq!(state.mark_stack.len(), 1);
}

#[test]
fn write_barrier_marks_only_the_overwritten_value() {
    let mut gc = new_gc(2);
    let b = gc.allocate(TAG_OBJECT, vec![]).unwrap();
    let c = gc.allocate(TAG_OBJECT, vec![]).unwrap();
    let a = gc.allocate(TAG_OBJECT, vec![b]).unwrap();
    let other = gc.allocate(TAG_OBJECT, vec![]).unwrap();
    gc.write_with_barrier(Location::StaticRoot(0), a);
    gc.run_increment(&mut BoundedTime::new(0), true).unwrap();
    gc.write_with_barrier(Location::Field(a, 0), c);
    assert!(gc.is_marked(b));
    assert!(!gc.is_marked(c));
    assert!(!gc.is_marked(other));
    gc.write_with_barrier(Location::StaticRoot(1), other);
    assert!(!gc.is_marked(other));
}

#[test]
fn pause_writes_are_plain_stores() {
    let mut gc = new_gc(1);
    let a = gc.allocate(TAG_OBJECT, vec![null()]).unwrap();
    gc.write_with_barrier(Location::Field(a, 0), Value::from_scalar(9));
    assert_eq!(gc.field(a, 0), Some(Value::from_scalar(9)));
    assert!(!gc.is_marked(a));
    gc.write_with_barrier(Location::ContinuationTable, a);
    assert_eq!(gc.read_location(Location::ContinuationTable), a);
}

#[test]
fn evacuated_copy_keeps_payload_after_update() {
    let mut heap = PartitionedHeap::new(HEAP_BASE);
    heap.allocate(TAG_OBJECT, vec![null(); 10]).unwrap();
    let y = heap.allocate(TAG_BLOB, vec![Value::from_scalar(11), Value::from_raw(0x55)]).unwrap();
    let x = heap.allocate(TAG_OBJECT, vec![y, Value::from_scalar(42)]).unwrap();
    let (px, kx) = heap.lookup(x).unwrap();
    let (py, ky) = heap.lookup(y).unwrap();
    heap.set_mark(px, kx, true);
    heap.set_mark(py, ky, true);
    heap.start_new_allocation_partition();
    heap.plan_evacuations();
    assert!(heap.partitions[px].to_be_evacuated);
    assert_eq!(EvacuationIncrement::evacuate_object(&mut heap, py, ky), Ok(()));
    assert_eq!(EvacuationIncrement::evacuate_object(&mut heap, px, kx), Ok(()));
    let x_copy = forward_if_possible(&heap, x);
    let y_copy = forward_if_possible(&heap, y);
    assert_ne!(x_copy, x);
    assert_ne!(y_copy, y);
    let mut position = HeapIteratorState::new();
    let mut update = UpdateIncrement::instance(1000);
    update.run(&mut heap, &mut position);
    let (qx, jx) = heap.lookup(x_copy).unwrap();
    let (qy, jy) = heap.lookup(y_copy).unwrap();
    assert_eq!(heap.partitions[qx].objects[jx].fields, vec![y_copy, Value::from_scalar(42)]);
    assert_eq!(heap.partitions[qy].objects[jy].fields, vec![Value::from_scalar(11), Value::from_raw(0x55)]);
    assert!(!heap.partitions[qx].objects[jx].marked);
}

#[test]
fn forwarding_points_outside_evacuated_partitions() {
    let mut heap = PartitionedHeap::new(HEAP_BASE);
    let mut values = Vec::new();
    for i in 0..10 {
        values.push(heap.allocate(TAG_OBJECT, vec![Value::from_scalar(i)]).unwrap());
    }
    let (p, k) = heap.lookup(values[0]).unwrap();
    heap.set_mark(p, k, true);
    heap.start_new_allocation_partition();
    heap.plan_evacuations();
    assert!(heap.partitions[0].to_be_evacuated);
    let mut position = HeapIteratorState::new();
    let mut evacuation = EvacuationIncrement::instance(1000);
    assert_eq!(evacuation.run(&mut heap, &mut position), Ok(()));
    assert!(position.partition_index >= MAX_PARTITIONS);
    for (index, value) in values.iter().enumerate() {
        let resolved = forward_if_possible(&heap, *value);
        let (q, j) = heap.lookup(resolved).unwrap();
        if index == 0 {
            assert!(!heap.partitions[q].to_be_evacuated);
            assert_eq!(heap.partitions[q].objects[j].forward, resolved.get_ptr());
        } else {
            assert_eq!(resolved, *value);
        }
    }
    heap.free_evacuated_partitions();
    assert!(heap.lookup(values[3]).is_none());
}

#[test]
fn long_array_is_marked_in_slices() {
    let mut heap = PartitionedHeap::new(HEAP_BASE);
    let mut elements = Vec::new();
    for i in 0..300 {
        elements.push(heap.allocate(TAG_OBJECT, vec![Value::from_scalar(i)]).unwrap());
    }
    let array = heap.allocate(TAG_ARRAY, elements.clone()).unwrap();
    let roots = Roots { static_roots: vec![array], continuation_table: null() };
    let mut state = MarkState::new();
    let mut increment = MarkIncrement::instance(1_000_000);
    increment.mark_roots(&mut heap, &mut state, &roots, None);
    increment.run(&mut heap, &mut state);
    assert!(state.complete);
    for element in elements.iter() {
        let (p, k) = heap.lookup(*element).unwrap();
        assert!(heap.partitions[p].objects[k].marked);
    }
    let (p, k) = heap.lookup(array).unwrap();
    assert_eq!(heap.partitions[p].objects[k].tag, TAG_ARRAY);
}

#[test]
fn heap_allocation_fails_when_every_partition_is_full() {
    let mut heap = PartitionedHeap::new(HEAP_BASE);
    for _ in 0..MAX_PARTITIONS * PARTITION_SLOTS {
        assert!(heap.allocate(TAG_OBJECT, vec![]).is_some());
    }
    assert!(heap.allocate(TAG_OBJECT, vec![]).is_none());
    assert_eq!(heap.occupation(), 2 * MAX_PARTITIONS * PARTITION_SLOTS);
}

#[test]
fn collector_reports_out_of_memory() {
    let mut gc = new_gc(0);
    for _ in 0..MAX_PARTITIONS * PARTITION_SLOTS {
        gc.allocate(TAG_OBJECT, vec![]).unwrap();
    }
    assert_eq!(gc.allocate(TAG_OBJECT, vec![]), Err(GcError::OutOfMemory));
}

#[test]
fn roots_are_visited_in_order() {
    let mut heap = PartitionedHeap::new(HEAP_BASE);
    let a = heap.allocate(TAG_OBJECT, vec![]).unwrap();
    let b = heap.allocate(TAG_OBJECT, vec![]).unwrap();
    let table = heap.allocate(TAG_ARRAY, vec![a]).unwrap();
    let static_object = Value::from_ptr(0x100);
    let roots = Roots { static_roots: vec![a, Value::from_scalar(3), static_object, b], continuation_table: table };
    assert_eq!(visit_roots(&heap, &roots, None), vec![a, b, table]);
    let mut remembered = RememberedSet::new();
    remembered.insert(b);
    remembered.insert(a);
    remembered.insert(b);
    assert_eq!(remembered.len(), 2);
    assert_eq!(visit_roots(&heap, &roots, Some(&remembered)), vec![a, b, table, b, a]);
}

#[test]
fn value_tagging() {
    let pointer = Value::from_ptr(0x2000);
    assert_eq!(pointer.get_raw(), 0x1fff);
    assert!(pointer.is_ptr());
    assert!(!pointer.is_scalar());
    assert_eq!(pointer.get_ptr(), 0x2000);
    let scalar = Value::from_scalar(21);
    assert_eq!(scalar.get_raw(), 42);
    assert!(scalar.is_scalar());
    assert_eq!(scalar.get_scalar(), 21);
}

#[test]
fn start_policy_waits_for_growth() {
    let mut gc = new_gc(0);
    gc.allocate(TAG_OBJECT, vec![]).unwrap();
    assert!(!gc.should_start());
    gc.schedule_incremental_gc().unwrap();
    assert_eq!(gc.phase_kind(), PhaseKind::Pause);
}

#[test]
fn partitions_span_their_slots() {
    let heap = PartitionedHeap::new(HEAP_BASE);
    let range = heap.partition_range(2);
    assert_eq!(range.lower(), HEAP_BASE + 2 * PARTITION_SLOTS * 4);
    assert_eq!(range.upper(), HEAP_BASE + 3 * PARTITION_SLOTS * 4);
    assert!(range.includes(range.lower()));
    assert!(!range.includes(range.upper()));
}

#[test]
fn pre_write_barrier_marks_the_current_value() {
    let mut gc = new_gc(1);
    let b = gc.allocate(TAG_OBJECT, vec![]).unwrap();
    let a = gc.allocate(TAG_OBJECT, vec![b]).unwrap();
    gc.pre_write_barrier(Location::Field(a, 0));
    assert!(!gc.is_marked(b));
    gc.write_with_barrier(Location::StaticRoot(0), a);
    gc.run_increment(&mut BoundedTime::new(0), true).unwrap();
    gc.pre_write_barrier(Location::Field(a, 0));
    assert!(gc.is_marked(b));
    assert_eq!(gc.field(a, 0), Some(b));
}

#[test]
fn evacuation_fails_without_room_for_a_copy() {
    let mut heap = PartitionedHeap::new(HEAP_BASE);
    let first = heap.allocate(TAG_OBJECT, vec![null(); 4]).unwrap();
    for _ in 1..MAX_PARTITIONS * PARTITION_SLOTS {
        heap.allocate(TAG_OBJECT, vec![]).unwrap();
    }
    let (p, k) = heap.lookup(first).unwrap();
    heap.set_mark(p, k, true);
    heap.start_new_allocation_partition();
    heap.plan_evacuations();
    assert!(heap.partitions[p].to_be_evacuated);
    assert_eq!(EvacuationIncrement::evacuate_object(&mut heap, p, k), Err(GcError::OutOfMemory));
    let mut position = HeapIteratorState::new();
    let mut evacuation = EvacuationIncrement::instance(1000);
    assert_eq!(evacuation.run(&mut heap, &mut position), Err(GcError::OutOfMemory));
    assert_eq!((position.partition_index, position.slot), (p, k));
}

#[test]
fn start_policy_starts_after_growth() {
    let mut gc = new_gc(0);
    let words = motoko_gc::heap::PARTITION_WORDS;
    gc.allocate(TAG_BLOB, vec![Value::from_scalar(0); words - 2]).unwrap();
    assert_eq!(gc.occupation(), words);
    assert!(gc.should_start());
    gc.schedule_incremental_gc().unwrap();
    assert_eq!(gc.phase_kind(), PhaseKind::Pause);
    assert_eq!(gc.last_occupation, words);
    assert!(!gc.should_start());
    assert_eq!(gc.occupation(), 0);
}

#[test]
fn marking_completes_with_an_empty_stack() {
    let mut gc = new_gc(1);
    let a = gc.allocate(TAG_OBJECT, vec![]).unwrap();
    gc.write_with_barrier(Location::StaticRoot(0), a);
    assert!(!gc.marking_complete());
    gc.run_increment(&mut BoundedTime::new(0), true).unwrap();
    assert!(!gc.marking_complete());
    for _ in 0..100 {
        gc.allocate(TAG_OBJECT, vec![]).unwrap();
    }
    assert_eq!(gc.phase_kind(), PhaseKind::Mark);
    assert!(gc.marking_complete());
    assert!(gc.is_marked(a));
}

use motoko_gc::object_heap::ObjectHeap;
use motoko_gc::object_table::{null_object_id, ObjectTable, NULL_OBJECT_ID_RAW};
use motoko_gc::value::{Value, WORD_SIZE};
use oorandom::Rand32;

const TEST_SIZE: usize = 10_000;
const TABLE_BASE: usize = 0x1000;

fn create_object_table(length: usize) -> ObjectTable {
    ObjectTable::new(TABLE_BASE, length)
}

fn allocate_entries(object_table: &mut ObjectTable, expected_table: &mut [(Value, usize)]) {
    for count in 0..expected_table.len() {
        let address = object_table.end() + count * WORD_SIZE;
        let object_id = object_table.new_object_id(address);
        assert_eq!(object_table.get_object_address(object_id), address);
        expected_table[count] = (object_id, address);
        assert_eq!(object_table.get_object_address(object_id), address);
    }
}

fn check_all_entries(object_table: &ObjectTable, expected_table: &[(Value, usize)]) {
    for (object_id, address) in expected_table.iter() {
        assert_eq!(object_table.get_object_address(*object_id), *address);
    }
}

fn free_all_entries(object_table: &mut ObjectTable, expected_table: &[(Value, usize)]) {
    for (object_id, _) in expected_table.iter() {
        object_table.free_object_id(*object_id);
    }
}

fn delete_random_half(object_table: &mut ObjectTable, expected_table: &mut [(Value, usize)]) -> usize {
    const RANDOM_SEED: u64 = 4711;
    let mut random = Rand32::new(RANDOM_SEED);
    let mut deleted = 0;
    for index in 0..expected_table.len() {
        if random.rand_u32() % 2 == 0 {
            let object_id = expected_table[index].0;
            object_table.free_object_id(object_id);
            expected_table[index].0 = null_object_id();
            deleted += 1;
        }
    }
    deleted
}

fn reallocate(object_table: &mut ObjectTable, expected_table: &mut [(Value, usize)]) {
    let mut free_index = 0;
    while free_index < expected_table.len() && expected_table[free_index].0 != null_object_id() {
        free_index += 1;
    }
    assert!(free_index < expected_table.len());
    let address = expected_table[free_index].1;
    expected_table[free_index].0 = object_table.new_object_id(address);
}

fn move_all_objects(object_table: &mut ObjectTable, expected_table: &mut [(Value, usize)]) {
    for index in 0..expected_table.len() {
        let (object_id, old_address) = expected_table[index];
        let new_address = old_address + 3 * WORD_SIZE;
        object_table.move_object(object_id, new_address);
        expected_table[index].1 = new_address;
    }
}

#[test]
fn test_allocate() {
    let mut object_table = create_object_table(TEST_SIZE);
    let mut expected_table = vec![(null_object_id(), 0); TEST_SIZE];
    allocate_entries(&mut object_table, &mut expected_table);
    check_all_entries(&object_table, &expected_table);
    free_all_entries(&mut object_table, &expected_table);
    assert!(object_table.has_free_id());
}

#[test]
fn test_remove_realloc() {
    let mut object_table = create_object_table(TEST_SIZE);
    let mut expected_table = vec![(null_object_id(), 0); TEST_SIZE];
    allocate_entries(&mut object_table, &mut expected_table);
    check_all_entries(&object_table, &expected_table);
    let deleted = delete_random_half(&mut object_table, &mut expected_table);
    for _ in 0..deleted {
        reallocate(&mut object_table, &mut expected_table);
    }
    check_all_entries(&object_table, &expected_table);
    free_all_entries(&mut object_table, &expected_table);
}

#[test]
fn test_move() {
    let mut object_table = create_object_table(TEST_SIZE);
    let mut expected_table = vec![(null_object_id(), 0); TEST_SIZE];
    allocate_entries(&mut object_table, &mut expected_table);
    check_all_entries(&object_table, &expected_table);
    move_all_objects(&mut object_table, &mut expected_table);
    check_all_entries(&object_table, &expected_table);
}

#[test]
fn free_every_other_and_reallocate() {
    let mut object_table = create_object_table(TEST_SIZE);
    let mut expected_table = vec![(null_object_id(), 0); TEST_SIZE];
    allocate_entries(&mut object_table, &mut expected_table);
    for index in (0..TEST_SIZE).step_by(2) {
        object_table.free_object_id(expected_table[index].0);
        expected_table[index].0 = null_object_id();
    }
    for _ in 0..TEST_SIZE / 2 {
        reallocate(&mut object_table, &mut expected_table);
    }
    check_all_entries(&object_table, &expected_table);
    assert!(!object_table.has_free_id());
    let mut addresses: Vec<usize> = expected_table.iter().map(|(id, _)| object_table.get_object_address(*id)).collect();
    addresses.sort();
    addresses.dedup();
    assert_eq!(addresses.len(), TEST_SIZE);
}

#[test]
fn moves_of_other_ids_keep_an_address() {
    let mut object_table = create_object_table(4);
    let end = object_table.end();
    let a = object_table.new_object_id(end);
    let b = object_table.new_object_id(end + WORD_SIZE);
    object_table.move_object(b, end + 8 * WORD_SIZE);
    object_table.move_object(b, end + 12 * WORD_SIZE);
    assert_eq!(object_table.get_object_address(a), end);
    assert_eq!(object_table.get_object_address(b), end + 12 * WORD_SIZE);
}

#[test]
fn ids_are_skewed_element_addresses() {
    let mut object_table = create_object_table(2);
    let first = object_table.new_object_id(0x9000);
    assert_eq!(first.get_raw(), TABLE_BASE - 1);
    assert!(first.is_ptr());
    assert!(object_table.is_object_id(first));
    assert!(!object_table.is_object_id(null_object_id()));
    assert_eq!(null_object_id().get_raw(), NULL_OBJECT_ID_RAW);
    assert_eq!(object_table.base(), TABLE_BASE);
    assert_eq!(object_table.length(), 2);
    assert_eq!(object_table.end(), TABLE_BASE + 2 * WORD_SIZE);
}

#[test]
fn test_table_growth() {
    let mut heap = ObjectHeap::new(TABLE_BASE, 1);
    heap.set_last_heap_pointer_to_top();
    let mut ids = Vec::new();
    let mut length = heap.object_table().length();
    for _ in 0..1000 {
        let blob = heap.allocate(3).unwrap();
        assert!(heap.object_table().is_object_id(blob));
        let new_length = heap.object_table().length();
        assert!(new_length >= length);
        length = new_length;
        ids.push(blob);
    }
    assert!(length > 1);
    for id in ids.iter() {
        let address = heap.object_table().get_object_address(*id);
        let mut found = false;
        for index in 0..heap.block_count() {
            let block = heap.block(index);
            if block.object_id == Some(*id) {
                assert_eq!(block.address, address);
                found = true;
            }
        }
        assert!(found);
    }
    assert_eq!(heap.get_heap_base(), heap.object_table().end());
}

#[test]
fn growth_moves_first_object_to_the_top() {
    let mut heap = ObjectHeap::new(TABLE_BASE, 1);
    let first = heap.allocate(2).unwrap();
    heap.set_last_heap_pointer_to_top();
    let base = heap.get_heap_base();
    assert_eq!(heap.object_table().get_object_address(first), base);
    let top = heap.get_heap_pointer();
    assert!(!heap.object_table().has_free_id());
    let second = heap.allocate(2).unwrap();
    assert_eq!(heap.object_table().get_object_address(first), top);
    assert_eq!(heap.object_table().length(), 3);
    assert_eq!(heap.get_heap_base(), base + 2 * WORD_SIZE);
    assert_eq!(heap.object_table().get_object_address(second), top + 2 * WORD_SIZE);
    assert!(heap.is_remembered(first));
}

#[test]
fn growth_consumes_a_filler() {
    let mut heap = ObjectHeap::new(TABLE_BASE, 1);
    let first = heap.allocate(4).unwrap();
    heap.set_last_heap_pointer_to_top();
    let second_table_len = heap.object_table().length();
    heap.free_object(first);
    let kept = heap.allocate(2).unwrap();
    let top = heap.get_heap_pointer();
    assert!(!heap.object_table().has_free_id());
    let third = heap.allocate(2).unwrap();
    assert_eq!(heap.object_table().get_object_address(kept), top - 2 * WORD_SIZE);
    assert!(heap.object_table().length() > second_table_len);
    assert!(!heap.is_remembered(kept));
    assert!(heap.object_table().is_object_id(third));
}

#[test]
fn allocation_fails_at_the_address_limit() {
    let mut heap = ObjectHeap::new(TABLE_BASE, 1);
    assert!(heap.allocate(0x2000_0000).is_none());
    assert_eq!(heap.block_count(), 0);
    assert!(heap.allocate(4).is_some());
}

#[test]
fn freed_id_is_handed_out_next() {
    let mut object_table = create_object_table(8);
    let first = object_table.new_object_id(0x9000);
    let second = object_table.new_object_id(0x9010);
    assert_eq!(second.get_raw(), TABLE_BASE + WORD_SIZE - 1);
    object_table.free_object_id(first);
    let again = object_table.new_object_id(0x9020);
    assert_eq!(again, first);
    assert_eq!(object_table.get_object_address(again), 0x9020);
}

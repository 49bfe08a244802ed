use motoko_gc::remembered_set::{RememberedSet, INITIAL_TABLE_LENGTH};
use motoko_gc::value::Value;

#[test]
fn insert_is_idempotent() {
    let mut set = RememberedSet::new();
    let a = Value::from_ptr(0x40);
    let b = Value::from_ptr(0x80);
    set.insert(a);
    set.insert(a);
    set.insert(b);
    assert_eq!(set.len(), 2);
    assert!(set.contains(a));
    assert!(set.contains(b));
    assert!(!set.contains(Value::from_scalar(1)));
    assert_eq!(set.get(0), a);
    assert_eq!(set.get(1), b);
}

#[test]
fn growth_rehashes_without_losing_values() {
    let mut set = RememberedSet::new();
    for i in 0..5000usize {
        set.insert(Value::from_ptr(4 * (i + 1)));
        set.insert(Value::from_ptr(4 * (i / 2 + 1)));
    }
    assert_eq!(set.len(), 5000);
    for i in 0..5000usize {
        assert!(set.contains(Value::from_ptr(4 * (i + 1))));
        assert_eq!(set.get(i), Value::from_ptr(4 * (i + 1)));
    }
    assert!(!set.contains(Value::from_ptr(4 * 5001)));
    assert_eq!(INITIAL_TABLE_LENGTH, 1024);
}

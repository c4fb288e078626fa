use watt::value::{Class, Handle, Heap, Value};

#[test]
fn allocation_gives_distinct_live_handles() {
    let mut heap = Heap::new();
    let a = heap.allocate(Class::General);
    let b = heap.allocate(Class::Pooled);
    assert_ne!(a, b);
    assert!(!a.is_null());
    assert!(heap.is_live(a));
    assert!(heap.is_live(b));
    assert!(!heap.is_live(Handle::null()));
}

#[test]
fn free_matches_allocation_class() {
    let mut heap = Heap::new();
    let s = heap.allocate(Class::Pooled);
    let g = heap.allocate(Class::General);
    assert!(!heap.free_value(s));
    assert!(!heap.free_const_value(g));
    assert!(heap.free_const_value(s));
    assert!(heap.free_value(g));
    assert!(!heap.is_live(s));
    assert!(!heap.is_live(g));
}

#[test]
fn double_free_is_refused() {
    let mut heap = Heap::new();
    let g = heap.allocate(Class::General);
    assert!(heap.free_value(g));
    assert!(!heap.free_value(g));
    assert!(!heap.free_value(Handle::null()));
    assert!(!heap.free_value(Handle { id: 99 }));
}

#[test]
fn protection_follows_the_flag() {
    let mut heap = Heap::new();
    let g = heap.allocate(Class::General);
    assert!(!heap.is_protected(g));
    assert!(heap.set_protected(g, true));
    assert!(heap.is_protected(g));
    assert!(heap.set_protected(g, false));
    assert!(!heap.is_protected(g));
    assert!(heap.free_value(g));
    assert!(!heap.set_protected(g, true));
}

#[test]
fn value_ownership_by_kind() {
    let h = Handle { id: 4 };
    assert_eq!(Value::String(h).owned_handle(), Some(h));
    assert_eq!(Value::Any(h).owned_handle(), Some(h));
    assert_eq!(Value::Native(h).owned_handle(), None);
    assert_eq!(Value::Int(4).owned_handle(), None);
    assert_eq!(Value::List(Handle::null()).owned_handle(), None);
    assert_eq!(Value::String(h).class(), Class::Pooled);
    assert_eq!(Value::Trait(h).class(), Class::General);
}

#[test]
fn downcast_checks_host_type() {
    let mut heap = Heap::new();
    let a = heap.allocate_opaque(7);
    assert_eq!(heap.downcast(Value::Any(a), 7), Some(a));
    assert_eq!(heap.downcast(Value::Any(a), 8), None);
    assert_eq!(heap.downcast(Value::List(a), 7), None);
    assert_eq!(heap.downcast(Value::Any(Handle::null()), 0), None);
    assert!(heap.free_value(a));
    assert_eq!(heap.downcast(Value::Any(a), 7), None);
}

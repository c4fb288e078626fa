use watt::error::{Address, ErrorKind};
use watt::table::{Scopes, Table};
use watt::value::{Class, Handle, Heap, Value};

fn at() -> Address {
    Address::new(3, 7, "main.wt".to_string())
}

#[test]
fn define_then_read_returns_value() {
    let mut scopes = Scopes::new();
    let t = scopes.add(Table::new(), None);
    scopes.define(t, &at(), "a", Value::Int(1)).unwrap();
    scopes.define(t, &at(), "b", Value::Int(2)).unwrap();
    assert_eq!(scopes.resolve_read(t, &at(), "a").unwrap(), Value::Int(1));
    assert_eq!(scopes.resolve_read(t, &at(), "b").unwrap(), Value::Int(2));
}

#[test]
fn second_define_is_refused() {
    let mut table = Table::new();
    assert!(table.define(&at(), "a", Value::Int(1)).is_ok());
    let e = table.define(&at(), "a", Value::Int(2)).unwrap_err();
    assert_eq!(e.kind, ErrorKind::AlreadyDefined);
    assert_eq!(e.message, "a is already defined.");
    assert_eq!(e.hint, "you can rename variable.");
    assert_eq!(e.address, at());
    assert_eq!(table.get("a"), Some(Value::Int(1)));
}

#[test]
fn lexical_child_reads_parent_name() {
    let mut scopes = Scopes::new();
    let p = scopes.add(Table::new(), None);
    scopes.define(p, &at(), "x", Value::Bool(true)).unwrap();
    let c = scopes.add(Table::new(), Some(p));
    assert_eq!(scopes.resolve_read(c, &at(), "x").unwrap(), Value::Bool(true));
    assert!(scopes.exists_readable(c, "x"));
    assert!(!scopes.table(c).exists_local("x"));
    assert!(scopes.table(p).exists_local("x"));
}

#[test]
fn read_prefers_innermost_binding() {
    let mut scopes = Scopes::new();
    let p = scopes.add(Table::new(), None);
    scopes.define(p, &at(), "x", Value::Int(1)).unwrap();
    let c = scopes.add(Table::new(), Some(p));
    scopes.define(c, &at(), "x", Value::Int(2)).unwrap();
    assert_eq!(scopes.resolve_read(c, &at(), "x").unwrap(), Value::Int(2));
    assert_eq!(scopes.resolve_read(p, &at(), "x").unwrap(), Value::Int(1));
}

#[test]
fn read_ignores_dynamic_parent() {
    let mut scopes = Scopes::new();
    let p = scopes.add(Table::new(), None);
    scopes.define(p, &at(), "x", Value::Int(5)).unwrap();
    let c = scopes.add(Table::new(), None);
    assert!(scopes.set_root(c, p));
    let e = scopes.resolve_read(c, &at(), "x").unwrap_err();
    assert_eq!(e.kind, ErrorKind::NotFound);
    assert!(!scopes.exists_readable(c, "x"));
    assert!(scopes.has(c, "x"));
    assert_eq!(scopes.lookup(c, &at(), "x").unwrap(), Value::Int(5));
}

#[test]
fn set_mutates_first_dynamic_binder() {
    let mut scopes = Scopes::new();
    let p = scopes.add(Table::new(), None);
    scopes.define(p, &at(), "x", Value::Int(1)).unwrap();
    scopes.define(p, &at(), "y", Value::Int(1)).unwrap();
    let c = scopes.add(Table::new(), None);
    scopes.define(c, &at(), "y", Value::Int(2)).unwrap();
    assert!(scopes.set_root(c, p));
    scopes.set(c, &at(), "x", Value::Int(10)).unwrap();
    scopes.set(c, &at(), "y", Value::Int(20)).unwrap();
    assert_eq!(scopes.table(p).get("x"), Some(Value::Int(10)));
    assert_eq!(scopes.table(c).get("x"), None);
    assert_eq!(scopes.table(c).get("y"), Some(Value::Int(20)));
    assert_eq!(scopes.table(p).get("y"), Some(Value::Int(1)));
}

#[test]
fn set_on_unknown_name_is_not_defined() {
    let mut scopes = Scopes::new();
    let p = scopes.add(Table::new(), None);
    let c = scopes.add(Table::new(), None);
    assert!(scopes.set_root(c, p));
    let e = scopes.set(c, &at(), "nope", Value::Null).unwrap_err();
    assert_eq!(e.kind, ErrorKind::NotDefined);
    assert_eq!(e.message, "nope is not defined.");
    assert!(e.hint.contains(":="));
}

#[test]
fn set_local_never_touches_parent() {
    let mut scopes = Scopes::new();
    let p = scopes.add(Table::new(), None);
    scopes.define(p, &at(), "x", Value::Int(1)).unwrap();
    let c = scopes.add(Table::new(), Some(p));
    assert!(scopes.set_root(c, p));
    let e = scopes.set_local(c, &at(), "x", Value::Int(9)).unwrap_err();
    assert_eq!(e.kind, ErrorKind::NotDefined);
    assert_eq!(scopes.table(p).get("x"), Some(Value::Int(1)));
    scopes.define(c, &at(), "x", Value::Int(2)).unwrap();
    scopes.set_local(c, &at(), "x", Value::Int(3)).unwrap();
    assert_eq!(scopes.table(c).get("x"), Some(Value::Int(3)));
    assert_eq!(scopes.table(p).get("x"), Some(Value::Int(1)));
}

#[test]
fn table_set_local_requires_local_name() {
    let mut table = Table::new();
    assert!(table.set_local(&at(), "a", Value::Int(1)).is_err());
    table.define(&at(), "a", Value::Int(1)).unwrap();
    table.set_local(&at(), "a", Value::Int(4)).unwrap();
    assert_eq!(table.get("a"), Some(Value::Int(4)));
}

#[test]
fn lookup_error_names_variable_and_define_operator() {
    let mut scopes = Scopes::new();
    let t = scopes.add(Table::new(), None);
    let e = scopes.lookup(t, &at(), "x").unwrap_err();
    assert_eq!(e.kind, ErrorKind::NotFound);
    assert!(e.message.contains("x"));
    assert_eq!(e.message, "x is not found.");
    assert!(e.hint.contains(":="));
    assert!(e.hint.contains("define"));
    assert_eq!(e.address, at());
    assert!(!scopes.has(t, "x"));
}

#[test]
fn attach_appends_at_chain_tail() {
    let mut scopes = Scopes::new();
    let a = scopes.add(Table::new(), None);
    let b = scopes.add(Table::new(), None);
    let c = scopes.add(Table::new(), None);
    scopes.define(a, &at(), "deep", Value::Int(7)).unwrap();
    assert!(scopes.set_root(c, b));
    assert!(scopes.set_root(c, a));
    assert_eq!(scopes.lookup(c, &at(), "deep").unwrap(), Value::Int(7));
    scopes.set(c, &at(), "deep", Value::Int(8)).unwrap();
    assert_eq!(scopes.table(a).get("deep"), Some(Value::Int(8)));
}

#[test]
fn attach_newer_table_under_older() {
    let mut scopes = Scopes::new();
    let a = scopes.add(Table::new(), None);
    let b = scopes.add(Table::new(), None);
    scopes.define(b, &at(), "x", Value::Int(4)).unwrap();
    assert!(scopes.set_root(a, b));
    assert_eq!(scopes.lookup(a, &at(), "x").unwrap(), Value::Int(4));
    scopes.set(a, &at(), "x", Value::Int(5)).unwrap();
    assert_eq!(scopes.table(b).get("x"), Some(Value::Int(5)));
}

#[test]
fn attach_that_closes_a_loop_is_refused() {
    let mut scopes = Scopes::new();
    let a = scopes.add(Table::new(), None);
    let b = scopes.add(Table::new(), None);
    let c = scopes.add(Table::new(), None);
    assert!(!scopes.set_root(a, a));
    assert!(scopes.set_root(a, b));
    assert!(!scopes.set_root(b, a));
    assert!(!scopes.set_root(a, a));
    assert!(scopes.set_root(c, a));
    assert!(!scopes.set_root(b, c));
    assert!(!scopes.has(c, "x"));
}

#[test]
fn detach_undoes_attach() {
    let mut scopes = Scopes::new();
    let a = scopes.add(Table::new(), None);
    let b = scopes.add(Table::new(), None);
    let r = scopes.add(Table::new(), None);
    scopes.define(r, &at(), "y", Value::Int(1)).unwrap();
    scopes.define(b, &at(), "x", Value::Int(2)).unwrap();
    assert!(scopes.set_root(a, b));
    assert!(scopes.set_root(a, r));
    assert!(scopes.has(a, "y"));
    scopes.del_root(a);
    assert!(!scopes.has(a, "y"));
    assert!(scopes.has(a, "x"));
    assert!(scopes.has(r, "y"));
}

#[test]
fn detach_unlinks_chain_tail() {
    let mut scopes = Scopes::new();
    let a = scopes.add(Table::new(), None);
    let b = scopes.add(Table::new(), None);
    let c = scopes.add(Table::new(), None);
    scopes.define(a, &at(), "x", Value::Int(1)).unwrap();
    assert!(scopes.set_root(c, b));
    assert!(scopes.set_root(c, a));
    assert!(scopes.has(c, "x"));
    scopes.del_root(c);
    assert!(!scopes.has(c, "x"));
    assert!(!scopes.has(b, "x"));
    scopes.del_root(c);
    assert!(!scopes.has(c, "x"));
    scopes.del_root(a);
}

#[test]
fn teardown_releases_aliased_payload_once() {
    let mut heap = Heap::new();
    let s = heap.allocate(Class::Pooled);
    let l = heap.allocate(Class::General);
    let n = heap.allocate(Class::General);
    let mut table = Table::new();
    table.define(&at(), "s1", Value::String(s)).unwrap();
    table.define(&at(), "s2", Value::String(s)).unwrap();
    table.define(&at(), "l", Value::List(l)).unwrap();
    table.define(&at(), "n", Value::Native(n)).unwrap();
    table.define(&at(), "i", Value::Int(3)).unwrap();
    table.define(&at(), "nul", Value::Fn(Handle::null())).unwrap();
    let released = table.free_fields(&mut heap);
    assert_eq!(released.len(), 2);
    assert_eq!(released.iter().filter(|v| **v == Value::String(s)).count(), 1);
    assert!(released.contains(&Value::List(l)));
    assert!(!heap.is_live(s));
    assert!(!heap.is_live(l));
    assert!(heap.is_live(n));
}

#[test]
fn teardown_releases_shared_handle_once() {
    let mut heap = Heap::new();
    let h = heap.allocate(Class::General);
    let mut table = Table::new();
    table.define(&at(), "l", Value::List(h)).unwrap();
    table.define(&at(), "f", Value::Fn(h)).unwrap();
    let released = table.free_fields(&mut heap);
    assert_eq!(released, vec![Value::List(h)]);
    assert!(!heap.is_live(h));
}

#[test]
fn teardown_of_scalars_releases_nothing() {
    let mut heap = Heap::new();
    let h = heap.allocate(Class::General);
    let mut table = Table::new();
    table.define(&at(), "a", Value::Null).unwrap();
    table.define(&at(), "b", Value::Float(0x4000000000000000)).unwrap();
    let released = table.free_fields(&mut heap);
    assert!(released.is_empty());
    assert!(heap.is_live(h));
}

#[test]
fn empty_table_binds_nothing() {
    let table = Table::new();
    assert!(!table.exists_local(""));
    assert_eq!(table.get("a"), None);
}

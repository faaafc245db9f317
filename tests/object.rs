use json_gen::number::Number;
use json_gen::object::Object;
use json_gen::value::JsonValue;

fn num(n: u64) -> JsonValue {
    JsonValue::Number(Number::from_parts(true, n, 0))
}

fn keys(o: &Object) -> Vec<String> {
    let mut out = Vec::new();
    let mut i = 0;
    while let Some((k, _)) = o.get_index(i) {
        out.push(k.clone());
        i += 1;
    }
    out
}

#[test]
fn insertion_order_does_not_matter_for_equality() {
    let mut a = Object::new();
    a.insert("x", num(1));
    a.insert("y", JsonValue::Boolean(true));
    a.insert("z", JsonValue::Null);
    let mut b = Object::with_capacity(3);
    b.insert("z", JsonValue::Null);
    b.insert("x", num(1));
    b.insert("y", JsonValue::Boolean(true));
    assert!(a == b);
    assert!(JsonValue::Object(a) == JsonValue::Object(b));
}

#[test]
fn different_values_are_not_equal() {
    let mut a = Object::new();
    a.insert("x", num(1));
    let mut b = Object::new();
    b.insert("x", num(2));
    assert!(a != b);
    let mut c = Object::new();
    c.insert("y", num(1));
    let mut d = Object::new();
    d.insert("x", num(1));
    assert!(c != d);
    assert!(JsonValue::Array(vec![num(1), num(2)]) != JsonValue::Array(vec![num(2), num(1)]));
    assert!(JsonValue::Array(vec![num(1), num(2)]) == JsonValue::Array(vec![num(1), num(2)]));
}

#[test]
fn insert_existing_key_keeps_position() {
    let mut o = Object::new();
    o.insert("a", num(1));
    o.insert("b", num(2));
    o.insert("c", num(3));
    o.insert("a", num(9));
    assert_eq!(keys(&o), vec!["a", "b", "c"]);
    assert!(o.get("a") == Some(&num(9)));
    assert_eq!(o.len(), 3);
    assert_eq!(o.dump(), "{\"a\":9,\"b\":2,\"c\":3}");
}

#[test]
fn shift_remove_keeps_order() {
    let mut o = Object::new();
    o.insert("a", num(1));
    o.insert("b", num(2));
    o.insert("c", num(3));
    o.insert("d", num(4));
    assert!(o.shift_remove("b") == Some(num(2)));
    assert_eq!(keys(&o), vec!["a", "c", "d"]);
    assert!(o.shift_remove("b").is_none());
}

#[test]
fn remove_moves_last_entry_into_hole() {
    let mut o = Object::new();
    o.insert("a", num(1));
    o.insert("b", num(2));
    o.insert("c", num(3));
    o.insert("d", num(4));
    assert!(o.remove("b") == Some(num(2)));
    assert_eq!(keys(&o), vec!["a", "d", "c"]);
    assert!(o.remove("zz").is_none());
    assert!(o.get("b").is_none());
}

#[test]
fn len_clear_and_empty() {
    let mut o = Object::new();
    assert!(o.is_empty());
    o.insert("a", num(1));
    assert!(!o.is_empty());
    assert_eq!(o.len(), 1);
    o.clear();
    assert!(o.is_empty());
    assert_eq!(o.dump(), "{}");
}

#[test]
fn index_reads_null_for_missing_key() {
    let mut o = Object::new();
    o.insert("a", num(1));
    assert!(*o.index("a") == num(1));
    assert!(*o.index("missing") == JsonValue::Null);
    assert_eq!(o.len(), 1);
}

#[test]
fn index_mut_creates_missing_key_at_end() {
    let mut o = Object::new();
    o.insert("a", num(1));
    *o.index_mut("b") = num(2);
    *o.index_mut("a") = num(3);
    assert_eq!(keys(&o), vec!["a", "b"]);
    assert_eq!(o.dump(), "{\"a\":3,\"b\":2}");
    let fresh = o.index_mut("c");
    assert!(*fresh == JsonValue::Null);
    assert_eq!(o.dump(), "{\"a\":3,\"b\":2,\"c\":null}");
}

#[test]
fn get_mut_changes_value_in_place() {
    let mut o = Object::new();
    o.insert("a", num(1));
    o.insert("b", num(2));
    if let Some(v) = o.get_mut("a") {
        *v = JsonValue::Boolean(false);
    }
    assert!(o.get_mut("zz").is_none());
    assert_eq!(o.dump(), "{\"a\":false,\"b\":2}");
}

#[test]
fn iteration_follows_insertion_order() {
    let mut o = Object::new();
    o.insert("b", num(1));
    o.insert("a", num(2));
    let entries = o.iter();
    assert_eq!(entries.len(), 2);
    assert_eq!(entries[0].0, "b");
    assert!(*entries[1].1 == num(2));

    let mut d = Object::new();
    d.insert("x", num(7));
    d.insert("y", num(8));
    let drained = d.drain();
    assert!(d.is_empty());
    assert_eq!(drained.len(), 2);
    assert_eq!(drained[0].0, "x");
    assert!(drained[1].1 == num(8));

    let all = o.into_iter();
    assert_eq!(all.len(), 2);
    assert_eq!(all[0].0, "b");
    assert_eq!(all[1].0, "a");
}

#[test]
fn huge_capacity_hint_is_accepted() {
    let mut o = Object::with_capacity(usize::MAX);
    assert!(o.is_empty());
    o.insert("a", num(1));
    assert_eq!(o.len(), 1);
}

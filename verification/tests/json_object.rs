use copper::json::{JsonObject, JsonValue};
use copper::keys::{compare_keys, KeyOrder};

fn string(s: &str) -> JsonValue {
    JsonValue::String(s.to_string())
}

#[test]
fn compare_keys_orders_by_first_difference() {
    assert_eq!(compare_keys("a", "b"), KeyOrder::Before);
    assert_eq!(compare_keys("b", "a"), KeyOrder::After);
    assert_eq!(compare_keys("a", "ab"), KeyOrder::Before);
    assert_eq!(compare_keys("ab", "a"), KeyOrder::After);
    assert_eq!(compare_keys("", ""), KeyOrder::Same);
    assert_eq!(compare_keys("_id", "_id"), KeyOrder::Same);
    assert_eq!(compare_keys("B", "a"), KeyOrder::Before);
    assert_eq!(compare_keys("", "x"), KeyOrder::Before);
}

#[test]
fn insert_then_get_gives_the_value() {
    let mut o = JsonObject::new();
    assert_eq!(o.insert("name".to_string(), string("copper")), None);
    assert_eq!(o.get("name"), Some(&string("copper")));
    assert_eq!(o.get("other"), None);
    assert_eq!(o.len(), 1);
}

#[test]
fn insert_on_present_key_replaces_and_returns_previous() {
    let mut o = JsonObject::new();
    o.insert("k".to_string(), JsonValue::I64(1));
    let previous = o.insert("k".to_string(), JsonValue::I64(2));
    assert_eq!(previous, Some(JsonValue::I64(1)));
    assert_eq!(o.get("k"), Some(&JsonValue::I64(2)));
    assert_eq!(o.len(), 1);
}

#[test]
fn insert_on_other_key_leaves_value() {
    let mut o = JsonObject::new();
    o.insert("a".to_string(), JsonValue::Boolean(true));
    o.insert("b".to_string(), JsonValue::Null);
    assert_eq!(o.get("a"), Some(&JsonValue::Boolean(true)));
    assert_eq!(o.get("b"), Some(&JsonValue::Null));
}

#[test]
fn entries_come_in_ascending_key_order() {
    let mut o = JsonObject::new();
    for k in ["b", "ab", "a", "B", "_id"] {
        o.insert(k.to_string(), string(k));
    }
    let keys: Vec<String> = (0..o.len()).map(|i| o.entry_at(i).0.clone()).collect();
    assert_eq!(keys, vec!["B", "_id", "a", "ab", "b"]);
    for i in 0..o.len() {
        let (k, v) = o.entry_at(i);
        assert_eq!(v, &string(k));
    }
}

#[test]
fn objects_with_same_contents_are_equal_whatever_the_insertion_order() {
    let mut x = JsonObject::new();
    x.insert("one".to_string(), JsonValue::U64(1));
    x.insert("two".to_string(), JsonValue::U64(2));
    let mut y = JsonObject::new();
    y.insert("two".to_string(), JsonValue::U64(2));
    y.insert("one".to_string(), JsonValue::U64(1));
    assert_eq!(JsonValue::Object(x), JsonValue::Object(y));
}

#[test]
fn nested_values_are_held() {
    let mut inner = JsonObject::new();
    inner.insert("x".to_string(), JsonValue::F64(0x4000_0000_0000_0000));
    let arr = JsonValue::Array(vec![JsonValue::Object(inner), JsonValue::I64(-3)]);
    let mut outer = JsonObject::new();
    outer.insert("list".to_string(), arr);
    match outer.get("list") {
        Some(JsonValue::Array(items)) => {
            assert_eq!(items.len(), 2);
            assert_eq!(items[1], JsonValue::I64(-3));
        }
        _ => panic!("list missing"),
    }
}

#[test]
fn clones_hold_the_same_document() {
    let mut o = JsonObject::new();
    o.insert("s".to_string(), string("text"));
    o.insert("a".to_string(), JsonValue::Array(vec![JsonValue::F64(7), JsonValue::Null]));
    let v = JsonValue::Object(o);
    let c = v.clone();
    assert_eq!(c, v);
    match (&c, &v) {
        (JsonValue::Object(x), JsonValue::Object(y)) => assert_eq!(x.clone(), *y),
        _ => panic!("not objects"),
    }
}

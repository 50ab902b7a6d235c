use copper::database::{stamp_document, Database, ID_LEN};
use copper::entry::Entry;
use copper::json::{JsonObject, JsonValue};

fn string(s: &str) -> JsonValue {
    JsonValue::String(s.to_string())
}

fn id_of(doc: &JsonValue) -> String {
    match doc {
        JsonValue::Object(o) => match o.get("_id") {
            Some(JsonValue::String(s)) => s.clone(),
            _ => panic!("no string _id"),
        },
        _ => panic!("not an object"),
    }
}

fn is_valid_id(id: &str) -> bool {
    id.chars().count() == ID_LEN && id.chars().all(|c| c.is_ascii_alphanumeric())
}

#[test]
fn generated_ids_are_fifteen_letters_or_digits() {
    for _ in 0..20 {
        let id = Database::gen_random_id();
        assert!(is_valid_id(&id), "bad id {:?}", id);
    }
}

#[test]
fn stamp_document_adds_id_to_object() {
    let mut o = JsonObject::new();
    o.insert("name".to_string(), string("ada"));
    let doc = stamp_document(JsonValue::Object(o), "ABCDEFGHIJKLMNO".to_string());
    let mut expected = JsonObject::new();
    expected.insert("name".to_string(), string("ada"));
    expected.insert("_id".to_string(), string("ABCDEFGHIJKLMNO"));
    assert_eq!(doc, JsonValue::Object(expected));
}

#[test]
fn stamp_document_replaces_an_existing_id() {
    let mut o = JsonObject::new();
    o.insert("_id".to_string(), JsonValue::I64(7));
    let doc = stamp_document(JsonValue::Object(o), "x".to_string());
    let mut expected = JsonObject::new();
    expected.insert("_id".to_string(), string("x"));
    assert_eq!(doc, JsonValue::Object(expected));
}

#[test]
fn stamp_document_drops_a_non_object() {
    let doc = stamp_document(JsonValue::Array(vec![JsonValue::I64(1)]), "id".to_string());
    let mut expected = JsonObject::new();
    expected.insert("_id".to_string(), string("id"));
    assert_eq!(doc, JsonValue::Object(expected));
}

#[test]
fn insert_appends_one_stamped_insertion() {
    let mut db = Database::new();
    let mut o = JsonObject::new();
    o.insert("name".to_string(), string("ada"));
    o.insert("age".to_string(), JsonValue::U64(36));
    assert!(db.insert(JsonValue::Object(o)).is_ok());
    assert_eq!(db.log().len(), 1);
    match &db.log()[0] {
        Entry::Insert(JsonValue::Object(doc)) => {
            assert_eq!(doc.len(), 3);
            assert_eq!(doc.get("name"), Some(&string("ada")));
            assert_eq!(doc.get("age"), Some(&JsonValue::U64(36)));
            match doc.get("_id") {
                Some(JsonValue::String(id)) => assert!(is_valid_id(id)),
                other => panic!("unexpected _id {:?}", other),
            }
        }
        other => panic!("unexpected entry {:?}", other),
    }
}

#[test]
fn insert_of_non_object_stores_only_an_id() {
    let mut db = Database::new();
    assert!(db.insert(JsonValue::I64(5)).is_ok());
    match &db.log()[0] {
        Entry::Insert(JsonValue::Object(doc)) => {
            assert_eq!(doc.len(), 1);
            match doc.get("_id") {
                Some(JsonValue::String(id)) => assert!(is_valid_id(id)),
                other => panic!("unexpected _id {:?}", other),
            }
        }
        other => panic!("unexpected entry {:?}", other),
    }
}

#[test]
fn take_log_hands_over_inserts_in_order_and_empties_the_log() {
    let mut db = Database::new();
    for n in 0..3u64 {
        let mut o = JsonObject::new();
        o.insert("n".to_string(), JsonValue::U64(n));
        db.insert(JsonValue::Object(o)).ok().unwrap();
    }
    let taken = db.take_log();
    assert_eq!(taken.len(), 3);
    for (n, e) in taken.iter().enumerate() {
        match e.document() {
            JsonValue::Object(o) => assert_eq!(o.get("n"), Some(&JsonValue::U64(n as u64))),
            _ => panic!("not an object"),
        }
    }
    assert_eq!(db.log().len(), 0);
    db.insert(JsonValue::Null).ok().unwrap();
    assert_eq!(db.log().len(), 1);
}

#[test]
fn each_insert_gets_its_own_id() {
    let mut db = Database::new();
    db.insert(JsonValue::Null).ok().unwrap();
    db.insert(JsonValue::Null).ok().unwrap();
    let a = id_of(db.log()[0].document());
    let b = id_of(db.log()[1].document());
    assert!(is_valid_id(&a) && is_valid_id(&b));
    assert_ne!(a, b);
}

#[test]
fn load_registers_an_empty_id_index_and_counts_lines() {
    let mut db = Database::new();
    assert!(db.index("_id").is_none());
    let n = db.load_database("{\"a\":1}\n[1,2]\n");
    assert_eq!(n, 2);
    assert_eq!(db.index("_id").map(|ix| ix.len()), Some(0));
    assert!(db.index("a").is_none());
    assert_eq!(db.log().len(), 0);
}

#[test]
fn load_ignores_what_follows_the_last_newline() {
    let mut db = Database::new();
    assert_eq!(db.load_database_checked("{}\nnot json at all"), Ok(1));
    assert!(db.index("_id").is_some());
}

#[test]
fn load_of_empty_text_still_registers_the_index() {
    let mut db = Database::new();
    assert_eq!(db.load_database_checked(""), Ok(0));
    assert_eq!(db.index("_id").map(|ix| ix.len()), Some(0));
}

#[test]
fn checked_load_reports_the_first_bad_line_and_changes_nothing() {
    let mut db = Database::new();
    assert_eq!(db.load_database_checked("{}\nnot json\n{\"x\":\n"), Err(1));
    assert!(db.index("_id").is_none());
}

#[test]
fn checked_load_rejects_an_empty_line() {
    let mut db = Database::new();
    assert_eq!(db.load_database_checked("{}\n\n"), Err(1));
}

#[test]
fn insert_keeps_indexes() {
    let mut db = Database::new();
    db.load_database("");
    db.insert(JsonValue::Null).ok().unwrap();
    assert_eq!(db.index("_id").map(|ix| ix.len()), Some(0));
}

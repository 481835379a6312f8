use jsml::database::Database;
use jsml::json::Json;
use jsml::jsml_error::ErrorKind;
use jsml::query::QueryParams;

fn text(x: &str) -> String {
    x.to_string()
}

fn st(x: &str) -> Json {
    Json::Str(text(x))
}

fn obj(fields: Vec<(&str, Json)>) -> Json {
    Json::Object(fields.into_iter().map(|(k, v)| (text(k), v)).collect())
}

fn user(id: &str, status: &str) -> Json {
    obj(vec![("id", st(id)), ("status", st(status))])
}

fn store_of(docs: Vec<Json>) -> Database {
    let data = obj(vec![("users", Json::Array(docs))]);
    Database::new("id", &data).unwrap()
}

fn field<'a>(doc: &'a Json, key: &str) -> Option<&'a Json> {
    match doc {
        Json::Object(fields) => fields.iter().find(|(k, _)| k == key).map(|(_, v)| v),
        _ => None,
    }
}

fn ids_of(docs: &[Json]) -> Vec<String> {
    docs.iter()
        .map(|d| match field(d, "id") {
            Some(Json::Str(s)) => s.clone(),
            _ => panic!("document without identifier"),
        })
        .collect()
}

#[test]
fn load_keys_documents_by_identifier() {
    let db = store_of(vec![user("b", "active"), user("a", "idle")]);
    assert_eq!(db.get("users", "a").unwrap(), &user("a", "idle"));
    assert_eq!(db.get("users", "b").unwrap(), &user("b", "active"));
}

#[test]
fn load_last_duplicate_wins() {
    let db = store_of(vec![user("a", "first"), user("a", "second")]);
    assert_eq!(db.get("users", "a").unwrap(), &user("a", "second"));
    let all = db.query("users", &QueryParams::default()).unwrap();
    assert_eq!(all.len(), 1);
}

#[test]
fn load_custom_identifier_key() {
    let data = obj(vec![("items", Json::Array(vec![obj(vec![("_id", st("x1"))])]))]);
    let db = Database::new("_id", &data).unwrap();
    assert_eq!(db.get("items", "x1").unwrap(), &obj(vec![("_id", st("x1"))]));
}

#[test]
fn load_missing_identifier_fails() {
    let data = obj(vec![("users", Json::Array(vec![obj(vec![("name", st("n"))])]))]);
    let e = Database::new("id", &data).unwrap_err();
    assert_eq!(e.kind, ErrorKind::MissingIdentifierField);
    assert_eq!(e.details, "No field named: 'id'");
}

#[test]
fn load_non_string_identifier_fails() {
    let doc = obj(vec![("id", Json::Number(text("7")))]);
    let data = obj(vec![("users", Json::Array(vec![doc]))]);
    let e = Database::new("id", &data).unwrap_err();
    assert_eq!(e.kind, ErrorKind::MissingIdentifierField);
}

#[test]
fn load_rejects_non_array_collection() {
    let data = obj(vec![("users", st("nope"))]);
    let e = Database::new("id", &data).unwrap_err();
    assert_eq!(e.kind, ErrorKind::InvalidSource);
}

#[test]
fn load_rejects_non_bag_top_level() {
    let e = Database::new("id", &Json::Array(vec![])).unwrap_err();
    assert_eq!(e.kind, ErrorKind::InvalidSource);
}

#[test]
fn get_unknown_collection_and_item() {
    let db = store_of(vec![user("a", "x")]);
    assert_eq!(db.get("posts", "a").unwrap_err().kind, ErrorKind::CollectionNotFound);
    let e = db.get("users", "zz").unwrap_err();
    assert_eq!(e.kind, ErrorKind::ItemNotFound);
    assert_eq!(e.details, "item users/zz not found");
}

#[test]
fn post_without_identifier_assigns_one() {
    let mut db = store_of(vec![]);
    let created = db.post("users", &obj(vec![("name", st("ann"))])).unwrap();
    let id = match field(&created, "id") {
        Some(Json::Str(s)) => s.clone(),
        other => panic!("no identifier: {:?}", other),
    };
    assert_eq!(id.len(), 36);
    assert_eq!(db.get("users", &id).unwrap(), &created);
    assert_eq!(field(&created, "name"), Some(&st("ann")));
}

#[test]
fn successive_posts_get_distinct_identifiers() {
    let mut db = store_of(vec![]);
    let first = db.post("users", &obj(vec![("n", st("1"))])).unwrap();
    let second = db.post("users", &obj(vec![("n", st("2"))])).unwrap();
    let ids = ids_of(&[first, second]);
    assert_ne!(ids[0], ids[1]);
    assert_eq!(db.query("users", &QueryParams::default()).unwrap().len(), 2);
}

#[test]
fn post_with_given_identifier() {
    let mut db = store_of(vec![]);
    let created = db.post("users", &user("u9", "new")).unwrap();
    assert_eq!(created, user("u9", "new"));
    assert_eq!(db.get("users", "u9").unwrap(), &user("u9", "new"));
}

#[test]
fn post_duplicate_identifier_fails_and_keeps_collection() {
    let mut db = store_of(vec![user("a", "old")]);
    let e = db.post("users", &user("a", "new")).unwrap_err();
    assert_eq!(e.kind, ErrorKind::DuplicateId);
    let all = db.query("users", &QueryParams::default()).unwrap();
    assert_eq!(all, vec![user("a", "old")]);
}

#[test]
fn post_with_fixed_fresh_identifier() {
    let mut db = store_of(vec![user("a", "x")]);
    let created = db.post_with_id("users", &obj(vec![("k", st("v"))]), "f1").unwrap();
    assert_eq!(created, obj(vec![("k", st("v")), ("id", st("f1"))]));
    let e = db.post_with_id("users", &obj(vec![("k", st("w"))]), "a").unwrap_err();
    assert_eq!(e.kind, ErrorKind::DuplicateId);
}

#[test]
fn post_errors() {
    let mut db = store_of(vec![]);
    assert_eq!(db.post("posts", &user("a", "x")).unwrap_err().kind, ErrorKind::CollectionNotFound);
    assert_eq!(db.post("users", &st("x")).unwrap_err().kind, ErrorKind::InvalidBody);
    let numeric = obj(vec![("id", Json::Number(text("3")))]);
    assert_eq!(db.post("users", &numeric).unwrap_err().kind, ErrorKind::InvalidBody);
}

#[test]
fn put_replaces_and_pins_identifier() {
    let mut db = store_of(vec![obj(vec![("id", st("a")), ("old", Json::Bool(true))])]);
    let body = obj(vec![("id", st("other")), ("name", st("bo"))]);
    let replaced = db.put("users", "a", &body).unwrap();
    let expected = obj(vec![("id", st("a")), ("name", st("bo"))]);
    assert_eq!(replaced, expected);
    assert_eq!(db.get("users", "a").unwrap(), &expected);
    assert_eq!(db.get("users", "other").unwrap_err().kind, ErrorKind::ItemNotFound);
}

#[test]
fn put_without_identifier_in_body_appends_it() {
    let mut db = store_of(vec![user("a", "x")]);
    let replaced = db.put("users", "a", &obj(vec![("k", Json::Null)])).unwrap();
    assert_eq!(replaced, obj(vec![("k", Json::Null), ("id", st("a"))]));
}

#[test]
fn put_errors() {
    let mut db = store_of(vec![user("a", "x")]);
    assert_eq!(db.put("nope", "a", &user("a", "y")).unwrap_err().kind, ErrorKind::CollectionNotFound);
    assert_eq!(db.put("users", "b", &user("b", "y")).unwrap_err().kind, ErrorKind::ItemNotFound);
    assert_eq!(db.put("users", "a", &Json::Null).unwrap_err().kind, ErrorKind::InvalidBody);
    assert_eq!(db.get("users", "a").unwrap(), &user("a", "x"));
}

#[test]
fn patch_sets_one_field_and_keeps_others() {
    let mut db = store_of(vec![user("a", "idle")]);
    let patched = db.patch("users", "a", &obj(vec![("status", st("active"))])).unwrap();
    assert_eq!(patched, user("a", "active"));
    let added = db.patch("users", "a", &obj(vec![("age", Json::Number(text("4")))])).unwrap();
    let expected = obj(vec![("id", st("a")), ("status", st("active")), ("age", Json::Number(text("4")))]);
    assert_eq!(added, expected);
    assert_eq!(db.get("users", "a").unwrap(), &expected);
}

#[test]
fn patch_refuses_identifier_field() {
    let mut db = store_of(vec![user("a", "idle")]);
    let e = db.patch("users", "a", &obj(vec![("id", st("b"))])).unwrap_err();
    assert_eq!(e.kind, ErrorKind::InvalidBody);
    assert_eq!(db.get("users", "a").unwrap(), &user("a", "idle"));
}

#[test]
fn patch_errors() {
    let mut db = store_of(vec![user("a", "idle")]);
    assert_eq!(db.patch("x", "a", &obj(vec![])).unwrap_err().kind, ErrorKind::CollectionNotFound);
    assert_eq!(db.patch("users", "q", &obj(vec![])).unwrap_err().kind, ErrorKind::ItemNotFound);
    assert_eq!(db.patch("users", "a", &Json::Bool(false)).unwrap_err().kind, ErrorKind::InvalidBody);
}

#[test]
fn delete_then_get_fails() {
    let mut db = store_of(vec![user("a", "x"), user("b", "y")]);
    db.delete("users", "a").unwrap();
    assert_eq!(db.get("users", "a").unwrap_err().kind, ErrorKind::ItemNotFound);
    assert_eq!(db.delete("users", "a").unwrap_err().kind, ErrorKind::ItemNotFound);
    assert_eq!(db.delete("posts", "b").unwrap_err().kind, ErrorKind::CollectionNotFound);
    assert_eq!(db.get("users", "b").unwrap(), &user("b", "y"));
}

#[test]
fn serialize_all_sorts_collections_and_documents() {
    let data = obj(vec![
        ("zeta", Json::Array(vec![user("2", "s"), user("10", "t")])),
        ("alpha", Json::Array(vec![user("b", "u"), user("a", "v")])),
    ]);
    let db = Database::new("id", &data).unwrap();
    let snapshot = db.serialize_all();
    let expected = obj(vec![
        ("alpha", Json::Array(vec![user("a", "v"), user("b", "u")])),
        ("zeta", Json::Array(vec![user("10", "t"), user("2", "s")])),
    ]);
    assert_eq!(snapshot, expected);
    let reloaded = Database::new("id", &snapshot).unwrap();
    assert_eq!(reloaded.serialize_all(), expected);
}

use jsml::database::Database;
use jsml::json::Json;
use jsml::jsml_error::ErrorKind;
use jsml::query::{get_filtered_field, match_query, QueryParams};

fn text(x: &str) -> String {
    x.to_string()
}

fn st(x: &str) -> Json {
    Json::Str(text(x))
}

fn obj(fields: Vec<(&str, Json)>) -> Json {
    Json::Object(fields.into_iter().map(|(k, v)| (text(k), v)).collect())
}

fn user(id: &str, status: &str) -> Json {
    obj(vec![("id", st(id)), ("status", st(status))])
}

fn store_of(docs: Vec<Json>) -> Database {
    let data = obj(vec![("users", Json::Array(docs))]);
    Database::new("id", &data).unwrap()
}

fn params(pairs: Vec<(&str, &str)>) -> QueryParams {
    QueryParams::new(pairs.into_iter().map(|(k, v)| (text(k), text(v))).collect())
}

#[test]
fn first_page_of_two() {
    let db = store_of(vec![user("c", "x"), user("a", "x"), user("d", "x"), user("b", "x")]);
    let page = db.query("users", &params(vec![("_page", "0"), ("_limit", "2")])).unwrap();
    assert_eq!(page, vec![user("a", "x"), user("b", "x")]);
}

#[test]
fn second_page_and_past_the_end() {
    let db = store_of(vec![user("c", "x"), user("a", "x"), user("d", "x"), user("b", "x")]);
    let page = db.query("users", &params(vec![("_page", "1"), ("_limit", "3")])).unwrap();
    assert_eq!(page, vec![user("d", "x")]);
    let empty = db.query("users", &params(vec![("_page", "5"), ("_limit", "3")])).unwrap();
    assert!(empty.is_empty());
}

#[test]
fn huge_page_number_gives_empty_page() {
    let db = store_of(vec![user("a", "x")]);
    let max = usize::MAX.to_string();
    let page = db.query("users", &params(vec![("_page", &max), ("_limit", &max)])).unwrap();
    assert!(page.is_empty());
}

#[test]
fn page_without_limit_takes_ten() {
    let names: Vec<String> = (0..12).map(|i| format!("k{:02}", i)).collect();
    let db = store_of(names.iter().map(|n| user(n, "x")).collect());
    let first = db.query("users", &params(vec![("_page", "0")])).unwrap();
    assert_eq!(first.len(), 10);
    let second = db.query("users", &params(vec![("_page", "1")])).unwrap();
    assert_eq!(second, vec![user("k10", "x"), user("k11", "x")]);
}

#[test]
fn window_is_taken_before_filter() {
    let db = store_of(vec![
        user("a", "active"),
        user("b", "inactive"),
        user("c", "active"),
        user("d", "active"),
    ]);
    let q = params(vec![("_page", "0"), ("_limit", "2"), ("status", "active")]);
    let page = db.query("users", &q).unwrap();
    assert_eq!(page, vec![user("a", "active")]);
}

#[test]
fn full_listing_is_sorted_by_identifier() {
    let db = store_of(vec![user("b", "x"), user("B", "x"), user("a", "x"), user("ab", "x")]);
    let all = db.query("users", &QueryParams::default()).unwrap();
    assert_eq!(all, vec![user("B", "x"), user("a", "x"), user("ab", "x"), user("b", "x")]);
}

#[test]
fn filter_accepts_any_listed_value() {
    let db = store_of(vec![user("a", "active"), user("b", "gone"), user("c", "idle")]);
    let page = db.query("users", &params(vec![("status", "idle,active")])).unwrap();
    assert_eq!(page, vec![user("a", "active"), user("c", "idle")]);
}

#[test]
fn every_filter_must_pass() {
    let a = obj(vec![("id", st("a")), ("status", st("on")), ("age", Json::Number(text("3")))]);
    let b = obj(vec![("id", st("b")), ("status", st("on")), ("age", Json::Number(text("4")))]);
    let db = store_of(vec![a.deep_clone(), b]);
    let page = db.query("users", &params(vec![("status", "on"), ("age", "3")])).unwrap();
    assert_eq!(page, vec![a]);
}

#[test]
fn filter_on_nested_path() {
    let lyon = obj(vec![("id", st("a")), ("address", obj(vec![("city", st("Lyon"))]))]);
    let nice = obj(vec![("id", st("b")), ("address", obj(vec![("city", st("Nice"))]))]);
    let flat = obj(vec![("id", st("c")), ("address", st("Lyon"))]);
    let db = store_of(vec![lyon.deep_clone(), nice, flat]);
    let page = db.query("users", &params(vec![("address.city", "Lyon")])).unwrap();
    assert_eq!(page, vec![lyon]);
}

#[test]
fn filter_on_booleans_and_missing_fields() {
    let yes = obj(vec![("id", st("a")), ("ok", Json::Bool(true))]);
    let no = obj(vec![("id", st("b")), ("ok", Json::Bool(false))]);
    let none = obj(vec![("id", st("c"))]);
    let null = obj(vec![("id", st("d")), ("ok", Json::Null)]);
    let db = store_of(vec![yes.deep_clone(), no.deep_clone(), none, null]);
    assert_eq!(db.query("users", &params(vec![("ok", "true")])).unwrap(), vec![yes]);
    assert_eq!(db.query("users", &params(vec![("ok", "false")])).unwrap(), vec![no]);
}

#[test]
fn listing_unknown_collection_fails() {
    let db = store_of(vec![]);
    let e = db.query("posts", &QueryParams::default()).unwrap_err();
    assert_eq!(e.kind, ErrorKind::CollectionNotFound);
    assert_eq!(e.details, "collection posts not found");
}

#[test]
fn query_params_from_pairs() {
    let q = params(vec![("_page", "2"), ("_limit", "+5"), ("tag", "a,b,,c")]);
    assert_eq!(q.page, Some(2));
    assert_eq!(q.limit, Some(5));
    assert_eq!(q.filters, vec![(text("tag"), vec![text("a"), text("b"), text(""), text("c")])]);
}

#[test]
fn query_params_unparsable_numbers_are_absent() {
    let q = params(vec![("_page", "-1"), ("_limit", "ten")]);
    assert_eq!(q.page, None);
    assert_eq!(q.limit, None);
    assert!(q.filters.is_empty());
    let over = params(vec![("_page", "99999999999999999999999")]);
    assert_eq!(over.page, None);
}

#[test]
fn query_params_later_pair_wins() {
    let q = params(vec![("tag", "a"), ("_page", "1"), ("tag", "b"), ("_page", "3")]);
    assert_eq!(q.page, Some(3));
    assert_eq!(q.filters, vec![(text("tag"), vec![text("b")])]);
}

#[test]
fn filtered_field_follows_path() {
    let doc = obj(vec![("a", obj(vec![("b", obj(vec![("c", Json::Number(text("1.5")))]))]))]);
    assert_eq!(get_filtered_field(&doc, &text("a.b.c")), Some(&Json::Number(text("1.5"))));
    assert_eq!(get_filtered_field(&doc, &text("a.x")), None);
    assert_eq!(get_filtered_field(&doc, &text("a.b.c.d")), None);
}

#[test]
fn match_query_on_number_text() {
    let doc = obj(vec![("n", Json::Number(text("1.5")))]);
    assert!(match_query(&params(vec![("n", "1.5")]), &doc));
    assert!(!match_query(&params(vec![("n", "1.50")]), &doc));
    assert!(match_query(&QueryParams::default(), &doc));
}

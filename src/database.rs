use vstd::prelude::*;

use crate::collection::{
    doc_id, identified, items_map, items_valid, lemma_identified_insert, lemma_identified_remove,
    Collection,
};
use crate::json::{
    clone_fields, field_value, fields_view, get_field, lemma_array_view,
    lemma_get_field_none, lemma_get_set_field, lemma_object_view, lemma_set_fields_other, set_field,
    set_field_value, set_field_values, set_fields, Json, JsonV,
};
use crate::jsml_error::{text3, ErrorKind, JsmlError};
use crate::keyed::{
    key_position, lemma_map_absent, lemma_map_at, lemma_map_push, lemma_map_update, seq_to_map,
    unique_keys,
};
use crate::order::{is_key_order, lemma_sorted_keys_unique, sorted_entry_keys, sorted_keys};
use crate::query::{query_spec, QueryParams};

verus! {

fn collection_missing(route: &str) -> (e: JsmlError)
    ensures
        e.kind == ErrorKind::CollectionNotFound,
{
    JsmlError::new(ErrorKind::CollectionNotFound, text3("collection ", route, " not found").as_str())
}

fn item_missing(route: &str, id: &str) -> (e: JsmlError)
    ensures
        e.kind == ErrorKind::ItemNotFound,
{
    let path = text3(route, "/", id);
    JsmlError::new(ErrorKind::ItemNotFound, text3("item ", path.as_str(), " not found").as_str())
}

fn invalid_body() -> (e: JsmlError)
    ensures
        e.kind == ErrorKind::InvalidBody,
{
    JsmlError::new(ErrorKind::InvalidBody, "invalid request body")
}

fn duplicate_id(id: &str) -> (e: JsmlError)
    ensures
        e.kind == ErrorKind::DuplicateId,
{
    JsmlError::new(ErrorKind::DuplicateId, text3("duplicate id: ", id, "").as_str())
}


/// The model of a store: documents by identifier, by collection name.
pub type StoreV = Map<Seq<char>, Map<Seq<char>, JsonV>>;

/// Every document of every collection is stored under its identifier.
pub open spec fn store_identified(s: StoreV, id_key: Seq<char>) -> bool {
    forall|c: Seq<char>| #[trigger] s.contains_key(c) ==> identified(s[c], id_key)
}

/// The fields of an object, or none for another value.
pub open spec fn object_fields(v: JsonV) -> Seq<(Seq<char>, JsonV)> {
    match v {
        JsonV::Object(fs) => fs,
        _ => seq![],
    }
}

/// The store that the backing data describes: a bag whose each field is an
/// array of documents, each with a string identifier.
pub open spec fn load_spec(data: JsonV, id_key: Seq<char>) -> Result<StoreV, ErrorKind> {
    match data {
        JsonV::Object(fs) => load_fields(fs, id_key),
        _ => Err(ErrorKind::InvalidSource),
    }
}

/// The collections of the fields of the backing data, the first failure in
/// order ending the load.
pub open spec fn load_fields(fs: Seq<(Seq<char>, JsonV)>, id_key: Seq<char>) -> Result<
    StoreV,
    ErrorKind,
>
    decreases fs.len(),
{
    if fs.len() == 0 {
        Ok(Map::empty())
    } else {
        match load_fields(fs.drop_last(), id_key) {
            Err(e) => Err(e),
            Ok(m) => match fs.last().1 {
                JsonV::Array(items) => if items_valid(items, id_key) {
                    Ok(m.insert(fs.last().0, items_map(items, id_key)))
                } else {
                    Err(ErrorKind::MissingIdentifierField)
                },
                _ => Err(ErrorKind::InvalidSource),
            },
        }
    }
}

pub open spec fn get_spec(s: StoreV, route: Seq<char>, id: Seq<char>) -> Result<JsonV, ErrorKind> {
    if !s.contains_key(route) {
        Err(ErrorKind::CollectionNotFound)
    } else if !s[route].contains_key(id) {
        Err(ErrorKind::ItemNotFound)
    } else {
        Ok(s[route][id])
    }
}

pub open spec fn delete_spec(s: StoreV, route: Seq<char>, id: Seq<char>) -> (
    StoreV,
    Result<(), ErrorKind>,
) {
    if !s.contains_key(route) {
        (s, Err(ErrorKind::CollectionNotFound))
    } else if !s[route].contains_key(id) {
        (s, Err(ErrorKind::ItemNotFound))
    } else {
        (s.insert(route, s[route].remove(id)), Ok(()))
    }
}

/// The document that a full replace stores: exactly the body's fields, with
/// the identifier field pinned to `id`.
pub open spec fn replaced_doc(body: Seq<(Seq<char>, JsonV)>, id_key: Seq<char>, id: Seq<char>) -> JsonV {
    JsonV::Object(set_field(set_fields(seq![], body), id_key, JsonV::Str(id)))
}

pub open spec fn put_spec(s: StoreV, id_key: Seq<char>, route: Seq<char>, id: Seq<char>, body: JsonV) -> (
    StoreV,
    Result<JsonV, ErrorKind>,
) {
    if !s.contains_key(route) {
        (s, Err(ErrorKind::CollectionNotFound))
    } else if !s[route].contains_key(id) {
        (s, Err(ErrorKind::ItemNotFound))
    } else if !(body is Object) {
        (s, Err(ErrorKind::InvalidBody))
    } else {
        let doc = replaced_doc(object_fields(body), id_key, id);
        (s.insert(route, s[route].insert(id, doc)), Ok(doc))
    }
}

/// A merge: the body's fields overwrite or extend the stored document. A
/// body that names the identifier field is refused, so that a document's
/// identity never drifts from its key.
pub open spec fn patch_spec(
    s: StoreV,
    id_key: Seq<char>,
    route: Seq<char>,
    id: Seq<char>,
    body: JsonV,
) -> (StoreV, Result<JsonV, ErrorKind>) {
    if !s.contains_key(route) {
        (s, Err(ErrorKind::CollectionNotFound))
    } else if !s[route].contains_key(id) {
        (s, Err(ErrorKind::ItemNotFound))
    } else if !(body is Object) || get_field(object_fields(body), id_key) is Some {
        (s, Err(ErrorKind::InvalidBody))
    } else {
        let doc = JsonV::Object(set_fields(object_fields(s[route][id]), object_fields(body)));
        (s.insert(route, s[route].insert(id, doc)), Ok(doc))
    }
}

/// An insert. A string identifier in the body is the key; a body without the
/// identifier field gets `fresh` as its identifier. A key already in use is
/// refused, and so is an identifier field that is not a string.
pub open spec fn post_spec(
    s: StoreV,
    id_key: Seq<char>,
    route: Seq<char>,
    body: JsonV,
    fresh: Seq<char>,
) -> (StoreV, Result<JsonV, ErrorKind>) {
    if !s.contains_key(route) {
        (s, Err(ErrorKind::CollectionNotFound))
    } else if !(body is Object) {
        (s, Err(ErrorKind::InvalidBody))
    } else {
        let fs = set_fields(seq![], object_fields(body));
        match get_field(fs, id_key) {
            Some(JsonV::Str(k)) => if s[route].contains_key(k) {
                (s, Err(ErrorKind::DuplicateId))
            } else {
                (s.insert(route, s[route].insert(k, JsonV::Object(fs))), Ok(JsonV::Object(fs)))
            },
            Some(_) => (s, Err(ErrorKind::InvalidBody)),
            None => if s[route].contains_key(fresh) {
                (s, Err(ErrorKind::DuplicateId))
            } else {
                let doc = JsonV::Object(set_field(fs, id_key, JsonV::Str(fresh)));
                (s.insert(route, s[route].insert(fresh, doc)), Ok(doc))
            },
        }
    }
}

/// The documents of a collection, in ascending order of identifier.
pub open spec fn sorted_docs(m: Map<Seq<char>, JsonV>) -> Seq<JsonV> {
    sorted_keys(m).map_values(|k: Seq<char>| m[k])
}

/// The whole store in the backing-file format: a bag of arrays, collections
/// in ascending order of name, documents in ascending order of identifier.
pub open spec fn snapshot_spec(s: StoreV) -> JsonV {
    JsonV::Object(
        sorted_keys(s).map_values(|c: Seq<char>| (c, JsonV::Array(sorted_docs(s[c])))),
    )
}

/// The model of an operation's outcome.
pub open spec fn doc_result(r: Result<Json, JsmlError>) -> Result<JsonV, ErrorKind> {
    match r {
        Ok(d) => Ok(d@),
        Err(e) => Err(e.kind),
    }
}

pub open spec fn unit_result(r: Result<(), JsmlError>) -> Result<(), ErrorKind> {
    match r {
        Ok(_) => Ok(()),
        Err(e) => Err(e.kind),
    }
}

/// Relies on `uuid::Uuid::new_v4`, shown through its `Display`: a random
/// identifier in the 36-character hyphenated form.
#[verifier::external_body]
fn new_identifier() -> (r: String)
    ensures
        r@.len() == 36,
{
    uuid::Uuid::new_v4().to_string()
}

/// The store: named collections and the identifier field they share.
#[derive(Debug)]
pub struct Database {
    pub id_key: String,
    pub database: Vec<(String, Collection)>,
}

impl Database {
    pub open spec fn entries(&self) -> Seq<(Seq<char>, Map<Seq<char>, JsonV>)> {
        Seq::new(self.database.len() as nat, |i: int| (self.database@[i].0@, self.database@[i].1@))
    }

    pub open spec fn view(&self) -> StoreV {
        seq_to_map(self.entries())
    }

    pub open spec fn wf(&self) -> bool {
        &&& unique_keys(self.entries())
        &&& forall|i: int| 0 <= i < self.database.len() ==> (#[trigger] self.database@[i]).1.wf()
        &&& store_identified(self@, self.id_key@)
    }

    proof fn lemma_entries(&self)
        ensures
            self.entries().len() == self.database.len(),
            forall|i: int|
                0 <= i < self.database.len() ==> #[trigger] self.entries()[i] == (
                    self.database@[i].0@,
                    self.database@[i].1@,
                ),
    {
    }

    /// Sets collection `name` to `coll`, adding it when it is not there.
    fn set_collection(&mut self, name: String, coll: Collection)
        requires
            old(self).wf(),
            coll.wf(),
            identified(coll@, old(self).id_key@),
        ensures
            final(self).wf(),
            final(self).id_key == old(self).id_key,
            final(self)@ == old(self)@.insert(name@, coll@),
    {
        proof {
            self.lemma_entries();
        }
        let ghost k = name@;
        let ghost v = coll@;
        match key_position(&self.database, name.as_str()) {
            Some(i) => {
                proof {
                    lemma_map_update(self.entries(), i as int, v);
                }
                self.database.set(i, (name, coll));
                proof {
                    self.lemma_entries();
                    assert(self.entries() =~= old(self).entries().update(i as int, (k, v)));
                }
            },
            None => {
                proof {
                    lemma_map_absent(self.entries(), k);
                    lemma_map_push(self.entries(), k, v);
                }
                self.database.push((name, coll));
                proof {
                    self.lemma_entries();
                    assert(self.entries() =~= old(self).entries().push((k, v)));
                }
            },
        }
        proof {
            assert forall|c: Seq<char>| #[trigger] self@.contains_key(c) implies identified(
                self@[c],
                self.id_key@,
            ) by {
                if c != k {
                    assert(old(self)@.contains_key(c));
                }
            }
        }
    }

    /// The position of collection `route`.
    fn position(&self, route: &str) -> (r: Option<usize>)
        requires
            self.wf(),
        ensures
            match r {
                Some(i) => {
                    &&& i < self.database.len()
                    &&& self@.contains_key(route@)
                    &&& self.database@[i as int].0@ == route@
                    &&& self@[route@] == self.database@[i as int].1@
                },
                None => !self@.contains_key(route@),
            },
    {
        proof {
            self.lemma_entries();
        }
        match key_position(&self.database, route) {
            Some(i) => {
                proof {
                    lemma_map_at(self.entries(), i as int);
                }
                Some(i)
            },
            None => {
                proof {
                    lemma_map_absent(self.entries(), route@);
                }
                None
            },
        }
    }
}

/// After the collection at position `i` is swapped for `coll`, the store
/// maps that collection's name to `coll`.
proof fn lemma_replace_collection(before: Database, after: Database, i: int, coll: Collection)
    requires
        before.wf(),
        0 <= i < before.database.len(),
        after.id_key == before.id_key,
        after.database@ == before.database@.update(i, (before.database@[i].0, coll)),
        coll.wf(),
        identified(coll@, before.id_key@),
    ensures
        after.wf(),
        after@ == before@.insert(before.database@[i].0@, coll@),
{
    before.lemma_entries();
    after.lemma_entries();
    let k = before.database@[i].0@;
    assert(after.entries() =~= before.entries().update(i, (k, coll@)));
    lemma_map_update(before.entries(), i, coll@);
    assert forall|j: int| 0 <= j < after.database.len() implies (#[trigger] after.database@[j]).1.wf() by {
        if j != i {
            assert(after.database@[j] == before.database@[j]);
        }
    }
    assert forall|c: Seq<char>| #[trigger] after@.contains_key(c) implies identified(
        after@[c],
        after.id_key@,
    ) by {
        if c != k {
            assert(before@.contains_key(c));
        }
    }
}

/// A failure on a prefix of the backing data's fields is the failure of the
/// whole load.
proof fn lemma_load_prefix_err(fs: Seq<(Seq<char>, JsonV)>, n: int, id_key: Seq<char>)
    requires
        0 <= n <= fs.len(),
        load_fields(fs.subrange(0, n), id_key) is Err,
    ensures
        load_fields(fs, id_key) == load_fields(fs.subrange(0, n), id_key),
    decreases fs.len(),
{
    if n == fs.len() {
        assert(fs.subrange(0, n) =~= fs);
    } else {
        let pre = fs.drop_last();
        assert(pre.subrange(0, n) =~= fs.subrange(0, n));
        lemma_load_prefix_err(pre, n, id_key);
    }
}

impl Database {
    /// Builds the store from the backing data: each field of the top-level
    /// bag is a collection, each element of its array a document keyed by
    /// its identifier field `id_key`.
    pub fn new(id_key: &str, data: &Json) -> (r: Result<Database, JsmlError>)
        ensures
            match r {
                Ok(db) => {
                    &&& db.wf()
                    &&& db.id_key@ == id_key@
                    &&& load_spec(data@, id_key@) == Ok::<StoreV, ErrorKind>(db@)
                },
                Err(e) => load_spec(data@, id_key@) == Err::<StoreV, ErrorKind>(e.kind),
            },
    {
        let fields = match data {
            Json::Object(f) => f,
            _ => {
                return Err(JsmlError::new(ErrorKind::InvalidSource, "Error: invalid file content"));
            },
        };
        proof {
            lemma_object_view(*data);
        }
        let ghost fv = fields_view(fields@);
        let mut db = Database { id_key: id_key.to_string(), database: Vec::new() };
        proof {
            db.lemma_entries();
            assert(db@ =~= Map::<Seq<char>, Map<Seq<char>, JsonV>>::empty());
            assert(fv.subrange(0, 0) =~= seq![]);
        }
        let mut i: usize = 0;
        while i < fields.len()
            invariant
                i <= fields.len(),
                fv == fields_view(fields@),
                data@ == JsonV::Object(fv),
                db.wf(),
                db.id_key@ == id_key@,
                load_fields(fv.subrange(0, i as int), id_key@) == Ok::<StoreV, ErrorKind>(db@),
            decreases fields.len() - i,
        {
            let ghost pre = fv.subrange(0, i + 1);
            assert(pre.drop_last() =~= fv.subrange(0, i as int));
            assert(pre.last() == (fields@[i as int].0@, fields@[i as int].1@));
            match &fields[i].1 {
                Json::Array(items) => {
                    proof {
                        lemma_array_view(fields@[i as int].1);
                    }
                    match Collection::new(id_key, items) {
                        Ok(c) => {
                            proof {
                                assert forall|k: Seq<char>| #[trigger] c@.contains_key(k) implies doc_id(
                                    c@[k],
                                    id_key@,
                                ) == Some(k) by {
                                    crate::collection::lemma_items_map_identified(
                                        crate::json::items_view(items@),
                                        id_key@,
                                        k,
                                    );
                                }
                            }
                            db.set_collection(fields[i].0.clone(), c);
                        },
                        Err(e) => {
                            proof {
                                assert(load_fields(pre, id_key@) == Err::<StoreV, ErrorKind>(
                                    ErrorKind::MissingIdentifierField,
                                ));
                                lemma_load_prefix_err(fv, i + 1, id_key@);
                            }
                            return Err(
                                JsmlError::new(ErrorKind::MissingIdentifierField, e.details.as_str()),
                            );
                        },
                    }
                },
                _ => {
                    proof {
                        assert(!(fields@[i as int].1@ is Array));
                        assert(load_fields(pre, id_key@) == Err::<StoreV, ErrorKind>(
                            ErrorKind::InvalidSource,
                        ));
                        lemma_load_prefix_err(fv, i + 1, id_key@);
                    }
                    return Err(JsmlError::new(ErrorKind::InvalidSource, "Error: invalid file content"));
                },
            }
            i = i + 1;
        }
        assert(fv.subrange(0, fields.len() as int) =~= fv);
        Ok(db)
    }

    /// The documents of collection `route` that a listing request selects.
    pub fn query(&self, route: &str, query: &QueryParams) -> (r: Result<Vec<Json>, JsmlError>)
        requires
            self.wf(),
        ensures
            match r {
                Ok(v) => {
                    &&& self@.contains_key(route@)
                    &&& v@.map_values(|d: Json| d@) == query_spec(
                        self@[route@],
                        query.page,
                        query.limit,
                        query.spec_filters(),
                    )
                },
                Err(e) => !self@.contains_key(route@) && e.kind == ErrorKind::CollectionNotFound,
            },
    {
        match self.position(route) {
            None => Err(collection_missing(route)),
            Some(i) => {
                assert(self.database@[i as int].1.wf());
                Ok(self.database[i].1.query(query))
            },
        }
    }

    /// The document `id` of collection `route`.
    pub fn get(&self, route: &str, id: &str) -> (r: Result<&Json, JsmlError>)
        requires
            self.wf(),
        ensures
            match r {
                Ok(d) => get_spec(self@, route@, id@) == Ok::<JsonV, ErrorKind>(d@),
                Err(e) => get_spec(self@, route@, id@) == Err::<JsonV, ErrorKind>(e.kind),
            },
    {
        match self.position(route) {
            None => Err(collection_missing(route)),
            Some(i) => {
                assert(self.database@[i as int].1.wf());
                match self.database[i].1.get(id) {
                    Some(d) => Ok(d),
                    None => Err(item_missing(route, id)),
                }
            },
        }
    }

    /// Removes document `id` from collection `route`.
    pub fn delete(&mut self, route: &str, id: &str) -> (r: Result<(), JsmlError>)
        requires
            old(self).wf(),
        ensures
            final(self).wf(),
            final(self).id_key == old(self).id_key,
            (final(self)@, unit_result(r)) == delete_spec(old(self)@, route@, id@),
    {
        match self.position(route) {
            None => Err(collection_missing(route)),
            Some(i) => {
                let ghost before = *self;
                assert(before.database@[i as int].1.wf());
                let (name, mut coll) = self.database.remove(i);
                let removed = coll.remove(id);
                let ghost c = coll;
                self.database.insert(i, (name, coll));
                proof {
                    lemma_identified_remove(before@[route@], before.id_key@, id@);
                    assert(self.database@ =~= before.database@.update(
                        i as int,
                        (before.database@[i as int].0, c),
                    ));
                    lemma_replace_collection(before, *self, i as int, c);
                }
                if removed {
                    Ok(())
                } else {
                    proof {
                        assert(c@ =~= before@[route@]);
                        assert(self@ =~= before@);
                    }
                    Err(item_missing(route, id))
                }
            },
        }
    }

    /// Replaces document `id` of collection `route` by the fields of `body`,
    /// keeping its identifier.
    pub fn put(&mut self, route: &str, id: &str, body: &Json) -> (r: Result<Json, JsmlError>)
        requires
            old(self).wf(),
        ensures
            final(self).wf(),
            final(self).id_key == old(self).id_key,
            (final(self)@, doc_result(r)) == put_spec(
                old(self)@,
                old(self).id_key@,
                route@,
                id@,
                body@,
            ),
    {
        let i = match self.position(route) {
            None => {
                return Err(collection_missing(route));
            },
            Some(i) => i,
        };
        assert(self.database@[i as int].1.wf());
        if self.database[i].1.get(id).is_none() {
            return Err(item_missing(route, id));
        }
        let bfs = match body {
            Json::Object(f) => f,
            _ => {
                return Err(invalid_body());
            },
        };
        proof {
            lemma_object_view(*body);
        }
        let mut fields: Vec<(String, Json)> = Vec::new();
        assert(fields_view(fields@) =~= seq![]);
        set_field_values(&mut fields, bfs);
        set_field_value(&mut fields, self.id_key.clone(), Json::Str(id.to_string()));
        let doc = Json::Object(fields);
        proof {
            lemma_object_view(doc);
            lemma_get_set_field(
                set_fields(seq![], fields_view(bfs@)),
                self.id_key@,
                JsonV::Str(id@),
                self.id_key@,
            );
        }
        let stored = doc.deep_clone();
        let ghost before = *self;
        let (name, mut coll) = self.database.remove(i);
        coll.insert(id.to_string(), stored);
        let ghost c = coll;
        self.database.insert(i, (name, coll));
        proof {
            lemma_identified_insert(before@[route@], before.id_key@, id@, doc@);
            assert(self.database@ =~= before.database@.update(
                i as int,
                (before.database@[i as int].0, c),
            ));
            lemma_replace_collection(before, *self, i as int, c);
        }
        Ok(doc)
    }

    /// Merges the fields of `body` into document `id` of collection `route`.
    pub fn patch(&mut self, route: &str, id: &str, body: &Json) -> (r: Result<Json, JsmlError>)
        requires
            old(self).wf(),
        ensures
            final(self).wf(),
            final(self).id_key == old(self).id_key,
            (final(self)@, doc_result(r)) == patch_spec(
                old(self)@,
                old(self).id_key@,
                route@,
                id@,
                body@,
            ),
    {
        let i = match self.position(route) {
            None => {
                return Err(collection_missing(route));
            },
            Some(i) => i,
        };
        assert(self.database@[i as int].1.wf());
        let mut fields = match self.database[i].1.get(id) {
            None => {
                return Err(item_missing(route, id));
            },
            Some(d) => match d {
                Json::Object(fs) => {
                    proof {
                        lemma_object_view(*d);
                    }
                    clone_fields(fs)
                },
                _ => {
                    proof {
                        assert(doc_id(d@, self.id_key@) == Some(id@));
                    }
                    return Err(invalid_body());
                },
            },
        };
        let ghost prior = object_fields(self@[route@][id@]);
        assert(fields_view(fields@) == prior);
        let bfs = match body {
            Json::Object(f) => f,
            _ => {
                return Err(invalid_body());
            },
        };
        proof {
            lemma_object_view(*body);
        }
        if field_value(bfs, self.id_key.as_str()).is_some() {
            return Err(invalid_body());
        }
        set_field_values(&mut fields, bfs);
        let doc = Json::Object(fields);
        proof {
            lemma_object_view(doc);
            lemma_get_field_none(fields_view(bfs@), self.id_key@);
            lemma_set_fields_other(prior, fields_view(bfs@), self.id_key@);
        }
        let stored = doc.deep_clone();
        let ghost before = *self;
        let (name, mut coll) = self.database.remove(i);
        coll.insert(id.to_string(), stored);
        let ghost c = coll;
        self.database.insert(i, (name, coll));
        proof {
            lemma_identified_insert(before@[route@], before.id_key@, id@, doc@);
            assert(self.database@ =~= before.database@.update(
                i as int,
                (before.database@[i as int].0, c),
            ));
            lemma_replace_collection(before, *self, i as int, c);
        }
        Ok(doc)
    }

    /// Inserts `body` into collection `route`, with `fresh` as the identifier
    /// when the body has no identifier field.
    pub fn post_with_id(&mut self, route: &str, body: &Json, fresh: &str) -> (r: Result<
        Json,
        JsmlError,
    >)
        requires
            old(self).wf(),
        ensures
            final(self).wf(),
            final(self).id_key == old(self).id_key,
            (final(self)@, doc_result(r)) == post_spec(
                old(self)@,
                old(self).id_key@,
                route@,
                body@,
                fresh@,
            ),
    {
        let i = match self.position(route) {
            None => {
                return Err(collection_missing(route));
            },
            Some(i) => i,
        };
        assert(self.database@[i as int].1.wf());
        let bfs = match body {
            Json::Object(f) => f,
            _ => {
                return Err(invalid_body());
            },
        };
        proof {
            lemma_object_view(*body);
        }
        let mut fields: Vec<(String, Json)> = Vec::new();
        assert(fields_view(fields@) =~= seq![]);
        set_field_values(&mut fields, bfs);
        let ghost fs = fields_view(fields@);
        let given: Option<String> = match field_value(&fields, self.id_key.as_str()) {
            Some(Json::Str(k)) => Some(k.clone()),
            Some(_) => {
                return Err(invalid_body());
            },
            None => None,
        };
        let key = match given {
            Some(k) => k,
            None => {
                let k = fresh.to_string();
                set_field_value(&mut fields, self.id_key.clone(), Json::Str(fresh.to_string()));
                proof {
                    lemma_get_set_field(fs, self.id_key@, JsonV::Str(fresh@), self.id_key@);
                }
                k
            },
        };
        if self.database[i].1.get(key.as_str()).is_some() {
            return Err(duplicate_id(key.as_str()));
        }
        let doc = Json::Object(fields);
        proof {
            lemma_object_view(doc);
        }
        let stored = doc.deep_clone();
        let ghost before = *self;
        let (name, mut coll) = self.database.remove(i);
        coll.insert(key, stored);
        let ghost c = coll;
        self.database.insert(i, (name, coll));
        proof {
            lemma_identified_insert(before@[route@], before.id_key@, key@, doc@);
            assert(self.database@ =~= before.database@.update(
                i as int,
                (before.database@[i as int].0, c),
            ));
            lemma_replace_collection(before, *self, i as int, c);
        }
        Ok(doc)
    }

    /// A snapshot of every collection, for writing back to the backing file.
    pub fn serialize_all(&self) -> (r: Json)
        requires
            self.wf(),
        ensures
            r@ == snapshot_spec(self@),
    {
        let ghost keys = self.database@.map_values(|e: (String, Collection)| e.0@);
        proof {
            self.lemma_entries();
            crate::keyed::lemma_map_dom(self.entries());
            assert(self.entries().map_values(|e: (Seq<char>, Map<Seq<char>, JsonV>)| e.0) =~= keys);
            assert(keys.no_duplicates());
        }
        let names = sorted_entry_keys(&self.database);
        let ghost order = names@.map_values(|t: String| t@);
        proof {
            lemma_sorted_keys_unique(order, self@);
        }
        let mut out: Vec<(String, Json)> = Vec::new();
        let mut j: usize = 0;
        while j < names.len()
            invariant
                self.wf(),
                j <= names.len(),
                order == names@.map_values(|t: String| t@),
                order == sorted_keys(self@),
                is_key_order(order, self@.dom()),
                out.len() == j,
                forall|a: int|
                    0 <= a < j ==> (#[trigger] out@[a]).0@ == order[a] && out@[a].1@
                        == JsonV::Array(sorted_docs(self@[order[a]])),
            decreases names.len() - j,
        {
            assert(order[j as int] == names@[j as int]@);
            assert(order.contains(order[j as int]));
            assert(order.to_set().contains(order[j as int]));
            match self.position(names[j].as_str()) {
                Some(i) => {
                    assert(self.database@[i as int].1.wf());
                    let docs = self.database[i].1.get_all();
                    out.push((names[j].clone(), docs));
                },
                None => {
                    assert(false);
                },
            }
            j = j + 1;
        }
        let r = Json::Object(out);
        proof {
            lemma_object_view(r);
            assert(fields_view(out@) =~= order.map_values(
                |c: Seq<char>| (c, JsonV::Array(sorted_docs(self@[c]))),
            ));
        }
        r
    }

    /// Inserts `body` into collection `route`; a body without the identifier
    /// field gets a random identifier.
    pub fn post(&mut self, route: &str, body: &Json) -> (r: Result<Json, JsmlError>)
        requires
            old(self).wf(),
        ensures
            final(self).wf(),
            final(self).id_key == old(self).id_key,
            exists|fresh: Seq<char>|
                fresh.len() == 36 && (final(self)@, doc_result(r)) == #[trigger] post_spec(
                    old(self)@,
                    old(self).id_key@,
                    route@,
                    body@,
                    fresh,
                ),
    {
        let fresh = new_identifier();
        self.post_with_id(route, body, fresh.as_str())
    }
}

} // verus!

use vstd::prelude::*;

use crate::json::{field_value, fields_view, get_field, items_view, lemma_fields_view_len, Json, JsonV};
use crate::jsml_error::{text3, DatabaseError};
use crate::keyed::{
    key_position, lemma_map_absent, lemma_map_at, lemma_map_dom, lemma_map_push,
    lemma_map_remove, lemma_map_update, seq_to_map, unique_keys,
};
use crate::order::{is_key_order, lemma_sorted_keys_unique, sorted_entry_keys, sorted_keys};

verus! {

/// The identifier of a document: the string value of its field `id_key`.
pub open spec fn doc_id(doc: JsonV, id_key: Seq<char>) -> Option<Seq<char>> {
    match doc {
        JsonV::Object(fs) => match get_field(fs, id_key) {
            Some(JsonV::Str(s)) => Some(s),
            _ => None,
        },
        _ => None,
    }
}

/// Every document is stored under the string value of its identifier field.
pub open spec fn identified(m: Map<Seq<char>, JsonV>, id_key: Seq<char>) -> bool {
    forall|k: Seq<char>| #[trigger] m.contains_key(k) ==> doc_id(m[k], id_key) == Some(k)
}

/// Every item carries a string identifier.
pub open spec fn items_valid(items: Seq<JsonV>, id_key: Seq<char>) -> bool {
    forall|i: int| 0 <= i < items.len() ==> (#[trigger] doc_id(items[i], id_key)) is Some
}

/// The documents keyed by identifier; a later item wins over an earlier one
/// with the same identifier.
pub open spec fn items_map(items: Seq<JsonV>, id_key: Seq<char>) -> Map<Seq<char>, JsonV>
    decreases items.len(),
{
    if items.len() == 0 {
        Map::empty()
    } else {
        let m = items_map(items.drop_last(), id_key);
        match doc_id(items.last(), id_key) {
            Some(k) => m.insert(k, items.last()),
            None => m,
        }
    }
}

/// Each document of `items_map` is stored under its identifier.
pub proof fn lemma_items_map_identified(items: Seq<JsonV>, id_key: Seq<char>, k: Seq<char>)
    requires
        items_map(items, id_key).contains_key(k),
    ensures
        doc_id(items_map(items, id_key)[k], id_key) == Some(k),
    decreases items.len(),
{
    if items.len() > 0 {
        let m = items_map(items.drop_last(), id_key);
        match doc_id(items.last(), id_key) {
            Some(j) => {
                if j != k {
                    lemma_items_map_identified(items.drop_last(), id_key, k);
                }
            },
            None => {
                lemma_items_map_identified(items.drop_last(), id_key, k);
            },
        }
    }
}

pub proof fn lemma_identified_insert(m: Map<Seq<char>, JsonV>, id_key: Seq<char>, k: Seq<char>, doc: JsonV)
    requires
        identified(m, id_key),
        doc_id(doc, id_key) == Some(k),
    ensures
        identified(m.insert(k, doc), id_key),
{
}

pub proof fn lemma_identified_remove(m: Map<Seq<char>, JsonV>, id_key: Seq<char>, k: Seq<char>)
    requires
        identified(m, id_key),
    ensures
        identified(m.remove(k), id_key),
{
}

/// The identifier of `doc`, read from its field `id_key`.
pub fn doc_id_of<'a>(doc: &'a Json, id_key: &str) -> (r: Option<&'a String>)
    ensures
        match r {
            Some(s) => doc_id(doc@, id_key@) == Some(s@),
            None => doc_id(doc@, id_key@) == None::<Seq<char>>,
        },
{
    match doc {
        Json::Object(fields) => {
            assert(doc@ == JsonV::Object(fields_view(fields@))) by {
                if let JsonV::Object(a) = doc@ {
                    assert(a =~= fields_view(fields@));
                }
            }
            match field_value(fields, id_key) {
                Some(Json::Str(s)) => Some(s),
                _ => None,
            }
        },
        _ => None,
    }
}

/// One named group of documents, each stored under its identifier.
#[derive(Debug)]
pub struct Collection {
    pub collection: Vec<(String, Json)>,
}

impl Collection {
    pub open spec fn entries(&self) -> Seq<(Seq<char>, JsonV)> {
        fields_view(self.collection@)
    }

    /// The documents by identifier.
    pub open spec fn view(&self) -> Map<Seq<char>, JsonV> {
        seq_to_map(self.entries())
    }

    pub open spec fn wf(&self) -> bool {
        unique_keys(self.entries())
    }

    pub fn empty() -> (r: Collection)
        ensures
            r.wf(),
            r@ == Map::<Seq<char>, JsonV>::empty(),
    {
        let r = Collection { collection: Vec::new() };
        assert(r@ =~= Map::<Seq<char>, JsonV>::empty());
        r
    }

    /// Builds a collection from an array of documents, keyed by the string
    /// value of each one's field `id`.
    pub fn new(id: &str, data: &Vec<Json>) -> (r: Result<Collection, DatabaseError>)
        ensures
            match r {
                Ok(c) => {
                    &&& items_valid(items_view(data@), id@)
                    &&& c.wf()
                    &&& c@ == items_map(items_view(data@), id@)
                },
                Err(e) => {
                    &&& !items_valid(items_view(data@), id@)
                    &&& e.details@ == "No field named: '"@ + id@ + "'"@
                },
            },
    {
        let ghost items = items_view(data@);
        let mut c = Collection::empty();
        let mut i: usize = 0;
        while i < data.len()
            invariant
                i <= data.len(),
                items == items_view(data@),
                c.wf(),
                items_valid(items.subrange(0, i as int), id@),
                c@ == items_map(items.subrange(0, i as int), id@),
            decreases data.len() - i,
        {
            let ghost pre = items.subrange(0, i + 1);
            assert(pre.drop_last() =~= items.subrange(0, i as int));
            assert(pre.last() == data@[i as int]@);
            match doc_id_of(&data[i], id) {
                Some(key) => {
                    c.insert(key.clone(), data[i].deep_clone());
                },
                None => {
                    assert(!items_valid(items, id@)) by {
                        assert(doc_id(items[i as int], id@) is None);
                    }
                    return Err(DatabaseError { details: text3("No field named: '", id, "'") });
                },
            }
            assert(items_valid(pre, id@)) by {
                assert forall|j: int| 0 <= j < pre.len() implies (#[trigger] doc_id(
                    pre[j],
                    id@,
                )) is Some by {
                    if j < i {
                        assert(pre[j] == items.subrange(0, i as int)[j]);
                    }
                }
            }
            i = i + 1;
        }
        assert(items.subrange(0, data.len() as int) =~= items);
        Ok(c)
    }

    /// The document stored under `id`.
    pub fn get(&self, id: &str) -> (r: Option<&Json>)
        requires
            self.wf(),
        ensures
            match r {
                Some(d) => self@.contains_key(id@) && self@[id@] == d@,
                None => !self@.contains_key(id@),
            },
    {
        match key_position(&self.collection, id) {
            Some(i) => {
                proof {
                    lemma_map_at(self.entries(), i as int);
                }
                Some(&self.collection[i].1)
            },
            None => {
                proof {
                    lemma_map_absent(self.entries(), id@);
                }
                None
            },
        }
    }

    /// Stores `doc` under `id`, replacing what was there.
    pub fn insert(&mut self, id: String, doc: Json)
        requires
            old(self).wf(),
        ensures
            final(self).wf(),
            final(self)@ == old(self)@.insert(id@, doc@),
    {
        let ghost k = id@;
        let ghost v = doc@;
        match key_position(&self.collection, id.as_str()) {
            Some(i) => {
                proof {
                    lemma_map_update(self.entries(), i as int, v);
                }
                self.collection.set(i, (id, doc));
                assert(self.entries() =~= old(self).entries().update(i as int, (k, v)));
            },
            None => {
                proof {
                    lemma_map_absent(self.entries(), k);
                    lemma_map_push(self.entries(), k, v);
                }
                self.collection.push((id, doc));
                assert(self.entries() =~= old(self).entries().push((k, v)));
            },
        }
    }

    /// Removes the document stored under `id`; tells whether there was one.
    pub fn remove(&mut self, id: &str) -> (r: bool)
        requires
            old(self).wf(),
        ensures
            final(self).wf(),
            r == old(self)@.contains_key(id@),
            final(self)@ == old(self)@.remove(id@),
    {
        match key_position(&self.collection, id) {
            Some(i) => {
                proof {
                    lemma_map_at(self.entries(), i as int);
                    lemma_map_remove(self.entries(), i as int);
                }
                self.collection.remove(i);
                assert(self.entries() =~= old(self).entries().remove(i as int));
                true
            },
            None => {
                proof {
                    lemma_map_absent(self.entries(), id@);
                    assert(self@.remove(id@) =~= self@);
                }
                false
            },
        }
    }

    /// The identifiers in ascending order.
    pub fn sorted_ids(&self) -> (r: Vec<String>)
        requires
            self.wf(),
        ensures
            r@.map_values(|s: String| s@) == sorted_keys(self@),
            is_key_order(sorted_keys(self@), self@.dom()),
    {
        let ghost keys = self.collection@.map_values(|e: (String, Json)| e.0@);
        proof {
            lemma_fields_view_len(self.collection@);
            lemma_map_dom(self.entries());
            assert(self.entries().map_values(|e: (Seq<char>, JsonV)| e.0) =~= keys);
            assert(keys.no_duplicates());
        }
        let r = sorted_entry_keys(&self.collection);
        proof {
            lemma_sorted_keys_unique(r@.map_values(|t: String| t@), self@);
        }
        r
    }

    /// All documents, in ascending order of identifier.
    pub fn get_all(&self) -> (r: Json)
        requires
            self.wf(),
        ensures
            r@ == JsonV::Array(sorted_keys(self@).map_values(|k: Seq<char>| self@[k])),
    {
        let ids = self.sorted_ids();
        let ghost order = sorted_keys(self@);
        let mut out: Vec<Json> = Vec::new();
        let mut i: usize = 0;
        while i < ids.len()
            invariant
                self.wf(),
                i <= ids.len(),
                ids@.map_values(|s: String| s@) == order,
                order == sorted_keys(self@),
                is_key_order(order, self@.dom()),
                out.len() == i,
                forall|j: int| 0 <= j < i ==> (#[trigger] out@[j])@ == self@[order[j]],
            decreases ids.len() - i,
        {
            assert(order[i as int] == ids@[i as int]@);
            assert(order.contains(order[i as int]));
            assert(order.to_set().contains(order[i as int]));
            match self.get(ids[i].as_str()) {
                Some(d) => {
                    out.push(d.deep_clone());
                },
                None => {
                    assert(false);
                },
            }
            i = i + 1;
        }
        let r = Json::Array(out);
        assert(r@ == JsonV::Array(order.map_values(|k: Seq<char>| self@[k]))) by {
            if let JsonV::Array(a) = r@ {
                assert(a =~= order.map_values(|k: Seq<char>| self@[k]));
            }
        }
        r
    }
}

} // verus!

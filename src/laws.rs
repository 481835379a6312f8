use vstd::prelude::*;

use crate::collection::{doc_id, identified, items_map, items_valid, lemma_items_map_identified};
use crate::database::{
    delete_spec, get_spec, load_fields, load_spec, object_fields, patch_spec, post_spec, put_spec,
    replaced_doc, snapshot_spec, sorted_docs, store_identified, StoreV,
};
use crate::order::{is_key_order, lemma_sorted_keys_exist, sorted_keys};
use crate::query::{listed_keys, matches_all, query_spec, window};
use crate::json::{get_field, lemma_get_set_field, set_field, set_fields, JsonV};
use crate::jsml_error::ErrorKind;

verus! {

proof fn lemma_load_fields_identified(fs: Seq<(Seq<char>, JsonV)>, id_key: Seq<char>)
    requires
        load_fields(fs, id_key) is Ok,
    ensures
        store_identified(load_fields(fs, id_key)->Ok_0, id_key),
    decreases fs.len(),
{
    if fs.len() > 0 {
        lemma_load_fields_identified(fs.drop_last(), id_key);
        let m = load_fields(fs.drop_last(), id_key)->Ok_0;
        if let JsonV::Array(items) = fs.last().1 {
            let s = load_fields(fs, id_key)->Ok_0;
            assert forall|c: Seq<char>| #[trigger] s.contains_key(c) implies identified(
                s[c],
                id_key,
            ) by {
                if c == fs.last().0 {
                    assert forall|k: Seq<char>| #[trigger] s[c].contains_key(k) implies doc_id(
                        s[c][k],
                        id_key,
                    ) == Some(k) by {
                        lemma_items_map_identified(items, id_key, k);
                    }
                } else {
                    assert(m.contains_key(c));
                }
            }
        }
    }
}

/// Every document of a successfully loaded store has a string identifier
/// field, and is stored under that identifier.
pub proof fn law_load_identified(data: JsonV, id_key: Seq<char>)
    requires
        load_spec(data, id_key) is Ok,
    ensures
        store_identified(load_spec(data, id_key)->Ok_0, id_key),
{
    if let JsonV::Object(fs) = data {
        lemma_load_fields_identified(fs, id_key);
    }
}

/// A post whose body has no identifier field stores the document under the
/// fresh identifier, which the document's identifier field then holds.
pub proof fn law_post_assigns_identifier(
    s: StoreV,
    id_key: Seq<char>,
    route: Seq<char>,
    body: JsonV,
    fresh: Seq<char>,
)
    requires
        s.contains_key(route),
        body is Object,
        get_field(object_fields(body), id_key) is None,
        !s[route].contains_key(fresh),
    ensures
        ({
            let (s2, r) = post_spec(s, id_key, route, body, fresh);
            &&& r is Ok
            &&& doc_id(r->Ok_0, id_key) == Some(fresh)
            &&& s2[route].contains_key(fresh)
            &&& s2[route][fresh] == r->Ok_0
        }),
{
    let fs = set_fields(seq![], object_fields(body));
    crate::json::lemma_get_field_none(object_fields(body), id_key);
    crate::json::lemma_set_fields_other(seq![], object_fields(body), id_key);
    lemma_get_set_field(fs, id_key, JsonV::Str(fresh), id_key);
}

/// Two successful posts to one collection, one after the other, store their
/// documents under different identifiers, and both stay stored.
pub proof fn law_successive_posts_distinct(
    s: StoreV,
    id_key: Seq<char>,
    route: Seq<char>,
    body1: JsonV,
    fresh1: Seq<char>,
    body2: JsonV,
    fresh2: Seq<char>,
)
    requires
        store_identified(s, id_key),
        post_spec(s, id_key, route, body1, fresh1).1 is Ok,
        post_spec(post_spec(s, id_key, route, body1, fresh1).0, id_key, route, body2, fresh2).1 is Ok,
    ensures
        ({
            let (s1, r1) = post_spec(s, id_key, route, body1, fresh1);
            let (s2, r2) = post_spec(s1, id_key, route, body2, fresh2);
            let d1 = r1->Ok_0;
            let d2 = r2->Ok_0;
            &&& doc_id(d1, id_key) is Some
            &&& doc_id(d2, id_key) is Some
            &&& doc_id(d1, id_key) != doc_id(d2, id_key)
            &&& s2[route][doc_id(d1, id_key)->Some_0] == d1
            &&& s2[route][doc_id(d2, id_key)->Some_0] == d2
        }),
{
    let fs1 = set_fields(seq![], object_fields(body1));
    let fs2 = set_fields(seq![], object_fields(body2));
    lemma_get_set_field(fs1, id_key, JsonV::Str(fresh1), id_key);
    lemma_get_set_field(fs2, id_key, JsonV::Str(fresh2), id_key);
}

/// Two posts without identifier fields both succeed when the fresh
/// identifiers differ from each other and from every stored one.
pub proof fn law_posts_without_identifier_succeed(
    s: StoreV,
    id_key: Seq<char>,
    route: Seq<char>,
    body1: JsonV,
    fresh1: Seq<char>,
    body2: JsonV,
    fresh2: Seq<char>,
)
    requires
        s.contains_key(route),
        body1 is Object,
        body2 is Object,
        get_field(object_fields(body1), id_key) is None,
        get_field(object_fields(body2), id_key) is None,
        !s[route].contains_key(fresh1),
        !s[route].contains_key(fresh2),
        fresh1 != fresh2,
    ensures
        post_spec(s, id_key, route, body1, fresh1).1 is Ok,
        post_spec(post_spec(s, id_key, route, body1, fresh1).0, id_key, route, body2, fresh2).1 is Ok,
{
    law_post_assigns_identifier(s, id_key, route, body1, fresh1);
    let s1 = post_spec(s, id_key, route, body1, fresh1).0;
    law_post_assigns_identifier(s1, id_key, route, body2, fresh2);
}

/// A post whose identifier is already in use fails with `DuplicateId` and
/// leaves the store as it was.
pub proof fn law_post_duplicate(
    s: StoreV,
    id_key: Seq<char>,
    route: Seq<char>,
    body: JsonV,
    fresh: Seq<char>,
    k: Seq<char>,
)
    requires
        s.contains_key(route),
        s[route].contains_key(k),
        body is Object,
        get_field(set_fields(seq![], object_fields(body)), id_key) == Some(JsonV::Str(k)),
    ensures
        post_spec(s, id_key, route, body, fresh) == (s, Err::<JsonV, ErrorKind>(ErrorKind::DuplicateId)),
{
}

/// After a successful put, a get returns exactly the body's fields with the
/// identifier field pinned to `id`, whatever identifier the body held.
pub proof fn law_put_then_get(s: StoreV, id_key: Seq<char>, route: Seq<char>, id: Seq<char>, body: JsonV)
    requires
        put_spec(s, id_key, route, id, body).1 is Ok,
    ensures
        ({
            let after = put_spec(s, id_key, route, id, body).0;
            let fs = object_fields(get_spec(after, route, id)->Ok_0);
            &&& get_spec(after, route, id) == Ok::<JsonV, ErrorKind>(
                replaced_doc(object_fields(body), id_key, id),
            )
            &&& forall|g: Seq<char>|
                #[trigger] get_field(fs, g) == if g == id_key {
                    Some(JsonV::Str(id))
                } else {
                    get_field(set_fields(seq![], object_fields(body)), g)
                }
        }),
{
    let fs0 = set_fields(seq![], object_fields(body));
    assert forall|g: Seq<char>| #[trigger]
        get_field(set_field(fs0, id_key, JsonV::Str(id)), g) == if g == id_key {
            Some(JsonV::Str(id))
        } else {
            get_field(fs0, g)
        } by {
        lemma_get_set_field(fs0, id_key, JsonV::Str(id), g);
    }
}

/// After a successful patch with the single field `f: v`, a get returns the
/// prior document with `f` set to `v` and every other field unchanged.
pub proof fn law_patch_then_get(
    s: StoreV,
    id_key: Seq<char>,
    route: Seq<char>,
    id: Seq<char>,
    f: Seq<char>,
    v: JsonV,
)
    requires
        patch_spec(s, id_key, route, id, JsonV::Object(seq![(f, v)])).1 is Ok,
    ensures
        ({
            let prior = object_fields(s[route][id]);
            let after = patch_spec(s, id_key, route, id, JsonV::Object(seq![(f, v)])).0;
            let fs = object_fields(get_spec(after, route, id)->Ok_0);
            &&& get_spec(after, route, id) == Ok::<JsonV, ErrorKind>(
                JsonV::Object(set_field(prior, f, v)),
            )
            &&& forall|g: Seq<char>|
                #[trigger] get_field(fs, g) == if g == f {
                    Some(v)
                } else {
                    get_field(prior, g)
                }
        }),
{
    let prior = object_fields(s[route][id]);
    let body = seq![(f, v)];
    assert(body.drop_last() =~= seq![]);
    assert(set_fields(prior, body.drop_last()) == prior);
    assert(body.last() == (f, v));
    assert(set_fields(prior, body) == set_field(prior, f, v));
    assert forall|g: Seq<char>| #[trigger] get_field(set_field(prior, f, v), g) == if g == f {
        Some(v)
    } else {
        get_field(prior, g)
    } by {
        lemma_get_set_field(prior, f, v, g);
    }
}

/// After a successful delete, a get and a second delete both fail with
/// `ItemNotFound`.
pub proof fn law_delete_then_get(s: StoreV, route: Seq<char>, id: Seq<char>)
    requires
        delete_spec(s, route, id).1 is Ok,
    ensures
        get_spec(delete_spec(s, route, id).0, route, id) == Err::<JsonV, ErrorKind>(
            ErrorKind::ItemNotFound,
        ),
        delete_spec(delete_spec(s, route, id).0, route, id).1 == Err::<(), ErrorKind>(
            ErrorKind::ItemNotFound,
        ),
{
}

/// A listing holds exactly the documents of the page window that pass every
/// filter: a matching document outside the window is never listed.
pub proof fn law_listing_within_window(
    m: Map<Seq<char>, JsonV>,
    page: Option<usize>,
    limit: Option<usize>,
    filters: Seq<(Seq<char>, Seq<Seq<char>>)>,
)
    ensures
        forall|i: int|
            0 <= i < listed_keys(m, page, limit, filters).len() ==> {
                let k = #[trigger] listed_keys(m, page, limit, filters)[i];
                &&& window(sorted_keys(m), page, limit).contains(k)
                &&& matches_all(m[k], filters)
                &&& query_spec(m, page, limit, filters)[i] == m[k]
            },
        forall|k: Seq<char>|
            window(sorted_keys(m), page, limit).contains(k) && matches_all(m[k], filters)
                ==> #[trigger] listed_keys(m, page, limit, filters).contains(k),
{
    broadcast use vstd::seq_lib::group_filter_ensures;

    let w = window(sorted_keys(m), page, limit);
    let pred = |k: Seq<char>| matches_all(m[k], filters);
    let f = w.filter(pred);
    assert forall|i: int| 0 <= i < f.len() implies w.contains(#[trigger] f[i]) by {
        assert(f.contains(f[i]));
        w.lemma_filter_contains_rev(pred, f[i]);
    }
    assert forall|k: Seq<char>| w.contains(k) && matches_all(m[k], filters) implies #[trigger] f.contains(k) by {
        let j = choose|j: int| 0 <= j < w.len() && w[j] == k;
        w.lemma_filter_contains(pred, j);
    }
}

proof fn lemma_items_map_sorted(m: Map<Seq<char>, JsonV>, id_key: Seq<char>, n: int)
    requires
        identified(m, id_key),
        is_key_order(sorted_keys(m), m.dom()),
        0 <= n <= sorted_keys(m).len(),
    ensures
        items_valid(sorted_docs(m).subrange(0, n), id_key),
        items_map(sorted_docs(m).subrange(0, n), id_key) == m.restrict(
            sorted_keys(m).subrange(0, n).to_set(),
        ),
    decreases n,
{
    let ks = sorted_keys(m);
    let ds = sorted_docs(m);
    if n == 0 {
        assert(m.restrict(ks.subrange(0, 0).to_set()) =~= Map::empty());
    } else {
        lemma_items_map_sorted(m, id_key, n - 1);
        let pre = ds.subrange(0, n);
        assert(pre.drop_last() =~= ds.subrange(0, n - 1));
        let k = ks[n - 1];
        assert(ks.contains(k));
        assert(ks.to_set().contains(k));
        assert(pre.last() == m[k]);
        assert(doc_id(m[k], id_key) == Some(k));
        assert(ks.subrange(0, n).to_set() =~= ks.subrange(0, n - 1).to_set().insert(k)) by {
            assert(ks.subrange(0, n) =~= ks.subrange(0, n - 1).push(k));
            ks.subrange(0, n - 1).lemma_push_to_set_commute(k);
        }
        assert(m.restrict(ks.subrange(0, n).to_set()) =~= m.restrict(
            ks.subrange(0, n - 1).to_set(),
        ).insert(k, m[k]));
        assert forall|j: int| 0 <= j < pre.len() implies (#[trigger] doc_id(pre[j], id_key)) is Some by {
            if j < n - 1 {
                assert(pre[j] == ds.subrange(0, n - 1)[j]);
            }
        }
    }
}

proof fn lemma_load_snapshot_prefix(s: StoreV, id_key: Seq<char>, n: int)
    requires
        store_identified(s, id_key),
        is_key_order(sorted_keys(s), s.dom()),
        forall|c: Seq<char>| #[trigger] s.contains_key(c) ==> s[c].dom().finite(),
        0 <= n <= sorted_keys(s).len(),
    ensures
        load_fields(object_fields(snapshot_spec(s)).subrange(0, n), id_key) == Ok::<
            StoreV,
            ErrorKind,
        >(s.restrict(sorted_keys(s).subrange(0, n).to_set())),
    decreases n,
{
    let names = sorted_keys(s);
    let fs = object_fields(snapshot_spec(s));
    if n == 0 {
        assert(s.restrict(names.subrange(0, 0).to_set()) =~= Map::empty());
    } else {
        lemma_load_snapshot_prefix(s, id_key, n - 1);
        let pre = fs.subrange(0, n);
        assert(pre.drop_last() =~= fs.subrange(0, n - 1));
        let c = names[n - 1];
        assert(names.contains(c));
        assert(names.to_set().contains(c));
        assert(pre.last() == (c, JsonV::Array(sorted_docs(s[c]))));
        lemma_sorted_keys_exist(s[c]);
        let len = sorted_keys(s[c]).len() as int;
        lemma_items_map_sorted(s[c], id_key, len);
        assert(sorted_docs(s[c]).subrange(0, len) =~= sorted_docs(s[c]));
        assert(sorted_keys(s[c]).subrange(0, len) =~= sorted_keys(s[c]));
        assert(s[c].restrict(s[c].dom()) =~= s[c]);
        assert(names.subrange(0, n).to_set() =~= names.subrange(0, n - 1).to_set().insert(c)) by {
            assert(names.subrange(0, n) =~= names.subrange(0, n - 1).push(c));
            names.subrange(0, n - 1).lemma_push_to_set_commute(c);
        }
        assert(s.restrict(names.subrange(0, n).to_set()) =~= s.restrict(
            names.subrange(0, n - 1).to_set(),
        ).insert(c, s[c]));
    }
}

/// Loading a snapshot of a store gives back that store: the backing-file
/// format round-trips.
pub proof fn law_snapshot_round_trip(s: StoreV, id_key: Seq<char>)
    requires
        store_identified(s, id_key),
        s.dom().finite(),
        forall|c: Seq<char>| #[trigger] s.contains_key(c) ==> s[c].dom().finite(),
    ensures
        load_spec(snapshot_spec(s), id_key) == Ok::<StoreV, ErrorKind>(s),
{
    lemma_sorted_keys_exist(s);
    let names = sorted_keys(s);
    let fs = object_fields(snapshot_spec(s));
    lemma_load_snapshot_prefix(s, id_key, names.len() as int);
    assert(fs.subrange(0, names.len() as int) =~= fs);
    assert(names.subrange(0, names.len() as int) =~= names);
    assert(s.restrict(s.dom()) =~= s);
}

} // verus!

use vstd::prelude::*;

use crate::collection::Collection;
use crate::json::{
    key_absent_before, lemma_field_absent, lemma_field_at, lookup_path, path_lookup, set_field,
    split_spec, split_text, text_eq, text_is, text_of, Json, JsonV,
};
use crate::keyed::key_position;
use crate::order::{is_key_order, sorted_keys};

verus! {

/// The value of a string of decimal digits.
pub open spec fn digits_value(s: Seq<char>) -> int
    decreases s.len(),
{
    if s.len() == 0 {
        0
    } else {
        digits_value(s.drop_last()) * 10 + (s.last() as int - '0' as int)
    }
}

pub open spec fn all_digits(s: Seq<char>) -> bool {
    forall|i: int| 0 <= i < s.len() ==> '0' as int <= #[trigger] (s[i] as int) <= '9' as int
}

/// What `str::parse::<usize>` gives: an optional `+`, then at least one
/// decimal digit and nothing else, of a value that fits.
pub open spec fn parse_usize_spec(s: Seq<char>) -> Option<usize> {
    let d = if s.len() > 0 && s[0] == '+' {
        s.drop_first()
    } else {
        s
    };
    if d.len() > 0 && all_digits(d) && digits_value(d) <= usize::MAX {
        Some(digits_value(d) as usize)
    } else {
        None
    }
}

/// Relies on `str::parse::<usize>` (`<usize as FromStr>::from_str`): an
/// optional `+` and decimal digits, rejected on overflow.
#[verifier::external_body]
fn parse_usize(s: &str) -> (r: Option<usize>)
    ensures
        r == parse_usize_spec(s@),
{
    s.parse::<usize>().ok()
}

pub open spec fn page_key() -> Seq<char> {
    seq!['_', 'p', 'a', 'g', 'e']
}

pub open spec fn limit_key() -> Seq<char> {
    seq!['_', 'l', 'i', 'm', 'i', 't']
}

/// The model of a filter list: each field path with its accepted texts.
pub open spec fn filters_view(f: Seq<(String, Vec<String>)>) -> Seq<(Seq<char>, Seq<Seq<char>>)> {
    Seq::new(f.len() as nat, |i: int| (f[i].0@, f[i].1@.map_values(|s: String| s@)))
}

/// The parameters read from a request's query pairs, in order: `_page` and
/// `_limit` are numbers (`None` when they do not parse), and every other key
/// is a field path whose value lists accepted texts separated by commas. A
/// later pair wins over an earlier one with the same key.
pub open spec fn params_spec(q: Seq<(Seq<char>, Seq<char>)>) -> (
    Option<usize>,
    Option<usize>,
    Seq<(Seq<char>, Seq<Seq<char>>)>,
)
    decreases q.len(),
{
    if q.len() == 0 {
        (None, None, seq![])
    } else {
        let prev = params_spec(q.drop_last());
        let k = q.last().0;
        let v = q.last().1;
        if k == page_key() {
            (parse_usize_spec(v), prev.1, prev.2)
        } else if k == limit_key() {
            (prev.0, parse_usize_spec(v), prev.2)
        } else {
            (prev.0, prev.1, set_field(prev.2, k, split_spec(v, ',')))
        }
    }
}

/// A listing request: an optional page window and field filters.
#[derive(Debug)]
pub struct QueryParams {
    pub page: Option<usize>,
    pub limit: Option<usize>,
    pub filters: Vec<(String, Vec<String>)>,
}

impl QueryParams {
    pub open spec fn spec_filters(&self) -> Seq<(Seq<char>, Seq<Seq<char>>)> {
        filters_view(self.filters@)
    }

    /// No window and no filter: the whole collection.
    pub fn default() -> (r: QueryParams)
        ensures
            r.page is None,
            r.limit is None,
            r.filters@.len() == 0,
    {
        QueryParams { page: None, limit: None, filters: Vec::new() }
    }

    /// Reads the parameters of a listing from a request's query pairs.
    pub fn new(query: Vec<(String, String)>) -> (r: QueryParams)
        ensures
            (r.page, r.limit, r.spec_filters()) == params_spec(
                query@.map_values(|e: (String, String)| (e.0@, e.1@)),
            ),
    {
        let ghost qv = query@.map_values(|e: (String, String)| (e.0@, e.1@));
        let mut res = QueryParams::default();
        assert(res.spec_filters() =~= seq![]);
        let mut i: usize = 0;
        while i < query.len()
            invariant
                i <= query.len(),
                qv == query@.map_values(|e: (String, String)| (e.0@, e.1@)),
                (res.page, res.limit, res.spec_filters()) == params_spec(qv.subrange(0, i as int)),
            decreases query.len() - i,
        {
            let ghost pre = qv.subrange(0, i + 1);
            assert(pre.drop_last() =~= qv.subrange(0, i as int));
            assert(pre.last() == (query@[i as int].0@, query@[i as int].1@));
            let key = &query[i].0;
            let value = &query[i].1;
            proof {
                reveal_strlit("_page");
                reveal_strlit("_limit");
                assert("_page"@ =~= page_key());
                assert("_limit"@ =~= limit_key());
            }
            if text_eq(key.as_str(), "_page") {
                res.page = parse_usize(value.as_str());
            } else if text_eq(key.as_str(), "_limit") {
                res.limit = parse_usize(value.as_str());
            } else {
                let values = split_text(value.as_str(), ',');
                set_filter(&mut res.filters, key.clone(), values);
            }
            i = i + 1;
        }
        assert(qv.subrange(0, query.len() as int) =~= qv);
        res
    }
}

/// Sets the accepted texts of field path `key`, in place when it is listed.
fn set_filter(filters: &mut Vec<(String, Vec<String>)>, key: String, values: Vec<String>)
    ensures
        filters_view(final(filters)@) == set_field(
            filters_view(old(filters)@),
            key@,
            values@.map_values(|s: String| s@),
        ),
{
    let ghost k = key@;
    let ghost v = values@.map_values(|s: String| s@);
    let ghost fv = filters_view(filters@);
    assert forall|j: int| 0 <= j < filters.len() implies #[trigger] fv[j].0 == filters@[j].0@ by {}
    match key_position(filters, key.as_str()) {
        Some(i) => {
            proof {
                lemma_field_at(fv, k, i as int, v);
            }
            filters.set(i, (key, values));
            assert(filters_view(filters@) =~= fv.update(i as int, (k, v)));
        },
        None => {
            proof {
                assert(key_absent_before(fv, k, fv.len() as int));
                lemma_field_absent(fv, k, v);
            }
            filters.push((key, values));
            assert(filters_view(filters@) =~= fv.push((k, v)));
        },
    }
}

/// The document passes the filter on `path`: it has a value there whose
/// text is one of `accepted`.
pub open spec fn filter_ok(doc: JsonV, path: Seq<char>, accepted: Seq<Seq<char>>) -> bool {
    match path_lookup(doc, split_spec(path, '.')) {
        Some(v) => match text_of(v) {
            Some(t) => accepted.contains(t),
            None => false,
        },
        None => false,
    }
}

/// The document passes every filter.
pub open spec fn matches_all(doc: JsonV, filters: Seq<(Seq<char>, Seq<Seq<char>>)>) -> bool {
    forall|i: int| 0 <= i < filters.len() ==> #[trigger] filter_ok(doc, filters[i].0, filters[i].1)
}

/// The value at a dot-separated field path.
pub fn get_filtered_field<'a>(value: &'a Json, key: &String) -> (r: Option<&'a Json>)
    ensures
        match r {
            Some(x) => path_lookup(value@, split_spec(key@, '.')) == Some(x@),
            None => path_lookup(value@, split_spec(key@, '.')) == None::<JsonV>,
        },
{
    let path = split_text(key.as_str(), '.');
    lookup_path(value, &path)
}

/// Whether `value` passes the filter on `path` with the texts `accepted`.
pub fn match_filter(value: &Json, path: &String, accepted: &Vec<String>) -> (r: bool)
    ensures
        r == filter_ok(value@, path@, accepted@.map_values(|s: String| s@)),
{
    let ghost av = accepted@.map_values(|s: String| s@);
    match get_filtered_field(value, path) {
        Some(v) => {
            let mut j: usize = 0;
            while j < accepted.len()
                invariant
                    j <= accepted.len(),
                    av == accepted@.map_values(|s: String| s@),
                    path_lookup(value@, split_spec(path@, '.')) == Some(v@),
                    forall|a: int| 0 <= a < j ==> text_of(v@) != Some(#[trigger] av[a]),
                decreases accepted.len() - j,
            {
                if text_is(v, accepted[j].as_str()) {
                    assert(av[j as int] == accepted@[j as int]@);
                    assert(av.contains(av[j as int]));
                    return true;
                }
                j = j + 1;
            }
            false
        },
        None => false,
    }
}

/// Whether `value` passes every filter of `query`.
pub fn match_query(query: &QueryParams, value: &Json) -> (r: bool)
    ensures
        r == matches_all(value@, query.spec_filters()),
{
    let ghost fv = query.spec_filters();
    let mut i: usize = 0;
    while i < query.filters.len()
        invariant
            i <= query.filters.len(),
            fv == query.spec_filters(),
            forall|a: int| 0 <= a < i ==> #[trigger] filter_ok(value@, fv[a].0, fv[a].1),
        decreases query.filters.len() - i,
    {
        assert(fv[i as int] == (
            query.filters@[i as int].0@,
            query.filters@[i as int].1@.map_values(|s: String| s@),
        ));
        if !match_filter(value, &query.filters[i].0, &query.filters[i].1) {
            assert(!filter_ok(value@, fv[i as int].0, fv[i as int].1));
            return false;
        }
        i = i + 1;
    }
    true
}

/// The identifiers that a page window keeps: positions
/// `[page * limit, page * limit + limit)` of the sorted identifiers, `limit`
/// being 10 when absent; all of them when there is no page.
pub open spec fn window(ids: Seq<Seq<char>>, page: Option<usize>, limit: Option<usize>) -> Seq<
    Seq<char>,
> {
    match page {
        None => ids,
        Some(p) => {
            let l: int = match limit {
                Some(l) => l as int,
                None => 10,
            };
            let start = if p * l < ids.len() {
                p * l
            } else {
                ids.len() as int
            };
            let end = if p * l + l < ids.len() {
                p * l + l
            } else {
                ids.len() as int
            };
            ids.subrange(start, end)
        },
    }
}

/// The identifiers that a listing returns: those of the page window, in
/// ascending order, whose documents pass every filter. The window is taken
/// first.
pub open spec fn listed_keys(
    m: Map<Seq<char>, JsonV>,
    page: Option<usize>,
    limit: Option<usize>,
    filters: Seq<(Seq<char>, Seq<Seq<char>>)>,
) -> Seq<Seq<char>> {
    window(sorted_keys(m), page, limit).filter(|k: Seq<char>| matches_all(m[k], filters))
}

/// The result of a listing: the documents of `listed_keys`, in order.
pub open spec fn query_spec(
    m: Map<Seq<char>, JsonV>,
    page: Option<usize>,
    limit: Option<usize>,
    filters: Seq<(Seq<char>, Seq<Seq<char>>)>,
) -> Seq<JsonV> {
    listed_keys(m, page, limit, filters).map_values(|k: Seq<char>| m[k])
}

/// The bounds of the page window over `n` identifiers.
fn window_bounds(n: usize, page: Option<usize>, limit: Option<usize>) -> (r: (usize, usize))
    ensures
        r.0 <= r.1 <= n,
        forall|ids: Seq<Seq<char>>|
            ids.len() == n ==> #[trigger] window(ids, page, limit) == ids.subrange(
                r.0 as int,
                r.1 as int,
            ),
{
    match page {
        None => {
            assert forall|ids: Seq<Seq<char>>| ids.len() == n implies #[trigger] window(
                ids,
                page,
                limit,
            ) == ids.subrange(0, n as int) by {
                assert(ids.subrange(0, n as int) =~= ids);
            }
            (0, n)
        },
        Some(p) => {
            let l: usize = match limit {
                Some(l) => l,
                None => 10,
            };
            proof {
                let a = p as int;
                let b = l as int;
                let m = u64::MAX as int;
                assert(a * b <= m * m) by (nonlinear_arith)
                    requires
                        0 <= a <= m,
                        0 <= b <= m,
                ;
            }
            let pl: u128 = (p as u128) * (l as u128);
            let start: usize = if pl < n as u128 {
                pl as usize
            } else {
                n
            };
            let end: usize = if pl + (l as u128) < n as u128 {
                (pl + (l as u128)) as usize
            } else {
                n
            };
            (start, end)
        },
    }
}

impl Collection {
    /// The documents of a listing request, as `query_spec` gives them.
    pub fn query(&self, query: &QueryParams) -> (r: Vec<Json>)
        requires
            self.wf(),
        ensures
            r@.map_values(|d: Json| d@) == query_spec(
                self@,
                query.page,
                query.limit,
                query.spec_filters(),
            ),
    {
        let ids = self.sorted_ids();
        let ghost order = sorted_keys(self@);
        let ghost pred = |k: Seq<char>| matches_all(self@[k], query.spec_filters());
        let (start, end) = window_bounds(ids.len(), query.page, query.limit);
        let ghost win = window(order, query.page, query.limit);
        assert(win == order.subrange(start as int, end as int));
        let mut out: Vec<Json> = Vec::new();
        let mut i: usize = start;
        assert(win.subrange(0, 0).filter(pred) =~= seq![]) by {
            reveal(Seq::filter);
        }
        assert(out@.map_values(|d: Json| d@) =~= seq![]);
        while i < end
            invariant
                self.wf(),
                start <= i <= end <= ids.len(),
                ids@.map_values(|s: String| s@) == order,
                order == sorted_keys(self@),
                is_key_order(order, self@.dom()),
                win == order.subrange(start as int, end as int),
                pred == (|k: Seq<char>| matches_all(self@[k], query.spec_filters())),
                out@.map_values(|d: Json| d@) == win.subrange(0, i - start).filter(pred).map_values(
                    |k: Seq<char>| self@[k],
                ),
            decreases end - i,
        {
            let ghost pre = win.subrange(0, i - start + 1);
            assert(pre.drop_last() =~= win.subrange(0, i - start));
            assert(pre.last() == order[i as int]);
            assert(order[i as int] == ids@[i as int]@);
            assert(order.contains(order[i as int]));
            assert(order.to_set().contains(order[i as int]));
            let ghost before = out@;
            let ghost k = order[i as int];
            reveal(Seq::filter);
            assert(pre.filter(pred) == if pred(k) {
                pre.drop_last().filter(pred).push(k)
            } else {
                pre.drop_last().filter(pred)
            });
            match self.get(ids[i].as_str()) {
                Some(d) => {
                    if match_query(query, d) {
                        assert(pred(k));
                        out.push(d.deep_clone());
                        assert(out@.map_values(|d: Json| d@) =~= before.map_values(
                            |d: Json| d@,
                        ).push(self@[k]));
                        assert(pre.filter(pred).map_values(|k: Seq<char>| self@[k])
                            =~= pre.drop_last().filter(pred).map_values(
                            |k: Seq<char>| self@[k],
                        ).push(self@[k]));
                    } else {
                        assert(!pred(k));
                    }
                },
                None => {
                    assert(false);
                },
            }
            i = i + 1;
        }
        assert(win.subrange(0, end - start) =~= win);
        out
    }
}

} // verus!

use vstd::prelude::*;

verus! {

broadcast use vstd::std_specs::vec::axiom_vec_index_decreases;

/// A JSON-like value: the dynamic field-bag that documents are made of.
///
/// A number is held as its canonical textual form, so that the store never
/// depends on floating point.
#[derive(Debug, PartialEq)]
pub enum Json {
    Null,
    Bool(bool),
    Number(String),
    Str(String),
    Array(Vec<Json>),
    Object(Vec<(String, Json)>),
}

/// The mathematical model of a `Json` value.
pub enum JsonV {
    Null,
    Bool(bool),
    Number(Seq<char>),
    Str(Seq<char>),
    Array(Seq<JsonV>),
    Object(Seq<(Seq<char>, JsonV)>),
}

impl Json {
    pub open spec fn view(&self) -> JsonV
        decreases self,
    {
        match self {
            Json::Null => JsonV::Null,
            Json::Bool(b) => JsonV::Bool(*b),
            Json::Number(t) => JsonV::Number(t@),
            Json::Str(s) => JsonV::Str(s@),
            Json::Array(items) => JsonV::Array(
                Seq::new(
                    items.len() as nat,
                    |i: int|
                        if 0 <= i < items.len() {
                            items[i].view()
                        } else {
                            JsonV::Null
                        },
                ),
            ),
            Json::Object(fields) => JsonV::Object(
                Seq::new(
                    fields.len() as nat,
                    |i: int|
                        if 0 <= i < fields.len() {
                            (fields[i].0@, fields[i].1.view())
                        } else {
                            (Seq::empty(), JsonV::Null)
                        },
                ),
            ),
        }
    }
}


/// The model of an object's field list.
pub open spec fn fields_view(fields: Seq<(String, Json)>) -> Seq<(Seq<char>, JsonV)> {
    Seq::new(fields.len() as nat, |i: int| (fields[i].0@, fields[i].1@))
}

/// The value of the first field named `k`, if any.
pub open spec fn get_field<V>(fs: Seq<(Seq<char>, V)>, k: Seq<char>) -> Option<V>
    decreases fs.len(),
{
    if fs.len() == 0 {
        None
    } else if fs[0].0 == k {
        Some(fs[0].1)
    } else {
        get_field(fs.drop_first(), k)
    }
}

/// The field list with field `k` set to `v`: the first field named `k` is
/// overwritten in place, or the field is appended when there is none.
pub open spec fn set_field<V>(fs: Seq<(Seq<char>, V)>, k: Seq<char>, v: V) -> Seq<(Seq<char>, V)>
    decreases fs.len(),
{
    if fs.len() == 0 {
        seq![(k, v)]
    } else if fs[0].0 == k {
        fs.update(0, (k, v))
    } else {
        seq![fs[0]] + set_field(fs.drop_first(), k, v)
    }
}

/// The field list after setting each field of `body`, in order.
pub open spec fn set_fields(fs: Seq<(Seq<char>, JsonV)>, body: Seq<(Seq<char>, JsonV)>) -> Seq<
    (Seq<char>, JsonV),
>
    decreases body.len(),
{
    if body.len() == 0 {
        fs
    } else {
        set_field(set_fields(fs, body.drop_last()), body.last().0, body.last().1)
    }
}

/// No field before index `i` is named `k`.
pub open spec fn key_absent_before<V>(fs: Seq<(Seq<char>, V)>, k: Seq<char>, i: int) -> bool {
    forall|j: int| 0 <= j < i ==> #[trigger] fs[j].0 != k
}

pub proof fn lemma_field_at<V>(fs: Seq<(Seq<char>, V)>, k: Seq<char>, i: int, v: V)
    requires
        0 <= i < fs.len(),
        fs[i].0 == k,
        key_absent_before(fs, k, i),
    ensures
        get_field(fs, k) == Some(fs[i].1),
        set_field(fs, k, v) == fs.update(i, (k, v)),
    decreases i,
{
    if i > 0 {
        assert(fs[0].0 != k);
        let rest = fs.drop_first();
        assert forall|j: int| 0 <= j < i - 1 implies #[trigger] rest[j].0 != k by {
            assert(rest[j] == fs[j + 1]);
        }
        lemma_field_at(rest, k, i - 1, v);
        assert(set_field(fs, k, v) =~= fs.update(i, (k, v)));
    }
}

pub proof fn lemma_field_absent<V>(fs: Seq<(Seq<char>, V)>, k: Seq<char>, v: V)
    requires
        key_absent_before(fs, k, fs.len() as int),
    ensures
        get_field(fs, k) == None::<V>,
        set_field(fs, k, v) == fs.push((k, v)),
    decreases fs.len(),
{
    if fs.len() > 0 {
        assert(fs[0].0 != k);
        let rest = fs.drop_first();
        assert forall|j: int| 0 <= j < rest.len() implies #[trigger] rest[j].0 != k by {
            assert(rest[j] == fs[j + 1]);
        }
        lemma_field_absent(rest, k, v);
        assert(set_field(fs, k, v) =~= fs.push((k, v)));
    }
}

/// After setting `k`, reading `k` gives the new value and reading any other
/// field gives what it gave before.
pub proof fn lemma_get_set_field<V>(fs: Seq<(Seq<char>, V)>, k: Seq<char>, v: V, g: Seq<char>)
    ensures
        get_field(set_field(fs, k, v), g) == if g == k {
            Some(v)
        } else {
            get_field(fs, g)
        },
    decreases fs.len(),
{
    let r = set_field(fs, k, v);
    if fs.len() == 0 {
        assert(r[0] == (k, v));
        assert(r.drop_first().len() == 0);
        assert(get_field(r.drop_first(), g) == None::<V>);
    } else if fs[0].0 == k {
        assert(r[0] == (k, v));
        assert(r.drop_first() =~= fs.drop_first());
    } else {
        lemma_get_set_field(fs.drop_first(), k, v, g);
        assert(r[0] == fs[0]);
        assert(r.drop_first() =~= set_field(fs.drop_first(), k, v));
    }
}

/// The position of the first field named `key`.
pub fn field_position(fields: &Vec<(String, Json)>, key: &str) -> (r: Option<usize>)
    ensures
        match r {
            Some(i) => i < fields.len() && fields@[i as int].0@ == key@ && key_absent_before(
                fields_view(fields@),
                key@,
                i as int,
            ),
            None => key_absent_before(fields_view(fields@), key@, fields.len() as int),
        },
{
    let mut i: usize = 0;
    while i < fields.len()
        invariant
            i <= fields.len(),
            key_absent_before(fields_view(fields@), key@, i as int),
        decreases fields.len() - i,
    {
        if text_eq(fields[i].0.as_str(), key) {
            return Some(i);
        }
        i = i + 1;
    }
    None
}

/// Character-wise equality of two strings.
pub fn text_eq(a: &str, b: &str) -> (r: bool)
    ensures
        r == (a@ == b@),
{
    let n = a.unicode_len();
    if n != b.unicode_len() {
        return false;
    }
    let mut i: usize = 0;
    while i < n
        invariant
            n == a@.len() == b@.len(),
            i <= n,
            a@.subrange(0, i as int) == b@.subrange(0, i as int),
        decreases n - i,
    {
        if a.get_char(i) != b.get_char(i) {
            assert(a@[i as int] != b@[i as int]);
            return false;
        }
        assert(a@.subrange(0, i + 1) =~= a@.subrange(0, i as int).push(a@[i as int]));
        assert(b@.subrange(0, i + 1) =~= b@.subrange(0, i as int).push(b@[i as int]));
        i = i + 1;
    }
    assert(a@ =~= a@.subrange(0, n as int));
    assert(b@ =~= b@.subrange(0, n as int));
    true
}

impl Json {
    /// A copy of the value, equal to it in the model.
    pub fn deep_clone(&self) -> (r: Json)
        ensures
            r@ == self@,
        decreases self,
    {
        match self {
            Json::Null => Json::Null,
            Json::Bool(b) => Json::Bool(*b),
            Json::Number(t) => Json::Number(t.clone()),
            Json::Str(s) => Json::Str(s.clone()),
            Json::Array(items) => {
                let out = clone_items(items);
                let r = Json::Array(out);
                assert(r@ == self@) by {
                    if let JsonV::Array(a) = r@ {
                        if let JsonV::Array(b) = self@ {
                            assert(a =~= b);
                        }
                    }
                }
                r
            },
            Json::Object(fields) => {
                let out = clone_fields(fields);
                let ghost ov = fields_view(out@);
                let r = Json::Object(out);
                assert(r@ == self@) by {
                    if let JsonV::Object(a) = r@ {
                        if let JsonV::Object(b) = self@ {
                            assert(a =~= ov);
                            assert(b =~= fields_view(fields@));
                            assert(a =~= b);
                        }
                    }
                }
                r
            },
        }
    }
}

/// A copy of a list of values, equal to it in the model.
pub fn clone_items(items: &Vec<Json>) -> (r: Vec<Json>)
    ensures
        r.len() == items.len(),
        forall|j: int| 0 <= j < items.len() ==> (#[trigger] r@[j])@ == items@[j]@,
    decreases items,
{
    let mut out: Vec<Json> = Vec::new();
    let mut i: usize = 0;
    while i < items.len()
        invariant
            i <= items.len(),
            out.len() == i,
            forall|j: int| 0 <= j < i ==> (#[trigger] out@[j])@ == items@[j]@,
        decreases items.len() - i,
    {
        out.push(items[i].deep_clone());
        i = i + 1;
    }
    out
}

/// A copy of a field list, equal to it in the model.
pub fn clone_fields(fields: &Vec<(String, Json)>) -> (r: Vec<(String, Json)>)
    ensures
        fields_view(r@) == fields_view(fields@),
    decreases fields,
{
    let mut out: Vec<(String, Json)> = Vec::new();
    let mut i: usize = 0;
    while i < fields.len()
        invariant
            i <= fields.len(),
            out.len() == i,
            forall|j: int|
                0 <= j < i ==> (#[trigger] out@[j]).0@ == fields@[j].0@ && out@[j].1@
                    == fields@[j].1@,
        decreases fields.len() - i,
    {
        out.push((fields[i].0.clone(), fields[i].1.deep_clone()));
        i = i + 1;
    }
    assert(fields_view(out@) =~= fields_view(fields@));
    out
}


/// The value of the first field named `key`.
pub fn field_value<'a>(fields: &'a Vec<(String, Json)>, key: &str) -> (r: Option<&'a Json>)
    ensures
        match r {
            Some(v) => get_field(fields_view(fields@), key@) == Some(v@),
            None => get_field(fields_view(fields@), key@) == None::<JsonV>,
        },
{
    proof {
        lemma_fields_view_len(fields@);
    }
    match field_position(fields, key) {
        Some(i) => {
            proof {
                lemma_field_at(fields_view(fields@), key@, i as int, JsonV::Null);
            }
            Some(&fields[i].1)
        },
        None => {
            proof {
                lemma_field_absent(fields_view(fields@), key@, JsonV::Null);
            }
            None
        },
    }
}

pub proof fn lemma_fields_view_len(fields: Seq<(String, Json)>)
    ensures
        fields_view(fields).len() == fields.len(),
        forall|i: int|
            0 <= i < fields.len() ==> #[trigger] fields_view(fields)[i] == (
                fields[i].0@,
                fields[i].1@,
            ),
{
}

/// Sets field `key` to `value`, in place when the field exists.
pub fn set_field_value(fields: &mut Vec<(String, Json)>, key: String, value: Json)
    ensures
        fields_view(final(fields)@) == set_field(fields_view(old(fields)@), key@, value@),
{
    proof {
        lemma_fields_view_len(fields@);
    }
    let ghost k = key@;
    let ghost v = value@;
    match field_position(fields, key.as_str()) {
        Some(i) => {
            proof {
                lemma_field_at(fields_view(fields@), k, i as int, v);
            }
            fields.set(i, (key, value));
            assert(fields_view(fields@) =~= fields_view(old(fields)@).update(i as int, (k, v)));
        },
        None => {
            proof {
                lemma_field_absent(fields_view(fields@), k, v);
            }
            fields.push((key, value));
            assert(fields_view(fields@) =~= fields_view(old(fields)@).push((k, v)));
        },
    }
}

/// Sets each field of `body`, in order, on `fields`.
pub fn set_field_values(fields: &mut Vec<(String, Json)>, body: &Vec<(String, Json)>)
    ensures
        fields_view(final(fields)@) == set_fields(fields_view(old(fields)@), fields_view(body@)),
{
    let ghost start = fields_view(fields@);
    let ghost bv = fields_view(body@);
    let mut i: usize = 0;
    while i < body.len()
        invariant
            i <= body.len(),
            bv == fields_view(body@),
            fields_view(fields@) == set_fields(start, bv.subrange(0, i as int)),
        decreases body.len() - i,
    {
        let ghost before = fields_view(fields@);
        set_field_value(fields, body[i].0.clone(), body[i].1.deep_clone());
        proof {
            lemma_fields_view_len(body@);
            let pre = bv.subrange(0, i + 1);
            assert(pre.drop_last() =~= bv.subrange(0, i as int));
            assert(pre.last() == bv[i as int]);
        }
        i = i + 1;
    }
    proof {
        lemma_fields_view_len(body@);
        assert(bv.subrange(0, body.len() as int) =~= bv);
    }
}

/// The value reached from `v` by following the field names of `path`, one
/// object at a time.
pub open spec fn path_lookup(v: JsonV, path: Seq<Seq<char>>) -> Option<JsonV>
    decreases path.len(),
{
    if path.len() == 0 {
        Some(v)
    } else {
        match v {
            JsonV::Object(fs) => match get_field(fs, path[0]) {
                Some(x) => path_lookup(x, path.drop_first()),
                None => None,
            },
            _ => None,
        }
    }
}

/// Follows the field names of `path` from `v`.
pub fn lookup_path<'a>(v: &'a Json, path: &Vec<String>) -> (r: Option<&'a Json>)
    ensures
        match r {
            Some(x) => path_lookup(v@, path@.map_values(|s: String| s@)) == Some(x@),
            None => path_lookup(v@, path@.map_values(|s: String| s@)) == None::<JsonV>,
        },
{
    let ghost pv = path@.map_values(|s: String| s@);
    let mut cur: &Json = v;
    let mut i: usize = 0;
    assert(pv.subrange(0, pv.len() as int) =~= pv);
    while i < path.len()
        invariant
            i <= path.len(),
            pv == path@.map_values(|s: String| s@),
            path_lookup(v@, pv) == path_lookup(cur@, pv.subrange(i as int, pv.len() as int)),
        decreases path.len() - i,
    {
        let ghost rest = pv.subrange(i as int, pv.len() as int);
        assert(rest.drop_first() =~= pv.subrange(i + 1, pv.len() as int));
        assert(rest[0] == path@[i as int]@);
        match cur {
            Json::Object(fields) => {
                assert(cur@ == JsonV::Object(fields_view(fields@))) by {
                    if let JsonV::Object(a) = cur@ {
                        assert(a =~= fields_view(fields@));
                    }
                }
                match field_value(fields, path[i].as_str()) {
                    Some(x) => {
                        cur = x;
                    },
                    None => {
                        return None;
                    },
                }
            },
            _ => {
                return None;
            },
        }
        i = i + 1;
    }
    assert(pv.subrange(i as int, pv.len() as int).len() == 0);
    Some(cur)
}

/// The pieces of `s` between the occurrences of `sep`, as `str::split`
/// gives them: `n` separators make `n + 1` pieces.
pub open spec fn split_spec(s: Seq<char>, sep: char) -> Seq<Seq<char>>
    decreases s.len(),
{
    if s.len() == 0 {
        seq![Seq::<char>::empty()]
    } else {
        let parts = split_spec(s.drop_last(), sep);
        if s.last() == sep {
            parts.push(Seq::<char>::empty())
        } else {
            parts.update(parts.len() - 1, parts.last().push(s.last()))
        }
    }
}

/// Relies on `str::split` with a `char` pattern: the substrings between the
/// separators, in order, empty ones included.
#[verifier::external_body]
pub(crate) fn split_text(s: &str, sep: char) -> (r: Vec<String>)
    ensures
        r@.map_values(|p: String| p@) == split_spec(s@, sep),
{
    s.split(sep).map(String::from).collect()
}

/// The textual form that filters compare against: a string itself, a
/// number's text, `true` or `false`; other values have none.
pub open spec fn text_of(v: JsonV) -> Option<Seq<char>> {
    match v {
        JsonV::Str(s) => Some(s),
        JsonV::Number(t) => Some(t),
        JsonV::Bool(b) => if b {
            Some(seq!['t', 'r', 'u', 'e'])
        } else {
            Some(seq!['f', 'a', 'l', 's', 'e'])
        },
        _ => None,
    }
}

/// Whether the textual form of `v` is `t`.
pub fn text_is(v: &Json, t: &str) -> (r: bool)
    ensures
        r == (text_of(v@) == Some(t@)),
{
    match v {
        Json::Str(s) => text_eq(s.as_str(), t),
        Json::Number(n) => text_eq(n.as_str(), t),
        Json::Bool(b) => {
            if *b {
                proof {
                    reveal_strlit("true");
                }
                let r = text_eq("true", t);
                assert("true"@ =~= seq!['t', 'r', 'u', 'e']);
                r
            } else {
                proof {
                    reveal_strlit("false");
                }
                let r = text_eq("false", t);
                assert("false"@ =~= seq!['f', 'a', 'l', 's', 'e']);
                r
            }
        },
        _ => false,
    }
}


/// The model of a list of values.
pub open spec fn items_view(items: Seq<Json>) -> Seq<JsonV> {
    items.map_values(|j: Json| j@)
}

pub proof fn lemma_object_view(j: Json)
    requires
        j is Object,
    ensures
        j@ == JsonV::Object(fields_view(j->Object_0@)),
{
    if let JsonV::Object(a) = j@ {
        assert(a =~= fields_view(j->Object_0@));
    }
}

pub proof fn lemma_array_view(j: Json)
    requires
        j is Array,
    ensures
        j@ == JsonV::Array(items_view(j->Array_0@)),
{
    if let JsonV::Array(a) = j@ {
        assert(a =~= items_view(j->Array_0@));
    }
}

pub proof fn lemma_get_field_none<V>(fs: Seq<(Seq<char>, V)>, k: Seq<char>)
    requires
        get_field(fs, k) is None,
    ensures
        key_absent_before(fs, k, fs.len() as int),
    decreases fs.len(),
{
    if fs.len() > 0 {
        let rest = fs.drop_first();
        lemma_get_field_none(rest, k);
        assert forall|j: int| 0 <= j < fs.len() implies #[trigger] fs[j].0 != k by {
            if j > 0 {
                assert(fs[j] == rest[j - 1]);
            }
        }
    }
}

/// Setting fields that do not include `g` leaves field `g` as it was.
pub proof fn lemma_set_fields_other(fs: Seq<(Seq<char>, JsonV)>, body: Seq<(Seq<char>, JsonV)>, g: Seq<char>)
    requires
        key_absent_before(body, g, body.len() as int),
    ensures
        get_field(set_fields(fs, body), g) == get_field(fs, g),
    decreases body.len(),
{
    if body.len() > 0 {
        let pre = body.drop_last();
        assert(key_absent_before(pre, g, pre.len() as int)) by {
            assert forall|j: int| 0 <= j < pre.len() implies #[trigger] pre[j].0 != g by {
                assert(pre[j] == body[j]);
            }
        }
        lemma_set_fields_other(fs, pre, g);
        assert(body[body.len() - 1].0 != g);
        lemma_get_set_field(set_fields(fs, pre), body.last().0, body.last().1, g);
    }
}

} // verus!

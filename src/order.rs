use itertools::Itertools;
use vstd::prelude::*;
use vstd::relations::{sorted_by, total_ordering};

verus! {

/// Lexicographic order on strings, character by character. For UTF-8 text this
/// is the order of `String`'s `Ord`, which compares bytes: UTF-8 keeps the
/// order of code points.
pub open spec fn str_le(a: Seq<char>, b: Seq<char>) -> bool
    decreases a.len(),
{
    if a.len() == 0 {
        true
    } else if b.len() == 0 {
        false
    } else if a[0] != b[0] {
        (a[0] as int) < (b[0] as int)
    } else {
        str_le(a.drop_first(), b.drop_first())
    }
}

pub open spec fn str_le_fn() -> spec_fn(Seq<char>, Seq<char>) -> bool {
    |a: Seq<char>, b: Seq<char>| str_le(a, b)
}

/// The keys of `m` in ascending order, each once.
pub open spec fn sorted_keys<V>(m: Map<Seq<char>, V>) -> Seq<Seq<char>> {
    choose|s: Seq<Seq<char>>| is_key_order(s, m.dom())
}

/// `s` lists the members of `keys` in ascending order, each once.
pub open spec fn is_key_order(s: Seq<Seq<char>>, keys: Set<Seq<char>>) -> bool {
    &&& sorted_by(s, str_le_fn())
    &&& s.no_duplicates()
    &&& s.to_set() == keys
}

proof fn lemma_str_le_reflexive(a: Seq<char>)
    ensures
        str_le(a, a),
    decreases a.len(),
{
    if a.len() > 0 {
        lemma_str_le_reflexive(a.drop_first());
    }
}

proof fn lemma_str_le_antisymmetric(a: Seq<char>, b: Seq<char>)
    requires
        str_le(a, b),
        str_le(b, a),
    ensures
        a == b,
    decreases a.len(),
{
    if a.len() > 0 && b.len() > 0 {
        if a[0] == b[0] {
            lemma_str_le_antisymmetric(a.drop_first(), b.drop_first());
            assert(a =~= seq![a[0]] + a.drop_first());
            assert(b =~= seq![b[0]] + b.drop_first());
        } else {
            assert((a[0] as int) != (b[0] as int));
        }
    } else {
        assert(a.len() == 0 && b.len() == 0);
        assert(a =~= b);
    }
}

proof fn lemma_str_le_transitive(a: Seq<char>, b: Seq<char>, c: Seq<char>)
    requires
        str_le(a, b),
        str_le(b, c),
    ensures
        str_le(a, c),
    decreases a.len(),
{
    if a.len() > 0 && b.len() > 0 && c.len() > 0 {
        if a[0] == b[0] && b[0] == c[0] {
            lemma_str_le_transitive(a.drop_first(), b.drop_first(), c.drop_first());
        }
    }
}

proof fn lemma_str_le_total(a: Seq<char>, b: Seq<char>)
    ensures
        str_le(a, b) || str_le(b, a),
    decreases a.len(),
{
    if a.len() > 0 && b.len() > 0 {
        if a[0] == b[0] {
            lemma_str_le_total(a.drop_first(), b.drop_first());
        } else {
            assert((a[0] as int) != (b[0] as int));
        }
    }
}

pub proof fn lemma_str_le_total_ordering()
    ensures
        total_ordering(str_le_fn()),
{
    assert forall|a: Seq<char>| #[trigger] str_le_fn()(a, a) by {
        lemma_str_le_reflexive(a);
    }
    assert forall|a: Seq<char>, b: Seq<char>|
        #[trigger] str_le_fn()(a, b) && #[trigger] str_le_fn()(b, a) implies a == b by {
        lemma_str_le_antisymmetric(a, b);
    }
    assert forall|a: Seq<char>, b: Seq<char>, c: Seq<char>|
        #[trigger] str_le_fn()(a, b) && #[trigger] str_le_fn()(b, c) implies str_le_fn()(
        a,
        c,
    ) by {
        lemma_str_le_transitive(a, b, c);
    }
    assert forall|a: Seq<char>, b: Seq<char>|
        #[trigger] str_le_fn()(a, b) || #[trigger] str_le_fn()(b, a) by {
        lemma_str_le_total(a, b);
    }
}

proof fn lemma_no_dup_multiset(s: Seq<Seq<char>>, x: Seq<char>)
    requires
        s.no_duplicates(),
    ensures
        s.to_multiset().count(x) == if s.contains(x) {
            1nat
        } else {
            0nat
        },
{
    broadcast use vstd::seq_lib::group_to_multiset_ensures;

    s.lemma_multiset_has_no_duplicates();
}

/// Any sequence that lists the keys of `m` in ascending order, each once, is
/// `sorted_keys(m)`.
pub proof fn lemma_sorted_keys_unique<V>(s: Seq<Seq<char>>, m: Map<Seq<char>, V>)
    requires
        is_key_order(s, m.dom()),
    ensures
        sorted_keys(m) == s,
{
    let c = sorted_keys(m);
    assert(is_key_order(c, m.dom()));
    assert(c.to_multiset() =~= s.to_multiset()) by {
        assert forall|x: Seq<char>| c.to_multiset().count(x) == s.to_multiset().count(x) by {
            lemma_no_dup_multiset(c, x);
            lemma_no_dup_multiset(s, x);
            assert(c.contains(x) == c.to_set().contains(x));
            assert(s.contains(x) == s.to_set().contains(x));
        }
    }
    lemma_str_le_total_ordering();
    vstd::seq_lib::lemma_sorted_unique(c, s, str_le_fn());
}

/// A permutation of a list without duplicates has none and has the same set.
pub proof fn lemma_perm_keeps_set(a: Seq<Seq<char>>, b: Seq<Seq<char>>)
    requires
        a.no_duplicates(),
        b.to_multiset() == a.to_multiset(),
    ensures
        b.no_duplicates(),
        b.to_set() == a.to_set(),
{
    broadcast use vstd::seq_lib::group_to_multiset_ensures;

    a.lemma_multiset_has_no_duplicates();
    b.lemma_multiset_has_no_duplicates_conv();
    assert forall|x: Seq<char>| b.to_set().contains(x) == a.to_set().contains(x) by {
        assert(b.contains(x) == (b.to_multiset().count(x) > 0));
        assert(a.contains(x) == (a.to_multiset().count(x) > 0));
    }
    assert(b.to_set() =~= a.to_set());
}

proof fn lemma_to_seq_no_duplicates(keys: Set<Seq<char>>)
    requires
        keys.finite(),
    ensures
        keys.to_seq().no_duplicates(),
        keys.to_seq().to_set() == keys,
    decreases keys.len(),
{
    keys.lemma_to_seq_to_set_id();
    if keys.len() > 0 {
        let x = keys.choose();
        let rest = keys.remove(x);
        lemma_to_seq_no_duplicates(rest);
        let t = keys.to_seq();
        assert(t == Seq::<Seq<char>>::empty().push(x) + rest.to_seq());
        assert(!rest.to_seq().contains(x)) by {
            if rest.to_seq().contains(x) {
                assert(rest.to_seq().to_set().contains(x));
            }
        }
        assert forall|i: int, j: int| 0 <= i < t.len() && 0 <= j < t.len() && i != j implies t[i]
            != t[j] by {
            if i == 0 && j > 0 {
                assert(t[j] == rest.to_seq()[j - 1]);
            } else if j == 0 && i > 0 {
                assert(t[i] == rest.to_seq()[i - 1]);
            } else if i > 0 && j > 0 {
                assert(t[i] == rest.to_seq()[i - 1]);
                assert(t[j] == rest.to_seq()[j - 1]);
            }
        }
    }
}

/// A map with finitely many keys has its keys in ascending order.
pub proof fn lemma_sorted_keys_exist<V>(m: Map<Seq<char>, V>)
    requires
        m.dom().finite(),
    ensures
        is_key_order(sorted_keys(m), m.dom()),
{
    lemma_str_le_total_ordering();
    let t = m.dom().to_seq();
    lemma_to_seq_no_duplicates(m.dom());
    t.lemma_sort_by_ensures(str_le_fn());
    let w = t.sort_by(str_le_fn());
    lemma_perm_keeps_set(t, w);
    assert(is_key_order(w, m.dom()));
}

/// The keys of a list of entries, in ascending order.
pub fn sorted_entry_keys<V>(s: &Vec<(String, V)>) -> (r: Vec<String>)
    requires
        s@.map_values(|e: (String, V)| e.0@).no_duplicates(),
    ensures
        is_key_order(
            r@.map_values(|t: String| t@),
            s@.map_values(|e: (String, V)| e.0@).to_set(),
        ),
{
    let ghost keys = s@.map_values(|e: (String, V)| e.0@);
    let mut ids: Vec<String> = Vec::new();
    let mut i: usize = 0;
    while i < s.len()
        invariant
            i <= s.len(),
            keys == s@.map_values(|e: (String, V)| e.0@),
            ids@.map_values(|t: String| t@) == keys.subrange(0, i as int),
        decreases s.len() - i,
    {
        let ghost before = ids@;
        let key = s[i].0.clone();
        ids.push(key);
        assert(ids@.map_values(|t: String| t@) =~= before.map_values(|t: String| t@).push(key@));
        assert(keys.subrange(0, i + 1) =~= keys.subrange(0, i as int).push(keys[i as int]));
        i = i + 1;
    }
    assert(keys.subrange(0, s.len() as int) =~= keys);
    let r = sorted_texts(ids);
    proof {
        lemma_perm_keeps_set(keys, r@.map_values(|t: String| t@));
    }
    r
}

/// Relies on `itertools::Itertools::sorted`: the same strings, ascending by
/// `String`'s `Ord`.
#[verifier::external_body]
pub(crate) fn sorted_texts(v: Vec<String>) -> (r: Vec<String>)
    ensures
        r@.map_values(|s: String| s@).to_multiset() == v@.map_values(|s: String| s@).to_multiset(),
        sorted_by(r@.map_values(|s: String| s@), str_le_fn()),
{
    v.into_iter().sorted().collect()
}

} // verus!

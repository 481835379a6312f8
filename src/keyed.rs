use vstd::prelude::*;

verus! {

/// No two entries share a key.
pub open spec fn unique_keys<V>(s: Seq<(Seq<char>, V)>) -> bool {
    forall|i: int, j: int| 0 <= i < s.len() && 0 <= j < s.len() && i != j ==> s[i].0 != s[j].0
}

/// Some entry has key `k`.
pub open spec fn has_key<V>(s: Seq<(Seq<char>, V)>, k: Seq<char>) -> bool {
    exists|i: int| 0 <= i < s.len() && s[i].0 == k
}

/// The map that a list of keyed entries stands for.
pub open spec fn seq_to_map<V>(s: Seq<(Seq<char>, V)>) -> Map<Seq<char>, V> {
    Map::new(
        |k: Seq<char>| has_key(s, k),
        |k: Seq<char>| s[choose|i: int| 0 <= i < s.len() && s[i].0 == k].1,
    )
}

pub proof fn lemma_map_at<V>(s: Seq<(Seq<char>, V)>, i: int)
    requires
        unique_keys(s),
        0 <= i < s.len(),
    ensures
        seq_to_map(s).contains_key(s[i].0),
        seq_to_map(s)[s[i].0] == s[i].1,
{
    assert(has_key(s, s[i].0));
    let j = choose|j: int| 0 <= j < s.len() && s[j].0 == s[i].0;
    assert(i == j);
}

pub proof fn lemma_map_absent<V>(s: Seq<(Seq<char>, V)>, k: Seq<char>)
    requires
        forall|i: int| 0 <= i < s.len() ==> #[trigger] s[i].0 != k,
    ensures
        !seq_to_map(s).contains_key(k),
{
}

pub proof fn lemma_map_push<V>(s: Seq<(Seq<char>, V)>, k: Seq<char>, v: V)
    requires
        unique_keys(s),
        !seq_to_map(s).contains_key(k),
    ensures
        unique_keys(s.push((k, v))),
        seq_to_map(s.push((k, v))) == seq_to_map(s).insert(k, v),
{
    let t = s.push((k, v));
    assert forall|i: int| 0 <= i < s.len() implies #[trigger] s[i].0 != k by {
        if s[i].0 == k {
            assert(has_key(s, k));
        }
    }
    assert(unique_keys(t));
    let m = seq_to_map(s).insert(k, v);
    assert forall|x: Seq<char>| #[trigger] seq_to_map(t).contains_key(x) == m.contains_key(x) by {
        if has_key(s, x) {
            let i = choose|i: int| 0 <= i < s.len() && s[i].0 == x;
            assert(t[i] == s[i]);
        }
        if has_key(t, x) && x != k {
            let i = choose|i: int| 0 <= i < t.len() && t[i].0 == x;
            assert(s[i] == t[i]);
        }
        if x == k {
            assert(t[s.len() as int].0 == k);
        }
    }
    assert forall|x: Seq<char>| #[trigger] seq_to_map(t).contains_key(x) implies seq_to_map(t)[x]
        == m[x] by {
        let i = choose|i: int| 0 <= i < t.len() && t[i].0 == x;
        lemma_map_at(t, i);
        if i < s.len() {
            assert(t[i] == s[i]);
            lemma_map_at(s, i);
        }
    }
    assert(seq_to_map(t) =~= m);
}

pub proof fn lemma_map_update<V>(s: Seq<(Seq<char>, V)>, i: int, v: V)
    requires
        unique_keys(s),
        0 <= i < s.len(),
    ensures
        unique_keys(s.update(i, (s[i].0, v))),
        seq_to_map(s.update(i, (s[i].0, v))) == seq_to_map(s).insert(s[i].0, v),
{
    let k = s[i].0;
    let t = s.update(i, (k, v));
    assert(unique_keys(t)) by {
        assert forall|a: int, b: int|
            0 <= a < t.len() && 0 <= b < t.len() && a != b implies t[a].0 != t[b].0 by {
            assert(t[a].0 == s[a].0);
            assert(t[b].0 == s[b].0);
        }
    }
    let m = seq_to_map(s).insert(k, v);
    assert forall|x: Seq<char>| #[trigger] seq_to_map(t).contains_key(x) == m.contains_key(x) by {
        if has_key(s, x) {
            let j = choose|j: int| 0 <= j < s.len() && s[j].0 == x;
            assert(t[j].0 == x);
        }
        if has_key(t, x) {
            let j = choose|j: int| 0 <= j < t.len() && t[j].0 == x;
            assert(s[j].0 == x);
        }
    }
    assert forall|x: Seq<char>| #[trigger] seq_to_map(t).contains_key(x) implies seq_to_map(t)[x]
        == m[x] by {
        let j = choose|j: int| 0 <= j < t.len() && t[j].0 == x;
        lemma_map_at(t, j);
        if j != i {
            lemma_map_at(s, j);
        }
    }
    assert(seq_to_map(t) =~= m);
}

pub proof fn lemma_map_remove<V>(s: Seq<(Seq<char>, V)>, i: int)
    requires
        unique_keys(s),
        0 <= i < s.len(),
    ensures
        unique_keys(s.remove(i)),
        seq_to_map(s.remove(i)) == seq_to_map(s).remove(s[i].0),
{
    let k = s[i].0;
    let t = s.remove(i);
    assert forall|a: int| 0 <= a < t.len() implies #[trigger] t[a] == s[if a < i {
        a
    } else {
        a + 1
    }] by {}
    assert(unique_keys(t)) by {
        assert forall|a: int, b: int|
            0 <= a < t.len() && 0 <= b < t.len() && a != b implies t[a].0 != t[b].0 by {
            let a1 = if a < i {
                a
            } else {
                a + 1
            };
            let b1 = if b < i {
                b
            } else {
                b + 1
            };
            assert(t[a] == s[a1]);
            assert(t[b] == s[b1]);
        }
    }
    let m = seq_to_map(s).remove(k);
    assert forall|x: Seq<char>| #[trigger] seq_to_map(t).contains_key(x) == m.contains_key(x) by {
        if has_key(s, x) && x != k {
            let j = choose|j: int| 0 <= j < s.len() && s[j].0 == x;
            assert(j != i);
            let j1 = if j < i {
                j
            } else {
                j - 1
            };
            assert(t[j1] == s[j]);
        }
        if has_key(t, x) {
            let j = choose|j: int| 0 <= j < t.len() && t[j].0 == x;
            let j1 = if j < i {
                j
            } else {
                j + 1
            };
            assert(t[j] == s[j1]);
            assert(j1 != i);
        }
    }
    assert forall|x: Seq<char>| #[trigger] seq_to_map(t).contains_key(x) implies seq_to_map(t)[x]
        == m[x] by {
        let j = choose|j: int| 0 <= j < t.len() && t[j].0 == x;
        let j1 = if j < i {
            j
        } else {
            j + 1
        };
        assert(t[j] == s[j1]);
        lemma_map_at(t, j);
        lemma_map_at(s, j1);
    }
    assert(seq_to_map(t) =~= m);
}

/// The keys of the entries, as a set, are the map's domain.
pub proof fn lemma_map_dom<V>(s: Seq<(Seq<char>, V)>)
    ensures
        seq_to_map(s).dom() == s.map_values(|e: (Seq<char>, V)| e.0).to_set(),
{
    let ks = s.map_values(|e: (Seq<char>, V)| e.0);
    assert forall|x: Seq<char>| seq_to_map(s).dom().contains(x) == ks.to_set().contains(x) by {
        if has_key(s, x) {
            let j = choose|j: int| 0 <= j < s.len() && s[j].0 == x;
            assert(ks[j] == x);
        }
        if ks.contains(x) {
            let j = choose|j: int| 0 <= j < ks.len() && ks[j] == x;
            assert(s[j].0 == x);
        }
    }
    assert(seq_to_map(s).dom() =~= ks.to_set());
}

/// The position of the entry with key `k`.
pub fn key_position<V>(s: &Vec<(String, V)>, k: &str) -> (r: Option<usize>)
    ensures
        match r {
            Some(i) => {
                &&& i < s.len()
                &&& s@[i as int].0@ == k@
                &&& forall|j: int| 0 <= j < i ==> (#[trigger] s@[j]).0@ != k@
            },
            None => forall|i: int| 0 <= i < s.len() ==> (#[trigger] s@[i]).0@ != k@,
        },
{
    let mut i: usize = 0;
    while i < s.len()
        invariant
            i <= s.len(),
            forall|j: int| 0 <= j < i ==> (#[trigger] s@[j]).0@ != k@,
        decreases s.len() - i,
    {
        if crate::json::text_eq(s[i].0.as_str(), k) {
            return Some(i);
        }
        i = i + 1;
    }
    None
}

} // verus!

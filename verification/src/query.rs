//! Query strings: `?a=1&b=2&a=3` read as a multimap {"a":["1","3"], "b":["2"]}.
use vstd::prelude::*;
use vstd::string::*;
use crate::text::{split_on, split_pieces, str_eq, str_views, string_views};

verus! {

/// Splits `p` at the first occurrence of `c`, as `str::split_once` does.
pub open spec fn split_first(p: Seq<char>, c: char) -> Option<(Seq<char>, Seq<char>)>
    decreases p.len(),
{
    if p.len() == 0 {
        None
    } else if p[0] == c {
        Some((Seq::<char>::empty(), p.drop_first()))
    } else {
        match split_first(p.drop_first(), c) {
            Some(kv) => Some((seq![p[0]] + kv.0, kv.1)),
            None => None,
        }
    }
}

proof fn lemma_split_first_at(p: Seq<char>, c: char, j: int)
    requires
        0 <= j < p.len(),
        p[j] == c,
        forall|t: int| 0 <= t < j ==> p[t] != c,
    ensures
        split_first(p, c) == Some((p.take(j), p.skip(j + 1))),
    decreases j,
{
    if j == 0 {
        assert(p.take(0) =~= Seq::<char>::empty());
        assert(p.skip(1) =~= p.drop_first());
    } else {
        let q = p.drop_first();
        assert forall|t: int| 0 <= t < j - 1 implies q[t] != c by {
            assert(q[t] == p[t + 1]);
        }
        lemma_split_first_at(q, c, j - 1);
        assert(seq![p[0]] + q.take(j - 1) =~= p.take(j));
        assert(q.skip(j) =~= p.skip(j + 1));
    }
}

proof fn lemma_split_first_none(p: Seq<char>, c: char)
    requires
        forall|t: int| 0 <= t < p.len() ==> p[t] != c,
    ensures
        split_first(p, c) is None,
    decreases p.len(),
{
    if p.len() > 0 {
        let q = p.drop_first();
        assert forall|t: int| 0 <= t < q.len() implies q[t] != c by {
            assert(q[t] == p[t + 1]);
        }
        lemma_split_first_none(q, c);
    }
}

/// Splits `s` at the first occurrence of `c`; `None` when `c` does not occur.
pub fn split_once<'a>(s: &'a str, c: char) -> (r: Option<(&'a str, &'a str)>)
    ensures
        match r {
            Some((a, b)) => split_first(s@, c) == Some((a@, b@)),
            None => split_first(s@, c) is None,
        },
{
    let n = s.unicode_len();
    let mut j: usize = 0;
    while j < n
        invariant
            n == s@.len(),
            j <= n,
            forall|t: int| 0 <= t < j ==> s@[t] != c,
        decreases n - j,
    {
        if s.get_char(j) == c {
            proof {
                lemma_split_first_at(s@, c, j as int);
            }
            let a = s.substring_char(0, j);
            let b = s.substring_char(j + 1, n);
            assert(a@ =~= s@.take(j as int));
            assert(b@ =~= s@.skip(j + 1));
            return Some((a, b));
        }
        j = j + 1;
    }
    proof {
        lemma_split_first_none(s@, c);
    }
    None
}

/// The (key, value) pairs of the query pieces that hold a `=`, in order.
pub open spec fn query_entries(pieces: Seq<Seq<char>>) -> Seq<(Seq<char>, Seq<char>)>
    decreases pieces.len(),
{
    if pieces.len() == 0 {
        Seq::empty()
    } else {
        let rest = query_entries(pieces.drop_last());
        match split_first(pieces.last(), '=') {
            Some(kv) => rest.push(kv),
            None => rest,
        }
    }
}

/// The values of `key` among the entries, in order of appearance.
pub open spec fn values_for(es: Seq<(Seq<char>, Seq<char>)>, key: Seq<char>) -> Seq<Seq<char>>
    decreases es.len(),
{
    if es.len() == 0 {
        Seq::empty()
    } else {
        let rest = values_for(es.drop_last(), key);
        if es.last().0 == key {
            rest.push(es.last().1)
        } else {
            rest
        }
    }
}

/// The multimap of the entries: each key that occurs maps to all its values in order.
pub open spec fn multimap_of(es: Seq<(Seq<char>, Seq<char>)>) -> Map<Seq<char>, Seq<Seq<char>>> {
    Map::new(|k: Seq<char>| values_for(es, k).len() > 0, |k: Seq<char>| values_for(es, k))
}

/// The query parameters of a request: every key with all of its values.
pub struct QueryParams {
    entries: Vec<(String, String)>,
}

impl QueryParams {
    /// The (key, value) entries in the order they appeared.
    pub closed spec fn entries(&self) -> Seq<(Seq<char>, Seq<char>)> {
        self.entries@.map_values(|e: (String, String)| (e.0@, e.1@))
    }

    /// No parameters.
    pub fn new() -> (r: Self)
        ensures
            r.entries() == Seq::<(Seq<char>, Seq<char>)>::empty(),
            r@ == Map::<Seq<char>, Seq<Seq<char>>>::empty(),
    {
        let r = QueryParams { entries: Vec::new() };
        assert(r.entries() =~= Seq::<(Seq<char>, Seq<char>)>::empty());
        assert(r@ =~= Map::<Seq<char>, Seq<Seq<char>>>::empty());
        r
    }

    /// All values of `key`, in order of appearance; `None` when the key does not occur.
    pub fn get(&self, key: &str) -> (r: Option<Vec<String>>)
        ensures
            r is Some == self@.contains_key(key@),
            r matches Some(v) ==> string_views(v@) == self@[key@],
    {
        let mut out: Vec<String> = Vec::new();
        let mut i: usize = 0;
        assert(self.entries().take(0) =~= Seq::<(Seq<char>, Seq<char>)>::empty());
        assert(string_views(out@) =~= Seq::<Seq<char>>::empty());
        while i < self.entries.len()
            invariant
                i <= self.entries@.len(),
                string_views(out@) == values_for(self.entries().take(i as int), key@),
            decreases self.entries@.len() - i,
        {
            let e = &self.entries[i];
            let ghost before = out@;
            assert(self.entries().take(i + 1).drop_last() =~= self.entries().take(i as int));
            assert(self.entries().take(i + 1).last() == (e.0@, e.1@));
            if str_eq(e.0.as_str(), key) {
                out.push(e.1.clone());
                assert(string_views(out@) =~= string_views(before).push(e.1@));
            }
            i = i + 1;
        }
        assert(self.entries().take(self.entries@.len() as int) =~= self.entries());
        if out.len() == 0 {
            None
        } else {
            Some(out)
        }
    }

    /// Whether no parameter was given.
    pub fn is_empty(&self) -> (r: bool)
        ensures
            r == (self@.dom() == Set::<Seq<char>>::empty()),
    {
        if self.entries.len() == 0 {
            assert(self@.dom() =~= Set::<Seq<char>>::empty());
            true
        } else {
            let ghost last = self.entries().last();
            assert(self.entries().drop_last().push(last) =~= self.entries());
            assert(values_for(self.entries(), last.0).len() > 0);
            assert(self@.dom().contains(last.0));
            false
        }
    }
}

impl View for QueryParams {
    type V = Map<Seq<char>, Seq<Seq<char>>>;

    open spec fn view(&self) -> Map<Seq<char>, Seq<Seq<char>>> {
        multimap_of(self.entries())
    }
}

/// Parses a query string into a multimap. `a=1&b=2&a=3` → {"a":["1","3"], "b":["2"]}.
/// Pieces between `&` without a `=` are ignored; a piece is split at its first `=`.
pub fn parse_query_params(query: &str) -> (r: QueryParams)
    ensures
        r.entries() == query_entries(split_on(query@, '&')),
        r@ == multimap_of(query_entries(split_on(query@, '&'))),
{
    let pieces = split_pieces(query, '&');
    let mut r = QueryParams { entries: Vec::new() };
    let mut i: usize = 0;
    assert(str_views(pieces@).take(0) =~= Seq::<Seq<char>>::empty());
    assert(r.entries() =~= Seq::<(Seq<char>, Seq<char>)>::empty());
    while i < pieces.len()
        invariant
            i <= pieces@.len(),
            str_views(pieces@) == split_on(query@, '&'),
            r.entries() == query_entries(str_views(pieces@).take(i as int)),
        decreases pieces@.len() - i,
    {
        let p = pieces[i];
        assert(str_views(pieces@).take(i + 1).drop_last() =~= str_views(pieces@).take(i as int));
        assert(str_views(pieces@).take(i + 1).last() == p@);
        let ghost before = r.entries();
        match split_once(p, '=') {
            Some((k, v)) => {
                r.entries.push((String::from_str(k), String::from_str(v)));
                assert(r.entries() =~= before.push((k@, v@)));
            },
            None => {},
        }
        i = i + 1;
    }
    assert(str_views(pieces@).take(pieces@.len() as int) =~= str_views(pieces@));
    r
}

/// Entry `i` has key `key` and value `value`.
pub open spec fn entry_is(es: Seq<(Seq<char>, Seq<char>)>, i: int, key: Seq<char>, value: Seq<char>) -> bool {
    0 <= i < es.len() && es[i].0 == key && es[i].1 == value
}

/// Some entry has key `key` and value `value`.
pub open spec fn has_entry(es: Seq<(Seq<char>, Seq<char>)>, key: Seq<char>, value: Seq<char>) -> bool {
    exists|i: int| #[trigger] entry_is(es, i, key, value)
}

proof fn lemma_values_for_sources(es: Seq<(Seq<char>, Seq<char>)>, key: Seq<char>)
    ensures
        forall|j: int|
            0 <= j < values_for(es, key).len() ==> has_entry(es, key, #[trigger] values_for(es, key)[j]),
        forall|i: int|
            0 <= i < es.len() && (#[trigger] es[i]).0 == key ==> values_for(es, key).contains(es[i].1),
    decreases es.len(),
{
    if es.len() > 0 {
        let d = es.drop_last();
        lemma_values_for_sources(d, key);
        assert forall|j: int|
            0 <= j < values_for(es, key).len() implies has_entry(es, key, #[trigger] values_for(es, key)[j]) by {
            if j < values_for(d, key).len() {
                assert(values_for(es, key)[j] == values_for(d, key)[j]);
                assert(has_entry(d, key, values_for(d, key)[j]));
                let i = choose|i: int| #[trigger] entry_is(d, i, key, values_for(d, key)[j]);
                assert(es[i] == d[i]);
                assert(entry_is(es, i, key, values_for(es, key)[j]));
            } else {
                assert(es.last().0 == key);
                assert(values_for(es, key)[j] == es.last().1);
                assert(entry_is(es, es.len() - 1, key, values_for(es, key)[j]));
            }
        }
        assert forall|i: int| 0 <= i < es.len() && (#[trigger] es[i]).0 == key implies values_for(
            es,
            key,
        ).contains(es[i].1) by {
            if i < es.len() - 1 {
                assert(d[i] == es[i]);
                assert(values_for(d, key).contains(es[i].1));
                let j = choose|j: int|
                    0 <= j < values_for(d, key).len() && values_for(d, key)[j] == es[i].1;
                assert(values_for(es, key)[j] == values_for(d, key)[j]);
            } else {
                assert(values_for(es, key).last() == es[i].1);
            }
        }
    }
}

/// Law: the multimap holds exactly the keys that occur in the entries, each
/// key's values come from entries with that very key, and every value of an
/// entry is among the values of its key.
pub proof fn law_query_keys_exact(es: Seq<(Seq<char>, Seq<char>)>, key: Seq<char>)
    ensures
        multimap_of(es).contains_key(key) <==> exists|i: int| 0 <= i < es.len() && (#[trigger] es[i]).0 == key,
        multimap_of(es).contains_key(key) ==> forall|j: int|
            0 <= j < multimap_of(es)[key].len() ==> has_entry(es, key, #[trigger] multimap_of(es)[key][j]),
        forall|i: int|
            0 <= i < es.len() && (#[trigger] es[i]).0 == key ==> multimap_of(es).contains_key(key)
                && multimap_of(es)[key].contains(es[i].1),
{
    lemma_values_for_sources(es, key);
    if exists|i: int| 0 <= i < es.len() && (#[trigger] es[i]).0 == key {
        let i = choose|i: int| 0 <= i < es.len() && (#[trigger] es[i]).0 == key;
        assert(values_for(es, key).contains(es[i].1));
    }
    if values_for(es, key).len() > 0 {
        assert(has_entry(es, key, values_for(es, key)[0]));
        let i = choose|i: int| #[trigger] entry_is(es, i, key, values_for(es, key)[0]);
        assert(es[i].0 == key);
        assert(multimap_of(es)[key] == values_for(es, key));
    }
}

} // verus!

//! Path patterns: matching a request path against a pattern whose `:name`
//! segments are wildcards, and reading the values bound to those wildcards.
use vstd::prelude::*;
use vstd::string::*;
use crate::text::{
    lemma_split_on_len, segments, split_on, split_segments, starts_with_char, str_eq, str_views,
};

verus! {

/// A pattern segment that starts with `:` matches any path segment.
pub open spec fn is_param_segment(seg: Seq<char>) -> bool {
    seg.len() > 0 && seg[0] == ':'
}

/// The name of a parameter segment: the segment without its leading `:`.
pub open spec fn param_name(seg: Seq<char>) -> Seq<char> {
    seg.drop_first()
}

/// Pattern segments `pp` accept path segments `sp`: same count, and each
/// pattern segment is a wildcard or equal to the path segment at its position.
pub open spec fn segments_match(pp: Seq<Seq<char>>, sp: Seq<Seq<char>>) -> bool {
    &&& pp.len() == sp.len()
    &&& forall|i: int| 0 <= i < pp.len() ==> is_param_segment(#[trigger] pp[i]) || pp[i] == sp[i]
}

/// `path` is accepted by `pattern`; empty segments (from repeated, leading or
/// trailing slashes) are ignored on both sides.
pub open spec fn pattern_matches(pattern: Seq<char>, path: Seq<char>) -> bool {
    segments_match(segments(pattern), segments(path))
}

/// Whether `path` is accepted by `pattern`.
pub fn matches_pattern(pattern: &str, path: &str) -> (r: bool)
    ensures
        r == pattern_matches(pattern@, path@),
{
    let pp = split_segments(pattern);
    let sp = split_segments(path);
    if pp.len() != sp.len() {
        return false;
    }
    let mut i: usize = 0;
    while i < pp.len()
        invariant
            pp.len() == sp.len(),
            str_views(pp@) == segments(pattern@),
            str_views(sp@) == segments(path@),
            i <= pp.len(),
            forall|j: int|
                0 <= j < i ==> is_param_segment(#[trigger] segments(pattern@)[j]) || segments(
                    pattern@,
                )[j] == segments(path@)[j],
        decreases pp.len() - i,
    {
        let p = pp[i];
        let s = sp[i];
        assert(segments(pattern@)[i as int] == p@);
        assert(segments(path@)[i as int] == s@);
        if !(starts_with_char(p, ':') || str_eq(p, s)) {
            return false;
        }
        i = i + 1;
    }
    true
}

/// The value bound last to `name` in a sequence of (name, value) bindings.
pub open spec fn last_binding(es: Seq<(Seq<char>, Seq<char>)>, name: Seq<char>) -> Option<Seq<char>>
    decreases es.len(),
{
    if es.len() == 0 {
        None
    } else if es.last().0 == name {
        Some(es.last().1)
    } else {
        last_binding(es.drop_last(), name)
    }
}

/// The map that results from inserting the bindings in order: a later binding
/// of a name replaces an earlier one.
pub open spec fn bindings_map(es: Seq<(Seq<char>, Seq<char>)>) -> Map<Seq<char>, Seq<char>> {
    Map::new(|k: Seq<char>| last_binding(es, k) is Some, |k: Seq<char>| last_binding(es, k)->0)
}

/// The bindings made by the first `k` positions of pattern segments `pp`
/// against path segments `sp`: one binding per wildcard, in order.
pub open spec fn param_bindings(pp: Seq<Seq<char>>, sp: Seq<Seq<char>>, k: nat) -> Seq<
    (Seq<char>, Seq<char>),
>
    decreases k,
{
    if k == 0 {
        Seq::empty()
    } else {
        let rest = param_bindings(pp, sp, (k - 1) as nat);
        if is_param_segment(pp[k - 1]) {
            rest.push((param_name(pp[k - 1]), sp[k - 1]))
        } else {
            rest
        }
    }
}

/// The bindings of the wildcards of `pattern` to the segments of `path`,
/// position by position over the shorter of the two segment lists.
pub open spec fn path_bindings(pattern: Seq<char>, path: Seq<char>) -> Seq<(Seq<char>, Seq<char>)> {
    let pp = segments(pattern);
    let sp = segments(path);
    param_bindings(pp, sp, if pp.len() <= sp.len() { pp.len() } else { sp.len() })
}

/// Named path parameters: a map from parameter name to path segment.
pub struct PathParams<'a> {
    entries: Vec<(&'a str, &'a str)>,
}

impl<'a> PathParams<'a> {
    /// The bindings in the order they were made.
    pub closed spec fn bindings(&self) -> Seq<(Seq<char>, Seq<char>)> {
        self.entries@.map_values(|e: (&'a str, &'a str)| (e.0@, e.1@))
    }

    /// An empty parameter map.
    pub fn new() -> (r: Self)
        ensures
            r.bindings() == Seq::<(Seq<char>, Seq<char>)>::empty(),
            r@ == Map::<Seq<char>, Seq<char>>::empty(),
    {
        let r = PathParams { entries: Vec::new() };
        assert(r.bindings() =~= Seq::<(Seq<char>, Seq<char>)>::empty());
        assert(r@ =~= Map::<Seq<char>, Seq<char>>::empty());
        r
    }

    /// Binds `name` to `value`, replacing an earlier value of `name`.
    pub fn insert(&mut self, name: &'a str, value: &'a str)
        ensures
            final(self).bindings() == old(self).bindings().push((name@, value@)),
            final(self)@ == old(self)@.insert(name@, value@),
    {
        self.entries.push((name, value));
        assert(self.bindings() =~= old(self).bindings().push((name@, value@)));
        assert(self.bindings().drop_last() =~= old(self).bindings());
        assert(self@ =~= old(self)@.insert(name@, value@));
    }

    /// The value bound to `name`, if any.
    pub fn get(&self, name: &str) -> (r: Option<&'a str>)
        ensures
            r is Some == self@.contains_key(name@),
            r matches Some(v) ==> self@[name@] == v@,
    {
        let mut i = self.entries.len();
        assert(self.bindings().take(i as int) =~= self.bindings());
        while i > 0
            invariant
                i <= self.entries@.len(),
                last_binding(self.bindings(), name@) == last_binding(
                    self.bindings().take(i as int),
                    name@,
                ),
            decreases i,
        {
            let e = self.entries[i - 1];
            assert(self.bindings().take(i as int).last() == (e.0@, e.1@));
            assert(self.bindings().take(i as int).drop_last() =~= self.bindings().take(i - 1));
            if str_eq(e.0, name) {
                return Some(e.1);
            }
            i = i - 1;
        }
        None
    }

    /// Whether no parameter is bound.
    pub fn is_empty(&self) -> (r: bool)
        ensures
            r == (self@.dom() == Set::<Seq<char>>::empty()),
    {
        let n = self.entries.len();
        if n == 0 {
            assert(self@.dom() =~= Set::<Seq<char>>::empty());
            true
        } else {
            let ghost last = self.bindings().last();
            assert(last_binding(self.bindings(), last.0) is Some);
            assert(self@.dom().contains(last.0));
            false
        }
    }
}

impl<'a> View for PathParams<'a> {
    type V = Map<Seq<char>, Seq<char>>;

    open spec fn view(&self) -> Map<Seq<char>, Seq<char>> {
        bindings_map(self.bindings())
    }
}

/// Extracts named path parameters: each `:name` segment of `pattern` binds
/// `name` to the segment of `path` at the same position.
/// e.g. pattern="/users/:id/posts/:pid", path="/users/42/posts/7" → {"id":"42","pid":"7"}
pub fn extract_path_params<'a>(pattern: &'a str, path: &'a str) -> (r: PathParams<'a>)
    ensures
        r.bindings() == path_bindings(pattern@, path@),
        r@ == bindings_map(path_bindings(pattern@, path@)),
{
    let pp = split_segments(pattern);
    let sp = split_segments(path);
    let n = if pp.len() <= sp.len() {
        pp.len()
    } else {
        sp.len()
    };
    let mut params = PathParams::new();
    let mut i: usize = 0;
    while i < n
        invariant
            n <= pp.len(),
            n <= sp.len(),
            n == (if pp@.len() <= sp@.len() {
                pp@.len()
            } else {
                sp@.len()
            }),
            str_views(pp@) == segments(pattern@),
            str_views(sp@) == segments(path@),
            i <= n,
            params.bindings() == param_bindings(segments(pattern@), segments(path@), i as nat),
        decreases n - i,
    {
        let p = pp[i];
        let s = sp[i];
        assert(segments(pattern@)[i as int] == p@);
        assert(segments(path@)[i as int] == s@);
        if starts_with_char(p, ':') {
            let name = p.substring_char(1, p.unicode_len());
            assert(name@ =~= param_name(p@));
            params.insert(name, s);
        }
        i = i + 1;
    }
    params
}

/// Law: a trailing slash does not change the segments of a path or pattern.
pub proof fn law_trailing_slash_ignored(s: Seq<char>)
    ensures
        segments(s.push('/')) == segments(s),
{
    assert(s.push('/').drop_last() =~= s);
    lemma_split_on_len(s, '/');
    assert(split_on(s.push('/'), '/') == split_on(s, '/').push(Seq::<char>::empty()));
    assert(split_on(s.push('/'), '/').drop_last() =~= split_on(s, '/'));
}

/// Law: every path is accepted by itself used as a pattern.
pub proof fn law_path_matches_itself(path: Seq<char>)
    ensures
        pattern_matches(path, path),
{
}

proof fn lemma_no_wildcard_no_bindings(pp: Seq<Seq<char>>, sp: Seq<Seq<char>>, k: nat)
    requires
        k <= pp.len(),
        forall|i: int| 0 <= i < pp.len() ==> !is_param_segment(#[trigger] pp[i]),
    ensures
        param_bindings(pp, sp, k) == Seq::<(Seq<char>, Seq<char>)>::empty(),
    decreases k,
{
    if k > 0 {
        lemma_no_wildcard_no_bindings(pp, sp, (k - 1) as nat);
        assert(!is_param_segment(pp[k - 1]));
    }
}

/// Law: a pattern without wildcard segments binds no parameter.
pub proof fn law_no_wildcards_no_params(pattern: Seq<char>, path: Seq<char>)
    requires
        forall|i: int|
            0 <= i < segments(pattern).len() ==> !is_param_segment(#[trigger] segments(pattern)[i]),
    ensures
        bindings_map(path_bindings(pattern, path)) == Map::<Seq<char>, Seq<char>>::empty(),
{
    let pp = segments(pattern);
    let sp = segments(path);
    let n = if pp.len() <= sp.len() {
        pp.len()
    } else {
        sp.len()
    };
    lemma_no_wildcard_no_bindings(pp, sp, n);
    assert(bindings_map(path_bindings(pattern, path)) =~= Map::<Seq<char>, Seq<char>>::empty());
}

proof fn lemma_binding_of_wildcard(pp: Seq<Seq<char>>, sp: Seq<Seq<char>>, k: nat, j: int)
    requires
        k <= pp.len(),
        k <= sp.len(),
        0 <= j < k,
        is_param_segment(pp[j]),
        forall|t: int|
            j < t < k ==> !(is_param_segment(#[trigger] pp[t]) && param_name(pp[t]) == param_name(
                pp[j],
            )),
    ensures
        last_binding(param_bindings(pp, sp, k), param_name(pp[j])) == Some(sp[j]),
    decreases k,
{
    let rest = param_bindings(pp, sp, (k - 1) as nat);
    if j == k - 1 {
        assert(param_bindings(pp, sp, k) == rest.push((param_name(pp[j]), sp[j])));
        assert(param_bindings(pp, sp, k).drop_last() =~= rest);
    } else {
        lemma_binding_of_wildcard(pp, sp, (k - 1) as nat, j);
        if is_param_segment(pp[k - 1]) {
            assert(param_bindings(pp, sp, k).drop_last() =~= rest);
        }
    }
}

/// Law: when `path` is accepted by `pattern`, each wildcard segment of the
/// pattern binds its name to the path segment at its position, unless a later
/// wildcard reuses the same name (the later binding then wins).
pub proof fn law_wildcard_binds_segment(pattern: Seq<char>, path: Seq<char>, k: int)
    requires
        pattern_matches(pattern, path),
        0 <= k < segments(pattern).len(),
        is_param_segment(segments(pattern)[k]),
        forall|t: int|
            k < t < segments(pattern).len() ==> !(is_param_segment(#[trigger] segments(pattern)[t])
                && param_name(segments(pattern)[t]) == param_name(segments(pattern)[k])),
    ensures
        bindings_map(path_bindings(pattern, path)).contains_key(param_name(segments(pattern)[k])),
        bindings_map(path_bindings(pattern, path))[param_name(segments(pattern)[k])] == segments(
            path,
        )[k],
{
    let pp = segments(pattern);
    let sp = segments(path);
    lemma_binding_of_wildcard(pp, sp, pp.len(), k);
}

/// Law: a path is accepted exactly when it has as many segments as the
/// pattern and every segment of the pattern that is not a wildcard is equal,
/// character for character, to the path segment at its position.
pub proof fn law_literal_segments_equal(pattern: Seq<char>, path: Seq<char>)
    ensures
        pattern_matches(pattern, path) <==> (segments(pattern).len() == segments(path).len()
            && forall|i: int|
            0 <= i < segments(pattern).len() && !(segments(pattern)[i].len() > 0
                && segments(pattern)[i][0] == ':') ==> #[trigger] segments(pattern)[i] =~= segments(
                path,
            )[i]),
{
    let pp = segments(pattern);
    let sp = segments(path);
    if pattern_matches(pattern, path) {
        assert forall|i: int|
            0 <= i < pp.len() && !(pp[i].len() > 0 && pp[i][0] == ':') implies #[trigger] pp[i]
            =~= sp[i] by {
            assert(is_param_segment(pp[i]) || pp[i] == sp[i]);
        }
    }
    if pp.len() == sp.len() && forall|i: int|
        0 <= i < pp.len() && !(pp[i].len() > 0 && pp[i][0] == ':') ==> #[trigger] pp[i] =~= sp[i] {
        assert forall|i: int| 0 <= i < pp.len() implies is_param_segment(#[trigger] pp[i])
            || pp[i] == sp[i] by {
            if !(pp[i].len() > 0 && pp[i][0] == ':') {
                assert(pp[i] =~= sp[i]);
            }
        }
    }
}

/// Law: a pattern without wildcard segments accepts exactly the paths with
/// the same segments.
pub proof fn law_literal_pattern_accepts_same_segments(pattern: Seq<char>, path: Seq<char>)
    requires
        forall|i: int|
            0 <= i < segments(pattern).len() ==> !(#[trigger] segments(pattern)[i].len() > 0
                && segments(pattern)[i][0] == ':'),
    ensures
        pattern_matches(pattern, path) <==> segments(pattern) =~= segments(path),
{
    law_literal_segments_equal(pattern, path);
    let pp = segments(pattern);
    let sp = segments(path);
    if pattern_matches(pattern, path) {
        assert forall|i: int| 0 <= i < pp.len() implies pp[i] == sp[i] by {
            assert(!(pp[i].len() > 0 && pp[i][0] == ':'));
            assert(pp[i] =~= sp[i]);
        }
        assert(pp =~= sp);
    }
    if pp =~= sp {
        assert forall|i: int|
            0 <= i < pp.len() && !(pp[i].len() > 0 && pp[i][0] == ':') implies #[trigger] pp[i]
            =~= sp[i] by {}
    }
}

/// Binding `i` binds `name` to `value`, and no later binding rebinds `name`.
pub open spec fn binding_is_last(es: Seq<(Seq<char>, Seq<char>)>, i: int, name: Seq<char>, value: Seq<char>) -> bool {
    &&& 0 <= i < es.len()
    &&& es[i].0 == name
    &&& es[i].1 == value
    &&& forall|t: int| i < t < es.len() ==> es[t].0 != name
}

/// Some binding of `name` to `value` is the last binding of `name`.
pub open spec fn bound_last(es: Seq<(Seq<char>, Seq<char>)>, name: Seq<char>, value: Seq<char>) -> bool {
    exists|i: int| #[trigger] binding_is_last(es, i, name, value)
}

proof fn lemma_last_binding_source(es: Seq<(Seq<char>, Seq<char>)>, name: Seq<char>)
    ensures
        last_binding(es, name) is Some <==> exists|i: int| 0 <= i < es.len() && (#[trigger] es[i]).0 == name,
        last_binding(es, name) matches Some(v) ==> bound_last(es, name, v),
    decreases es.len(),
{
    if es.len() > 0 {
        let d = es.drop_last();
        lemma_last_binding_source(d, name);
        let n = es.len() - 1;
        if es.last().0 == name {
            assert(es[n].0 == name);
            assert(binding_is_last(es, n, name, es.last().1));
            assert(bound_last(es, name, es.last().1));
        } else {
            if exists|i: int| 0 <= i < es.len() && (#[trigger] es[i]).0 == name {
                let i = choose|i: int| 0 <= i < es.len() && (#[trigger] es[i]).0 == name;
                assert(i < n);
                assert(d[i] == es[i]);
            }
            if exists|i: int| 0 <= i < d.len() && (#[trigger] d[i]).0 == name {
                let i = choose|i: int| 0 <= i < d.len() && (#[trigger] d[i]).0 == name;
                assert(es[i] == d[i]);
            }
            match last_binding(d, name) {
                Some(v) => {
                    assert(bound_last(d, name, v));
                    let i = choose|i: int| #[trigger] binding_is_last(d, i, name, v);
                    assert forall|t: int| i < t < es.len() implies es[t].0 != name by {
                        if t < n {
                            assert(es[t] == d[t]);
                        }
                    }
                    assert(es[i] == d[i]);
                    assert(binding_is_last(es, i, name, v));
                    assert(bound_last(es, name, v));
                },
                None => {},
            }
        }
    }
}

/// Law: the parameter map holds exactly the names that were bound, and each
/// name's value is the one given by the last binding of that very name.
pub proof fn law_params_keys_exact(es: Seq<(Seq<char>, Seq<char>)>, name: Seq<char>)
    ensures
        bindings_map(es).contains_key(name) <==> exists|i: int| 0 <= i < es.len() && (#[trigger] es[i]).0 == name,
        bindings_map(es).contains_key(name) ==> bound_last(es, name, bindings_map(es)[name]),
{
    lemma_last_binding_source(es, name);
    if bindings_map(es).contains_key(name) {
        assert(bindings_map(es)[name] == last_binding(es, name)->0);
    }
}

} // verus!

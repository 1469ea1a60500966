//! The logic behind the mock editor and the history and mock listings: how
//! conditions are shown and edited, and how a mock is built from a recorded
//! request.
use vstd::prelude::*;
use vstd::string::*;
use crate::model::{ConditionMatcher, ConditionSource, MockCondition, MockConfig, RequestRecord};
use crate::pattern::{is_param_segment, pattern_matches, segments_match};
use crate::text::{
    decimal, decimal_string, is_ascii_digit, join_with, lemma_decimal_digits,
    lemma_segments_of_joined, lemma_segments_wellformed, parse_u16, parsed_u16, segments, sep_free,
    split_segments, starts_with_char, str_eq, str_views, string_views, trim, trimmed,
};

verus! {

/// The short label of a condition source.
pub open spec fn source_label(s: ConditionSource) -> Seq<char> {
    match s {
        ConditionSource::PathParam => "path"@,
        ConditionSource::QueryParam => "query"@,
        ConditionSource::Header => "header"@,
    }
}

/// How a matcher is shown: `= "value"` or `~ /regex/`.
pub open spec fn matcher_label(m: ConditionMatcher) -> Seq<char> {
    match m {
        ConditionMatcher::Exact(v) => "= \""@ + v@ + "\""@,
        ConditionMatcher::Regex(v) => "~ /"@ + v@ + "/"@,
    }
}

/// How a condition is shown in the list of mocks, e.g. `query:page = "3"`.
pub open spec fn condition_label(c: MockCondition) -> Seq<char> {
    source_label(c.source) + ":"@ + c.key@ + " "@ + matcher_label(c.matcher)
}

/// Formats a condition as `source:key = "value"` or `source:key ~ /regex/`.
pub fn format_condition(cond: &MockCondition) -> (r: String)
    ensures
        r@ == condition_label(*cond),
{
    let source = match cond.source {
        ConditionSource::PathParam => "path",
        ConditionSource::QueryParam => "query",
        ConditionSource::Header => "header",
    };
    let matcher = match &cond.matcher {
        ConditionMatcher::Exact(v) => String::from_str("= \"").concat(v.as_str()).concat("\""),
        ConditionMatcher::Regex(v) => String::from_str("~ /").concat(v.as_str()).concat("/"),
    };
    let r = String::from_str(source).concat(":").concat(cond.key.as_str()).concat(" ").concat(
        matcher.as_str(),
    );
    assert(r@ =~= condition_label(*cond));
    r
}

/// The editable form of a condition: the source and the matcher kind are
/// held by name, as the editor's selects hold them.
#[derive(Clone, Debug)]
pub struct ConditionRow {
    /// "PathParam", "QueryParam" or "Header".
    pub source: String,
    pub key: String,
    /// "Exact" or "Regex".
    pub matcher_type: String,
    pub matcher_value: String,
}

/// The name under which a source is edited.
pub open spec fn source_name(s: ConditionSource) -> Seq<char> {
    match s {
        ConditionSource::PathParam => "PathParam"@,
        ConditionSource::QueryParam => "QueryParam"@,
        ConditionSource::Header => "Header"@,
    }
}

/// The name under which a matcher kind is edited.
pub open spec fn matcher_name(m: ConditionMatcher) -> Seq<char> {
    match m {
        ConditionMatcher::Exact(_) => "Exact"@,
        ConditionMatcher::Regex(_) => "Regex"@,
    }
}

/// The text of a matcher.
pub open spec fn matcher_text(m: ConditionMatcher) -> Seq<char> {
    match m {
        ConditionMatcher::Exact(v) => v@,
        ConditionMatcher::Regex(v) => v@,
    }
}

/// The source a row's source name stands for; an unknown name means the query.
pub open spec fn source_of_name(name: Seq<char>) -> ConditionSource {
    if name == "PathParam"@ {
        ConditionSource::PathParam
    } else if name == "Header"@ {
        ConditionSource::Header
    } else {
        ConditionSource::QueryParam
    }
}

/// Whether a row's matcher kind stands for a regex; any other name means exact.
pub open spec fn names_regex(name: Seq<char>) -> bool {
    name == "Regex"@
}

/// `c` is the condition that `row` stands for.
pub open spec fn describes(c: MockCondition, row: ConditionRow) -> bool {
    &&& c.source == source_of_name(row.source@)
    &&& c.key@ == row.key@
    &&& c.matcher is Regex == names_regex(row.matcher_type@)
    &&& matcher_text(c.matcher) == row.matcher_value@
}

/// `row` is the row that edits `c`.
pub open spec fn edits(row: ConditionRow, c: MockCondition) -> bool {
    &&& row.source@ == source_name(c.source)
    &&& row.key@ == c.key@
    &&& row.matcher_type@ == matcher_name(c.matcher)
    &&& row.matcher_value@ == matcher_text(c.matcher)
}

impl ConditionRow {
    /// A fresh row: exact match on a query parameter, with empty key and value.
    pub fn new() -> (r: Self)
        ensures
            r.source@ == "QueryParam"@,
            r.key@ == Seq::<char>::empty(),
            r.matcher_type@ == "Exact"@,
            r.matcher_value@ == Seq::<char>::empty(),
    {
        ConditionRow {
            source: String::from_str("QueryParam"),
            key: String::new(),
            matcher_type: String::from_str("Exact"),
            matcher_value: String::new(),
        }
    }

    /// The row that edits `cond`.
    pub fn from_condition(cond: &MockCondition) -> (r: Self)
        ensures
            edits(r, *cond),
    {
        let source = match cond.source {
            ConditionSource::PathParam => "PathParam",
            ConditionSource::QueryParam => "QueryParam",
            ConditionSource::Header => "Header",
        };
        let (matcher_type, matcher_value) = match &cond.matcher {
            ConditionMatcher::Exact(v) => (String::from_str("Exact"), v.clone()),
            ConditionMatcher::Regex(v) => (String::from_str("Regex"), v.clone()),
        };
        ConditionRow {
            source: String::from_str(source),
            key: cond.key.clone(),
            matcher_type,
            matcher_value,
        }
    }

    /// The condition this row describes.
    pub fn to_condition(&self) -> (r: MockCondition)
        ensures
            describes(r, *self),
    {
        let source = if str_eq(self.source.as_str(), "PathParam") {
            ConditionSource::PathParam
        } else if str_eq(self.source.as_str(), "Header") {
            ConditionSource::Header
        } else {
            ConditionSource::QueryParam
        };
        let matcher = if str_eq(self.matcher_type.as_str(), "Regex") {
            ConditionMatcher::Regex(self.matcher_value.clone())
        } else {
            ConditionMatcher::Exact(self.matcher_value.clone())
        };
        MockCondition { source, key: self.key.clone(), matcher }
    }
}

/// Law: editing a condition without changing it gives the same condition
/// back: the row of a condition names its source and matcher kind so that
/// `to_condition` reads them as they were.
pub proof fn law_row_round_trip(c: MockCondition, row: ConditionRow, back: MockCondition)
    requires
        edits(row, c),
        describes(back, row),
    ensures
        back.source == c.source,
        back.key@ == c.key@,
        back.matcher is Regex == c.matcher is Regex,
        matcher_text(back.matcher) == matcher_text(c.matcher),
{
    reveal_strlit("PathParam");
    reveal_strlit("QueryParam");
    reveal_strlit("Header");
    reveal_strlit("Exact");
    reveal_strlit("Regex");
    assert("QueryParam"@ != "PathParam"@) by {
        assert("QueryParam"@[0] != "PathParam"@[0]);
    }
    assert("QueryParam"@ != "Header"@) by {
        assert("QueryParam"@.len() != "Header"@.len());
    }
    assert("Header"@ != "PathParam"@) by {
        assert("Header"@.len() != "PathParam"@.len());
    }
    assert("Exact"@ != "Regex"@) by {
        assert("Exact"@[0] != "Regex"@[0]);
    }
}

/// The character sequences and flags of (text, flag) pairs.
pub open spec fn flagged_views(v: Seq<(String, bool)>) -> Seq<(Seq<char>, bool)> {
    v.map_values(|e: (String, bool)| (e.0@, e.1))
}

/// The pattern of a matched mock, if any.
pub open spec fn matched_pattern(m: Option<MockConfig>) -> Option<Seq<char>> {
    match m {
        Some(c) => Some(c.path_pattern@),
        None => None,
    }
}

/// How a recorded path is shown: its segments, each flagged when the matched
/// mock's pattern has a wildcard at that position; with a matched mock, only
/// as many segments as the pattern has.
pub open spec fn shown_path_segments(path: Seq<char>, pattern: Option<Seq<char>>) -> Seq<
    (Seq<char>, bool),
> {
    let sp = segments(path);
    match pattern {
        Some(p) => {
            let pp = segments(p);
            Seq::new(
                if sp.len() <= pp.len() {
                    sp.len()
                } else {
                    pp.len()
                },
                |i: int| (sp[i], is_param_segment(pp[i])),
            )
        },
        None => Seq::new(sp.len(), |i: int| (sp[i], false)),
    }
}

/// The segments of a recorded path, flagged where the matched mock has a wildcard.
pub fn path_segments(entry: &RequestRecord, matched_mock: &Option<MockConfig>) -> (r: Vec<
    (String, bool),
>)
    ensures
        flagged_views(r@) == shown_path_segments(entry.path@, matched_pattern(*matched_mock)),
{
    let sp = split_segments(entry.path.as_str());
    let mut out: Vec<(String, bool)> = Vec::new();
    let ghost shown = shown_path_segments(entry.path@, matched_pattern(*matched_mock));
    match matched_mock {
        Some(mock) => {
            let pp = split_segments(mock.path_pattern.as_str());
            let n = if sp.len() <= pp.len() {
                sp.len()
            } else {
                pp.len()
            };
            let mut i: usize = 0;
            while i < n
                invariant
                    n <= sp@.len(),
                    n <= pp@.len(),
                    i <= n,
                    str_views(sp@) == segments(entry.path@),
                    str_views(pp@) == segments(mock.path_pattern@),
                    shown.len() == n,
                    shown == shown_path_segments(entry.path@, Some(mock.path_pattern@)),
                    flagged_views(out@) == shown.take(i as int),
                decreases n - i,
            {
                let ghost before = out@;
                let flag = starts_with_char(pp[i], ':');
                let seg = String::from_str(sp[i]);
                out.push((seg, flag));
                assert(str_views(sp@)[i as int] == sp@[i as int]@);
                assert(str_views(pp@)[i as int] == pp@[i as int]@);
                assert(shown[i as int] == (seg@, flag));
                assert(flagged_views(out@) =~= flagged_views(before).push((seg@, flag)));
                assert(shown.take(i + 1) =~= shown.take(i as int).push(shown[i as int]));
                i = i + 1;
            }
            assert(shown.take(n as int) =~= shown);
        },
        None => {
            let mut i: usize = 0;
            while i < sp.len()
                invariant
                    i <= sp@.len(),
                    str_views(sp@) == segments(entry.path@),
                    shown.len() == sp@.len(),
                    shown == shown_path_segments(entry.path@, None),
                    flagged_views(out@) == shown.take(i as int),
                decreases sp@.len() - i,
            {
                let ghost before = out@;
                let seg = String::from_str(sp[i]);
                out.push((seg, false));
                assert(str_views(sp@)[i as int] == sp@[i as int]@);
                assert(shown[i as int] == (seg@, false));
                assert(flagged_views(out@) =~= flagged_views(before).push((seg@, false)));
                assert(shown.take(i + 1) =~= shown.take(i as int).push(shown[i as int]));
                i = i + 1;
            }
            assert(shown.take(sp@.len() as int) =~= shown);
        },
    }
    out
}

/// The segments of a pattern, each flagged when it is a wildcard.
pub open spec fn shown_pattern_segments(pattern: Seq<char>) -> Seq<(Seq<char>, bool)> {
    Seq::new(segments(pattern).len(), |i: int| (segments(pattern)[i], is_param_segment(segments(pattern)[i])))
}

/// The segments of a mock's pattern, each flagged when it is a wildcard.
pub fn pattern_segments(pattern: &str) -> (r: Vec<(String, bool)>)
    ensures
        flagged_views(r@) == shown_pattern_segments(pattern@),
{
    let pp = split_segments(pattern);
    let mut out: Vec<(String, bool)> = Vec::new();
    let ghost shown = shown_pattern_segments(pattern@);
    let mut i: usize = 0;
    while i < pp.len()
        invariant
            i <= pp@.len(),
            str_views(pp@) == segments(pattern@),
            shown == shown_pattern_segments(pattern@),
            flagged_views(out@) == shown.take(i as int),
        decreases pp@.len() - i,
    {
        let ghost before = out@;
        let seg = String::from_str(pp[i]);
        let flag = starts_with_char(pp[i], ':');
        out.push((seg, flag));
        assert(str_views(pp@)[i as int] == pp@[i as int]@);
        assert(shown[i as int] == (seg@, flag));
        assert(flagged_views(out@) =~= flagged_views(before).push((seg@, flag)));
        assert(shown.take(i + 1) =~= shown.take(i as int).push(shown[i as int]));
        i = i + 1;
    }
    assert(shown.take(pp@.len() as int) =~= shown);
    out
}

/// The non-empty `/`-separated segments of `s`, as owned strings.
pub fn segment_strings(s: &str) -> (r: Vec<String>)
    ensures
        string_views(r@) == segments(s@),
{
    let parts = split_segments(s);
    let mut out: Vec<String> = Vec::new();
    let mut i: usize = 0;
    while i < parts.len()
        invariant
            i <= parts@.len(),
            str_views(parts@) == segments(s@),
            string_views(out@) == segments(s@).take(i as int),
        decreases parts@.len() - i,
    {
        let ghost before = out@;
        let seg = String::from_str(parts[i]);
        out.push(seg);
        assert(str_views(parts@)[i as int] == parts@[i as int]@);
        assert(string_views(out@) =~= string_views(before).push(seg@));
        assert(segments(s@).take(i + 1) =~= segments(s@).take(i as int).push(segments(s@)[i as int]));
        i = i + 1;
    }
    assert(segments(s@).take(parts@.len() as int) =~= segments(s@));
    out
}

/// The segments of the pattern of the mock being duplicated; none without one.
pub open spec fn prefill_segments_of(prefill: Option<MockConfig>) -> Seq<Seq<char>> {
    match prefill {
        Some(pf) => segments(pf.path_pattern@),
        None => Seq::empty(),
    }
}

/// The segments of the prefilled mock's pattern, kept to reuse its parameter names.
pub fn prefill_segments(prefill: &Option<MockConfig>) -> (r: Vec<String>)
    ensures
        string_views(r@) == prefill_segments_of(*prefill),
{
    match prefill {
        Some(pf) => segment_strings(pf.path_pattern.as_str()),
        None => {
            let out: Vec<String> = Vec::new();
            assert(string_views(out@) =~= Seq::<Seq<char>>::empty());
            out
        },
    }
}

/// The initial wildcard flags of the editor: one per path segment, set where
/// the prefilled pattern has a wildcard at that position.
pub open spec fn initial_flags(path: Seq<char>, prefill: Option<MockConfig>) -> Seq<bool> {
    let pp = prefill_segments_of(prefill);
    Seq::new(segments(path).len(), |i: int| i < pp.len() && is_param_segment(pp[i]))
}

/// The flags that mark which path segments start as wildcards.
pub fn initial_param_flags(path: &str, prefill: &Option<MockConfig>) -> (r: Vec<bool>)
    ensures
        r@ == initial_flags(path@, *prefill),
{
    let n = split_segments(path).len();
    let pp = prefill_segments(prefill);
    let mut flags: Vec<bool> = Vec::new();
    let mut i: usize = 0;
    while i < n
        invariant
            n == segments(path@).len(),
            i <= n,
            string_views(pp@) == prefill_segments_of(*prefill),
            flags@ == initial_flags(path@, *prefill).take(i as int),
        decreases n - i,
    {
        let flag = i < pp.len() && starts_with_char(pp[i].as_str(), ':');
        proof {
            if i < pp@.len() {
                assert(string_views(pp@)[i as int] == pp@[i as int]@);
            }
        }
        flags.push(flag);
        assert(flags@ =~= initial_flags(path@, *prefill).take(i + 1));
        i = i + 1;
    }
    assert(initial_flags(path@, *prefill).take(n as int) =~= initial_flags(path@, *prefill));
    flags
}

/// Flips whether the path segment at `index` is a wildcard (a click on the segment).
pub fn toggle_flag(flags: &mut Vec<bool>, index: usize)
    requires
        index < old(flags)@.len(),
    ensures
        final(flags)@ == old(flags)@.update(index as int, !old(flags)@[index as int]),
{
    let flipped = !flags[index];
    flags.set(index, flipped);
}

/// The pattern segment at position `i`: a path segment, or for a wildcard
/// the prefilled wildcard at that position, else `:param` and the position.
pub open spec fn pattern_part(
    segs: Seq<Seq<char>>,
    flags: Seq<bool>,
    prefill: Seq<Seq<char>>,
    i: int,
) -> Seq<char> {
    if flags[i] {
        if i < prefill.len() && is_param_segment(prefill[i]) {
            prefill[i]
        } else {
            ":param"@ + decimal(i as nat)
        }
    } else {
        segs[i]
    }
}

/// The pattern segments for the positions that have both a segment and a flag.
pub open spec fn pattern_parts(segs: Seq<Seq<char>>, flags: Seq<bool>, prefill: Seq<Seq<char>>) -> Seq<
    Seq<char>,
> {
    Seq::new(
        if segs.len() <= flags.len() {
            segs.len()
        } else {
            flags.len()
        },
        |i: int| pattern_part(segs, flags, prefill, i),
    )
}

/// The pattern the editor builds: `/` followed by the parts joined with `/`.
pub open spec fn built_pattern(segs: Seq<Seq<char>>, flags: Seq<bool>, prefill: Seq<Seq<char>>) -> Seq<
    char,
> {
    seq!['/'] + join_with(pattern_parts(segs, flags, prefill), '/')
}

/// Builds the path pattern from the path segments and the wildcard flags,
/// reusing the prefilled pattern's parameter names where it has them.
pub fn build_path_pattern(
    segments: &Vec<String>,
    flags: &Vec<bool>,
    prefill_segments: &Vec<String>,
) -> (r: String)
    ensures
        r@ == built_pattern(string_views(segments@), flags@, string_views(prefill_segments@)),
{
    let ghost segs = string_views(segments@);
    let ghost pre = string_views(prefill_segments@);
    let ghost all = pattern_parts(segs, flags@, pre);
    let n = if segments.len() <= flags.len() {
        segments.len()
    } else {
        flags.len()
    };
    let mut parts: Vec<String> = Vec::new();
    let mut i: usize = 0;
    while i < n
        invariant
            n == all.len(),
            n <= segments@.len(),
            n <= flags@.len(),
            i <= n,
            segs == string_views(segments@),
            pre == string_views(prefill_segments@),
            all == pattern_parts(segs, flags@, pre),
            string_views(parts@) == all.take(i as int),
        decreases n - i,
    {
        let part = if flags[i] {
            if i < prefill_segments.len() && starts_with_char(prefill_segments[i].as_str(), ':') {
                prefill_segments[i].clone()
            } else {
                String::from_str(":param").concat(decimal_string(i).as_str())
            }
        } else {
            segments[i].clone()
        };
        proof {
            if i < prefill_segments@.len() {
                assert(pre[i as int] == prefill_segments@[i as int]@);
            }
            assert(segs[i as int] == segments@[i as int]@);
        }
        assert(part@ == all[i as int]);
        let ghost before = parts@;
        let ghost pv = part@;
        parts.push(part);
        assert(string_views(parts@) =~= string_views(before).push(pv));
        assert(all.take(i + 1) =~= all.take(i as int).push(all[i as int]));
        i = i + 1;
    }
    assert(all.take(n as int) =~= all);
    let mut out = String::from_str("/");
    proof {
        reveal_strlit("/");
    }
    assert(out@ =~= seq!['/']);
    let mut k: usize = 0;
    assert(all.take(0) =~= Seq::<Seq<char>>::empty());
    while k < parts.len()
        invariant
            k <= parts@.len(),
            string_views(parts@) == all,
            out@ == seq!['/'] + join_with(all.take(k as int), '/'),
            "/"@ == seq!['/'],
        decreases parts@.len() - k,
    {
        let ghost before = out@;
        assert(all.take(k + 1).drop_last() =~= all.take(k as int));
        assert(all.take(k + 1).last() == parts@[k as int]@);
        if k > 0 {
            out.append("/");
        } else {
            assert(all.take(1) =~= seq![all[0]]);
        }
        out.append(parts[k].as_str());
        assert(out@ =~= seq!['/'] + join_with(all.take(k + 1), '/'));
        k = k + 1;
    }
    assert(all.take(parts@.len() as int) =~= all);
    out
}

/// Law: the pattern built for a recorded path accepts that path, whichever
/// segments are turned into wildcards and whatever pattern was prefilled.
pub proof fn law_built_pattern_matches_path(
    path: Seq<char>,
    flags: Seq<bool>,
    prefill_pattern: Seq<char>,
)
    requires
        flags.len() == segments(path).len(),
    ensures
        pattern_matches(built_pattern(segments(path), flags, segments(prefill_pattern)), path),
{
    let segs = segments(path);
    let pre = segments(prefill_pattern);
    let parts = pattern_parts(segs, flags, pre);
    lemma_segments_wellformed(path);
    lemma_segments_wellformed(prefill_pattern);
    reveal_strlit(":param");
    assert forall|i: int| 0 <= i < parts.len() implies (#[trigger] parts[i]).len() > 0 && sep_free(
        parts[i],
        '/',
    ) by {
        if flags[i] && !(i < pre.len() && is_param_segment(pre[i])) {
            let p = ":param"@ + decimal(i as nat);
            lemma_decimal_digits(i as nat);
            assert(parts[i] == p);
            assert forall|j: int| 0 <= j < p.len() implies #[trigger] p[j] != '/' by {
                if j >= 6 {
                    assert(p[j] == decimal(i as nat)[j - 6]);
                    assert(is_ascii_digit(decimal(i as nat)[j - 6]));
                }
            }
        }
    }
    lemma_segments_of_joined(parts);
    assert forall|i: int| 0 <= i < parts.len() implies is_param_segment(#[trigger] parts[i])
        || parts[i] == segs[i] by {
        if flags[i] && !(i < pre.len() && is_param_segment(pre[i])) {
            assert(parts[i][0] == ':');
        }
    }
    assert(segments_match(parts, segs));
}

proof fn lemma_built_segments(path: Seq<char>, flags: Seq<bool>, prefill_pattern: Seq<char>)
    ensures
        segments(built_pattern(segments(path), flags, segments(prefill_pattern))) == pattern_parts(
            segments(path),
            flags,
            segments(prefill_pattern),
        ),
{
    let segs = segments(path);
    let pre = segments(prefill_pattern);
    let parts = pattern_parts(segs, flags, pre);
    lemma_segments_wellformed(path);
    lemma_segments_wellformed(prefill_pattern);
    reveal_strlit(":param");
    assert forall|i: int| 0 <= i < parts.len() implies (#[trigger] parts[i]).len() > 0 && sep_free(
        parts[i],
        '/',
    ) by {
        if flags[i] && !(i < pre.len() && is_param_segment(pre[i])) {
            let p = ":param"@ + decimal(i as nat);
            lemma_decimal_digits(i as nat);
            assert(parts[i] == p);
            assert forall|j: int| 0 <= j < p.len() implies #[trigger] p[j] != '/' by {
                if j >= 6 {
                    assert(p[j] == decimal(i as nat)[j - 6]);
                    assert(is_ascii_digit(decimal(i as nat)[j - 6]));
                }
            }
        }
    }
    lemma_segments_of_joined(parts);
}

/// Law: in the pattern the editor builds from a recorded path, there is one
/// segment per position that has both a path segment and a flag; a segment
/// that is not flagged appears literally, a flagged one is a wildcard, and a
/// flagged one reuses the prefilled pattern's wildcard at that position when
/// there is one, else is named `:param` and its position.
pub proof fn law_unflagged_segments_kept(
    path: Seq<char>,
    flags: Seq<bool>,
    prefill_pattern: Seq<char>,
)
    ensures
        ({
            let sp = segments(path);
            let pre = segments(prefill_pattern);
            let b = segments(built_pattern(sp, flags, pre));
            &&& b.len() == (if sp.len() <= flags.len() {
                sp.len()
            } else {
                flags.len()
            })
            &&& forall|i: int| 0 <= i < b.len() && !flags[i] ==> #[trigger] b[i] == sp[i]
            &&& forall|i: int|
                0 <= i < b.len() && flags[i] ==> (#[trigger] b[i]).len() > 0 && b[i][0] == ':'
            &&& forall|i: int|
                0 <= i < b.len() && flags[i] && i < pre.len() && pre[i].len() > 0 && pre[i][0]
                    == ':' ==> #[trigger] b[i] == pre[i]
            &&& forall|i: int|
                0 <= i < b.len() && flags[i] && !(i < pre.len() && pre[i].len() > 0 && pre[i][0]
                    == ':') ==> #[trigger] b[i] == ":param"@ + decimal(i as nat)
        }),
{
    lemma_built_segments(path, flags, prefill_pattern);
    reveal_strlit(":param");
}

/// The status code typed in the editor: the trimmed text read as a `u16`, 200 when it is not one.
pub open spec fn status_of_text(s: Seq<char>) -> u16 {
    match parsed_u16(trimmed(s)) {
        Some(v) => v,
        None => 200,
    }
}

/// Reads the status code typed in the editor.
pub fn parse_status(s: &str) -> (r: u16)
    ensures
        r == status_of_text(s@),
{
    match parse_u16(trim(s)) {
        Some(v) => v,
        None => 200,
    }
}

/// The status text the editor starts with.
pub fn initial_status(prefill: &Option<MockConfig>) -> (r: String)
    ensures
        match *prefill {
            Some(pf) => r@ == decimal(pf.status as nat),
            None => r@ == "200"@,
        },
{
    match prefill {
        Some(pf) => decimal_string(pf.status as usize),
        None => String::from_str("200"),
    }
}

/// The body text the editor starts with.
pub fn initial_body(prefill: &Option<MockConfig>) -> (r: String)
    ensures
        match *prefill {
            Some(pf) => r@ == pf.body@,
            None => r@ == Seq::<char>::empty(),
        },
{
    match prefill {
        Some(pf) => pf.body.clone(),
        None => String::new(),
    }
}

/// The condition rows the editor starts with: one per prefilled condition.
pub fn initial_conditions(prefill: &Option<MockConfig>) -> (r: Vec<ConditionRow>)
    ensures
        match *prefill {
            Some(pf) => r@.len() == pf.conditions@.len() && forall|i: int|
                0 <= i < r@.len() ==> edits(#[trigger] r@[i], pf.conditions@[i]),
            None => r@.len() == 0,
        },
{
    let mut rows: Vec<ConditionRow> = Vec::new();
    match prefill {
        Some(pf) => {
            let mut i: usize = 0;
            while i < pf.conditions.len()
                invariant
                    i <= pf.conditions@.len(),
                    rows@.len() == i,
                    forall|j: int| 0 <= j < i ==> edits(#[trigger] rows@[j], pf.conditions@[j]),
                decreases pf.conditions@.len() - i,
            {
                rows.push(ConditionRow::from_condition(&pf.conditions[i]));
                i = i + 1;
            }
        },
        None => {},
    }
    rows
}

/// The rows that are saved: those with a non-empty key, in order.
pub open spec fn kept_rows(rows: Seq<ConditionRow>) -> Seq<ConditionRow>
    decreases rows.len(),
{
    if rows.len() == 0 {
        Seq::empty()
    } else {
        let rest = kept_rows(rows.drop_last());
        if rows.last().key@.len() > 0 {
            rest.push(rows.last())
        } else {
            rest
        }
    }
}

/// The conditions saved from the editor's rows: rows with an empty key are dropped.
pub fn build_conditions(rows: &Vec<ConditionRow>) -> (r: Vec<MockCondition>)
    ensures
        r@.len() == kept_rows(rows@).len(),
        forall|i: int| 0 <= i < r@.len() ==> describes(#[trigger] r@[i], kept_rows(rows@)[i]),
{
    let mut out: Vec<MockCondition> = Vec::new();
    let mut i: usize = 0;
    assert(rows@.take(0) =~= Seq::<ConditionRow>::empty());
    while i < rows.len()
        invariant
            i <= rows@.len(),
            out@.len() == kept_rows(rows@.take(i as int)).len(),
            forall|j: int|
                0 <= j < out@.len() ==> describes(#[trigger] out@[j], kept_rows(rows@.take(i as int))[j]),
        decreases rows@.len() - i,
    {
        let row = &rows[i];
        assert(rows@.take(i + 1).drop_last() =~= rows@.take(i as int));
        assert(rows@.take(i + 1).last() == *row);
        if !row.key.as_str().is_empty() {
            out.push(row.to_condition());
        }
        i = i + 1;
    }
    assert(rows@.take(rows@.len() as int) =~= rows@);
    out
}

/// The mock saved by the editor.
pub fn build_mock(
    method: &str,
    path_pattern: String,
    status_text: &str,
    body: String,
    rows: &Vec<ConditionRow>,
) -> (r: MockConfig)
    ensures
        r.method@ == method@,
        r.path_pattern@ == path_pattern@,
        r.status == status_of_text(status_text@),
        r.body@ == body@,
        r.conditions@.len() == kept_rows(rows@).len(),
        forall|i: int|
            0 <= i < r.conditions@.len() ==> describes(#[trigger] r.conditions@[i], kept_rows(rows@)[i]),
{
    MockConfig {
        method: String::from_str(method),
        path_pattern,
        status: parse_status(status_text),
        body,
        conditions: build_conditions(rows),
    }
}

} // verus!

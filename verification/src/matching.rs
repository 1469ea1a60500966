//! Choosing the mock that answers a request: method and pattern targeting,
//! condition evaluation, and the most-specific-first order.
use vstd::prelude::*;
use vstd::string::*;
use crate::model::{ConditionMatcher, ConditionSource, MockCondition, MockConfig, RequestRecord};
use crate::pattern::{
    bindings_map, extract_path_params, matches_pattern, path_bindings, pattern_matches, PathParams,
};
use crate::query::{multimap_of, parse_query_params, query_entries, QueryParams};
use crate::regex_match::{compile_pattern, regex_compiles, regex_finds};
use crate::text::{
    eq_ignore_ascii_case, eq_ignoring_ascii_case, split_on, str_eq, string_views,
};

verus! {

/// What the matching logic reads of an incoming request.
pub struct IncomingRequest {
    /// The method name, e.g. `GET`.
    pub method: String,
    /// The raw path, without the query string.
    pub path: String,
    /// The raw query string, without the `?`; empty when there is none.
    pub query: String,
    /// The headers as (name, value) pairs, in the order the request holds them.
    pub headers: Vec<(String, String)>,
}

/// The character sequences of (name, value) pairs.
pub open spec fn pair_views(v: Seq<(String, String)>) -> Seq<(Seq<char>, Seq<char>)> {
    v.map_values(|e: (String, String)| (e.0@, e.1@))
}

/// The values of the headers whose name equals `name` up to ASCII case, in order.
pub open spec fn header_values_of(hs: Seq<(Seq<char>, Seq<char>)>, name: Seq<char>) -> Seq<
    Seq<char>,
>
    decreases hs.len(),
{
    if hs.len() == 0 {
        Seq::empty()
    } else {
        let rest = header_values_of(hs.drop_last(), name);
        if eq_ignoring_ascii_case(hs.last().0, name) {
            rest.push(hs.last().1)
        } else {
            rest
        }
    }
}

/// All values of the header `name` (compared without ASCII case), in order.
pub fn header_values(headers: &Vec<(String, String)>, name: &str) -> (r: Vec<String>)
    ensures
        string_views(r@) == header_values_of(pair_views(headers@), name@),
{
    let mut out: Vec<String> = Vec::new();
    let mut i: usize = 0;
    assert(pair_views(headers@).take(0) =~= Seq::<(Seq<char>, Seq<char>)>::empty());
    assert(string_views(out@) =~= Seq::<Seq<char>>::empty());
    while i < headers.len()
        invariant
            i <= headers@.len(),
            string_views(out@) == header_values_of(pair_views(headers@).take(i as int), name@),
        decreases headers@.len() - i,
    {
        let h = &headers[i];
        let ghost before = out@;
        assert(pair_views(headers@).take(i + 1).drop_last() =~= pair_views(headers@).take(
            i as int,
        ));
        assert(pair_views(headers@).take(i + 1).last() == (h.0@, h.1@));
        if eq_ignore_ascii_case(h.0.as_str(), name) {
            out.push(h.1.clone());
            assert(string_views(out@) =~= string_views(before).push(h.1@));
        }
        i = i + 1;
    }
    assert(pair_views(headers@).take(headers@.len() as int) =~= pair_views(headers@));
    out
}

/// Whether one value satisfies a matcher: equal to the expected text, or
/// found by a regex that compiles.
pub open spec fn value_satisfies(m: ConditionMatcher, v: Seq<char>) -> bool {
    match m {
        ConditionMatcher::Exact(expected) => v == expected@,
        ConditionMatcher::Regex(pattern) => regex_compiles(pattern@) && regex_finds(pattern@, v),
    }
}

/// A matcher accepts a list of values when at least one of them satisfies it.
pub open spec fn matcher_accepts(m: ConditionMatcher, vals: Seq<Seq<char>>) -> bool {
    exists|i: int| 0 <= i < vals.len() && value_satisfies(m, #[trigger] vals[i])
}

/// Whether each value satisfies the matcher; for a regex matcher, every
/// verdict is `false` when the regex does not compile.
pub fn value_verdicts(matcher: &ConditionMatcher, values: &[String]) -> (r: Vec<bool>)
    ensures
        r@.len() == values@.len(),
        forall|i: int|
            0 <= i < values@.len() ==> #[trigger] r@[i] == value_satisfies(*matcher, values@[i]@),
{
    let mut out: Vec<bool> = Vec::new();
    match matcher {
        ConditionMatcher::Exact(expected) => {
            let mut i: usize = 0;
            while i < values.len()
                invariant
                    i <= values@.len(),
                    *matcher == ConditionMatcher::Exact(*expected),
                    out@.len() == i,
                    forall|j: int|
                        0 <= j < i ==> #[trigger] out@[j] == value_satisfies(*matcher, values@[j]@),
                decreases values@.len() - i,
            {
                out.push(str_eq(values[i].as_str(), expected.as_str()));
                i = i + 1;
            }
        },
        ConditionMatcher::Regex(pattern) => {
            let compiled = compile_pattern(pattern.as_str());
            let mut i: usize = 0;
            while i < values.len()
                invariant
                    i <= values@.len(),
                    *matcher == ConditionMatcher::Regex(*pattern),
                    compiled is Some == regex_compiles(pattern@),
                    compiled matches Some(c) ==> c@ == pattern@,
                    out@.len() == i,
                    forall|j: int|
                        0 <= j < i ==> #[trigger] out@[j] == value_satisfies(*matcher, values@[j]@),
                decreases values@.len() - i,
            {
                let hit = match &compiled {
                    Some(c) => c.finds(values[i].as_str()),
                    None => false,
                };
                out.push(hit);
                i = i + 1;
            }
        },
    }
    out
}

/// Whether at least one verdict is `true`.
pub fn any_true(verdicts: &[bool]) -> (r: bool)
    ensures
        r == exists|i: int| 0 <= i < verdicts@.len() && #[trigger] verdicts@[i],
{
    let mut i: usize = 0;
    while i < verdicts.len()
        invariant
            i <= verdicts@.len(),
            forall|j: int| 0 <= j < i ==> !#[trigger] verdicts@[j],
        decreases verdicts@.len() - i,
    {
        if verdicts[i] {
            return true;
        }
        i = i + 1;
    }
    false
}

/// Checks whether a matcher is satisfied by at least one of the given values.
pub fn matcher_matches(matcher: &ConditionMatcher, values: &[String]) -> (r: bool)
    ensures
        r == matcher_accepts(*matcher, string_views(values@)),
{
    let verdicts = value_verdicts(matcher, values);
    let r = any_true(verdicts.as_slice());
    assert forall|i: int| 0 <= i < values@.len() implies string_views(values@)[i] == values@[i]@ by {}
    proof {
        if r {
            let i = choose|i: int| 0 <= i < verdicts@.len() && #[trigger] verdicts@[i];
            assert(value_satisfies(*matcher, string_views(values@)[i]));
        } else {
            assert forall|i: int| 0 <= i < string_views(values@).len() implies !value_satisfies(
                *matcher,
                #[trigger] string_views(values@)[i],
            ) by {
                assert(!verdicts@[i]);
            }
        }
    }
    r
}

/// The values a condition looks at: the bound path parameter, all values of
/// the query parameter, or all values of the header.
pub open spec fn resolved_values(
    c: MockCondition,
    path_params: Map<Seq<char>, Seq<char>>,
    query_params: Map<Seq<char>, Seq<Seq<char>>>,
    headers: Seq<(Seq<char>, Seq<char>)>,
) -> Seq<Seq<char>> {
    match c.source {
        ConditionSource::PathParam => if path_params.contains_key(c.key@) {
            seq![path_params[c.key@]]
        } else {
            Seq::empty()
        },
        ConditionSource::QueryParam => if query_params.contains_key(c.key@) {
            query_params[c.key@]
        } else {
            Seq::empty()
        },
        ConditionSource::Header => header_values_of(headers, c.key@),
    }
}

/// Resolves the values targeted by a condition from the request context.
pub fn resolve_condition_values(
    cond: &MockCondition,
    path_params: &PathParams,
    query_params: &QueryParams,
    headers: &Vec<(String, String)>,
) -> (r: Vec<String>)
    ensures
        string_views(r@) == resolved_values(
            *cond,
            path_params@,
            query_params@,
            pair_views(headers@),
        ),
{
    match cond.source {
        ConditionSource::PathParam => {
            let mut out: Vec<String> = Vec::new();
            match path_params.get(cond.key.as_str()) {
                Some(v) => {
                    out.push(String::from_str(v));
                    assert(string_views(out@) =~= seq![v@]);
                },
                None => {
                    assert(string_views(out@) =~= Seq::<Seq<char>>::empty());
                },
            }
            out
        },
        ConditionSource::QueryParam => {
            match query_params.get(cond.key.as_str()) {
                Some(vs) => vs,
                None => {
                    let out: Vec<String> = Vec::new();
                    assert(string_views(out@) =~= Seq::<Seq<char>>::empty());
                    out
                },
            }
        },
        ConditionSource::Header => header_values(headers, cond.key.as_str()),
    }
}

/// A condition holds when its matcher accepts the values it resolves to.
pub open spec fn condition_holds(
    c: MockCondition,
    path_params: Map<Seq<char>, Seq<char>>,
    query_params: Map<Seq<char>, Seq<Seq<char>>>,
    headers: Seq<(Seq<char>, Seq<char>)>,
) -> bool {
    matcher_accepts(c.matcher, resolved_values(c, path_params, query_params, headers))
}

/// Checks whether a single condition is satisfied.
pub fn condition_matches(
    cond: &MockCondition,
    path_params: &PathParams,
    query_params: &QueryParams,
    headers: &Vec<(String, String)>,
) -> (r: bool)
    ensures
        r == condition_holds(*cond, path_params@, query_params@, pair_views(headers@)),
{
    let values = resolve_condition_values(cond, path_params, query_params, headers);
    matcher_matches(&cond.matcher, values.as_slice())
}

/// The multimap of a raw query string.
pub open spec fn query_map(query: Seq<char>) -> Map<Seq<char>, Seq<Seq<char>>> {
    multimap_of(query_entries(split_on(query, '&')))
}

/// A mock targets a request when the methods agree up to ASCII case and the
/// path is accepted by the mock's pattern.
pub open spec fn targets(m: MockConfig, method: Seq<char>, path: Seq<char>) -> bool {
    eq_ignoring_ascii_case(m.method@, method) && pattern_matches(m.path_pattern@, path)
}

/// Every condition of the mock holds for the request.
pub open spec fn conditions_hold(m: MockConfig, req: IncomingRequest) -> bool {
    forall|j: int|
        0 <= j < m.conditions@.len() ==> condition_holds(
            #[trigger] m.conditions@[j],
            bindings_map(path_bindings(m.path_pattern@, req.path@)),
            query_map(req.query@),
            pair_views(req.headers@),
        )
}

/// The mock may answer the request.
pub open spec fn eligible(m: MockConfig, req: IncomingRequest) -> bool {
    targets(m, req.method@, req.path@) && conditions_hold(m, req)
}

/// Whether the mock targets the method and path.
pub fn targets_request(mock: &MockConfig, method: &str, path: &str) -> (r: bool)
    ensures
        r == targets(*mock, method@, path@),
{
    eq_ignore_ascii_case(mock.method.as_str(), method) && matches_pattern(
        mock.path_pattern.as_str(),
        path,
    )
}

/// Whether a configured mock applies to a recorded request (method up to
/// ASCII case, and path accepted by the pattern).
pub fn mock_matches(mock: &MockConfig, entry: &RequestRecord) -> (r: bool)
    ensures
        r == targets(*mock, entry.method@, entry.path@),
{
    targets_request(mock, entry.method.as_str(), entry.path.as_str())
}

/// The index of the first mock that applies to a recorded request.
pub fn find_matching_mock(mocks: &Vec<MockConfig>, entry: &RequestRecord) -> (r: Option<usize>)
    ensures
        match r {
            Some(i) => i < mocks@.len() && targets(mocks@[i as int], entry.method@, entry.path@)
                && forall|j: int|
                0 <= j < i ==> !targets(#[trigger] mocks@[j], entry.method@, entry.path@),
            None => forall|j: int|
                0 <= j < mocks@.len() ==> !targets(#[trigger] mocks@[j], entry.method@, entry.path@),
        },
{
    let mut i: usize = 0;
    while i < mocks.len()
        invariant
            i <= mocks@.len(),
            forall|j: int| 0 <= j < i ==> !targets(#[trigger] mocks@[j], entry.method@, entry.path@),
        decreases mocks@.len() - i,
    {
        if mock_matches(&mocks[i], entry) {
            return Some(i);
        }
        i = i + 1;
    }
    None
}

/// Checks whether every condition of `mock` holds for the request.
pub fn all_conditions_match(mock: &MockConfig, req: &IncomingRequest, query: &QueryParams) -> (r:
    bool)
    requires
        query@ == query_map(req.query@),
    ensures
        r == conditions_hold(*mock, *req),
{
    let path_params = extract_path_params(mock.path_pattern.as_str(), req.path.as_str());
    let mut j: usize = 0;
    while j < mock.conditions.len()
        invariant
            j <= mock.conditions@.len(),
            query@ == query_map(req.query@),
            path_params@ == bindings_map(path_bindings(mock.path_pattern@, req.path@)),
            forall|t: int|
                0 <= t < j ==> condition_holds(
                    #[trigger] mock.conditions@[t],
                    bindings_map(path_bindings(mock.path_pattern@, req.path@)),
                    query_map(req.query@),
                    pair_views(req.headers@),
                ),
        decreases mock.conditions@.len() - j,
    {
        if !condition_matches(&mock.conditions[j], &path_params, query, &req.headers) {
            return false;
        }
        j = j + 1;
    }
    true
}

/// The number of conditions of a mock: its specificity.
pub open spec fn specificity(m: MockConfig) -> nat {
    m.conditions@.len()
}

/// Mock `a` is tried before mock `b`: it has more conditions, or as many and
/// was registered earlier.
pub open spec fn tried_before(mocks: Seq<MockConfig>, a: int, b: int) -> bool {
    specificity(mocks[a]) > specificity(mocks[b]) || (specificity(mocks[a]) == specificity(
        mocks[b],
    ) && a < b)
}

/// `order` lists the indices of `mocks` most specific first, ties in
/// registration order: every index exactly once, strictly ordered by `tried_before`.
pub open spec fn is_specificity_order(mocks: Seq<MockConfig>, order: Seq<usize>) -> bool {
    &&& order.len() == mocks.len()
    &&& forall|k: int| 0 <= k < order.len() ==> #[trigger] order[k] < mocks.len()
    &&& forall|x: usize| x < mocks.len() ==> #[trigger] order.contains(x)
    &&& forall|a: int, b: int|
        0 <= a < b < order.len() ==> tried_before(mocks, #[trigger] order[a] as int, #[trigger] order[b] as int)
}

/// The order in which mocks are tried: more conditions first, and among
/// mocks with as many conditions, the one registered first.
pub fn order_by_specificity(mocks: &Vec<MockConfig>) -> (order: Vec<usize>)
    ensures
        is_specificity_order(mocks@, order@),
        forall|a: int, b: int|
            0 <= a < b < order@.len() ==> mocks@[#[trigger] order@[a] as int].conditions@.len()
                >= mocks@[#[trigger] order@[b] as int].conditions@.len() && (mocks@[order@[a] as int].conditions@.len()
                == mocks@[order@[b] as int].conditions@.len() ==> order@[a] < order@[b]),
{
    let n = mocks.len();
    let mut order: Vec<usize> = Vec::new();
    let mut i: usize = 0;
    while i < n
        invariant
            n == mocks@.len(),
            i <= n,
            order@.len() == i,
            forall|k: int| 0 <= k < order@.len() ==> #[trigger] order@[k] < i,
            forall|x: usize| x < i ==> #[trigger] order@.contains(x),
            forall|a: int, b: int|
                0 <= a < b < order@.len() ==> tried_before(
                    mocks@,
                    #[trigger] order@[a] as int,
                    #[trigger] order@[b] as int,
                ),
        decreases n - i,
    {
        let c = mocks[i].conditions.len();
        let mut p: usize = 0;
        while p < order.len() && mocks[order[p]].conditions.len() >= c
            invariant
                n == mocks@.len(),
                i < n,
                c == specificity(mocks@[i as int]),
                p <= order@.len(),
                forall|k: int| 0 <= k < order@.len() ==> #[trigger] order@[k] < i,
                forall|q: int|
                    0 <= q < p ==> specificity(mocks@[#[trigger] order@[q] as int]) >= c,
            decreases order@.len() - p,
        {
            p = p + 1;
        }
        let ghost old_order = order@;
        order.insert(p, i);
        assert(order@ == old_order.insert(p as int, i));
        assert forall|k: int| 0 <= k < order@.len() implies #[trigger] order@[k] < i + 1 by {
            if k < p {
                assert(order@[k] == old_order[k]);
            } else if k > p {
                assert(order@[k] == old_order[k - 1]);
            }
        }
        assert forall|x: usize| x < i + 1 implies #[trigger] order@.contains(x) by {
            if x == i {
                assert(order@[p as int] == i);
            } else {
                assert(old_order.contains(x));
                let j = choose|j: int| 0 <= j < old_order.len() && old_order[j] == x;
                if j < p {
                    assert(order@[j] == x);
                } else {
                    assert(order@[j + 1] == x);
                }
            }
        }
        assert forall|a: int, b: int| 0 <= a < b < order@.len() implies tried_before(
            mocks@,
            #[trigger] order@[a] as int,
            #[trigger] order@[b] as int,
        ) by {
            if b < p {
                assert(order@[a] == old_order[a] && order@[b] == old_order[b]);
            } else if b == p {
                assert(order@[a] == old_order[a]);
                assert(specificity(mocks@[old_order[a] as int]) >= c);
            } else if a == p {
                assert(order@[b] == old_order[b - 1]);
                assert(p < old_order.len());
                assert(specificity(mocks@[old_order[p as int] as int]) < c);
                if b - 1 > p {
                    assert(tried_before(mocks@, old_order[p as int] as int, old_order[b - 1] as int));
                }
            } else if a < p {
                assert(order@[a] == old_order[a] && order@[b] == old_order[b - 1]);
            } else {
                assert(order@[a] == old_order[a - 1] && order@[b] == old_order[b - 1]);
            }
        }
        i = i + 1;
    }
    proof {
        law_order_by_condition_count(mocks@, order@);
    }
    order
}

/// Law: in a specificity order, a mock comes before every mock with fewer
/// conditions, and among mocks with as many conditions, registration order is kept.
pub proof fn law_order_by_condition_count(mocks: Seq<MockConfig>, order: Seq<usize>)
    requires
        is_specificity_order(mocks, order),
    ensures
        forall|a: int, b: int|
            0 <= a < b < order.len() ==> mocks[#[trigger] order[a] as int].conditions@.len()
                >= mocks[#[trigger] order[b] as int].conditions@.len() && (mocks[order[a] as int].conditions@.len()
                == mocks[order[b] as int].conditions@.len() ==> order[a] < order[b]),
{
    assert forall|a: int, b: int| 0 <= a < b < order.len() implies mocks[#[trigger] order[a] as int].conditions@.len()
        >= mocks[#[trigger] order[b] as int].conditions@.len() && (mocks[order[a] as int].conditions@.len()
        == mocks[order[b] as int].conditions@.len() ==> order[a] < order[b]) by {
        assert(tried_before(mocks, order[a] as int, order[b] as int));
    }
}

/// `i` is the mock that answers the request: it may answer, and every other
/// mock that may answer is tried after it.
pub open spec fn is_best_mock(mocks: Seq<MockConfig>, req: IncomingRequest, i: int) -> bool {
    &&& 0 <= i < mocks.len()
    &&& eligible(mocks[i], req)
    &&& forall|j: int|
        0 <= j < mocks.len() && j != i && eligible(#[trigger] mocks[j], req) ==> tried_before(
            mocks,
            i,
            j,
        )
}

/// Selects the mock that answers the request: among the mocks whose method,
/// pattern and conditions all accept it, the one with the most conditions,
/// and among those the one registered first.
pub fn select_mock(mocks: &Vec<MockConfig>, req: &IncomingRequest) -> (r: Option<usize>)
    ensures
        match r {
            Some(i) => is_best_mock(mocks@, *req, i as int),
            None => forall|j: int| 0 <= j < mocks@.len() ==> !eligible(#[trigger] mocks@[j], *req),
        },
        r matches Some(i) ==> forall|j: int|
            0 <= j < mocks@.len() && j != i && eligible(#[trigger] mocks@[j], *req)
                ==> mocks@[i as int].conditions@.len() >= mocks@[j].conditions@.len() && (
            mocks@[i as int].conditions@.len() == mocks@[j].conditions@.len() ==> i < j),
{
    let query = parse_query_params(req.query.as_str());
    let order = order_by_specificity(mocks);
    let mut k: usize = 0;
    while k < order.len()
        invariant
            is_specificity_order(mocks@, order@),
            query@ == query_map(req.query@),
            k <= order@.len(),
            forall|t: int| 0 <= t < k ==> !eligible(mocks@[#[trigger] order@[t] as int], *req),
        decreases order@.len() - k,
    {
        let i = order[k];
        if targets_request(&mocks[i], req.method.as_str(), req.path.as_str())
            && all_conditions_match(&mocks[i], req, &query) {
            assert forall|j: int|
                0 <= j < mocks@.len() && j != i && eligible(#[trigger] mocks@[j], *req) implies tried_before(
                mocks@,
                i as int,
                j,
            ) by {
                assert(order@.contains(j as usize));
                let q = choose|q: int| 0 <= q < order@.len() && order@[q] == j as usize;
                if q < k {
                    assert(!eligible(mocks@[order@[q] as int], *req));
                } else {
                    assert(q != k);
                }
            }
            return Some(i);
        }
        k = k + 1;
    }
    assert forall|j: int| 0 <= j < mocks@.len() implies !eligible(#[trigger] mocks@[j], *req) by {
        assert(order@.contains(j as usize));
        let q = choose|q: int| 0 <= q < order@.len() && order@[q] == j as usize;
        assert(!eligible(mocks@[order@[q] as int], *req));
    }
    None
}

/// How the public server answers a request that no route handles.
pub enum MockAnswer {
    /// The selected mock's status code and body.
    Mocked { status: u16, body: String },
    /// No mock applies; the message names the method and path.
    Unmatched { message: String },
}

/// The message sent when no mock applies to a request.
pub open spec fn no_mock_message(method: Seq<char>, path: Seq<char>) -> Seq<char> {
    "No mock configured for "@ + method + " "@ + path
}

/// Answers a request from the registered mocks: the most specific mock whose
/// method, pattern and conditions accept the request, or a message saying
/// that none does.
pub fn answer_request(mocks: &Vec<MockConfig>, req: &IncomingRequest) -> (r: MockAnswer)
    ensures
        match r {
            MockAnswer::Mocked { status, body } => exists|i: int|
                is_best_mock(mocks@, *req, i) && status == mocks@[i].status && body@
                    == mocks@[i].body@,
            MockAnswer::Unmatched { message } => (forall|j: int|
                0 <= j < mocks@.len() ==> !eligible(#[trigger] mocks@[j], *req)) && message@
                == no_mock_message(req.method@, req.path@),
        },
{
    match select_mock(mocks, req) {
        Some(i) => {
            let mock = &mocks[i];
            MockAnswer::Mocked { status: mock.status, body: mock.body.clone() }
        },
        None => {
            let message = String::from_str("No mock configured for ").concat(
                req.method.as_str(),
            ).concat(" ").concat(req.path.as_str());
            MockAnswer::Unmatched { message }
        },
    }
}

/// Law: at most one mock answers a request.
pub proof fn law_best_mock_unique(mocks: Seq<MockConfig>, req: IncomingRequest, i: int, j: int)
    requires
        is_best_mock(mocks, req, i),
        is_best_mock(mocks, req, j),
    ensures
        i == j,
{
    if i != j {
        assert(tried_before(mocks, i, j));
        assert(tried_before(mocks, j, i));
    }
}

/// Law: a mock without conditions answers every request its method and
/// pattern target (an empty condition list matches vacuously).
pub proof fn law_unconditional_mock_applies(m: MockConfig, req: IncomingRequest)
    requires
        m.conditions@.len() == 0,
        targets(m, req.method@, req.path@),
    ensures
        eligible(m, req),
{
}

/// Law: a mock one of whose conditions fails never answers the request.
pub proof fn law_every_condition_required(m: MockConfig, req: IncomingRequest, k: int)
    requires
        0 <= k < m.conditions@.len(),
        !condition_holds(
            m.conditions@[k],
            bindings_map(path_bindings(m.path_pattern@, req.path@)),
            query_map(req.query@),
            pair_views(req.headers@),
        ),
    ensures
        !eligible(m, req),
{
}

/// Law: a matcher never accepts an empty list of values.
pub proof fn law_no_values_no_match(m: ConditionMatcher)
    ensures
        !matcher_accepts(m, Seq::<Seq<char>>::empty()),
{
}

/// Law: when two mocks both accept a request, the one with more conditions
/// answers rather than the other; with as many conditions, the one registered first.
pub proof fn law_most_specific_wins(mocks: Seq<MockConfig>, req: IncomingRequest, i: int, j: int)
    requires
        is_best_mock(mocks, req, i),
        0 <= j < mocks.len(),
        j != i,
        eligible(mocks[j], req),
    ensures
        mocks[i].conditions@.len() >= mocks[j].conditions@.len(),
        mocks[i].conditions@.len() == mocks[j].conditions@.len() ==> i < j,
{
}

/// Law: a regex condition accepts a list of values exactly when its own
/// pattern text, unchanged, compiles and the search for that very text finds
/// one of the values; an exact condition accepts exactly when one value is
/// equal to its text, character for character.
pub proof fn law_matcher_uses_its_own_text(m: ConditionMatcher, vals: Seq<Seq<char>>)
    ensures
        m matches ConditionMatcher::Regex(p) ==> (matcher_accepts(m, vals) <==> regex_compiles(p@)
            && exists|i: int| 0 <= i < vals.len() && regex_finds(p@, #[trigger] vals[i])),
        m matches ConditionMatcher::Exact(e) ==> (matcher_accepts(m, vals) <==> exists|i: int|
            0 <= i < vals.len() && #[trigger] vals[i] =~= e@),
{
    if matcher_accepts(m, vals) {
        let i = choose|i: int| 0 <= i < vals.len() && value_satisfies(m, #[trigger] vals[i]);
        assert(value_satisfies(m, vals[i]));
    }
    match m {
        ConditionMatcher::Regex(p) => {
            if regex_compiles(p@) && exists|i: int| 0 <= i < vals.len() && regex_finds(p@, #[trigger] vals[i]) {
                let i = choose|i: int| 0 <= i < vals.len() && regex_finds(p@, #[trigger] vals[i]);
                assert(value_satisfies(m, vals[i]));
            }
        },
        ConditionMatcher::Exact(e) => {
            if exists|i: int| 0 <= i < vals.len() && #[trigger] vals[i] =~= e@ {
                let i = choose|i: int| 0 <= i < vals.len() && #[trigger] vals[i] =~= e@;
                assert(value_satisfies(m, vals[i]));
            }
        },
    }
}

} // verus!

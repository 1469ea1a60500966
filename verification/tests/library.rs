use rest_mocker::editor::{
    build_conditions, build_mock, build_path_pattern, format_condition, initial_body,
    initial_conditions, initial_param_flags, initial_status, parse_status, path_segments,
    pattern_segments, prefill_segments, segment_strings, toggle_flag, ConditionRow,
};
use rest_mocker::matching::{
    answer_request, any_true, condition_matches, value_verdicts, find_matching_mock, header_values, matcher_matches,
    mock_matches, order_by_specificity, resolve_condition_values, select_mock, IncomingRequest,
    MockAnswer,
};
use rest_mocker::model::{
    ConditionMatcher, ConditionSource, MockCondition, MockConfig, RequestRecord,
};
use rest_mocker::pattern::{extract_path_params, matches_pattern, PathParams};
use rest_mocker::query::{parse_query_params, split_once};
use rest_mocker::registry::{delete_all_mocks, delete_mock, delete_mocks_by_pattern, set_mock};
use rest_mocker::settings::{config_from_settings, port_setting, PortError};
use rest_mocker::text::{
    decimal_string, eq_ignore_ascii_case, parse_u16, split_pieces, split_segments, str_eq, trim,
};

fn cond(source: ConditionSource, key: &str, matcher: ConditionMatcher) -> MockCondition {
    MockCondition { source, key: key.to_string(), matcher }
}

fn mock(method: &str, pattern: &str, status: u16, body: &str, conditions: Vec<MockCondition>) -> MockConfig {
    MockConfig {
        method: method.to_string(),
        path_pattern: pattern.to_string(),
        status,
        body: body.to_string(),
        conditions,
    }
}

fn request(method: &str, path: &str, query: &str, headers: &[(&str, &str)]) -> IncomingRequest {
    IncomingRequest {
        method: method.to_string(),
        path: path.to_string(),
        query: query.to_string(),
        headers: headers.iter().map(|(n, v)| (n.to_string(), v.to_string())).collect(),
    }
}

fn record(method: &str, path: &str) -> RequestRecord {
    RequestRecord { method: method.to_string(), path: path.to_string(), timestamp: 7 }
}

// ───── text ─────

#[test]
fn split_keeps_empty_pieces() {
    assert_eq!(split_pieces("/a//b/", '/'), vec!["", "a", "", "b", ""]);
    assert_eq!(split_pieces("", '&'), vec![""]);
}

#[test]
fn segments_drop_empty_pieces() {
    assert_eq!(split_segments("//users///42/"), vec!["users", "42"]);
    assert!(split_segments("/").is_empty());
}

#[test]
fn string_equality() {
    assert!(str_eq("abc", "abc"));
    assert!(!str_eq("abc", "abd"));
    assert!(!str_eq("abc", "ab"));
}

#[test]
fn ascii_case_insensitive_equality() {
    assert!(eq_ignore_ascii_case("Content-Type", "content-type"));
    assert!(eq_ignore_ascii_case("GET", "get"));
    assert!(!eq_ignore_ascii_case("GET", "POST"));
    assert!(!eq_ignore_ascii_case("É", "é"));
}

#[test]
fn decimal_notation() {
    assert_eq!(decimal_string(0), "0");
    assert_eq!(decimal_string(7), "7");
    assert_eq!(decimal_string(1234), "1234");
    assert_eq!(decimal_string(usize::MAX), usize::MAX.to_string());
}

#[test]
fn trim_unicode_whitespace() {
    assert_eq!(trim("  42\t\n"), "42");
    assert_eq!(trim("\u{3000}x y\u{a0}"), "x y");
    assert_eq!(trim("   "), "");
}

#[test]
fn parse_u16_like_std() {
    for s in ["0", "42", "+7", "65535", "65536", "", "+", "-1", "-0", "12a", " 1", "007", "99999999999"] {
        assert_eq!(parse_u16(s), s.parse::<u16>().ok(), "input {s:?}");
    }
}

// ───── pattern laws ─────

#[test]
fn trailing_slash_does_not_change_segments() {
    assert_eq!(split_segments("/users/42/"), split_segments("/users/42"));
}

#[test]
fn path_matches_itself() {
    assert!(matches_pattern("/a/b/c", "/a/b/c"));
    assert!(matches_pattern("", ""));
}

#[test]
fn pattern_ignores_repeated_slashes() {
    assert!(matches_pattern("//users//:id", "/users/42"));
}

#[test]
fn later_wildcard_with_same_name_wins() {
    let params = extract_path_params("/:id/:id", "/1/2");
    assert_eq!(params.get("id"), Some("2"));
}

#[test]
fn params_bound_even_without_full_match() {
    let params = extract_path_params("/users/:id/x", "/users/9");
    assert_eq!(params.get("id"), Some("9"));
}

#[test]
fn path_params_insert_replaces() {
    let mut p = PathParams::new();
    assert!(p.is_empty());
    p.insert("a", "1");
    p.insert("a", "2");
    assert_eq!(p.get("a"), Some("2"));
    assert_eq!(p.get("b"), None);
    assert!(!p.is_empty());
}

// ───── query ─────

#[test]
fn split_once_at_first_equals() {
    assert_eq!(split_once("a=b=c", '='), Some(("a", "b=c")));
    assert_eq!(split_once("abc", '='), None);
    assert_eq!(split_once("=v", '='), Some(("", "v")));
}

#[test]
fn query_pieces_without_equals_are_ignored() {
    let qp = parse_query_params("flag&a=1&&b=");
    assert_eq!(qp.get("flag"), None);
    assert_eq!(qp.get("a").unwrap(), vec!["1".to_string()]);
    assert_eq!(qp.get("b").unwrap(), vec!["".to_string()]);
    assert!(parse_query_params("novalue").is_empty());
}

// ───── conditions ─────

#[test]
fn header_lookup_ignores_ascii_case() {
    let headers = vec![
        ("X-Token".to_string(), "a".to_string()),
        ("Accept".to_string(), "b".to_string()),
        ("x-token".to_string(), "c".to_string()),
    ];
    assert_eq!(header_values(&headers, "X-TOKEN"), vec!["a".to_string(), "c".to_string()]);
    assert!(header_values(&headers, "missing").is_empty());
}

#[test]
fn resolve_each_source() {
    let pp = extract_path_params("/u/:id", "/u/42");
    let qp = parse_query_params("tag=a&tag=b");
    let headers = vec![("Auth".to_string(), "k".to_string())];
    let path_cond = cond(ConditionSource::PathParam, "id", ConditionMatcher::Exact("42".into()));
    let query_cond = cond(ConditionSource::QueryParam, "tag", ConditionMatcher::Exact("b".into()));
    let header_cond = cond(ConditionSource::Header, "auth", ConditionMatcher::Regex("^k$".into()));
    assert_eq!(resolve_condition_values(&path_cond, &pp, &qp, &headers), vec!["42".to_string()]);
    assert_eq!(
        resolve_condition_values(&query_cond, &pp, &qp, &headers),
        vec!["a".to_string(), "b".to_string()]
    );
    assert_eq!(resolve_condition_values(&header_cond, &pp, &qp, &headers), vec!["k".to_string()]);
    assert!(condition_matches(&path_cond, &pp, &qp, &headers));
    assert!(condition_matches(&query_cond, &pp, &qp, &headers));
    assert!(condition_matches(&header_cond, &pp, &qp, &headers));
    let missing = cond(ConditionSource::Header, "none", ConditionMatcher::Regex(".*".into()));
    assert!(!condition_matches(&missing, &pp, &qp, &headers));
}

#[test]
fn verdicts_per_value() {
    let values = vec!["a1".to_string(), "b".to_string(), "c2".to_string()];
    assert_eq!(value_verdicts(&ConditionMatcher::Regex(r"\d".into()), &values), vec![true, false, true]);
    assert_eq!(value_verdicts(&ConditionMatcher::Regex("(".into()), &values), vec![false, false, false]);
    assert_eq!(value_verdicts(&ConditionMatcher::Exact("b".into()), &values), vec![false, true, false]);
    assert!(any_true(&[false, true]));
    assert!(!any_true(&[false, false]));
    assert!(!any_true(&[]));
}

#[test]
fn regex_searches_anywhere() {
    let m = ConditionMatcher::Regex("es".into());
    assert!(matcher_matches(&m, &["test".into()]));
    assert!(!matcher_matches(&m, &["tast".into()]));
}

// ───── selection ─────

fn registry() -> Vec<MockConfig> {
    vec![
        mock("GET", "/users/:id", 200, "fallback", vec![]),
        mock(
            "GET",
            "/users/:id",
            201,
            "specific",
            vec![cond(ConditionSource::PathParam, "id", ConditionMatcher::Exact("42".into()))],
        ),
        mock(
            "GET",
            "/users/:id",
            202,
            "most_specific",
            vec![
                cond(ConditionSource::PathParam, "id", ConditionMatcher::Exact("42".into())),
                cond(ConditionSource::QueryParam, "verbose", ConditionMatcher::Exact("true".into())),
            ],
        ),
        mock(
            "GET",
            "/users/:id",
            203,
            "also_specific",
            vec![cond(ConditionSource::Header, "x-mode", ConditionMatcher::Exact("on".into()))],
        ),
    ]
}

#[test]
fn order_is_by_specificity_then_registration() {
    assert_eq!(order_by_specificity(&registry()), vec![2, 1, 3, 0]);
    assert_eq!(order_by_specificity(&vec![]), Vec::<usize>::new());
}

#[test]
fn most_specific_mock_answers() {
    let mocks = registry();
    let req = request("get", "/users/42", "verbose=true", &[("X-Mode", "on")]);
    assert_eq!(select_mock(&mocks, &req), Some(2));
    match answer_request(&mocks, &req) {
        MockAnswer::Mocked { status, body } => {
            assert_eq!(status, 202);
            assert_eq!(body, "most_specific");
        }
        MockAnswer::Unmatched { .. } => panic!("a mock applies"),
    }
}

#[test]
fn ties_go_to_the_mock_registered_first() {
    let mocks = registry();
    let req = request("GET", "/users/42", "", &[("x-mode", "on")]);
    assert_eq!(select_mock(&mocks, &req), Some(1));
}

#[test]
fn every_condition_is_required() {
    let mocks = registry();
    let req = request("GET", "/users/7", "verbose=true", &[]);
    assert_eq!(select_mock(&mocks, &req), Some(0));
}

#[test]
fn unconditional_mock_answers_its_pattern() {
    let mocks = vec![mock("POST", "/items", 204, "", vec![])];
    let req = request("post", "/items/", "", &[]);
    assert_eq!(select_mock(&mocks, &req), Some(0));
}

#[test]
fn unmatched_request_gets_message() {
    let mocks = registry();
    let req = request("DELETE", "/users/42", "", &[]);
    assert_eq!(select_mock(&mocks, &req), None);
    match answer_request(&mocks, &req) {
        MockAnswer::Unmatched { message } => {
            assert_eq!(message, "No mock configured for DELETE /users/42");
        }
        MockAnswer::Mocked { .. } => panic!("no mock applies"),
    }
}

#[test]
fn history_entry_finds_first_targeting_mock() {
    let mocks = vec![
        mock("POST", "/users/:id", 200, "", vec![]),
        mock("GET", "/users/:id", 200, "", vec![]),
        mock("get", "/users/:uid", 200, "", vec![]),
    ];
    assert!(mock_matches(&mocks[1], &record("get", "/users/1")));
    assert_eq!(find_matching_mock(&mocks, &record("get", "/users/1")), Some(1));
    assert_eq!(find_matching_mock(&mocks, &record("PUT", "/users/1")), None);
}

// ───── registry ─────

#[test]
fn set_and_delete_mocks() {
    let mut mocks = Vec::new();
    assert_eq!(set_mock(&mut mocks, mock("GET", "/a", 200, "", vec![])), "Mock configured");
    set_mock(&mut mocks, mock("GET", "/b", 200, "", vec![]));
    let r = delete_mock(&mut mocks, 5);
    assert_eq!(r.status, 404);
    assert_eq!(r.body, "Mock index 5 out of range (have 2)");
    assert_eq!(mocks.len(), 2);
    let r = delete_mock(&mut mocks, 0);
    assert_eq!(r.status, 200);
    assert_eq!(r.body, "Mock deleted");
    assert_eq!(mocks[0].path_pattern, "/b");
    assert_eq!(delete_all_mocks(&mut mocks), "All mocks deleted");
    assert!(mocks.is_empty());
}

#[test]
fn delete_by_pattern_removes_exactly_that_pattern() {
    let mut mocks = vec![
        mock("GET", "/a", 200, "1", vec![]),
        mock("GET", "/b", 200, "2", vec![]),
        mock("POST", "/a", 200, "3", vec![]),
        mock("GET", "/c", 200, "4", vec![]),
    ];
    let r = delete_mocks_by_pattern(&mut mocks, "/a");
    assert_eq!(r.status, 200);
    assert_eq!(r.body, "2 mock(s) deleted");
    let bodies: Vec<&str> = mocks.iter().map(|m| m.body.as_str()).collect();
    assert_eq!(bodies, vec!["2", "4"]);
    let r = delete_mocks_by_pattern(&mut mocks, "/a");
    assert_eq!(r.status, 404);
    assert_eq!(r.body, "No mocks found with path pattern '/a'");
    assert_eq!(mocks.len(), 2);
}

// ───── editor ─────

#[test]
fn condition_labels() {
    let c = cond(ConditionSource::QueryParam, "page", ConditionMatcher::Exact("3".into()));
    assert_eq!(format_condition(&c), "query:page = \"3\"");
    let c = cond(ConditionSource::Header, "x-id", ConditionMatcher::Regex("^a+$".into()));
    assert_eq!(format_condition(&c), "header:x-id ~ /^a+$/");
    let c = cond(ConditionSource::PathParam, "id", ConditionMatcher::Exact("".into()));
    assert_eq!(format_condition(&c), "path:id = \"\"");
}

#[test]
fn row_round_trip() {
    for c in [
        cond(ConditionSource::PathParam, "id", ConditionMatcher::Exact("42".into())),
        cond(ConditionSource::QueryParam, "q", ConditionMatcher::Regex("^t".into())),
        cond(ConditionSource::Header, "h", ConditionMatcher::Exact("v".into())),
    ] {
        assert_eq!(ConditionRow::from_condition(&c).to_condition(), c);
    }
}

#[test]
fn new_row_and_unknown_names() {
    let row = ConditionRow::new();
    assert_eq!(row.source, "QueryParam");
    assert_eq!(row.matcher_type, "Exact");
    let odd = ConditionRow {
        source: "Body".into(),
        key: "k".into(),
        matcher_type: "Glob".into(),
        matcher_value: "v".into(),
    };
    assert_eq!(
        odd.to_condition(),
        cond(ConditionSource::QueryParam, "k", ConditionMatcher::Exact("v".into()))
    );
}

#[test]
fn shown_segments_follow_matched_pattern() {
    let entry = record("GET", "/users/42/posts");
    assert_eq!(
        path_segments(&entry, &None),
        vec![("users".to_string(), false), ("42".to_string(), false), ("posts".to_string(), false)]
    );
    let m = mock("GET", "/users/:id", 200, "", vec![]);
    assert_eq!(
        path_segments(&entry, &Some(m)),
        vec![("users".to_string(), false), ("42".to_string(), true)]
    );
    assert_eq!(
        pattern_segments("/a/:b/"),
        vec![("a".to_string(), false), (":b".to_string(), true)]
    );
}

#[test]
fn editor_initial_state() {
    let pf = mock(
        "GET",
        "/users/:uid/x",
        404,
        "gone",
        vec![cond(ConditionSource::Header, "h", ConditionMatcher::Regex("r".into()))],
    );
    assert_eq!(initial_param_flags("/users/5/x/y", &Some(pf.clone())), vec![false, true, false, false]);
    assert_eq!(initial_param_flags("/users/5", &None), vec![false, false]);
    assert_eq!(initial_status(&Some(pf.clone())), "404");
    assert_eq!(initial_status(&None), "200");
    assert_eq!(initial_body(&Some(pf.clone())), "gone");
    assert_eq!(initial_body(&None), "");
    let rows = initial_conditions(&Some(pf.clone()));
    assert_eq!(rows.len(), 1);
    assert_eq!(rows[0].source, "Header");
    assert_eq!(rows[0].matcher_type, "Regex");
    assert!(initial_conditions(&None).is_empty());
    assert_eq!(prefill_segments(&Some(pf)), vec!["users".to_string(), ":uid".to_string(), "x".to_string()]);
}

#[test]
fn built_pattern_reuses_names_and_matches_path() {
    let segs = segment_strings("/users/42/posts/7");
    let prefill = segment_strings("/users/:uid");
    let flags = vec![false, true, false, true];
    let pattern = build_path_pattern(&segs, &flags, &prefill);
    assert_eq!(pattern, "/users/:uid/posts/:param3");
    assert!(matches_pattern(&pattern, "/users/42/posts/7"));
    assert_eq!(build_path_pattern(&Vec::new(), &Vec::new(), &Vec::new()), "/");
}

#[test]
fn clicking_a_segment_toggles_it() {
    let mut flags = vec![false, false];
    toggle_flag(&mut flags, 1);
    assert_eq!(flags, vec![false, true]);
    toggle_flag(&mut flags, 1);
    assert_eq!(flags, vec![false, false]);
}

#[test]
fn status_text_is_read_or_defaults() {
    assert_eq!(parse_status(" 404 "), 404);
    assert_eq!(parse_status("abc"), 200);
    assert_eq!(parse_status("70000"), 200);
    assert_eq!(parse_status(""), 200);
}

#[test]
fn saved_mock_drops_rows_without_key() {
    let mut rows = vec![ConditionRow::new(), ConditionRow::new()];
    rows[1].key = "page".into();
    rows[1].matcher_value = "2".into();
    assert_eq!(
        build_conditions(&rows),
        vec![cond(ConditionSource::QueryParam, "page", ConditionMatcher::Exact("2".into()))]
    );
    let m = build_mock("GET", "/p".to_string(), "201", "b".to_string(), &rows);
    assert_eq!(m.method, "GET");
    assert_eq!(m.status, 201);
    assert_eq!(m.conditions.len(), 1);
}

// ───── settings ─────

#[test]
fn ports_from_settings() {
    assert_eq!(port_setting(None, 9090), Some(9090));
    assert_eq!(port_setting(Some("80"), 9090), Some(80));
    assert_eq!(port_setting(Some("x"), 9090), None);
    let c = config_from_settings(None, Some("1234")).unwrap();
    assert_eq!((c.public_port, c.private_port), (9090, 1234));
    assert_eq!(config_from_settings(Some("bad"), Some("bad")), Err(PortError::InvalidPublic));
    assert_eq!(config_from_settings(Some("1"), Some("99999")), Err(PortError::InvalidPrivate));
}

use rest_mocker::matching::matcher_matches;
use rest_mocker::model::{ConditionMatcher, ConditionSource, MockCondition, MockConfig};
use rest_mocker::pattern::{extract_path_params, matches_pattern, PathParams};
use rest_mocker::query::{parse_query_params, QueryParams};

// ───── matches_pattern ─────

#[test]
fn pattern_exact_match() {
    assert!(matches_pattern("/users", "/users"));
}

#[test]
fn pattern_with_wildcard() {
    assert!(matches_pattern("/users/:id", "/users/42"));
}

#[test]
fn pattern_multiple_wildcards() {
    assert!(matches_pattern("/users/:id/posts/:pid", "/users/1/posts/99"));
}

#[test]
fn pattern_mismatch_different_segment_count() {
    assert!(!matches_pattern("/users/:id", "/users/42/extra"));
}

#[test]
fn pattern_mismatch_literal_segment() {
    assert!(!matches_pattern("/users/admin", "/users/42"));
}

#[test]
fn pattern_root() {
    assert!(matches_pattern("/", "/"));
}

#[test]
fn pattern_trailing_slash_ignored() {
    // Both split to the same segments because empty strings are filtered.
    assert!(matches_pattern("/users/", "/users"));
}

// ───── extract_path_params ─────

#[test]
fn extract_single_param() {
    let params = extract_path_params("/users/:id", "/users/42");
    assert_eq!(params.get("id"), Some("42"));
}

#[test]
fn extract_multiple_params() {
    let params = extract_path_params("/users/:uid/posts/:pid", "/users/5/posts/17");
    assert_eq!(params.get("uid"), Some("5"));
    assert_eq!(params.get("pid"), Some("17"));
}

#[test]
fn extract_no_params() {
    let params = extract_path_params("/static/path", "/static/path");
    assert!(params.is_empty());
}

// ───── parse_query_params ─────

#[test]
fn parse_simple_query() {
    let qp = parse_query_params("a=1&b=2");
    assert_eq!(qp.get("a").unwrap(), vec!["1".to_string()]);
    assert_eq!(qp.get("b").unwrap(), vec!["2".to_string()]);
}

#[test]
fn parse_repeated_key() {
    let qp = parse_query_params("x=1&x=2&x=3");
    assert_eq!(
        qp.get("x").unwrap(),
        vec!["1".to_string(), "2".to_string(), "3".to_string()]
    );
}

#[test]
fn parse_empty_query() {
    let qp = parse_query_params("");
    assert!(qp.is_empty());
}

// ───── matcher_matches ─────

#[test]
fn exact_matcher_hit() {
    let m = ConditionMatcher::Exact("42".into());
    assert!(matcher_matches(&m, &["42".into()]));
}

#[test]
fn exact_matcher_miss() {
    let m = ConditionMatcher::Exact("42".into());
    assert!(!matcher_matches(&m, &["99".into()]));
}

#[test]
fn exact_matcher_case_sensitive() {
    let m = ConditionMatcher::Exact("Hello".into());
    assert!(!matcher_matches(&m, &["hello".into()]));
}

#[test]
fn regex_matcher_hit() {
    let m = ConditionMatcher::Regex("^test".into());
    assert!(matcher_matches(&m, &["testing123".into()]));
}

#[test]
fn regex_matcher_miss() {
    let m = ConditionMatcher::Regex("^test".into());
    assert!(!matcher_matches(&m, &["notest".into()]));
}

#[test]
fn regex_matcher_full_match() {
    let m = ConditionMatcher::Regex(r"^\d+$".into());
    assert!(matcher_matches(&m, &["12345".into()]));
    assert!(!matcher_matches(&m, &["abc".into()]));
}

#[test]
fn regex_matcher_invalid_regex_returns_false() {
    let m = ConditionMatcher::Regex("[".into()); // invalid regex
    assert!(!matcher_matches(&m, &["anything".into()]));
}

#[test]
fn matcher_empty_values_returns_false() {
    let m = ConditionMatcher::Exact("42".into());
    assert!(!matcher_matches(&m, &[]));
}

#[test]
fn matcher_any_value_satisfies() {
    // At least one value must match.
    let m = ConditionMatcher::Exact("b".into());
    assert!(matcher_matches(&m, &["a".into(), "b".into(), "c".into()]));
}

// ───── condition evaluation with path / query params ─────

#[test]
fn condition_path_param_exact_match() {
    let cond = MockCondition {
        source: ConditionSource::PathParam,
        key: "id".into(),
        matcher: ConditionMatcher::Exact("42".into()),
    };
    let mut path_params = PathParams::new();
    path_params.insert("id", "42");
    assert!(matcher_matches(
        &cond.matcher,
        &path_params
            .get(cond.key.as_str())
            .map(|v| vec![v.to_string()])
            .unwrap_or_default(),
    ));

    // Non-matching value
    let mut path_params2 = PathParams::new();
    path_params2.insert("id", "99");
    assert!(!matcher_matches(
        &cond.matcher,
        &path_params2
            .get(cond.key.as_str())
            .map(|v| vec![v.to_string()])
            .unwrap_or_default(),
    ));
}

#[test]
fn condition_path_param_missing_key() {
    let cond = MockCondition {
        source: ConditionSource::PathParam,
        key: "missing".into(),
        matcher: ConditionMatcher::Exact("42".into()),
    };
    let mut path_params = PathParams::new();
    path_params.insert("id", "42");
    assert!(!matcher_matches(
        &cond.matcher,
        &path_params
            .get(cond.key.as_str())
            .map(|v| vec![v.to_string()])
            .unwrap_or_default(),
    ));
}

#[test]
fn condition_query_param_exact() {
    let cond = MockCondition {
        source: ConditionSource::QueryParam,
        key: "page".into(),
        matcher: ConditionMatcher::Exact("3".into()),
    };
    let query_params = parse_query_params("page=3&limit=10");
    let values = query_params.get(&cond.key).unwrap_or_default();
    assert!(matcher_matches(&cond.matcher, &values));
}

#[test]
fn condition_query_param_regex() {
    let cond = MockCondition {
        source: ConditionSource::QueryParam,
        key: "q".into(),
        matcher: ConditionMatcher::Regex("^test".into()),
    };
    let query_params = parse_query_params("q=testing&page=1");
    let values = query_params.get(&cond.key).unwrap_or_default();
    assert!(matcher_matches(&cond.matcher, &values));
}

#[test]
fn condition_query_param_repeated_any_matches() {
    let cond = MockCondition {
        source: ConditionSource::QueryParam,
        key: "tag".into(),
        matcher: ConditionMatcher::Exact("rust".into()),
    };
    let query_params = parse_query_params("tag=go&tag=rust&tag=python");
    let values = query_params.get(&cond.key).unwrap_or_default();
    assert!(matcher_matches(&cond.matcher, &values));
}

#[test]
fn condition_query_param_missing_key() {
    let cond = MockCondition {
        source: ConditionSource::QueryParam,
        key: "missing".into(),
        matcher: ConditionMatcher::Exact("any".into()),
    };
    let query_params = parse_query_params("page=1");
    let values = query_params.get(&cond.key).unwrap_or_default();
    assert!(!matcher_matches(&cond.matcher, &values));
}

// ───── integration-style: multiple conditions ─────

#[test]
fn all_conditions_must_match() {
    let conditions = [
        MockCondition {
            source: ConditionSource::PathParam,
            key: "id".into(),
            matcher: ConditionMatcher::Exact("42".into()),
        },
        MockCondition {
            source: ConditionSource::QueryParam,
            key: "verbose".into(),
            matcher: ConditionMatcher::Exact("true".into()),
        },
    ];

    let mut path_params = PathParams::new();
    path_params.insert("id", "42");
    let query_params = parse_query_params("verbose=true");

    // All match
    let all_pass = conditions.iter().all(|c| {
        let values = match &c.source {
            ConditionSource::PathParam => path_params
                .get(c.key.as_str())
                .map(|v| vec![v.to_string()])
                .unwrap_or_default(),
            ConditionSource::QueryParam => query_params.get(&c.key).unwrap_or_default(),
            _ => vec![],
        };
        matcher_matches(&c.matcher, &values)
    });
    assert!(all_pass);

    // One fails → overall fails
    let query_params_bad = parse_query_params("verbose=false");
    let all_pass2 = conditions.iter().all(|c| {
        let values = match &c.source {
            ConditionSource::PathParam => path_params
                .get(c.key.as_str())
                .map(|v| vec![v.to_string()])
                .unwrap_or_default(),
            ConditionSource::QueryParam => query_params_bad.get(&c.key).unwrap_or_default(),
            _ => vec![],
        };
        matcher_matches(&c.matcher, &values)
    });
    assert!(!all_pass2);
}

#[test]
fn empty_conditions_always_match() {
    let conditions: Vec<MockCondition> = vec![];
    let path_params = PathParams::new();
    let query_params = QueryParams::new();

    let all_pass = conditions.iter().all(|c| {
        let values: Vec<String> = match &c.source {
            ConditionSource::PathParam => path_params
                .get(c.key.as_str())
                .map(|v| vec![v.to_string()])
                .unwrap_or_default(),
            ConditionSource::QueryParam => query_params.get(&c.key).unwrap_or_default(),
            _ => vec![],
        };
        matcher_matches(&c.matcher, &values)
    });
    assert!(all_pass, "empty conditions should vacuously match");
}

// ───── specificity ordering ─────

#[test]
fn more_conditions_sorted_first() {
    let mocks = [
        MockConfig {
            method: "GET".into(),
            path_pattern: "/users/:id".into(),
            status: 200,
            body: "fallback".into(),
            conditions: vec![],
        },
        MockConfig {
            method: "GET".into(),
            path_pattern: "/users/:id".into(),
            status: 200,
            body: "specific".into(),
            conditions: vec![MockCondition {
                source: ConditionSource::PathParam,
                key: "id".into(),
                matcher: ConditionMatcher::Exact("42".into()),
            }],
        },
        MockConfig {
            method: "GET".into(),
            path_pattern: "/users/:id".into(),
            status: 200,
            body: "most_specific".into(),
            conditions: vec![
                MockCondition {
                    source: ConditionSource::PathParam,
                    key: "id".into(),
                    matcher: ConditionMatcher::Exact("42".into()),
                },
                MockCondition {
                    source: ConditionSource::QueryParam,
                    key: "verbose".into(),
                    matcher: ConditionMatcher::Exact("true".into()),
                },
            ],
        },
    ];

    let mut candidates: Vec<_> = mocks.iter().collect();
    candidates.sort_by(|a, b| b.conditions.len().cmp(&a.conditions.len()));

    assert_eq!(candidates[0].body, "most_specific");
    assert_eq!(candidates[1].body, "specific");
    assert_eq!(candidates[2].body, "fallback");
}

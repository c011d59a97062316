use sshpick::fuzzy::{fuzzy_match, fuzzy_search};

#[test]
fn test_fuzzy_match() {
    assert!(fuzzy_match("production-server-01", "prod").is_some());
    assert!(fuzzy_match("development-api", "dev").is_some());
    assert!(fuzzy_match("web-server", "web").is_some());
    assert!(fuzzy_match("database", "xyz").is_none());
}

#[test]
fn test_fuzzy_search() {
    let items: Vec<String> = vec![
        "production-server-01".to_string(),
        "development-api".to_string(),
        "web-server".to_string(),
        "database-prod".to_string(),
    ];

    let results = fuzzy_search(&items, "prod");
    assert!(!results.is_empty());

    // Should match both "production-server-01" and "database-prod"
    assert!(results.len() >= 2);
}

#[test]
fn exact_scores() {
    // p starts a word (+5+15), then r, o, d continue the run (+10 each),
    // plus 1000 / (len + 1)
    assert_eq!(fuzzy_match("prod-web-01", "prod"), Some(50 + 1000 / 12));
    assert_eq!(fuzzy_match("prod-db", "prod"), Some(50 + 1000 / 8));
    assert_eq!(fuzzy_match("production-server-01", "prod"), Some(50 + 1000 / 21));
}

#[test]
fn run_bonus_needs_a_previous_match() {
    // 'b' first matches at index 1: an isolated first match (+5), not the
    // continuation of a run
    assert_eq!(fuzzy_match("ab", "b"), Some(5 + 1000 / 3));
    // with 'a' already matched at index 0, 'b' at index 1 does continue a
    // run (+10)
    assert_eq!(fuzzy_match("xab", "ab"), Some(5 + 10 + 1000 / 4));
}

#[test]
fn empty_query_scores_zero() {
    assert_eq!(fuzzy_match("anything", ""), Some(0));
    assert_eq!(fuzzy_match("", ""), Some(0));
}

#[test]
fn empty_candidate_never_matches_nonempty_query() {
    assert_eq!(fuzzy_match("", "a"), None);
}

#[test]
fn subsequence_must_be_in_order() {
    assert!(fuzzy_match("abc", "ac").is_some());
    assert!(fuzzy_match("abc", "ca").is_none());
}

#[test]
fn search_is_case_insensitive() {
    let items: Vec<String> = vec!["WEB-Server".to_string()];
    let results = fuzzy_search(&items, "webs");
    assert_eq!(results.len(), 1);
    assert_eq!(results[0].0, 0);
    assert_eq!(results[0].1, "WEB-Server");

    let upper_query = fuzzy_search(&vec!["web".to_string()], "WEB");
    assert_eq!(upper_query.len(), 1);
}

#[test]
fn search_ranks_by_score_descending() {
    let items: Vec<String> = vec![
        "prod-web-01".to_string(),
        "dev-api".to_string(),
        "web-cache".to_string(),
        "prod-db".to_string(),
    ];
    let results = fuzzy_search(&items, "prod");
    // exactly the two prod hosts match; the shorter label earns the larger
    // length-normalization term, so prod-db ranks first
    assert_eq!(results.len(), 2);
    assert_eq!(results[0], (3, "prod-db".to_string()));
    assert_eq!(results[1], (0, "prod-web-01".to_string()));
}

#[test]
fn search_breaks_ties_by_original_index() {
    let items: Vec<String> = vec!["axy".to_string(), "bxy".to_string()];
    let results = fuzzy_search(&items, "x");
    assert_eq!(results.len(), 2);
    assert_eq!(results[0], (0, "axy".to_string()));
    assert_eq!(results[1], (1, "bxy".to_string()));
}

#[test]
fn search_drops_non_matches() {
    let items: Vec<String> = vec!["alpha".to_string()];
    let results = fuzzy_search(&items, "z");
    assert!(results.is_empty());
}

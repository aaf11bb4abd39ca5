use cross_seed::candidate::get_best_candidate;
use cross_seed::path::remove_common_suffix;

fn best(path: &str, candidates: &[&str], hint: Option<&str>) -> Option<(String, String)> {
    let candidates: Vec<String> = candidates.iter().map(|c| c.to_string()).collect();
    get_best_candidate(path, &candidates, &hint.map(|h| h.to_string()))
}

fn pair(a: &str, b: &str) -> Option<(String, String)> {
    Some((a.to_string(), b.to_string()))
}

#[test]
fn remove_common_suffix_all_unique() {
    // Absolute
    assert_eq!(remove_common_suffix("/a/b/c", "/d/e"), None);
    assert_eq!(remove_common_suffix("/a/b/c", "/d/e/f"), None);
    assert_eq!(remove_common_suffix("/a/b/c", "/d/e/f/g"), None);

    // Relative
    assert_eq!(remove_common_suffix("/a/b/c", "d/e"), None);
    assert_eq!(remove_common_suffix("/a/b/c", "d/e/f"), None);
    assert_eq!(remove_common_suffix("/a/b/c", "d/e/f/g"), None);
}

#[test]
fn remove_common_suffix_partial_shared() {
    assert_eq!(remove_common_suffix("/a/b/c", "/b/c"), None);
    assert_eq!(remove_common_suffix("/a/b/c", "b/c"), Some("/a".to_string()));
}

#[test]
fn remove_common_suffix_all_shared() {
    assert_eq!(remove_common_suffix("/a/b/c", "/a/b/c"), None);
    assert_eq!(remove_common_suffix("/a/b/c", "a/b/c"), Some("/".to_string()));
}

#[test]
fn remove_common_suffix_scenario_values() {
    assert_eq!(remove_common_suffix("/a/b/c", "/b/c"), None);
    assert_eq!(remove_common_suffix("/a/b/c", "b/c"), Some("/a".to_string()));
    assert_eq!(remove_common_suffix("/a/b/c", "a/b/c"), Some("/".to_string()));
    assert_eq!(remove_common_suffix("/a/b/c", "/d/e"), None);
}

#[test]
fn remove_common_suffix_empty_suffix_keeps_path() {
    assert_eq!(remove_common_suffix("/a/b", ""), Some("/a/b".to_string()));
}

#[test]
fn get_best_candidate_single_option() {
    assert_eq!(best("b/c", &["/a/b/c"], None), pair("b/c", "/a/b/c"));

    // With only a single option, `preferred_prefix` should have no effect on the result.
    assert_eq!(best("b/c", &["/a/b/c"], Some("/a2/b2/c2")), pair("b/c", "/a/b/c"));

    assert_eq!(best("b/c", &["/a/b/c"], Some("/a/b/c")), pair("b/c", "/a/b/c"));
}

#[test]
fn get_best_candidate_preferred_prefix_disambiguates() {
    assert_eq!(best("b/c", &["/a/b/c", "/a2/b/c"], Some("/a")), pair("b/c", "/a/b/c"));
    assert_eq!(best("b/c", &["/a/b/c", "/a2/b/c"], Some("/a/b")), pair("b/c", "/a/b/c"));
    assert_eq!(best("b/c", &["/a/b/c", "/a2/b/c"], Some("/a/b2")), pair("b/c", "/a/b/c"));
}

#[test]
fn get_best_candidate_preferred_prefix_matches_nothing() {
    assert_eq!(best("b/c", &["/a/b/c", "/a2/b/c"], Some("/e")), pair("b/c", "/a2/b/c"));
}

#[test]
fn get_best_candidate_longest_shared_suffix_wins() {
    assert_eq!(best("b/c", &["/a/b/c", "/a/b2/c"], None), pair("b/c", "/a/b/c"));
}

#[test]
fn get_best_candidate_shared_longest_shared_suffix() {
    assert_eq!(best("b/c", &["/a/b/c", "/a2/b/c"], None), pair("b/c", "/a2/b/c"));
}

#[test]
fn get_best_candidate_prefer_suffix_over_prefix() {
    assert_eq!(best("b/c", &["/a/b/c", "/a/b2/c"], Some("/a/b2")), pair("b/c", "/a/b/c"));
}

#[test]
fn get_best_candidate_no_candidates() {
    assert_eq!(best("b/c", &[], None), None);
}

#[test]
fn get_best_candidate_order_does_not_matter() {
    assert_eq!(best("b/c", &["/a2/b/c", "/a/b/c"], Some("/a")), pair("b/c", "/a/b/c"));
    assert_eq!(best("b/c", &["/a2/b/c", "/a/b/c"], None), pair("b/c", "/a2/b/c"));
}

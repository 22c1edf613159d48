use close_enough::path::path_matches;
use close_enough::select::close_enough;

fn test(options: &[&str], query: &str, expected: Option<&str>) {
    assert_eq!(close_enough(options, query), expected.as_ref());
}

#[test]
fn no_options_returns_none() {
    test(&[], "blah", None);
}

#[test]
fn single_option_returned_on_match() {
    test(&["only"], "only", Some("only"));
}

#[test]
fn single_option_returns_none_if_not_match() {
    test(&["only"], "different", None);
}

#[test]
fn multiple_options_returns_matching() {
    test(&["one", "two"], "two", Some("two"));
}

#[test]
fn partial_match_returns_answer() {
    test(&["only"], "on", Some("only"));
}

#[test]
fn matching_is_case_insensitive() {
    test(&["OnLy"], "only", Some("OnLy"));
}

#[test]
fn multiple_partial_matches_return_shortest_answer() {
    test(&["item_the_first", "item"], "it", Some("item"));
}

#[test]
fn entire_query_must_be_present_for_match() {
    test(&["item_the_first"], "item_the_fist", None);
}

#[test]
fn can_match_from_beyond_start() {
    test(&["theonlyitem"], "only", Some("theonlyitem"));
}

#[test]
fn failed_match_looks_to_next_word() {
    test(
        &["A very_big-longMatch"],
        "avblm",
        Some("A very_big-longMatch"),
    );
}

#[test]
fn failed_match_does_not_look_within_same_word() {
    test(&["averybiglongmatch"], "avblm", None);
}

#[test]
fn works_on_useful_collection_types() {
    assert_eq!(
        close_enough(["a", "thing"].iter().as_slice(), "thing"),
        Some(&"thing")
    );
    assert_eq!(close_enough(&["a", "thing"], "thing"), Some(&"thing"));
    assert_eq!(close_enough(&vec!["a", "thing"], "thing"), Some(&"thing"));
    assert_eq!(
        close_enough(&vec!["a".to_owned(), "thing".to_owned()], "thing"),
        Some(&"thing".to_owned())
    );
}

#[test]
fn close_enough_match_succeeds() {
    assert!(close_enough::matcher::matches("candidate", "c"));
    assert!(close_enough::matcher::matches("candidate", "and"));
    assert!(close_enough::matcher::matches("candidate", "can"));
    assert!(close_enough::matcher::matches("one-little_candidate", "olc"));
}

#[test]
fn close_enough_match_fails() {
    assert!(!close_enough::matcher::matches("candidate", "ae"));
    assert!(!close_enough::matcher::matches("candidate", "asfdghdkfj"));
    assert!(!close_enough::matcher::matches("one-little_candidate", "olx"));
    assert!(!close_enough::matcher::matches("", "t"));
}

#[test]
fn path_matches_succeeds() {
    assert!(path_matches("one/two/three", &["one", "two", "three"]));
    assert!(path_matches("one/two/three", &["o", "t", "t"]));
    assert!(path_matches(
        "first_dir/second-dir/third",
        &["fd", "sd", "th"]
    ));
}

#[test]
fn path_matches_fails() {
    assert!(!path_matches("one/two/three", &["one"]));
    assert!(!path_matches(
        "one/two/three",
        &["one", "two", "three", "four"]
    ));
}

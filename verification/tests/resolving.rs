use close_enough::path::WorkingPath;
use close_enough::resolve::{resolve, resolve_tokens, NoMatch, Progress};
use close_enough::token::Token;
use close_enough::search::{find_nearest, find_shortest, narrow};

fn list(names: &[&str]) -> Vec<String> {
    names.iter().map(|name| (*name).to_owned()).collect()
}

fn rendered(paths: &[WorkingPath]) -> Vec<String> {
    paths.iter().map(|path| path.render()).collect()
}

/// A file system for the tests: the directories that exist, as texts, in
/// path order.
struct Tree {
    dirs: Vec<&'static str>,
}

impl Tree {
    fn new(dirs: &[&'static str]) -> Tree {
        let mut dirs = dirs.to_vec();
        dirs.sort_by(|a, b| {
            let a: Vec<&str> = a.split('/').collect();
            let b: Vec<&str> = b.split('/').collect();
            a.cmp(&b)
        });
        Tree { dirs }
    }

    fn below(&self, root: &str) -> Vec<Vec<String>> {
        let prefix = if root.ends_with('/') {
            root.to_owned()
        } else {
            format!("{}/", root)
        };
        let mut entries = vec![Vec::new()];
        for dir in &self.dirs {
            if let Some(rest) = dir.strip_prefix(&prefix) {
                if !rest.is_empty() {
                    entries.push(rest.split('/').map(|name| name.to_owned()).collect());
                }
            }
        }
        entries
    }

    fn children(&self, dir: &str) -> Vec<String> {
        self.below(dir)
            .into_iter()
            .filter(|entry| entry.len() == 1)
            .map(|mut entry| entry.remove(0))
            .collect()
    }

    fn run(&self, start: &str, words: &[&str]) -> Result<String, NoMatch> {
        let mut progress = resolve(WorkingPath::parse(start), &list(words));
        loop {
            progress = match progress {
                Progress::Done(path) => return Ok(path.render()),
                Progress::Failed(failure) => return Err(failure),
                Progress::Walk(descent) => {
                    let entries = self.below(&descent.root().render());
                    descent.feed(&entries)
                }
                Progress::List(narrowing) => {
                    let listings: Vec<Vec<String>> = narrowing
                        .paths()
                        .iter()
                        .map(|path| self.children(&path.render()))
                        .collect();
                    narrowing.feed(&listings)
                }
            };
        }
    }
}

fn sample() -> Tree {
    Tree::new(&[
        "/w",
        "/w/abacus",
        "/w/abacus/cd",
        "/w/abacus/code",
        "/w/abx",
        "/w/abx/cdrom",
        "/w/abx/other",
        "/w/deep",
        "/w/deep/er",
        "/w/deep/er/sub",
        "/w/deep/submarine",
        "/w/misc",
        "/w/misc/subway",
        "/w/zsub",
        "/elsewhere",
        "/elsewhere/far",
    ])
}

#[test]
fn no_tokens_leave_the_path_alone() {
    assert_eq!(sample().run("/w/deep", &[]).unwrap(), "/w/deep");
}

#[test]
fn two_dots_two_pops_exactly_two_names() {
    let tree = sample();
    assert_eq!(tree.run("/w/deep/er/sub", &["..2"]).unwrap(), "/w/deep");
    assert_eq!(tree.run("/w/deep", &["..2"]).unwrap(), "/");
    assert_eq!(tree.run("/w/deep/er", &[".."]).unwrap(), "/w/deep");
    assert_eq!(tree.run("/w/deep/er", &["..0"]).unwrap(), "/w/deep/er");
}

#[test]
fn popping_past_the_root_stays_at_the_root() {
    assert_eq!(sample().run("/w/deep", &["..9"]).unwrap(), "/");
    assert_eq!(sample().run("/", &[".."]).unwrap(), "/");
}

#[test]
fn a_root_token_replaces_the_path() {
    let tree = sample();
    assert_eq!(tree.run("/w/deep", &["/elsewhere"]).unwrap(), "/elsewhere");
    assert_eq!(tree.run("/w/deep", &["/elsewhere/"]).unwrap(), "/elsewhere");
    assert_eq!(tree.run("/w/deep", &["/elsewhere", "far"]).unwrap(), "/elsewhere/far");
    assert_eq!(tree.run("/w/deep", &["/elsewhere/far", ".."]).unwrap(), "/elsewhere");
    assert_eq!(tree.run("/w/deep", &["/"]).unwrap(), "");
}

#[test]
fn an_ancestor_query_climbs_to_the_first_matching_name() {
    let tree = sample();
    assert_eq!(tree.run("/w/deep/er/sub", &["..de"]).unwrap(), "/w/deep");
    assert_eq!(tree.run("/w/deep/er/sub", &["..w"]).unwrap(), "/w");
    assert_eq!(tree.run("/w/deep/er/sub", &["..sub"]).unwrap(), "/w/deep/er/sub");
}

#[test]
fn an_ancestor_query_that_matches_nothing_fails() {
    let failure = sample().run("/w/deep/er", &["..nope", "x"]).unwrap_err();
    assert_eq!(failure.query, "nope");
    assert_eq!(failure.reached.render(), "/w/deep/er");
    assert!(!failure.in_tree);
    assert_eq!(
        failure.message(),
        "ce: No directory name matching 'nope': Reached '/w/deep/er'"
    );
}

#[test]
fn percent_finds_the_nearest_directory_below() {
    let tree = sample();
    // "zsub" lies one level down; the others that match lie deeper
    assert_eq!(tree.run("/w", &["%sub"]).unwrap(), "/w/zsub");
    // from "/w/deep" the nearest is "submarine", although "sub" is shorter
    assert_eq!(tree.run("/w/deep", &["%sub"]).unwrap(), "/w/deep/submarine");
    assert_eq!(tree.run("/w/deep/er", &["%sub"]).unwrap(), "/w/deep/er/sub");
}

#[test]
fn percent_takes_the_first_in_path_order_among_the_nearest() {
    let tree = Tree::new(&["/r", "/r/b", "/r/b/xa", "/r/a", "/r/a/xb", "/r/a/xc"]);
    assert_eq!(tree.run("/r", &["%x"]).unwrap(), "/r/a/xb");
}

#[test]
fn percent_does_not_select_the_working_path_itself() {
    let tree = sample();
    let failure = tree.run("/w/zsub", &["%sub"]).unwrap_err();
    assert_eq!(failure.query, "sub");
    assert_eq!(tree.run("/w/deep/er/sub", &["..er", "%sub"]).unwrap(), "/w/deep/er/sub");
}

#[test]
fn percent_without_a_match_names_the_query_and_the_path() {
    let failure = sample().run("/w/abx", &["%sub"]).unwrap_err();
    assert_eq!(failure.query, "sub");
    assert_eq!(failure.reached.render(), "/w/abx");
    assert!(failure.in_tree);
    assert_eq!(
        failure.message(),
        "ce: No directory name matching in tree 'sub': Reached '/w/abx'"
    );
}

#[test]
fn a_chain_narrows_level_by_level_and_commits_to_the_shortest() {
    let tree = sample();
    // "ab" keeps abacus and abx; "cd" keeps abacus/cd and abx/cdrom
    assert_eq!(tree.run("/w", &["ab", "cd"]).unwrap(), "/w/abacus/cd");
    // taken one at a time the shorter "abx" would have been committed first
    assert_eq!(tree.run("/w", &["ab"]).unwrap(), "/w/abx");
    assert_eq!(tree.run("/w", &["ab", "cdr"]).unwrap(), "/w/abx/cdrom");
    assert_eq!(tree.run("/w", &["ab", "co"]).unwrap(), "/w/abacus/code");
}

#[test]
fn a_chain_is_cut_by_a_token_of_another_kind() {
    let tree = sample();
    assert_eq!(tree.run("/w", &["ab", "..", "de", "er"]).unwrap(), "/w/deep/er");
    assert_eq!(tree.run("/w", &["de", "%sub"]).unwrap(), "/w/deep/submarine");
    assert_eq!(tree.run("/w/deep", &["%sub", "..2", "mi", "sub"]).unwrap(), "/w/misc/subway");
}

#[test]
fn a_chain_that_dies_out_names_its_last_token() {
    let failure = sample().run("/w", &["ab", "nope", "later"]).unwrap_err();
    assert_eq!(failure.query, "later");
    assert_eq!(failure.reached.render(), "/w");
    assert!(failure.in_tree);

    let cut = sample().run("/w", &["nope", "later", "..", "x"]).unwrap_err();
    assert_eq!(cut.query, "later");

    let single = sample().run("/w/abx", &["zz"]).unwrap_err();
    assert_eq!(single.query, "zz");
    assert_eq!(
        single.message(),
        "ce: No directory name matching in tree 'zz': Reached '/w/abx'"
    );
}

#[test]
fn a_failure_stops_the_resolution_at_once() {
    let failure = sample().run("/w/deep", &["..2", "%nope", "/elsewhere"]).unwrap_err();
    assert_eq!(failure.query, "nope");
    assert_eq!(failure.reached.render(), "/");
}

#[test]
fn trailing_slashes_are_taken_off_every_token() {
    let tree = sample();
    assert_eq!(tree.run("/w", &["ab/", "cd/"]).unwrap(), "/w/abacus/cd");
    assert_eq!(tree.run("/w/deep", &["%sub/"]).unwrap(), "/w/deep/submarine");
    assert_eq!(tree.run("/w/deep/er", &["../"]).unwrap(), "/w/deep");
}

#[test]
fn a_waiting_resolution_tells_what_it_waits_for() {
    match resolve(WorkingPath::parse("/w/deep"), &list(&["..", "%sub", "x"])) {
        Progress::Walk(descent) => {
            assert_eq!(descent.root().render(), "/w");
            assert_eq!(descent.query(), "sub");
        }
        other => panic!("unexpected {:?}", other),
    }
    match resolve(WorkingPath::parse("/w"), &list(&["ab", "cd"])) {
        Progress::List(narrowing) => {
            assert_eq!(rendered(narrowing.paths()), ["/w"]);
            assert_eq!(narrowing.query(), "ab");
            match narrowing.feed(&[list(&["abacus", "abx", "deep"])]) {
                Progress::List(next) => {
                    assert_eq!(rendered(next.paths()), ["/w/abacus", "/w/abx"]);
                    assert_eq!(next.query(), "cd");
                }
                other => panic!("unexpected {:?}", other),
            }
        }
        other => panic!("unexpected {:?}", other),
    }
}

#[test]
fn nearest_prefers_depth_over_length_and_order() {
    let entries = vec![
        list(&[]),
        list(&["a"]),
        list(&["a", "sub"]),
        list(&["submarine"]),
        list(&["subway"]),
        list(&["z", "s"]),
    ];
    assert_eq!(find_nearest(&entries, "sub"), Some(3));
    assert_eq!(find_nearest(&entries, "s"), Some(3));
    assert_eq!(find_nearest(&entries, "subw"), Some(4));
    assert_eq!(find_nearest(&entries, "a"), Some(1));
    assert_eq!(find_nearest(&entries, "q"), None);
    assert_eq!(find_nearest(&[], "a"), None);
    // only the directory's own name counts, not the names on the way to it
    assert_eq!(find_nearest(&[list(&["sub", "x"])], "sub"), None);
    // the root of the walk is no candidate, not even for the empty query
    assert_eq!(find_nearest(&[list(&[])], ""), None);
    assert_eq!(find_nearest(&[list(&[]), list(&["a", "b"]), list(&["c"])], ""), Some(2));
}

#[test]
fn narrowing_keeps_matching_children_in_order() {
    let set = vec![WorkingPath::parse("/w/a"), WorkingPath::parse("/w/b")];
    let listings = vec![list(&["xy", "no", "x"]), list(&["ay", "x1"])];
    assert_eq!(
        rendered(&narrow(&set, &listings, "x")),
        ["/w/a/xy", "/w/a/x", "/w/b/x1"]
    );
    assert!(narrow(&set, &listings, "q").is_empty());
    assert!(narrow(&[], &listings, "x").is_empty());
    // a path without a listing has nothing below it
    assert_eq!(rendered(&narrow(&set, &listings[..1], "x")), ["/w/a/xy", "/w/a/x"]);
    assert!(narrow(&set, &[], "x").is_empty());
}

#[test]
fn shortest_path_wins_and_the_first_of_the_shortest() {
    let set = vec![
        WorkingPath::parse("/w/abacus/cd"),
        WorkingPath::parse("/w/abx/cdrom"),
        WorkingPath::parse("/w/abx/cd"),
        WorkingPath::parse("/w/aby/cd"),
    ];
    assert_eq!(find_shortest(&set), Some(2));
    assert_eq!(find_shortest(&set[..2]), Some(0));
    assert_eq!(find_shortest(&set[1..2]), Some(0));
    assert_eq!(find_shortest(&[]), None);
    // the length is that of the whole text, in bytes
    let bytes = vec![WorkingPath::parse("/é/ab"), WorkingPath::parse("/e/abc")];
    assert_eq!(find_shortest(&bytes), Some(0));
    let longer = vec![WorkingPath::parse("/éé/a"), WorkingPath::parse("/e/abc")];
    assert_eq!(find_shortest(&longer), Some(1));
}

#[test]
fn classified_tokens_resolve_as_the_words_that_write_them() {
    let tokens = vec![
        Token::AncestorPop(Some(2)),
        Token::AncestorSearch("w".to_owned()),
        Token::Root("/elsewhere/far".to_owned()),
        Token::AncestorPop(None),
    ];
    match resolve_tokens(WorkingPath::parse("/w/deep/er/sub"), tokens) {
        Progress::Done(path) => assert_eq!(path.render(), "/elsewhere"),
        other => panic!("unexpected {:?}", other),
    }
    match resolve_tokens(WorkingPath::parse("/w/deep"), Vec::new()) {
        Progress::Done(path) => assert_eq!(path.render(), "/w/deep"),
        other => panic!("unexpected {:?}", other),
    }
    match resolve_tokens(
        WorkingPath::parse("/w/deep"),
        vec![Token::AncestorSearch("x".to_owned())],
    ) {
        Progress::Failed(failure) => {
            assert_eq!(failure.query, "x");
            assert_eq!(failure.reached, WorkingPath::parse("/w/deep"));
        }
        other => panic!("unexpected {:?}", other),
    }
}

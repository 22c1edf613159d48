use close_enough::cli::{init_script, CleCmd, CleSubCmd, CwdSearchStrategy};

fn lines(texts: &[&str]) -> Vec<String> {
    texts.iter().map(|text| (*text).to_owned()).collect()
}

fn plain(query: &str, inputs: &[&str]) -> CleCmd {
    CleCmd {
        sub: None,
        query: Some(query.to_owned()),
        inputs: lines(inputs),
    }
}

#[test]
fn inputs_are_searched_where_they_are_given() {
    let cmd = plain("it", &["item_the_first", "item"]);
    assert!(!cmd.wants_piped());
    assert_eq!(cmd.search(&lines(&["it"])), Some(&"item".to_owned()));
    assert_eq!(cmd.search(&[]), Some(&"item".to_owned()));
}

#[test]
fn piped_lines_are_searched_where_no_inputs_are_given() {
    let cmd = plain("it", &[]);
    assert!(cmd.wants_piped());
    assert_eq!(
        cmd.search(&lines(&["biter", "iterate", "item"])),
        Some(&"item".to_owned())
    );
    assert_eq!(cmd.search(&lines(&["x", "y"])), None);
    assert_eq!(cmd.search(&[]), None);
}

#[test]
fn a_query_without_a_match_has_no_answer() {
    assert_eq!(plain("zz", &["item"]).search(&lines(&["zz"])), None);
}

#[test]
fn a_subcommand_needs_no_piped_input() {
    let cmd = CleCmd {
        sub: Some(CleSubCmd::Ce { dirs: lines(&["a"]) }),
        query: None,
        inputs: Vec::new(),
    };
    assert!(!cmd.wants_piped());
}

#[test]
fn the_shell_function_names_command_and_proxy() {
    let expected = format!(
        "function {cmd}() {{
    if [ \"$#\" -gt 0 ]; then
        local dest
        dest=$(cle -ce \"$@\")
        if [ $? -eq 0 ]; then
            local linecount=$(echo \"$dest\" | wc -l)
            if [ \"$linecount\" -eq 1 ]; then
                {proxy} \"$dest\"
            else
                # Help message
                echo \"$dest\"
            fi
        fi
    fi
}}
",
        cmd = "ce",
        proxy = "cd"
    );
    assert_eq!(init_script("ce", "cd"), expected);
    assert!(init_script("go", "pushd").starts_with("function go() {\n"));
    assert!(init_script("go", "pushd").contains("\n                pushd \"$dest\"\n"));
}

#[test]
fn strategy_follows_the_flags() {
    assert_eq!(
        CwdSearchStrategy::create(true, true, false),
        Some(CwdSearchStrategy::FilesOnly)
    );
    assert_eq!(
        CwdSearchStrategy::create(true, true, true),
        Some(CwdSearchStrategy::FilesOnly)
    );
    assert_eq!(
        CwdSearchStrategy::create(true, false, true),
        Some(CwdSearchStrategy::DirectoriesOnly)
    );
    assert_eq!(
        CwdSearchStrategy::create(true, false, false),
        Some(CwdSearchStrategy::Anything)
    );
    assert_eq!(CwdSearchStrategy::create(false, true, false), None);
    assert_eq!(CwdSearchStrategy::create(false, false, true), None);
    assert_eq!(CwdSearchStrategy::create(false, true, true), None);
    assert_eq!(CwdSearchStrategy::create(false, false, false), None);
}

#[test]
fn strategy_admits_by_file_type() {
    assert!(CwdSearchStrategy::FilesOnly.admits(true, false));
    assert!(!CwdSearchStrategy::FilesOnly.admits(false, true));
    assert!(!CwdSearchStrategy::FilesOnly.admits(false, false));
    assert!(CwdSearchStrategy::DirectoriesOnly.admits(false, true));
    assert!(!CwdSearchStrategy::DirectoriesOnly.admits(true, false));
    assert!(CwdSearchStrategy::Anything.admits(false, false));
    assert!(CwdSearchStrategy::Anything.admits(true, false));
}

#[test]
fn every_query_but_the_last_selects_a_directory() {
    let files = Some(CwdSearchStrategy::FilesOnly);
    assert_eq!(
        CwdSearchStrategy::for_query(0, 3, files),
        CwdSearchStrategy::DirectoriesOnly
    );
    assert_eq!(
        CwdSearchStrategy::for_query(1, 3, files),
        CwdSearchStrategy::DirectoriesOnly
    );
    assert_eq!(
        CwdSearchStrategy::for_query(2, 3, files),
        CwdSearchStrategy::FilesOnly
    );
    assert_eq!(
        CwdSearchStrategy::for_query(0, 1, None),
        CwdSearchStrategy::Anything
    );
    assert_eq!(
        CwdSearchStrategy::for_query(0, 0, None),
        CwdSearchStrategy::DirectoriesOnly
    );
}

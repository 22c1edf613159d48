use close_enough::chars::{classify, glyph, read, Glyph};
use close_enough::cursor::Cursor;
use close_enough::matcher::{same_char, scan, skip_word};
use close_enough::select::{close_enough, select_shortest};
use close_enough::text::byte_len;

fn is_match(candidate: &str, query: &str) -> bool {
    close_enough::matcher::matches(candidate, query)
}

#[test]
fn empty_query_matches_everything() {
    assert!(is_match("", ""));
    assert!(is_match("anything at all", ""));
    assert!(is_match("-", ""));
}

#[test]
fn empty_candidate_matches_only_the_empty_query() {
    assert!(!is_match("", "a"));
    assert!(is_match("", ""));
}

#[test]
fn matched_characters_appear_in_order() {
    assert!(is_match("three-word_candidate", "twordcan"));
    assert!(!is_match("three-word_candidate", "candidates"));
    assert!(!is_match("ab", "ba"));
    assert!(!is_match("one two", "to"));
}

#[test]
fn one_unbroken_word_matches_only_a_contiguous_stretch() {
    assert!(is_match("averybiglongmatch", "very"));
    assert!(is_match("averybiglongmatch", "av"));
    assert!(!is_match("averybiglongmatch", "avb"));
    assert!(!is_match("averybiglongmatch", "vb"));
    // the stretch has to start at the first occurrence of its first character
    assert!(!is_match("abcabd", "abd"));
}

#[test]
fn the_scan_resumes_at_the_boundary_itself() {
    assert!(is_match("one-two", "o-t"));
    assert!(is_match("oneTwo", "ot"));
    assert!(is_match("one two", "o t"));
    // after a run the rest of the word is skipped, but the search that
    // follows may stop inside a later word
    assert!(is_match("one two", "owo"));
}

#[test]
fn uppercase_letters_start_a_word() {
    assert!(is_match("longMatch", "lm"));
    assert!(!is_match("longmatch", "lm"));
    assert!(is_match("fooBarBaz", "fbb"));
}

#[test]
fn digits_continue_a_word() {
    assert!(!is_match("a1b", "ab"));
    assert!(is_match("a_b", "ab"));
    assert!(is_match("a1b", "a1b"));
}

#[test]
fn folding_compares_first_lowercase_code_points() {
    assert_eq!(classify('A').folded, Some('a'));
    assert_eq!(classify('a').folded, Some('a'));
    assert_eq!(classify('1').folded, Some('1'));
    assert_eq!(classify('\u{130}').folded, Some('i'));
    assert!(is_match("\u{130}stanbul", "i"));
    assert!(is_match("STRASSE", "strasse"));
    assert!(is_match("Ärger", "ä"));
}

#[test]
fn same_char_needs_both_characters() {
    let (lower, upper, other) = (classify('a'), classify('A'), classify('b'));
    assert!(same_char(Some(&lower), Some(&upper)));
    assert!(same_char(Some(&upper), Some(&lower)));
    assert!(!same_char(Some(&lower), Some(&other)));
    assert!(!same_char(None, Some(&lower)));
    assert!(!same_char(Some(&lower), None));
    assert!(!same_char(None, None));
}

#[test]
fn word_characters_are_alphanumeric_and_not_uppercase() {
    assert!(classify('a').in_word);
    assert!(classify('7').in_word);
    assert!(classify('é').in_word);
    assert!(!classify('A').in_word);
    assert!(!classify('_').in_word);
    assert!(!classify('-').in_word);
    assert!(!classify(' ').in_word);
    assert!(!classify('É').in_word);
}

#[test]
fn a_glyph_is_made_of_what_the_tables_say() {
    assert_eq!(
        glyph(&['x', 'y'], true, false),
        Glyph { folded: Some('x'), in_word: true }
    );
    assert_eq!(
        glyph(&['x'], true, true),
        Glyph { folded: Some('x'), in_word: false }
    );
    assert_eq!(
        glyph(&['x'], false, false),
        Glyph { folded: Some('x'), in_word: false }
    );
    assert_eq!(
        glyph(&[], false, true),
        Glyph { folded: None, in_word: false }
    );
    assert_eq!(classify('Q'), glyph(&['q'], true, true));
    assert_eq!(read("aB_"), [classify('a'), classify('B'), classify('_')]);
    assert!(read("").is_empty());
}

#[test]
fn scanning_reads_nothing_but_the_glyphs() {
    let word = |c: char| Glyph { folded: Some(c), in_word: true };
    let edge = |c: char| Glyph { folded: Some(c), in_word: false };
    // two words, told apart only by the glyph in the middle
    let two = [word('a'), word('b'), edge('x'), word('c'), word('d')];
    let one = [word('a'), word('b'), word('x'), word('c'), word('d')];
    let ask = [word('a'), word('c')];
    assert!(scan(&two, &ask));
    assert!(!scan(&one, &ask));
    assert!(scan(&one, &[]));
    assert!(!scan(&[], &ask));
    // keys decide what is equal, whatever characters they came from
    assert!(scan(&[edge('k')], &[word('k')]));
    assert!(!scan(&[Glyph { folded: None, in_word: true }], &[word('k')]));
    assert_eq!(scan(&read("one-little_candidate"), &read("olc")), is_match("one-little_candidate", "olc"));
}

#[test]
fn cursor_hands_out_characters_in_order() {
    let text = read("aß");
    let mut cursor = Cursor::new(&text);
    assert_eq!(cursor.peek(), Some(&classify('a')));
    assert_eq!(cursor.next(), Some(classify('a')));
    assert_eq!(cursor.peek(), Some(&classify('ß')));
    assert_eq!(cursor.next(), Some(classify('ß')));
    assert_eq!(cursor.peek(), None);
    assert_eq!(cursor.next(), None);
    assert_eq!(cursor.next(), None);
}

#[test]
fn skip_word_stops_at_the_next_boundary() {
    let text = read("one two");
    let mut cursor = Cursor::new(&text);
    skip_word(&mut cursor);
    assert_eq!(cursor.peek(), Some(&classify(' ')));
    // a boundary is not skipped
    skip_word(&mut cursor);
    assert_eq!(cursor.peek(), Some(&classify(' ')));
    cursor.next();
    skip_word(&mut cursor);
    assert_eq!(cursor.peek(), None);
    skip_word(&mut cursor);
    assert_eq!(cursor.peek(), None);

    let text = read("longMatch");
    let mut camel = Cursor::new(&text);
    skip_word(&mut camel);
    assert_eq!(camel.peek(), Some(&classify('M')));
}

#[test]
fn shortest_wins_and_the_first_of_the_shortest() {
    assert_eq!(select_shortest("ab", None), "ab");
    assert_eq!(select_shortest("ab", Some("abc")), "ab");
    assert_eq!(select_shortest("abc", Some("ab")), "ab");
    assert_eq!(select_shortest("xy", Some("ab")), "ab");
}

#[test]
fn length_is_counted_in_bytes() {
    assert_eq!(byte_len(""), 0);
    assert_eq!(byte_len("abc"), 3);
    assert_eq!(byte_len("é"), 2);
    // "éa" has two characters and three bytes, "abc" three of each
    assert_eq!(select_shortest("abc", Some("éa")), "éa");
    assert_eq!(close_enough(&["ééa", "eeab"], "a"), Some(&"eeab"));
}

#[test]
fn doc_example_selects_one_two() {
    let options = &["one two", "three four", "five six"];
    assert_eq!(close_enough(options, "owo"), Some(&"one two"));
}

#[test]
fn ties_go_to_the_first_in_input_order() {
    assert_eq!(close_enough(&["abc", "abd", "ab1"], "ab"), Some(&"abc"));
    assert_eq!(close_enough(&["abd", "abc"], "ab"), Some(&"abd"));
    assert_eq!(close_enough(&["abcd", "abd", "abc"], "ab"), Some(&"abd"));
    let options = ["abc", "abd"];
    let picked = close_enough(&options, "ab").unwrap();
    assert!(std::ptr::eq(picked, &options[0]));
}

#[test]
fn selection_is_repeatable() {
    let options = vec!["item_the_first", "item", "iterm", "it"];
    let first = close_enough(&options, "it");
    let second = close_enough(&options, "it");
    assert_eq!(first, second);
    assert_eq!(first, Some(&"it"));
}

#[test]
fn empty_query_selects_the_shortest_option() {
    assert_eq!(close_enough(&["abc", "", "a"], ""), Some(&""));
    assert_eq!(close_enough(&["abc", "ab"], ""), Some(&"ab"));
    let none: [&str; 0] = [];
    assert_eq!(close_enough(&none, ""), None);
}

#[test]
fn owned_and_borrowed_texts_are_read_alike() {
    assert!(close_enough::matcher::matches("candidate".to_owned(), "can"));
    assert!(close_enough::matcher::matches(&"candidate".to_owned(), "can".to_owned()));
    assert!(!close_enough::matcher::matches("candidate".to_owned(), &"cax"));
    let options = vec!["one".to_owned(), "two".to_owned()];
    assert_eq!(close_enough(&options, "tw".to_owned()), Some(&options[1]));
    assert_eq!(close_enough(&options, &"on"), Some(&options[0]));
}

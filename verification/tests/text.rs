use quotation_align::text::{
    contains_alphanumeric, count_newlines, line_and_paragraph_numbers, process_word, split_chunks, white_space,
    word_positions,
};

#[test]
fn whitespace_matches_the_unicode_property() {
    for v in 0u32..=0x10ffff {
        if let Some(c) = char::from_u32(v) {
            assert_eq!(white_space(c), c.is_whitespace(), "{:x}", v);
        }
    }
}

#[test]
fn text_is_cut_into_runs() {
    assert_eq!(split_chunks("Hello  world\n\nNew"), vec!["Hello", "  ", "world", "\n\n", "New"]);
    assert_eq!(split_chunks(""), Vec::<String>::new());
    assert_eq!(split_chunks("  "), vec!["  "]);
    assert_eq!(split_chunks("a\u{a0}b, c"), vec!["a", "\u{a0}", "b,", " ", "c"]);
}

#[test]
fn text_runs_match_the_pattern() {
    let re = regex::Regex::new(r"(\s+|[^\s]+)").unwrap();
    let text = "# THE SONNETS\n\nby William Shakespeare\n\n## I\n\nFrom fairest creatures\u{2003}we desire increase,\n";
    let expected: Vec<&str> = re.find_iter(text).map(|m| m.as_str()).collect();
    assert_eq!(split_chunks(text), expected);
}

#[test]
fn newlines_are_counted() {
    assert_eq!(count_newlines("a\nb\n\n"), 3);
    assert_eq!(count_newlines(""), 0);
}

#[test]
fn lines_and_paragraphs_are_numbered() {
    let chunks = split_chunks("One two\nthree\n\nfour\n");
    assert_eq!(chunks, vec!["One", " ", "two", "\n", "three", "\n\n", "four", "\n"]);
    assert_eq!(
        line_and_paragraph_numbers(&chunks),
        vec![(1, 1), (1, 1), (1, 1), (2, 1), (2, 1), (4, 2), (4, 2), (5, 2)]
    );
}

#[test]
fn words_are_the_runs_with_letters_or_digits() {
    let chunks = split_chunks("O! thou  -- 42,\n");
    assert_eq!(word_positions(&chunks), vec![0, 2, 6]);
    assert!(contains_alphanumeric("--x"));
    assert!(!contains_alphanumeric("--,"));
    assert!(contains_alphanumeric("北"));
}

#[test]
fn words_are_normalised() {
    assert_eq!(process_word("Étude,"), "etude");
    assert_eq!(process_word("Æneid"), "aeneid");
    assert_eq!(process_word("increase,"), "increase");
    assert_eq!(process_word("Feed'st"), "feedst");
    assert_eq!(process_word("--"), "");
    assert_eq!(process_word("42nd"), "42nd");
    assert_eq!(process_word("a\u{7f}B"), "ab");
    assert_eq!(process_word("THEE"), "thee");
}

#[test]
fn whitespace_matches_the_pattern_class() {
    let re = regex::Regex::new(r"^\s$").unwrap();
    let mut buf = [0u8; 4];
    for v in 0u32..=0x10ffff {
        if let Some(c) = char::from_u32(v) {
            assert_eq!(white_space(c), re.is_match(c.encode_utf8(&mut buf)), "{:x}", v);
        }
    }
}

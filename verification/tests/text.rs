use transcript::text::{count_words, is_sentence, is_space, trimmed};

#[test]
fn whitespace_is_the_white_space_property() {
    let mut c = '\0';
    loop {
        assert_eq!(is_space(c), c.is_whitespace(), "{:?}", c);
        if c == char::MAX {
            break;
        }
        c = char::from_u32(c as u32 + 1).unwrap_or('\u{e000}');
    }
}

#[test]
fn words_are_maximal_runs_without_whitespace() {
    assert_eq!(count_words(""), 0);
    assert_eq!(count_words("   "), 0);
    assert_eq!(count_words("one"), 1);
    assert_eq!(count_words(" The cat\tsat. "), 3);
    assert_eq!(count_words("a\u{3000}b\u{a0}c"), 3);
}

#[test]
fn trimming_strips_both_ends_only() {
    assert_eq!(trimmed("  Hi.  "), "Hi.");
    assert_eq!(trimmed(" a b "), "a b");
    assert_eq!(trimmed(" \t\n"), "");
    assert_eq!(trimmed(""), "");
    assert_eq!(trimmed("x"), "x");
    assert_eq!(trimmed("\u{2003}é è\u{2003}"), "é è");
}

#[test]
fn a_sentence_ends_in_a_terminator_that_is_not_alone() {
    assert!(is_sentence(" sat."));
    assert!(is_sentence("It!"));
    assert!(is_sentence("a?"));
    assert!(!is_sentence("."));
    assert!(!is_sentence("?"));
    assert!(!is_sentence(""));
    assert!(!is_sentence(" The cat"));
    assert!(!is_sentence("end. "));
}

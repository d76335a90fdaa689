use markov::text::{join_words, separates, split_words};

#[test]
fn split_words_cuts_at_each_separator() {
    assert_eq!(split_words("my name is"), vec!["my", "name", "is"]);
    assert_eq!(split_words("a\tb\nc\rd e"), vec!["a", "b", "c", "d", "e"]);
}

#[test]
fn split_words_drops_empty_pieces() {
    assert_eq!(split_words("  hello   world  "), vec!["hello", "world"]);
    assert_eq!(split_words("\t\thello\r\n"), vec!["hello"]);
}

#[test]
fn split_words_of_blank_line_is_empty() {
    assert!(split_words("").is_empty());
    assert!(split_words(" \t\r\n ").is_empty());
}

#[test]
fn split_words_of_one_word_is_that_word() {
    assert_eq!(split_words("word"), vec!["word"]);
}

#[test]
fn split_words_keeps_other_characters() {
    assert_eq!(split_words("caf\u{e9} na\u{ef}ve, ok."), vec!["caf\u{e9}", "na\u{ef}ve,", "ok."]);
    assert_eq!(split_words("a\u{a0}b c"), vec!["a\u{a0}b", "c"]);
    assert_eq!(split_words("x\u{b}y"), vec!["x\u{b}y"]);
}

#[test]
fn separators_are_space_tab_and_line_ends() {
    assert!(separates(' '));
    assert!(separates('\t'));
    assert!(separates('\n'));
    assert!(separates('\r'));
    assert!(!separates('a'));
    assert!(!separates('\u{a0}'));
    assert!(!separates('\u{c}'));
}

#[test]
fn join_words_puts_one_space_between() {
    assert_eq!(join_words(&["a", "b", "c"]), "a b c");
}

#[test]
fn join_words_of_one_word_has_no_space() {
    assert_eq!(join_words(&["alone"]), "alone");
}

#[test]
fn join_words_of_nothing_is_empty() {
    assert_eq!(join_words(&[]), "");
}

#[test]
fn join_words_keeps_empty_words() {
    assert_eq!(join_words(&["", "a", ""]), " a ");
}

use markov::{join, words};

fn strings(items: &[&str]) -> Vec<String> {
    items.iter().map(|s| s.to_string()).collect()
}

#[test]
fn words_splits_on_single_spaces() {
    assert_eq!(words("hello how are you"), strings(&["hello", "how", "are", "you"]));
}

#[test]
fn words_splits_on_runs_of_every_separator() {
    assert_eq!(words("  a\tb\n\nc\r\n d \t"), strings(&["a", "b", "c", "d"]));
}

#[test]
fn words_of_empty_sentence_is_empty() {
    assert_eq!(words(""), Vec::<String>::new());
}

#[test]
fn words_of_blank_sentence_is_empty() {
    assert_eq!(words(" \t\r\n  "), Vec::<String>::new());
}

#[test]
fn words_of_single_word() {
    assert_eq!(words("word"), strings(&["word"]));
    assert_eq!(words("  word"), strings(&["word"]));
    assert_eq!(words("word  "), strings(&["word"]));
}

#[test]
fn words_keeps_punctuation_and_quotes() {
    assert_eq!(words("\"a b\", c's"), strings(&["\"a", "b\",", "c's"]));
}

#[test]
fn words_keeps_characters_beyond_ascii() {
    assert_eq!(words("h\u{e9}llo w\u{f6}rld \u{4f60}\u{597d}"), strings(&["h\u{e9}llo", "w\u{f6}rld", "\u{4f60}\u{597d}"]));
}

#[test]
fn words_splits_only_on_the_four_separators() {
    assert_eq!(words("a\u{b}b c\u{a0}d"), strings(&["a\u{b}b", "c\u{a0}d"]));
}

#[test]
fn join_puts_one_space_between_words() {
    assert_eq!(join(&strings(&["hello", "how", "are", "you"])), "hello how are you");
}

#[test]
fn join_of_nothing_is_empty() {
    assert_eq!(join(&Vec::new()), "");
}

#[test]
fn join_of_one_word_is_the_word() {
    assert_eq!(join(&strings(&["word"])), "word");
}

#[test]
fn join_keeps_empty_words() {
    assert_eq!(join(&strings(&["a", "", "b"])), "a  b");
}

#[test]
fn words_of_joined_words_are_the_words() {
    let ws = strings(&["one", "two", "three"]);
    assert_eq!(words(&join(&ws)), ws);
}

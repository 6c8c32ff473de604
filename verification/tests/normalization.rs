use markov::casing::apply_case;
use markov::filter::apply_filters;
use markov::normalize::{normalize, normalize_token};
use markov::{
    new, new_regex, newlines_regex, non_alphanumeric_regex, url_regex, FnTransform, LetterCase,
    Transform,
};

fn strings(items: &[&str]) -> Vec<String> {
    items.iter().map(|s| s.to_string()).collect()
}

fn exclaim() -> Box<dyn Transform> {
    Box::new(FnTransform::new(|token: &str| format!("{}!X", token)))
}

#[test]
fn new_regex_refuses_a_malformed_pattern() {
    assert!(new_regex("foo(bar").is_none());
}

#[test]
fn new_regex_refuses_an_oversized_pattern() {
    assert!(new_regex("\\w{1000}{1000}").is_none());
}

#[test]
fn new_regex_compiles_the_pattern_given() {
    let re = new_regex("a+b").unwrap();
    assert_eq!(re.as_str(), "a+b");
    assert_eq!(apply_filters(&vec![re], "xaabyab"), "xy");
}

#[test]
fn non_alphanumeric_regex_strips_punctuation() {
    let filters = vec![non_alphanumeric_regex()];
    assert_eq!(apply_filters(&filters, "Hello,"), "Hello");
    assert_eq!(apply_filters(&filters, "you?"), "you");
    assert_eq!(apply_filters(&filters, "it's-9:30!"), "its9:30");
    assert_eq!(apply_filters(&filters, "plain"), "plain");
}

#[test]
fn url_regex_strips_urls() {
    let filters = vec![url_regex()];
    assert_eq!(apply_filters(&filters, "http://www.example.com/page"), "");
    assert_eq!(apply_filters(&filters, "see:example.org"), "");
    assert_eq!(apply_filters(&filters, "hello"), "hello");
}

#[test]
fn newlines_regex_strips_line_breaks() {
    let filters = vec![newlines_regex()];
    assert_eq!(apply_filters(&filters, "a\r\nb\n\nc"), "abc");
}

#[test]
fn no_filter_leaves_the_token() {
    assert_eq!(apply_filters(&Vec::new(), "Hello,"), "Hello,");
}

#[test]
fn filters_apply_in_the_order_given() {
    let ab = new_regex("ab").unwrap();
    let b = new_regex("b").unwrap();
    assert_eq!(apply_filters(&vec![ab, b], "aabbb"), "a");
    let ab = new_regex("ab").unwrap();
    let b = new_regex("b").unwrap();
    assert_eq!(apply_filters(&vec![b, ab], "aabbb"), "aa");
}

#[test]
fn apply_case_follows_the_policy() {
    assert_eq!(apply_case(LetterCase::Upper, "Hello"), "HELLO");
    assert_eq!(apply_case(LetterCase::Lower, "Hello"), "hello");
    assert_eq!(apply_case(LetterCase::Any, "Hello"), "Hello");
}

#[test]
fn apply_case_goes_by_unicode() {
    assert_eq!(apply_case(LetterCase::Upper, "stra\u{df}e"), "STRASSE");
    assert_eq!(apply_case(LetterCase::Lower, "\u{c9}T\u{c9}"), "\u{e9}t\u{e9}");
}

#[test]
fn normalize_token_filters_then_transforms_then_cases() {
    let filters = vec![new_regex("[!X]").unwrap()];
    let transform: Option<Box<dyn Transform>> = Some(exclaim());
    assert_eq!(normalize_token(&filters, &transform, LetterCase::Lower, "HeX!y"), "hey!x");
    assert_eq!(normalize_token(&filters, &transform, LetterCase::Any, "HeX!y"), "Hey!X");
    assert_eq!(normalize_token(&filters, &None, LetterCase::Upper, "HeX!y"), "HEY");
}

#[test]
fn normalize_keeps_count_and_order() {
    let filters = vec![non_alphanumeric_regex()];
    let input = strings(&["Hello,", "?", "you?"]);
    assert_eq!(
        normalize(&filters, &None, LetterCase::Any, &input),
        strings(&["Hello", "", "you"])
    );
    assert_eq!(input, strings(&["Hello,", "?", "you?"]));
}

#[test]
fn filter_strips_the_recorded_seed() {
    let mut m = new();
    m.add_filter(non_alphanumeric_regex());
    assert!(m.pass_str("Hello, how are you?"));
    assert_eq!(m.seeds(), vec![("Hello".to_string(), "how".to_string())]);
}

#[test]
fn lower_case_policy_lowers_the_recorded_seed() {
    let mut m = new();
    m.set_case(LetterCase::Lower);
    assert!(m.pass_str("Hello How Are You"));
    assert_eq!(m.seeds(), vec![("hello".to_string(), "how".to_string())]);
    assert_eq!(m.successors("hello", "how"), Some(strings(&["are"])));
    assert_eq!(m.successors("Hello", "How"), None);
}

#[test]
fn upper_case_policy_applies_to_every_token() {
    let mut m = new();
    m.set_case(LetterCase::Upper);
    assert!(m.pass_str("Hello How Are You"));
    assert_eq!(m.generate(10).unwrap(), "HELLO HOW ARE YOU");
}

#[test]
fn transform_applies_to_each_token_after_the_filters() {
    let mut m = new();
    m.add_filter(new_regex("[!X]").unwrap());
    m.set_transform(exclaim());
    m.set_case(LetterCase::Lower);
    assert!(m.pass_str("One! tXwo three"));
    assert_eq!(m.seeds(), vec![("one!x".to_string(), "two!x".to_string())]);
    assert_eq!(m.successors("one!x", "two!x"), Some(strings(&["three!x"])));
}

#[test]
fn transform_is_replaced_by_a_later_one() {
    let mut m = new();
    m.set_transform(exclaim());
    m.set_transform(Box::new(FnTransform::new(|token: &str| token.replace("a", "o"))));
    assert!(m.pass_str("banana band"));
    assert_eq!(m.seeds(), vec![("bonono".to_string(), "bond".to_string())]);
}

#[test]
fn settings_apply_to_later_sentences_only() {
    let mut m = new();
    assert!(m.pass_str("Hello, World"));
    m.add_filter(non_alphanumeric_regex());
    m.set_case(LetterCase::Lower);
    assert!(m.pass_str("Hello, World"));
    assert_eq!(
        m.seeds(),
        vec![
            ("Hello,".to_string(), "World".to_string()),
            ("hello".to_string(), "world".to_string())
        ]
    );
}

#[test]
fn token_emptied_by_a_filter_still_counts() {
    let mut m = new();
    m.add_filter(non_alphanumeric_regex());
    assert!(m.pass_str("?? !!"));
    assert_eq!(m.seeds(), vec![(String::new(), String::new())]);
    assert!(m.pass_str("a ? b"));
    assert_eq!(m.successors("a", ""), Some(strings(&["b"])));
}

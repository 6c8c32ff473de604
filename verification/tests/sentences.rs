use markov::{new, new_regex, non_alphanumeric_regex};

#[test]
#[should_panic]
fn test_empty_markov() {
    let m = new();
    m.generate(10).unwrap();
}

#[test]
fn test_pass_str() {
    let mut m = new();
    m.pass_str("hello how are you");
    assert!(m.generate(100).unwrap() == "hello how are you".to_string());
}

#[test]
fn test_pass() {
    let mut m = new();
    let data = vec![
        "Hello, how are you?",
        "What are you going to wear tonight?",
        "What time is it?",
    ];
    m.add_filter(non_alphanumeric_regex());
    m.pass(data);
    assert!(m.seeds().contains(&("Hello".to_string(), "how".to_string())));
    m.generate(10).unwrap();
}

// Pass with the expression that strips all non-alphanumeric characters.
#[test]
fn test_pass_strip() {
    let mut m = new();
    let sentences = vec!["Hello, how are you?"];
    m.add_filter(non_alphanumeric_regex());
    m.pass(sentences);
    assert!(m.generate(10).unwrap() == "Hello how are you");
}

#[test]
fn test_custom_regex() {
    let digits = new_regex("[0-9]+").unwrap();
    let mut m = new();
    m.add_filter(digits);
    assert!(m.pass_str("r2d2 c3po 42nd"));
    assert_eq!(m.seeds(), vec![("rd".to_string(), "cpo".to_string())]);
    assert_eq!(m.successors("rd", "cpo"), Some(vec!["nd".to_string()]));
}

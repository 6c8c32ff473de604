use markov::new;

fn strings(items: &[&str]) -> Vec<String> {
    items.iter().map(|s| s.to_string()).collect()
}

fn pair(a: &str, b: &str) -> (String, String) {
    (a.to_string(), b.to_string())
}

#[test]
fn new_model_is_empty() {
    let m = new();
    assert!(m.seeds().is_empty());
    assert!(!m.has_chain("a", "b"));
    assert_eq!(m.successors("a", "b"), None);
}

#[test]
fn accepted_sentence_adds_one_seed_and_keeps_the_table() {
    let mut m = new();
    assert!(m.pass_str("a b c"));
    assert!(m.pass_str("x y z"));
    let seeds_before = m.seeds();
    let ab_before = m.successors("a", "b").unwrap();
    let xy_before = m.successors("x", "y").unwrap();

    assert!(m.pass_str("a b d e"));

    let seeds_after = m.seeds();
    assert_eq!(seeds_after.len(), seeds_before.len() + 1);
    assert_eq!(&seeds_after[..seeds_before.len()], &seeds_before[..]);
    assert_eq!(seeds_after[seeds_before.len()], pair("a", "b"));
    let ab_after = m.successors("a", "b").unwrap();
    assert_eq!(&ab_after[..ab_before.len()], &ab_before[..]);
    assert_eq!(ab_after, strings(&["c", "d"]));
    assert_eq!(m.successors("x", "y").unwrap(), xy_before);
    assert_eq!(m.successors("b", "d"), Some(strings(&["e"])));
}

#[test]
fn sentence_of_two_words_adds_a_seed_and_no_entry() {
    let mut m = new();
    assert!(m.pass_str("only two"));
    assert_eq!(m.seeds(), vec![pair("only", "two")]);
    assert!(!m.has_chain("only", "two"));
}

#[test]
fn short_sentence_is_refused_and_changes_nothing() {
    let mut m = new();
    assert!(m.pass_str("a b c"));
    let seeds = m.seeds();
    let followers = m.successors("a", "b");

    assert!(!m.pass_str("single"));
    assert!(!m.pass_str(""));
    assert!(!m.pass_str("   \t\n"));

    assert_eq!(m.seeds(), seeds);
    assert_eq!(m.successors("a", "b"), followers);
    assert!(!m.has_chain("single", ""));
}

#[test]
fn refused_sentence_on_empty_model_leaves_it_empty() {
    let mut m = new();
    assert!(!m.pass_str("alone"));
    assert!(m.seeds().is_empty());
    assert_eq!(m.generate(10), None);
}

#[test]
fn duplicate_seeds_and_followers_are_kept() {
    let mut m = new();
    assert!(m.pass_str("a b c"));
    assert!(m.pass_str("a b c"));
    assert!(m.pass_str("a b d"));
    assert_eq!(m.seeds(), vec![pair("a", "b"), pair("a", "b"), pair("a", "b")]);
    assert_eq!(m.successors("a", "b"), Some(strings(&["c", "c", "d"])));
}

#[test]
fn context_is_ordered() {
    let mut m = new();
    assert!(m.pass_str("a b c"));
    assert!(m.has_chain("a", "b"));
    assert!(!m.has_chain("b", "a"));
}

#[test]
fn every_triple_is_indexed() {
    let mut m = new();
    assert!(m.pass_str("a b a b c"));
    assert_eq!(m.seeds(), vec![pair("a", "b")]);
    assert_eq!(m.successors("a", "b"), Some(strings(&["a", "c"])));
    assert_eq!(m.successors("b", "a"), Some(strings(&["b"])));
    assert_eq!(m.successors("b", "c"), None);
}

#[test]
fn ingest_takes_tokens_as_they_are() {
    let mut m = new();
    assert!(m.ingest(&strings(&["Hello,", "how", "are"])));
    assert_eq!(m.seeds(), vec![pair("Hello,", "how")]);
    assert_eq!(m.successors("Hello,", "how"), Some(strings(&["are"])));
    assert!(!m.ingest(&strings(&["one"])));
    assert!(!m.ingest(&Vec::new()));
    assert_eq!(m.seeds().len(), 1);
}

#[test]
fn pass_goes_on_after_a_refused_sentence() {
    let mut m = new();
    m.pass(vec!["a b c", "short", "", "d e f"]);
    assert_eq!(m.seeds(), vec![pair("a", "b"), pair("d", "e")]);
    assert_eq!(m.successors("a", "b"), Some(strings(&["c"])));
    assert_eq!(m.successors("d", "e"), Some(strings(&["f"])));
}

#[test]
fn pass_of_nothing_changes_nothing() {
    let mut m = new();
    m.pass(Vec::new());
    assert!(m.seeds().is_empty());
}

#[test]
fn add_creates_an_entry_then_appends() {
    let mut m = new();
    m.add("a", "b", "c");
    assert!(m.has_chain("a", "b"));
    assert_eq!(m.successors("a", "b"), Some(strings(&["c"])));
    m.add("a", "b", "d");
    m.add("a", "b", "c");
    assert_eq!(m.successors("a", "b"), Some(strings(&["c", "d", "c"])));
    assert!(m.seeds().is_empty());
}

#[test]
fn add_to_chain_appends_only_to_an_existing_entry() {
    let mut m = new();
    m.add_to_chain("a", "b", "c");
    assert!(!m.has_chain("a", "b"));
    m.add("a", "b", "c");
    m.add("b", "a", "x");
    m.add_to_chain("a", "b", "d");
    assert_eq!(m.successors("a", "b"), Some(strings(&["c", "d"])));
    assert_eq!(m.successors("b", "a"), Some(strings(&["x"])));
}

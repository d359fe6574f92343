use knights_tour::markov::build_table;
use knights_tour::markov::generate_words;

fn words(list: &[&str]) -> Vec<String> {
    list.iter().map(|w| w.to_string()).collect()
}

#[test]
fn build_table_collects_followers_in_order() {
    let t = build_table(words(&["the", "cat", "the", "cat", "sat"]));
    let the = "the".to_string();
    let cat = "cat".to_string();
    let followers = t.lookup(&the, &cat).expect("pair (the, cat) is in the table");
    assert_eq!(followers, &words(&["the", "sat"]));
    let followers = t.lookup(&cat, &the).expect("pair (cat, the) is in the table");
    assert_eq!(followers, &words(&["cat"]));
}

#[test]
fn build_table_absent_pair() {
    let t = build_table(words(&["a", "b", "c"]));
    let b = "b".to_string();
    let c = "c".to_string();
    assert!(t.lookup(&b, &c).is_none());
    let a = "a".to_string();
    assert!(t.lookup(&a, &b).is_some());
}

#[test]
fn build_table_short_input_is_empty() {
    let t = build_table(words(&["lone", "pair"]));
    let lone = "lone".to_string();
    let pair = "pair".to_string();
    assert!(t.lookup(&lone, &pair).is_none());
}

#[test]
fn generate_words_rejects_short_text() {
    assert!(generate_words("", 5).is_none());
    assert!(generate_words("one two three", 5).is_none());
}

#[test]
fn generate_words_walks_the_chain() {
    // four words leave only one starting pair, so the walk is forced
    let out = generate_words("aa bb cc dd", 5).expect("four words are enough");
    assert_eq!(out, words(&["cc", "cc", "dd"]));
}

#[test]
fn generate_words_respects_length() {
    let out = generate_words("aa bb cc dd", 2).expect("four words are enough");
    assert_eq!(out.len(), 2);
    assert_eq!(out, words(&["cc", "cc"]));
}

#[test]
fn generate_words_splits_on_space_runs() {
    // extra spaces must not produce empty words in the walk
    let out = generate_words("aa   bb  cc dd", 5).expect("still four words");
    assert_eq!(out, words(&["cc", "cc", "dd"]));
}

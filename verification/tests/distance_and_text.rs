use meilidb_core::distance::{edit_distance, prefix_edit_distance};
use meilidb_core::normalize::{join_tokens, normalize_str, tokenize};
use meilidb_core::query_enhancer::bytes_eq;

fn b(s: &str) -> Vec<u8> {
    s.as_bytes().to_vec()
}

#[test]
fn edit_distance_values() {
    assert_eq!(edit_distance(&b("kitten"), &b("sitting")), 3);
    assert_eq!(edit_distance(&b("hello"), &b("hello")), 0);
    assert_eq!(edit_distance(&b("helo"), &b("hello")), 1);
    assert_eq!(edit_distance(&b(""), &b("abc")), 3);
    assert_eq!(edit_distance(&b("abc"), &b("")), 3);
}

#[test]
fn prefix_distance_tolerates_longer_words() {
    // "hel" is a prefix of "hello": distance zero
    assert_eq!(prefix_edit_distance(&b("hel"), &b("hello")), 0);
    // one typo against the best prefix
    assert_eq!(prefix_edit_distance(&b("hwl"), &b("hello")), 1);
    // the empty word has only the empty prefix
    assert_eq!(prefix_edit_distance(&b("ab"), &b("")), 2);
}

#[test]
fn normalization_lowercases() {
    assert_eq!(normalize_str("Hello"), b("hello"));
    assert_eq!(normalize_str(""), b(""));
}

#[test]
fn tokenize_splits_on_non_word_bytes() {
    let toks = tokenize(&b("new-york, city!"));
    assert_eq!(toks, vec![b("new"), b("york"), b("city")]);
    assert_eq!(tokenize(&b("   ")).len(), 0);
    assert_eq!(tokenize(&b("one")), vec![b("one")]);
}

#[test]
fn join_rebuilds_a_phrase() {
    let toks = vec![b("new"), b("york"), b("city")];
    assert_eq!(join_tokens(&toks, 0, 3), b("new york city"));
    assert_eq!(join_tokens(&toks, 1, 2), b("york city"));
    assert_eq!(join_tokens(&toks, 2, 1), b("city"));
}

#[test]
fn bytes_eq_compares_contents() {
    assert!(bytes_eq(&b("abc"), &b("abc")));
    assert!(!bytes_eq(&b("abc"), &b("abd")));
    assert!(!bytes_eq(&b("abc"), &b("ab")));
}

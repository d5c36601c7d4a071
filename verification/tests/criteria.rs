use std::cmp::Ordering;

use meilidb_core::DocumentId;
use meilidb_core::criteria::{
    cmp_docs, exact, number_of_words, rank_documents, sum_of_typos, sum_of_words_attribute,
    sum_of_words_position, words_proximity,
};
use meilidb_core::raw_document::RawDocument;

fn doc(
    id: u64,
    rows: &[(u32, u8, u16, u16, bool)],
) -> RawDocument {
    RawDocument {
        id: DocumentId(id),
        query_index: rows.iter().map(|r| r.0).collect(),
        distance: rows.iter().map(|r| r.1).collect(),
        attribute: rows.iter().map(|r| r.2).collect(),
        word_index: rows.iter().map(|r| r.3).collect(),
        is_exact: rows.iter().map(|r| r.4).collect(),
        highlights: Vec::new(),
    }
}

#[test]
fn sum_of_typos_takes_least_distance_per_position() {
    // position 0 matched twice (distances 2 and 1), position 1 once
    let d = doc(1, &[(0, 2, 0, 0, false), (0, 1, 0, 5, false), (1, 2, 0, 9, false)]);
    assert_eq!(sum_of_typos(&d), 1 + 2);
}

#[test]
fn number_of_words_counts_distinct_positions() {
    let d = doc(1, &[(0, 0, 0, 0, true), (0, 0, 1, 4, true), (2, 0, 0, 9, true)]);
    assert_eq!(number_of_words(&d), 2);
}

#[test]
fn words_proximity_prefers_same_attribute() {
    // positions 0 and 1 adjacent in one attribute: penalty one
    let close = doc(1, &[(0, 0, 0, 3, true), (1, 0, 0, 4, true)]);
    assert_eq!(words_proximity(&close), 1);
    // across two attributes: fixed penalty of eight
    let far = doc(2, &[(0, 0, 0, 3, true), (1, 0, 1, 4, true)]);
    assert_eq!(words_proximity(&far), 8);
    // same attribute but reversed order costs one more
    let rev = doc(3, &[(0, 0, 0, 7, true), (1, 0, 0, 4, true)]);
    assert_eq!(words_proximity(&rev), 4);
}

#[test]
fn attribute_and_position_sums_use_the_selected_match() {
    // position 0: best attribute 1 (word index 7); position 1: attribute 2
    let d = doc(
        1,
        &[(0, 0, 3, 2, true), (0, 0, 1, 7, true), (1, 0, 2, 4, true)],
    );
    assert_eq!(sum_of_words_attribute(&d), 1 + 2);
    assert_eq!(sum_of_words_position(&d), 7 + 4);
}

#[test]
fn exact_counts_exact_matches() {
    let d = doc(1, &[(0, 0, 0, 0, true), (1, 1, 0, 1, false), (2, 0, 0, 2, true)]);
    assert_eq!(exact(&d), 2);
}

#[test]
fn cascade_decides_by_first_difference() {
    let a = doc(1, &[(0, 0, 0, 0, true), (1, 0, 0, 1, true)]);
    let b = doc(2, &[(0, 1, 0, 0, false), (1, 0, 0, 1, true)]);
    // fewer typos rank first
    assert_eq!(cmp_docs(&a, &b), Ordering::Less);
    assert_eq!(cmp_docs(&b, &a), Ordering::Greater);
    assert_eq!(cmp_docs(&a, &a), Ordering::Equal);
}

#[test]
fn ranking_is_stable_for_full_ties() {
    let a = doc(7, &[(0, 0, 0, 0, true)]);
    let b = doc(3, &[(0, 0, 0, 0, true)]);
    let ranked = rank_documents(vec![a, b]);
    // both tie on every criterion: input order is kept
    assert_eq!(ranked[0].id, DocumentId(7));
    assert_eq!(ranked[1].id, DocumentId(3));
}

#[test]
fn ranking_twice_gives_identical_order() {
    let mk = || {
        vec![
            doc(1, &[(0, 1, 0, 0, false)]),
            doc(2, &[(0, 0, 0, 0, true), (1, 0, 0, 1, true)]),
            doc(3, &[(0, 0, 1, 9, true)]),
        ]
    };
    let first: Vec<u64> = rank_documents(mk()).iter().map(|d| d.id.0).collect();
    let second: Vec<u64> = rank_documents(mk()).iter().map(|d| d.id.0).collect();
    assert_eq!(first, second);
    assert_eq!(first, vec![2, 3, 1]);
}

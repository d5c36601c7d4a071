use meilidb_core::{DocumentId, Highlight, TmpMatch};
use meilidb_core::raw_document::{
    apply_permutations, permutations_unstable_by_key, raw_documents_from, sort_pairs_by_id,
};

fn m(qi: u32, d: u8, a: u16, wi: u16, ex: bool) -> TmpMatch {
    TmpMatch { query_index: qi, distance: d, attribute: a, word_index: wi, is_exact: ex }
}

fn h(a: u16, ci: u16, cl: u16) -> Highlight {
    Highlight { attribute: a, char_index: ci, char_length: cl }
}

#[test]
fn sort_pairs_is_stable() {
    let v = vec![
        (DocumentId(2), m(0, 0, 0, 0, true)),
        (DocumentId(1), m(1, 0, 0, 0, true)),
        (DocumentId(2), m(2, 0, 0, 0, true)),
        (DocumentId(1), m(3, 0, 0, 0, true)),
    ];
    let s = sort_pairs_by_id(&v);
    let keys: Vec<(u64, u32)> = s.iter().map(|p| (p.0.0, p.1.query_index)).collect();
    // sorted by document, equal documents kept in input order
    assert_eq!(keys, vec![(1, 1), (1, 3), (2, 0), (2, 2)]);
}

#[test]
fn grouping_collects_columns_per_document() {
    let matches = vec![
        (DocumentId(9), m(1, 0, 0, 4, true)),
        (DocumentId(4), m(0, 1, 2, 7, false)),
        (DocumentId(9), m(0, 0, 1, 2, true)),
    ];
    let highlights = vec![
        (DocumentId(9), h(0, 10, 3)),
        (DocumentId(4), h(2, 20, 5)),
        (DocumentId(9), h(1, 30, 2)),
    ];
    let docs = raw_documents_from(matches, highlights);
    assert_eq!(docs.len(), 2);

    assert_eq!(docs[0].id, DocumentId(4));
    assert_eq!(docs[0].query_index, vec![0]);
    assert_eq!(docs[0].distance, vec![1]);
    assert_eq!(docs[0].attribute, vec![2]);
    assert_eq!(docs[0].word_index, vec![7]);
    assert_eq!(docs[0].is_exact, vec![false]);
    assert_eq!(docs[0].highlights, vec![h(2, 20, 5)]);

    assert_eq!(docs[1].id, DocumentId(9));
    assert_eq!(docs[1].query_index, vec![1, 0]);
    assert_eq!(docs[1].highlights, vec![h(0, 10, 3), h(1, 30, 2)]);
}

#[test]
fn five_columns_share_one_length() {
    let matches = vec![
        (DocumentId(1), m(0, 0, 0, 0, true)),
        (DocumentId(1), m(1, 1, 2, 3, false)),
        (DocumentId(2), m(0, 0, 0, 0, true)),
    ];
    let highlights = vec![
        (DocumentId(1), h(0, 0, 1)),
        (DocumentId(1), h(2, 1, 1)),
        (DocumentId(2), h(0, 0, 1)),
    ];
    let docs = raw_documents_from(matches, highlights);
    for d in &docs {
        let n = d.query_index.len();
        assert_eq!(d.distance.len(), n);
        assert_eq!(d.attribute.len(), n);
        assert_eq!(d.word_index.len(), n);
        assert_eq!(d.is_exact.len(), n);
    }
}

#[test]
fn permutations_sort_the_columns_together() {
    let keys: Vec<u64> = vec![30, 10, 20, 10];
    let perm = permutations_unstable_by_key(4, &keys);
    // ties keep index order
    assert_eq!(perm, vec![1, 3, 2, 0]);

    let mut col: Vec<u16> = vec![300, 100, 200, 101];
    apply_permutations(&perm, &mut col);
    assert_eq!(col, vec![100, 101, 200, 300]);
}

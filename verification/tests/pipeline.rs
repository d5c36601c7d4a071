use meilidb_core::{DocIndex, DocumentId};
use meilidb_core::index::Index;
use meilidb_core::query_builder::{query, QueryConfig};
use meilidb_core::synonyms_addition::SynonymsAddition;

fn di(id: u64, attr: u16, wi: u16, ci: u16, cl: u16) -> DocIndex {
    DocIndex {
        document_id: DocumentId(id),
        attribute: attr,
        word_index: wi,
        char_index: ci,
        char_length: cl,
    }
}

fn add_word(ix: &mut Index, word: &str, postings: Vec<DocIndex>) {
    ix.set_word_indexes(word.as_bytes().to_vec(), postings);
}

#[test]
fn empty_query_returns_nothing() {
    let mut ix = Index::new();
    add_word(&mut ix, "hello", vec![di(1, 0, 0, 0, 5)]);
    let cfg = QueryConfig::default();
    assert_eq!(query(&ix, &cfg, "", 0, 10).len(), 0);
    assert_eq!(query(&ix, &cfg, "  ,;  ", 0, 10).len(), 0);
}

#[test]
fn exact_word_is_found() {
    let mut ix = Index::new();
    add_word(&mut ix, "hello", vec![di(1, 0, 0, 0, 5)]);
    add_word(&mut ix, "world", vec![di(2, 0, 0, 0, 5)]);
    let cfg = QueryConfig::default();
    let res = query(&ix, &cfg, "Hello", 0, 10);
    assert_eq!(res.len(), 1);
    assert_eq!(res[0].id, DocumentId(1));
    assert_eq!(res[0].highlights.len(), 1);
    assert_eq!(res[0].highlights[0].char_length, 5);
}

#[test]
fn ranking_cascade_prefers_close_words() {
    // document 1 holds both words adjacent in one attribute; document 2
    // scatters them across two attributes: criteria one and two tie, the
    // proximity criterion decides
    let mut ix = Index::new();
    add_word(
        &mut ix,
        "river",
        vec![di(1, 0, 3, 0, 5), di(2, 0, 9, 0, 5)],
    );
    add_word(
        &mut ix,
        "bank",
        vec![di(1, 0, 4, 6, 4), di(2, 1, 0, 6, 4)],
    );
    let cfg = QueryConfig::default();
    let res = query(&ix, &cfg, "river bank", 0, 10);
    assert_eq!(res.len(), 2);
    assert_eq!(res[0].id, DocumentId(1));
    assert_eq!(res[1].id, DocumentId(2));
}

#[test]
fn exact_match_outranks_typo() {
    // "helo" matches document 2 exactly and document 1 with one typo
    let mut ix = Index::new();
    add_word(&mut ix, "hello", vec![di(1, 0, 0, 0, 5)]);
    add_word(&mut ix, "helo", vec![di(2, 0, 0, 0, 4)]);
    let mut cfg = QueryConfig::default();
    cfg.min_word_len_for_1_typo = 3;
    let res = query(&ix, &cfg, "helo", 0, 10);
    assert_eq!(res.len(), 2);
    assert_eq!(res[0].id, DocumentId(2));
    assert_eq!(res[1].id, DocumentId(1));
}

#[test]
fn prefix_matches_the_final_token() {
    let mut ix = Index::new();
    add_word(&mut ix, "hello", vec![di(1, 0, 0, 0, 5)]);
    let cfg = QueryConfig::default();
    // query-as-you-type: the final token matches any word it prefixes
    let res = query(&ix, &cfg, "hel", 0, 10);
    assert_eq!(res.len(), 1);
    assert_eq!(res[0].id, DocumentId(1));
}

#[test]
fn synonym_query_returns_the_same_documents() {
    // with "NYC" expanding to "new york city", querying either returns the
    // same document
    let mut ix = Index::new();
    add_word(&mut ix, "new", vec![di(10, 0, 0, 0, 3)]);
    add_word(&mut ix, "york", vec![di(10, 0, 1, 4, 4)]);
    add_word(&mut ix, "city", vec![di(10, 0, 2, 9, 4)]);

    let mut sa = SynonymsAddition::new();
    sa.add_synonym("NYC", vec!["new york city".to_string()]);
    let update_id = sa.finalize(&mut ix);
    assert_eq!(update_id, 1);

    let cfg = QueryConfig::default();
    let by_synonym = query(&ix, &cfg, "NYC", 0, 10);
    let spelled_out = query(&ix, &cfg, "new york city", 0, 10);

    let a: Vec<u64> = by_synonym.iter().map(|d| d.id.0).collect();
    let b: Vec<u64> = spelled_out.iter().map(|d| d.id.0).collect();
    assert_eq!(a, vec![10]);
    assert_eq!(a, b);
}

#[test]
fn multi_word_synonym_key_is_looked_up() {
    // the key "new york" is a two-token phrase; its alternative is shorter
    // than the span, so the rewrite shifts nothing, but the alternative is
    // still searched and lands on the span's origin
    let mut ix = Index::new();
    add_word(&mut ix, "nyc", vec![di(7, 0, 0, 0, 3)]);

    let mut sa = SynonymsAddition::new();
    sa.add_synonym("new york", vec!["nyc".to_string()]);
    sa.finalize(&mut ix);

    let cfg = QueryConfig::default();
    let res = query(&ix, &cfg, "new york", 0, 10);
    assert_eq!(res.len(), 1);
    assert_eq!(res[0].id, DocumentId(7));
}

#[test]
fn stop_words_are_discarded() {
    let mut ix = Index::new();
    add_word(&mut ix, "the", vec![di(5, 0, 0, 0, 3)]);
    add_word(&mut ix, "city", vec![di(6, 0, 1, 4, 4)]);
    let mut cfg = QueryConfig::default();
    cfg.stop_words = vec![b"the".to_vec()];
    let res = query(&ix, &cfg, "the city", 0, 10);
    assert_eq!(res.len(), 1);
    assert_eq!(res[0].id, DocumentId(6));
}

#[test]
fn searchable_fields_restrict_matches() {
    let mut ix = Index::new();
    add_word(&mut ix, "word", vec![di(1, 0, 0, 0, 4), di(2, 3, 0, 0, 4)]);
    let mut cfg = QueryConfig::default();
    cfg.searchable_fields = Some(vec![3]);
    let res = query(&ix, &cfg, "word", 0, 10);
    assert_eq!(res.len(), 1);
    assert_eq!(res[0].id, DocumentId(2));
}

#[test]
fn paging_slices_the_ranked_documents() {
    let mut ix = Index::new();
    add_word(
        &mut ix,
        "word",
        vec![
            di(1, 0, 0, 0, 4),
            di(2, 0, 1, 5, 4),
            di(3, 0, 2, 10, 4),
        ],
    );
    let cfg = QueryConfig::default();
    let all = query(&ix, &cfg, "word", 0, 10);
    assert_eq!(all.len(), 3);
    let page = query(&ix, &cfg, "word", 1, 1);
    assert_eq!(page.len(), 1);
    assert_eq!(page[0].id, all[1].id);
    let empty = query(&ix, &cfg, "word", 5, 10);
    assert_eq!(empty.len(), 0);
}

#[test]
fn query_twice_gives_identical_results() {
    let mut ix = Index::new();
    add_word(&mut ix, "alpha", vec![di(1, 0, 0, 0, 5), di(2, 1, 3, 0, 5)]);
    add_word(&mut ix, "beta", vec![di(2, 1, 4, 6, 4)]);
    let cfg = QueryConfig::default();
    let a: Vec<u64> = query(&ix, &cfg, "alpha beta", 0, 10).iter().map(|d| d.id.0).collect();
    let b: Vec<u64> = query(&ix, &cfg, "alpha beta", 0, 10).iter().map(|d| d.id.0).collect();
    assert_eq!(a, b);
}

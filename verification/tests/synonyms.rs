use meilidb_core::index::Index;
use meilidb_core::synonyms_addition::{FinalSynonymsAddition, SynonymsAddition};

fn b(s: &str) -> Vec<u8> {
    s.as_bytes().to_vec()
}

#[test]
fn synonyms_are_normalized_and_split() {
    let mut ix = Index::new();
    let mut sa = SynonymsAddition::new();
    sa.add_synonym("NYC", vec!["New York City".to_string()]);
    sa.finalize(&mut ix);

    let alts = ix.alternatives_to(&b("nyc")).expect("key must be known");
    assert_eq!(alts.len(), 1);
    assert_eq!(alts[0], vec![b("new"), b("york"), b("city")]);
    assert!(ix.alternatives_to(&b("NYC")).is_none());
}

#[test]
fn duplicate_alternatives_are_dropped() {
    let mut ix = Index::new();
    let mut sa = SynonymsAddition::new();
    sa.add_synonym("uk", vec!["united kingdom".to_string()]);
    sa.add_synonym("uk", vec!["united kingdom".to_string(), "britain".to_string()]);
    sa.finalize(&mut ix);

    let alts = ix.alternatives_to(&b("uk")).expect("key must be known");
    assert_eq!(alts.len(), 2);
    assert_eq!(alts[0], vec![b("united"), b("kingdom")]);
    assert_eq!(alts[1], vec![b("britain")]);
}

#[test]
fn a_second_update_replaces_the_alternatives() {
    let mut ix = Index::new();
    let mut first = SynonymsAddition::new();
    first.add_synonym("la", vec!["los angeles".to_string()]);
    let id1 = first.finalize(&mut ix);

    let mut second = SynonymsAddition::new();
    second.add_synonym("la", vec!["louisiana".to_string()]);
    let id2 = second.finalize(&mut ix);

    assert_eq!(id1, 1);
    assert_eq!(id2, 2);
    let alts = ix.alternatives_to(&b("la")).expect("key must be known");
    assert_eq!(alts.len(), 1);
    assert_eq!(alts[0], vec![b("louisiana")]);
}

#[test]
fn final_addition_applies_like_a_queued_one() {
    let mut ix = Index::new();
    let mut fsa = FinalSynonymsAddition::new();
    fsa.add_synonym("sf", vec!["san francisco".to_string()]);
    fsa.finalize(&mut ix);

    let alts = ix.alternatives_to(&b("sf")).expect("key must be known");
    assert_eq!(alts[0], vec![b("san"), b("francisco")]);
    // applying a closed batch does not count as a new queued update
    assert_eq!(ix.updates, 0);
}

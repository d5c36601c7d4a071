use meilidb_core::query_enhancer::QueryEnhancerBuilder;

fn toks(words: &[&str]) -> Vec<Vec<u8>> {
    words.iter().map(|w| w.as_bytes().to_vec()).collect()
}

#[test]
fn original_unmodified() {
    let query = toks(&["new", "york", "city", "subway"]);
    //                   0       1       2        3
    let mut builder = QueryEnhancerBuilder::new(query);

    // new york = new york city
    builder.declare(0..2, 4, &toks(&["new", "york", "city"]));
    //                    ^      4       5       6

    let enhancer = builder.build();

    assert_eq!(enhancer.replacement(0), 0..1); // new
    assert_eq!(enhancer.replacement(1), 1..2); // york
    assert_eq!(enhancer.replacement(2), 2..3); // city
    assert_eq!(enhancer.replacement(3), 3..4); // subway
    assert_eq!(enhancer.replacement(4), 0..1); // new
    assert_eq!(enhancer.replacement(5), 1..2); // york
    assert_eq!(enhancer.replacement(6), 2..3); // city
}

#[test]
fn simple_growing() {
    let query = toks(&["new", "york", "subway"]);
    //                   0       1        2
    let mut builder = QueryEnhancerBuilder::new(query);

    // new york = new york city
    builder.declare(0..2, 3, &toks(&["new", "york", "city"]));
    //                    ^      3       4       5

    let enhancer = builder.build();

    assert_eq!(enhancer.replacement(0), 0..1); // new
    assert_eq!(enhancer.replacement(1), 1..2); // york
    assert_eq!(enhancer.replacement(2), 3..4); // subway
    assert_eq!(enhancer.replacement(3), 0..1); // new
    assert_eq!(enhancer.replacement(4), 1..2); // york
    assert_eq!(enhancer.replacement(5), 2..3); // city
}

#[test]
fn bigger_growing() {
    let query = toks(&["NYC", "subway"]);
    //                   0        1
    let mut builder = QueryEnhancerBuilder::new(query);

    // NYC = new york city
    builder.declare(0..1, 2, &toks(&["new", "york", "city"]));
    //                    ^      2       3       4

    let enhancer = builder.build();

    assert_eq!(enhancer.replacement(0), 0..1); // NYC
    assert_eq!(enhancer.replacement(1), 3..4); // subway
    assert_eq!(enhancer.replacement(2), 0..1); // new
    assert_eq!(enhancer.replacement(3), 1..2); // york
    assert_eq!(enhancer.replacement(4), 2..3); // city
}

#[test]
fn middle_query_growing() {
    let query = toks(&["great", "awesome", "NYC", "subway"]);
    //                    0         1        2        3
    let mut builder = QueryEnhancerBuilder::new(query);

    // NYC = new york city
    builder.declare(2..3, 4, &toks(&["new", "york", "city"]));
    //                    ^      4       5       6

    let enhancer = builder.build();

    assert_eq!(enhancer.replacement(0), 0..1); // great
    assert_eq!(enhancer.replacement(1), 1..2); // awesome
    assert_eq!(enhancer.replacement(2), 2..3); // NYC
    assert_eq!(enhancer.replacement(3), 5..6); // subway
    assert_eq!(enhancer.replacement(4), 2..3); // new
    assert_eq!(enhancer.replacement(5), 3..4); // york
    assert_eq!(enhancer.replacement(6), 4..5); // city
}

#[test]
fn multiple_growings() {
    let query = toks(&["great", "awesome", "NYC", "subway"]);
    //                    0         1        2        3
    let mut builder = QueryEnhancerBuilder::new(query);

    // NYC = new york city
    builder.declare(2..3, 4, &toks(&["new", "york", "city"]));
    //                    ^      4       5       6

    // subway = underground train
    builder.declare(3..4, 7, &toks(&["underground", "train"]));
    //                    ^          7           8

    let enhancer = builder.build();

    assert_eq!(enhancer.replacement(0), 0..1); // great
    assert_eq!(enhancer.replacement(1), 1..2); // awesome
    assert_eq!(enhancer.replacement(2), 2..3); // NYC
    assert_eq!(enhancer.replacement(3), 5..6); // subway
    assert_eq!(enhancer.replacement(4), 2..3); // new
    assert_eq!(enhancer.replacement(5), 3..4); // york
    assert_eq!(enhancer.replacement(6), 4..5); // city
    assert_eq!(enhancer.replacement(7), 5..6); // underground
    assert_eq!(enhancer.replacement(8), 6..7); // train
}

#[test]
fn multiple_probable_growings() {
    let query = toks(&["great", "awesome", "NYC", "subway"]);
    //                    0         1        2        3
    let mut builder = QueryEnhancerBuilder::new(query);

    // NYC = new york city
    builder.declare(2..3, 4, &toks(&["new", "york", "city"]));
    //                    ^      4       5       6

    // subway = underground train
    builder.declare(3..4, 7, &toks(&["underground", "train"]));
    //                    ^          7           8

    // great awesome = good
    builder.declare(0..2, 9, &toks(&["good"]));
    //                    ^       9

    // awesome NYC = NY
    builder.declare(1..3, 10, &toks(&["NY"]));
    //                    ^^     10

    let enhancer = builder.build();

    assert_eq!(enhancer.replacement(0), 0..1); // great
    assert_eq!(enhancer.replacement(1), 1..2); // awesome
    assert_eq!(enhancer.replacement(2), 2..3); // NYC
    assert_eq!(enhancer.replacement(3), 5..6); // subway
    assert_eq!(enhancer.replacement(4), 2..3); // new
    assert_eq!(enhancer.replacement(5), 3..4); // york
    assert_eq!(enhancer.replacement(6), 4..5); // city
    assert_eq!(enhancer.replacement(7), 5..6); // underground
    assert_eq!(enhancer.replacement(8), 6..7); // train
    assert_eq!(enhancer.replacement(9), 0..1); // good
    assert_eq!(enhancer.replacement(10), 1..2); // NY
}

#[test]
fn rejected_rewrite_keeps_origins() {
    // a replacement that merely repeats the original text is recorded but
    // shifts nothing
    let query = toks(&["new", "york", "city", "subway"]);
    let mut builder = QueryEnhancerBuilder::new(query);
    builder.declare(0..2, 4, &toks(&["new", "york", "city"]));
    let enhancer = builder.build();
    // subway is not shifted
    assert_eq!(enhancer.replacement(3), 3..4);
}

#[test]
fn rewrite_range_with_rules() {
    let query = toks(&["new", "york", "city", "subway"]);
    // smaller than the original: refused
    assert!(!meilidb_core::query_enhancer::rewrite_range_with(
        &query,
        0..2,
        &toks(&["new"])
    ));
    // already present in the original: refused
    assert!(!meilidb_core::query_enhancer::rewrite_range_with(
        &query,
        0..2,
        &toks(&["new", "york", "city"])
    ));
    // bigger than the original and new text: accepted
    assert!(meilidb_core::query_enhancer::rewrite_range_with(
        &query,
        0..1,
        &toks(&["big", "apple"])
    ));
}

use vector_engine::expected_count::expected_count;
use vector_engine::inverted_index::{
    Document, ImmutableInvertedIndex, InvertedIndex, MutableInvertedIndex, ParsedQuery,
};
use vector_engine::posting_list::{CompressedPostingList, CompressedPostingVisitor, PackedGaps, PostingList};
use vector_engine::types::{CardinalityEstimation, OperationError};

fn words(text: &str) -> Vec<String> {
    text.split_whitespace().map(|w| w.to_string()).collect()
}

fn query(index: &InvertedIndex, text: &str) -> ParsedQuery {
    ParsedQuery { tokens: text.split_whitespace().map(|w| index.get_token(w)).collect() }
}

fn filled(appendable: bool) -> InvertedIndex {
    let items = vec![
        (0u32, words("the quick brown fox")),
        (1, words("the lazy dog")),
        (2, words("quick quick dog")),
        (4, words("the fox and the dog")),
    ];
    let mut index = InvertedIndex::new(appendable);
    index.build_index(&items);
    index
}

#[test]
fn posting_list_stays_sorted_and_unique() {
    let mut list = PostingList::new(7);
    list.insert(3);
    list.insert(9);
    list.insert(3);
    list.insert(5);
    assert_eq!(list.iter(), &vec![3, 5, 7, 9]);
    assert_eq!(list.len(), 4);
    assert!(list.contains(&5));
    assert!(!list.contains(&4));
    list.remove(4);
    list.remove(7);
    assert_eq!(list.iter(), &vec![3, 5, 9]);
    assert_eq!(list.get(1), 5);
    assert!(!list.is_empty());
    assert!(PostingList::default().is_empty());
}

#[test]
fn compressed_list_holds_the_same_points() {
    let mut list = PostingList::default();
    for point in [1u32, 2, 3, 250, 300, 70_000, 70_001, 4_000_000_000] {
        list.insert(point);
    }
    let points = list.iter().clone();
    let compressed = CompressedPostingList::new(list);
    assert_eq!(compressed.iter(), points);
    assert_eq!(compressed.len(), 8);
    for point in &points {
        assert!(compressed.contains(point));
    }
    for point in [0u32, 4, 251, 69_999, 4_000_000_001] {
        assert!(!compressed.contains(&point));
    }
    let mut visitor = CompressedPostingVisitor::new(&compressed);
    assert!(!visitor.contains_next_and_advance(&0));
    assert!(visitor.contains_next_and_advance(&2));
    assert!(!visitor.contains_next_and_advance(&4));
    assert!(visitor.contains_next_and_advance(&300));
    assert!(visitor.contains_next_and_advance(&4_000_000_000));
    assert!(!visitor.contains_next_and_advance(&4_000_000_001));
    let empty = CompressedPostingList::new(PostingList::default());
    assert_eq!(empty.len(), 0);
    assert!(!empty.contains(&0));
}

#[test]
fn gaps_take_the_narrowest_width() {
    assert!(matches!(PackedGaps::pack(&vec![1, 255, 3]), PackedGaps::Byte(_)));
    assert!(matches!(PackedGaps::pack(&vec![1, 256, 3]), PackedGaps::Short(_)));
    assert!(matches!(PackedGaps::pack(&vec![65_536]), PackedGaps::Word(_)));
    let packed = PackedGaps::pack(&vec![1, 65_535, 3]);
    assert_eq!((packed.len(), packed.get(1)), (3, 65_535));
}

#[test]
fn document_sorts_its_tokens_and_drops_repeats() {
    let document = Document::new(vec![5, 1, 3, 1, 5]);
    assert_eq!(document.tokens(), &[1, 3, 5]);
    assert_eq!(document.len(), 3);
    assert!(document.check(3));
    assert!(!document.check(2));
    assert!(Document::new(vec![]).is_empty());
    let all = ParsedQuery { tokens: vec![Some(1), Some(5)] };
    assert!(all.check_match(&document));
    let missing = ParsedQuery { tokens: vec![Some(1), Some(2)] };
    assert!(!missing.check_match(&document));
    let unknown = ParsedQuery { tokens: vec![Some(1), None] };
    assert!(!unknown.check_match(&document));
    assert!(ParsedQuery { tokens: vec![] }.check_match(&document));
}

#[test]
fn vocabulary_numbers_words_in_the_order_they_come() {
    let mut index = InvertedIndex::new(true);
    let first = index.document_from_tokens(&words("b a b c"));
    assert_eq!(first.tokens(), &[0, 1, 2]);
    let second = index.document_from_tokens(&words("c d a"));
    assert_eq!(second.tokens(), &[1, 2, 3]);
    assert_eq!(index.get_token("b"), Some(0));
    assert_eq!(index.get_token("d"), Some(3));
    assert_eq!(index.get_token("e"), None);
    assert_eq!(index.points_count(), 0);
}

#[test]
fn filter_gives_the_points_that_hold_every_token() {
    for appendable in [true, false] {
        let index = filled(appendable);
        assert_eq!(index.points_count(), 4);
        assert_eq!(index.filter(&query(&index, "the")), vec![0, 1, 4]);
        assert_eq!(index.filter(&query(&index, "the dog")), vec![1, 4]);
        assert_eq!(index.filter(&query(&index, "dog the fox")), vec![4]);
        assert_eq!(index.filter(&query(&index, "quick lazy")), Vec::<u32>::new());
        // a word that the vocabulary does not know
        assert_eq!(index.filter(&query(&index, "the cat")), Vec::<u32>::new());
        // a query without words
        assert_eq!(index.filter(&query(&index, "")), Vec::<u32>::new());
        assert!(index.check_match(&query(&index, "quick dog"), 2));
        assert!(!index.check_match(&query(&index, "quick dog"), 1));
        assert!(!index.check_match(&query(&index, "quick"), 3));
        assert_eq!(index.values_count(2), 2);
        assert_eq!(index.values_count(3), 0);
        assert!(index.values_is_empty(3));
        assert!(!index.values_is_empty(0));
    }
}

#[test]
fn cardinality_follows_the_posting_lists() {
    for appendable in [true, false] {
        let index = filled(appendable);
        // one token: the list is the answer
        assert_eq!(
            index.estimate_cardinality(&query(&index, "the")),
            CardinalityEstimation { min: 3, exp: 3, max: 3 }
        );
        // the: 3 points, dog: 3 points, of 4: 4 * 3/4 * 3/4 = 2.25
        assert_eq!(
            index.estimate_cardinality(&query(&index, "the dog")),
            CardinalityEstimation { min: 0, exp: 2, max: 3 }
        );
        // lazy: 1 point
        assert_eq!(
            index.estimate_cardinality(&query(&index, "the lazy dog")),
            CardinalityEstimation { min: 0, exp: 0, max: 1 }
        );
        let nothing = CardinalityEstimation { min: 0, exp: 0, max: 0 };
        assert_eq!(index.estimate_cardinality(&query(&index, "the cat")), nothing);
        assert_eq!(index.estimate_cardinality(&query(&index, "cat")), nothing);
        assert_eq!(index.estimate_cardinality(&query(&index, "")), nothing);
    }
    let empty = InvertedIndex::new(true);
    assert_eq!(
        empty.estimate_cardinality(&ParsedQuery { tokens: vec![Some(0)] }),
        CardinalityEstimation { min: 0, exp: 0, max: 0 }
    );
}

#[test]
fn payload_blocks_name_the_frequent_words() {
    for appendable in [true, false] {
        let index = filled(appendable);
        let blocks = index.payload_blocks(3, "text".to_string());
        let seen: Vec<(String, String, usize)> = blocks
            .into_iter()
            .map(|b| (b.condition.key, b.condition.text, b.cardinality))
            .collect();
        assert_eq!(
            seen,
            vec![
                ("text".to_string(), "the".to_string(), 3),
                ("text".to_string(), "dog".to_string(), 3),
            ]
        );
        assert_eq!(index.payload_blocks(1, "t".to_string()).len(), 7);
        assert!(index.payload_blocks(4, "t".to_string()).is_empty());
    }
}

#[test]
fn mutable_index_takes_and_drops_documents() {
    let mut index = InvertedIndex::new(true);
    let document = index.document_from_tokens(&words("red green"));
    assert_eq!(index.index_document(3, document), Ok(()));
    let document = index.document_from_tokens(&words("green blue"));
    assert_eq!(index.index_document(5, document), Ok(()));
    assert_eq!(index.points_count(), 2);
    assert_eq!(index.filter(&query(&index, "green")), vec![3, 5]);
    assert!(index.remove_document(3));
    assert!(!index.remove_document(3));
    assert!(!index.remove_document(100));
    assert_eq!(index.points_count(), 1);
    assert_eq!(index.filter(&query(&index, "green")), vec![5]);
    assert_eq!(index.filter(&query(&index, "red")), Vec::<u32>::new());
    assert_eq!(
        index.estimate_cardinality(&query(&index, "red")),
        CardinalityEstimation { min: 0, exp: 0, max: 0 }
    );
}

#[test]
fn immutable_index_refuses_documents_and_hides_removed_points() {
    let mut index = filled(false);
    let document = index.document_from_tokens(&words("the new one"));
    assert_eq!(
        index.index_document(9, document),
        Err(OperationError::PreconditionFailed {
            description: "Can't add values to immutable text index".to_string()
        })
    );
    assert_eq!(index.points_count(), 4);
    assert!(index.remove_document(1));
    assert!(!index.remove_document(1));
    assert_eq!(index.points_count(), 3);
    assert_eq!(index.filter(&query(&index, "the")), vec![0, 4]);
    assert!(!index.check_match(&query(&index, "the"), 1));
    // the list keeps the removed point
    assert_eq!(
        index.estimate_cardinality(&query(&index, "the")),
        CardinalityEstimation { min: 3, exp: 3, max: 3 }
    );
}

#[test]
fn converted_index_answers_like_the_mutable_one() {
    let mut mutable = MutableInvertedIndex::default();
    let texts = ["a b c", "b c d", "c d e", "a e", "b", "a b c d e"];
    for (point, text) in texts.iter().enumerate() {
        let document = mutable.document_from_tokens(&words(text));
        mutable.index_document(point as u32 * 3, document);
    }
    mutable.remove_document(6);
    let queries: Vec<Vec<Option<u32>>> = vec![
        vec![Some(0)],
        vec![Some(1), Some(2)],
        vec![Some(2), Some(3), Some(4)],
        vec![Some(0), Some(4)],
        vec![Some(0), None],
        vec![Some(17)],
        vec![],
    ];
    let before: Vec<Vec<u32>> = queries
        .iter()
        .map(|tokens| mutable.filter(&ParsedQuery { tokens: tokens.clone() }))
        .collect();
    assert_eq!(before[0], vec![0, 9, 15]);
    assert_eq!(before[1], vec![0, 3, 15]);
    let rows = mutable.vocab_with_positngs_len_iter();
    let immutable = ImmutableInvertedIndex::from_mutable(mutable);
    for (tokens, expected) in queries.iter().zip(before.iter()) {
        assert_eq!(&immutable.filter(&ParsedQuery { tokens: tokens.clone() }), expected);
    }
    assert_eq!(immutable.vocab_with_positngs_len_iter(), rows);
    assert_eq!(rows[0], ("a".to_string(), 3));
    assert_eq!(immutable.values_count(15), 5);
    assert!(immutable.values_is_empty(6));
}

#[test]
fn expected_count_keeps_the_product_in_full() {
    // 10 * 7/10 * 7/10 * 7/10 = 3.43
    assert_eq!(expected_count(&vec![7, 7, 7], 10), 3);
    // 3 * 2/3 * 2/3 = 1.33
    assert_eq!(expected_count(&vec![2, 2], 3), 1);
    assert_eq!(expected_count(&vec![5], 9), 5);
    assert_eq!(expected_count(&vec![9, 0, 9], 9), 0);
    assert_eq!(expected_count(&vec![1000; 40], 1000), 1000);
    assert_eq!(expected_count(&vec![999; 40], 1000), 960);
    // 2^60 * 2^60 / 2^61
    assert_eq!(expected_count(&vec![1 << 60, 1 << 60], 1 << 61), 1 << 59);
    // lists longer than the count of points is large
    assert_eq!(expected_count(&vec![usize::MAX, usize::MAX], 7), usize::MAX);
    assert_eq!(expected_count(&vec![6, 7], 1), 42);
    assert_eq!(expected_count(&vec![usize::MAX, 2], 1), usize::MAX);
    assert_eq!(expected_count(&vec![100, 100, 100], 2), 250_000);
}

use vector_engine::posting_list::{CompressedPostingList, PostingList};
use vector_engine::postings_iterator::{
    intersect_compressed_postings_iterator, intersect_postings_iterator,
};

#[test]
fn test_postings_iterator() {
    let mut p1 = PostingList::default();
    p1.insert(1);
    p1.insert(2);
    p1.insert(3);
    p1.insert(4);
    p1.insert(5);
    let mut p2 = PostingList::default();
    p2.insert(2);
    p2.insert(4);
    p2.insert(5);
    p2.insert(5);
    let mut p3 = PostingList::default();
    p3.insert(1);
    p3.insert(2);
    p3.insert(5);
    p3.insert(6);
    p3.insert(7);

    let postings = vec![&p1, &p2, &p3];
    let merged = intersect_postings_iterator(postings);

    let res = merged.into_iter().collect::<Vec<_>>();

    assert_eq!(res, vec![2, 5]);

    let p1_compressed = CompressedPostingList::new(p1);
    let p2_compressed = CompressedPostingList::new(p2);
    let p3_compressed = CompressedPostingList::new(p3);
    let compressed_postings = vec![&p1_compressed, &p2_compressed, &p3_compressed];
    let merged = intersect_compressed_postings_iterator(compressed_postings, |_| true);

    let res = merged.into_iter().collect::<Vec<_>>();

    assert_eq!(res, vec![2, 5]);
}

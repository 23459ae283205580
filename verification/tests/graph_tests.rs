use vector_engine::graph_layers::{build_graph, GraphLayers};
use vector_engine::distance::Distance;
use vector_engine::point_scorer::{
    dot_product, similarity_of, FilteredScorer, MetricQueryScorer, PointsScorer,
};
use vector_engine::types::ScoredPointOffset;

fn three_vectors() -> Vec<Vec<i8>> {
    vec![vec![1, 0], vec![0, 1], vec![1, 1]]
}

fn scorer_of<'a>(
    vectors: &'a Vec<Vec<i8>>,
    query: Vec<i8>,
    excluded: &'a Vec<bool>,
) -> FilteredScorer<'a> {
    FilteredScorer { raw_scorer: MetricQueryScorer::new(query, vectors, Distance::Dot), excluded }
}

fn line_vectors(count: i8) -> Vec<Vec<i8>> {
    (0..count).map(|i| vec![i, 1]).collect()
}

#[test]
fn dot_product_of_whole_numbers() {
    assert_eq!(dot_product(&vec![1, 2, 3], &vec![4, 5, 6]), 32);
    assert_eq!(dot_product(&vec![-128, 127], &vec![-128, -1]), 16384 - 127);
    assert_eq!(dot_product(&vec![], &vec![1, 2]), 0);
}

#[test]
fn dot_product_takes_the_common_part() {
    assert_eq!(dot_product(&vec![1, 2, 3], &vec![4, 5]), 14);
    assert_eq!(dot_product(&vec![4, 5], &vec![1, 2, 3]), 14);
}

#[test]
fn filtered_scorer_scores_and_checks() {
    let vectors = three_vectors();
    let excluded = vec![false, true];
    let scorer = scorer_of(&vectors, vec![2, 3], &excluded);
    assert_eq!(scorer.score_point(0), 2);
    assert_eq!(scorer.score_point(1), 3);
    assert_eq!(scorer.score_point(2), 5);
    assert_eq!(scorer.score_internal(0, 2), 1);
    assert_eq!(scorer.score_internal(0, 1), 0);
    assert!(scorer.check_point(0));
    assert!(!scorer.check_point(1));
    assert!(scorer.check_point(2));
}

#[test]
fn similarity_by_each_measure() {
    let a = vec![1, -2, 3];
    let b = vec![-1, 2, 5];
    assert_eq!(similarity_of(Distance::Dot, &a, &b), 10);
    assert_eq!(similarity_of(Distance::Cosine, &a, &b), 10);
    assert_eq!(similarity_of(Distance::Euclid, &a, &b), -24);
    assert_eq!(similarity_of(Distance::Manhattan, &a, &b), -8);
    assert_eq!(similarity_of(Distance::Euclid, &a, &a), 0);
    assert_eq!(similarity_of(Distance::Manhattan, &vec![-128], &vec![127]), -255);
    assert_eq!(similarity_of(Distance::Euclid, &vec![-128], &vec![127]), -65025);
}

#[test]
fn metric_scorer_scores_stored_and_given_vectors() {
    let vectors = three_vectors();
    let scorer = MetricQueryScorer::new(vec![2, 3], &vectors, Distance::Euclid);
    assert_eq!(scorer.score_stored(0), -10);
    assert_eq!(scorer.score_stored(2), -5);
    assert_eq!(scorer.score(&vec![2, 3]), 0);
    assert_eq!(scorer.score(&vec![0, 0]), -13);
    assert_eq!(scorer.score_internal(0, 1), -2);
}

#[test]
fn new_graph_has_no_links() {
    let graph = GraphLayers::new(4, 2, 4, 10);
    assert_eq!(graph.num_points(), 4);
    assert_eq!(graph.entry_point(), None);
    for point in 0..4 {
        assert_eq!(graph.point_level(point), 0);
        assert!(graph.links(point, 0).is_empty());
    }
    assert_eq!(graph.get_average_connectivity_on_level(0), 0);
    assert_eq!(graph.get_average_connectivity_on_level(1), 0);
}

#[test]
fn set_levels_only_raises_a_point() {
    let mut graph = GraphLayers::new(3, 2, 4, 10);
    graph.set_levels(1, 2);
    assert_eq!(graph.point_level(1), 2);
    assert_eq!(graph.point_level(0), 0);
    graph.set_levels(1, 1);
    assert_eq!(graph.point_level(1), 2);
    graph.set_levels(1, 3);
    assert_eq!(graph.point_level(1), 3);
    assert!(graph.links(1, 3).is_empty());
}

#[test]
fn first_linked_point_becomes_the_entry_point() {
    let vectors = three_vectors();
    let excluded = vec![];
    let scorer = scorer_of(&vectors, vec![], &excluded);
    let mut graph = GraphLayers::new(3, 2, 4, 10);
    graph.link_new_point(1, &scorer);
    assert_eq!(graph.entry_point(), Some(1));
    assert!(graph.links(1, 0).is_empty());
}

#[test]
fn higher_point_takes_the_place_of_the_entry_point() {
    let vectors = three_vectors();
    let excluded = vec![];
    let scorer = scorer_of(&vectors, vec![], &excluded);
    let mut graph = GraphLayers::new(3, 2, 4, 10);
    graph.set_levels(1, 1);
    graph.set_levels(2, 1);
    graph.link_new_point(0, &scorer);
    assert_eq!(graph.entry_point(), Some(0));
    graph.link_new_point(1, &scorer);
    assert_eq!(graph.entry_point(), Some(1));
    graph.link_new_point(2, &scorer);
    assert_eq!(graph.entry_point(), Some(1));
    assert_eq!(graph.links(2, 1), &vec![1]);
    assert_eq!(graph.links(1, 1), &vec![2]);
}

#[test]
fn three_points_are_linked_to_each_other() {
    let vectors = three_vectors();
    let excluded = vec![];
    let scorer = scorer_of(&vectors, vec![], &excluded);
    let graph = build_graph(3, 2, 4, 10, &vec![0, 1, 2], &vec![0, 0, 0], &scorer);
    assert_eq!(graph.entry_point(), Some(0));
    assert_eq!(graph.links(0, 0), &vec![1, 2]);
    assert_eq!(graph.links(1, 0), &vec![0, 2]);
    assert_eq!(graph.links(2, 0), &vec![0, 1]);
    assert_eq!(graph.get_average_connectivity_on_level(0), 2);
}

#[test]
fn search_returns_the_best_points_first() {
    let vectors = three_vectors();
    let excluded = vec![];
    let scorer = scorer_of(&vectors, vec![1, 1], &excluded);
    let graph = build_graph(3, 2, 4, 10, &vec![0, 1, 2], &vec![0, 0, 0], &scorer);
    let found = graph.search(2, 10, &scorer, None);
    assert_eq!(
        found,
        vec![ScoredPointOffset { idx: 2, score: 2 }, ScoredPointOffset { idx: 0, score: 1 }]
    );
    let all = graph.search(10, 10, &scorer, None);
    assert_eq!(
        all,
        vec![
            ScoredPointOffset { idx: 2, score: 2 },
            ScoredPointOffset { idx: 0, score: 1 },
            ScoredPointOffset { idx: 1, score: 1 },
        ]
    );
}

#[test]
fn search_leaves_out_excluded_points() {
    let vectors = three_vectors();
    let none = vec![];
    let builder = scorer_of(&vectors, vec![], &none);
    let graph = build_graph(3, 2, 4, 10, &vec![0, 1, 2], &vec![0, 0, 0], &builder);
    let excluded = vec![false, false, true];
    let scorer = scorer_of(&vectors, vec![1, 1], &excluded);
    let found = graph.search(2, 10, &scorer, None);
    assert_eq!(
        found,
        vec![ScoredPointOffset { idx: 0, score: 1 }, ScoredPointOffset { idx: 1, score: 1 }]
    );
}

#[test]
fn search_of_an_empty_graph_finds_nothing() {
    let vectors = three_vectors();
    let excluded = vec![];
    let scorer = scorer_of(&vectors, vec![1, 1], &excluded);
    let graph = GraphLayers::new(3, 2, 4, 10);
    assert!(graph.search(2, 10, &scorer, None).is_empty());
}

#[test]
fn search_for_nothing_finds_nothing() {
    let vectors = three_vectors();
    let excluded = vec![];
    let scorer = scorer_of(&vectors, vec![1, 1], &excluded);
    let graph = build_graph(3, 2, 4, 10, &vec![0, 1, 2], &vec![0, 0, 0], &scorer);
    assert!(graph.search(0, 0, &scorer, None).is_empty());
}

#[test]
fn search_sets_out_from_a_given_point() {
    let vectors = three_vectors();
    let excluded = vec![];
    let scorer = scorer_of(&vectors, vec![0, 1], &excluded);
    let mut graph = GraphLayers::new(3, 2, 4, 10);
    graph.link_new_point(0, &scorer);
    let custom = vec![7, 1];
    let found = graph.search(3, 10, &scorer, Some(&custom));
    assert_eq!(found, vec![ScoredPointOffset { idx: 1, score: 1 }]);
    let by_entry = graph.search(3, 10, &scorer, None);
    assert_eq!(by_entry, vec![ScoredPointOffset { idx: 0, score: 0 }]);
}

#[test]
fn search_results_hold_what_is_promised() {
    let vectors = line_vectors(40);
    let excluded: Vec<bool> = (0..40).map(|i| i % 3 == 0).collect();
    let none = vec![];
    let builder = scorer_of(&vectors, vec![], &none);
    let ids: Vec<u32> = (0..40).collect();
    let levels: Vec<usize> = (0..40).map(|i| if i % 8 == 0 { 1 } else { 0 }).collect();
    let graph = build_graph(40, 4, 8, 16, &ids, &levels, &builder);
    for point in 0..40u32 {
        for level in 0..=graph.point_level(point) {
            let row = graph.links(point, level);
            assert!(row.len() <= if level == 0 { 8 } else { 4 });
            for &other in row.iter() {
                assert!(other < 40);
                assert_ne!(other, point);
                assert!(graph.point_level(other) >= level);
            }
        }
        if point > 0 {
            assert!(!graph.links(point, 0).is_empty());
        }
    }
    let scorer = scorer_of(&vectors, vec![1, 0], &excluded);
    let found = graph.search(5, 16, &scorer, None);
    assert!(found.len() <= 5);
    for pair in found.windows(2) {
        assert!(pair[0].score >= pair[1].score);
        assert_ne!(pair[0].idx, pair[1].idx);
    }
    for item in found.iter() {
        assert!(item.idx < 40);
        assert_ne!(item.idx % 3, 0);
        assert_eq!(item.score, i64::from(item.idx));
    }
    let open = scorer_of(&vectors, vec![1, 0], &none);
    let best = graph.search(1, 16, &open, None);
    assert_eq!(best.len(), 1);
    assert!(best[0].score >= open.score_point(graph.entry_point().unwrap()));
}

#[test]
fn merged_graph_has_the_links_of_both() {
    let vectors = three_vectors();
    let excluded = vec![];
    let scorer = scorer_of(&vectors, vec![], &excluded);
    let mut first = build_graph(3, 2, 4, 10, &vec![0, 1], &vec![0, 0], &scorer);
    let second = build_graph(3, 1, 2, 10, &vec![2, 1], &vec![1, 0], &scorer);
    assert_eq!(first.links(0, 0), &vec![1]);
    assert_eq!(first.links(1, 0), &vec![0]);
    assert_eq!(second.links(2, 0), &vec![1]);
    assert_eq!(second.links(1, 0), &vec![2]);
    first.merge_from_other(&second);
    assert_eq!(first.links(0, 0), &vec![1]);
    assert_eq!(first.links(1, 0), &vec![0, 2]);
    assert_eq!(first.links(2, 0), &vec![1]);
    assert_eq!(first.point_level(2), 1);
    assert!(first.links(2, 1).is_empty());
    assert_eq!(first.entry_point(), Some(2));
    assert_eq!(first.get_average_connectivity_on_level(0), 1);
}

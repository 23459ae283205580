use std::cell::Cell;

use vector_engine::distance::Distance;
use vector_engine::graph_layers::{GraphLayers, StoredGraph};
use vector_engine::hnsw::{
    HNSWSearchesTelemetry, HnswConfig, HnswGraphConfig, QuantizationSearchParams, SearchParams,
};
use vector_engine::hnsw_build::{build_index, link_points, PayloadBlock, MAX_GRAPH_LEVEL};
use vector_engine::hnsw_index::{
    score_all, score_points_unfiltered, HNSWIndex, HnswIndexOpenArgs,
};
use vector_engine::point_scorer::{FilteredScorer, MetricQueryScorer, PointsScorer};
use vector_engine::types::{CardinalityEstimation, OperationError, ScoredPointOffset};

fn scorer_of<'a>(
    vectors: &'a Vec<Vec<i8>>,
    query: Vec<i8>,
    excluded: &'a Vec<bool>,
) -> FilteredScorer<'a> {
    FilteredScorer { raw_scorer: MetricQueryScorer::new(query, vectors, Distance::Dot), excluded }
}

/// Vectors on a circle of whole numbers, so that no two of them point the
/// same way.
fn scattered(count: usize) -> Vec<Vec<i8>> {
    let mut seed: u64 = 0x2545f4914f6cdd1d;
    let mut next = move || {
        seed ^= seed << 13;
        seed ^= seed >> 7;
        seed ^= seed << 17;
        (seed % 201) as i64 - 100
    };
    (0..count).map(|_| vec![next() as i8, next() as i8, next() as i8, next() as i8]).collect()
}

fn brute_force(scorer: &FilteredScorer, top: usize) -> Vec<ScoredPointOffset> {
    let mut all: Vec<ScoredPointOffset> = (0..scorer.points_count() as u32)
        .filter(|point| scorer.check_point(*point))
        .map(|point| ScoredPointOffset { idx: point, score: scorer.score_point(point) })
        .collect();
    all.sort_by(|a, b| b.score.cmp(&a.score).then(a.idx.cmp(&b.idx)));
    all.truncate(top);
    all
}

fn small_config(m: usize) -> HnswConfig {
    HnswConfig {
        m,
        ef_construct: 32,
        full_scan_threshold: 1,
        max_indexing_threads: 0,
        payload_m: None,
    }
}

fn never() -> bool {
    false
}

fn quantization(rescore: bool, oversampling: u32) -> SearchParams {
    SearchParams {
        hnsw_ef: None,
        exact: false,
        quantization: Some(QuantizationSearchParams {
            ignore: false,
            rescore: Some(rescore),
            oversampling: Some(oversampling),
        }),
        indexed_only: false,
    }
}

#[test]
fn score_all_leaves_out_what_may_not_come_out() {
    let vectors = vec![vec![1], vec![2], vec![3]];
    let excluded = vec![false, true, false];
    let scorer = scorer_of(&vectors, vec![2], &excluded);
    assert_eq!(
        score_all(&scorer),
        vec![ScoredPointOffset { idx: 0, score: 2 }, ScoredPointOffset { idx: 2, score: 6 }]
    );
}

#[test]
fn found_points_are_scored_again_whether_or_not_they_may_come_out() {
    let vectors = vec![vec![1], vec![2], vec![3]];
    let excluded = vec![true, true, true];
    let scorer = scorer_of(&vectors, vec![5], &excluded);
    let found = vec![ScoredPointOffset { idx: 2, score: 0 }, ScoredPointOffset { idx: 0, score: 9 }];
    assert_eq!(
        score_points_unfiltered(&scorer, &found),
        vec![ScoredPointOffset { idx: 2, score: 15 }, ScoredPointOffset { idx: 0, score: 5 }]
    );
}

#[test]
fn build_covers_the_live_points_and_leaves_the_deleted_apart() {
    let vectors = scattered(300);
    let none = vec![];
    let scorer = scorer_of(&vectors, vec![], &none);
    let deleted: Vec<bool> = (0..300).map(|i| i % 7 == 3).collect();
    let live = deleted.iter().filter(|d| !**d).count();
    let blocks = vec![
        PayloadBlock { cardinality: 30, points: (0..300).filter(|i| i % 10 == 0).collect() },
        PayloadBlock { cardinality: 100_000, points: (0..300).collect() },
    ];
    let (config, graph) =
        build_index(small_config(4), 300, 1200, &deleted, &blocks, &scorer, &never).unwrap();
    assert_eq!(config.m, 4);
    assert_eq!(config.m0, 8);
    assert_eq!(config.ef_construct, 32);
    assert_eq!(config.indexed_vector_count, Some(live));
    assert_eq!(graph.num_points(), 300);
    for point in 0..300u32 {
        if deleted[point as usize] {
            assert_eq!(graph.point_level(point), 0);
            assert!(graph.links(point, 0).is_empty());
        } else {
            assert!(graph.point_level(point) <= MAX_GRAPH_LEVEL);
            assert!(!graph.links(point, 0).is_empty());
        }
        for level in 0..=graph.point_level(point) {
            for &other in graph.links(point, level).iter() {
                assert!(!deleted[other as usize]);
                assert!(graph.point_level(other) >= level);
            }
        }
    }
    assert!(!deleted[graph.entry_point().unwrap() as usize]);
}

#[test]
fn build_without_a_main_graph_counts_the_points_of_the_blocks() {
    let vectors = scattered(60);
    let none = vec![];
    let scorer = scorer_of(&vectors, vec![], &none);
    let deleted = vec![false, true];
    let blocks = vec![
        PayloadBlock { cardinality: 4, points: vec![0, 1, 2, 3] },
        PayloadBlock { cardinality: 3, points: vec![3, 4, 5] },
    ];
    let hnsw_config = HnswConfig { payload_m: Some(4), ..small_config(0) };
    let (config, graph) =
        build_index(hnsw_config, 60, 240, &deleted, &blocks, &scorer, &never).unwrap();
    assert_eq!(config.m, 0);
    assert_eq!(config.payload_m, Some(4));
    assert_eq!(config.payload_m0, Some(8));
    assert_eq!(config.indexed_vector_count, Some(5));
    assert!(graph.links(1, 0).is_empty());
    assert!(graph.links(6, 0).is_empty());
    assert!(!graph.links(0, 0).is_empty());
    assert!(!graph.links(5, 0).is_empty());
    for &other in graph.links(4, 0).iter() {
        assert!(other == 3 || other == 5);
    }
}

#[test]
fn build_is_given_up_when_the_stop_flag_is_raised() {
    let vectors = scattered(50);
    let none = vec![];
    let scorer = scorer_of(&vectors, vec![], &none);
    let cancelled =
        OperationError::Cancelled { description: "process cancelled by service".to_string() };
    let at_once = build_index(small_config(4), 50, 200, &vec![], &vec![], &scorer, &|| true);
    assert_eq!(at_once.err(), Some(cancelled));
    let polls = Cell::new(0usize);
    let later = || {
        polls.set(polls.get() + 1);
        polls.get() > 70
    };
    let cancelled =
        OperationError::Cancelled { description: "process cancelled by service".to_string() };
    let halfway = build_index(small_config(4), 50, 200, &vec![], &vec![], &scorer, &later);
    assert_eq!(halfway.err(), Some(cancelled));
    assert_eq!(polls.get(), 71);
}

#[test]
fn points_are_linked_until_the_stop_flag_is_raised() {
    let vectors = scattered(10);
    let none = vec![];
    let scorer = scorer_of(&vectors, vec![], &none);
    let mut graph = GraphLayers::new(10, 2, 4, 8);
    let polls = Cell::new(0usize);
    let stop = || {
        polls.set(polls.get() + 1);
        polls.get() > 3
    };
    let linked = link_points(&mut graph, &vec![4, 5, 6, 7, 8], &scorer, &stop);
    assert!(linked.is_err());
    assert!(!graph.links(5, 0).is_empty());
    assert!(!graph.links(6, 0).is_empty());
    assert!(graph.links(7, 0).is_empty());
    assert_eq!(graph.entry_point(), Some(4));
}

#[test]
fn filter_that_matches_few_points_is_answered_by_a_scan() {
    // 10k points, 50 of them carry the tag; the threshold is 1000 points
    let vectors = scattered(10_000);
    let none = vec![];
    let builder = scorer_of(&vectors, vec![], &none);
    let (_, graph) =
        build_index(small_config(8), 10_000, 40_000, &vec![], &vec![], &builder, &never).unwrap();
    let config = HnswGraphConfig::new(8, 32, 1000, 0, None, 10_000);
    let mut index = HNSWIndex::new(config, graph);
    let untagged: Vec<bool> = (0..10_000).map(|i| i % 200 != 7).collect();
    let scorer = scorer_of(&vectors, vec![90, -30, 10, 5], &untagged);
    let estimate = Some(CardinalityEstimation { min: 50, exp: 50, max: 50 });
    let found = index.search(
        None::<&FilteredScorer>,
        &scorer,
        false,
        estimate,
        &vec![],
        10,
        None,
        10_000,
        10_000,
    );
    assert_eq!(found, brute_force(&scorer, 10));
    assert_eq!(found.len(), 10);
    assert!(found.iter().all(|p| p.idx % 200 == 7));
    assert_eq!(
        index.get_telemetry_data(),
        HNSWSearchesTelemetry {
            unfiltered_plain: 0,
            unfiltered_hnsw: 0,
            small_cardinality: 1,
            large_cardinality: 0,
            exact_filtered: 0,
            exact_unfiltered: 0,
        }
    );
}

#[test]
fn search_walks_the_graph_over_many_points() {
    let vectors = scattered(2000);
    let none = vec![];
    let builder = scorer_of(&vectors, vec![], &none);
    let (_, graph) =
        build_index(small_config(8), 2000, 8000, &vec![], &vec![], &builder, &never).unwrap();
    let config = HnswGraphConfig::new(8, 32, 100, 0, None, 2000);
    let mut index = HNSWIndex::new(config, graph);
    let scorer = scorer_of(&vectors, vec![70, 70, -20, 0], &none);
    let found =
        index.search(None::<&FilteredScorer>, &scorer, false, None, &vec![], 10, None, 2000, 2000);
    assert_eq!(index.get_telemetry_data().unfiltered_hnsw, 1);
    assert_eq!(found.len(), 10);
    for pair in found.windows(2) {
        assert!(pair[0].score >= pair[1].score);
        assert_ne!(pair[0].idx, pair[1].idx);
    }
    for point in found.iter() {
        assert_eq!(point.score, scorer.score_point(point.idx));
    }
    // the walk finds most of the nearest points
    let exact = brute_force(&scorer, 10);
    let hits = found.iter().filter(|p| exact.iter().any(|e| e.idx == p.idx)).count();
    assert!(hits >= 5, "only {hits} of the ten nearest points were found");
    // an exact search scans
    let exact_params = SearchParams { exact: true, ..quantization(false, 1000) };
    let scanned = index.search(
        None::<&FilteredScorer>,
        &scorer,
        false,
        None,
        &vec![],
        10,
        Some(&exact_params),
        2000,
        2000,
    );
    assert_eq!(scanned, exact);
    assert_eq!(index.get_telemetry_data().exact_unfiltered, 1);
}

#[test]
fn sample_settles_what_the_estimates_leave_open() {
    let vectors = scattered(400);
    let none = vec![];
    let builder = scorer_of(&vectors, vec![], &none);
    let (_, graph) =
        build_index(small_config(4), 400, 1600, &vec![], &vec![], &builder, &never).unwrap();
    let config = HnswGraphConfig::new(4, 32, 100, 0, None, 400);
    let mut index = HNSWIndex::new(config, graph);
    // every fourth point passes the filter
    let excluded: Vec<bool> = (0..400).map(|i| i % 4 != 0).collect();
    let scorer = scorer_of(&vectors, vec![1, 2, 3, 4], &excluded);
    let open = Some(CardinalityEstimation { min: 0, exp: 100, max: 400 });
    // of the sample one point in four matches: 100 of 400, not above the threshold
    let sample: Vec<u32> = (0..40).collect();
    let found =
        index.search(None::<&FilteredScorer>, &scorer, false, open, &sample, 5, None, 400, 400);
    assert_eq!(found, brute_force(&scorer, 5));
    assert_eq!(index.get_telemetry_data().small_cardinality, 1);
    // a sample of matching points only: 400 of 400, above the threshold
    let sample: Vec<u32> = (0..40).map(|i| i * 4).collect();
    let found =
        index.search(None::<&FilteredScorer>, &scorer, false, open, &sample, 5, None, 400, 400);
    assert_eq!(index.get_telemetry_data().large_cardinality, 1);
    assert!(found.iter().all(|p| p.idx % 4 == 0));
}

#[test]
fn quantized_search_fetches_more_and_scores_again() {
    let raw_vectors: Vec<Vec<i8>> = vec![vec![10], vec![20], vec![30], vec![40], vec![50], vec![60]];
    let coarse_vectors: Vec<Vec<i8>> = vec![vec![1], vec![1], vec![3], vec![3], vec![5], vec![5]];
    let none = vec![];
    let raw = scorer_of(&raw_vectors, vec![1], &none);
    let coarse = scorer_of(&coarse_vectors, vec![1], &none);
    let config = HnswGraphConfig::new(2, 8, 100, 0, None, 6);
    let index = HNSWIndex::new(config, GraphLayers::new(6, 2, 4, 8));
    let scored = |idx: u32, score: i64| ScoredPointOffset { idx, score };
    // twice as many candidates by the coarse scores, scored again
    let params = quantization(true, 2000);
    assert_eq!(
        index.search_plain(Some(&coarse), &raw, false, 2, Some(&params)),
        vec![scored(5, 60), scored(4, 50)]
    );
    // the coarse scores stand
    let params = quantization(false, 2000);
    assert_eq!(
        index.search_plain(Some(&coarse), &raw, true, 2, Some(&params)),
        vec![scored(4, 5), scored(5, 5)]
    );
    // no oversampling: the best two by the coarse scores, scored again
    let params = quantization(true, 1000);
    assert_eq!(
        index.search_plain(Some(&coarse), &raw, false, 2, Some(&params)),
        vec![scored(5, 60), scored(4, 50)]
    );
    // the request says nothing: the quantization decides whether to score again
    assert_eq!(
        index.search_plain(Some(&coarse), &raw, true, 3, None),
        vec![scored(5, 60), scored(4, 50), scored(2, 30)]
    );
    assert_eq!(
        index.search_plain(Some(&coarse), &raw, false, 3, None),
        vec![scored(4, 5), scored(5, 5), scored(2, 3)]
    );
    // quantized vectors set aside
    let ignore = SearchParams {
        quantization: Some(QuantizationSearchParams {
            ignore: true,
            rescore: None,
            oversampling: None,
        }),
        ..quantization(false, 1000)
    };
    assert_eq!(
        index.search_plain(Some(&coarse), &raw, true, 2, Some(&ignore)),
        vec![scored(5, 60), scored(4, 50)]
    );
}

#[test]
fn discovery_search_sets_out_from_what_the_context_search_found() {
    let vectors = scattered(500);
    let none = vec![];
    let builder = scorer_of(&vectors, vec![], &none);
    let (_, graph) =
        build_index(small_config(6), 500, 2000, &vec![], &vec![], &builder, &never).unwrap();
    let index = HNSWIndex::new(HnswGraphConfig::new(6, 32, 10, 0, None, 500), graph);
    let context = scorer_of(&vectors, vec![50, 50, 50, 50], &none);
    let discovery = scorer_of(&vectors, vec![60, 40, 50, 45], &none);
    let found = index.discovery_search_with_graph(
        None::<&FilteredScorer>,
        &context,
        None::<&FilteredScorer>,
        &discovery,
        false,
        5,
        None,
    );
    assert_eq!(found.len(), 5);
    for pair in found.windows(2) {
        assert!(pair[0].score >= pair[1].score);
    }
    for point in found.iter() {
        assert_eq!(point.score, discovery.score_point(point.idx));
    }
}

fn stored(links: Vec<Vec<Vec<u32>>>, entry_point: Option<u32>) -> StoredGraph {
    StoredGraph { m: 1, m0: 2, ef_construct: 8, links, entry_point }
}

#[test]
fn stored_graph_is_taken_only_when_sound() {
    let sound = || vec![vec![vec![1, 2], vec![2]], vec![vec![0]], vec![vec![0, 1], vec![0]]];
    let graph = GraphLayers::from_parts(stored(sound(), Some(2))).unwrap();
    assert_eq!(graph.num_points(), 3);
    assert_eq!(graph.entry_point(), Some(2));
    assert_eq!(graph.point_level(0), 1);
    assert_eq!(graph.links(2, 0), &vec![0, 1]);
    assert_eq!(graph.into_parts(), stored(sound(), Some(2)));
    assert!(GraphLayers::from_parts(stored(vec![], None)).is_some());
    // an entry point that is no point
    assert!(GraphLayers::from_parts(stored(sound(), Some(3))).is_none());
    assert!(GraphLayers::from_parts(stored(vec![], Some(0))).is_none());
    // a point without its ground layer
    assert!(GraphLayers::from_parts(stored(vec![vec![vec![]], vec![]], None)).is_none());
    // a neighbour that is no point
    assert!(GraphLayers::from_parts(stored(vec![vec![vec![1]]], None)).is_none());
    // a neighbour that does not reach the layer
    let low = vec![vec![vec![1], vec![1]], vec![vec![0]]];
    assert!(GraphLayers::from_parts(stored(low, None)).is_none());
    // more neighbours than the layer allows
    let wide = vec![vec![vec![1, 1, 1]], vec![vec![]]];
    assert!(GraphLayers::from_parts(stored(wide, None)).is_none());
    let wide_above = vec![vec![vec![], vec![1, 1]], vec![vec![], vec![]]];
    assert!(GraphLayers::from_parts(stored(wide_above, None)).is_none());
}

#[test]
fn built_graph_is_stored_and_taken_back() {
    let vectors = scattered(120);
    let none = vec![];
    let scorer = scorer_of(&vectors, vec![3, 1, 4, 1], &none);
    let (_, graph) =
        build_index(small_config(4), 120, 480, &vec![], &vec![], &scorer, &never).unwrap();
    let before = graph.search(5, 32, &scorer, None);
    let parts = graph.into_parts();
    assert_eq!((parts.m, parts.m0, parts.ef_construct), (4, 8, 32));
    assert_eq!(parts.links.len(), 120);
    let graph = GraphLayers::from_parts(parts).unwrap();
    assert_eq!(graph.search(5, 32, &scorer, None), before);
}

fn open_args(graph_exists: bool) -> HnswIndexOpenArgs {
    HnswIndexOpenArgs {
        hnsw_config: small_config(4),
        graph_exists,
        stored_config: None,
        available_vector_count: 30,
        available_size_in_bytes: 120,
        permit_cpus: None,
        machine_cpus: 2,
    }
}

#[test]
fn index_opens_with_the_stored_graph() {
    let vectors = scattered(30);
    let none = vec![];
    let scorer = scorer_of(&vectors, vec![], &none);
    let sound = stored(vec![vec![vec![1]], vec![vec![0]]], Some(0));
    let index =
        HNSWIndex::open(open_args(true), Some(sound), 30, &vec![], &vec![], &scorer, &never)
            .unwrap();
    assert_eq!(index.graph.num_points(), 2);
    assert_eq!(index.graph.links(1, 0), &vec![0]);
    assert_eq!(index.config, HnswGraphConfig::new(4, 32, 256, 0, None, 30));
    let broken = OperationError::ServiceError {
        description: "stored graph is missing or broken".to_string(),
    };
    let unsound = stored(vec![vec![vec![1]]], None);
    let failed =
        HNSWIndex::open(open_args(true), Some(unsound), 30, &vec![], &vec![], &scorer, &never);
    assert_eq!(failed.err(), Some(broken));
    let missing = HNSWIndex::open(open_args(true), None, 30, &vec![], &vec![], &scorer, &never);
    assert!(missing.is_err());
}

#[test]
fn index_opens_with_a_graph_that_it_builds() {
    let vectors = scattered(30);
    let none = vec![];
    let scorer = scorer_of(&vectors, vec![], &none);
    let deleted = vec![true];
    let index =
        HNSWIndex::open(open_args(false), None, 30, &deleted, &vec![], &scorer, &never)
            .unwrap();
    assert_eq!(index.graph.num_points(), 30);
    assert_eq!(index.config.indexed_vector_count, Some(29));
    assert!(index.graph.links(0, 0).is_empty());
    assert!(!index.graph.links(1, 0).is_empty());
    assert_eq!(index.indexed_vector_count(), 29);
    let stopped =
        HNSWIndex::open(open_args(false), None, 30, &deleted, &vec![], &scorer, &|| true);
    assert_eq!(
        stopped.err(),
        Some(OperationError::Cancelled { description: "process cancelled by service".to_string() })
    );
}

use vector_engine::distance::{filter_by_threshold, Distance};
use vector_engine::hnsw::{
    adjust_to_available_vectors, exact_search_params, full_scan_threshold_in_points,
    get_oversampled_top, is_quantized_search, needs_rescore, postprocess_search_result,
    sample_check_cardinality, HNSWSearchesTelemetry, HnswConfig, HnswGraphConfig,
    QuantizationSearchParams, SearchBranch, SearchDecision, SearchParams,
};
use vector_engine::graph_layers::GraphLayers;
use vector_engine::hnsw_build::{
    block_is_indexed, build_filtered_graph, build_plan, check_process_stopped, finish_build,
    main_graph_schedule, max_block_size, split_warmup, VisitedList,
};
use vector_engine::hnsw_index::{HNSWIndex, HnswIndexOpenArgs, OpenDecision};
use vector_engine::point_scorer::{FilteredScorer, MetricQueryScorer};
use vector_engine::types::{
    CardinalityEstimation, OperationError, PointIdType, ScoredPoint, ScoredPointOffset,
};

fn config() -> HnswConfig {
    HnswConfig {
        m: 16,
        ef_construct: 100,
        full_scan_threshold: 10,
        max_indexing_threads: 0,
        payload_m: None,
    }
}

fn params(quantization: Option<QuantizationSearchParams>) -> SearchParams {
    SearchParams { hnsw_ef: None, exact: false, quantization, indexed_only: false }
}

fn scored(idx: u32, score: i64) -> ScoredPointOffset {
    ScoredPointOffset { idx, score }
}

#[test]
fn graph_config_doubles_the_ground_layer() {
    let graph = HnswGraphConfig::new(16, 100, 2500, 4, Some(8), 777);
    assert_eq!((graph.m, graph.m0, graph.ef, graph.ef_construct), (16, 32, 100, 100));
    assert_eq!((graph.payload_m, graph.payload_m0), (Some(8), Some(16)));
    assert_eq!(graph.full_scan_threshold, 2500);
    assert_eq!(graph.indexed_vector_count, Some(777));
    assert_eq!(HnswGraphConfig::new(0, 1, 1, 1, None, 0).payload_m0, None);
}

#[test]
fn threshold_is_turned_from_kilobytes_into_points() {
    // 1000 vectors of 400 bytes: 10 KB hold 25 of them
    assert_eq!(full_scan_threshold_in_points(400_000, 1000, 10), 25);
    assert_eq!(full_scan_threshold_in_points(0, 1000, 10), 1);
    assert_eq!(full_scan_threshold_in_points(400_000, 0, 10), 1);
    assert_eq!(full_scan_threshold_in_points(4, 1, usize::MAX), usize::MAX / 4);
}

#[test]
fn build_plan_follows_the_config() {
    let plan = build_plan(config(), 100_000, 40_000_000);
    assert_eq!(plan.config.full_scan_threshold, 25);
    assert_eq!(plan.config.m0, 32);
    assert_eq!(plan.entry_points_num, 40_000);
    assert!(plan.main_graph && plan.payload_graphs);
    assert_eq!((plan.payload_m, plan.payload_m0), (16, 32));
    let plan = build_plan(HnswConfig { m: 0, payload_m: Some(4), ..config() }, 10, 4000);
    assert_eq!(plan.entry_points_num, 1);
    assert!(!plan.main_graph && plan.payload_graphs);
    assert_eq!((plan.payload_m, plan.payload_m0), (4, 8));
    let plan = build_plan(HnswConfig { m: 0, ..config() }, 10, 4000);
    assert!(!plan.main_graph && !plan.payload_graphs);
    assert!(main_graph_schedule(&plan, vec![1, 2, 3]).warmup.is_empty());
    let done = finish_build(plan.config, 40, 55);
    assert_eq!(done.indexed_vector_count, Some(55));
    assert_eq!(finish_build(plan.config, 60, 55).indexed_vector_count, Some(60));
}

#[test]
fn warmup_takes_the_first_points() {
    let schedule = split_warmup((0..1000).collect());
    assert_eq!(schedule.warmup, (0..256).collect::<Vec<u32>>());
    assert_eq!(schedule.parallel, (256..1000).collect::<Vec<u32>>());
    let schedule = split_warmup(vec![7, 8]);
    assert_eq!((schedule.warmup, schedule.parallel), (vec![7, 8], vec![]));
    let plan = build_plan(config(), 3, 3000);
    let schedule = main_graph_schedule(&plan, vec![2, 0, 1]);
    assert_eq!((schedule.warmup, schedule.parallel), (vec![2, 0, 1], vec![]));
}

#[test]
fn blocks_beyond_the_percolation_limit_get_no_graph() {
    assert_eq!(max_block_size(16, 10_000, 20), 2000);
    assert_eq!(max_block_size(16, 10_000, 0), 40_000);
    assert_eq!(max_block_size(0, 10_000, 20), usize::MAX);
    assert_eq!(max_block_size(1, usize::MAX, 1), usize::MAX);
    assert!(block_is_indexed(2000, 2000));
    assert!(!block_is_indexed(2001, 2000));
}

#[test]
fn filtered_graph_links_live_points_and_marks_them() {
    let vectors: Vec<Vec<i8>> = (0..10).map(|i| vec![i, 10 - i]).collect();
    let none = vec![];
    let scorer = FilteredScorer {
        raw_scorer: MetricQueryScorer::new(vec![], &vectors, Distance::Dot),
        excluded: &none,
    };
    let mut graph = GraphLayers::new(10, 2, 4, 8);
    let mut visited = VisitedList::new(10);
    let deleted = vec![false, true, false, false, true];
    let never = || false;
    let built =
        build_filtered_graph(&mut graph, &vec![4, 3, 1, 0, 9], &deleted, &mut visited, &scorer, &never);
    assert_eq!(built, Ok(()));
    assert_eq!(visited.count_visits(), 3);
    assert_eq!(graph.entry_point(), Some(3));
    for point in [3u32, 0, 9] {
        assert!(!graph.links(point, 0).is_empty());
        assert!(graph.links(point, 0).iter().all(|other| [3, 0, 9].contains(other)));
    }
    for point in [1u32, 2, 4, 5, 6, 7, 8] {
        assert!(graph.links(point, 0).is_empty());
    }
    let mut second = GraphLayers::new(10, 2, 4, 8);
    let built = build_filtered_graph(&mut second, &vec![0, 2], &deleted, &mut visited, &scorer, &never);
    assert_eq!(built, Ok(()));
    assert_eq!(second.links(0, 0), &vec![2]);
    assert_eq!(second.links(2, 0), &vec![0]);
    assert_eq!(visited.count_visits(), 4);
    assert!(visited.check_and_update_visited(2));
    assert!(!visited.check_and_update_visited(5));
    assert_eq!(visited.count_visits(), 5);
}

#[test]
fn filtered_graph_is_given_up_when_the_stop_flag_is_raised() {
    let vectors: Vec<Vec<i8>> = (0..6).map(|i| vec![i, 1]).collect();
    let none = vec![];
    let scorer = FilteredScorer {
        raw_scorer: MetricQueryScorer::new(vec![], &vectors, Distance::Dot),
        excluded: &none,
    };
    let mut graph = GraphLayers::new(6, 2, 4, 8);
    let mut visited = VisitedList::new(6);
    let stop = || true;
    let built = build_filtered_graph(&mut graph, &vec![1, 2], &vec![], &mut visited, &scorer, &stop);
    assert_eq!(
        built,
        Err(OperationError::Cancelled { description: "process cancelled by service".to_string() })
    );
    assert_eq!(graph.entry_point(), None);
    // a block without live points has nothing to ask the flag for
    let built = build_filtered_graph(&mut graph, &vec![0], &vec![true], &mut visited, &scorer, &stop);
    assert_eq!(built, Ok(()));
}

#[test]
fn build_stops_when_asked() {
    assert_eq!(check_process_stopped(false), Ok(()));
    assert_eq!(
        check_process_stopped(true),
        Err(OperationError::Cancelled { description: "process cancelled by service".to_string() })
    );
}

#[test]
fn open_loads_a_stored_graph_or_builds_one() {
    let stored = HnswGraphConfig::new(8, 50, 123, 2, None, 9);
    let args = HnswIndexOpenArgs {
        hnsw_config: config(),
        graph_exists: true,
        stored_config: Some(stored),
        available_vector_count: 1000,
        available_size_in_bytes: 400_000,
        permit_cpus: Some(3),
        machine_cpus: 8,
    };
    assert_eq!(HNSWIndex::open_decision(args), OpenDecision::Load(stored));
    let reckoned = HNSWIndex::open_decision(HnswIndexOpenArgs { stored_config: None, ..args });
    assert_eq!(reckoned, OpenDecision::Load(HnswGraphConfig::new(16, 100, 25, 0, None, 1000)));
    let build = HNSWIndex::open_decision(HnswIndexOpenArgs { graph_exists: false, ..args });
    assert_eq!(build, OpenDecision::Build { num_cpus: 3 });
    let build = HNSWIndex::open_decision(HnswIndexOpenArgs { graph_exists: false, permit_cpus: None, ..args });
    assert_eq!(build, OpenDecision::Build { num_cpus: 8 });
}

#[test]
fn search_picks_its_way_by_the_estimates() {
    let graph = HnswGraphConfig::new(16, 100, 1000, 0, None, 10_000);
    let mut index = HNSWIndex::new(graph, GraphLayers::new(10_000, 16, 32, 100));
    let card = |min, exp, max| Some(CardinalityEstimation { min, exp, max });
    let run = SearchDecision::Run;
    assert_eq!(index.search_decision(true, None, 10_000, 10_000), run(SearchBranch::ExactUnfiltered));
    assert_eq!(index.search_decision(false, None, 999, 10_000), run(SearchBranch::UnfilteredPlain));
    assert_eq!(index.search_decision(false, None, 1000, 10_000), run(SearchBranch::UnfilteredHnsw));
    assert_eq!(index.search_decision(true, card(0, 5, 9), 10_000, 10_000), run(SearchBranch::ExactFiltered));
    // 50 points of 10k match: a scan of the matching points
    assert_eq!(
        index.search_decision(false, card(50, 50, 50), 10_000, 10_000),
        run(SearchBranch::SmallCardinality)
    );
    assert_eq!(
        index.search_decision(false, card(1001, 5000, 9000), 10_000, 10_000),
        run(SearchBranch::LargeCardinality)
    );
    assert_eq!(index.search_decision(false, card(0, 5000, 9000), 10_000, 10_000), SearchDecision::SampleCheck);
    assert_eq!(index.search_decision(false, card(1000, 1000, 1000), 10_000, 10_000), SearchDecision::SampleCheck);
    // few points have a vector: the estimate shrinks with them
    assert_eq!(
        index.search_decision(false, card(1500, 1800, 1900), 900, 10_000),
        run(SearchBranch::SmallCardinality)
    );
    let mut sample = vec![false; 900];
    sample.extend(vec![true; 100]);
    assert_eq!(index.search_after_sample(&sample, 10_000), SearchBranch::SmallCardinality);
    sample.truncate(899);
    sample.extend(vec![true; 101]);
    assert_eq!(index.search_after_sample(&sample, 10_000), SearchBranch::LargeCardinality);
    let telemetry = index.get_telemetry_data();
    assert_eq!(
        telemetry,
        HNSWSearchesTelemetry {
            unfiltered_plain: 1,
            unfiltered_hnsw: 1,
            small_cardinality: 3,
            large_cardinality: 2,
            exact_filtered: 1,
            exact_unfiltered: 1,
        }
    );
    assert!(SearchBranch::LargeCardinality.uses_graph());
    assert!(SearchBranch::UnfilteredHnsw.uses_graph());
    assert!(!SearchBranch::SmallCardinality.uses_graph());
    assert_eq!(index.indexed_vector_count(), 10_000);
    assert_eq!(index.search_ef(None), 100);
    let wide = SearchParams { hnsw_ef: Some(512), ..params(None) };
    assert_eq!(index.search_ef(Some(&wide)), 512);
}

#[test]
fn sample_decides_by_the_share_that_matches() {
    // 3 of 4 match: 75 of 100 points, which is above 74 and not above 75
    let sample = vec![true, false, true, true];
    assert!(sample_check_cardinality(&sample, 74, 100));
    assert!(!sample_check_cardinality(&sample, 75, 100));
    assert!(!sample_check_cardinality(&vec![], 0, 100));
    // only the first thousand are looked at
    let mut long = vec![false; 1000];
    long.extend(vec![true; 5000]);
    assert!(!sample_check_cardinality(&long, 0, 100));
}

#[test]
fn estimate_is_brought_down_to_the_points_with_vectors() {
    let estimate = CardinalityEstimation { min: 40, exp: 50, max: 60 };
    assert_eq!(adjust_to_available_vectors(estimate, 100, 100), estimate);
    assert_eq!(
        adjust_to_available_vectors(estimate, 70, 100),
        CardinalityEstimation { min: 10, exp: 35, max: 60 }
    );
    assert_eq!(
        adjust_to_available_vectors(estimate, 25, 100),
        CardinalityEstimation { min: 0, exp: 13, max: 25 }
    );
    assert_eq!(
        adjust_to_available_vectors(estimate, 0, 100),
        CardinalityEstimation { min: 0, exp: 0, max: 0 }
    );
    assert_eq!(
        adjust_to_available_vectors(estimate, 10, 0),
        CardinalityEstimation { min: 0, exp: 0, max: 0 }
    );
}

#[test]
fn oversampling_applies_to_quantized_search_only() {
    let plain = params(None);
    let twice = params(Some(QuantizationSearchParams {
        ignore: false,
        rescore: None,
        oversampling: Some(2500),
    }));
    let ignored = params(Some(QuantizationSearchParams {
        ignore: true,
        rescore: Some(true),
        oversampling: Some(2500),
    }));
    let below_one = params(Some(QuantizationSearchParams {
        ignore: false,
        rescore: Some(false),
        oversampling: Some(500),
    }));
    assert!(is_quantized_search(true, None));
    assert!(is_quantized_search(true, Some(&plain)));
    assert!(!is_quantized_search(false, Some(&twice)));
    assert!(!is_quantized_search(true, Some(&ignored)));
    assert_eq!(get_oversampled_top(true, Some(&twice), 10), 25);
    assert_eq!(get_oversampled_top(true, Some(&twice), 3), 7);
    assert_eq!(get_oversampled_top(false, Some(&twice), 10), 10);
    assert_eq!(get_oversampled_top(true, Some(&ignored), 10), 10);
    assert_eq!(get_oversampled_top(true, Some(&below_one), 10), 10);
    assert_eq!(get_oversampled_top(true, None, 10), 10);
    assert_eq!(get_oversampled_top(true, Some(&twice), usize::MAX), usize::MAX);
    assert!(needs_rescore(true, true, None));
    assert!(!needs_rescore(true, false, None));
    assert!(needs_rescore(true, true, Some(&twice)));
    assert!(!needs_rescore(true, true, Some(&below_one)));
    assert!(!needs_rescore(true, true, Some(&ignored)));
    assert!(!needs_rescore(false, true, Some(&twice)));
    let exact = exact_search_params(Some(&twice)).unwrap();
    assert_eq!(
        exact.quantization,
        Some(QuantizationSearchParams { ignore: true, rescore: Some(false), oversampling: None })
    );
    assert_eq!(exact_search_params(None), None);
}

#[test]
fn search_result_is_cut_to_top() {
    let found = vec![scored(1, 30), scored(2, 20), scored(3, 10)];
    assert_eq!(postprocess_search_result(found.clone(), None, 2), vec![scored(1, 30), scored(2, 20)]);
    // limit = 1 gives exactly one point
    assert_eq!(postprocess_search_result(found.clone(), None, 1), vec![scored(1, 30)]);
    assert_eq!(postprocess_search_result(found.clone(), None, 5), found);
    let rescored = vec![scored(1, 5), scored(2, 50), scored(3, 5), scored(4, 7)];
    assert_eq!(
        postprocess_search_result(found.clone(), Some(rescored), 3),
        vec![scored(2, 50), scored(4, 7), scored(1, 5)]
    );
    assert_eq!(postprocess_search_result(vec![], Some(vec![]), 3), vec![]);
}

#[test]
fn score_threshold_keeps_scores_on_the_threshold() {
    let points: Vec<ScoredPoint> = [30i64, 20, 10]
        .iter()
        .enumerate()
        .map(|(i, score)| ScoredPoint { id: PointIdType::NumId(i as u64), version: 0, score: *score })
        .collect();
    let ids = |kept: Vec<ScoredPoint>| kept.iter().map(|p| p.score).collect::<Vec<_>>();
    assert_eq!(ids(filter_by_threshold(points.clone(), Distance::Cosine, Some(20))), vec![30, 20]);
    assert_eq!(ids(filter_by_threshold(points.clone(), Distance::Dot, Some(21))), vec![30]);
    assert_eq!(ids(filter_by_threshold(points.clone(), Distance::Euclid, Some(20))), vec![20, 10]);
    assert_eq!(ids(filter_by_threshold(points.clone(), Distance::Manhattan, Some(9))), Vec::<i64>::new());
    assert_eq!(ids(filter_by_threshold(points.clone(), Distance::Euclid, None)), vec![30, 20, 10]);
    assert!(Distance::Cosine.check_threshold(5, 5));
    assert!(!Distance::Cosine.check_threshold(4, 5));
    assert!(Distance::Euclid.check_threshold(5, 5));
    assert!(!Distance::Euclid.check_threshold(6, 5));
}

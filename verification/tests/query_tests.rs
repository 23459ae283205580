use vector_engine::fusion::{rrf_scoring, RRF_K, SCORE_UNIT};
use vector_engine::hnsw::SearchParams;
use vector_engine::planned_query::{
    do_planned_query, fill_request, fill_with_payload_or_vectors, filter_with_sources_ids,
    plan_is_valid, recurse_prefetch, remaining_timeout, rescore, Answer, CoreSearchRequest,
    Direction, FetchedSource, Fusion, MergePlan, OrderBy, PlannedQuery, PrefetchResults,
    QueryProgress, QueryScrollRequestInternal, Request, RescoreParams, RescoreStep,
    ScoringQuery, Source, Walk, WalkError,
};
use vector_engine::sorting::{sort_ascending, sort_by_score_descending};
use vector_engine::types::{OperationError, PointIdType, ScoredPoint, ScoredPointOffset};

const A: u64 = 1;
const B: u64 = 2;
const C: u64 = 3;
const D: u64 = 4;
const E: u64 = 5;
const F: u64 = 6;
const G: u64 = 7;

fn id(n: u64) -> PointIdType {
    PointIdType::NumId(n)
}

fn source(ids: &[u64]) -> Vec<ScoredPoint> {
    ids.iter()
        .enumerate()
        .map(|(i, n)| ScoredPoint { id: id(*n), version: 10 + i as u64, score: 1000 - i as i64 })
        .collect()
}

fn ids(points: &[ScoredPoint]) -> Vec<u64> {
    points
        .iter()
        .map(|p| match p.id {
            PointIdType::NumId(n) => n,
            PointIdType::Uuid(_) => panic!("no uuid here"),
        })
        .collect()
}

fn at_rank(rank: i64) -> i64 {
    SCORE_UNIT / (RRF_K as i64 + rank)
}

fn fusion_params(score_threshold: Option<i64>, limit: usize) -> RescoreParams {
    RescoreParams {
        rescore: ScoringQuery::Fusion(Fusion::Rrf),
        score_threshold,
        limit,
        with_vector: false,
        with_payload: true,
    }
}

#[test]
fn rrf_fuses_two_sources() {
    let fused = rrf_scoring(vec![source(&[A, B, C, A, D]), source(&[E, A, F, C, G])]);
    assert_eq!(ids(&fused), vec![A, C, E, B, F, D, G]);
    // a point counts once for each source, at its first rank there
    assert_eq!(fused[0].score, at_rank(1) + at_rank(2));
    assert_eq!(fused[0].score, 4_294_967_296 / 61 + 4_294_967_296 / 62);
    assert_eq!(fused[1].score, at_rank(3) + at_rank(4));
    assert_eq!(fused[2].score, at_rank(1));
    assert_eq!(fused[5].score, at_rank(5));
    assert_eq!(fused[6].score, at_rank(5));
    // the point is the one that was listed first
    assert_eq!(fused[0].version, 10);
    assert_eq!(fused[1].version, 12);
}

#[test]
fn rrf_of_nothing_is_nothing() {
    assert!(rrf_scoring(vec![]).is_empty());
    assert!(rrf_scoring(vec![vec![], vec![]]).is_empty());
}

#[test]
fn rrf_of_one_source_keeps_its_order() {
    let fused = rrf_scoring(vec![source(&[G, B, E, A])]);
    assert_eq!(ids(&fused), vec![G, B, E, A]);
    let fused = rrf_scoring(vec![source(&[G, B, G, A, B])]);
    assert_eq!(ids(&fused), vec![G, B, A]);
    assert_eq!(fused[2].score, at_rank(4));
}

#[test]
fn sorting_is_stable() {
    let points: Vec<ScoredPointOffset> = [(1u32, 5i64), (2, 9), (3, 5), (4, 9), (5, 1)]
        .iter()
        .map(|(idx, score)| ScoredPointOffset { idx: *idx, score: *score })
        .collect();
    let sorted = sort_by_score_descending(points);
    assert_eq!(sorted.iter().map(|p| p.idx).collect::<Vec<_>>(), vec![2, 4, 1, 3, 5]);
    assert_eq!(sort_ascending(vec![3, 1, 2, 1]), vec![1, 1, 2, 3]);
}

#[test]
fn fused_points_are_cut_by_threshold_and_limit() {
    let sources = || vec![source(&[A, B, C, A, D]), source(&[E, A, F, C, G])];
    let all = match rescore(sources(), fusion_params(None, 100)) {
        RescoreStep::Fused { points, with_payload, with_vector } => {
            assert!(with_payload && !with_vector);
            points
        }
        _ => panic!("fusion is done on the spot"),
    };
    assert_eq!(ids(&all), vec![A, C, E, B, F, D, G]);
    let cut = |threshold, limit| match rescore(sources(), fusion_params(threshold, limit)) {
        RescoreStep::Fused { points, .. } => ids(&points),
        _ => panic!("fusion is done on the spot"),
    };
    assert_eq!(cut(None, 3), vec![A, C, E]);
    // limit = 1 gives exactly one point
    assert_eq!(cut(None, 1), vec![A]);
    assert_eq!(cut(None, 0), Vec::<u64>::new());
    // a score on the threshold passes
    assert_eq!(cut(Some(at_rank(1)), 100), vec![A, C, E]);
    assert_eq!(cut(Some(at_rank(1) + 1), 100), vec![A, C]);
    assert_eq!(cut(Some(at_rank(1)), 2), vec![A, C]);
    assert_eq!(cut(Some(i64::MAX), 100), Vec::<u64>::new());
}

#[test]
fn order_by_and_vector_rescoring_ask_for_one_request() {
    let sources = || vec![source(&[A, B, A]), source(&[C, B])];
    assert_eq!(filter_with_sources_ids(&sources()), vec![id(A), id(B), id(C)]);
    let order = RescoreParams {
        rescore: ScoringQuery::OrderBy(OrderBy { key: "price".to_string(), direction: Direction::Desc }),
        score_threshold: Some(5),
        limit: 7,
        with_vector: true,
        with_payload: false,
    };
    match rescore(sources(), order) {
        RescoreStep::Scroll(request) => {
            assert_eq!(request.limit, 7);
            assert_eq!(request.has_id, vec![id(A), id(B), id(C)]);
            assert!(request.with_vector && !request.with_payload);
            assert_eq!(
                request.order_by,
                Some(OrderBy { key: "price".to_string(), direction: Direction::Desc })
            );
        }
        _ => panic!("ordering takes a scroll"),
    }
    let vector = RescoreParams {
        rescore: ScoringQuery::Vector(4),
        score_threshold: Some(5),
        limit: 7,
        with_vector: true,
        with_payload: false,
    };
    match rescore(sources(), vector) {
        RescoreStep::Search(request) => {
            assert_eq!(request.query, 4);
            assert_eq!(request.has_id, vec![id(A), id(B), id(C)]);
            assert_eq!(request.params, None::<SearchParams>);
            assert_eq!((request.limit, request.offset), (7, 0));
            assert_eq!(request.with_payload, Some(false));
            assert_eq!(request.with_vector, Some(true));
            assert_eq!(request.score_threshold, Some(5));
        }
        _ => panic!("a vector takes a search"),
    }
}

fn holder() -> PrefetchResults {
    PrefetchResults::new(vec![source(&[A]), source(&[B, C])], vec![source(&[D])])
}

fn lists(walk: Walk) -> (Vec<Vec<u64>>, usize) {
    match walk {
        Walk::Done(found, used) => (found.iter().map(|list| ids(list)).collect(), used),
        other => panic!("the walk is not through: {other:?}"),
    }
}

#[test]
fn fetched_sources_are_read_by_their_place() {
    let holder = holder();
    assert_eq!(ids(holder.get(FetchedSource::Search(1)).unwrap()), vec![B, C]);
    assert_eq!(ids(holder.get(FetchedSource::Scroll(0)).unwrap()), vec![D]);
    let missing = OperationError::ServiceError {
        description: "Expected a prefetched source to exist".to_string(),
    };
    assert_eq!(holder.get(FetchedSource::Search(2)).unwrap_err(), missing);
    assert_eq!(holder.get(FetchedSource::Scroll(1)).unwrap_err(), missing);
    assert_eq!(WalkError::MissingSource.to_error(), missing);
}

#[test]
fn plan_without_scoring_hands_its_sources_on() {
    let plan = MergePlan {
        sources: vec![Source::ScrollsIdx(0), Source::SearchesIdx(1), Source::SearchesIdx(0)],
        rescore_params: None,
    };
    let walk = recurse_prefetch(&plan, &holder(), &vec![], 0);
    assert_eq!(lists(walk), (vec![vec![D], vec![B, C], vec![A]], 0));
    let broken = MergePlan { sources: vec![Source::SearchesIdx(0), Source::SearchesIdx(9)], rescore_params: None };
    match recurse_prefetch(&broken, &holder(), &vec![], 0) {
        Walk::Failed(e) => assert_eq!(e, WalkError::MissingSource.to_error()),
        other => panic!("a missing source fails the walk: {other:?}"),
    }
}

#[test]
fn nested_fusion_feeds_the_plan_above() {
    // searches 0 and 1 are fused below; the result is fused with scroll 0 above
    let inner = MergePlan {
        sources: vec![Source::SearchesIdx(1), Source::SearchesIdx(0)],
        rescore_params: Some(fusion_params(None, 2)),
    };
    let outer = MergePlan {
        sources: vec![Source::ScrollsIdx(0), Source::Prefetch(inner)],
        rescore_params: Some(RescoreParams { with_payload: false, ..fusion_params(None, 10) }),
    };
    // the fusion below is to be filled with payload: it asks which points are still there
    match recurse_prefetch(&outer, &holder(), &vec![], 0) {
        Walk::Pending(Request::Fill { ids, with_payload, with_vector }) => {
            assert_eq!(ids, vec![id(B), id(A)]);
            assert!(with_payload && !with_vector);
        }
        other => panic!("the fusion below asks for a fill: {other:?}"),
    }
    // point B was deleted in between
    let answers = vec![Answer::Retrieved(vec![id(A), id(C)])];
    let walk = recurse_prefetch(&outer, &holder(), &answers, 0);
    assert_eq!(lists(walk), (vec![vec![D, A]], 1));
    let wrong = vec![Answer::Batch(vec![])];
    match recurse_prefetch(&outer, &holder(), &wrong, 0) {
        Walk::Failed(e) => assert_eq!(e, WalkError::WrongAnswer.to_error()),
        other => panic!("a batch is no answer to a fill: {other:?}"),
    }
}

#[test]
fn ordering_and_searching_take_one_answer_each() {
    let order = RescoreParams {
        rescore: ScoringQuery::OrderBy(OrderBy { key: "price".to_string(), direction: Direction::Asc }),
        score_threshold: None,
        limit: 3,
        with_vector: false,
        with_payload: true,
    };
    let by_vector = RescoreParams {
        rescore: ScoringQuery::Vector(2),
        score_threshold: Some(9),
        limit: 5,
        with_vector: true,
        with_payload: false,
    };
    let inner = MergePlan {
        sources: vec![Source::SearchesIdx(1), Source::SearchesIdx(0), Source::SearchesIdx(1)],
        rescore_params: Some(order),
    };
    let outer = MergePlan {
        sources: vec![Source::Prefetch(inner), Source::ScrollsIdx(0)],
        rescore_params: Some(by_vector),
    };
    let mut answers = Vec::new();
    match recurse_prefetch(&outer, &holder(), &answers, 0) {
        Walk::Pending(Request::Scroll(QueryScrollRequestInternal { limit, has_id, with_payload, with_vector, order_by })) => {
            assert_eq!(limit, 3);
            assert_eq!(has_id, vec![id(B), id(C), id(A)]);
            assert!(with_payload && !with_vector);
            assert_eq!(order_by, Some(OrderBy { key: "price".to_string(), direction: Direction::Asc }));
        }
        other => panic!("ordering asks for a scroll: {other:?}"),
    }
    answers.push(Answer::Batch(vec![source(&[C, B])]));
    match recurse_prefetch(&outer, &holder(), &answers, 0) {
        Walk::Pending(Request::Search(CoreSearchRequest { query, has_id, limit, offset, with_payload, with_vector, score_threshold, params })) => {
            assert_eq!((query, limit, offset), (2, 5, 0));
            assert_eq!(has_id, vec![id(C), id(B), id(D)]);
            assert_eq!((with_payload, with_vector), (Some(false), Some(true)));
            assert_eq!(score_threshold, Some(9));
            assert_eq!(params, None::<SearchParams>);
        }
        other => panic!("a vector asks for a search: {other:?}"),
    }
    answers.push(Answer::Batch(vec![source(&[D, C])]));
    let walk = recurse_prefetch(&outer, &holder(), &answers, 0);
    assert_eq!(lists(walk), (vec![vec![D, C]], 2));
    let empty = vec![Answer::Batch(vec![])];
    match recurse_prefetch(&outer, &holder(), &empty, 0) {
        Walk::Failed(e) => assert_eq!(
            e,
            OperationError::ServiceError {
                description: "Rescoring with order-by query didn't return expected batch of results".to_string()
            }
        ),
        other => panic!("an empty batch fails the walk: {other:?}"),
    }
    let half = vec![Answer::Batch(vec![source(&[C])]), Answer::Batch(vec![])];
    match recurse_prefetch(&outer, &holder(), &half, 0) {
        Walk::Failed(e) => assert_eq!(
            e,
            OperationError::ServiceError {
                description: "Rescoring with vector(s) query didn't return expected batch of results".to_string()
            }
        ),
        other => panic!("an empty batch fails the walk: {other:?}"),
    }
}

#[test]
fn planned_query_answers_each_root_plan() {
    let fused = |limit| MergePlan {
        sources: vec![Source::SearchesIdx(1), Source::SearchesIdx(0)],
        rescore_params: Some(RescoreParams { with_payload: false, ..fusion_params(None, limit) }),
    };
    let request = PlannedQuery {
        searches: vec![],
        scrolls: vec![],
        root_plans: vec![
            fused(1),
            MergePlan { sources: vec![Source::ScrollsIdx(0)], rescore_params: None },
            MergePlan { sources: vec![Source::SearchesIdx(0)], rescore_params: Some(fusion_params(None, 5)) },
        ],
    };
    match do_planned_query(&request, &holder(), &vec![], 1000, 400) {
        QueryProgress::Pending { request: Request::Fill { ids, .. }, timeout_millis } => {
            assert_eq!(ids, vec![id(A)]);
            assert_eq!(timeout_millis, 600);
        }
        other => panic!("the last plan asks for a fill: {other:?}"),
    }
    match do_planned_query(&request, &holder(), &vec![Answer::Retrieved(vec![id(A)])], 1000, 999) {
        QueryProgress::Done(responses) => {
            let seen: Vec<Vec<Vec<u64>>> = responses
                .iter()
                .map(|response| response.iter().map(|list| ids(list)).collect())
                .collect();
            // limit = 1 gives exactly one point
            assert_eq!(seen, vec![vec![vec![B]], vec![vec![D]], vec![vec![A]]]);
        }
        other => panic!("the query is through: {other:?}"),
    }
    match do_planned_query(&request, &holder(), &vec![], 1000, 1000) {
        QueryProgress::Failed(e) => {
            assert_eq!(e, OperationError::Timeout { description: "Operation timed out".to_string() })
        }
        other => panic!("the time is spent: {other:?}"),
    }
}

#[test]
fn nested_plans_must_score_again() {
    let leaf = |rescore_params| MergePlan { sources: vec![Source::SearchesIdx(0)], rescore_params };
    let root = MergePlan {
        sources: vec![Source::Prefetch(leaf(Some(fusion_params(None, 1)))), Source::ScrollsIdx(0)],
        rescore_params: None,
    };
    assert!(plan_is_valid(&root, false));
    assert!(!plan_is_valid(&root, true));
    let bad = MergePlan {
        sources: vec![Source::Prefetch(MergePlan {
            sources: vec![Source::Prefetch(leaf(None))],
            rescore_params: Some(fusion_params(None, 1)),
        })],
        rescore_params: Some(fusion_params(None, 1)),
    };
    assert!(!plan_is_valid(&bad, false));
}

#[test]
fn points_deleted_before_the_fill_are_dropped() {
    let response = source(&[A, B, C, D]);
    assert_eq!(fill_request(&response, false, false), None);
    assert_eq!(fill_request(&response, true, false), Some(vec![id(A), id(B), id(C), id(D)]));
    assert_eq!(fill_request(&response, false, true).unwrap().len(), 4);
    let filled = fill_with_payload_or_vectors(response, &vec![id(D), id(B)]);
    assert_eq!(ids(&filled), vec![B, D]);
}

#[test]
fn timeout_shrinks_with_the_time_spent() {
    assert_eq!(remaining_timeout(1000, 300), Ok(700));
    assert_eq!(remaining_timeout(1000, 999), Ok(1));
    let timed_out = Err(OperationError::Timeout { description: "Operation timed out".to_string() });
    assert_eq!(remaining_timeout(1000, 1000), timed_out);
    assert_eq!(remaining_timeout(0, 0), timed_out);
}

use vstd::prelude::*;
use crate::fusion::{concat, first_points, ids_of, rrf_scoring, sources_view, spec_rrf_scoring};
use crate::hnsw::{cut_to, SearchParams};
use crate::types::{OperationError, PointIdType, ScoreType, ScoredPoint};

verus! {

/// A result list that was fetched before the merge began.
#[derive(Clone, Copy, Debug, PartialEq, Eq, Structural)]
pub enum FetchedSource {
    Search(usize),
    Scroll(usize),
}

/// How results of several sources are fused.
#[derive(Clone, Copy, Debug, PartialEq, Eq, Structural)]
pub enum Fusion {
    /// Reciprocal rank fusion.
    Rrf,
}

#[derive(Clone, Copy, Debug, PartialEq, Eq, Structural)]
pub enum Direction {
    Asc,
    Desc,
}

/// Order by the value of a payload field.
#[derive(Debug, PartialEq, Eq)]
pub struct OrderBy {
    /// Path of the payload field.
    pub key: String,
    pub direction: Direction,
}

/// With what the merged sources are scored again.
#[derive(Debug, PartialEq, Eq)]
pub enum ScoringQuery {
    Fusion(Fusion),
    OrderBy(OrderBy),
    /// A vector query, named by its place among the queries of the request.
    Vector(usize),
}

#[derive(Debug, PartialEq, Eq)]
pub struct RescoreParams {
    pub rescore: ScoringQuery,
    pub score_threshold: Option<ScoreType>,
    pub limit: usize,
    pub with_vector: bool,
    pub with_payload: bool,
}

/// One source of a merge: a fetched list or the result of a nested merge.
#[derive(Debug, PartialEq, Eq)]
pub enum Source {
    SearchesIdx(usize),
    ScrollsIdx(usize),
    Prefetch(MergePlan),
}

#[derive(Debug, PartialEq, Eq)]
pub struct MergePlan {
    pub sources: Vec<Source>,
    pub rescore_params: Option<RescoreParams>,
}

/// A scroll over the points whose id is in `has_id`.
#[derive(Debug, PartialEq, Eq)]
pub struct QueryScrollRequestInternal {
    pub limit: usize,
    pub has_id: Vec<PointIdType>,
    pub with_payload: bool,
    pub with_vector: bool,
    pub order_by: Option<OrderBy>,
}

/// A vector search over the points whose id is in `has_id`.
#[derive(Debug, PartialEq, Eq)]
pub struct CoreSearchRequest {
    pub query: usize,
    pub has_id: Vec<PointIdType>,
    pub params: Option<SearchParams>,
    pub limit: usize,
    pub offset: usize,
    pub with_payload: Option<bool>,
    pub with_vector: Option<bool>,
    pub score_threshold: Option<ScoreType>,
}

/// A batch of requests compiled for one shard.
#[derive(Debug, PartialEq, Eq)]
pub struct PlannedQuery {
    pub searches: Vec<CoreSearchRequest>,
    pub scrolls: Vec<QueryScrollRequestInternal>,
    pub root_plans: Vec<MergePlan>,
}

/// Only the root of a plan may hand its sources on as they are: every
/// nested merge scores again.
pub open spec fn spec_plan_is_valid(plan: &MergePlan, nested: bool) -> bool
    decreases plan,
{
    &&& nested ==> plan.rescore_params is Some
    &&& forall|i: int|
        0 <= i < plan.sources@.len() ==> match #[trigger] plan.sources@[i] {
            Source::Prefetch(inner) => spec_plan_is_valid(&inner, true),
            _ => true,
        }
}

/// Checks a plan before it is run; `nested` says whether the plan stands
/// below another.
pub fn plan_is_valid(plan: &MergePlan, nested: bool) -> (r: bool)
    ensures
        r == spec_plan_is_valid(plan, nested),
    decreases plan,
{
    if nested && plan.rescore_params.is_none() {
        return false;
    }
    let mut i: usize = 0;
    while i < plan.sources.len()
        invariant
            i <= plan.sources.len(),
            nested ==> plan.rescore_params is Some,
            forall|k: int|
                0 <= k < i ==> match #[trigger] plan.sources@[k] {
                    Source::Prefetch(inner) => spec_plan_is_valid(&inner, true),
                    _ => true,
                },
        decreases plan.sources.len() - i,
    {
        match &plan.sources[i] {
            Source::Prefetch(inner) => {
                if !plan_is_valid(inner, true) {
                    return false;
                }
            },
            _ => {},
        }
        i = i + 1;
    }
    true
}

/// The result lists that were fetched for a planned query.
#[derive(Debug)]
pub struct PrefetchResults {
    search_results: Vec<Vec<ScoredPoint>>,
    scroll_results: Vec<Vec<ScoredPoint>>,
}

impl PrefetchResults {
    pub closed spec fn searches(&self) -> Seq<Seq<ScoredPoint>> {
        sources_view(self.search_results@)
    }

    pub closed spec fn scrolls(&self) -> Seq<Seq<ScoredPoint>> {
        sources_view(self.scroll_results@)
    }

    pub fn new(search_results: Vec<Vec<ScoredPoint>>, scroll_results: Vec<Vec<ScoredPoint>>) -> (r:
        Self)
        ensures
            r.searches() == sources_view(search_results@),
            r.scrolls() == sources_view(scroll_results@),
    {
        PrefetchResults { search_results, scroll_results }
    }

    /// The list that `element` names, if it was fetched.
    pub open spec fn spec_get(&self, element: FetchedSource) -> Option<Seq<ScoredPoint>> {
        match element {
            FetchedSource::Search(idx) => if idx < self.searches().len() {
                Some(self.searches()[idx as int])
            } else {
                None
            },
            FetchedSource::Scroll(idx) => if idx < self.scrolls().len() {
                Some(self.scrolls()[idx as int])
            } else {
                None
            },
        }
    }

    /// The list that `element` names; an error where it was not fetched.
    pub fn get(&self, element: FetchedSource) -> (r: Result<&Vec<ScoredPoint>, OperationError>)
        ensures
            match self.spec_get(element) {
                Some(list) => r matches Ok(found) && found@ == list,
                None => r matches Err(OperationError::ServiceError { description }) && description@
                    == "Expected a prefetched source to exist"@,
            },
    {
        match element {
            FetchedSource::Search(idx) => {
                if idx < self.search_results.len() {
                    Ok(&self.search_results[idx])
                } else {
                    Err(
                        OperationError::ServiceError {
                            description: "Expected a prefetched source to exist".to_string(),
                        },
                    )
                }
            },
            FetchedSource::Scroll(idx) => {
                if idx < self.scroll_results.len() {
                    Ok(&self.scroll_results[idx])
                } else {
                    Err(
                        OperationError::ServiceError {
                            description: "Expected a prefetched source to exist".to_string(),
                        },
                    )
                }
            },
        }
    }
}

fn copy_list(list: &Vec<ScoredPoint>) -> (r: Vec<ScoredPoint>)
    ensures
        r@ == list@,
{
    let mut out: Vec<ScoredPoint> = Vec::new();
    let mut i: usize = 0;
    while i < list.len()
        invariant
            i <= list.len(),
            out@ == list@.take(i as int),
        decreases list.len() - i,
    {
        out.push(list[i]);
        proof {
            assert(list@.take(i as int + 1) =~= list@.take(i as int).push(list@[i as int]));
        }
        i = i + 1;
    }
    proof {
        assert(list@.take(list@.len() as int) =~= list@);
    }
    out
}

/// Number of leading points whose score is at least `threshold`.
pub open spec fn passing_count(points: Seq<ScoredPoint>, threshold: ScoreType, from: int) -> int
    decreases points.len() - from,
{
    if from < 0 || from >= points.len() {
        points.len() as int
    } else if points[from].score < threshold {
        from
    } else {
        passing_count(points, threshold, from + 1)
    }
}

/// The points up to the first one below the threshold, `limit` at most.
pub open spec fn cut_by_threshold(
    points: Seq<ScoredPoint>,
    score_threshold: Option<ScoreType>,
    limit: usize,
) -> Seq<ScoredPoint> {
    match score_threshold {
        Some(threshold) => cut_to(points.take(passing_count(points, threshold, 0)), limit),
        None => cut_to(points, limit),
    }
}

/// The run of passing points that starts at `from` ends within the list:
/// every point of the run passes the threshold, and the point behind it
/// does not.
pub proof fn lemma_passing_count(points: Seq<ScoredPoint>, threshold: ScoreType, from: int)
    requires
        0 <= from <= points.len(),
    ensures
        from <= passing_count(points, threshold, from) <= points.len(),
        forall|i: int|
            from <= i < passing_count(points, threshold, from) ==> points[i].score >= threshold,
        passing_count(points, threshold, from) < points.len() ==> points[passing_count(
            points,
            threshold,
            from,
        )].score < threshold,
    decreases points.len() - from,
{
    if from < points.len() && points[from].score >= threshold {
        lemma_passing_count(points, threshold, from + 1);
    }
}

fn truncate_results(
    points: Vec<ScoredPoint>,
    score_threshold: Option<ScoreType>,
    limit: usize,
) -> (r: Vec<ScoredPoint>)
    ensures
        r@ == cut_by_threshold(points@, score_threshold, limit),
{
    let mut out: Vec<ScoredPoint> = points;
    match score_threshold {
        Some(threshold) => {
            let mut n: usize = 0;
            while n < out.len() && out[n].score >= threshold
                invariant
                    n <= out.len(),
                    out@ == points@,
                    passing_count(points@, threshold, 0) == passing_count(
                        points@,
                        threshold,
                        n as int,
                    ),
                decreases out.len() - n,
            {
                n = n + 1;
            }
            out.truncate(n);
            assert(out@ == points@.take(passing_count(points@, threshold, 0)));
        },
        None => {},
    }
    let ghost passed = out@;
    out.truncate(limit);
    out
}

/// What scoring the merged sources again comes to.
#[derive(Debug)]
pub enum RescoreStep {
    /// The sources were fused here. Payload and vectors are still to be
    /// fetched where the flags ask for them.
    Fused { points: Vec<ScoredPoint>, with_payload: bool, with_vector: bool },
    /// One scroll over the points of the sources gives the result.
    Scroll(QueryScrollRequestInternal),
    /// One search over the points of the sources gives the result.
    Search(CoreSearchRequest),
}

/// The ids of the points of the sources, each once, in the order in which
/// the sources first list them.
pub fn filter_with_sources_ids(sources: &Vec<Vec<ScoredPoint>>) -> (r: Vec<PointIdType>)
    ensures
        r@ == ids_of(first_points(concat(sources_view(sources@)))),
{
    let ghost lists = sources_view(sources@);
    let mut ids: Vec<PointIdType> = Vec::new();
    let ghost mut firsts: Seq<ScoredPoint> = Seq::empty();
    let mut si: usize = 0;
    proof {
        assert(lists.take(0) =~= Seq::<Seq<ScoredPoint>>::empty());
        assert(ids_of(firsts) =~= ids@);
    }
    while si < sources.len()
        invariant
            si <= sources.len(),
            lists == sources_view(sources@),
            firsts == first_points(concat(lists.take(si as int))),
            ids@ == ids_of(firsts),
        decreases sources.len() - si,
    {
        let source: &Vec<ScoredPoint> = &sources[si];
        let ghost before = concat(lists.take(si as int));
        assert(lists[si as int] == source@);
        let mut pos: usize = 0;
        proof {
            assert(before + source@.take(0) =~= before);
        }
        while pos < source.len()
            invariant
                pos <= source.len(),
                firsts == first_points(before + source@.take(pos as int)),
                ids@ == ids_of(firsts),
            decreases source.len() - pos,
        {
            let point: ScoredPoint = source[pos];
            let ghost next = before + source@.take(pos as int + 1);
            proof {
                assert(next.drop_last() =~= before + source@.take(pos as int));
                assert(next.last() == point);
            }
            let mut known: bool = false;
            let mut j: usize = 0;
            while j < ids.len() && !known
                invariant
                    j <= ids.len(),
                    ids@ == ids_of(firsts),
                    known ==> crate::fusion::has_id(firsts, point.id),
                    !known ==> forall|k: int| 0 <= k < j ==> firsts[k].id != point.id,
                decreases ids.len() - j + if known { 0int } else { 1int },
            {
                if ids[j] == point.id {
                    assert(firsts[j as int].id == point.id);
                    known = true;
                } else {
                    j = j + 1;
                }
            }
            if !known {
                ids.push(point.id);
                proof {
                    let grown = firsts.push(point);
                    assert(ids_of(grown) =~= ids@);
                    firsts = grown;
                }
            }
            pos = pos + 1;
        }
        proof {
            assert(source@.take(source@.len() as int) =~= source@);
            assert(lists.take(si as int + 1).drop_last() =~= lists.take(si as int));
            assert(lists.take(si as int + 1).last() == source@);
        }
        si = si + 1;
    }
    proof {
        assert(lists.take(lists.len() as int) =~= lists);
    }
    ids
}

/// Scores the merged sources again. Fusion is done on the spot, cut at the
/// first point below the threshold and to the limit. Ordering by a payload
/// field and scoring by a vector each come to one request over the points
/// of the sources; ordering takes no threshold, since all its results score
/// alike.
pub fn rescore(sources: Vec<Vec<ScoredPoint>>, rescore_params: RescoreParams) -> (r: RescoreStep)
    ensures
        match rescore_params.rescore {
            ScoringQuery::Fusion(Fusion::Rrf) => r matches RescoreStep::Fused {
                points,
                with_payload,
                with_vector,
            } && points@ == cut_by_threshold(
                spec_rrf_scoring(sources_view(sources@)),
                rescore_params.score_threshold,
                rescore_params.limit,
            ) && with_payload == rescore_params.with_payload && with_vector
                == rescore_params.with_vector,
            ScoringQuery::OrderBy(order_by) => r matches RescoreStep::Scroll(request)
                && request.limit == rescore_params.limit && request.has_id@ == ids_of(
                first_points(concat(sources_view(sources@))),
            ) && request.with_payload == rescore_params.with_payload && request.with_vector
                == rescore_params.with_vector && request.order_by == Some(order_by),
            ScoringQuery::Vector(query) => r matches RescoreStep::Search(request) && request.query
                == query && request.has_id@ == ids_of(
                first_points(concat(sources_view(sources@))),
            ) && request.params is None && request.limit == rescore_params.limit && request.offset
                == 0 && request.with_payload == Some(rescore_params.with_payload)
                && request.with_vector == Some(rescore_params.with_vector)
                && request.score_threshold == rescore_params.score_threshold,
        },
{
    let RescoreParams { rescore, score_threshold, limit, with_vector, with_payload } =
        rescore_params;
    match rescore {
        ScoringQuery::Fusion(Fusion::Rrf) => {
            let top_rrf: Vec<ScoredPoint> = rrf_scoring(sources);
            let points: Vec<ScoredPoint> = truncate_results(top_rrf, score_threshold, limit);
            RescoreStep::Fused { points, with_payload, with_vector }
        },
        ScoringQuery::OrderBy(order_by) => {
            let has_id: Vec<PointIdType> = filter_with_sources_ids(&sources);
            RescoreStep::Scroll(
                QueryScrollRequestInternal {
                    limit,
                    has_id,
                    with_payload,
                    with_vector,
                    order_by: Some(order_by),
                },
            )
        },
        ScoringQuery::Vector(query) => {
            let has_id: Vec<PointIdType> = filter_with_sources_ids(&sources);
            RescoreStep::Search(
                CoreSearchRequest {
                    query,
                    has_id,
                    params: None,
                    limit,
                    offset: 0,
                    with_payload: Some(with_payload),
                    with_vector: Some(with_vector),
                    score_threshold,
                },
            )
        },
    }
}


/// The ids to fetch payload or vectors for: those of the points, in their
/// order, where either is asked for.
pub fn fill_request(query_response: &Vec<ScoredPoint>, with_payload: bool, with_vector: bool) -> (r:
    Option<Vec<PointIdType>>)
    ensures
        !with_payload && !with_vector ==> r is None,
        with_payload || with_vector ==> (r matches Some(ids) && ids@ == ids_of(query_response@)),
{
    if !with_payload && !with_vector {
        return None;
    }
    let mut ids: Vec<PointIdType> = Vec::new();
    let mut i: usize = 0;
    while i < query_response.len()
        invariant
            i <= query_response.len(),
            ids@ == ids_of(query_response@.take(i as int)),
        decreases query_response.len() - i,
    {
        ids.push(query_response[i].id);
        proof {
            assert(ids_of(query_response@.take(i as int + 1)) =~= ids_of(
                query_response@.take(i as int),
            ).push(query_response@[i as int].id));
        }
        i = i + 1;
    }
    proof {
        assert(query_response@.take(query_response@.len() as int) =~= query_response@);
    }
    Some(ids)
}

/// The points whose records were found, in their order. A point that was
/// deleted between the search and the fetch has no record and is dropped.
pub fn fill_with_payload_or_vectors(
    query_response: Vec<ScoredPoint>,
    retrieved: &Vec<PointIdType>,
) -> (r: Vec<ScoredPoint>)
    ensures
        r@ == query_response@.filter(|p: ScoredPoint| retrieved@.contains(p.id)),
{
    let ghost pred = |p: ScoredPoint| retrieved@.contains(p.id);
    let mut out: Vec<ScoredPoint> = Vec::new();
    let mut i: usize = 0;
    proof {
        assert(query_response@.take(0) =~= Seq::<ScoredPoint>::empty());
        reveal(Seq::filter);
        assert(Seq::<ScoredPoint>::empty().filter(pred) =~= Seq::<ScoredPoint>::empty());
    }
    while i < query_response.len()
        invariant
            i <= query_response.len(),
            pred == (|p: ScoredPoint| retrieved@.contains(p.id)),
            out@ == query_response@.take(i as int).filter(pred),
        decreases query_response.len() - i,
    {
        let point: ScoredPoint = query_response[i];
        let mut found: bool = false;
        let mut j: usize = 0;
        while j < retrieved.len() && !found
            invariant
                j <= retrieved.len(),
                found ==> retrieved@.contains(point.id),
                !found ==> forall|k: int| 0 <= k < j ==> retrieved@[k] != point.id,
            decreases retrieved.len() - j + if found { 0int } else { 1int },
        {
            if retrieved[j] == point.id {
                assert(retrieved@[j as int] == point.id);
                found = true;
            } else {
                j = j + 1;
            }
        }
        proof {
            assert(query_response@.take(i as int + 1) =~= query_response@.take(i as int).push(
                point,
            ));
            query_response@.take(i as int).lemma_filter_push(point, pred);
        }
        if found {
            out.push(point);
        }
        i = i + 1;
    }
    proof {
        assert(query_response@.take(query_response@.len() as int) =~= query_response@);
    }
    out
}

/// What is left of the time allowed once `elapsed` of it is spent. With
/// nothing left the request fails at once.
pub fn remaining_timeout(timeout_millis: u64, elapsed_millis: u64) -> (r: Result<
    u64,
    OperationError,
>)
    ensures
        elapsed_millis < timeout_millis ==> r == Ok::<u64, OperationError>(
            (timeout_millis - elapsed_millis) as u64,
        ),
        elapsed_millis >= timeout_millis ==> (r matches Err(
            OperationError::Timeout { description },
        ) && description@ == "Operation timed out"@),
{
    if elapsed_millis < timeout_millis {
        Ok(timeout_millis - elapsed_millis)
    } else {
        Err(OperationError::Timeout { description: "Operation timed out".to_string() })
    }
}

/// A limit of one gives exactly one point as soon as a point qualifies: the
/// list is not empty and its best score is not below the threshold.
pub proof fn lemma_limit_of_one(points: Seq<ScoredPoint>, score_threshold: Option<ScoreType>)
    requires
        points.len() >= 1,
        score_threshold matches Some(t) ==> points[0].score >= t,
    ensures
        cut_by_threshold(points, score_threshold, 1).len() == 1,
        cut_by_threshold(points, score_threshold, 1)[0] == points[0],
{
    match score_threshold {
        Some(t) => {
            lemma_passing_count(points, t, 0);
            lemma_passing_count(points, t, 1);
        },
        None => {},
    }
}

/// The fused list is empty only where no source lists a point.
pub proof fn lemma_rrf_len(sources: Seq<Seq<ScoredPoint>>)
    ensures
        spec_rrf_scoring(sources).len() == first_points(concat(sources)).len(),
        concat(sources).len() > 0 ==> spec_rrf_scoring(sources).len() >= 1,
{
    crate::sorting::lemma_ordered_by_score(crate::fusion::fused_points(sources));
    crate::fusion::lemma_first_points(concat(sources));
    if concat(sources).len() > 0 {
        assert(crate::fusion::has_id(concat(sources), concat(sources)[0].id));
        assert(crate::fusion::has_id(first_points(concat(sources)), concat(sources)[0].id));
    }
}


/// What the shard is asked to do for a merge.
#[derive(Debug)]
pub enum Request {
    /// Fetch payload or vectors of the points with these ids, and say which
    /// of them are still there.
    Fill { ids: Vec<PointIdType>, with_payload: bool, with_vector: bool },
    Scroll(QueryScrollRequestInternal),
    Search(CoreSearchRequest),
}

/// What the shard has done for a request.
#[derive(Debug)]
pub enum Answer {
    /// The ids of the points that were found when payload or vectors were
    /// fetched.
    Retrieved(Vec<PointIdType>),
    /// The result lists of a batch of scrolls or searches.
    Batch(Vec<Vec<ScoredPoint>>),
}

/// A request as a plain value.
pub enum RequestView {
    Fill { ids: Seq<PointIdType>, with_payload: bool, with_vector: bool },
    Scroll {
        limit: usize,
        has_id: Seq<PointIdType>,
        with_payload: bool,
        with_vector: bool,
        order_by: Option<OrderBy>,
    },
    Search {
        query: usize,
        has_id: Seq<PointIdType>,
        params: Option<SearchParams>,
        limit: usize,
        offset: usize,
        /// Whether the payload is asked for, where the request says so.
        payload: Option<bool>,
        /// Whether the vector is asked for, where the request says so.
        vector: Option<bool>,
        score_threshold: Option<ScoreType>,
    },
}

impl View for Request {
    type V = RequestView;

    open spec fn view(&self) -> RequestView {
        match self {
            Request::Fill { ids, with_payload, with_vector } => RequestView::Fill {
                ids: ids@,
                with_payload: *with_payload,
                with_vector: *with_vector,
            },
            Request::Scroll(request) => RequestView::Scroll {
                limit: request.limit,
                has_id: request.has_id@,
                with_payload: request.with_payload,
                with_vector: request.with_vector,
                order_by: request.order_by,
            },
            Request::Search(request) => RequestView::Search {
                query: request.query,
                has_id: request.has_id@,
                params: request.params,
                limit: request.limit,
                offset: request.offset,
                payload: request.with_payload,
                vector: request.with_vector,
                score_threshold: request.score_threshold,
            },
        }
    }
}

/// Why a walk through a plan fails.
#[derive(Clone, Copy, Debug, PartialEq, Eq, Structural)]
pub enum WalkError {
    /// The plan names a result list that was not fetched.
    MissingSource,
    /// A batch of scrolls came back without a result list.
    EmptyScroll,
    /// A batch of searches came back without a result list.
    EmptySearch,
    /// The answer is none to the request that was made.
    WrongAnswer,
}

impl WalkError {
    pub open spec fn spec_text(self) -> Seq<char> {
        match self {
            WalkError::MissingSource => "Expected a prefetched source to exist"@,
            WalkError::EmptyScroll =>
                "Rescoring with order-by query didn't return expected batch of results"@,
            WalkError::EmptySearch =>
                "Rescoring with vector(s) query didn't return expected batch of results"@,
            WalkError::WrongAnswer => "Answer does not fit the request that was made"@,
        }
    }

    /// The error that the caller of the query sees.
    pub fn to_error(self) -> (r: OperationError)
        ensures
            r matches OperationError::ServiceError { description } && description@
                == self.spec_text(),
    {
        let text: &str = match self {
            WalkError::MissingSource => "Expected a prefetched source to exist",
            WalkError::EmptyScroll =>
                "Rescoring with order-by query didn't return expected batch of results",
            WalkError::EmptySearch =>
                "Rescoring with vector(s) query didn't return expected batch of results",
            WalkError::WrongAnswer => "Answer does not fit the request that was made",
        };
        OperationError::ServiceError { description: text.to_string() }
    }
}

/// How far a walk through a plan comes with the answers at hand.
pub enum Outcome {
    /// The walk is through: the result lists, and the number of answers it
    /// used.
    Done { lists: Seq<Seq<ScoredPoint>>, cursor: int },
    /// The walk needs the answer to a request that has none yet.
    Pending(RequestView),
    Failed(WalkError),
}

/// The merged sources scored again, with the answers from `cursor` on at
/// hand. Fusion is done on the spot; it needs an answer only where payload
/// or vectors are to be fetched, and then keeps the points that were
/// found. Ordering and scoring by a vector each take the one result list
/// of their answer.
pub open spec fn spec_rescored(
    lists: Seq<Seq<ScoredPoint>>,
    params: RescoreParams,
    answers: Seq<Answer>,
    cursor: int,
) -> Outcome {
    match params.rescore {
        ScoringQuery::Fusion(Fusion::Rrf) => {
            let points = cut_by_threshold(
                spec_rrf_scoring(lists),
                params.score_threshold,
                params.limit,
            );
            if !params.with_payload && !params.with_vector {
                Outcome::Done { lists: seq![points], cursor }
            } else if cursor < 0 || cursor >= answers.len() {
                Outcome::Pending(
                    RequestView::Fill {
                        ids: ids_of(points),
                        with_payload: params.with_payload,
                        with_vector: params.with_vector,
                    },
                )
            } else {
                match answers[cursor] {
                    Answer::Retrieved(found) => Outcome::Done {
                        lists: seq![points.filter(|p: ScoredPoint| found@.contains(p.id))],
                        cursor: cursor + 1,
                    },
                    Answer::Batch(_) => Outcome::Failed(WalkError::WrongAnswer),
                }
            }
        },
        ScoringQuery::OrderBy(order_by) => if cursor < 0 || cursor >= answers.len() {
            Outcome::Pending(
                RequestView::Scroll {
                    limit: params.limit,
                    has_id: ids_of(first_points(concat(lists))),
                    with_payload: params.with_payload,
                    with_vector: params.with_vector,
                    order_by: Some(order_by),
                },
            )
        } else {
            match answers[cursor] {
                Answer::Batch(batch) => if batch@.len() > 0 {
                    Outcome::Done { lists: seq![batch@.last()@], cursor: cursor + 1 }
                } else {
                    Outcome::Failed(WalkError::EmptyScroll)
                },
                Answer::Retrieved(_) => Outcome::Failed(WalkError::WrongAnswer),
            }
        },
        ScoringQuery::Vector(query) => if cursor < 0 || cursor >= answers.len() {
            Outcome::Pending(
                RequestView::Search {
                    query,
                    has_id: ids_of(first_points(concat(lists))),
                    params: None,
                    limit: params.limit,
                    offset: 0,
                    payload: Some(params.with_payload),
                    vector: Some(params.with_vector),
                    score_threshold: params.score_threshold,
                },
            )
        } else {
            match answers[cursor] {
                Answer::Batch(batch) => if batch@.len() > 0 {
                    Outcome::Done { lists: seq![batch@.last()@], cursor: cursor + 1 }
                } else {
                    Outcome::Failed(WalkError::EmptySearch)
                },
                Answer::Retrieved(_) => Outcome::Failed(WalkError::WrongAnswer),
            }
        },
    }
}

/// The walk through a plan, depth first: the sources are laid out in their
/// order, nested plans walked as they come, and the whole is scored again
/// where the plan says so. Each request that the walk makes takes the next
/// answer; the walk stops at the first request without one.
pub open spec fn spec_walk(
    plan: &MergePlan,
    holder: &PrefetchResults,
    answers: Seq<Answer>,
    cursor: int,
) -> Outcome
    decreases plan, plan.sources@.len() + 1,
{
    match spec_walk_sources(plan, holder, answers, cursor, plan.sources@.len() as int) {
        Outcome::Done { lists, cursor: next } => match plan.rescore_params {
            Some(params) => spec_rescored(lists, params, answers, next),
            None => Outcome::Done { lists, cursor: next },
        },
        other => other,
    }
}

/// The walk through the first `n` sources of a plan.
pub open spec fn spec_walk_sources(
    plan: &MergePlan,
    holder: &PrefetchResults,
    answers: Seq<Answer>,
    cursor: int,
    n: int,
) -> Outcome
    decreases plan, n,
    when 0 <= n <= plan.sources@.len()
{
    if n <= 0 {
        Outcome::Done { lists: Seq::empty(), cursor }
    } else {
        match spec_walk_sources(plan, holder, answers, cursor, n - 1) {
            Outcome::Done { lists, cursor: next } => match plan.sources@[n - 1] {
                Source::SearchesIdx(idx) => match holder.spec_get(FetchedSource::Search(idx)) {
                    Some(list) => Outcome::Done { lists: lists.push(list), cursor: next },
                    None => Outcome::Failed(WalkError::MissingSource),
                },
                Source::ScrollsIdx(idx) => match holder.spec_get(FetchedSource::Scroll(idx)) {
                    Some(list) => Outcome::Done { lists: lists.push(list), cursor: next },
                    None => Outcome::Failed(WalkError::MissingSource),
                },
                Source::Prefetch(inner) => match spec_walk(&inner, holder, answers, next) {
                    Outcome::Done { lists: more, cursor: after } => Outcome::Done {
                        lists: lists + more,
                        cursor: after,
                    },
                    other => other,
                },
            },
            other => other,
        }
    }
}

/// How far a walk through a plan came.
#[derive(Debug)]
pub enum Walk {
    /// The result lists, and the number of answers used.
    Done(Vec<Vec<ScoredPoint>>, usize),
    Pending(Request),
    Failed(OperationError),
}

/// The walk is what the outcome says.
pub open spec fn walk_fits(walk: Walk, outcome: Outcome) -> bool {
    match outcome {
        Outcome::Done { lists, cursor } => walk matches Walk::Done(found, used) && sources_view(
            found@,
        ) == lists && used == cursor,
        Outcome::Pending(request) => walk matches Walk::Pending(asked) && asked@ == request,
        Outcome::Failed(fault) => walk matches Walk::Failed(e) && (
        e matches OperationError::ServiceError { description } && description@ == fault.spec_text()),
    }
}

fn copy_order(order_by: &OrderBy) -> (r: OrderBy)
    ensures
        r == *order_by,
{
    OrderBy { key: order_by.key.clone(), direction: order_by.direction }
}

/// Scores the merged sources again with the answers at hand.
fn rescore_with_answers(
    lists: Vec<Vec<ScoredPoint>>,
    params: &RescoreParams,
    answers: &Vec<Answer>,
    cursor: usize,
) -> (r: Walk)
    requires
        cursor <= answers@.len(),
    ensures
        walk_fits(r, spec_rescored(sources_view(lists@), *params, answers@, cursor as int)),
{
    let ghost views = sources_view(lists@);
    match &params.rescore {
        ScoringQuery::Fusion(Fusion::Rrf) => {
            let top_rrf: Vec<ScoredPoint> = rrf_scoring(lists);
            let points: Vec<ScoredPoint> = truncate_results(
                top_rrf,
                params.score_threshold,
                params.limit,
            );
            match fill_request(&points, params.with_payload, params.with_vector) {
                None => {
                    let mut found: Vec<Vec<ScoredPoint>> = Vec::new();
                    let ghost kept = points@;
                    found.push(points);
                    assert(sources_view(found@) =~= seq![kept]);
                    Walk::Done(found, cursor)
                },
                Some(ids) => {
                    if cursor >= answers.len() {
                        Walk::Pending(
                            Request::Fill {
                                ids,
                                with_payload: params.with_payload,
                                with_vector: params.with_vector,
                            },
                        )
                    } else {
                        match &answers[cursor] {
                            Answer::Retrieved(retrieved) => {
                                let filled: Vec<ScoredPoint> = fill_with_payload_or_vectors(
                                    points,
                                    retrieved,
                                );
                                let mut found: Vec<Vec<ScoredPoint>> = Vec::new();
                                let ghost kept = filled@;
                                found.push(filled);
                                assert(sources_view(found@) =~= seq![kept]);
                                Walk::Done(found, cursor + 1)
                            },
                            Answer::Batch(_) => Walk::Failed(WalkError::WrongAnswer.to_error()),
                        }
                    }
                },
            }
        },
        ScoringQuery::OrderBy(order_by) => {
            if cursor >= answers.len() {
                let has_id: Vec<PointIdType> = filter_with_sources_ids(&lists);
                Walk::Pending(
                    Request::Scroll(
                        QueryScrollRequestInternal {
                            limit: params.limit,
                            has_id,
                            with_payload: params.with_payload,
                            with_vector: params.with_vector,
                            order_by: Some(copy_order(order_by)),
                        },
                    ),
                )
            } else {
                match &answers[cursor] {
                    Answer::Batch(batch) => {
                        if batch.len() > 0 {
                            let mut found: Vec<Vec<ScoredPoint>> = Vec::new();
                            found.push(copy_list(&batch[batch.len() - 1]));
                            assert(sources_view(found@) =~= seq![batch@.last()@]);
                            Walk::Done(found, cursor + 1)
                        } else {
                            Walk::Failed(WalkError::EmptyScroll.to_error())
                        }
                    },
                    Answer::Retrieved(_) => Walk::Failed(WalkError::WrongAnswer.to_error()),
                }
            }
        },
        ScoringQuery::Vector(query) => {
            if cursor >= answers.len() {
                let has_id: Vec<PointIdType> = filter_with_sources_ids(&lists);
                Walk::Pending(
                    Request::Search(
                        CoreSearchRequest {
                            query: *query,
                            has_id,
                            params: None,
                            limit: params.limit,
                            offset: 0,
                            with_payload: Some(params.with_payload),
                            with_vector: Some(params.with_vector),
                            score_threshold: params.score_threshold,
                        },
                    ),
                )
            } else {
                match &answers[cursor] {
                    Answer::Batch(batch) => {
                        if batch.len() > 0 {
                            let mut found: Vec<Vec<ScoredPoint>> = Vec::new();
                            found.push(copy_list(&batch[batch.len() - 1]));
                            assert(sources_view(found@) =~= seq![batch@.last()@]);
                            Walk::Done(found, cursor + 1)
                        } else {
                            Walk::Failed(WalkError::EmptySearch.to_error())
                        }
                    },
                    Answer::Retrieved(_) => Walk::Failed(WalkError::WrongAnswer.to_error()),
                }
            }
        },
    }
}

/// Walks through a plan with the answers at hand, from the answer at
/// `cursor` on. The walk is begun anew each time an answer has come in,
/// and comes one request further each time.
pub fn recurse_prefetch(
    merge_plan: &MergePlan,
    prefetch_holder: &PrefetchResults,
    answers: &Vec<Answer>,
    cursor: usize,
) -> (r: Walk)
    requires
        cursor <= answers@.len(),
    ensures
        walk_fits(r, spec_walk(merge_plan, prefetch_holder, answers@, cursor as int)),
        r matches Walk::Done(_, used) ==> cursor <= used <= answers@.len(),
    decreases merge_plan,
{
    let mut cow_sources: Vec<Vec<ScoredPoint>> = Vec::new();
    let mut next: usize = cursor;
    let mut i: usize = 0;
    proof {
        assert(sources_view(cow_sources@) =~= Seq::<Seq<ScoredPoint>>::empty());
    }
    while i < merge_plan.sources.len()
        invariant
            i <= merge_plan.sources.len(),
            cursor <= next <= answers@.len(),
            spec_walk_sources(merge_plan, prefetch_holder, answers@, cursor as int, i as int) == (
            Outcome::Done { lists: sources_view(cow_sources@), cursor: next as int }),
        decreases merge_plan.sources.len() - i,
    {
        let ghost before = sources_view(cow_sources@);
        match &merge_plan.sources[i] {
            Source::SearchesIdx(idx) => {
                match prefetch_holder.get(FetchedSource::Search(*idx)) {
                    Ok(list) => {
                        cow_sources.push(copy_list(list));
                        proof {
                            assert(sources_view(cow_sources@) =~= before.push(list@));
                        }
                    },
                    Err(e) => {
                        proof {
                            lemma_walk_stops(
                                merge_plan,
                                prefetch_holder,
                                answers@,
                                cursor as int,
                                i as int + 1,
                            );
                        }
                        return Walk::Failed(e);
                    },
                }
            },
            Source::ScrollsIdx(idx) => {
                match prefetch_holder.get(FetchedSource::Scroll(*idx)) {
                    Ok(list) => {
                        cow_sources.push(copy_list(list));
                        proof {
                            assert(sources_view(cow_sources@) =~= before.push(list@));
                        }
                    },
                    Err(e) => {
                        proof {
                            lemma_walk_stops(
                                merge_plan,
                                prefetch_holder,
                                answers@,
                                cursor as int,
                                i as int + 1,
                            );
                        }
                        return Walk::Failed(e);
                    },
                }
            },
            Source::Prefetch(prefetch) => {
                match recurse_prefetch(prefetch, prefetch_holder, answers, next) {
                    Walk::Done(merged, used) => {
                        let mut j: usize = 0;
                        while j < merged.len()
                            invariant
                                j <= merged.len(),
                                sources_view(cow_sources@) == before + sources_view(merged@).take(
                                    j as int,
                                ),
                            decreases merged.len() - j,
                        {
                            let ghost prev = sources_view(cow_sources@);
                            cow_sources.push(copy_list(&merged[j]));
                            proof {
                                assert(sources_view(cow_sources@) =~= prev.push(merged@[j as int]@));
                                assert(sources_view(merged@).take(j as int + 1) =~= sources_view(
                                    merged@,
                                ).take(j as int).push(merged@[j as int]@));
                                assert(sources_view(cow_sources@) =~= before + sources_view(
                                    merged@,
                                ).take(j as int + 1));
                            }
                            j = j + 1;
                        }
                        proof {
                            assert(sources_view(merged@).take(merged@.len() as int)
                                =~= sources_view(merged@));
                        }
                        next = used;
                    },
                    Walk::Pending(request) => {
                        proof {
                            lemma_walk_stops(
                                merge_plan,
                                prefetch_holder,
                                answers@,
                                cursor as int,
                                i as int + 1,
                            );
                        }
                        return Walk::Pending(request);
                    },
                    Walk::Failed(e) => {
                        proof {
                            lemma_walk_stops(
                                merge_plan,
                                prefetch_holder,
                                answers@,
                                cursor as int,
                                i as int + 1,
                            );
                        }
                        return Walk::Failed(e);
                    },
                }
            },
        }
        i = i + 1;
    }
    match &merge_plan.rescore_params {
        Some(params) => rescore_with_answers(cow_sources, params, answers, next),
        None => Walk::Done(cow_sources, next),
    }
}

/// A walk that has stopped within the first `n` sources stops there for
/// the whole plan.
proof fn lemma_walk_stops(
    plan: &MergePlan,
    holder: &PrefetchResults,
    answers: Seq<Answer>,
    cursor: int,
    n: int,
)
    requires
        0 <= n <= plan.sources@.len(),
        !(spec_walk_sources(plan, holder, answers, cursor, n) is Done),
    ensures
        spec_walk(plan, holder, answers, cursor) == spec_walk_sources(
            plan,
            holder,
            answers,
            cursor,
            n,
        ),
    decreases plan.sources@.len() - n,
{
    if n < plan.sources@.len() {
        lemma_walk_stops(plan, holder, answers, cursor, n + 1);
    }
}


/// How far the walks through the root plans of a query come.
pub enum RootsOutcome {
    /// One response for each root plan, and the number of answers used.
    Done { responses: Seq<Seq<Seq<ScoredPoint>>>, cursor: int },
    Pending(RequestView),
    Failed(WalkError),
}

/// The walks through the first `n` root plans, one after the other.
pub open spec fn spec_roots(
    plans: Seq<MergePlan>,
    holder: &PrefetchResults,
    answers: Seq<Answer>,
    n: int,
) -> RootsOutcome
    decreases n,
{
    if n <= 0 {
        RootsOutcome::Done { responses: Seq::empty(), cursor: 0 }
    } else {
        match spec_roots(plans, holder, answers, n - 1) {
            RootsOutcome::Done { responses, cursor } => match spec_walk(
                &plans[n - 1],
                holder,
                answers,
                cursor,
            ) {
                Outcome::Done { lists, cursor: next } => RootsOutcome::Done {
                    responses: responses.push(lists),
                    cursor: next,
                },
                Outcome::Pending(request) => RootsOutcome::Pending(request),
                Outcome::Failed(fault) => RootsOutcome::Failed(fault),
            },
            other => other,
        }
    }
}

proof fn lemma_roots_stop(
    plans: Seq<MergePlan>,
    holder: &PrefetchResults,
    answers: Seq<Answer>,
    n: int,
)
    requires
        0 <= n <= plans.len(),
        !(spec_roots(plans, holder, answers, n) is Done),
    ensures
        spec_roots(plans, holder, answers, plans.len() as int) == spec_roots(
            plans,
            holder,
            answers,
            n,
        ),
    decreases plans.len() - n,
{
    if n < plans.len() {
        lemma_roots_stop(plans, holder, answers, n + 1);
    }
}

/// How far a planned query came.
#[derive(Debug)]
pub enum QueryProgress {
    /// The responses, one for each root plan.
    Done(Vec<Vec<Vec<ScoredPoint>>>),
    /// The request to make next, and the time left for it in milliseconds.
    Pending { request: Request, timeout_millis: u64 },
    Failed(OperationError),
}

/// The responses as sequences.
pub open spec fn responses_view(responses: Seq<Vec<Vec<ScoredPoint>>>) -> Seq<Seq<Seq<ScoredPoint>>> {
    responses.map_values(|r: Vec<Vec<ScoredPoint>>| sources_view(r@))
}

/// Runs a planned query as far as the answers at hand allow. The result
/// lists of its searches and scrolls are fetched beforehand; `elapsed` is
/// the time spent since the query came in. A query whose time is spent
/// fails at once. Each root plan is walked in its turn; the first request
/// without an answer is handed out with the time that is left.
pub fn do_planned_query(
    request: &PlannedQuery,
    prefetch_holder: &PrefetchResults,
    answers: &Vec<Answer>,
    timeout_millis: u64,
    elapsed_millis: u64,
) -> (r: QueryProgress)
    ensures
        elapsed_millis >= timeout_millis ==> (r matches QueryProgress::Failed(
            OperationError::Timeout { description },
        ) && description@ == "Operation timed out"@),
        elapsed_millis < timeout_millis ==> match spec_roots(
            request.root_plans@,
            prefetch_holder,
            answers@,
            request.root_plans@.len() as int,
        ) {
            RootsOutcome::Done { responses, cursor } => r matches QueryProgress::Done(found)
                && responses_view(found@) == responses,
            RootsOutcome::Pending(asked) => r matches QueryProgress::Pending {
                request: made,
                timeout_millis: left,
            } && made@ == asked && left == timeout_millis - elapsed_millis,
            RootsOutcome::Failed(fault) => r matches QueryProgress::Failed(e) && (
            e matches OperationError::ServiceError { description } && description@
                == fault.spec_text()),
        },
{
    let left: u64 = match remaining_timeout(timeout_millis, elapsed_millis) {
        Ok(left) => left,
        Err(e) => {
            return QueryProgress::Failed(e);
        },
    };
    let mut responses: Vec<Vec<Vec<ScoredPoint>>> = Vec::new();
    let mut cursor: usize = 0;
    let mut i: usize = 0;
    proof {
        assert(responses_view(responses@) =~= Seq::<Seq<Seq<ScoredPoint>>>::empty());
    }
    while i < request.root_plans.len()
        invariant
            i <= request.root_plans.len(),
            cursor <= answers@.len(),
            elapsed_millis < timeout_millis,
            left == timeout_millis - elapsed_millis,
            spec_roots(request.root_plans@, prefetch_holder, answers@, i as int) == (
            RootsOutcome::Done { responses: responses_view(responses@), cursor: cursor as int }),
        decreases request.root_plans.len() - i,
    {
        let ghost before = responses_view(responses@);
        match recurse_prefetch(&request.root_plans[i], prefetch_holder, answers, cursor) {
            Walk::Done(lists, used) => {
                let ghost found = sources_view(lists@);
                responses.push(lists);
                proof {
                    assert(responses_view(responses@) =~= before.push(found));
                }
                cursor = used;
            },
            Walk::Pending(made) => {
                proof {
                    lemma_roots_stop(request.root_plans@, prefetch_holder, answers@, i as int + 1);
                }
                return QueryProgress::Pending { request: made, timeout_millis: left };
            },
            Walk::Failed(e) => {
                proof {
                    lemma_roots_stop(request.root_plans@, prefetch_holder, answers@, i as int + 1);
                }
                return QueryProgress::Failed(e);
            },
        }
        i = i + 1;
    }
    QueryProgress::Done(responses)
}

/// A plan of fetched sources that are fused without payload or vectors
/// needs no answer: the walk is through at once, with the fused points.
pub proof fn lemma_fusion_needs_no_answer(
    plan: &MergePlan,
    holder: &PrefetchResults,
    answers: Seq<Answer>,
    lists: Seq<Seq<ScoredPoint>>,
)
    requires
        spec_walk_sources(plan, holder, answers, 0, plan.sources@.len() as int) == (Outcome::Done {
            lists,
            cursor: 0,
        }),
        plan.rescore_params matches Some(params) && params.rescore == ScoringQuery::Fusion(
            Fusion::Rrf,
        ) && !params.with_payload && !params.with_vector,
    ensures
        spec_walk(plan, holder, answers, 0) == (Outcome::Done {
            lists: seq![
                cut_by_threshold(
                    spec_rrf_scoring(lists),
                    plan.rescore_params->Some_0.score_threshold,
                    plan.rescore_params->Some_0.limit,
                ),
            ],
            cursor: 0,
        }),
{
}

} // verus!

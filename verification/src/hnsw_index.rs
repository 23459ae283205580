use vstd::prelude::*;
use crate::graph_layers::{entries_view, found_ok, GraphLayers, StoredGraph};
use crate::hnsw::{
    adjust_to_available_vectors,
    count_true,
    cut_to,
    discovery_entry_points,
    exact_search_params,
    full_scan_threshold_in_points,
    get_oversampled_top,
    offsets_of,
    is_quantized_search,
    needs_rescore,
    postprocess_search_result,
    sample_check_cardinality,
    search_plain,
    spec_adjust_to_available_vectors,
    spec_exact_params,
    spec_is_quantized_search,
    spec_needs_rescore,
    spec_oversampled_top,
    spec_quantization,
    spec_sample_estimate,
    spec_search_decision,
    threshold_in_points,
    HNSWSearchesTelemetry,
    HnswConfig,
    HnswGraphConfig,
    SearchBranch,
    SearchDecision,
    SearchParams,
    DISCOVERY_ENTRY_POINT_COUNT,
    OVERSAMPLING_UNIT,
};
use crate::hnsw_build::{build_index, is_built, is_cancellation, live_flags, PayloadBlock};
use crate::point_scorer::PointsScorer;
use crate::sorting::{lemma_ordered_by_score, ordered_by_score};
use crate::types::{CardinalityEstimation, OperationError, PointOffsetType, ScoredPointOffset};

verus! {

/// What is known when an index is opened.
#[derive(Clone, Copy, Debug, PartialEq, Eq, Structural)]
pub struct HnswIndexOpenArgs {
    pub hnsw_config: HnswConfig,
    /// A graph was stored earlier.
    pub graph_exists: bool,
    /// The configuration stored with the graph, if there is one.
    pub stored_config: Option<HnswGraphConfig>,
    pub available_vector_count: usize,
    pub available_size_in_bytes: usize,
    /// Number of processors granted for a build.
    pub permit_cpus: Option<usize>,
    /// Number of processors of the machine.
    pub machine_cpus: usize,
}

/// What opening an index comes to.
#[derive(Clone, Copy, Debug, PartialEq, Eq, Structural)]
pub enum OpenDecision {
    /// The stored graph is loaded and goes with this configuration.
    Load(HnswGraphConfig),
    /// No graph is stored: one is built on so many processors.
    Build { num_cpus: usize },
}

/// A graph index over the vectors of one segment: its configuration, its
/// graph and the count of searches.
#[derive(Debug)]
pub struct HNSWIndex {
    pub config: HnswGraphConfig,
    pub searches_telemetry: HNSWSearchesTelemetry,
    pub graph: GraphLayers,
}

impl HNSWIndex {
    pub open spec fn spec_open(args: HnswIndexOpenArgs) -> OpenDecision {
        if args.graph_exists {
            match args.stored_config {
                Some(config) => OpenDecision::Load(config),
                None => OpenDecision::Load(
                    HnswGraphConfig::spec_new(
                        args.hnsw_config.m,
                        args.hnsw_config.ef_construct,
                        threshold_in_points(
                            args.available_size_in_bytes,
                            args.available_vector_count,
                            args.hnsw_config.full_scan_threshold,
                        ) as usize,
                        args.hnsw_config.max_indexing_threads,
                        args.hnsw_config.payload_m,
                        args.available_vector_count,
                    ),
                ),
            }
        } else {
            OpenDecision::Build {
                num_cpus: match args.permit_cpus {
                    Some(n) => n,
                    None => args.machine_cpus,
                },
            }
        }
    }

    /// A stored graph is loaded, with its stored configuration or, where
    /// that is missing, one reckoned from the vectors at hand. Without a
    /// stored graph one is built, on the processors granted or else on all.
    pub fn open_decision(args: HnswIndexOpenArgs) -> (r: OpenDecision)
        requires
            2 * args.hnsw_config.m <= usize::MAX,
            args.hnsw_config.payload_m matches Some(v) ==> 2 * v <= usize::MAX,
        ensures
            r == Self::spec_open(args),
    {
        if args.graph_exists {
            match args.stored_config {
                Some(config) => OpenDecision::Load(config),
                None => {
                    let full_scan_threshold: usize = full_scan_threshold_in_points(
                        args.available_size_in_bytes,
                        args.available_vector_count,
                        args.hnsw_config.full_scan_threshold,
                    );
                    OpenDecision::Load(
                        HnswGraphConfig::new(
                            args.hnsw_config.m,
                            args.hnsw_config.ef_construct,
                            full_scan_threshold,
                            args.hnsw_config.max_indexing_threads,
                            args.hnsw_config.payload_m,
                            args.available_vector_count,
                        ),
                    )
                },
            }
        } else {
            let num_cpus: usize = match args.permit_cpus {
                Some(n) => n,
                None => args.machine_cpus,
            };
            OpenDecision::Build { num_cpus }
        }
    }

    /// Opens an index. Where a graph was stored, the index is made of it,
    /// once it has been found to be sound, with the configuration that
    /// `open_decision` gives; a stored graph that is missing or not sound is an
    /// error. Where none was stored, the graph is built, and the build is
    /// given up only when the stop flag is found raised.
    pub fn open<S: PointsScorer, F: Fn() -> bool>(
        args: HnswIndexOpenArgs,
        stored: Option<StoredGraph>,
        total_vector_count: usize,
        deleted: &Vec<bool>,
        blocks: &Vec<PayloadBlock>,
        scorer: &S,
        is_stopped: &F,
    ) -> (r: Result<Self, OperationError>)
        requires
            2 * args.hnsw_config.m <= usize::MAX,
            args.hnsw_config.payload_m matches Some(v) ==> 2 * v <= usize::MAX,
            !args.graph_exists ==> {
                &&& total_vector_count <= u32::MAX
                &&& scorer.spec_len() == total_vector_count
                &&& forall|b: int, i: int|
                    0 <= b < blocks@.len() && 0 <= i < blocks@[b].points@.len() ==> (
                    #[trigger] blocks@[b].points@[i]) < total_vector_count
                &&& call_requires(*is_stopped, ())
            },
        ensures
            match Self::spec_open(args) {
                OpenDecision::Load(config) => match r {
                    Ok(index) => stored matches Some(parts) && parts.is_sound() && index.config
                        == config && index.graph.parts() == parts,
                    Err(e) => !(stored matches Some(parts) && parts.is_sound()) && (
                    e matches OperationError::ServiceError { description } && description@
                        == "stored graph is missing or broken"@),
                },
                OpenDecision::Build { num_cpus } => match r {
                    Ok(index) => is_built(
                        index.config,
                        &index.graph,
                        args.hnsw_config,
                        total_vector_count,
                        args.available_size_in_bytes,
                        deleted@,
                        blocks@,
                    ) && (count_true(live_flags(deleted@, total_vector_count as int)) > 0
                        ==> call_ensures(*is_stopped, (), false)),
                    Err(e) => is_cancellation(e) && call_ensures(*is_stopped, (), true),
                },
            },
            r matches Ok(index) ==> index.graph.wf() && index.searches_telemetry
                == HNSWSearchesTelemetry::spec_new(),
    {
        match Self::open_decision(args) {
            OpenDecision::Load(config) => {
                let graph: Option<GraphLayers> = match stored {
                    Some(parts) => GraphLayers::from_parts(parts),
                    None => None,
                };
                match graph {
                    Some(graph) => Ok(Self::new(config, graph)),
                    None => Err(
                        OperationError::ServiceError {
                            description: "stored graph is missing or broken".to_string(),
                        },
                    ),
                }
            },
            OpenDecision::Build { num_cpus: _ } => {
                match build_index(
                    args.hnsw_config,
                    total_vector_count,
                    args.available_size_in_bytes,
                    deleted,
                    blocks,
                    scorer,
                    is_stopped,
                ) {
                    Ok((config, graph)) => Ok(Self::new(config, graph)),
                    Err(e) => Err(e),
                }
            },
        }
    }

    /// An index over a graph, with no search counted.
    pub fn new(config: HnswGraphConfig, graph: GraphLayers) -> (r: Self)
        ensures
            r.config == config,
            r.graph == graph,
            r.searches_telemetry == HNSWSearchesTelemetry::spec_new(),
    {
        HNSWIndex { config, searches_telemetry: HNSWSearchesTelemetry::new(), graph }
    }

    /// Decides how a search goes and counts it. `filter_cardinality` is the
    /// estimate of the filter over the points of the segment, `None` without
    /// a filter. Where the estimates leave the way open, nothing is counted
    /// yet: a sample decides.
    pub fn search_decision(
        &mut self,
        exact: bool,
        filter_cardinality: Option<CardinalityEstimation>,
        available_vector_count: usize,
        available_point_count: usize,
    ) -> (r: SearchDecision)
        ensures
            r == spec_search_decision(
                exact,
                match filter_cardinality {
                    Some(c) => Some(
                        spec_adjust_to_available_vectors(
                            c,
                            available_vector_count,
                            available_point_count,
                        ),
                    ),
                    None => None,
                },
                available_vector_count,
                old(self).config.full_scan_threshold,
            ),
            final(self).config == old(self).config,
            final(self).graph == old(self).graph,
            final(self).searches_telemetry == match r {
                SearchDecision::Run(branch) => old(self).searches_telemetry.spec_record(branch),
                SearchDecision::SampleCheck => old(self).searches_telemetry,
            },
    {
        let threshold: usize = self.config.full_scan_threshold;
        let decision: SearchDecision = match filter_cardinality {
            None => {
                if exact {
                    SearchDecision::Run(SearchBranch::ExactUnfiltered)
                } else if available_vector_count < threshold {
                    SearchDecision::Run(SearchBranch::UnfilteredPlain)
                } else {
                    SearchDecision::Run(SearchBranch::UnfilteredHnsw)
                }
            },
            Some(point_cardinality) => {
                if exact {
                    SearchDecision::Run(SearchBranch::ExactFiltered)
                } else {
                    let cardinality: CardinalityEstimation = adjust_to_available_vectors(
                        point_cardinality,
                        available_vector_count,
                        available_point_count,
                    );
                    if cardinality.max < threshold {
                        SearchDecision::Run(SearchBranch::SmallCardinality)
                    } else if cardinality.min > threshold {
                        SearchDecision::Run(SearchBranch::LargeCardinality)
                    } else {
                        SearchDecision::SampleCheck
                    }
                }
            },
        };
        match decision {
            SearchDecision::Run(branch) => {
                self.searches_telemetry.record(branch);
            },
            SearchDecision::SampleCheck => {},
        }
        decision
    }

    /// Settles a search that the estimates left open, from a sample of the
    /// live points, and counts it: the graph is walked when the sample says
    /// that the filter matches more points than the threshold.
    pub fn search_after_sample(&mut self, sample: &Vec<bool>, available_vector_count: usize) -> (r:
        SearchBranch)
        ensures
            r == if spec_sample_estimate(sample@, available_vector_count) > old(
                self,
            ).config.full_scan_threshold {
                SearchBranch::LargeCardinality
            } else {
                SearchBranch::SmallCardinality
            },
            final(self).config == old(self).config,
            final(self).graph == old(self).graph,
            final(self).searches_telemetry == old(self).searches_telemetry.spec_record(r),
    {
        let branch: SearchBranch = if sample_check_cardinality(
            sample,
            self.config.full_scan_threshold,
            available_vector_count,
        ) {
            SearchBranch::LargeCardinality
        } else {
            SearchBranch::SmallCardinality
        };
        self.searches_telemetry.record(branch);
        branch
    }

    /// Width of the candidate list of a graph walk: what the request says,
    /// else what the graph was configured with.
    pub fn search_ef(&self, params: Option<&SearchParams>) -> (r: usize)
        ensures
            r == spec_search_ef(params_view(params), self.config.ef),
    {
        match params {
            Some(p) => match p.hnsw_ef {
                Some(ef) => ef,
                None => self.config.ef,
            },
            None => self.config.ef,
        }
    }

    /// Number of vectors that the graph covers; where that was not recorded,
    /// the number of points in the graph.
    pub fn indexed_vector_count(&self) -> (r: usize)
        ensures
            r == match self.config.indexed_vector_count {
                Some(n) => n as nat,
                None => self.graph.spec_num_points(),
            },
    {
        match self.config.indexed_vector_count {
            Some(n) => n,
            None => self.graph.num_points(),
        }
    }

    /// How often each way of searching was taken.
    pub fn get_telemetry_data(&self) -> (r: HNSWSearchesTelemetry)
        ensures
            r == self.searches_telemetry,
    {
        self.searches_telemetry
    }
}

/// The points below `upto` that may come out, each with its score, in the
/// order of their offsets.
pub open spec fn scan_upto<S: PointsScorer>(scorer: &S, upto: int) -> Seq<ScoredPointOffset>
    decreases upto,
{
    if upto <= 0 {
        Seq::empty()
    } else {
        let rest = scan_upto(scorer, upto - 1);
        let point = (upto - 1) as PointOffsetType;
        if scorer.spec_check(point) {
            rest.push(ScoredPointOffset { idx: point, score: scorer.spec_score(point) })
        } else {
            rest
        }
    }
}

/// All points that may come out, each with its score.
pub open spec fn scan_all<S: PointsScorer>(scorer: &S) -> Seq<ScoredPointOffset> {
    scan_upto(scorer, scorer.spec_len() as int)
}

/// A scan of the points below `upto` hands out no more than `upto`
/// points, each of them below `upto`.
pub proof fn lemma_scan_bounds<S: PointsScorer>(scorer: &S, upto: int)
    requires
        0 <= upto <= u32::MAX,
    ensures
        scan_upto(scorer, upto).len() <= upto,
        forall|i: int|
            0 <= i < scan_upto(scorer, upto).len() ==> (#[trigger] scan_upto(scorer, upto)[i]).idx
                < upto,
    decreases upto,
{
    if upto > 0 {
        lemma_scan_bounds(scorer, upto - 1);
    }
}

/// A scan hands out every point that may come out.
pub proof fn lemma_scan_holds<S: PointsScorer>(scorer: &S, upto: int, point: PointOffsetType)
    requires
        point < upto <= u32::MAX,
        scorer.spec_check(point),
    ensures
        scan_upto(scorer, upto).contains(
            ScoredPointOffset { idx: point, score: scorer.spec_score(point) },
        ),
    decreases upto,
{
    let item = ScoredPointOffset { idx: point, score: scorer.spec_score(point) };
    let rest = scan_upto(scorer, upto - 1);
    if point < upto - 1 {
        lemma_scan_holds(scorer, upto - 1, point);
        let k = choose|k: int| 0 <= k < rest.len() && rest[k] == item;
        assert(scan_upto(scorer, upto)[k] == item);
    } else {
        assert(scan_upto(scorer, upto) == rest.push(item));
        assert(scan_upto(scorer, upto)[rest.len() as int] == item);
    }
}

/// A scan for the best point finds exactly one where some point may come
/// out, and none where none may.
pub proof fn lemma_scan_for_one<S: PointsScorer>(scorer: &S)
    requires
        scorer.spec_len() <= u32::MAX,
    ensures
        cut_to(ordered_by_score(scan_all(scorer)), 1).len() == if exists|point: PointOffsetType|
            point < scorer.spec_len() && scorer.spec_check(point) {
            1nat
        } else {
            0nat
        },
{
    let all = scan_all(scorer);
    lemma_ordered_by_score(all);
    if exists|point: PointOffsetType| point < scorer.spec_len() && scorer.spec_check(point) {
        let point = choose|point: PointOffsetType|
            point < scorer.spec_len() && scorer.spec_check(point);
        lemma_scan_holds(scorer, scorer.spec_len() as int, point);
    } else if all.len() > 0 {
        lemma_scan_checked(scorer, scorer.spec_len() as int);
        assert(all[0].idx < scorer.spec_len() && scorer.spec_check(all[0].idx));
    }
}

/// A scan hands out points that may come out only, each with its score.
pub proof fn lemma_scan_checked<S: PointsScorer>(scorer: &S, upto: int)
    requires
        0 <= upto <= u32::MAX,
    ensures
        forall|i: int|
            0 <= i < scan_upto(scorer, upto).len() ==> {
                &&& (#[trigger] scan_upto(scorer, upto)[i]).idx < upto
                &&& scorer.spec_check(scan_upto(scorer, upto)[i].idx)
                &&& scan_upto(scorer, upto)[i].score == scorer.spec_score(
                    scan_upto(scorer, upto)[i].idx,
                )
            },
    decreases upto,
{
    if upto > 0 {
        lemma_scan_checked(scorer, upto - 1);
        let rest = scan_upto(scorer, upto - 1);
        let all = scan_upto(scorer, upto);
        assert forall|i: int| 0 <= i < all.len() implies {
            &&& (#[trigger] all[i]).idx < upto
            &&& scorer.spec_check(all[i].idx)
            &&& all[i].score == scorer.spec_score(all[i].idx)
        } by {
            if i < rest.len() {
                assert(all[i] == rest[i]);
            }
        }
    }
}

/// Scores every point that may come out.
pub fn score_all<S: PointsScorer>(scorer: &S) -> (r: Vec<ScoredPointOffset>)
    requires
        scorer.spec_len() <= u32::MAX,
    ensures
        r@ == scan_all(scorer),
{
    let count: usize = scorer.points_count();
    let mut found: Vec<ScoredPointOffset> = Vec::new();
    let mut point: PointOffsetType = 0;
    while (point as usize) < count
        invariant
            point <= count,
            count == scorer.spec_len(),
            count <= u32::MAX,
            found@ == scan_upto(scorer, point as int),
        decreases count - point,
    {
        if scorer.check_point(point) {
            let score = scorer.score_point(point);
            found.push(ScoredPointOffset { idx: point, score });
        }
        point = point + 1;
    }
    found
}

/// The points with the scores that another scorer gives them.
pub open spec fn rescored<R: PointsScorer>(raw: &R, found: Seq<ScoredPointOffset>) -> Seq<
    ScoredPointOffset,
> {
    found.map_values(|p: ScoredPointOffset| ScoredPointOffset { idx: p.idx, score: raw.spec_score(p.idx) })
}

/// Scores the found points again, whether or not they may come out.
pub fn score_points_unfiltered<R: PointsScorer>(raw: &R, found: &Vec<ScoredPointOffset>) -> (r: Vec<
    ScoredPointOffset,
>)
    requires
        forall|i: int| 0 <= i < found@.len() ==> (#[trigger] found@[i]).idx < raw.spec_len(),
    ensures
        r@ == rescored(raw, found@),
{
    let mut out: Vec<ScoredPointOffset> = Vec::new();
    let mut i: usize = 0;
    while i < found.len()
        invariant
            i <= found.len(),
            forall|k: int| 0 <= k < found@.len() ==> (#[trigger] found@[k]).idx < raw.spec_len(),
            out@.len() == i,
            forall|k: int| 0 <= k < i ==> out@[k] == rescored(raw, found@)[k],
        decreases found.len() - i,
    {
        let idx: PointOffsetType = found[i].idx;
        assert(found@[i as int].idx < raw.spec_len());
        let score = raw.score_point(idx);
        out.push(ScoredPointOffset { idx, score });
        i = i + 1;
    }
    assert(out@ =~= rescored(raw, found@));
    out
}

/// What comes of the points that a search found: where they are scored
/// again, they are ordered by their new scores, best first; in both cases
/// they are cut to `top`.
pub open spec fn spec_postprocess<R: PointsScorer>(
    raw: &R,
    found: Seq<ScoredPointOffset>,
    rescore: bool,
    top: usize,
) -> Seq<ScoredPointOffset> {
    if rescore {
        cut_to(ordered_by_score(rescored(raw, found)), top)
    } else {
        cut_to(found, top)
    }
}

/// The request as a plain value.
pub open spec fn params_view(params: Option<&SearchParams>) -> Option<SearchParams> {
    match params {
        Some(p) => Some(*p),
        None => None,
    }
}

/// Width of the candidate list of a graph walk: what the request says,
/// else what the graph was configured with.
pub open spec fn spec_search_ef(params: Option<SearchParams>, configured: usize) -> usize {
    match params {
        Some(p) => match p.hnsw_ef {
            Some(ef) => ef,
            None => configured,
        },
        None => configured,
    }
}

/// What a walk of the graph finds before anything is scored again: the
/// result of the search of the graph by the scorer that the request calls
/// for, for as many points as the oversampling asks.
pub open spec fn graph_found<Q: PointsScorer, R: PointsScorer>(
    graph: &GraphLayers,
    quantized: Option<&Q>,
    raw: &R,
    params: Option<SearchParams>,
    configured_ef: usize,
    top: usize,
    custom: Option<Seq<PointOffsetType>>,
) -> Seq<ScoredPointOffset> {
    let oversampled = spec_oversampled_top(quantized is Some, params, top) as usize;
    let ef = spec_search_ef(params, configured_ef);
    match quantized {
        Some(scorer) => if spec_is_quantized_search(true, params) {
            graph.spec_search(scorer, oversampled, ef, custom)
        } else {
            graph.spec_search(raw, oversampled, ef, custom)
        },
        None => graph.spec_search(raw, oversampled, ef, custom),
    }
}

/// What holds of the points that the walk finds: they are sound for the
/// scorer that was used; none are found where there is no point to set
/// out from; where every point may come out and one is asked for, the
/// best is at least as good as the point from which the walk set out.
pub open spec fn graph_found_sound<Q: PointsScorer, R: PointsScorer>(
    graph: &GraphLayers,
    quantized: Option<&Q>,
    raw: &R,
    params: Option<SearchParams>,
    configured_ef: usize,
    top: usize,
    custom: Option<Seq<PointOffsetType>>,
) -> bool {
    let oversampled = spec_oversampled_top(quantized is Some, params, top) as usize;
    let found = graph_found(graph, quantized, raw, params, configured_ef, top, custom);
    match quantized {
        Some(scorer) => if spec_is_quantized_search(true, params) {
            graph.walk_sound(scorer, custom, oversampled, found)
        } else {
            graph.walk_sound(raw, custom, oversampled, found)
        },
        None => graph.walk_sound(raw, custom, oversampled, found),
    }
}

/// The result of a search that walks the graph: what the walk finds and
/// what comes of it.
pub open spec fn spec_search_with_graph<Q: PointsScorer, R: PointsScorer>(
    graph: &GraphLayers,
    quantized: Option<&Q>,
    raw: &R,
    default_rescoring: bool,
    params: Option<SearchParams>,
    configured_ef: usize,
    top: usize,
    custom: Option<Seq<PointOffsetType>>,
) -> Seq<ScoredPointOffset> {
    spec_postprocess(
        raw,
        graph_found(graph, quantized, raw, params, configured_ef, top, custom),
        spec_needs_rescore(quantized is Some, default_rescoring, params),
        top,
    )
}

/// A search for one point that walks the graph finds exactly one, where
/// the graph has an entry point and every point may come out.
pub proof fn lemma_walk_for_one<Q: PointsScorer, R: PointsScorer>(
    graph: &GraphLayers,
    quantized: Option<&Q>,
    raw: &R,
    default_rescoring: bool,
    params: Option<SearchParams>,
    configured_ef: usize,
    custom: Option<Seq<PointOffsetType>>,
)
    requires
        graph_found_sound(graph, quantized, raw, params, configured_ef, 1, custom),
        graph.spec_entry() is Some,
        forall|p: PointOffsetType| p < graph.spec_num_points() ==> raw.spec_check(p),
        quantized matches Some(scorer) ==> forall|p: PointOffsetType|
            p < graph.spec_num_points() ==> scorer.spec_check(p),
    ensures
        spec_search_with_graph(
            graph,
            quantized,
            raw,
            default_rescoring,
            params,
            configured_ef,
            1,
            custom,
        ).len() == 1,
{
    let wide = spec_oversampled_top(quantized is Some, params, 1);
    assert(wide >= 1) by {
        match spec_quantization(params) {
            Some(q) => match q.oversampling {
                Some(factor) => {
                    if factor > OVERSAMPLING_UNIT {
                        assert(1 * factor / (OVERSAMPLING_UNIT as int) >= 1);
                    }
                },
                None => {},
            },
            None => {},
        }
    }
    let found = graph_found(graph, quantized, raw, params, configured_ef, 1, custom);
    assert(found.len() >= 1);
    let again = rescored(raw, found);
    lemma_ordered_by_score(again);
    assert(again.len() == found.len());
}

/// The result of a scan: the best of all points that may come out, by the
/// scorer that the request calls for, and what comes of them.
pub open spec fn spec_search_plain<Q: PointsScorer, R: PointsScorer>(
    quantized: Option<&Q>,
    raw: &R,
    default_rescoring: bool,
    params: Option<SearchParams>,
    top: usize,
) -> Seq<ScoredPointOffset> {
    let oversampled = spec_oversampled_top(quantized is Some, params, top) as usize;
    let found = match quantized {
        Some(scorer) => if spec_is_quantized_search(true, params) {
            cut_to(ordered_by_score(scan_all(scorer)), oversampled)
        } else {
            cut_to(ordered_by_score(scan_all(raw)), oversampled)
        },
        None => cut_to(ordered_by_score(scan_all(raw)), oversampled),
    };
    spec_postprocess(
        raw,
        found,
        spec_needs_rescore(quantized is Some, default_rescoring, params),
        top,
    )
}

/// A scan with quantization set aside scans the raw vectors and takes the
/// scores as they are.
pub proof fn lemma_exact_search_scans_raw<Q: PointsScorer, R: PointsScorer>(
    quantized: Option<&Q>,
    raw: &R,
    default_rescoring: bool,
    params: Option<SearchParams>,
    top: usize,
)
    requires
        params is Some,
    ensures
        spec_search_plain(quantized, raw, default_rescoring, spec_exact_params(params), top)
            == cut_to(ordered_by_score(scan_all(raw)), top),
{
    let found = cut_to(ordered_by_score(scan_all(raw)), top);
    assert(cut_to(found, top) =~= found);
}

/// The best points of a scan are points of the scorer.
proof fn lemma_scan_members<S: PointsScorer>(scorer: &S, top: usize)
    requires
        scorer.spec_len() <= u32::MAX,
    ensures
        forall|i: int|
            0 <= i < cut_to(ordered_by_score(scan_all(scorer)), top).len() ==> (#[trigger] cut_to(
                ordered_by_score(scan_all(scorer)),
                top,
            )[i]).idx < scorer.spec_len(),
{
    let all = scan_all(scorer);
    let ordered = ordered_by_score(all);
    let cut = cut_to(ordered, top);
    lemma_ordered_by_score(all);
    lemma_scan_bounds(scorer, scorer.spec_len() as int);
    assert forall|i: int| 0 <= i < cut.len() implies (#[trigger] cut[i]).idx < scorer.spec_len() by {
        assert(cut[i] == ordered[i]);
        assert(ordered.contains(ordered[i]));
        vstd::seq_lib::to_multiset_contains(ordered, ordered[i]);
        vstd::seq_lib::to_multiset_contains(all, ordered[i]);
        let k = choose|k: int| 0 <= k < all.len() && all[k] == ordered[i];
        assert(all[k].idx < scorer.spec_len());
    }
}

/// The flags of a sample: which of the sampled points may come out.
pub open spec fn sample_flags<S: PointsScorer>(scorer: &S, sample: Seq<PointOffsetType>) -> Seq<bool> {
    sample.map_values(|p: PointOffsetType| p < scorer.spec_len() && scorer.spec_check(p))
}

/// The way a search goes: as the estimates say or, where they leave it
/// open, as the sample says.
pub open spec fn spec_branch<R: PointsScorer>(
    full_scan_threshold: usize,
    exact: bool,
    filter_cardinality: Option<CardinalityEstimation>,
    raw: &R,
    sample: Seq<PointOffsetType>,
    available_vector_count: usize,
    available_point_count: usize,
) -> SearchBranch {
    match spec_search_decision(
        exact,
        match filter_cardinality {
            Some(c) => Some(
                spec_adjust_to_available_vectors(c, available_vector_count, available_point_count),
            ),
            None => None,
        },
        available_vector_count,
        full_scan_threshold,
    ) {
        SearchDecision::Run(branch) => branch,
        SearchDecision::SampleCheck => if spec_sample_estimate(
            sample_flags(raw, sample),
            available_vector_count,
        ) > full_scan_threshold {
            SearchBranch::LargeCardinality
        } else {
            SearchBranch::SmallCardinality
        },
    }
}

/// The request asks for an exact search.
pub open spec fn spec_exact(params: Option<SearchParams>) -> bool {
    match params {
        Some(p) => p.exact,
        None => false,
    }
}

impl HNSWIndex {
    /// The index and the scorers speak of the same points.
    pub open spec fn fits<Q: PointsScorer, R: PointsScorer>(&self, quantized: Option<&Q>, raw: &R) -> bool {
        &&& self.graph.wf()
        &&& raw.spec_len() == self.graph.spec_num_points()
        &&& quantized matches Some(scorer) ==> scorer.spec_len() == self.graph.spec_num_points()
    }

    /// The points from which a discovery search sets out: those that the
    /// context search finds.
    pub open spec fn spec_discovery_entries<CQ: PointsScorer, CR: PointsScorer>(
        &self,
        context_quantized: Option<&CQ>,
        context_raw: &CR,
        default_rescoring: bool,
        params: Option<SearchParams>,
    ) -> Seq<PointOffsetType> {
        offsets_of(
            spec_search_with_graph(
                &self.graph,
                context_quantized,
                context_raw,
                default_rescoring,
                params,
                self.config.ef,
                DISCOVERY_ENTRY_POINT_COUNT,
                None,
            ),
        )
    }

    /// Walks the graph for the points nearest to the query. Where quantized
    /// vectors are searched, more candidates than `top` may be asked for,
    /// and they may be scored again on the raw vectors.
    pub fn search_with_graph<Q: PointsScorer, R: PointsScorer>(
        &self,
        quantized: Option<&Q>,
        raw: &R,
        default_rescoring: bool,
        top: usize,
        params: Option<&SearchParams>,
        custom_entry_points: Option<&Vec<PointOffsetType>>,
    ) -> (r: Vec<ScoredPointOffset>)
        requires
            self.fits(quantized, raw),
        ensures
            r@ == spec_search_with_graph(
                &self.graph,
                quantized,
                raw,
                default_rescoring,
                params_view(params),
                self.config.ef,
                top,
                entries_view(custom_entry_points),
            ),
            graph_found_sound(
                &self.graph,
                quantized,
                raw,
                params_view(params),
                self.config.ef,
                top,
                entries_view(custom_entry_points),
            ),
    {
        let ef: usize = self.search_ef(params);
        let has_quantized: bool = quantized.is_some();
        let oversampled_top: usize = get_oversampled_top(has_quantized, params, top);
        let search_result: Vec<ScoredPointOffset> = match quantized {
            Some(scorer) => {
                if is_quantized_search(true, params) {
                    self.graph.search(oversampled_top, ef, scorer, custom_entry_points)
                } else {
                    self.graph.search(oversampled_top, ef, raw, custom_entry_points)
                }
            },
            None => self.graph.search(oversampled_top, ef, raw, custom_entry_points),
        };
        let ghost found = search_result@;
        let rescored_points: Option<Vec<ScoredPointOffset>> = if needs_rescore(
            has_quantized,
            default_rescoring,
            params,
        ) {
            Some(score_points_unfiltered(raw, &search_result))
        } else {
            None
        };
        let result: Vec<ScoredPointOffset> = postprocess_search_result(
            search_result,
            rescored_points,
            top,
        );
        result
    }

    /// Scans all points that may come out for those nearest to the query.
    pub fn search_plain<Q: PointsScorer, R: PointsScorer>(
        &self,
        quantized: Option<&Q>,
        raw: &R,
        default_rescoring: bool,
        top: usize,
        params: Option<&SearchParams>,
    ) -> (r: Vec<ScoredPointOffset>)
        requires
            self.fits(quantized, raw),
        ensures
            r@ == spec_search_plain(quantized, raw, default_rescoring, params_view(params), top),
    {
        let has_quantized: bool = quantized.is_some();
        let oversampled_top: usize = get_oversampled_top(has_quantized, params, top);
        let search_result: Vec<ScoredPointOffset> = match quantized {
            Some(scorer) => {
                if is_quantized_search(true, params) {
                    proof {
                        lemma_scan_members(scorer, oversampled_top);
                    }
                    search_plain(score_all(scorer), oversampled_top)
                } else {
                    proof {
                        lemma_scan_members(raw, oversampled_top);
                    }
                    search_plain(score_all(raw), oversampled_top)
                }
            },
            None => {
                proof {
                    lemma_scan_members(raw, oversampled_top);
                }
                search_plain(score_all(raw), oversampled_top)
            },
        };
        let rescored_points: Option<Vec<ScoredPointOffset>> = if needs_rescore(
            has_quantized,
            default_rescoring,
            params,
        ) {
            Some(score_points_unfiltered(raw, &search_result))
        } else {
            None
        };
        postprocess_search_result(search_result, rescored_points, top)
    }

    /// A discovery search: a context search picks the points from which
    /// the walk for the discovery query sets out.
    pub fn discovery_search_with_graph<CQ: PointsScorer, CR: PointsScorer, Q: PointsScorer, R: PointsScorer>(
        &self,
        context_quantized: Option<&CQ>,
        context_raw: &CR,
        quantized: Option<&Q>,
        raw: &R,
        default_rescoring: bool,
        top: usize,
        params: Option<&SearchParams>,
    ) -> (r: Vec<ScoredPointOffset>)
        requires
            self.fits(context_quantized, context_raw),
            self.fits(quantized, raw),
        ensures
            r@ == spec_search_with_graph(
                &self.graph,
                quantized,
                raw,
                default_rescoring,
                params_view(params),
                self.config.ef,
                top,
                Some(self.spec_discovery_entries(
                    context_quantized,
                    context_raw,
                    default_rescoring,
                    params_view(params),
                )),
            ),
            graph_found_sound(
                &self.graph,
                quantized,
                raw,
                params_view(params),
                self.config.ef,
                top,
                Some(self.spec_discovery_entries(
                    context_quantized,
                    context_raw,
                    default_rescoring,
                    params_view(params),
                )),
            ),
    {
        let context_result: Vec<ScoredPointOffset> = self.search_with_graph(
            context_quantized,
            context_raw,
            default_rescoring,
            DISCOVERY_ENTRY_POINT_COUNT,
            params,
            None,
        );
        let custom_entry_points: Vec<PointOffsetType> = discovery_entry_points(&context_result);
        self.search_with_graph(
            quantized,
            raw,
            default_rescoring,
            top,
            params,
            Some(&custom_entry_points),
        )
    }

    /// Searches for the points nearest to a query. The search scans the
    /// points or walks the graph, as the estimates of the filter and, where
    /// they leave it open, a sample of the points say; the way taken is
    /// counted. An exact search and a search without a filter over few
    /// points scan the raw vectors.
    pub fn search<Q: PointsScorer, R: PointsScorer>(
        &mut self,
        quantized: Option<&Q>,
        raw: &R,
        default_rescoring: bool,
        filter_cardinality: Option<CardinalityEstimation>,
        sample: &Vec<PointOffsetType>,
        top: usize,
        params: Option<&SearchParams>,
        available_vector_count: usize,
        available_point_count: usize,
    ) -> (r: Vec<ScoredPointOffset>)
        requires
            old(self).fits(quantized, raw),
        ensures
            final(self).config == old(self).config,
            final(self).graph == old(self).graph,
            final(self).searches_telemetry == old(self).searches_telemetry.spec_record(
                spec_branch(
                    old(self).config.full_scan_threshold,
                    spec_exact(params_view(params)),
                    filter_cardinality,
                    raw,
                    sample@,
                    available_vector_count,
                    available_point_count,
                ),
            ),
            match spec_branch(
                old(self).config.full_scan_threshold,
                spec_exact(params_view(params)),
                filter_cardinality,
                raw,
                sample@,
                available_vector_count,
                available_point_count,
            ) {
                SearchBranch::ExactUnfiltered => r@ == cut_to(ordered_by_score(scan_all(raw)), top),
                SearchBranch::UnfilteredPlain => r@ == cut_to(ordered_by_score(scan_all(raw)), top),
                SearchBranch::ExactFiltered => r@ == cut_to(ordered_by_score(scan_all(raw)), top),
                SearchBranch::SmallCardinality => r@ == spec_search_plain(
                    quantized,
                    raw,
                    default_rescoring,
                    params_view(params),
                    top,
                ),
                SearchBranch::UnfilteredHnsw => r@ == spec_search_with_graph(
                    &old(self).graph,
                    quantized,
                    raw,
                    default_rescoring,
                    params_view(params),
                    old(self).config.ef,
                    top,
                    None,
                ) && graph_found_sound(
                    &old(self).graph,
                    quantized,
                    raw,
                    params_view(params),
                    old(self).config.ef,
                    top,
                    None,
                ),
                SearchBranch::LargeCardinality => r@ == spec_search_with_graph(
                    &old(self).graph,
                    quantized,
                    raw,
                    default_rescoring,
                    params_view(params),
                    old(self).config.ef,
                    top,
                    None,
                ) && graph_found_sound(
                    &old(self).graph,
                    quantized,
                    raw,
                    params_view(params),
                    old(self).config.ef,
                    top,
                    None,
                ),
            },
    {
        let exact: bool = match params {
            Some(p) => p.exact,
            None => false,
        };
        let branch: SearchBranch = match self.search_decision(
            exact,
            filter_cardinality,
            available_vector_count,
            available_point_count,
        ) {
            SearchDecision::Run(branch) => branch,
            SearchDecision::SampleCheck => {
                let flags: Vec<bool> = check_sample(raw, sample);
                self.search_after_sample(&flags, available_vector_count)
            },
        };
        match branch {
            SearchBranch::ExactUnfiltered => search_plain(score_all(raw), top),
            SearchBranch::UnfilteredPlain => search_plain(score_all(raw), top),
            SearchBranch::ExactFiltered => {
                let exact_params: Option<SearchParams> = exact_search_params(params);
                proof {
                    lemma_exact_search_scans_raw(
                        quantized,
                        raw,
                        default_rescoring,
                        params_view(params),
                        top,
                    );
                }
                match &exact_params {
                    Some(p) => self.search_plain(quantized, raw, default_rescoring, top, Some(p)),
                    None => self.search_plain(quantized, raw, default_rescoring, top, None),
                }
            },
            SearchBranch::SmallCardinality => self.search_plain(
                quantized,
                raw,
                default_rescoring,
                top,
                params,
            ),
            SearchBranch::UnfilteredHnsw => self.search_with_graph(
                quantized,
                raw,
                default_rescoring,
                top,
                params,
                None,
            ),
            SearchBranch::LargeCardinality => self.search_with_graph(
                quantized,
                raw,
                default_rescoring,
                top,
                params,
                None,
            ),
        }
    }
}

/// Which of the sampled points may come out.
fn check_sample<S: PointsScorer>(scorer: &S, sample: &Vec<PointOffsetType>) -> (r: Vec<bool>)
    ensures
        r@ == sample_flags(scorer, sample@),
{
    let count: usize = scorer.points_count();
    let mut flags: Vec<bool> = Vec::new();
    let mut i: usize = 0;
    while i < sample.len()
        invariant
            i <= sample.len(),
            count == scorer.spec_len(),
            flags@.len() == i,
            forall|k: int| 0 <= k < i ==> flags@[k] == sample_flags(scorer, sample@)[k],
        decreases sample.len() - i,
    {
        let point: PointOffsetType = sample[i];
        let passes: bool = (point as usize) < count && scorer.check_point(point);
        flags.push(passes);
        i = i + 1;
    }
    assert(flags@ =~= sample_flags(scorer, sample@));
    flags
}

} // verus!

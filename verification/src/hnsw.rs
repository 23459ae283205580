use vstd::prelude::*;
use crate::types::{CardinalityEstimation, PointOffsetType, ScoredPointOffset};
use crate::sorting::{ordered_by_score, sort_by_score_descending};

verus! {

pub const BYTES_IN_KB: usize = 1024;

/// So many points are linked into a graph one after the other before the
/// rest may be linked side by side: a graph grown side by side from nothing
/// falls apart into components.
pub const SINGLE_THREADED_HNSW_BUILD_THRESHOLD: usize = 256;

/// Number of entry points that a discovery search picks by a context search.
pub const DISCOVERY_ENTRY_POINT_COUNT: usize = 10;

/// A block of points larger than the expected percolation limit times this
/// factor gets no graph of its own.
pub const PERCOLATION_MULTIPLIER: usize = 4;

/// One is written as this oversampling factor.
pub const OVERSAMPLING_UNIT: u32 = 1000;

/// What a collection asks of its graph indices.
#[derive(Clone, Copy, Debug, PartialEq, Eq, Structural)]
pub struct HnswConfig {
    /// Number of edges per node above the ground layer.
    pub m: usize,
    /// Number of candidates kept while a point is linked.
    pub ef_construct: usize,
    /// Below this size of the vectors, in kilobytes, a full scan is preferred.
    pub full_scan_threshold: usize,
    pub max_indexing_threads: usize,
    /// Number of edges per node in the graphs of payload blocks.
    pub payload_m: Option<usize>,
}

/// What one built graph was made with.
#[derive(Clone, Copy, Debug, PartialEq, Eq, Structural)]
pub struct HnswGraphConfig {
    pub m: usize,
    /// Number of edges per node on the ground layer.
    pub m0: usize,
    pub ef_construct: usize,
    /// Number of candidates kept while searching, unless a request says otherwise.
    pub ef: usize,
    /// Below this number of points a full scan is preferred.
    pub full_scan_threshold: usize,
    pub max_indexing_threads: usize,
    pub payload_m: Option<usize>,
    pub payload_m0: Option<usize>,
    pub indexed_vector_count: Option<usize>,
}

impl HnswGraphConfig {
    pub open spec fn spec_new(
        m: usize,
        ef_construct: usize,
        full_scan_threshold: usize,
        max_indexing_threads: usize,
        payload_m: Option<usize>,
        indexed_vector_count: usize,
    ) -> HnswGraphConfig {
        HnswGraphConfig {
            m,
            m0: (2 * m) as usize,
            ef_construct,
            ef: ef_construct,
            full_scan_threshold,
            max_indexing_threads,
            payload_m,
            payload_m0: match payload_m {
                Some(v) => Some((2 * v) as usize),
                None => None,
            },
            indexed_vector_count: Some(indexed_vector_count),
        }
    }

    /// The ground layer holds twice as many edges per node as the layers above.
    pub fn new(
        m: usize,
        ef_construct: usize,
        full_scan_threshold: usize,
        max_indexing_threads: usize,
        payload_m: Option<usize>,
        indexed_vector_count: usize,
    ) -> (r: Self)
        requires
            2 * m <= usize::MAX,
            payload_m matches Some(v) ==> 2 * v <= usize::MAX,
        ensures
            r == Self::spec_new(
                m,
                ef_construct,
                full_scan_threshold,
                max_indexing_threads,
                payload_m,
                indexed_vector_count,
            ),
    {
        HnswGraphConfig {
            m,
            m0: m * 2,
            ef_construct,
            ef: ef_construct,
            full_scan_threshold,
            max_indexing_threads,
            payload_m,
            payload_m0: match payload_m {
                Some(v) => Some(v * 2),
                None => None,
            },
            indexed_vector_count: Some(indexed_vector_count),
        }
    }
}

/// Number of points below which a full scan is preferred: the threshold in
/// kilobytes over the mean size of a vector.
pub open spec fn threshold_in_points(
    size_in_bytes: usize,
    vector_count: usize,
    threshold_kb: usize,
) -> int {
    if vector_count == 0 {
        1
    } else if size_in_bytes / vector_count == 0 {
        1
    } else if threshold_kb * BYTES_IN_KB > usize::MAX {
        (usize::MAX as int) / (size_in_bytes as int / vector_count as int)
    } else {
        (threshold_kb * BYTES_IN_KB) / (size_in_bytes as int / vector_count as int)
    }
}

/// Number of points below which a full scan is preferred.
pub fn full_scan_threshold_in_points(
    size_in_bytes: usize,
    vector_count: usize,
    threshold_kb: usize,
) -> (r: usize)
    ensures
        r == threshold_in_points(size_in_bytes, vector_count, threshold_kb),
{
    if vector_count == 0 {
        return 1;
    }
    let avg_vector_size: usize = size_in_bytes / vector_count;
    if avg_vector_size == 0 {
        return 1;
    }
    let threshold_bytes: usize = match threshold_kb.checked_mul(BYTES_IN_KB) {
        Some(v) => v,
        None => usize::MAX,
    };
    threshold_bytes / avg_vector_size
}

/// What a request may say of quantized vectors.
#[derive(Clone, Copy, Debug, PartialEq, Eq, Structural)]
pub struct QuantizationSearchParams {
    /// Search the raw vectors although quantized ones exist.
    pub ignore: bool,
    /// Score the candidates again on the raw vectors.
    pub rescore: Option<bool>,
    /// How many times more candidates to fetch before scoring again, in
    /// thousandths.
    pub oversampling: Option<u32>,
}

#[derive(Clone, Copy, Debug, PartialEq, Eq, Structural)]
pub struct SearchParams {
    pub hnsw_ef: Option<usize>,
    pub exact: bool,
    pub quantization: Option<QuantizationSearchParams>,
    pub indexed_only: bool,
}

pub open spec fn spec_quantization(params: Option<SearchParams>) -> Option<QuantizationSearchParams> {
    match params {
        Some(p) => p.quantization,
        None => None,
    }
}

pub open spec fn spec_is_quantized_search(has_quantized: bool, params: Option<SearchParams>) -> bool {
    has_quantized && !(spec_quantization(params) matches Some(q) && q.ignore)
}

/// Quantized vectors are searched when they exist and the request does not
/// set them aside.
pub fn is_quantized_search(has_quantized: bool, params: Option<&SearchParams>) -> (r: bool)
    ensures
        r == spec_is_quantized_search(
            has_quantized,
            match params {
                Some(p) => Some(*p),
                None => None,
            },
        ),
{
    let ignore_quantization: bool = match params {
        Some(p) => match p.quantization {
            Some(q) => q.ignore,
            None => false,
        },
        None => false,
    };
    has_quantized && !ignore_quantization
}

pub open spec fn spec_oversampled_top(
    has_quantized: bool,
    params: Option<SearchParams>,
    top: usize,
) -> int {
    match spec_quantization(params) {
        Some(q) => match q.oversampling {
            Some(factor) => if spec_is_quantized_search(has_quantized, params) && factor
                > OVERSAMPLING_UNIT {
                if top * factor / (OVERSAMPLING_UNIT as int) > usize::MAX {
                    usize::MAX as int
                } else {
                    top * factor / (OVERSAMPLING_UNIT as int)
                }
            } else {
                top as int
            },
            None => top as int,
        },
        None => top as int,
    }
}

/// Number of candidates to fetch: `top` times the oversampling factor where
/// quantized vectors are searched and the factor is above one, else `top`.
pub fn get_oversampled_top(has_quantized: bool, params: Option<&SearchParams>, top: usize) -> (r:
    usize)
    ensures
        r == spec_oversampled_top(
            has_quantized,
            match params {
                Some(p) => Some(*p),
                None => None,
            },
            top,
        ),
        r >= top,
{
    let quantization_enabled: bool = is_quantized_search(has_quantized, params);
    let oversampling_value: Option<u32> = match params {
        Some(p) => match p.quantization {
            Some(q) => q.oversampling,
            None => None,
        },
        None => None,
    };
    match oversampling_value {
        Some(factor) => {
            if quantization_enabled && factor > OVERSAMPLING_UNIT {
                assert(0 <= (top as int) * (factor as int) <= 0xffff_ffff_ffff_ffff_ffff_ffff)
                    by (nonlinear_arith)
                    requires
                        0 <= top <= 0xffff_ffff_ffff_ffff,
                        0 <= factor <= 0xffff_ffff,
                ;
                let wide: u128 = (top as u128) * (factor as u128) / (OVERSAMPLING_UNIT as u128);
                assert(wide >= top) by (nonlinear_arith)
                    requires
                        wide == (top as int) * (factor as int) / 1000,
                        factor > 1000,
                        top >= 0,
                ;
                if wide > usize::MAX as u128 {
                    usize::MAX
                } else {
                    wide as usize
                }
            } else {
                top
            }
        },
        None => top,
    }
}

pub open spec fn spec_needs_rescore(
    has_quantized: bool,
    default_rescoring: bool,
    params: Option<SearchParams>,
) -> bool {
    spec_is_quantized_search(has_quantized, params) && match spec_quantization(params) {
        Some(q) => match q.rescore {
            Some(r) => r,
            None => has_quantized && default_rescoring,
        },
        None => has_quantized && default_rescoring,
    }
}

/// The candidates of a quantized search are scored again on the raw vectors
/// when the request asks for it, or, where it says nothing, when the
/// quantization does so by default.
pub fn needs_rescore(
    has_quantized: bool,
    default_rescoring: bool,
    params: Option<&SearchParams>,
) -> (r: bool)
    ensures
        r == spec_needs_rescore(
            has_quantized,
            default_rescoring,
            match params {
                Some(p) => Some(*p),
                None => None,
            },
        ),
{
    let quantization_enabled: bool = is_quantized_search(has_quantized, params);
    let default_rescoring: bool = has_quantized && default_rescoring;
    let requested: bool = match params {
        Some(p) => match p.quantization {
            Some(q) => match q.rescore {
                Some(r) => r,
                None => default_rescoring,
            },
            None => default_rescoring,
        },
        None => default_rescoring,
    };
    quantization_enabled && requested
}

/// The first `top` elements of `s`, or all of them where there are fewer.
pub open spec fn cut_to<T>(s: Seq<T>, top: usize) -> Seq<T> {
    if top <= s.len() {
        s.take(top as int)
    } else {
        s
    }
}

/// The result of a search: the candidates as found or, where they were
/// scored again, ordered by their new scores, best first; in both cases cut
/// to `top`.
pub fn postprocess_search_result(
    search_result: Vec<ScoredPointOffset>,
    rescored: Option<Vec<ScoredPointOffset>>,
    top: usize,
) -> (r: Vec<ScoredPointOffset>)
    ensures
        r@ == match rescored {
            Some(scored) => cut_to(ordered_by_score(scored@), top),
            None => cut_to(search_result@, top),
        },
{
    match rescored {
        Some(scored) => {
            let mut sorted: Vec<ScoredPointOffset> = sort_by_score_descending(scored);
            sorted.truncate(top);
            sorted
        },
        None => {
            let mut result: Vec<ScoredPointOffset> = search_result;
            result.truncate(top);
            result
        },
    }
}

/// The ways a search can go.
#[derive(Clone, Copy, Debug, PartialEq, Eq, Structural)]
pub enum SearchBranch {
    /// Exact search without a filter: a scan of all points.
    ExactUnfiltered,
    /// No filter and few points: a scan of all points.
    UnfilteredPlain,
    /// No filter: a walk of the graph.
    UnfilteredHnsw,
    /// Exact search with a filter: a scan of the matching points on raw vectors.
    ExactFiltered,
    /// The filter matches few points: a scan of the matching points.
    SmallCardinality,
    /// The filter matches many points: a walk of the graph under the filter.
    LargeCardinality,
}

impl SearchBranch {
    pub open spec fn spec_uses_graph(self) -> bool {
        self == SearchBranch::UnfilteredHnsw || self == SearchBranch::LargeCardinality
    }

    /// True when the search walks the graph, false when it scans points.
    pub fn uses_graph(&self) -> (r: bool)
        ensures
            r == self.spec_uses_graph(),
    {
        match self {
            SearchBranch::UnfilteredHnsw => true,
            SearchBranch::LargeCardinality => true,
            _ => false,
        }
    }
}

/// What the estimates alone say of a search.
#[derive(Clone, Copy, Debug, PartialEq, Eq, Structural)]
pub enum SearchDecision {
    Run(SearchBranch),
    /// The estimates leave it open: a sample of the points decides.
    SampleCheck,
}

/// The estimate of a filter over the points of a segment, brought down to
/// the points that have a vector.
pub open spec fn spec_adjust_to_available_vectors(
    estimation: CardinalityEstimation,
    available_vectors: usize,
    available_points: usize,
) -> CardinalityEstimation {
    if available_points == 0 || available_vectors == 0 {
        CardinalityEstimation { min: 0, exp: 0, max: 0 }
    } else {
        let missing = if available_points >= available_vectors {
            available_points - available_vectors
        } else {
            0
        };
        let most = if available_vectors <= available_points {
            available_vectors
        } else {
            available_points
        };
        CardinalityEstimation {
            min: if estimation.min >= missing {
                (estimation.min - missing) as usize
            } else {
                0
            },
            exp: if available_vectors >= available_points {
                estimation.exp
            } else {
                ((estimation.exp * available_vectors + available_points / 2)
                    / (available_points as int)) as usize
            },
            max: if estimation.max <= most {
                estimation.max
            } else {
                most
            },
        }
    }
}

/// In the worst case every point without a vector matches the filter, in
/// the best case none does; the expected count shrinks by the share of
/// points that have a vector, rounded to the nearest whole.
pub fn adjust_to_available_vectors(
    estimation: CardinalityEstimation,
    available_vectors: usize,
    available_points: usize,
) -> (r: CardinalityEstimation)
    ensures
        r == spec_adjust_to_available_vectors(estimation, available_vectors, available_points),
{
    if available_points == 0 || available_vectors == 0 {
        return CardinalityEstimation { min: 0, exp: 0, max: 0 };
    }
    let missing: usize = if available_points >= available_vectors {
        available_points - available_vectors
    } else {
        0
    };
    let most: usize = if available_vectors <= available_points {
        available_vectors
    } else {
        available_points
    };
    let min: usize = if estimation.min >= missing {
        estimation.min - missing
    } else {
        0
    };
    let max: usize = if estimation.max <= most {
        estimation.max
    } else {
        most
    };
    let exp: usize = if available_vectors >= available_points {
        estimation.exp
    } else {
        let e: u128 = estimation.exp as u128;
        let v: u128 = available_vectors as u128;
        let p: u128 = available_points as u128;
        assert(0 <= e * v <= 0xffff_ffff_ffff_ffff * 0xffff_ffff_ffff_ffff) by (nonlinear_arith)
            requires
                0 <= e <= 0xffff_ffff_ffff_ffff,
                0 <= v <= 0xffff_ffff_ffff_ffff,
        ;
        assert((e * v + p / 2) / (p as int) <= e) by (nonlinear_arith)
            requires
                0 <= e,
                0 <= v < p,
        ;
        let rounded: u128 = (e * v + p / 2) / p;
        rounded as usize
    };
    CardinalityEstimation { min, exp, max }
}

/// How a search should go, as far as the estimates say.
pub open spec fn spec_search_decision(
    exact: bool,
    filter_cardinality: Option<CardinalityEstimation>,
    available_vector_count: usize,
    full_scan_threshold: usize,
) -> SearchDecision {
    match filter_cardinality {
        None => if exact {
            SearchDecision::Run(SearchBranch::ExactUnfiltered)
        } else if available_vector_count < full_scan_threshold {
            SearchDecision::Run(SearchBranch::UnfilteredPlain)
        } else {
            SearchDecision::Run(SearchBranch::UnfilteredHnsw)
        },
        Some(cardinality) => if exact {
            SearchDecision::Run(SearchBranch::ExactFiltered)
        } else if cardinality.max < full_scan_threshold {
            SearchDecision::Run(SearchBranch::SmallCardinality)
        } else if cardinality.min > full_scan_threshold {
            SearchDecision::Run(SearchBranch::LargeCardinality)
        } else {
            SearchDecision::SampleCheck
        },
    }
}

/// At most this many points of a sample are looked at.
pub const MAX_ESTIMATED_POINTS: usize = 1000;

/// Number of entries of `s` that are true.
pub open spec fn count_true(s: Seq<bool>) -> nat
    decreases s.len(),
{
    if s.len() == 0 {
        0
    } else {
        count_true(s.drop_last()) + if s.last() {
            1nat
        } else {
            0nat
        }
    }
}

/// The part of a sample that is looked at.
pub open spec fn sample_prefix(sample: Seq<bool>) -> Seq<bool> {
    if sample.len() <= MAX_ESTIMATED_POINTS {
        sample
    } else {
        sample.take(MAX_ESTIMATED_POINTS as int)
    }
}

/// Number of matching points among `total_points`, reckoned from the share
/// of the sample that matches.
pub open spec fn spec_sample_estimate(sample: Seq<bool>, total_points: usize) -> int {
    if sample_prefix(sample).len() == 0 {
        0
    } else {
        count_true(sample_prefix(sample)) * total_points / (sample_prefix(sample).len() as int)
    }
}

/// Decides from a sample of live points whether a filter matches more than
/// `threshold` of the `total_points`: `sample[i]` says whether the i-th
/// sampled point matches.
pub fn sample_check_cardinality(sample: &Vec<bool>, threshold: usize, total_points: usize) -> (r:
    bool)
    ensures
        r == (spec_sample_estimate(sample@, total_points) > threshold),
{
    let checked: usize = if sample.len() <= MAX_ESTIMATED_POINTS {
        sample.len()
    } else {
        MAX_ESTIMATED_POINTS
    };
    let ghost prefix = sample_prefix(sample@);
    let mut matched: usize = 0;
    let mut i: usize = 0;
    proof {
        assert(prefix.take(0) =~= Seq::<bool>::empty());
    }
    while i < checked
        invariant
            i <= checked,
            checked == prefix.len(),
            checked <= sample.len(),
            prefix == sample_prefix(sample@),
            matched == count_true(prefix.take(i as int)),
            matched <= i,
        decreases checked - i,
    {
        proof {
            assert(prefix.take(i as int + 1).drop_last() =~= prefix.take(i as int));
            assert(prefix.take(i as int + 1).last() == sample@[i as int]);
        }
        if sample[i] {
            matched = matched + 1;
        }
        i = i + 1;
    }
    proof {
        assert(prefix.take(checked as int) =~= prefix);
    }
    if checked == 0 {
        return false;
    }
    assert(0 <= (matched as int) * (total_points as int) <= 0xffff_ffff_ffff_ffff_ffff_ffff_ffff_ffff)
        by (nonlinear_arith)
        requires
            0 <= matched <= 1000,
            0 <= total_points <= 0xffff_ffff_ffff_ffff,
    ;
    let estimate: u128 = (matched as u128) * (total_points as u128) / (checked as u128);
    estimate > threshold as u128
}

/// How often each way of searching was taken.
#[derive(Clone, Copy, Debug, PartialEq, Eq, Structural)]
pub struct HNSWSearchesTelemetry {
    pub unfiltered_plain: u64,
    pub unfiltered_hnsw: u64,
    pub small_cardinality: u64,
    pub large_cardinality: u64,
    pub exact_filtered: u64,
    pub exact_unfiltered: u64,
}

pub open spec fn bump(count: u64) -> u64 {
    if count < u64::MAX {
        (count + 1) as u64
    } else {
        count
    }
}

fn bumped(count: u64) -> (r: u64)
    ensures
        r == bump(count),
{
    if count < u64::MAX {
        count + 1
    } else {
        count
    }
}

impl HNSWSearchesTelemetry {
    pub open spec fn spec_new() -> Self {
        HNSWSearchesTelemetry {
            unfiltered_plain: 0,
            unfiltered_hnsw: 0,
            small_cardinality: 0,
            large_cardinality: 0,
            exact_filtered: 0,
            exact_unfiltered: 0,
        }
    }

    pub fn new() -> (r: Self)
        ensures
            r == Self::spec_new(),
    {
        HNSWSearchesTelemetry {
            unfiltered_plain: 0,
            unfiltered_hnsw: 0,
            small_cardinality: 0,
            large_cardinality: 0,
            exact_filtered: 0,
            exact_unfiltered: 0,
        }
    }

    pub open spec fn spec_record(self, branch: SearchBranch) -> Self {
        match branch {
            SearchBranch::ExactUnfiltered => HNSWSearchesTelemetry {
                exact_unfiltered: bump(self.exact_unfiltered),
                ..self
            },
            SearchBranch::UnfilteredPlain => HNSWSearchesTelemetry {
                unfiltered_plain: bump(self.unfiltered_plain),
                ..self
            },
            SearchBranch::UnfilteredHnsw => HNSWSearchesTelemetry {
                unfiltered_hnsw: bump(self.unfiltered_hnsw),
                ..self
            },
            SearchBranch::ExactFiltered => HNSWSearchesTelemetry {
                exact_filtered: bump(self.exact_filtered),
                ..self
            },
            SearchBranch::SmallCardinality => HNSWSearchesTelemetry {
                small_cardinality: bump(self.small_cardinality),
                ..self
            },
            SearchBranch::LargeCardinality => HNSWSearchesTelemetry {
                large_cardinality: bump(self.large_cardinality),
                ..self
            },
        }
    }

    /// Counts one search that went the given way.
    pub fn record(&mut self, branch: SearchBranch)
        ensures
            *final(self) == old(self).spec_record(branch),
    {
        match branch {
            SearchBranch::ExactUnfiltered => {
                self.exact_unfiltered = bumped(self.exact_unfiltered);
            },
            SearchBranch::UnfilteredPlain => {
                self.unfiltered_plain = bumped(self.unfiltered_plain);
            },
            SearchBranch::UnfilteredHnsw => {
                self.unfiltered_hnsw = bumped(self.unfiltered_hnsw);
            },
            SearchBranch::ExactFiltered => {
                self.exact_filtered = bumped(self.exact_filtered);
            },
            SearchBranch::SmallCardinality => {
                self.small_cardinality = bumped(self.small_cardinality);
            },
            SearchBranch::LargeCardinality => {
                self.large_cardinality = bumped(self.large_cardinality);
            },
        }
    }
}

/// The parameters of an exact search under a filter: those of the request
/// with quantization set aside.
pub open spec fn spec_exact_params(params: Option<SearchParams>) -> Option<SearchParams> {
    match params {
        Some(p) => Some(
            SearchParams {
                quantization: Some(
                    QuantizationSearchParams {
                        ignore: true,
                        rescore: Some(false),
                        oversampling: None,
                    },
                ),
                ..p
            },
        ),
        None => None,
    }
}

/// The parameters of an exact search under a filter.
pub fn exact_search_params(params: Option<&SearchParams>) -> (r: Option<SearchParams>)
    ensures
        r == spec_exact_params(
            match params {
                Some(p) => Some(*p),
                None => None,
            },
        ),
{
    match params {
        Some(p) => Some(
            SearchParams {
                hnsw_ef: p.hnsw_ef,
                exact: p.exact,
                quantization: Some(
                    QuantizationSearchParams {
                        ignore: true,
                        rescore: Some(false),
                        oversampling: None,
                    },
                ),
                indexed_only: p.indexed_only,
            },
        ),
        None => None,
    }
}

/// A scan of candidate points: the `top` best of them, best first.
/// Candidates of equal score come in the order they were given.
pub fn search_plain(candidates: Vec<ScoredPointOffset>, top: usize) -> (r: Vec<ScoredPointOffset>)
    ensures
        r@ == cut_to(ordered_by_score(candidates@), top),
{
    let mut sorted: Vec<ScoredPointOffset> = sort_by_score_descending(candidates);
    sorted.truncate(top);
    sorted
}

/// The offsets of the points, in their order.
pub open spec fn offsets_of(points: Seq<ScoredPointOffset>) -> Seq<PointOffsetType> {
    points.map_values(|p: ScoredPointOffset| p.idx)
}

/// The entry points of a discovery search: the points that a context
/// search found.
pub fn discovery_entry_points(context_result: &Vec<ScoredPointOffset>) -> (r: Vec<PointOffsetType>)
    ensures
        r@ == offsets_of(context_result@),
{
    let mut entries: Vec<PointOffsetType> = Vec::new();
    let mut i: usize = 0;
    while i < context_result.len()
        invariant
            i <= context_result.len(),
            entries@ == offsets_of(context_result@.take(i as int)),
        decreases context_result.len() - i,
    {
        entries.push(context_result[i].idx);
        proof {
            assert(offsets_of(context_result@.take(i as int + 1)) =~= offsets_of(
                context_result@.take(i as int),
            ).push(context_result@[i as int].idx));
        }
        i = i + 1;
    }
    proof {
        assert(context_result@.take(context_result@.len() as int) =~= context_result@);
    }
    entries
}

} // verus!

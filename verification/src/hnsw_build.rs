use vstd::prelude::*;
use rand::Rng;
use crate::hnsw::{
    count_true,
    threshold_in_points,
    full_scan_threshold_in_points,
    HnswConfig,
    HnswGraphConfig,
    PERCOLATION_MULTIPLIER,
    SINGLE_THREADED_HNSW_BUILD_THRESHOLD,
};
use crate::graph_layers::GraphLayers;
use crate::point_scorer::PointsScorer;
use crate::types::{OperationError, PointOffsetType};

verus! {

/// Fails when the stop flag is raised.
pub fn check_process_stopped(stopped: bool) -> (r: Result<(), OperationError>)
    ensures
        stopped ==> (r matches Err(OperationError::Cancelled { description }) && description@
            == "process cancelled by service"@),
        !stopped ==> r is Ok,
{
    if stopped {
        Err(OperationError::Cancelled { description: "process cancelled by service".to_string() })
    } else {
        Ok(())
    }
}

/// With what a graph is built.
#[derive(Clone, Copy, Debug, PartialEq, Eq, Structural)]
pub struct BuildPlan {
    pub config: HnswGraphConfig,
    /// Number of entry points that the builder keeps.
    pub entry_points_num: usize,
    /// The graph over all points is built.
    pub main_graph: bool,
    /// Graphs over blocks of points that share a payload value are built.
    pub payload_graphs: bool,
    /// Number of edges per node in the graphs of payload blocks.
    pub payload_m: usize,
    /// The same on the ground layer.
    pub payload_m0: usize,
}

/// Ten entry points for every stretch of points as long as the full scan
/// threshold, and one at the least.
pub open spec fn spec_entry_points_num(total_vector_count: usize, full_scan_threshold: usize) -> int {
    if full_scan_threshold == 0 || total_vector_count / full_scan_threshold == 0 {
        1
    } else if total_vector_count / full_scan_threshold * 10 > usize::MAX {
        usize::MAX as int
    } else {
        total_vector_count as int / full_scan_threshold as int * 10
    }
}

pub open spec fn spec_build_plan(
    hnsw_config: HnswConfig,
    total_vector_count: usize,
    available_size_in_bytes: usize,
) -> BuildPlan {
    let threshold = threshold_in_points(
        available_size_in_bytes,
        total_vector_count,
        hnsw_config.full_scan_threshold,
    ) as usize;
    let config = HnswGraphConfig::spec_new(
        hnsw_config.m,
        hnsw_config.ef_construct,
        threshold,
        hnsw_config.max_indexing_threads,
        hnsw_config.payload_m,
        total_vector_count,
    );
    let payload_m = match config.payload_m {
        Some(v) => v,
        None => config.m,
    };
    BuildPlan {
        config,
        entry_points_num: spec_entry_points_num(total_vector_count, threshold) as usize,
        main_graph: config.m > 0,
        payload_graphs: payload_m > 0,
        payload_m,
        payload_m0: match config.payload_m0 {
            Some(v) => v,
            None => config.m0,
        },
    }
}

/// Lays out the build of a graph over `total_vector_count` vectors.
pub fn build_plan(
    hnsw_config: HnswConfig,
    total_vector_count: usize,
    available_size_in_bytes: usize,
) -> (r: BuildPlan)
    requires
        2 * hnsw_config.m <= usize::MAX,
        hnsw_config.payload_m matches Some(v) ==> 2 * v <= usize::MAX,
    ensures
        r == spec_build_plan(hnsw_config, total_vector_count, available_size_in_bytes),
{
    let full_scan_threshold: usize = full_scan_threshold_in_points(
        available_size_in_bytes,
        total_vector_count,
        hnsw_config.full_scan_threshold,
    );
    let config: HnswGraphConfig = HnswGraphConfig::new(
        hnsw_config.m,
        hnsw_config.ef_construct,
        full_scan_threshold,
        hnsw_config.max_indexing_threads,
        hnsw_config.payload_m,
        total_vector_count,
    );
    let stretches: usize = if full_scan_threshold == 0 {
        0
    } else {
        total_vector_count / full_scan_threshold
    };
    let entry_points_num: usize = if stretches == 0 {
        1
    } else {
        match stretches.checked_mul(10) {
            Some(v) => v,
            None => usize::MAX,
        }
    };
    let payload_m: usize = match config.payload_m {
        Some(v) => v,
        None => config.m,
    };
    let payload_m0: usize = match config.payload_m0 {
        Some(v) => v,
        None => config.m0,
    };
    BuildPlan {
        config,
        entry_points_num,
        main_graph: config.m > 0,
        payload_graphs: payload_m > 0,
        payload_m,
        payload_m0,
    }
}

/// The points to link, in two runs.
#[derive(Debug)]
pub struct LinkSchedule {
    /// Linked one after the other.
    pub warmup: Vec<PointOffsetType>,
    /// Linked side by side once the warm-up is done.
    pub parallel: Vec<PointOffsetType>,
}

impl LinkSchedule {
    /// The points of both runs in the order in which they are linked.
    pub open spec fn spec_ids(&self) -> Seq<PointOffsetType> {
        self.warmup@ + self.parallel@
    }
}

pub open spec fn warmup_len(len: nat) -> int {
    if len <= SINGLE_THREADED_HNSW_BUILD_THRESHOLD {
        len as int
    } else {
        SINGLE_THREADED_HNSW_BUILD_THRESHOLD as int
    }
}

/// Splits the points to link into the warm-up and the rest.
pub fn split_warmup(ids: Vec<PointOffsetType>) -> (r: LinkSchedule)
    ensures
        r.warmup@ == ids@.subrange(0, warmup_len(ids@.len())),
        r.parallel@ == ids@.subrange(warmup_len(ids@.len()), ids@.len() as int),
{
    let mut warmup: Vec<u32> = ids;
    let at: usize = if warmup.len() <= SINGLE_THREADED_HNSW_BUILD_THRESHOLD {
        warmup.len()
    } else {
        SINGLE_THREADED_HNSW_BUILD_THRESHOLD
    };
    let parallel: Vec<u32> = warmup.split_off(at);
    LinkSchedule { warmup, parallel }
}

/// The schedule of the graph over all points: empty where no such graph is
/// built.
pub fn main_graph_schedule(plan: &BuildPlan, live_ids: Vec<PointOffsetType>) -> (r: LinkSchedule)
    ensures
        plan.main_graph ==> r.warmup@ == live_ids@.subrange(0, warmup_len(live_ids@.len()))
            && r.parallel@ == live_ids@.subrange(
            warmup_len(live_ids@.len()),
            live_ids@.len() as int,
        ),
        !plan.main_graph ==> r.warmup@.len() == 0 && r.parallel@.len() == 0,
{
    if plan.main_graph {
        split_warmup(live_ids)
    } else {
        LinkSchedule { warmup: Vec::new(), parallel: Vec::new() }
    }
}

/// Largest block of points that still gets a graph of its own. A graph is
/// expected to fall apart once fewer than one point in `links` is left, so
/// larger blocks need none; the factor is a margin.
pub open spec fn spec_max_block_size(
    m: usize,
    total_vector_count: usize,
    average_links: usize,
) -> int {
    if m == 0 {
        usize::MAX as int
    } else {
        let links = if average_links == 0 {
            1int
        } else {
            average_links as int
        };
        if total_vector_count as int / links * PERCOLATION_MULTIPLIER > usize::MAX {
            usize::MAX as int
        } else {
            total_vector_count as int / links * PERCOLATION_MULTIPLIER
        }
    }
}

/// `average_links` is the whole part of the mean number of edges per node
/// on the ground layer.
pub fn max_block_size(m: usize, total_vector_count: usize, average_links: usize) -> (r: usize)
    ensures
        r == spec_max_block_size(m, total_vector_count, average_links),
{
    if m == 0 {
        return usize::MAX;
    }
    let links: usize = if average_links == 0 {
        1
    } else {
        average_links
    };
    match (total_vector_count / links).checked_mul(PERCOLATION_MULTIPLIER) {
        Some(v) => v,
        None => usize::MAX,
    }
}

/// True when a block of `cardinality` points gets a graph of its own.
pub fn block_is_indexed(cardinality: usize, max_block_size: usize) -> (r: bool)
    ensures
        r == (cardinality <= max_block_size),
{
    cardinality <= max_block_size
}

/// True when the flag of `point` is raised; a point beyond the flags is not
/// deleted.
pub open spec fn spec_is_deleted(deleted: Seq<bool>, point: PointOffsetType) -> bool {
    point < deleted.len() && deleted[point as int]
}

/// The points of `points` that are not deleted, in their order.
pub open spec fn live_points(points: Seq<PointOffsetType>, deleted: Seq<bool>) -> Seq<
    PointOffsetType,
> {
    points.filter(|p: PointOffsetType| !spec_is_deleted(deleted, p))
}

/// True when the point with offset `p` is among `points`.
pub open spec fn holds_point(points: Seq<PointOffsetType>, p: int) -> bool {
    exists|k: int| 0 <= k < points.len() && points[k] as int == p
}

/// Marks of the points that some block has taken in.
#[derive(Debug)]
pub struct VisitedList {
    visited: Vec<bool>,
    count: usize,
}

impl View for VisitedList {
    type V = Seq<bool>;

    closed spec fn view(&self) -> Seq<bool> {
        self.visited@
    }
}

/// No more marks are set than there are marks.
pub proof fn lemma_count_true_bounded(s: Seq<bool>)
    ensures
        count_true(s) <= s.len(),
    decreases s.len(),
{
    if s.len() > 0 {
        lemma_count_true_bounded(s.drop_last());
    }
}

/// Setting a mark that was not set makes one more.
pub proof fn lemma_count_true_update(s: Seq<bool>, i: int)
    requires
        0 <= i < s.len(),
        !s[i],
    ensures
        count_true(s.update(i, true)) == count_true(s) + 1,
    decreases s.len(),
{
    let t = s.update(i, true);
    if i == s.len() - 1 {
        assert(t.drop_last() =~= s.drop_last());
    } else {
        lemma_count_true_update(s.drop_last(), i);
        assert(t.drop_last() =~= s.drop_last().update(i, true));
    }
}

proof fn lemma_count_true_all_false(s: Seq<bool>)
    requires
        forall|i: int| 0 <= i < s.len() ==> !s[i],
    ensures
        count_true(s) == 0,
    decreases s.len(),
{
    if s.len() > 0 {
        lemma_count_true_all_false(s.drop_last());
    }
}

impl VisitedList {
    /// The count kept beside the marks is the number of marks.
    pub closed spec fn wf(&self) -> bool {
        self.count == count_true(self.visited@)
    }

    /// Marks for `num_points` points, none set.
    pub fn new(num_points: usize) -> (r: Self)
        ensures
            r.wf(),
            r@.len() == num_points,
            forall|i: int| 0 <= i < num_points ==> !r@[i],
    {
        let mut visited: Vec<bool> = Vec::new();
        let mut i: usize = 0;
        while i < num_points
            invariant
                i <= num_points,
                visited@.len() == i,
                forall|k: int| 0 <= k < i ==> !visited@[k],
            decreases num_points - i,
        {
            visited.push(false);
            i = i + 1;
        }
        proof {
            lemma_count_true_all_false(visited@);
        }
        VisitedList { visited, count: 0 }
    }

    /// Marks `point` and says whether it was marked before.
    pub fn check_and_update_visited(&mut self, point: PointOffsetType) -> (r: bool)
        requires
            old(self).wf(),
            point < old(self)@.len(),
        ensures
            final(self).wf(),
            r == old(self)@[point as int],
            final(self)@ == old(self)@.update(point as int, true),
    {
        let was: bool = self.visited[point as usize];
        if !was {
            proof {
                lemma_count_true_update(self.visited@, point as int);
                lemma_count_true_bounded(self.visited@.update(point as int, true));
                assert(self.visited@.len() == self.visited.len());
            }
            self.visited[point as usize] = true;
            self.count = self.count + 1;
        } else {
            assert(self.visited@.update(point as int, true) =~= self.visited@);
        }
        was
    }

    /// Number of points marked.
    pub fn count_visits(&self) -> (r: usize)
        requires
            self.wf(),
        ensures
            r == count_true(self@),
    {
        self.count
    }
}

/// The points of a payload block that get linked: those of `matching` that
/// are not deleted. Each of them is marked in `block_filter_list`.
fn block_points(
    matching: &Vec<PointOffsetType>,
    deleted: &Vec<bool>,
    block_filter_list: &mut VisitedList,
) -> (r: Vec<PointOffsetType>)
    requires
        old(block_filter_list).wf(),
        forall|i: int| 0 <= i < matching@.len() ==> matching@[i] < old(block_filter_list)@.len(),
    ensures
        final(block_filter_list).wf(),
        r@ == live_points(matching@, deleted@),
        final(block_filter_list)@.len() == old(block_filter_list)@.len(),
        forall|p: int|
            0 <= p < old(block_filter_list)@.len() ==> (#[trigger] final(block_filter_list)@[p] <==> (
            old(block_filter_list)@[p] || holds_point(live_points(matching@, deleted@), p))),
{
    let ghost pred = |p: PointOffsetType| !spec_is_deleted(deleted@, p);
    let mut points_to_index: Vec<u32> = Vec::new();
    let mut i: usize = 0;
    proof {
        assert(matching@.take(0) =~= Seq::<u32>::empty());
        reveal(Seq::filter);
        assert(Seq::<u32>::empty().filter(pred) =~= Seq::<u32>::empty());
    }
    while i < matching.len()
        invariant
            i <= matching.len(),
            pred == (|p: PointOffsetType| !spec_is_deleted(deleted@, p)),
            points_to_index@ == matching@.take(i as int).filter(pred),
            block_filter_list.wf(),
            block_filter_list@.len() == old(block_filter_list)@.len(),
            forall|k: int| 0 <= k < matching@.len() ==> matching@[k] < block_filter_list@.len(),
            forall|p: int|
                0 <= p < block_filter_list@.len() ==> (#[trigger] block_filter_list@[p] <==> (old(
                    block_filter_list,
                )@[p] || holds_point(points_to_index@, p))),
        decreases matching.len() - i,
    {
        let point: u32 = matching[i];
        let is_deleted: bool = (point as usize) < deleted.len() && deleted[point as usize];
        let ghost before = points_to_index@;
        let ghost marks = block_filter_list@;
        proof {
            assert(matching@.take(i as int + 1) =~= matching@.take(i as int).push(point));
            matching@.take(i as int).lemma_filter_push(point, pred);
        }
        if !is_deleted {
            points_to_index.push(point);
            block_filter_list.check_and_update_visited(point);
            proof {
                let after = points_to_index@;
                assert(after[after.len() - 1] == point);
                assert forall|p: int| 0 <= p < block_filter_list@.len() implies (
                #[trigger] block_filter_list@[p] <==> (old(block_filter_list)@[p] || holds_point(
                    after,
                    p,
                ))) by {
                    if p == point as int {
                        assert(after[after.len() - 1] as int == p);
                    } else {
                        assert(block_filter_list@[p] == marks[p]);
                        if holds_point(before, p) {
                            let k = choose|k: int| 0 <= k < before.len() && before[k] as int == p;
                            assert(after[k] as int == p);
                        }
                        if holds_point(after, p) {
                            let k = choose|k: int| 0 <= k < after.len() && after[k] as int == p;
                            if k < before.len() {
                                assert(before[k] as int == p);
                            }
                        }
                    }
                }
            }
        }
        i = i + 1;
    }
    proof {
        assert(matching@.take(matching.len() as int) =~= matching@);
    }
    points_to_index
}

/// The configuration of a finished build: it records how many vectors the
/// graphs cover, the larger of the counts of the main graph and of the
/// payload blocks.
pub fn finish_build(
    config: HnswGraphConfig,
    indexed_vectors: usize,
    indexed_payload_vectors: usize,
) -> (r: HnswGraphConfig)
    ensures
        r == (HnswGraphConfig {
            indexed_vector_count: Some(
                if indexed_vectors >= indexed_payload_vectors {
                    indexed_vectors
                } else {
                    indexed_payload_vectors
                },
            ),
            ..config
        }),
{
    let indexed: usize = if indexed_vectors >= indexed_payload_vectors {
        indexed_vectors
    } else {
        indexed_payload_vectors
    };
    HnswGraphConfig {
        m: config.m,
        m0: config.m0,
        ef_construct: config.ef_construct,
        ef: config.ef,
        full_scan_threshold: config.full_scan_threshold,
        max_indexing_threads: config.max_indexing_threads,
        payload_m: config.payload_m,
        payload_m0: config.payload_m0,
        indexed_vector_count: Some(indexed),
    }
}

/// A number below `bound` by `rand::Rng::gen_range` on the generator of the
/// thread. Which number comes is left open; it is below the bound.
#[verifier::external_body]
fn random_below(bound: u64) -> (r: u64)
    requires
        bound > 0,
    ensures
        r < bound,
{
    rand::thread_rng().gen_range(0..bound)
}

/// Number of leading draws that are zero.
pub open spec fn level_of(draws: Seq<u64>) -> nat
    decreases draws.len(),
{
    if draws.len() == 0 || draws[0] != 0 {
        0
    } else {
        1 + level_of(draws.skip(1))
    }
}

/// A point climbs no more layers than draws were made for it.
pub proof fn lemma_level_bounded(draws: Seq<u64>)
    ensures
        level_of(draws) <= draws.len(),
    decreases draws.len(),
{
    if draws.len() > 0 && draws[0] == 0 {
        lemma_level_bounded(draws.skip(1));
    }
}

/// The level of a point from the draws made for it: it climbs one level for
/// each draw that comes up zero, until one does not.
pub fn level_from_draws(draws: &Vec<u64>) -> (r: usize)
    ensures
        r == level_of(draws@),
{
    let mut level: usize = 0;
    proof {
        assert(draws@.skip(0) =~= draws@);
    }
    while level < draws.len() && draws[level] == 0
        invariant
            level <= draws.len(),
            level_of(draws@) == level + level_of(draws@.skip(level as int)),
        decreases draws.len() - level,
    {
        proof {
            assert(draws@.skip(level as int).skip(1) =~= draws@.skip(level as int + 1));
        }
        level = level + 1;
    }
    level
}

/// Draws the level of a new point. A point reaches the next level with one
/// chance in `m`, in two where `m` is less, so that each layer holds about
/// one `m`-th of the points of the layer below. No point goes above
/// `max_level`.
pub fn get_random_layer(m: usize, max_level: usize) -> (r: usize)
    ensures
        r <= max_level,
{
    let chances: u64 = if m < 2 {
        2
    } else if m > 0xffff_ffff {
        0xffff_ffff
    } else {
        m as u64
    };
    let mut draws: Vec<u64> = Vec::new();
    let mut climbing: bool = true;
    while climbing && draws.len() < max_level
        invariant
            chances >= 2,
            draws@.len() <= max_level,
        decreases max_level - draws.len() + if climbing { 1int } else { 0int },
    {
        let draw: u64 = random_below(chances);
        draws.push(draw);
        if draw != 0 {
            climbing = false;
        }
    }
    proof {
        lemma_level_bounded(draws@);
    }
    level_from_draws(&draws)
}

/// The levels of the points to link, as drawn.
pub fn draw_levels(ids: &Vec<PointOffsetType>, m: usize, max_level: usize) -> (r: Vec<usize>)
    ensures
        r@.len() == ids@.len(),
        forall|i: int| 0 <= i < r@.len() ==> r@[i] <= max_level,
{
    let mut levels: Vec<usize> = Vec::new();
    let mut i: usize = 0;
    while i < ids.len()
        invariant
            i <= ids.len(),
            levels@.len() == i,
            forall|k: int| 0 <= k < i ==> levels@[k] <= max_level,
        decreases ids.len() - i,
    {
        levels.push(get_random_layer(m, max_level));
        i = i + 1;
    }
    levels
}

/// No point of a graph reaches above this layer.
pub const MAX_GRAPH_LEVEL: usize = 64;

/// A block of points that share a value of an indexed payload field.
#[derive(Debug)]
pub struct PayloadBlock {
    /// Number of points that the index counts for the value.
    pub cardinality: usize,
    /// The points that have the value.
    pub points: Vec<PointOffsetType>,
}

/// The live points are points of the list, and none of them is deleted.
pub proof fn lemma_live_points(points: Seq<PointOffsetType>, deleted: Seq<bool>)
    ensures
        forall|i: int|
            0 <= i < live_points(points, deleted).len() ==> !spec_is_deleted(
                deleted,
                #[trigger] live_points(points, deleted)[i],
            ) && points.contains(live_points(points, deleted)[i]),
{
    let pred = |p: PointOffsetType| !spec_is_deleted(deleted, p);
    let live = points.filter(pred);
    assert forall|i: int| 0 <= i < live.len() implies !spec_is_deleted(deleted, #[trigger] live[i])
        && points.contains(live[i]) by {
        points.lemma_filter_pred(pred, i);
        assert(live.contains(live[i]));
        points.lemma_filter_contains_rev(pred, live[i]);
    }
}

/// Which of the first `total` points are not deleted.
pub open spec fn live_flags(deleted: Seq<bool>, total: int) -> Seq<bool> {
    Seq::new(total as nat, |p: int| !(p < deleted.len() && deleted[p]))
}

/// Marks that are set for some of the flagged points only are no more than
/// the flags.
pub proof fn lemma_count_true_below(marks: Seq<bool>, flags: Seq<bool>)
    requires
        marks.len() == flags.len(),
        forall|p: int| 0 <= p < marks.len() && marks[p] ==> flags[p],
    ensures
        count_true(marks) <= count_true(flags),
    decreases marks.len(),
{
    if marks.len() > 0 {
        lemma_count_true_below(marks.drop_last(), flags.drop_last());
    }
}

/// The deleted points stand apart in the graph: they stay on the ground
/// layer, have no neighbours, and are neighbours of no point.
pub open spec fn deleted_stand_apart(graph: &GraphLayers, deleted: Seq<bool>) -> bool {
    forall|p: PointOffsetType|
        p < graph.spec_num_points() && #[trigger] spec_is_deleted(deleted, p) ==> {
            &&& graph.level_of(p) == 0
            &&& graph.neighbours(p, 0).len() == 0
            &&& !graph.is_linked(p)
        }
}

/// All points of the list are live.
pub open spec fn all_live(ids: Seq<PointOffsetType>, deleted: Seq<bool>) -> bool {
    forall|i: int| 0 <= i < ids.len() ==> !spec_is_deleted(deleted, #[trigger] ids[i])
}

/// Linking live points leaves the deleted points apart.
proof fn lemma_linked_apart(
    before: &GraphLayers,
    after: &GraphLayers,
    ids: Seq<PointOffsetType>,
    deleted: Seq<bool>,
)
    requires
        deleted_stand_apart(before, deleted),
        all_live(ids, deleted),
        after.spec_num_points() == before.spec_num_points(),
        forall|q: PointOffsetType|
            q < after.spec_num_points() ==> #[trigger] after.level_of(q) == before.level_of(q),
        forall|p: PointOffsetType|
            #[trigger] after.is_linked(p) ==> before.is_linked(p) || ids.contains(p),
        forall|q: PointOffsetType, l: int|
            q < after.spec_num_points() && !ids.contains(q) && !before.is_linked(q) && 0 <= l
                <= after.level_of(q) ==> #[trigger] after.neighbours(q, l) == before.neighbours(q, l),
    ensures
        deleted_stand_apart(after, deleted),
{
    assert forall|p: PointOffsetType|
        p < after.spec_num_points() && #[trigger] spec_is_deleted(deleted, p) implies {
        &&& after.level_of(p) == 0
        &&& after.neighbours(p, 0).len() == 0
        &&& !after.is_linked(p)
    } by {
        if ids.contains(p) {
            let i = choose|i: int| 0 <= i < ids.len() && ids[i] == p;
            assert(!spec_is_deleted(deleted, ids[i]));
        }
        assert(after.level_of(p) == before.level_of(p));
        assert(after.neighbours(p, 0) == before.neighbours(p, 0));
    }
}

/// The cancellation of a build.
pub open spec fn is_cancellation(e: OperationError) -> bool {
    e matches OperationError::Cancelled { description } && description@
        == "process cancelled by service"@
}

/// The point has joined the graph: searches set out from it, or it has a
/// neighbour on the ground layer.
pub open spec fn is_joined(graph: &GraphLayers, point: PointOffsetType) -> bool {
    graph.spec_entry() == Some(point) || graph.neighbours(point, 0).len() > 0
}

/// Every point that is linked has a neighbour on the ground layer, but for
/// an entry point that is the only point linked; and without an entry
/// point no point is linked.
pub open spec fn well_joined(graph: &GraphLayers) -> bool {
    &&& graph.spec_entry() is None ==> forall|p: PointOffsetType| !#[trigger] graph.is_linked(p)
    &&& forall|p: PointOffsetType| #[trigger]
        graph.is_linked(p) ==> graph.neighbours(p, 0).len() > 0 || (graph.spec_entry() == Some(p)
            && forall|x: PointOffsetType| #[trigger] graph.is_linked(x) ==> x == p)
}

/// The conditions under which a point that is taken in comes to have a
/// neighbour: the graph is well joined and its limits allow neighbours.
pub open spec fn can_join(graph: &GraphLayers) -> bool {
    well_joined(graph) && graph.spec_m0() > 0 && graph.spec_ef_construct() > 0
}

/// A point that was not linked joins a well joined graph when it is taken
/// in, the graph stays well joined, and every point that had joined stays
/// joined.
pub proof fn lemma_joined_step(before: &GraphLayers, after: &GraphLayers, point: PointOffsetType)
    requires
        before.wf(),
        point < before.spec_num_points(),
        after.linked_in(before, point),
        can_join(before),
        !before.is_linked(point),
    ensures
        can_join(after),
        is_joined(after, point),
        forall|p: PointOffsetType|
            p < before.spec_num_points() && #[trigger] is_joined(before, p) ==> is_joined(after, p),
{
    let n = before.spec_num_points();
    assert(after.keeps_linked(before, point));
    assert(after.keeps_neighbours(before, point));
    // the only point linked before, if there is one, has a neighbour now
    assert forall|p: PointOffsetType|
        p != point && before.is_linked(p) && before.neighbours(p, 0).len()
            == 0 implies after.spec_entry() == Some(p) || after.neighbours(p, 0).len() > 0 by {
        assert(before.spec_entry() == Some(p));
        assert(forall|x: PointOffsetType| #[trigger] before.is_linked(x) ==> x == p);
        if after.spec_entry() != Some(p) {
            assert(after.joins(before, point));
            assert(after.neighbours(point, 0).len() > 0);
            let x = after.neighbours(point, 0)[0];
            assert(before.is_linked(x));
            assert(x == p);
        }
    }
    assert forall|p: PointOffsetType| #[trigger] after.is_linked(p) implies after.neighbours(
        p,
        0,
    ).len() > 0 || (after.spec_entry() == Some(p) && forall|x: PointOffsetType| #[trigger]
        after.is_linked(x) ==> x == p) by {
        if p == point {
            if before.spec_entry() is None {
                assert forall|x: PointOffsetType| #[trigger] after.is_linked(x) implies x == p by {
                    if x != point {
                        assert(before.is_linked(x));
                    }
                }
            }
        } else {
            assert(before.is_linked(p));
            assert(before.spec_entry() is Some);
            assert(p < n) by {
                lemma_linked_is_point(before, p);
            }
            if before.neighbours(p, 0).len() > 0 {
                assert(after.level_of(p) == before.level_of(p));
                assert(after.neighbours(p, 0).len() > 0);
            } else if after.spec_entry() == Some(p) {
                assert(after.joins(before, point));
                assert(after.neighbours(point, 0).len() > 0);
                let x = after.neighbours(point, 0)[0];
                assert(before.is_linked(x));
                assert(x == p);
            }
        }
    }
    assert forall|p: PointOffsetType|
        p < n && #[trigger] is_joined(before, p) implies is_joined(after, p) by {
        if p != point {
            if before.neighbours(p, 0).len() > 0 {
                assert(after.level_of(p) == before.level_of(p));
                assert(after.neighbours(p, 0).len() > 0);
            } else {
                assert(before.is_linked(p));
            }
        }
    }
}

/// A linked point is a point of the graph.
pub proof fn lemma_linked_is_point(graph: &GraphLayers, point: PointOffsetType)
    requires
        graph.wf(),
        graph.is_linked(point),
    ensures
        point < graph.spec_num_points(),
{
    if graph.spec_entry() != Some(point) {
        let (q, l, k) = choose|q: PointOffsetType, l: int, k: int|
            q < graph.spec_num_points() && 0 <= l <= graph.level_of(q) && 0 <= k
                < graph.neighbours(q, l).len() && #[trigger] graph.neighbours(q, l)[k] == point;
        assert(graph.spec_links()[q as int]@[l]@[k] < graph.spec_links().len());
    }
}

/// The points are new to the graph: none of them is linked, and none
/// stands twice in the list.
pub open spec fn new_to(graph: &GraphLayers, ids: Seq<PointOffsetType>) -> bool {
    &&& ids.no_duplicates()
    &&& forall|i: int| 0 <= i < ids.len() ==> !graph.is_linked(#[trigger] ids[i])
}

/// The second graph is the first once the points have been taken into it
/// one after the other, each as `GraphLayers::link_new_point` takes a
/// point in.
pub open spec fn linked_each(
    before: &GraphLayers,
    after: &GraphLayers,
    ids: Seq<PointOffsetType>,
) -> bool
    decreases ids.len(),
{
    if ids.len() == 0 {
        *after == *before
    } else {
        exists|mid: GraphLayers|
            linked_each(before, &mid, ids.drop_last()) && #[trigger] after.linked_in(
                &mid,
                ids.last(),
            )
    }
}

/// Links the points into the graph one after the other. The stop flag is
/// asked before each point; once it is raised the build is given up, and
/// the points before that one are linked.
pub fn link_points<S: PointsScorer, F: Fn() -> bool>(
    graph: &mut GraphLayers,
    ids: &Vec<PointOffsetType>,
    scorer: &S,
    is_stopped: &F,
) -> (r: Result<(), OperationError>)
    requires
        old(graph).wf(),
        scorer.spec_len() == old(graph).spec_num_points(),
        forall|i: int| 0 <= i < ids@.len() ==> (#[trigger] ids@[i]) < old(graph).spec_num_points(),
        call_requires(*is_stopped, ()),
    ensures
        final(graph).wf(),
        final(graph).spec_num_points() == old(graph).spec_num_points(),
        final(graph).spec_m() == old(graph).spec_m(),
        final(graph).spec_m0() == old(graph).spec_m0(),
        final(graph).spec_ef_construct() == old(graph).spec_ef_construct(),
        forall|q: PointOffsetType|
            q < final(graph).spec_num_points() ==> #[trigger] final(graph).level_of(q) == old(graph).level_of(q),
        r matches Err(e) ==> is_cancellation(e) && call_ensures(*is_stopped, (), true),
        ids@.len() == 0 || !call_ensures(*is_stopped, (), true) ==> r is Ok,
        r is Ok ==> linked_each(old(graph), final(graph), ids@),
        r is Ok && ids@.len() > 0 ==> call_ensures(*is_stopped, (), false),
        r is Err ==> exists|k: int|
            0 <= k < ids@.len() && linked_each(old(graph), final(graph), #[trigger] ids@.take(k)),
        forall|p: PointOffsetType|
            #[trigger] final(graph).is_linked(p) ==> old(graph).is_linked(p) || ids@.contains(p),
        forall|q: PointOffsetType, l: int|
            q < final(graph).spec_num_points() && !ids@.contains(q) && !old(graph).is_linked(q) && 0
                <= l <= final(graph).level_of(q) ==> #[trigger] final(graph).neighbours(q, l)
                == old(graph).neighbours(q, l),
        r is Ok && ids@.len() > 0 ==> final(graph).spec_entry() is Some,
        new_to(old(graph), ids@) && can_join(old(graph)) ==> {
            &&& can_join(final(graph))
            &&& forall|p: PointOffsetType|
                p < old(graph).spec_num_points() && #[trigger] is_joined(old(graph), p)
                    ==> is_joined(final(graph), p)
            &&& r is Ok ==> forall|i: int|
                0 <= i < ids@.len() ==> is_joined(final(graph), #[trigger] ids@[i])
        },
{
    let mut i: usize = 0;
    proof {
        assert(ids@.take(0) =~= Seq::<PointOffsetType>::empty());
    }
    while i < ids.len()
        invariant
            i <= ids.len(),
            graph.wf(),
            linked_each(old(graph), graph, ids@.take(i as int)),
            i > 0 ==> call_ensures(*is_stopped, (), false),
            i > 0 ==> graph.spec_entry() is Some,
            forall|p: PointOffsetType|
                #[trigger] graph.is_linked(p) ==> old(graph).is_linked(p) || exists|j: int|
                    0 <= j < i && ids@[j] == p,
            new_to(old(graph), ids@) && can_join(old(graph)) ==> {
                &&& can_join(graph)
                &&& forall|p: PointOffsetType|
                    p < old(graph).spec_num_points() && #[trigger] is_joined(old(graph), p)
                        ==> is_joined(graph, p)
                &&& forall|j: int| 0 <= j < i ==> is_joined(graph, #[trigger] ids@[j])
            },
            forall|p: PointOffsetType|
                #[trigger] graph.is_linked(p) ==> old(graph).is_linked(p) || ids@.contains(p),
            forall|q: PointOffsetType, l: int|
                q < graph.spec_num_points() && !ids@.contains(q) && !old(graph).is_linked(q) && 0
                    <= l <= graph.level_of(q) ==> #[trigger] graph.neighbours(q, l) == old(graph).neighbours(q, l),
            scorer.spec_len() == graph.spec_num_points(),
            graph.spec_num_points() == old(graph).spec_num_points(),
            graph.spec_m() == old(graph).spec_m(),
            graph.spec_m0() == old(graph).spec_m0(),
            graph.spec_ef_construct() == old(graph).spec_ef_construct(),
            forall|k: int| 0 <= k < ids@.len() ==> (#[trigger] ids@[k]) < graph.spec_num_points(),
            forall|q: PointOffsetType|
                q < graph.spec_num_points() ==> #[trigger] graph.level_of(q) == old(graph).level_of(
                    q,
                ),
            call_requires(*is_stopped, ()),
        decreases ids.len() - i,
    {
        let stopped: bool = is_stopped();
        match check_process_stopped(stopped) {
            Ok(()) => {},
            Err(e) => {
                return Err(e);
            },
        }
        let ghost before = *graph;
        graph.link_new_point(ids[i], scorer);
        proof {
            assert(ids@.take(i as int + 1).drop_last() =~= ids@.take(i as int));
            assert(ids@.take(i as int + 1).last() == ids@[i as int]);
            let taken = ids@.take(i as int + 1);
            assert(linked_each(old(graph), &before, taken.drop_last()));
            assert(graph.linked_in(&before, taken.last()));
            let point = ids@[i as int];
            assert(graph.keeps_linked(&before, point));
            assert forall|p: PointOffsetType| #[trigger] graph.is_linked(p) implies old(graph).is_linked(p) || exists|j: int| 0 <= j < i + 1 && ids@[j] == p by {
                if p == point {
                    assert(ids@[i as int] == p);
                } else {
                    assert(before.is_linked(p));
                    if !old(graph).is_linked(p) {
                        let j = choose|j: int| 0 <= j < i && ids@[j] == p;
                        assert(0 <= j < i + 1 && ids@[j] == p);
                    }
                }
            }
            if new_to(old(graph), ids@) && can_join(old(graph)) {
                assert(!before.is_linked(point)) by {
                    if before.is_linked(point) {
                        assert(!old(graph).is_linked(ids@[i as int]));
                        let j = choose|j: int| 0 <= j < i && ids@[j] == point;
                        assert(ids@[j] == ids@[i as int]);
                    }
                }
                lemma_joined_step(&before, graph, point);
                assert forall|p: PointOffsetType|
                    p < old(graph).spec_num_points() && #[trigger] is_joined(
                        old(graph),
                        p,
                    ) implies is_joined(graph, p) by {
                    assert(is_joined(&before, p));
                }
                assert forall|j: int| 0 <= j < i + 1 implies is_joined(
                    graph,
                    #[trigger] ids@[j],
                ) by {
                    if j < i {
                        assert(is_joined(&before, ids@[j]));
                    }
                }
            }
            assert(linked_each(old(graph), graph, taken));
            assert forall|q: PointOffsetType|
                q < graph.spec_num_points() implies #[trigger] graph.level_of(q) == old(graph).level_of(q) by {
                assert(before.level_of(q) == old(graph).level_of(q));
            }
            assert(ids@.contains(ids@[i as int]));
            assert forall|p: PointOffsetType| #[trigger] graph.is_linked(p) implies old(graph).is_linked(p) || ids@.contains(p) by {
                if p != ids@[i as int] {
                    assert(before.is_linked(p));
                }
            }
            assert forall|q: PointOffsetType, l: int|
                q < graph.spec_num_points() && !ids@.contains(q) && !old(graph).is_linked(q) && 0
                    <= l <= graph.level_of(q) implies #[trigger] graph.neighbours(q, l) == old(graph).neighbours(q, l) by {
                assert(!before.is_linked(q));
                assert(before.level_of(q) == graph.level_of(q));
                assert(before.neighbours(q, l) == old(graph).neighbours(q, l));
            }
        }
        i = i + 1;
    }
    proof {
        assert(ids@.take(ids@.len() as int) =~= ids@);
    }
    Ok(())
}

/// Taking points in one list after another is taking in the lists joined.
pub proof fn lemma_linked_each_append(
    first: &GraphLayers,
    mid: &GraphLayers,
    last: &GraphLayers,
    xs: Seq<PointOffsetType>,
    ys: Seq<PointOffsetType>,
)
    requires
        linked_each(first, mid, xs),
        linked_each(mid, last, ys),
    ensures
        linked_each(first, last, xs + ys),
    decreases ys.len(),
{
    if ys.len() == 0 {
        assert(xs + ys =~= xs);
    } else {
        let step = choose|step: GraphLayers|
            linked_each(mid, &step, ys.drop_last()) && #[trigger] last.linked_in(&step, ys.last());
        lemma_linked_each_append(first, mid, &step, xs, ys.drop_last());
        assert((xs + ys).drop_last() =~= xs + ys.drop_last());
        assert((xs + ys).last() == ys.last());
        assert(linked_each(first, &step, (xs + ys).drop_last()) && last.linked_in(
            &step,
            (xs + ys).last(),
        ));
    }
}

/// Links the points of a schedule into the graph: the warm-up first, then
/// the rest. The stop flag is asked before each point; once it is raised
/// the build is given up.
pub fn link_schedule<S: PointsScorer, F: Fn() -> bool>(
    graph: &mut GraphLayers,
    schedule: &LinkSchedule,
    scorer: &S,
    is_stopped: &F,
) -> (r: Result<(), OperationError>)
    requires
        old(graph).wf(),
        scorer.spec_len() == old(graph).spec_num_points(),
        forall|i: int|
            0 <= i < schedule.spec_ids().len() ==> (#[trigger] schedule.spec_ids()[i]) < old(graph).spec_num_points(),
        call_requires(*is_stopped, ()),
    ensures
        final(graph).wf(),
        final(graph).spec_num_points() == old(graph).spec_num_points(),
        final(graph).spec_m() == old(graph).spec_m(),
        final(graph).spec_m0() == old(graph).spec_m0(),
        final(graph).spec_ef_construct() == old(graph).spec_ef_construct(),
        forall|q: PointOffsetType|
            q < final(graph).spec_num_points() ==> #[trigger] final(graph).level_of(q) == old(graph).level_of(q),
        r matches Err(e) ==> is_cancellation(e) && call_ensures(*is_stopped, (), true),
        schedule.spec_ids().len() == 0 || !call_ensures(*is_stopped, (), true) ==> r is Ok,
        r is Ok ==> linked_each(old(graph), final(graph), schedule.spec_ids()),
        r is Ok && schedule.spec_ids().len() > 0 ==> call_ensures(*is_stopped, (), false)
            && final(graph).spec_entry() is Some,
        forall|p: PointOffsetType|
            #[trigger] final(graph).is_linked(p) ==> old(graph).is_linked(p)
                || schedule.spec_ids().contains(p),
        forall|q: PointOffsetType, l: int|
            q < final(graph).spec_num_points() && !schedule.spec_ids().contains(q) && !old(graph).is_linked(q) && 0 <= l <= final(graph).level_of(q) ==> #[trigger] final(graph).neighbours(q, l) == old(graph).neighbours(q, l),
        new_to(old(graph), schedule.spec_ids()) && can_join(old(graph)) ==> {
            &&& can_join(final(graph))
            &&& forall|p: PointOffsetType|
                p < old(graph).spec_num_points() && #[trigger] is_joined(old(graph), p)
                    ==> is_joined(final(graph), p)
            &&& r is Ok ==> forall|i: int|
                0 <= i < schedule.spec_ids().len() ==> is_joined(
                    final(graph),
                    #[trigger] schedule.spec_ids()[i],
                )
        },
{
    let ghost first = *graph;
    let ghost warm = schedule.warmup@;
    let ghost rest = schedule.parallel@;
    let ghost all = schedule.spec_ids();
    proof {
        assert forall|i: int| 0 <= i < warm.len() implies (#[trigger] warm[i])
            < graph.spec_num_points() by {
            assert(all[i] == warm[i]);
        }
        assert forall|i: int| 0 <= i < rest.len() implies (#[trigger] rest[i])
            < graph.spec_num_points() by {
            assert(all[warm.len() + i] == rest[i]);
        }
        assert forall|p: PointOffsetType| warm.contains(p) implies all.contains(p) by {
            let k = choose|k: int| 0 <= k < warm.len() && warm[k] == p;
            assert(all[k] == p);
        }
        assert forall|p: PointOffsetType| rest.contains(p) implies all.contains(p) by {
            let k = choose|k: int| 0 <= k < rest.len() && rest[k] == p;
            assert(all[warm.len() + k] == p);
        }
        if new_to(&first, all) {
            assert(new_to(&first, warm)) by {
                assert forall|i: int, j: int|
                    0 <= i < warm.len() && 0 <= j < warm.len() && i != j implies warm[i]
                    != warm[j] by {
                    assert(all[i] == warm[i] && all[j] == warm[j]);
                }
                assert forall|i: int| 0 <= i < warm.len() implies !first.is_linked(
                    #[trigger] warm[i],
                ) by {
                    assert(all[i] == warm[i]);
                }
            }
        }
    }
    match link_points(graph, &schedule.warmup, scorer, is_stopped) {
        Ok(()) => {},
        Err(e) => {
            return Err(e);
        },
    }
    let ghost mid = *graph;
    proof {
        if new_to(&first, all) && can_join(&first) {
            assert(new_to(&mid, rest)) by {
                assert forall|i: int, j: int|
                    0 <= i < rest.len() && 0 <= j < rest.len() && i != j implies rest[i]
                    != rest[j] by {
                    assert(all[warm.len() + i] == rest[i] && all[warm.len() + j] == rest[j]);
                }
                assert forall|i: int| 0 <= i < rest.len() implies !mid.is_linked(
                    #[trigger] rest[i],
                ) by {
                    assert(all[warm.len() + i] == rest[i]);
                    assert(!first.is_linked(all[warm.len() + i]));
                    if warm.contains(rest[i]) {
                        let k = choose|k: int| 0 <= k < warm.len() && warm[k] == rest[i];
                        assert(all[k] == all[warm.len() + i]);
                    }
                }
            }
        }
    }
    let done = link_points(graph, &schedule.parallel, scorer, is_stopped);
    proof {
        assert forall|q: PointOffsetType| q < graph.spec_num_points() implies #[trigger] graph.level_of(
            q,
        ) == first.level_of(q) by {
            assert(mid.level_of(q) == first.level_of(q));
        }
        assert forall|p: PointOffsetType| #[trigger] graph.is_linked(p) implies first.is_linked(p)
            || all.contains(p) by {
            if !rest.contains(p) {
                assert(mid.is_linked(p));
            }
        }
        assert forall|q: PointOffsetType, l: int|
            q < graph.spec_num_points() && !all.contains(q) && !first.is_linked(q) && 0 <= l
                <= graph.level_of(q) implies #[trigger] graph.neighbours(q, l) == first.neighbours(
            q,
            l,
        ) by {
            assert(!mid.is_linked(q));
            assert(mid.level_of(q) == first.level_of(q));
            assert(mid.neighbours(q, l) == first.neighbours(q, l));
        }
        if done is Ok {
            lemma_linked_each_append(&first, &mid, graph, warm, rest);
            if rest.len() == 0 {
                assert(*graph == mid);
            }
        }
        if new_to(&first, all) && can_join(&first) {
            assert forall|p: PointOffsetType|
                p < first.spec_num_points() && #[trigger] is_joined(&first, p) implies is_joined(
                graph,
                p,
            ) by {
                assert(is_joined(&mid, p));
            }
            if done is Ok {
                assert forall|i: int| 0 <= i < all.len() implies is_joined(
                    graph,
                    #[trigger] all[i],
                ) by {
                    if i < warm.len() {
                        assert(all[i] == warm[i]);
                        assert(is_joined(&mid, warm[i]));
                    } else {
                        assert(all[i] == rest[i - warm.len()]);
                        assert(is_joined(graph, rest[i - warm.len()]));
                    }
                }
            }
        }
    }
    done
}

/// Builds the graph of a payload block: the points of the block that are
/// not deleted are marked in `block_filter_list` and linked into the graph
/// one after the other. The stop flag is asked before each point; once it
/// is raised the build is given up.
pub fn build_filtered_graph<S: PointsScorer, F: Fn() -> bool>(
    graph: &mut GraphLayers,
    matching: &Vec<PointOffsetType>,
    deleted: &Vec<bool>,
    block_filter_list: &mut VisitedList,
    scorer: &S,
    is_stopped: &F,
) -> (r: Result<(), OperationError>)
    requires
        old(graph).wf(),
        scorer.spec_len() == old(graph).spec_num_points(),
        old(block_filter_list).wf(),
        forall|i: int|
            0 <= i < matching@.len() ==> (#[trigger] matching@[i]) < old(graph).spec_num_points()
                && matching@[i] < old(block_filter_list)@.len(),
        call_requires(*is_stopped, ()),
    ensures
        final(graph).wf(),
        final(graph).spec_num_points() == old(graph).spec_num_points(),
        final(graph).spec_m() == old(graph).spec_m(),
        final(graph).spec_m0() == old(graph).spec_m0(),
        final(graph).spec_ef_construct() == old(graph).spec_ef_construct(),
        forall|q: PointOffsetType|
            q < final(graph).spec_num_points() ==> #[trigger] final(graph).level_of(q) == old(graph).level_of(q),
        r matches Err(e) ==> is_cancellation(e) && call_ensures(*is_stopped, (), true),
        live_points(matching@, deleted@).len() == 0 || !call_ensures(*is_stopped, (), true)
            ==> r is Ok,
        r is Ok ==> linked_each(old(graph), final(graph), live_points(matching@, deleted@)),
        r is Ok && live_points(matching@, deleted@).len() > 0 ==> call_ensures(
            *is_stopped,
            (),
            false,
        ) && final(graph).spec_entry() is Some,
        forall|p: PointOffsetType|
            #[trigger] final(graph).is_linked(p) ==> old(graph).is_linked(p) || live_points(
                matching@,
                deleted@,
            ).contains(p),
        forall|q: PointOffsetType, l: int|
            q < final(graph).spec_num_points() && !live_points(matching@, deleted@).contains(q)
                && !old(graph).is_linked(q) && 0 <= l <= final(graph).level_of(q)
                ==> #[trigger] final(graph).neighbours(q, l) == old(graph).neighbours(q, l),
        new_to(old(graph), live_points(matching@, deleted@)) && can_join(old(graph)) ==> {
            &&& can_join(final(graph))
            &&& forall|p: PointOffsetType|
                p < old(graph).spec_num_points() && #[trigger] is_joined(old(graph), p)
                    ==> is_joined(final(graph), p)
            &&& r is Ok ==> forall|i: int|
                0 <= i < live_points(matching@, deleted@).len() ==> is_joined(
                    final(graph),
                    #[trigger] live_points(matching@, deleted@)[i],
                )
        },
        final(block_filter_list).wf(),
        final(block_filter_list)@.len() == old(block_filter_list)@.len(),
        forall|p: int|
            0 <= p < old(block_filter_list)@.len() ==> (#[trigger] final(block_filter_list)@[p] <==> (
            old(block_filter_list)@[p] || holds_point(live_points(matching@, deleted@), p))),
{
    proof {
        assert forall|i: int| 0 <= i < matching@.len() implies matching@[i] < block_filter_list@.len() by {
            assert(matching@[i] < old(graph).spec_num_points());
        }
    }
    let points: Vec<PointOffsetType> = block_points(matching, deleted, block_filter_list);
    let ghost live = points@;
    proof {
        lemma_live_points(matching@, deleted@);
        assert forall|i: int| 0 <= i < points@.len() implies (#[trigger] points@[i])
            < graph.spec_num_points() by {
            assert(matching@.contains(points@[i]));
            let k = choose|k: int| 0 <= k < matching@.len() && matching@[k] == points@[i];
            assert(matching@[k] < old(graph).spec_num_points());
        }
    }
    let schedule: LinkSchedule = split_warmup(points);
    proof {
        assert(schedule.spec_ids() =~= live);
    }
    link_schedule(graph, &schedule, scorer, is_stopped)
}

/// The live points have joined the graph: the graph has an entry point as
/// soon as a point is live, and every live point is the entry point or
/// has a neighbour on the ground layer.
pub open spec fn live_have_joined(graph: &GraphLayers, deleted: Seq<bool>) -> bool {
    &&& count_true(live_flags(deleted, graph.spec_num_points() as int)) > 0
        ==> graph.spec_entry() is Some
    &&& forall|p: PointOffsetType|
        p < graph.spec_num_points() && !#[trigger] spec_is_deleted(deleted, p) ==> is_joined(
            graph,
            p,
        )
}

/// A graph without links: it has room for so many points, all on the
/// ground layer, and no entry point.
pub open spec fn is_fresh(graph: &GraphLayers, num_points: usize, m: usize, m0: usize, ef: usize) -> bool {
    &&& graph.wf()
    &&& graph.spec_num_points() == num_points
    &&& graph.spec_m() == m
    &&& graph.spec_m0() == m0
    &&& graph.spec_ef_construct() == ef
    &&& graph.spec_entry() is None
    &&& forall|p: PointOffsetType| p < num_points ==> #[trigger] graph.level_of(p) == 0
    &&& forall|p: PointOffsetType| p < num_points ==> (#[trigger] graph.neighbours(p, 0)).len() == 0
}

/// The point has the link on the layer.
pub open spec fn has_link(graph: &GraphLayers, p: PointOffsetType, l: int, to: PointOffsetType) -> bool {
    0 <= l <= graph.level_of(p) && graph.neighbours(p, l).contains(to)
}

/// Every link of the part is a link of the graph.
pub open spec fn holds_links_of(graph: &GraphLayers, part: &GraphLayers) -> bool {
    &&& graph.spec_num_points() == part.spec_num_points()
    &&& forall|p: PointOffsetType, l: int, to: PointOffsetType|
        p < part.spec_num_points() && #[trigger] has_link(part, p, l, to) ==> has_link(
            graph,
            p,
            l,
            to,
        )
}

/// The graph of a block stands in the graph: there is a graph that was
/// built from nothing by linking the live points of the block, one after
/// the other, and the graph holds each of its links.
pub open spec fn block_is_merged(
    graph: &GraphLayers,
    points: Seq<PointOffsetType>,
    deleted: Seq<bool>,
    plan: BuildPlan,
) -> bool {
    exists|fresh: GraphLayers, built: GraphLayers|
        is_fresh(
            &fresh,
            graph.spec_num_points() as usize,
            plan.payload_m,
            plan.payload_m0,
            plan.config.ef_construct,
        ) && (#[trigger] linked_each(&fresh, &built, live_points(points, deleted)))
            && holds_links_of(graph, &built)
}

/// The block gets a graph of its own.
pub open spec fn spec_block_is_indexed(block: PayloadBlock, limit: usize) -> bool {
    block.cardinality <= limit
}

/// The point is a live point of one of the first `upto` blocks that get a
/// graph.
pub open spec fn marked_by(
    blocks: Seq<PayloadBlock>,
    deleted: Seq<bool>,
    limit: usize,
    upto: int,
    p: int,
) -> bool {
    exists|b: int|
        0 <= b < upto && b < blocks.len() && spec_block_is_indexed(#[trigger] blocks[b], limit)
            && holds_point(live_points(blocks[b].points@, deleted), p)
}

/// Which points the graphs of the blocks cover.
pub open spec fn block_marks(
    blocks: Seq<PayloadBlock>,
    deleted: Seq<bool>,
    limit: usize,
    total: int,
) -> Seq<bool> {
    Seq::new(total as nat, |p: int| marked_by(blocks, deleted, limit, blocks.len() as int, p))
}

/// What holds of the graphs of the payload blocks, where they are built:
/// the blocks that are no larger than the limit have their graphs in the
/// graph, and the count of the covered vectors is the larger of the count
/// of the main graph and the number of points that the blocks cover. The
/// limit is the largest block size for some number of links per point;
/// without a main graph every block gets its graph.
pub open spec fn blocks_are_built(
    config: HnswGraphConfig,
    graph: &GraphLayers,
    plan: BuildPlan,
    total_vector_count: usize,
    deleted: Seq<bool>,
    blocks: Seq<PayloadBlock>,
    average_links: usize,
) -> bool {
    let limit = spec_max_block_size(plan.config.m, total_vector_count, average_links) as usize;
    let main_count = if plan.main_graph {
        count_true(live_flags(deleted, total_vector_count as int)) as int
    } else {
        0
    };
    let payload_count = if plan.payload_graphs {
        count_true(block_marks(blocks, deleted, limit, total_vector_count as int)) as int
    } else {
        0
    };
    &&& config.indexed_vector_count == Some(
        (if main_count >= payload_count {
            main_count
        } else {
            payload_count
        }) as usize,
    )
    &&& plan.payload_graphs ==> forall|b: int|
        0 <= b < blocks.len() && spec_block_is_indexed(#[trigger] blocks[b], limit)
            ==> block_is_merged(graph, blocks[b].points@, deleted, plan)
}

/// Taking another graph in keeps the links that the graph holds.
pub proof fn lemma_merge_keeps(
    before: &GraphLayers,
    other: &GraphLayers,
    after: &GraphLayers,
    part: &GraphLayers,
)
    requires
        before.wf(),
        after.spec_num_points() == before.spec_num_points(),
        forall|q: PointOffsetType|
            q < after.spec_num_points() ==> #[trigger] after.level_of(q)
                == crate::graph_layers::higher(before.level_of(q), other.level_of(q)),
        forall|q: PointOffsetType, l: int|
            q < after.spec_num_points() && 0 <= l <= after.level_of(q) ==> #[trigger] after.merged_at(
                before,
                other,
                q,
                l,
            ),
        holds_links_of(before, part),
    ensures
        holds_links_of(after, part),
{
    assert forall|p: PointOffsetType, l: int, to: PointOffsetType|
        p < part.spec_num_points() && #[trigger] has_link(part, p, l, to) implies has_link(
        after,
        p,
        l,
        to,
    ) by {
        assert(has_link(before, p, l, to));
        assert(after.level_of(p) == crate::graph_layers::higher(
            before.level_of(p),
            other.level_of(p),
        ));
        assert(after.merged_at(before, other, p, l));
        let ours = before.row_or_empty(p, l);
        let theirs = other.row_or_empty(p, l);
        crate::graph_layers::lemma_merged_row(ours, theirs);
        let k = choose|k: int| 0 <= k < ours.len() && ours[k] == to;
        assert(crate::graph_layers::merged_row(ours, theirs).contains(ours[k]));
    }
}

/// A graph holds the links of a graph that it has taken in.
pub proof fn lemma_merge_holds(before: &GraphLayers, other: &GraphLayers, after: &GraphLayers)
    requires
        other.wf(),
        after.spec_num_points() == before.spec_num_points(),
        after.spec_num_points() == other.spec_num_points(),
        forall|q: PointOffsetType|
            q < after.spec_num_points() ==> #[trigger] after.level_of(q)
                == crate::graph_layers::higher(before.level_of(q), other.level_of(q)),
        forall|q: PointOffsetType, l: int|
            q < after.spec_num_points() && 0 <= l <= after.level_of(q) ==> #[trigger] after.merged_at(
                before,
                other,
                q,
                l,
            ),
    ensures
        holds_links_of(after, other),
{
    assert forall|p: PointOffsetType, l: int, to: PointOffsetType|
        p < other.spec_num_points() && #[trigger] has_link(other, p, l, to) implies has_link(
        after,
        p,
        l,
        to,
    ) by {
        assert(after.level_of(p) == crate::graph_layers::higher(
            before.level_of(p),
            other.level_of(p),
        ));
        assert(after.merged_at(before, other, p, l));
        let ours = before.row_or_empty(p, l);
        let theirs = other.row_or_empty(p, l);
        crate::graph_layers::lemma_merged_row(ours, theirs);
        let k = choose|k: int| 0 <= k < theirs.len() && theirs[k] == to;
        assert(crate::graph_layers::merged_row(ours, theirs).contains(theirs[k]));
    }
}

/// What holds of a finished build: the graph is sound and has room for
/// all vectors; the configuration is that of the plan, with the count of
/// the vectors that the graphs cover, which is the number of live points
/// where the main graph is built; the deleted points stand apart; and
/// where the main graph is built with candidates to choose from, the live
/// points have joined it; and the graphs of the payload blocks are built
/// and counted.
pub open spec fn is_built(
    config: HnswGraphConfig,
    graph: &GraphLayers,
    hnsw_config: HnswConfig,
    total_vector_count: usize,
    available_size_in_bytes: usize,
    deleted: Seq<bool>,
    blocks: Seq<PayloadBlock>,
) -> bool {
    let plan = spec_build_plan(hnsw_config, total_vector_count, available_size_in_bytes);
    &&& graph.wf()
    &&& graph.spec_num_points() == total_vector_count
    &&& graph.spec_ef_construct() == plan.config.ef_construct
    &&& config == (HnswGraphConfig {
        indexed_vector_count: config.indexed_vector_count,
        ..plan.config
    })
    &&& config.indexed_vector_count matches Some(n) && n <= total_vector_count && (plan.main_graph
        ==> n == count_true(live_flags(deleted, total_vector_count as int)))
    &&& deleted_stand_apart(graph, deleted)
    &&& plan.main_graph && plan.config.ef_construct > 0 ==> live_have_joined(graph, deleted)
    &&& exists|average_links: usize| #[trigger]
        blocks_are_built(config, graph, plan, total_vector_count, deleted, blocks, average_links)
}

/// Builds the graph of an index over the points that are not deleted.
/// The layers of the points are drawn first. Then the main graph is
/// built, unless it is to have no edges. Then each block of points that
/// share a payload value gets a graph of its own, unless the block is
/// larger than a graph needs, and that graph is taken into the main one.
/// The configuration that is handed back records how many vectors the
/// graph covers. The stop flag is asked before each point and each block;
/// once it is raised the build is given up.
pub fn build_index<S: PointsScorer, F: Fn() -> bool>(
    hnsw_config: HnswConfig,
    total_vector_count: usize,
    available_size_in_bytes: usize,
    deleted: &Vec<bool>,
    blocks: &Vec<PayloadBlock>,
    scorer: &S,
    is_stopped: &F,
) -> (r: Result<(HnswGraphConfig, GraphLayers), OperationError>)
    requires
        total_vector_count <= u32::MAX,
        scorer.spec_len() == total_vector_count,
        2 * hnsw_config.m <= usize::MAX,
        hnsw_config.payload_m matches Some(v) ==> 2 * v <= usize::MAX,
        forall|b: int, i: int|
            0 <= b < blocks@.len() && 0 <= i < blocks@[b].points@.len() ==> (
            #[trigger] blocks@[b].points@[i]) < total_vector_count,
        call_requires(*is_stopped, ()),
    ensures
        r matches Err(e) ==> is_cancellation(e) && call_ensures(*is_stopped, (), true),
        r matches Ok((config, graph)) ==> is_built(
            config,
            &graph,
            hnsw_config,
            total_vector_count,
            available_size_in_bytes,
            deleted@,
            blocks@,
        ),
        r is Ok && count_true(live_flags(deleted@, total_vector_count as int)) > 0 ==> call_ensures(
            *is_stopped,
            (),
            false,
        ),
        !call_ensures(*is_stopped, (), true) ==> r is Ok,
{
    let plan: BuildPlan = build_plan(hnsw_config, total_vector_count, available_size_in_bytes);
    let mut graph = GraphLayers::new(
        total_vector_count,
        plan.config.m,
        plan.config.m0,
        plan.config.ef_construct,
    );
    let ghost flags = live_flags(deleted@, total_vector_count as int);
    let mut live_ids: Vec<PointOffsetType> = Vec::new();
    let mut point: PointOffsetType = 0;
    proof {
        assert(flags.take(0) =~= Seq::<bool>::empty());
    }
    while (point as usize) < total_vector_count
        invariant
            point <= total_vector_count,
            total_vector_count <= u32::MAX,
            flags == live_flags(deleted@, total_vector_count as int),
            graph.wf(),
            graph.spec_num_points() == total_vector_count,
            graph.spec_m() == plan.config.m,
            graph.spec_m0() == plan.config.m0,
            graph.spec_ef_construct() == plan.config.ef_construct,
            graph.spec_entry() is None,
            deleted_stand_apart(&graph, deleted@),
            all_live(live_ids@, deleted@),
            forall|p: PointOffsetType| !#[trigger] graph.is_linked(p),
            forall|p: PointOffsetType|
                p < graph.spec_num_points() ==> (#[trigger] graph.neighbours(p, 0)).len() == 0,
            forall|i: int, j: int| 0 <= i < j < live_ids@.len() ==> live_ids@[i] < live_ids@[j],
            forall|i: int| 0 <= i < live_ids@.len() ==> (#[trigger] live_ids@[i]) < point,
            forall|p: PointOffsetType|
                p < point && !#[trigger] spec_is_deleted(deleted@, p) ==> live_ids@.contains(p),
            live_ids@.len() > 0 ==> call_ensures(*is_stopped, (), false),
            live_ids@.len() == count_true(flags.take(point as int)),
            forall|i: int| 0 <= i < live_ids@.len() ==> (#[trigger] live_ids@[i]) < total_vector_count,
            call_requires(*is_stopped, ()),
        decreases total_vector_count - point,
    {
        proof {
            assert(flags.take(point as int + 1).drop_last() =~= flags.take(point as int));
            assert(flags.take(point as int + 1).last() == flags[point as int]);
            lemma_count_true_bounded(flags.take(point as int));
        }
        let is_deleted: bool = (point as usize) < deleted.len() && deleted[point as usize];
        if !is_deleted {
            let stopped: bool = is_stopped();
            match check_process_stopped(stopped) {
                Ok(()) => {},
                Err(e) => {
                    return Err(e);
                },
            }
            let level: usize = get_random_layer(plan.config.m, MAX_GRAPH_LEVEL);
            let ghost before = graph;
            let ghost ids_before = live_ids@;
            graph.set_levels(point, level);
            live_ids.push(point);
            proof {
                assert forall|p: PointOffsetType|
                    p < graph.spec_num_points() && #[trigger] spec_is_deleted(
                        deleted@,
                        p,
                    ) implies {
                    &&& graph.level_of(p) == 0
                    &&& graph.neighbours(p, 0).len() == 0
                    &&& !graph.is_linked(p)
                } by {
                    assert(p != point);
                    assert(graph.level_of(p) == before.level_of(p));
                    assert(graph.neighbours(p, 0) == before.neighbours(p, 0));
                    assert(!before.is_linked(p));
                }
                assert forall|i: int| 0 <= i < live_ids@.len() implies !spec_is_deleted(
                    deleted@,
                    #[trigger] live_ids@[i],
                ) by {
                    if i < ids_before.len() {
                        assert(live_ids@[i] == ids_before[i]);
                    }
                }
                assert forall|p: PointOffsetType| !#[trigger] graph.is_linked(p) by {
                    assert(!before.is_linked(p));
                }
                assert forall|p: PointOffsetType| p < graph.spec_num_points() implies (
                #[trigger] graph.neighbours(p, 0)).len() == 0 by {
                    assert(before.neighbours(p, 0).len() == 0);
                    assert(0 <= before.level_of(p)) by {
                        assert(before.spec_links()[p as int]@.len() >= 1);
                    }
                }
                assert forall|i: int, j: int| 0 <= i < j < live_ids@.len() implies live_ids@[i]
                    < live_ids@[j] by {
                    assert(live_ids@[i] == ids_before[i]);
                    if j < ids_before.len() {
                        assert(live_ids@[j] == ids_before[j]);
                    }
                }
                assert forall|p: PointOffsetType|
                    p < point + 1 && !#[trigger] spec_is_deleted(
                        deleted@,
                        p,
                    ) implies live_ids@.contains(p) by {
                    if p < point {
                        assert(ids_before.contains(p));
                        let k = choose|k: int| 0 <= k < ids_before.len() && ids_before[k] == p;
                        assert(live_ids@[k] == p);
                    } else {
                        assert(live_ids@[live_ids@.len() - 1] == p);
                    }
                }
            }
        }
        point = point + 1;
    }
    proof {
        assert(flags.take(total_vector_count as int) =~= flags);
    }
    let mut indexed_vectors: usize = 0;
    if plan.main_graph {
        let ghost before = graph;
        let ghost live = live_ids@;
        proof {
            assert(new_to(&before, live));
            assert(well_joined(&before));
        }
        indexed_vectors = live_ids.len();
        let schedule: LinkSchedule = main_graph_schedule(&plan, live_ids);
        proof {
            assert(schedule.spec_ids() =~= live);
        }
        match link_schedule(&mut graph, &schedule, scorer, is_stopped) {
            Ok(()) => {},
            Err(e) => {
                return Err(e);
            },
        }
        proof {
            lemma_linked_apart(&before, &graph, live, deleted@);
            if plan.config.ef_construct > 0 {
                assert forall|p: PointOffsetType|
                    p < graph.spec_num_points() && !#[trigger] spec_is_deleted(
                        deleted@,
                        p,
                    ) implies is_joined(&graph, p) by {
                    assert(live.contains(p));
                    let k = choose|k: int| 0 <= k < live.len() && live[k] == p;
                    assert(is_joined(&graph, live[k]));
                }
            }
        }
    }
    let mut block_filter_list = VisitedList::new(total_vector_count);
    let ghost mut average: usize = 0;
    if plan.payload_graphs {
        let average_links: usize = graph.get_average_connectivity_on_level(0);
        let limit: usize = max_block_size(plan.config.m, total_vector_count, average_links);
        proof {
            average = average_links;
        }
        let mut b: usize = 0;
        while b < blocks.len()
            invariant
                b <= blocks.len(),
                limit == spec_max_block_size(plan.config.m, total_vector_count, average) as usize,
                forall|k: int|
                    0 <= k < b && spec_block_is_indexed(#[trigger] blocks@[k], limit)
                        ==> block_is_merged(&graph, blocks@[k].points@, deleted@, plan),
                forall|p: int|
                    0 <= p < total_vector_count ==> #[trigger] block_filter_list@[p] == marked_by(
                        blocks@,
                        deleted@,
                        limit,
                        b as int,
                        p,
                    ),
                total_vector_count <= u32::MAX,
                scorer.spec_len() == total_vector_count,
                flags == live_flags(deleted@, total_vector_count as int),
                graph.wf(),
                graph.spec_num_points() == total_vector_count,
                graph.spec_ef_construct() == plan.config.ef_construct,
                deleted_stand_apart(&graph, deleted@),
                plan.main_graph && plan.config.ef_construct > 0 ==> live_have_joined(
                    &graph,
                    deleted@,
                ),
                block_filter_list.wf(),
                block_filter_list@.len() == total_vector_count,
                forall|p: int| 0 <= p < total_vector_count && block_filter_list@[p] ==> flags[p],
                forall|k: int, i: int|
                    0 <= k < blocks@.len() && 0 <= i < blocks@[k].points@.len() ==> (
                    #[trigger] blocks@[k].points@[i]) < total_vector_count,
                call_requires(*is_stopped, ()),
            decreases blocks.len() - b,
        {
            let stopped: bool = is_stopped();
            match check_process_stopped(stopped) {
                Ok(()) => {},
                Err(e) => {
                    return Err(e);
                },
            }
            if block_is_indexed(blocks[b].cardinality, limit) {
                let mut additional_graph = GraphLayers::new(
                    total_vector_count,
                    plan.payload_m,
                    plan.payload_m0,
                    plan.config.ef_construct,
                );
                let ghost marks = block_filter_list@;
                proof {
                    assert forall|i: int| 0 <= i < blocks@[b as int].points@.len() implies blocks@[b as int].points@[i]
                        < block_filter_list@.len() by {
                        assert(blocks@[b as int].points@[i] < total_vector_count);
                    }
                }
                let ghost empty_graph = additional_graph;
                let ghost live = live_points(blocks@[b as int].points@, deleted@);
                match build_filtered_graph(
                    &mut additional_graph,
                    &blocks[b].points,
                    deleted,
                    &mut block_filter_list,
                    scorer,
                    is_stopped,
                ) {
                    Ok(()) => {},
                    Err(e) => {
                        return Err(e);
                    },
                }
                proof {
                    lemma_live_points(blocks@[b as int].points@, deleted@);
                    assert forall|p: int|
                        0 <= p < total_vector_count && block_filter_list@[p] implies flags[p] by {
                        if !marks[p] {
                            assert(holds_point(live, p));
                            let k = choose|k: int| 0 <= k < live.len() && live[k] as int == p;
                            assert(!spec_is_deleted(deleted@, live[k]));
                        }
                    }
                    assert(all_live(live, deleted@));
                    lemma_linked_apart(&empty_graph, &additional_graph, live, deleted@);
                }
                let ghost main_graph = graph;
                graph.merge_from_other(&additional_graph);
                proof {
                    lemma_merge_holds(&main_graph, &additional_graph, &graph);
                    assert(is_fresh(
                        &empty_graph,
                        total_vector_count,
                        plan.payload_m,
                        plan.payload_m0,
                        plan.config.ef_construct,
                    ));
                    assert(linked_each(&empty_graph, &additional_graph, live));
                    assert(block_is_merged(&graph, blocks@[b as int].points@, deleted@, plan));
                    assert forall|k: int|
                        0 <= k < b && spec_block_is_indexed(
                            #[trigger] blocks@[k],
                            limit,
                        ) implies block_is_merged(&graph, blocks@[k].points@, deleted@, plan) by {
                        assert(block_is_merged(&main_graph, blocks@[k].points@, deleted@, plan));
                        let (fresh, built) = choose|fresh: GraphLayers, built: GraphLayers|
                            is_fresh(
                                &fresh,
                                main_graph.spec_num_points() as usize,
                                plan.payload_m,
                                plan.payload_m0,
                                plan.config.ef_construct,
                            ) && (#[trigger] linked_each(
                                &fresh,
                                &built,
                                live_points(blocks@[k].points@, deleted@),
                            )) && holds_links_of(&main_graph, &built);
                        lemma_merge_keeps(&main_graph, &additional_graph, &graph, &built);
                        assert(linked_each(
                            &fresh,
                            &built,
                            live_points(blocks@[k].points@, deleted@),
                        ));
                    }
                    assert forall|p: int| 0 <= p < total_vector_count implies #[trigger] block_filter_list@[p]
                        == marked_by(blocks@, deleted@, limit, b + 1, p) by {
                        assert(marks[p] == marked_by(blocks@, deleted@, limit, b as int, p));
                        if holds_point(live, p) {
                            assert(spec_block_is_indexed(blocks@[b as int], limit));
                        }
                        if marked_by(blocks@, deleted@, limit, b + 1, p) && !marked_by(
                            blocks@,
                            deleted@,
                            limit,
                            b as int,
                            p,
                        ) {
                            let k = choose|k: int|
                                0 <= k < b + 1 && k < blocks@.len() && spec_block_is_indexed(
                                    #[trigger] blocks@[k],
                                    limit,
                                ) && holds_point(live_points(blocks@[k].points@, deleted@), p);
                            assert(k == b);
                        }
                    }
                    assert forall|p: PointOffsetType|
                        p < graph.spec_num_points() && #[trigger] spec_is_deleted(
                            deleted@,
                            p,
                        ) implies {
                        &&& graph.level_of(p) == 0
                        &&& graph.neighbours(p, 0).len() == 0
                        &&& !graph.is_linked(p)
                    } by {
                        assert(main_graph.level_of(p) == 0 && additional_graph.level_of(p) == 0);
                        assert(graph.level_of(p) == crate::graph_layers::higher(
                            main_graph.level_of(p),
                            additional_graph.level_of(p),
                        ));
                        assert(graph.merged_at(&main_graph, &additional_graph, p, 0));
                        assert(additional_graph.row_or_empty(p, 0).len() == 0);
                        assert(!main_graph.is_linked(p) && !additional_graph.is_linked(p));
                    }
                    if plan.main_graph && plan.config.ef_construct > 0 {
                        if main_graph.spec_entry() is Some && additional_graph.spec_entry() is Some {
                            let theirs = additional_graph.spec_entry().unwrap();
                            let ours = main_graph.spec_entry().unwrap();
                            assert(additional_graph.level_of(theirs) == empty_graph.level_of(theirs));
                            assert(empty_graph.level_of(theirs) == 0);
                            assert(main_graph.spec_links()[ours as int]@.len() >= 1);
                        }
                        assert forall|p: PointOffsetType|
                            p < graph.spec_num_points() && !#[trigger] spec_is_deleted(
                                deleted@,
                                p,
                            ) implies is_joined(&graph, p) by {
                            assert(is_joined(&main_graph, p));
                            assert(main_graph.spec_links()[p as int]@.len() >= 1);
                            assert(graph.level_of(p) == crate::graph_layers::higher(
                                main_graph.level_of(p),
                                additional_graph.level_of(p),
                            ));
                            assert(graph.merged_at(&main_graph, &additional_graph, p, 0));
                            crate::graph_layers::lemma_merged_row(
                                main_graph.row_or_empty(p, 0),
                                additional_graph.row_or_empty(p, 0),
                            );
                        }
                    }
                }
            } else {
                proof {
                    assert forall|p: int| 0 <= p < total_vector_count implies #[trigger] block_filter_list@[p]
                        == marked_by(blocks@, deleted@, limit, b + 1, p) by {
                        if marked_by(blocks@, deleted@, limit, b + 1, p) {
                            let k = choose|k: int|
                                0 <= k < b + 1 && k < blocks@.len() && spec_block_is_indexed(
                                    #[trigger] blocks@[k],
                                    limit,
                                ) && holds_point(live_points(blocks@[k].points@, deleted@), p);
                            assert(k < b);
                        }
                    }
                }
            }
            b = b + 1;
        }
        proof {
            assert(block_filter_list@ =~= block_marks(
                blocks@,
                deleted@,
                limit,
                total_vector_count as int,
            ));
        }
    } else {
        proof {
            lemma_count_true_all_false(block_filter_list@);
        }
    }
    let indexed_payload_vectors: usize = block_filter_list.count_visits();
    proof {
        lemma_count_true_below(block_filter_list@, flags);
        lemma_count_true_bounded(flags);
    }
    let config: HnswGraphConfig = finish_build(plan.config, indexed_vectors, indexed_payload_vectors);
    proof {
        assert(blocks_are_built(
            config,
            &graph,
            plan,
            total_vector_count,
            deleted@,
            blocks@,
            average,
        ));
    }
    Ok((config, graph))
}

} // verus!

use vstd::prelude::*;
use crate::hnsw::{count_true, cut_to};
use crate::hnsw_build::{lemma_count_true_bounded, lemma_count_true_update};
use crate::point_scorer::PointsScorer;
use crate::sorting::insertion_point;
use crate::types::{PointOffsetType, ScoreType, ScoredPointOffset};

verus! {

/// Against what points are scored: the query of a search, or a point that
/// is being linked.
#[derive(Clone, Copy, Debug, PartialEq, Eq, Structural)]
pub enum Target {
    Query,
    Point(PointOffsetType),
}

/// The score of a point against the target.
pub open spec fn target_score<S: PointsScorer>(
    scorer: &S,
    target: Target,
    point: PointOffsetType,
) -> ScoreType {
    match target {
        Target::Query => scorer.spec_score(point),
        Target::Point(base) => scorer.spec_score_internal(base, point),
    }
}

fn score_against<S: PointsScorer>(scorer: &S, target: Target, point: PointOffsetType) -> (s:
    ScoreType)
    requires
        point < scorer.spec_len(),
        target matches Target::Point(base) ==> base < scorer.spec_len(),
    ensures
        s == target_score(scorer, target, point),
{
    match target {
        Target::Query => scorer.score_point(point),
        Target::Point(base) => scorer.score_internal(base, point),
    }
}

/// True when the entry names a point of the graph that reaches the level,
/// with its score against the target, and the point is marked as seen.
pub open spec fn entry_ok<S: PointsScorer>(
    entry: ScoredPointOffset,
    links: Seq<Vec<Vec<PointOffsetType>>>,
    level: int,
    scorer: &S,
    target: Target,
    visited: Seq<bool>,
) -> bool {
    &&& entry.idx < links.len()
    &&& level < links[entry.idx as int]@.len()
    &&& entry.score == target_score(scorer, target, entry.idx)
    &&& entry.idx < visited.len() && visited[entry.idx as int]
}

/// No point stands twice in the list.
pub open spec fn distinct_points(list: Seq<ScoredPointOffset>) -> bool {
    forall|i: int, j: int| 0 <= i < j < list.len() ==> list[i].idx != list[j].idx
}

/// No element of the list has a better score than one before it.
pub open spec fn falling(list: Seq<ScoredPointOffset>) -> bool {
    forall|i: int, j: int| 0 <= i < j < list.len() ==> list[i].score >= list[j].score
}

/// No element of the list has a worse score than one before it.
pub open spec fn rising(list: Seq<ScoredPointOffset>) -> bool {
    forall|i: int, j: int| 0 <= i < j < list.len() ==> list[i].score <= list[j].score
}

/// Puts an element into a list that falls by score, behind the elements
/// that score at least as well.
fn insert_falling(list: &mut Vec<ScoredPointOffset>, item: ScoredPointOffset) -> (pos: usize)
    requires
        falling(old(list)@),
    ensures
        falling(final(list)@),
        pos == insertion_point(old(list)@, item.score),
        pos <= old(list)@.len(),
        final(list)@ == old(list)@.insert(pos as int, item),
{
    let mut pos: usize = list.len();
    proof {
        assert(list@.take(pos as int) =~= list@);
    }
    while pos > 0 && list[pos - 1].score < item.score
        invariant
            pos <= list.len(),
            *list == *old(list),
            forall|k: int| pos <= k < list.len() ==> list@[k].score < item.score,
            insertion_point(list@, item.score) == insertion_point(
                list@.take(pos as int),
                item.score,
            ),
        decreases pos,
    {
        proof {
            assert(list@.take(pos as int).drop_last() =~= list@.take(pos as int - 1));
        }
        pos = pos - 1;
    }
    let ghost before = list@;
    list.insert(pos, item);
    proof {
        let after = list@;
        assert forall|a: int, b: int| 0 <= a < b < after.len() implies after[a].score
            >= after[b].score by {
            let ba = if a < pos { a } else { a - 1 };
            let bb = if b < pos { b } else { b - 1 };
            if a != pos {
                assert(after[a] == before[ba]);
            }
            if b != pos {
                assert(after[b] == before[bb]);
            }
            if b == pos && pos > 0 {
                assert(before[a].score >= before[pos - 1].score);
            }
        }
    }
    pos
}

/// Where an element with the given score goes into a list that rises by
/// score: behind the last element that does not score better.
pub open spec fn rising_point(sorted: Seq<ScoredPointOffset>, score: ScoreType) -> int
    decreases sorted.len(),
{
    if sorted.len() == 0 {
        0
    } else if sorted.last().score <= score {
        sorted.len() as int
    } else {
        rising_point(sorted.drop_last(), score)
    }
}

/// Puts an element into a list that rises by score, before the elements
/// that score better.
fn insert_rising(list: &mut Vec<ScoredPointOffset>, item: ScoredPointOffset) -> (pos: usize)
    requires
        rising(old(list)@),
    ensures
        rising(final(list)@),
        pos == rising_point(old(list)@, item.score),
        pos <= old(list)@.len(),
        final(list)@ == old(list)@.insert(pos as int, item),
{
    let mut pos: usize = list.len();
    proof {
        assert(list@.take(pos as int) =~= list@);
    }
    while pos > 0 && list[pos - 1].score > item.score
        invariant
            pos <= list.len(),
            *list == *old(list),
            forall|k: int| pos <= k < list.len() ==> list@[k].score > item.score,
            rising_point(list@, item.score) == rising_point(list@.take(pos as int), item.score),
        decreases pos,
    {
        proof {
            assert(list@.take(pos as int).drop_last() =~= list@.take(pos as int - 1));
        }
        pos = pos - 1;
    }
    let ghost before = list@;
    list.insert(pos, item);
    proof {
        let after = list@;
        assert forall|a: int, b: int| 0 <= a < b < after.len() implies after[a].score
            <= after[b].score by {
            let ba = if a < pos { a } else { a - 1 };
            let bb = if b < pos { b } else { b - 1 };
            if a != pos {
                assert(after[a] == before[ba]);
            }
            if b != pos {
                assert(after[b] == before[bb]);
            }
            if b == pos && pos > 0 {
                assert(before[a].score <= before[pos - 1].score);
            }
        }
    }
    pos
}

/// A graph of the points in layers: every linked point is on the ground
/// layer, fewer and fewer on the layers above. Each point holds a short
/// list of neighbours on each layer that it reaches.
#[derive(Debug)]
pub struct GraphLayers {
    m: usize,
    m0: usize,
    ef_construct: usize,
    links: Vec<Vec<Vec<PointOffsetType>>>,
    entry_point: Option<PointOffsetType>,
}

/// The most neighbours that a point may have on a layer.
pub open spec fn link_limit(m: usize, m0: usize, level: int) -> int {
    if level == 0 {
        m0 as int
    } else {
        m as int
    }
}

/// The lists of neighbours are sound: each point has its ground layer,
/// each neighbour is a point that reaches the layer of the list, and no
/// list is longer than its layer allows.
pub open spec fn links_ok(links: Seq<Vec<Vec<PointOffsetType>>>, m: usize, m0: usize) -> bool {
    &&& links.len() <= u32::MAX
    &&& forall|p: int| 0 <= p < links.len() ==> (#[trigger] links[p])@.len() >= 1
    &&& forall|p: int, l: int|
        0 <= p < links.len() && 0 <= l < links[p]@.len() ==> (#[trigger] links[p]@[l])@.len()
            <= link_limit(m, m0, l)
    &&& forall|p: int, l: int, k: int|
        0 <= p < links.len() && 0 <= l < links[p]@.len() && 0 <= k < links[p]@[l]@.len() ==> {
            &&& (#[trigger] links[p]@[l]@[k]) < links.len()
            &&& l < links[links[p]@[l]@[k] as int]@.len()
        }
}

impl GraphLayers {
    pub closed spec fn spec_links(&self) -> Seq<Vec<Vec<PointOffsetType>>> {
        self.links@
    }

    pub closed spec fn spec_m(&self) -> usize {
        self.m
    }

    pub closed spec fn spec_m0(&self) -> usize {
        self.m0
    }

    pub closed spec fn spec_entry(&self) -> Option<PointOffsetType> {
        self.entry_point
    }

    pub closed spec fn spec_ef_construct(&self) -> usize {
        self.ef_construct
    }

    /// Number of points that the graph has room for.
    pub open spec fn spec_num_points(&self) -> nat {
        self.spec_links().len()
    }

    /// The neighbours of a point on a layer.
    pub open spec fn neighbours(&self, point: PointOffsetType, level: int) -> Seq<PointOffsetType> {
        self.spec_links()[point as int]@[level]@
    }

    /// The highest layer that the point reaches.
    pub open spec fn level_of(&self, point: PointOffsetType) -> int {
        self.spec_links()[point as int]@.len() - 1
    }

    pub open spec fn wf(&self) -> bool {
        &&& links_ok(self.spec_links(), self.spec_m(), self.spec_m0())
        &&& self.spec_entry() matches Some(e) ==> e < self.spec_num_points()
    }

    pub fn num_points(&self) -> (r: usize)
        ensures
            r == self.spec_num_points(),
    {
        self.links.len()
    }

}

/// The lists of a walk are sound: the candidates rise and the results fall
/// by score, no point stands twice among the results, which are no more
/// than `ef`, and each element names a point that reaches the layer, with
/// its score, and is marked as seen; the results may come out.
pub open spec fn lists_ok<S: PointsScorer>(
    candidates: Seq<ScoredPointOffset>,
    results: Seq<ScoredPointOffset>,
    links: Seq<Vec<Vec<PointOffsetType>>>,
    level: int,
    scorer: &S,
    target: Target,
    checked: bool,
    ef: usize,
    visited: Seq<bool>,
) -> bool {
    &&& rising(candidates)
    &&& falling(results)
    &&& distinct_points(results)
    &&& results.len() <= ef
    &&& forall|i: int|
        0 <= i < candidates.len() ==> #[trigger] entry_ok(
            candidates[i],
            links,
            level,
            scorer,
            target,
            visited,
        )
    &&& forall|i: int|
        0 <= i < results.len() ==> #[trigger] entry_ok(
            results[i],
            links,
            level,
            scorer,
            target,
            visited,
        )
    &&& forall|i: int|
        0 <= i < results.len() ==> checked ==> scorer.spec_check(#[trigger] results[i].idx)
}

/// True when the point is among the list.
pub open spec fn lists_point(list: Seq<ScoredPointOffset>, point: PointOffsetType) -> bool {
    exists|i: int| 0 <= i < list.len() && list[i].idx == point
}

/// Every point of the first list is the given point or in the second list.
pub open spec fn drawn_from(
    after: Seq<ScoredPointOffset>,
    before: Seq<ScoredPointOffset>,
    point: PointOffsetType,
) -> bool {
    forall|i: int|
        0 <= i < after.len() ==> (#[trigger] after[i]).idx == point || lists_point(
            before,
            after[i].idx,
        )
}

/// The list has an element, and its first scores at least so well.
pub open spec fn leads_with(list: Seq<ScoredPointOffset>, score: ScoreType) -> bool {
    list.len() > 0 && list[0].score >= score
}

/// Lists that are sound stay sound when more points are marked as seen.
proof fn lemma_lists_ok_seen<S: PointsScorer>(
    candidates: Seq<ScoredPointOffset>,
    results: Seq<ScoredPointOffset>,
    links: Seq<Vec<Vec<PointOffsetType>>>,
    level: int,
    scorer: &S,
    target: Target,
    checked: bool,
    ef: usize,
    visited: Seq<bool>,
    later: Seq<bool>,
)
    requires
        lists_ok(candidates, results, links, level, scorer, target, checked, ef, visited),
        later.len() == visited.len(),
        forall|p: int| 0 <= p < visited.len() && visited[p] ==> later[p],
    ensures
        lists_ok(candidates, results, links, level, scorer, target, checked, ef, later),
{
    assert forall|i: int| 0 <= i < candidates.len() implies #[trigger] entry_ok(
        candidates[i],
        links,
        level,
        scorer,
        target,
        later,
    ) by {
        assert(entry_ok(candidates[i], links, level, scorer, target, visited));
    }
    assert forall|i: int| 0 <= i < results.len() implies #[trigger] entry_ok(
        results[i],
        links,
        level,
        scorer,
        target,
        later,
    ) by {
        assert(entry_ok(results[i], links, level, scorer, target, visited));
    }
}

/// True when a point that the walk has come by may lead on: while there
/// are fewer than `ef` results, or when it scores better than the worst of
/// them.
pub open spec fn leads_on(results: Seq<ScoredPointOffset>, item: ScoredPointOffset, ef: usize) -> bool {
    results.len() < ef || (results.len() > 0 && item.score > results.last().score)
}

/// The candidates once a point has been offered: the point stands among
/// them where it may lead on.
pub open spec fn offered_candidates(
    candidates: Seq<ScoredPointOffset>,
    results: Seq<ScoredPointOffset>,
    item: ScoredPointOffset,
    ef: usize,
) -> Seq<ScoredPointOffset> {
    if leads_on(results, item, ef) {
        candidates.insert(rising_point(candidates, item.score), item)
    } else {
        candidates
    }
}

/// The results once a point has been offered: the point stands among them
/// where it may lead on and may come out, and the worst result has left
/// where there were more than `ef`.
pub open spec fn offered_results(
    results: Seq<ScoredPointOffset>,
    item: ScoredPointOffset,
    allowed: bool,
    ef: usize,
) -> Seq<ScoredPointOffset> {
    if allowed && leads_on(results, item, ef) && ef > 0 {
        let grown = results.insert(insertion_point(results, item.score), item);
        if grown.len() > ef {
            grown.drop_last()
        } else {
            grown
        }
    } else {
        results
    }
}

/// How far a walk over a layer has come: the points that it has seen,
/// those from which it may go on, and the best that may come out.
pub struct WalkState {
    pub visited: Seq<bool>,
    pub candidates: Seq<ScoredPointOffset>,
    pub results: Seq<ScoredPointOffset>,
}

/// The walk once it has come by a neighbour: a point seen before is
/// passed over; any other is marked, scored and offered to the lists.
pub open spec fn passed_by<S: PointsScorer>(
    scorer: &S,
    target: Target,
    checked: bool,
    ef: usize,
    state: WalkState,
    neighbour: PointOffsetType,
) -> WalkState {
    if neighbour < state.visited.len() && !state.visited[neighbour as int] {
        let item = ScoredPointOffset {
            idx: neighbour,
            score: target_score(scorer, target, neighbour),
        };
        WalkState {
            visited: state.visited.update(neighbour as int, true),
            candidates: offered_candidates(state.candidates, state.results, item, ef),
            results: offered_results(
                state.results,
                item,
                !checked || scorer.spec_check(neighbour),
                ef,
            ),
        }
    } else {
        state
    }
}

/// The walk once it has gone on from a point: it has come by each of the
/// neighbours of the point in their order.
pub open spec fn expanded<S: PointsScorer>(
    scorer: &S,
    target: Target,
    checked: bool,
    ef: usize,
    state: WalkState,
    row: Seq<PointOffsetType>,
) -> WalkState
    decreases row.len(),
{
    if row.len() == 0 {
        state
    } else {
        passed_by(
            scorer,
            target,
            checked,
            ef,
            expanded(scorer, target, checked, ef, state, row.drop_last()),
            row.last(),
        )
    }
}

/// Takes a point that the walk has come by into its lists: among the
/// candidates where it may lead on, among the results where it may come
/// out. The worst result leaves where there are more than `ef`.
fn offer<S: PointsScorer>(
    candidates: &mut Vec<ScoredPointOffset>,
    results: &mut Vec<ScoredPointOffset>,
    item: ScoredPointOffset,
    allowed: bool,
    Ghost(links): Ghost<Seq<Vec<Vec<PointOffsetType>>>>,
    Ghost(level): Ghost<int>,
    scorer: &S,
    target: Target,
    checked: bool,
    ef: usize,
    Ghost(visited): Ghost<Seq<bool>>,
)
    requires
        lists_ok(old(candidates)@, old(results)@, links, level, scorer, target, checked, ef, visited),
        entry_ok(item, links, level, scorer, target, visited),
        !lists_point(old(results)@, item.idx),
        allowed && checked ==> scorer.spec_check(item.idx),
    ensures
        lists_ok(final(candidates)@, final(results)@, links, level, scorer, target, checked, ef, visited),
        final(candidates)@.len() <= old(candidates)@.len() + 1,
        drawn_from(final(results)@, old(results)@, item.idx),
        old(results)@.len() > 0 ==> leads_with(final(results)@, old(results)@[0].score),
        allowed && ef > 0 ==> leads_with(final(results)@, item.score),
        final(candidates)@ == offered_candidates(old(candidates)@, old(results)@, item, ef),
        final(results)@ == offered_results(old(results)@, item, allowed, ef),
{
    let ghost old_candidates = candidates@;
    let ghost old_results = results@;
    let goes_on: bool = results.len() < ef || (results.len() > 0 && item.score
        > results[results.len() - 1].score);
    if goes_on {
        let cpos: usize = insert_rising(candidates, item);
        proof {
            assert forall|i: int| 0 <= i < candidates@.len() implies #[trigger] entry_ok(
                candidates@[i],
                links,
                level,
                scorer,
                target,
                visited,
            ) by {
                if i < cpos {
                    assert(candidates@[i] == old_candidates[i]);
                    assert(entry_ok(old_candidates[i], links, level, scorer, target, visited));
                } else if i > cpos {
                    assert(candidates@[i] == old_candidates[i - 1]);
                    assert(entry_ok(old_candidates[i - 1], links, level, scorer, target, visited));
                }
            }
        }
    }
    if allowed && goes_on && ef > 0 {
        let rpos: usize = insert_falling(results, item);
        let ghost grown = results@;
        if results.len() > ef {
            results.pop();
        }
        proof {
            assert forall|i: int| 0 <= i < grown.len() implies (grown[i] == item || (exists|j: int|
                0 <= j < old_results.len() && old_results[j] == #[trigger] grown[i])) by {
                if i < rpos {
                    assert(grown[i] == old_results[i]);
                } else if i > rpos {
                    assert(grown[i] == old_results[i - 1]);
                }
            }
            assert forall|a: int, b: int| 0 <= a < b < grown.len() implies grown[a].idx
                != grown[b].idx by {
                let oa = if a < rpos { a } else { a - 1 };
                let ob = if b < rpos { b } else { b - 1 };
                if a != rpos && b != rpos {
                    assert(grown[a] == old_results[oa] && grown[b] == old_results[ob]);
                } else if a == rpos {
                    assert(grown[b] == old_results[ob]);
                    assert(old_results[ob].idx != item.idx);
                } else {
                    assert(grown[a] == old_results[oa]);
                    assert(old_results[oa].idx != item.idx);
                }
            }
            assert forall|i: int| 0 <= i < results@.len() implies results@[i] == grown[i] by {}
            assert forall|i: int| 0 <= i < results@.len() implies #[trigger] entry_ok(
                results@[i],
                links,
                level,
                scorer,
                target,
                visited,
            ) && (checked ==> scorer.spec_check(results@[i].idx)) && (results@[i].idx == item.idx
                || lists_point(old_results, results@[i].idx)) by {
                if results@[i] != item {
                    let j = choose|j: int| 0 <= j < old_results.len() && old_results[j] == grown[i];
                    assert(entry_ok(old_results[j], links, level, scorer, target, visited));
                    assert(checked ==> scorer.spec_check(old_results[j].idx));
                }
            }
            assert forall|a: int, b: int| 0 <= a < b < results@.len() implies results@[a].score
                >= results@[b].score && results@[a].idx != results@[b].idx by {
                assert(grown[a].score >= grown[b].score);
            }
            assert(results@[0] == grown[0]);
            assert(grown[rpos as int] == item);
            if rpos > 0 {
                assert(grown[0] == old_results[0]);
                assert(grown[0].score >= grown[rpos as int].score);
            } else if old_results.len() > 0 {
                assert(grown[1] == old_results[0]);
                assert(grown[0].score >= grown[1].score);
            }
        }
    } else {
        proof {
            if results@.len() > 0 {
                assert(results@[0].score >= results@[results@.len() - 1].score);
            }
            assert forall|i: int| 0 <= i < results@.len() implies (#[trigger] results@[i]).idx
                == item.idx || lists_point(old_results, results@[i].idx) by {
                assert(old_results[i].idx == results@[i].idx);
            }
        }
    }
}

/// The lists of a walk once its entries have been offered in their order.
pub open spec fn entered<S: PointsScorer>(
    scorer: &S,
    checked: bool,
    ef: usize,
    visited: Seq<bool>,
    entries: Seq<ScoredPointOffset>,
) -> WalkState
    decreases entries.len(),
{
    if entries.len() == 0 {
        WalkState { visited, candidates: Seq::empty(), results: Seq::empty() }
    } else {
        let state = entered(scorer, checked, ef, visited, entries.drop_last());
        let item = entries.last();
        WalkState {
            visited: state.visited,
            candidates: offered_candidates(state.candidates, state.results, item, ef),
            results: offered_results(
                state.results,
                item,
                !checked || scorer.spec_check(item.idx),
                ef,
            ),
        }
    }
}

/// A bound on the steps that a walk still takes: each step takes a
/// candidate away, and a candidate comes in only for a point that is seen
/// for the first time.
pub open spec fn walk_steps(state: WalkState) -> int {
    2 * (state.visited.len() - count_true(state.visited)) + state.candidates.len() + 1
}

/// The better of a point and the neighbours in a list: the first of the
/// neighbours that scores better than all before it and the point.
pub open spec fn better_of<S: PointsScorer>(
    scorer: &S,
    target: Target,
    current: ScoredPointOffset,
    row: Seq<PointOffsetType>,
) -> ScoredPointOffset
    decreases row.len(),
{
    if row.len() == 0 {
        current
    } else {
        let best = better_of(scorer, target, current, row.drop_last());
        let score = target_score(scorer, target, row.last());
        if score > best.score {
            ScoredPointOffset { idx: row.last(), score }
        } else {
            best
        }
    }
}

/// Marks for so many points, none of them set.
pub open spec fn unmarked(n: nat) -> Seq<bool> {
    Seq::new(n, |i: int| false)
}

impl GraphLayers {
    /// The walk over a layer, continued for at most so many steps: the
    /// best candidate is taken; where it is worse than the worst of `ef`
    /// results the walk ends, else the walk goes on from it.
    pub open spec fn walked<S: PointsScorer>(
        &self,
        scorer: &S,
        target: Target,
        checked: bool,
        ef: usize,
        level: int,
        state: WalkState,
        steps: int,
    ) -> WalkState
        decreases steps,
    {
        if steps <= 0 || state.candidates.len() == 0 {
            state
        } else {
            let candidate = state.candidates.last();
            if ef == 0 || (state.results.len() >= ef && candidate.score
                < state.results.last().score) {
                WalkState {
                    visited: state.visited,
                    candidates: Seq::empty(),
                    results: state.results,
                }
            } else {
                self.walked(
                    scorer,
                    target,
                    checked,
                    ef,
                    level,
                    expanded(
                        scorer,
                        target,
                        checked,
                        ef,
                        (WalkState {
                            visited: state.visited,
                            candidates: state.candidates.drop_last(),
                            results: state.results,
                        }),
                        self.neighbours(candidate.idx, level),
                    ),
                    steps - 1,
                )
            }
        }
    }

    /// The walk over a layer from the entries to its end.
    pub open spec fn spec_search_on_level<S: PointsScorer>(
        &self,
        scorer: &S,
        target: Target,
        checked: bool,
        ef: usize,
        level: int,
        entries: Seq<ScoredPointOffset>,
        visited: Seq<bool>,
    ) -> WalkState {
        let state = entered(scorer, checked, ef, visited, entries);
        self.walked(scorer, target, checked, ef, level, state, walk_steps(state))
    }

    /// The climb on a layer towards the target, for at most so many
    /// rounds: the point moves to the best of its neighbours that are
    /// better than it, as long as there is one.
    pub open spec fn climbed<S: PointsScorer>(
        &self,
        scorer: &S,
        target: Target,
        level: int,
        current: ScoredPointOffset,
        rounds: int,
    ) -> ScoredPointOffset
        decreases rounds,
    {
        if rounds <= 0 {
            current
        } else {
            let next = better_of(scorer, target, current, self.neighbours(current.idx, level));
            if next.score > current.score {
                self.climbed(scorer, target, level, next, rounds - 1)
            } else {
                current
            }
        }
    }

    /// The descent from a layer to the one above the target layer: a climb
    /// on each layer, of no more rounds than the graph has points.
    pub open spec fn descended<S: PointsScorer>(
        &self,
        scorer: &S,
        target: Target,
        current: ScoredPointOffset,
        level: int,
        target_level: int,
    ) -> ScoredPointOffset
        decreases level,
    {
        if level <= target_level || level <= 0 {
            current
        } else {
            self.descended(
                scorer,
                target,
                self.climbed(scorer, target, level, current, self.spec_num_points() as int),
                level - 1,
                target_level,
            )
        }
    }

    /// The walk over one layer from the entries: the best `ef` points that
    /// it comes by and that may come out, best first. The walk goes on from
    /// the best point not yet gone on from, and ends when that point is
    /// worse than the worst of `ef` results.
    fn search_on_level<S: PointsScorer>(
        &self,
        entries: &Vec<ScoredPointOffset>,
        level: usize,
        ef: usize,
        scorer: &S,
        target: Target,
        checked: bool,
        visited: &mut Vec<bool>,
    ) -> (r: Vec<ScoredPointOffset>)
        requires
            self.wf(),
            scorer.spec_len() == self.spec_num_points(),
            target matches Target::Point(base) ==> base < scorer.spec_len(),
            old(visited)@.len() == self.spec_num_points(),
            distinct_points(entries@),
            forall|i: int|
                0 <= i < entries@.len() ==> #[trigger] entry_ok(
                    entries@[i],
                    self.spec_links(),
                    level as int,
                    scorer,
                    target,
                    old(visited)@,
                ),
        ensures
            final(visited)@.len() == old(visited)@.len(),
            forall|p: int| 0 <= p < old(visited)@.len() && old(visited)@[p] ==> final(visited)@[p],
            lists_ok(
                Seq::<ScoredPointOffset>::empty(),
                r@,
                self.spec_links(),
                level as int,
                scorer,
                target,
                checked,
                ef,
                final(visited)@,
            ),
            forall|i: int|
                0 <= i < r@.len() ==> lists_point(entries@, (#[trigger] r@[i]).idx) || !old(
                    visited,
                )@[r@[i].idx as int],
            forall|k: int|
                0 <= k < entries@.len() && ef > 0 && (checked ==> scorer.spec_check(
                    (#[trigger] entries@[k]).idx,
                )) ==> leads_with(r@, entries@[k].score),
            forall|i: int|
                0 <= i < r@.len() ==> lists_point(entries@, (#[trigger] r@[i]).idx)
                    || self.is_linked(r@[i].idx),
            r@ == self.spec_search_on_level(
                scorer,
                target,
                checked,
                ef,
                level as int,
                entries@,
                old(visited)@,
            ).results,
            final(visited)@ == self.spec_search_on_level(
                scorer,
                target,
                checked,
                ef,
                level as int,
                entries@,
                old(visited)@,
            ).visited,
    {
        let ghost links = self.spec_links();
        let ghost n = self.spec_num_points();
        let ghost seen_at_start = visited@;
        let mut results: Vec<ScoredPointOffset> = Vec::new();
        let mut candidates: Vec<ScoredPointOffset> = Vec::new();
        let mut e: usize = 0;
        proof {
            assert(entries@.take(0) =~= Seq::<ScoredPointOffset>::empty());
        }
        while e < entries.len()
            invariant
                e <= entries.len(),
                (WalkState { visited: visited@, candidates: candidates@, results: results@ })
                    == entered(scorer, checked, ef, seen_at_start, entries@.take(e as int)),
                links == self.spec_links(),
                scorer.spec_len() == links.len(),
                *visited == *old(visited),
                distinct_points(entries@),
                forall|i: int|
                    0 <= i < entries@.len() ==> #[trigger] entry_ok(
                        entries@[i],
                        links,
                        level as int,
                        scorer,
                        target,
                        visited@,
                    ),
                lists_ok(
                    candidates@,
                    results@,
                    links,
                    level as int,
                    scorer,
                    target,
                    checked,
                    ef,
                    visited@,
                ),
                forall|i: int|
                    0 <= i < results@.len() ==> exists|k: int|
                        0 <= k < e && entries@[k].idx == (#[trigger] results@[i]).idx,
                forall|k: int|
                    0 <= k < e && ef > 0 && (checked ==> scorer.spec_check(
                        (#[trigger] entries@[k]).idx,
                    )) ==> leads_with(results@, entries@[k].score),
            decreases entries.len() - e,
        {
            let entry: ScoredPointOffset = entries[e];
            let ghost old_results = results@;
            proof {
                assert(entries@.take(e as int + 1).drop_last() =~= entries@.take(e as int));
                assert(entries@.take(e as int + 1).last() == entry);
                assert(entry_ok(entries@[e as int], links, level as int, scorer, target, visited@));
                assert(!lists_point(old_results, entry.idx)) by {
                    if lists_point(old_results, entry.idx) {
                        let i = choose|i: int|
                            0 <= i < old_results.len() && old_results[i].idx == entry.idx;
                        let k = choose|k: int| 0 <= k < e && entries@[k].idx == old_results[i].idx;
                        assert(entries@[k].idx != entries@[e as int].idx);
                    }
                }
            }
            let allowed: bool = !checked || scorer.check_point(entry.idx);
            offer(
                &mut candidates,
                &mut results,
                entry,
                allowed,
                Ghost(links),
                Ghost(level as int),
                scorer,
                target,
                checked,
                ef,
                Ghost(visited@),
            );
            proof {
                assert forall|i: int| 0 <= i < results@.len() implies exists|k: int|
                    0 <= k < e + 1 && entries@[k].idx == (#[trigger] results@[i]).idx by {
                    if results@[i].idx == entry.idx {
                        assert(entries@[e as int].idx == results@[i].idx);
                    } else {
                        let j = choose|j: int|
                            0 <= j < old_results.len() && old_results[j].idx == results@[i].idx;
                        let k = choose|k: int| 0 <= k < e && entries@[k].idx == old_results[j].idx;
                        assert(entries@[k].idx == results@[i].idx);
                    }
                }
            }
            e = e + 1;
        }
        proof {
            assert forall|i: int| 0 <= i < results@.len() implies lists_point(
                entries@,
                (#[trigger] results@[i]).idx,
            ) by {
                let k = choose|k: int|
                    0 <= k < entries@.len() && entries@[k].idx == results@[i].idx;
            }
            assert(entries@.take(entries@.len() as int) =~= entries@);
        }
        let ghost start = WalkState {
            visited: visited@,
            candidates: candidates@,
            results: results@,
        };
        let ghost steps: int = walk_steps(start);
        while candidates.len() > 0
            invariant
                self.wf(),
                start == entered(scorer, checked, ef, seen_at_start, entries@),
                steps >= walk_steps(
                    (WalkState { visited: visited@, candidates: candidates@, results: results@ }),
                ),
                self.walked(scorer, target, checked, ef, level as int, start, walk_steps(start))
                    == self.walked(
                    scorer,
                    target,
                    checked,
                    ef,
                    level as int,
                    (WalkState { visited: visited@, candidates: candidates@, results: results@ }),
                    steps,
                ),
                links == self.spec_links(),
                n == links.len(),
                scorer.spec_len() == n,
                target matches Target::Point(base) ==> base < scorer.spec_len(),
                visited@.len() == n,
                seen_at_start == old(visited)@,
                seen_at_start.len() == n,
                forall|p: int| 0 <= p < n && seen_at_start[p] ==> visited@[p],
                lists_ok(
                    candidates@,
                    results@,
                    links,
                    level as int,
                    scorer,
                    target,
                    checked,
                    ef,
                    visited@,
                ),
                forall|i: int|
                    0 <= i < results@.len() ==> lists_point(entries@, (#[trigger] results@[i]).idx)
                        || !seen_at_start[results@[i].idx as int],
                forall|i: int|
                    0 <= i < results@.len() ==> lists_point(entries@, (#[trigger] results@[i]).idx)
                        || self.is_linked(results@[i].idx),
                forall|k: int|
                    0 <= k < entries@.len() && ef > 0 && (checked ==> scorer.spec_check(
                        (#[trigger] entries@[k]).idx,
                    )) ==> leads_with(results@, entries@[k].score),
            decreases 2 * (n - count_true(visited@)) + candidates@.len(),
        {
            proof {
                lemma_count_true_bounded(visited@);
            }
            let ghost cands_before = candidates@;
            let ghost now = WalkState {
                visited: visited@,
                candidates: candidates@,
                results: results@,
            };
            let candidate: ScoredPointOffset = candidates[candidates.len() - 1];
            candidates.pop();
            proof {
                assert(candidates@ =~= cands_before.drop_last());
                assert(steps >= 1);
                steps = steps - 1;
            }
            proof {
                assert(entry_ok(
                    cands_before[cands_before.len() - 1],
                    links,
                    level as int,
                    scorer,
                    target,
                    visited@,
                ));
                assert(candidates@ =~= cands_before.subrange(0, cands_before.len() - 1));
                assert forall|i: int| 0 <= i < candidates@.len() implies #[trigger] entry_ok(
                    candidates@[i],
                    links,
                    level as int,
                    scorer,
                    target,
                    visited@,
                ) by {
                    assert(candidates@[i] == cands_before[i]);
                    assert(entry_ok(cands_before[i], links, level as int, scorer, target, visited@));
                }
                assert(rising(candidates@)) by {
                    assert forall|a: int, b: int|
                        0 <= a < b < candidates@.len() implies candidates@[a].score
                        <= candidates@[b].score by {
                        assert(cands_before[a].score <= cands_before[b].score);
                    }
                }
            }
            if ef == 0 || (results.len() >= ef && candidate.score < results[results.len()
                - 1].score) {
                candidates = Vec::new();
            } else {
                self.expand(
                    candidate.idx,
                    level,
                    ef,
                    scorer,
                    target,
                    checked,
                    visited,
                    &mut candidates,
                    &mut results,
                    Ghost(entries@),
                    Ghost(seen_at_start),
                );
            }
            proof {
                lemma_count_true_bounded(visited@);
            }
        }
        proof {
            assert(candidates@ =~= Seq::<ScoredPointOffset>::empty());
        }
        results
    }

    /// Goes on from a point of the walk: each neighbour that the walk has
    /// not seen is marked, scored and offered to the lists.
    fn expand<S: PointsScorer>(
        &self,
        point: PointOffsetType,
        level: usize,
        ef: usize,
        scorer: &S,
        target: Target,
        checked: bool,
        visited: &mut Vec<bool>,
        candidates: &mut Vec<ScoredPointOffset>,
        results: &mut Vec<ScoredPointOffset>,
        Ghost(entries): Ghost<Seq<ScoredPointOffset>>,
        Ghost(seen_at_start): Ghost<Seq<bool>>,
    )
        requires
            self.wf(),
            scorer.spec_len() == self.spec_num_points(),
            target matches Target::Point(base) ==> base < scorer.spec_len(),
            point < self.spec_num_points(),
            level < self.spec_links()[point as int]@.len(),
            old(visited)@.len() == self.spec_num_points(),
            seen_at_start.len() == old(visited)@.len(),
            forall|p: int| 0 <= p < seen_at_start.len() && seen_at_start[p] ==> old(visited)@[p],
            lists_ok(
                old(candidates)@,
                old(results)@,
                self.spec_links(),
                level as int,
                scorer,
                target,
                checked,
                ef,
                old(visited)@,
            ),
            forall|i: int|
                0 <= i < old(results)@.len() ==> lists_point(
                    entries,
                    (#[trigger] old(results)@[i]).idx,
                ) || !seen_at_start[old(results)@[i].idx as int],
            forall|i: int|
                0 <= i < old(results)@.len() ==> lists_point(
                    entries,
                    (#[trigger] old(results)@[i]).idx,
                ) || self.is_linked(old(results)@[i].idx),
        ensures
            final(visited)@.len() == old(visited)@.len(),
            forall|p: int| 0 <= p < old(visited)@.len() && old(visited)@[p] ==> final(visited)@[p],
            lists_ok(
                final(candidates)@,
                final(results)@,
                self.spec_links(),
                level as int,
                scorer,
                target,
                checked,
                ef,
                final(visited)@,
            ),
            forall|i: int|
                0 <= i < final(results)@.len() ==> lists_point(
                    entries,
                    (#[trigger] final(results)@[i]).idx,
                ) || !seen_at_start[final(results)@[i].idx as int],
            forall|i: int|
                0 <= i < final(results)@.len() ==> lists_point(
                    entries,
                    (#[trigger] final(results)@[i]).idx,
                ) || self.is_linked(final(results)@[i].idx),
            2 * (final(visited)@.len() - count_true(final(visited)@)) + final(candidates)@.len() <= 2
                * (old(visited)@.len() - count_true(old(visited)@)) + old(candidates)@.len(),
            old(results)@.len() > 0 ==> leads_with(final(results)@, old(results)@[0].score),
            (WalkState {
                visited: final(visited)@,
                candidates: final(candidates)@,
                results: final(results)@,
            }) == expanded(
                scorer,
                target,
                checked,
                ef,
                (WalkState {
                    visited: old(visited)@,
                    candidates: old(candidates)@,
                    results: old(results)@,
                }),
                self.neighbours(point, level as int),
            ),
    {
        let ghost links = self.spec_links();
        let ghost n = self.spec_num_points();
        let ghost row = links[point as int]@[level as int]@;
        let ghost start = WalkState {
            visited: visited@,
            candidates: candidates@,
            results: results@,
        };
        proof {
            assert(row.take(0) =~= Seq::<PointOffsetType>::empty());
        }
        let degree: usize = self.links[point as usize][level].len();
        let mut k: usize = 0;
        while k < degree
            invariant
                k <= degree,
                degree == row.len(),
                point < n,
                level < links[point as int]@.len(),
                row == links[point as int]@[level as int]@,
                self.wf(),
                links == self.spec_links(),
                n == links.len(),
                scorer.spec_len() == n,
                target matches Target::Point(base) ==> base < scorer.spec_len(),
                visited@.len() == n,
                seen_at_start.len() == n,
                forall|p: int| 0 <= p < n && old(visited)@[p] ==> visited@[p],
                forall|p: int| 0 <= p < n && seen_at_start[p] ==> visited@[p],
                lists_ok(
                    candidates@,
                    results@,
                    links,
                    level as int,
                    scorer,
                    target,
                    checked,
                    ef,
                    visited@,
                ),
                forall|i: int|
                    0 <= i < results@.len() ==> lists_point(entries, (#[trigger] results@[i]).idx)
                        || !seen_at_start[results@[i].idx as int],
                forall|i: int|
                    0 <= i < results@.len() ==> lists_point(entries, (#[trigger] results@[i]).idx)
                        || self.is_linked(results@[i].idx),
                2 * (n - count_true(visited@)) + candidates@.len() <= 2 * (n - count_true(
                    old(visited)@,
                )) + old(candidates)@.len(),
                old(results)@.len() > 0 ==> leads_with(results@, old(results)@[0].score),
                (WalkState { visited: visited@, candidates: candidates@, results: results@ })
                    == expanded(scorer, target, checked, ef, start, row.take(k as int)),
            decreases degree - k,
        {
            let neighbour: PointOffsetType = self.links[point as usize][level][k];
            proof {
                assert(row.take(k as int + 1).drop_last() =~= row.take(k as int));
                assert(row.take(k as int + 1).last() == neighbour);
                assert(links[point as int]@[level as int]@[k as int] < links.len());
                assert((level as int) < links[neighbour as int]@.len());
            }
            if !visited[neighbour as usize] {
                let ghost seen = visited@;
                proof {
                    lemma_count_true_update(seen, neighbour as int);
                    lemma_count_true_bounded(seen.update(neighbour as int, true));
                }
                visited[neighbour as usize] = true;
                proof {
                    lemma_lists_ok_seen(
                        candidates@,
                        results@,
                        links,
                        level as int,
                        scorer,
                        target,
                        checked,
                        ef,
                        seen,
                        visited@,
                    );
                }
                let score: ScoreType = score_against(scorer, target, neighbour);
                let allowed: bool = !checked || scorer.check_point(neighbour);
                let item = ScoredPointOffset { idx: neighbour, score };
                let ghost old_results = results@;
                proof {
                    assert(!lists_point(old_results, neighbour)) by {
                        if lists_point(old_results, neighbour) {
                            let i = choose|i: int|
                                0 <= i < old_results.len() && old_results[i].idx == neighbour;
                            assert(entry_ok(
                                old_results[i],
                                links,
                                level as int,
                                scorer,
                                target,
                                seen,
                            ));
                        }
                    }
                }
                offer(
                    candidates,
                    results,
                    item,
                    allowed,
                    Ghost(links),
                    Ghost(level as int),
                    scorer,
                    target,
                    checked,
                    ef,
                    Ghost(visited@),
                );
                proof {
                    assert forall|i: int| 0 <= i < results@.len() implies lists_point(
                        entries,
                        (#[trigger] results@[i]).idx,
                    ) || !seen_at_start[results@[i].idx as int] by {
                        if results@[i].idx != neighbour {
                            let j = choose|j: int|
                                0 <= j < old_results.len() && old_results[j].idx == results@[i].idx;
                            assert(lists_point(entries, old_results[j].idx)
                                || !seen_at_start[old_results[j].idx as int]);
                        }
                    }
                    assert forall|i: int| 0 <= i < results@.len() implies lists_point(
                        entries,
                        (#[trigger] results@[i]).idx,
                    ) || self.is_linked(results@[i].idx) by {
                        if results@[i].idx != neighbour {
                            let j = choose|j: int|
                                0 <= j < old_results.len() && old_results[j].idx == results@[i].idx;
                            assert(lists_point(entries, old_results[j].idx) || self.is_linked(
                                old_results[j].idx,
                            ));
                        } else {
                            assert(self.neighbours(point, level as int)[k as int] == neighbour);
                        }
                    }
                }
            }
            k = k + 1;
        }
        proof {
            assert(row.take(degree as int) =~= row);
        }
    }
}

/// True when the point is not closer to any of the chosen than to the base
/// that it was scored against.
pub open spec fn keeps_apart<S: PointsScorer>(
    scorer: &S,
    candidate: ScoredPointOffset,
    chosen: Seq<PointOffsetType>,
) -> bool {
    forall|i: int|
        0 <= i < chosen.len() ==> scorer.spec_score_internal(candidate.idx, #[trigger] chosen[i])
            <= candidate.score
}

/// The neighbours chosen among candidates that come best first: a
/// candidate is taken while there is room, unless it is closer to a point
/// taken before it than to the base, which that point then stands for.
pub open spec fn spec_select<S: PointsScorer>(
    scorer: &S,
    candidates: Seq<ScoredPointOffset>,
    limit: usize,
) -> Seq<PointOffsetType>
    decreases candidates.len(),
{
    if candidates.len() == 0 {
        Seq::empty()
    } else {
        let chosen = spec_select(scorer, candidates.drop_last(), limit);
        if chosen.len() < limit && keeps_apart(scorer, candidates.last(), chosen) {
            chosen.push(candidates.last().idx)
        } else {
            chosen
        }
    }
}

/// The chosen are among the candidates, no more than the limit, and hold
/// no point twice where the candidates hold none twice.
pub proof fn lemma_select<S: PointsScorer>(
    scorer: &S,
    candidates: Seq<ScoredPointOffset>,
    limit: usize,
)
    ensures
        spec_select(scorer, candidates, limit).len() <= limit,
        spec_select(scorer, candidates, limit).len() <= candidates.len(),
        forall|i: int|
            0 <= i < spec_select(scorer, candidates, limit).len() ==> lists_point(
                candidates,
                #[trigger] spec_select(scorer, candidates, limit)[i],
            ),
        distinct_points(candidates) ==> spec_select(scorer, candidates, limit).no_duplicates(),
    decreases candidates.len(),
{
    if candidates.len() > 0 {
        let init = candidates.drop_last();
        lemma_select(scorer, init, limit);
        let chosen = spec_select(scorer, init, limit);
        let all = spec_select(scorer, candidates, limit);
        assert forall|i: int| 0 <= i < all.len() implies lists_point(
            candidates,
            #[trigger] all[i],
        ) by {
            if i < chosen.len() {
                assert(all[i] == chosen[i]);
                let k = choose|k: int| 0 <= k < init.len() && init[k].idx == chosen[i];
                assert(candidates[k].idx == all[i]);
            } else {
                assert(candidates[candidates.len() - 1].idx == all[i]);
            }
        }
        if distinct_points(candidates) {
            assert(distinct_points(init)) by {
                assert forall|a: int, b: int| 0 <= a < b < init.len() implies init[a].idx
                    != init[b].idx by {
                    assert(candidates[a].idx != candidates[b].idx);
                }
            }
            assert forall|a: int, b: int|
                0 <= a < all.len() && 0 <= b < all.len() && a != b implies all[a] != all[b] by {
                if a < chosen.len() && b < chosen.len() {
                    assert(chosen[a] != chosen[b]);
                } else {
                    let inside = if a < chosen.len() { a } else { b };
                    let k = choose|k: int| 0 <= k < init.len() && init[k].idx == chosen[inside];
                    assert(candidates[k].idx != candidates[candidates.len() - 1].idx);
                }
            }
        }
    }
}

/// Chooses neighbours among candidates that come best first.
fn select_candidates_with_heuristic<S: PointsScorer>(
    scorer: &S,
    candidates: &Vec<ScoredPointOffset>,
    limit: usize,
) -> (r: Vec<PointOffsetType>)
    requires
        forall|i: int| 0 <= i < candidates@.len() ==> (#[trigger] candidates@[i]).idx < scorer.spec_len(),
    ensures
        r@ == spec_select(scorer, candidates@, limit),
{
    let mut chosen: Vec<PointOffsetType> = Vec::new();
    let mut i: usize = 0;
    proof {
        assert(candidates@.take(0) =~= Seq::<ScoredPointOffset>::empty());
    }
    while i < candidates.len()
        invariant
            i <= candidates.len(),
            forall|k: int|
                0 <= k < candidates@.len() ==> (#[trigger] candidates@[k]).idx < scorer.spec_len(),
            chosen@ == spec_select(scorer, candidates@.take(i as int), limit),
        decreases candidates.len() - i,
    {
        let candidate: ScoredPointOffset = candidates[i];
        proof {
            assert(candidates@.take(i as int + 1).drop_last() =~= candidates@.take(i as int));
            assert(candidates@.take(i as int + 1).last() == candidate);
            lemma_select(scorer, candidates@.take(i as int), limit);
        }
        let mut good: bool = chosen.len() < limit;
        let mut j: usize = 0;
        while good && j < chosen.len()
            invariant
                j <= chosen.len(),
                i < candidates.len(),
                candidate == candidates@[i as int],
                candidate.idx < scorer.spec_len(),
                chosen@ == spec_select(scorer, candidates@.take(i as int), limit),
                forall|k: int|
                    0 <= k < chosen@.len() ==> lists_point(
                        candidates@.take(i as int),
                        #[trigger] chosen@[k],
                    ),
                forall|k: int|
                    0 <= k < candidates@.len() ==> (#[trigger] candidates@[k]).idx
                        < scorer.spec_len(),
                good ==> chosen@.len() < limit && forall|k: int|
                    0 <= k < j ==> scorer.spec_score_internal(candidate.idx, #[trigger] chosen@[k])
                        <= candidate.score,
                !good ==> !(chosen@.len() < limit && keeps_apart(scorer, candidate, chosen@)),
            decreases chosen.len() - j + if good { 1int } else { 0int },
        {
            proof {
                let head = candidates@.take(i as int);
                assert(lists_point(head, chosen@[j as int]));
                let q = choose|q: int| 0 <= q < head.len() && head[q].idx == chosen@[j as int];
                assert(head[q] == candidates@[q]);
                assert(candidates@[q].idx < scorer.spec_len());
            }
            if scorer.score_internal(candidate.idx, chosen[j]) > candidate.score {
                good = false;
            } else {
                j = j + 1;
            }
        }
        if good {
            chosen.push(candidate.idx);
        }
        i = i + 1;
    }
    proof {
        assert(candidates@.take(candidates@.len() as int) =~= candidates@);
    }
    chosen
}

/// True when every point of the row is a point of the graph that reaches
/// the layer.
pub open spec fn row_ok(
    row: Seq<PointOffsetType>,
    links: Seq<Vec<Vec<PointOffsetType>>>,
    level: int,
) -> bool {
    forall|k: int|
        0 <= k < row.len() ==> (#[trigger] row[k]) < links.len() && level < links[row[k] as int]@.len()
}

fn copy_row(row: &Vec<PointOffsetType>) -> (r: Vec<PointOffsetType>)
    ensures
        r@ == row@,
{
    crate::multi_dense_storage::copy_vector(row)
}

impl GraphLayers {
    /// A graph with room for so many points, none of them linked. `m` is
    /// the most neighbours that a point may have on a layer above the
    /// ground, `m0` on the ground layer.
    pub fn new(num_points: usize, m: usize, m0: usize, ef_construct: usize) -> (r: Self)
        requires
            num_points <= u32::MAX,
        ensures
            r.wf(),
            r.spec_num_points() == num_points,
            r.spec_m() == m,
            r.spec_m0() == m0,
            r.spec_ef_construct() == ef_construct,
            r.spec_entry() is None,
            forall|p: PointOffsetType| p < num_points ==> #[trigger] r.level_of(p) == 0,
            forall|p: PointOffsetType|
                p < num_points ==> (#[trigger] r.neighbours(p, 0)).len() == 0,
            forall|p: PointOffsetType| !#[trigger] r.is_linked(p),
    {
        let mut links: Vec<Vec<Vec<PointOffsetType>>> = Vec::new();
        let mut i: usize = 0;
        while i < num_points
            invariant
                i <= num_points,
                links@.len() == i,
                forall|p: int|
                    0 <= p < i ==> (#[trigger] links@[p])@.len() == 1 && links@[p]@[0]@.len() == 0,
            decreases num_points - i,
        {
            let mut layers: Vec<Vec<PointOffsetType>> = Vec::new();
            layers.push(Vec::new());
            links.push(layers);
            i = i + 1;
        }
        let graph = GraphLayers { m, m0, ef_construct, links, entry_point: None };
        proof {
            assert forall|p: PointOffsetType| !#[trigger] graph.is_linked(p) by {
                if graph.is_linked(p) {
                    let (q, l, k) = choose|q: PointOffsetType, l: int, k: int|
                        q < graph.spec_num_points() && 0 <= l <= graph.level_of(q) && 0 <= k
                            < graph.neighbours(q, l).len() && #[trigger] graph.neighbours(q, l)[k]
                            == p;
                    assert(graph.spec_links()[q as int]@.len() == 1);
                }
            }
        }
        graph
    }

    /// The highest layer that the point reaches.
    pub fn point_level(&self, point: PointOffsetType) -> (r: usize)
        requires
            self.wf(),
            point < self.spec_num_points(),
        ensures
            r == self.level_of(point),
    {
        assert(self.spec_links()[point as int]@.len() >= 1);
        self.links[point as usize].len() - 1
    }

    /// The neighbours of a point on a layer.
    pub fn links(&self, point: PointOffsetType, level: usize) -> (r: &Vec<PointOffsetType>)
        requires
            point < self.spec_num_points(),
            level <= self.level_of(point),
        ensures
            r@ == self.neighbours(point, level as int),
    {
        &self.links[point as usize][level]
    }

    /// The point from which searches set out, none before a point is
    /// linked.
    pub fn entry_point(&self) -> (r: Option<PointOffsetType>)
        ensures
            r == self.spec_entry(),
    {
        self.entry_point
    }

    /// Everything but the neighbours of one point on one layer is as it
    /// was.
    pub open spec fn same_but_row(&self, before: &GraphLayers, point: PointOffsetType, level: int) -> bool {
        &&& self.spec_num_points() == before.spec_num_points()
        &&& self.spec_m() == before.spec_m()
        &&& self.spec_m0() == before.spec_m0()
        &&& self.spec_entry() == before.spec_entry()
        &&& forall|q: PointOffsetType|
            q < self.spec_num_points() ==> #[trigger] self.level_of(q) == before.level_of(q)
        &&& forall|q: PointOffsetType, l: int|
            q < self.spec_num_points() && 0 <= l <= self.level_of(q) && !(q == point && l == level)
                ==> #[trigger] self.neighbours(q, l) == before.neighbours(q, l)
    }

    /// Lets the point reach a layer, and those below it. A point keeps the
    /// layers that it reaches already.
    pub fn set_levels(&mut self, point: PointOffsetType, level: usize)
        requires
            old(self).wf(),
            point < old(self).spec_num_points(),
        ensures
            final(self).wf(),
            final(self).spec_num_points() == old(self).spec_num_points(),
            final(self).spec_m() == old(self).spec_m(),
            final(self).spec_m0() == old(self).spec_m0(),
            final(self).spec_ef_construct() == old(self).spec_ef_construct(),
            final(self).spec_entry() == old(self).spec_entry(),
            final(self).level_of(point) == if old(self).level_of(point) >= level {
                old(self).level_of(point)
            } else {
                level as int
            },
            forall|q: PointOffsetType|
                q < final(self).spec_num_points() && q != point ==> #[trigger] final(self).level_of(q)
                    == old(self).level_of(q),
            forall|q: PointOffsetType, l: int|
                q < final(self).spec_num_points() && 0 <= l <= old(self).level_of(q)
                    ==> #[trigger] final(self).neighbours(q, l) == old(self).neighbours(q, l),
            forall|l: int|
                old(self).level_of(point) < l <= final(self).level_of(point) ==> (
                #[trigger] final(self).neighbours(point, l)).len() == 0,
            forall|p: PointOffsetType| #[trigger] final(self).is_linked(p) ==> old(self).is_linked(p),
    {
        let ghost before = self.links@;
        let slot: usize = point as usize;
        assert(before[slot as int]@.len() >= 1);
        while self.links[slot].len() <= level
            invariant
                slot == point,
                slot < before.len(),
                self.m == old(self).m,
                self.m0 == old(self).m0,
                self.ef_construct == old(self).ef_construct,
                self.entry_point == old(self).entry_point,
                self.links@.len() == before.len(),
                links_ok(before, self.m, self.m0),
                forall|q: int| 0 <= q < before.len() && q != slot ==> self.links@[q] == before[q],
                self.links@[slot as int]@.len() >= before[slot as int]@.len(),
                self.links@[slot as int]@.len() > before[slot as int]@.len()
                    ==> self.links@[slot as int]@.len() <= level + 1,
                forall|l: int|
                    0 <= l < before[slot as int]@.len() ==> self.links@[slot as int]@[l]
                        == before[slot as int]@[l],
                forall|l: int|
                    before[slot as int]@.len() <= l < self.links@[slot as int]@.len() ==> (
                    #[trigger] self.links@[slot as int]@[l])@.len() == 0,
            decreases level + 1 - self.links@[slot as int]@.len(),
        {
            self.links[slot].push(Vec::new());
        }
        proof {
            let after = self.links@;
            assert forall|p: int| 0 <= p < after.len() implies (#[trigger] after[p])@.len() >= 1 by {
                if p != slot {
                    assert(after[p] == before[p]);
                }
                assert(before[p]@.len() >= 1);
            }
            assert forall|p: int, l: int|
                0 <= p < after.len() && 0 <= l < after[p]@.len() implies (
            #[trigger] after[p]@[l])@.len() <= link_limit(self.m, self.m0, l) by {
                if p != slot {
                    assert(after[p] == before[p]);
                    assert(before[p]@[l]@.len() <= link_limit(self.m, self.m0, l));
                } else if l < before[slot as int]@.len() {
                    assert(after[p]@[l] == before[p]@[l]);
                    assert(before[p]@[l]@.len() <= link_limit(self.m, self.m0, l));
                }
            }
            assert forall|p: int, l: int, k: int|
                0 <= p < after.len() && 0 <= l < after[p]@.len() && 0 <= k < after[p]@[l]@.len() implies {
                &&& (#[trigger] after[p]@[l]@[k]) < after.len()
                &&& l < after[after[p]@[l]@[k] as int]@.len()
            } by {
                if p != slot {
                    assert(after[p] == before[p]);
                } else {
                    assert(l < before[slot as int]@.len());
                    assert(after[p]@[l] == before[p]@[l]);
                }
                let target = before[p]@[l]@[k];
                assert(target < before.len() && l < before[target as int]@.len());
                if target as int != slot {
                    assert(after[target as int] == before[target as int]);
                }
            }
            assert forall|p: PointOffsetType| #[trigger] self.is_linked(p) implies old(self).is_linked(p) by {
                if self.spec_entry() != Some(p) {
                    let (q, l, k) = choose|q: PointOffsetType, l: int, k: int|
                        q < self.spec_num_points() && 0 <= l <= self.level_of(q) && 0 <= k
                            < self.neighbours(q, l).len() && #[trigger] self.neighbours(q, l)[k]
                            == p;
                    if q as int != slot {
                        assert(after[q as int] == before[q as int]);
                    } else if l >= before[slot as int]@.len() {
                        assert(after[slot as int]@[l]@.len() == 0);
                    } else {
                        assert(after[slot as int]@[l] == before[slot as int]@[l]);
                    }
                    assert(old(self).neighbours(q, l)[k] == p);
                }
            }
        }
    }

    /// Sets the neighbours of a point on a layer.
    fn set_row(&mut self, point: PointOffsetType, level: usize, row: Vec<PointOffsetType>)
        requires
            old(self).wf(),
            point < old(self).spec_num_points(),
            level <= old(self).level_of(point),
            row@.len() <= link_limit(old(self).spec_m(), old(self).spec_m0(), level as int),
            row_ok(row@, old(self).spec_links(), level as int),
        ensures
            final(self).wf(),
            final(self).same_but_row(old(self), point, level as int),
            final(self).neighbours(point, level as int) == row@,
            final(self).spec_ef_construct() == old(self).spec_ef_construct(),
            forall|p: PointOffsetType|
                #[trigger] final(self).is_linked(p) ==> old(self).is_linked(p) || row@.contains(p),
    {
        let ghost before = self.links@;
        let ghost given = row@;
        self.links[point as usize][level] = row;
        proof {
            let after = self.links@;
            let slot = point as int;
            assert(after.len() == before.len());
            assert forall|q: int| 0 <= q < after.len() implies after[q]@.len() == before[q]@.len()
                && (q != slot ==> after[q] == before[q]) by {}
            assert forall|l: int|
                0 <= l < after[slot]@.len() && l != level implies after[slot]@[l]
                == before[slot]@[l] by {}
            assert forall|p: int| 0 <= p < after.len() implies (#[trigger] after[p])@.len() >= 1 by {
                assert(before[p]@.len() >= 1);
            }
            assert forall|p: int, l: int|
                0 <= p < after.len() && 0 <= l < after[p]@.len() implies (
            #[trigger] after[p]@[l])@.len() <= link_limit(self.m, self.m0, l) by {
                if p != slot || l != level {
                    assert(after[p]@[l] == before[p]@[l]);
                    assert(before[p]@[l]@.len() <= link_limit(self.m, self.m0, l));
                }
            }
            assert forall|p: int, l: int, k: int|
                0 <= p < after.len() && 0 <= l < after[p]@.len() && 0 <= k < after[p]@[l]@.len() implies {
                &&& (#[trigger] after[p]@[l]@[k]) < after.len()
                &&& l < after[after[p]@[l]@[k] as int]@.len()
            } by {
                if p != slot || l != level {
                    assert(after[p]@[l] == before[p]@[l]);
                    let target = before[p]@[l]@[k];
                    assert(target < before.len() && l < before[target as int]@.len());
                } else {
                    assert(after[p]@[l]@ == given);
                    assert(given[k] < before.len() && l < before[given[k] as int]@.len());
                }
            }
            assert forall|p: PointOffsetType| #[trigger] self.is_linked(p) implies old(self).is_linked(p) || given.contains(p) by {
                if self.spec_entry() != Some(p) {
                    let (q, l, k) = choose|q: PointOffsetType, l: int, k: int|
                        q < self.spec_num_points() && 0 <= l <= self.level_of(q) && 0 <= k
                            < self.neighbours(q, l).len() && #[trigger] self.neighbours(q, l)[k]
                            == p;
                    if q as int == slot && l == level {
                        assert(given[k] == p);
                    } else {
                        assert(after[q as int]@[l] == before[q as int]@[l]);
                        assert(old(self).neighbours(q, l)[k] == p);
                    }
                }
            }
        }
    }
}

/// What holds of the points that a search hands out: they are no more
/// than `top`, best first, each once, and each is a point that may come
/// out, with its score.
pub open spec fn found_ok<S: PointsScorer>(
    scorer: &S,
    found: Seq<ScoredPointOffset>,
    top: usize,
) -> bool {
    &&& found.len() <= top
    &&& falling(found)
    &&& distinct_points(found)
    &&& forall|i: int|
        0 <= i < found.len() ==> {
            &&& (#[trigger] found[i]).idx < scorer.spec_len()
            &&& found[i].score == scorer.spec_score(found[i].idx)
            &&& scorer.spec_check(found[i].idx)
        }
}

/// The points given to a search to set out from, as a plain value.
pub open spec fn entries_view(custom: Option<&Vec<PointOffsetType>>) -> Option<Seq<PointOffsetType>> {
    match custom {
        Some(points) => Some(points@),
        None => None,
    }
}

/// A list of marks, one for each point, none of them set.
fn fresh_marks(n: usize) -> (r: Vec<bool>)
    ensures
        r@.len() == n,
        forall|i: int| 0 <= i < n ==> !r@[i],
{
    let mut marks: Vec<bool> = Vec::new();
    let mut i: usize = 0;
    while i < n
        invariant
            i <= n,
            marks@.len() == i,
            forall|k: int| 0 <= k < i ==> !marks@[k],
        decreases n - i,
    {
        marks.push(false);
        i = i + 1;
    }
    marks
}

/// Where there is room and a candidate, the best candidate is chosen.
pub proof fn lemma_select_first<S: PointsScorer>(
    scorer: &S,
    candidates: Seq<ScoredPointOffset>,
    limit: usize,
)
    requires
        candidates.len() > 0,
        limit > 0,
    ensures
        spec_select(scorer, candidates, limit).len() > 0,
        spec_select(scorer, candidates, limit)[0] == candidates[0].idx,
    decreases candidates.len(),
{
    if candidates.len() > 1 {
        lemma_select_first(scorer, candidates.drop_last(), limit);
    } else {
        assert(candidates.drop_last().len() == 0);
        assert(spec_select(scorer, candidates.drop_last(), limit) =~= Seq::empty());
    }
}

impl GraphLayers {
    /// True when the point is where searches set out, or a neighbour of
    /// some point.
    pub open spec fn is_linked(&self, point: PointOffsetType) -> bool {
        self.spec_entry() == Some(point) || exists|q: PointOffsetType, l: int, k: int|
            q < self.spec_num_points() && 0 <= l <= self.level_of(q) && 0 <= k < self.neighbours(
                q,
                l,
            ).len() && #[trigger] self.neighbours(q, l)[k] == point
    }

    /// The point among the given ones from which a search sets out: one
    /// that may come out and reaches higher than those before it, and as
    /// high as those behind it.
    pub open spec fn spec_custom_entry<S: PointsScorer>(
        &self,
        scorer: &S,
        custom: Seq<PointOffsetType>,
    ) -> Option<PointOffsetType>
        decreases custom.len(),
    {
        if custom.len() == 0 {
            None
        } else {
            let rest = self.spec_custom_entry(scorer, custom.drop_last());
            let point = custom.last();
            if point < self.spec_num_points() && scorer.spec_check(point) && (rest matches Some(best)
                ==> self.level_of(point) >= self.level_of(best)) {
                Some(point)
            } else {
                rest
            }
        }
    }

    /// The point from which a search sets out: one of the given points
    /// where one of them serves, else the entry point of the graph.
    pub open spec fn spec_start<S: PointsScorer>(
        &self,
        scorer: &S,
        custom: Option<Seq<PointOffsetType>>,
    ) -> Option<PointOffsetType> {
        match custom {
            Some(points) => match self.spec_custom_entry(scorer, points) {
                Some(point) => Some(point),
                None => self.spec_entry(),
            },
            None => self.spec_entry(),
        }
    }

    /// The result of a search: nothing without a point to set out from;
    /// else the walk goes down from that point to the ground layer, walks
    /// the ground layer from where it arrived with lists as wide as the
    /// larger of `ef` and `top`, and hands out the best `top` results.
    pub open spec fn spec_search<S: PointsScorer>(
        &self,
        scorer: &S,
        top: usize,
        ef: usize,
        custom: Option<Seq<PointOffsetType>>,
    ) -> Seq<ScoredPointOffset> {
        match self.spec_start(scorer, custom) {
            None => Seq::empty(),
            Some(start) => {
                let ground = self.descended(
                    scorer,
                    Target::Query,
                    ScoredPointOffset { idx: start, score: scorer.spec_score(start) },
                    self.level_of(start),
                    0,
                );
                let width = if ef > top {
                    ef
                } else {
                    top
                };
                cut_to(
                    self.spec_search_on_level(
                        scorer,
                        Target::Query,
                        true,
                        width,
                        0,
                        seq![ground],
                        unmarked(self.spec_num_points()).update(ground.idx as int, true),
                    ).results,
                    top,
                )
            },
        }
    }

    /// What holds of the points that a search hands out: they are sound;
    /// there are none where there is no point to set out from; and where
    /// every point may come out and one is asked for, the best of them is
    /// at least as good as the point from which the search set out.
    pub open spec fn walk_sound<S: PointsScorer>(
        &self,
        scorer: &S,
        custom: Option<Seq<PointOffsetType>>,
        top: usize,
        found: Seq<ScoredPointOffset>,
    ) -> bool {
        &&& found_ok(scorer, found, top)
        &&& self.spec_start(scorer, custom) is None ==> found.len() == 0
        &&& (self.spec_start(scorer, custom) is Some && top > 0 && (forall|p: PointOffsetType|
            p < self.spec_num_points() ==> scorer.spec_check(p))) ==> leads_with(
            found,
            scorer.spec_score(self.spec_start(scorer, custom).unwrap()),
        )
    }

    fn get_entry_point<S: PointsScorer>(
        &self,
        scorer: &S,
        custom: Option<&Vec<PointOffsetType>>,
    ) -> (r: Option<PointOffsetType>)
        requires
            self.wf(),
            scorer.spec_len() == self.spec_num_points(),
        ensures
            r == self.spec_start(scorer, entries_view(custom)),
            r matches Some(point) ==> point < self.spec_num_points(),
    {
        let mut best: Option<PointOffsetType> = None;
        if let Some(points) = custom {
            let mut i: usize = 0;
            proof {
                assert(points@.take(0) =~= Seq::<PointOffsetType>::empty());
            }
            while i < points.len()
                invariant
                    i <= points.len(),
                    self.wf(),
                    scorer.spec_len() == self.spec_num_points(),
                    best == self.spec_custom_entry(scorer, points@.take(i as int)),
                    best matches Some(point) ==> point < self.spec_num_points(),
                decreases points.len() - i,
            {
                let point: PointOffsetType = points[i];
                proof {
                    assert(points@.take(i as int + 1).drop_last() =~= points@.take(i as int));
                    assert(points@.take(i as int + 1).last() == point);
                }
                if (point as usize) < self.links.len() && scorer.check_point(point) {
                    let level: usize = self.point_level(point);
                    let higher: bool = match best {
                        Some(other) => level >= self.point_level(other),
                        None => true,
                    };
                    if higher {
                        best = Some(point);
                    }
                }
                i = i + 1;
            }
            proof {
                assert(points@.take(points@.len() as int) =~= points@);
            }
        }
        match best {
            Some(point) => Some(point),
            None => self.entry_point,
        }
    }

    /// Walks from a point towards the target, layer by layer from the top
    /// layer down to the one above the target layer: on each layer it
    /// moves to a better neighbour as long as there is one. The walk on a
    /// layer takes no more rounds than the graph has points.
    fn search_entry<S: PointsScorer>(
        &self,
        entry: PointOffsetType,
        top_level: usize,
        target_level: usize,
        scorer: &S,
        target: Target,
    ) -> (r: ScoredPointOffset)
        requires
            self.wf(),
            scorer.spec_len() == self.spec_num_points(),
            target matches Target::Point(base) ==> base < scorer.spec_len(),
            entry < self.spec_num_points(),
            top_level <= self.level_of(entry),
        ensures
            r.idx < self.spec_num_points(),
            r.score == target_score(scorer, target, r.idx),
            r.score >= target_score(scorer, target, entry),
            top_level <= self.level_of(r.idx) || target_level <= self.level_of(r.idx),
            r.idx == entry || self.is_linked(r.idx),
            r == self.descended(
                scorer,
                target,
                (ScoredPointOffset { idx: entry, score: target_score(scorer, target, entry) }),
                top_level as int,
                target_level as int,
            ),
    {
        let first: ScoreType = score_against(scorer, target, entry);
        let mut current = ScoredPointOffset { idx: entry, score: first };
        let ghost start = current;
        let mut level: usize = top_level;
        while level > target_level
            invariant
                self.wf(),
                self.descended(scorer, target, start, top_level as int, target_level as int)
                    == self.descended(scorer, target, current, level as int, target_level as int),
                scorer.spec_len() == self.spec_num_points(),
                target matches Target::Point(base) ==> base < scorer.spec_len(),
                current.idx < self.spec_num_points(),
                current.score == target_score(scorer, target, current.idx),
                current.score >= first,
                level <= top_level,
                level <= self.level_of(current.idx),
                level == top_level || target_level <= level,
                current.idx == entry || self.is_linked(current.idx),
            decreases level,
        {
            let mut rounds: usize = self.links.len();
            let mut changed: bool = true;
            let ghost at_level = current;
            while changed && rounds > 0
                invariant
                    self.wf(),
                    self.climbed(
                        scorer,
                        target,
                        level as int,
                        at_level,
                        self.spec_num_points() as int,
                    ) == if changed {
                        self.climbed(scorer, target, level as int, current, rounds as int)
                    } else {
                        current
                    },
                    scorer.spec_len() == self.spec_num_points(),
                    target matches Target::Point(base) ==> base < scorer.spec_len(),
                    current.idx < self.spec_num_points(),
                    current.score == target_score(scorer, target, current.idx),
                    current.score >= first,
                    level <= self.level_of(current.idx),
                    current.idx == entry || self.is_linked(current.idx),
                decreases rounds,
            {
                changed = false;
                rounds = rounds - 1;
                let from: PointOffsetType = current.idx;
                let degree: usize = self.links[from as usize][level].len();
                let mut k: usize = 0;
                let ghost at_round = current;
                let ghost row = self.neighbours(from, level as int);
                proof {
                    assert(row.take(0) =~= Seq::<PointOffsetType>::empty());
                }
                while k < degree
                    invariant
                        k <= degree,
                        self.wf(),
                        row == self.neighbours(from, level as int),
                        current == better_of(scorer, target, at_round, row.take(k as int)),
                        changed == (current.score > at_round.score),
                        current.score > at_round.score || current == at_round,
                        from == at_round.idx,
                        scorer.spec_len() == self.spec_num_points(),
                        target matches Target::Point(base) ==> base < scorer.spec_len(),
                        from < self.spec_num_points(),
                        level <= self.level_of(from),
                        degree == self.neighbours(from, level as int).len(),
                        current.idx < self.spec_num_points(),
                        current.score == target_score(scorer, target, current.idx),
                        current.score >= first,
                        level <= self.level_of(current.idx),
                        current.idx == entry || self.is_linked(current.idx),
                    decreases degree - k,
                {
                    let neighbour: PointOffsetType = self.links[from as usize][level][k];
                    proof {
                        let links = self.spec_links();
                        assert(links[from as int]@[level as int]@[k as int] < links.len());
                        assert((level as int) < links[neighbour as int]@.len());
                        assert(self.neighbours(from, level as int)[k as int] == neighbour);
                        assert(self.is_linked(neighbour));
                        assert(row.take(k as int + 1).drop_last() =~= row.take(k as int));
                        assert(row.take(k as int + 1).last() == neighbour);
                    }
                    let score: ScoreType = score_against(scorer, target, neighbour);
                    if score > current.score {
                        current = ScoredPointOffset { idx: neighbour, score };
                        changed = true;
                    }
                    k = k + 1;
                }
                proof {
                    assert(row.take(degree as int) =~= row);
                    assert(current == better_of(
                        scorer,
                        target,
                        at_round,
                        self.neighbours(at_round.idx, level as int),
                    ));
                    assert(self.climbed(scorer, target, level as int, at_round, rounds + 1) == if changed {
                        self.climbed(scorer, target, level as int, current, rounds as int)
                    } else {
                        current
                    });
                }
            }
            level = level - 1;
        }
        current
    }

    /// The points nearest to the query that the walk finds, best first: the
    /// walk sets out from one of the given points or from the entry point
    /// of the graph, goes down to the ground layer, and gathers there the
    /// best of the points that it comes by. Only points that may come out
    /// are returned, each once and with its score, no more than `top`.
    /// Where every point may come out, the best result is at least as good
    /// as the point from which the walk set out.
    pub fn search<S: PointsScorer>(
        &self,
        top: usize,
        ef: usize,
        scorer: &S,
        custom_entry_points: Option<&Vec<PointOffsetType>>,
    ) -> (r: Vec<ScoredPointOffset>)
        requires
            self.wf(),
            scorer.spec_len() == self.spec_num_points(),
        ensures
            r@ == self.spec_search(scorer, top, ef, entries_view(custom_entry_points)),
            self.walk_sound(scorer, entries_view(custom_entry_points), top, r@),
    {
        let start: PointOffsetType = match self.get_entry_point(scorer, custom_entry_points) {
            Some(point) => point,
            None => {
                return Vec::new();
            },
        };
        let top_level: usize = self.point_level(start);
        let ground: ScoredPointOffset = self.search_entry(start, top_level, 0, scorer, Target::Query);
        let mut visited: Vec<bool> = fresh_marks(self.links.len());
        proof {
            assert(visited@ =~= unmarked(self.spec_num_points()));
        }
        visited[ground.idx as usize] = true;
        let mut entries: Vec<ScoredPointOffset> = Vec::new();
        entries.push(ground);
        proof {
            assert(entries@ =~= seq![ground]);
        }
        let width: usize = if ef > top {
            ef
        } else {
            top
        };
        proof {
            assert(entry_ok(entries@[0], self.spec_links(), 0, scorer, Target::Query, visited@));
        }
        let mut found: Vec<ScoredPointOffset> = self.search_on_level(
            &entries,
            0,
            width,
            scorer,
            Target::Query,
            true,
            &mut visited,
        );
        let ghost all = found@;
        if found.len() > top {
            found.truncate(top);
        }
        proof {
            assert forall|i: int| 0 <= i < found@.len() implies {
                &&& (#[trigger] found@[i]).idx < scorer.spec_len()
                &&& found@[i].score == scorer.spec_score(found@[i].idx)
                &&& scorer.spec_check(found@[i].idx)
            } by {
                assert(found@[i] == all[i]);
                assert(entry_ok(all[i], self.spec_links(), 0, scorer, Target::Query, visited@));
            }
            assert forall|a: int, b: int| 0 <= a < b < found@.len() implies found@[a].score
                >= found@[b].score && found@[a].idx != found@[b].idx by {
                assert(found@[a] == all[a] && found@[b] == all[b]);
            }
            if top > 0 && scorer.spec_check(ground.idx) {
                assert(entries@[0] == ground);
                assert(leads_with(all, entries@[0].score));
                assert(found@[0] == all[0]);
            }
        }
        found
    }
}

/// The point is a point of the graph that reaches the layer.
pub open spec fn reaches(
    links: Seq<Vec<Vec<PointOffsetType>>>,
    level: int,
    point: PointOffsetType,
) -> bool {
    point < links.len() && level < links[point as int]@.len()
}

/// Every point of the list reaches the layer.
pub open spec fn all_reach(
    list: Seq<ScoredPointOffset>,
    links: Seq<Vec<Vec<PointOffsetType>>>,
    level: int,
) -> bool {
    forall|i: int| 0 <= i < list.len() ==> reaches(links, level, (#[trigger] list[i]).idx)
}

/// The lower of two layers.
pub open spec fn lower(a: int, b: int) -> int {
    if a <= b {
        a
    } else {
        b
    }
}

/// A point with its score against a base.
pub open spec fn scored_against<S: PointsScorer>(
    scorer: &S,
    base: PointOffsetType,
    point: PointOffsetType,
) -> ScoredPointOffset {
    ScoredPointOffset { idx: point, score: scorer.spec_score_internal(base, point) }
}

/// The candidates among which the neighbours of a point with a full list
/// are chosen anew: the new point and the neighbours that the point has,
/// each with its score against the point, best first; of two that score
/// the same the one that was taken in first comes first.
pub open spec fn back_candidates<S: PointsScorer>(
    scorer: &S,
    other: PointOffsetType,
    point: PointOffsetType,
    row: Seq<PointOffsetType>,
) -> Seq<ScoredPointOffset>
    decreases row.len(),
{
    if row.len() == 0 {
        seq![scored_against(scorer, other, point)]
    } else {
        let rest = back_candidates(scorer, other, point, row.drop_last());
        let item = scored_against(scorer, other, row.last());
        rest.insert(insertion_point(rest, item.score), item)
    }
}

/// The neighbours of a point once another has been made its neighbour:
/// where there is room the new one comes behind the others; where there
/// is none, the neighbours are chosen anew among the others and the new
/// one.
pub open spec fn connected<S: PointsScorer>(
    scorer: &S,
    other: PointOffsetType,
    point: PointOffsetType,
    row: Seq<PointOffsetType>,
    limit: usize,
) -> Seq<PointOffsetType> {
    if row.len() < limit {
        row.push(point)
    } else {
        spec_select(scorer, back_candidates(scorer, other, point, row), limit)
    }
}

/// A list holds neighbours once a point has been made a neighbour, as
/// long as the list was no longer than its limit and the limit allows
/// any.
pub proof fn lemma_connected_holds<S: PointsScorer>(
    scorer: &S,
    other: PointOffsetType,
    point: PointOffsetType,
    row: Seq<PointOffsetType>,
    limit: usize,
)
    requires
        row.len() <= limit,
        limit > 0,
    ensures
        connected(scorer, other, point, row, limit).len() > 0,
{
    if row.len() >= limit {
        let rest = back_candidates(scorer, other, point, row.drop_last());
        let item = scored_against(scorer, other, row.last());
        crate::sorting::lemma_insertion_point_bounds(rest, item.score);
        lemma_select_first(scorer, back_candidates(scorer, other, point, row), limit);
    }
}

impl GraphLayers {
    /// The most neighbours that a point may have on a layer.
    pub open spec fn spec_limit(&self, level: int) -> usize {
        link_limit(self.spec_m(), self.spec_m0(), level) as usize
    }

    /// Every point that is linked was linked before, but for the given
    /// one.
    pub open spec fn keeps_linked(&self, before: &GraphLayers, point: PointOffsetType) -> bool {
        forall|p: PointOffsetType| #[trigger] self.is_linked(p) ==> before.is_linked(p) || p == point
    }

    /// Every point that was not linked before has the neighbours that it
    /// had, but for the given one.
    pub open spec fn keeps_rows(&self, before: &GraphLayers, point: PointOffsetType) -> bool {
        forall|q: PointOffsetType, l: int|
            q < self.spec_num_points() && q != point && !before.is_linked(q) && 0 <= l
                <= self.level_of(q) ==> #[trigger] self.neighbours(q, l) == before.neighbours(q, l)
    }

    /// Every other point that had neighbours on a layer has some.
    pub open spec fn keeps_neighbours(&self, before: &GraphLayers, point: PointOffsetType) -> bool {
        forall|q: PointOffsetType, l: int|
            q < self.spec_num_points() && q != point && 0 <= l <= self.level_of(q)
                && before.neighbours(q, l).len() > 0 ==> (#[trigger] self.neighbours(q, l)).len()
                > 0
    }

    /// Each neighbour that the point has on the ground layer is another
    /// point, was linked before, and has neighbours there itself.
    pub open spec fn joins(&self, before: &GraphLayers, point: PointOffsetType) -> bool {
        forall|i: int|
            0 <= i < self.neighbours(point, 0).len() ==> {
                &&& (#[trigger] self.neighbours(point, 0)[i]) != point
                &&& before.is_linked(self.neighbours(point, 0)[i])
                &&& self.neighbours(self.neighbours(point, 0)[i], 0).len() > 0
            }
    }

    /// The graphs have the same points on the same layers, the same limits
    /// and the same entry point.
    pub open spec fn same_shape(&self, before: &GraphLayers) -> bool {
        &&& self.spec_num_points() == before.spec_num_points()
        &&& self.spec_m() == before.spec_m()
        &&& self.spec_m0() == before.spec_m0()
        &&& self.spec_ef_construct() == before.spec_ef_construct()
        &&& self.spec_entry() == before.spec_entry()
        &&& forall|q: PointOffsetType|
            q < self.spec_num_points() ==> #[trigger] self.level_of(q) == before.level_of(q)
    }

    /// The most neighbours that a point may have on the layer.
    fn get_m(&self, level: usize) -> (r: usize)
        ensures
            r == link_limit(self.spec_m(), self.spec_m0(), level as int),
    {
        if level == 0 {
            self.m0
        } else {
            self.m
        }
    }

    /// Makes the point a neighbour of another on a layer. Where the other
    /// has no room left, its neighbours are chosen anew among those that
    /// it has and the point.
    fn connect_back<S: PointsScorer>(
        &mut self,
        other: PointOffsetType,
        level: usize,
        point: PointOffsetType,
        scorer: &S,
    )
        requires
            old(self).wf(),
            scorer.spec_len() == old(self).spec_num_points(),
            other < old(self).spec_num_points(),
            point < old(self).spec_num_points(),
            level <= old(self).level_of(other),
            level <= old(self).level_of(point),
        ensures
            final(self).wf(),
            final(self).same_but_row(old(self), other, level as int),
            final(self).spec_ef_construct() == old(self).spec_ef_construct(),
            forall|p: PointOffsetType|
                #[trigger] final(self).is_linked(p) ==> old(self).is_linked(p) || p == point,
            final(self).neighbours(other, level as int) == connected(
                scorer,
                other,
                point,
                old(self).neighbours(other, level as int),
                old(self).spec_limit(level as int),
            ),
    {
        let ghost links = self.spec_links();
        let limit: usize = self.get_m(level);
        let mut row: Vec<PointOffsetType> = copy_row(&self.links[other as usize][level]);
        let ghost stored = row@;
        proof {
            assert forall|k: int| 0 <= k < row@.len() implies reaches(
                links,
                level as int,
                #[trigger] row@[k],
            ) by {
                assert(links[other as int]@[level as int]@[k] < links.len());
            }
        }
        if row.len() < limit {
            row.push(point);
            let ghost given = row@;
            proof {
                assert forall|k: int| 0 <= k < row@.len() implies (#[trigger] row@[k]) < links.len()
                    && (level as int) < links[row@[k] as int]@.len() by {
                    if k < row@.len() - 1 {
                        assert(reaches(links, level as int, row@[k]));
                    }
                }
            }
            self.set_row(other, level, row);
            proof {
                assert forall|p: PointOffsetType| #[trigger] self.is_linked(p) implies old(self).is_linked(p) || p == point by {
                    if given.contains(p) && p != point {
                        let k = choose|k: int| 0 <= k < given.len() && given[k] == p;
                        assert(old(self).neighbours(other, level as int)[k] == p);
                    }
                }
            }
        } else {
            let mut candidates: Vec<ScoredPointOffset> = Vec::new();
            let score: ScoreType = scorer.score_internal(other, point);
            candidates.push(ScoredPointOffset { idx: point, score });
            let mut k: usize = 0;
            proof {
                assert(row@.take(0) =~= Seq::<PointOffsetType>::empty());
                assert(candidates@ =~= seq![scored_against(scorer, other, point)]);
            }
            while k < row.len()
                invariant
                    k <= row.len(),
                    row@ == stored,
                    candidates@ == back_candidates(scorer, other, point, row@.take(k as int)),
                    links == self.spec_links(),
                    scorer.spec_len() == links.len(),
                    other < links.len(),
                    falling(candidates@),
                    all_reach(candidates@, links, level as int),
                    forall|i: int|
                        0 <= i < candidates@.len() ==> (#[trigger] candidates@[i]).idx == point
                            || row@.contains(candidates@[i].idx),
                    forall|i: int|
                        0 <= i < row@.len() ==> reaches(links, level as int, #[trigger] row@[i]),
                decreases row.len() - k,
            {
                let neighbour: PointOffsetType = row[k];
                assert(reaches(links, level as int, row@[k as int]));
                proof {
                    assert(row@.take(k as int + 1).drop_last() =~= row@.take(k as int));
                    assert(row@.take(k as int + 1).last() == neighbour);
                }
                let score: ScoreType = scorer.score_internal(other, neighbour);
                let ghost before = candidates@;
                let pos: usize = insert_falling(
                    &mut candidates,
                    ScoredPointOffset { idx: neighbour, score },
                );
                proof {
                    assert forall|i: int| 0 <= i < candidates@.len() implies reaches(
                        links,
                        level as int,
                        (#[trigger] candidates@[i]).idx,
                    ) by {
                        if i < pos {
                            assert(candidates@[i] == before[i]);
                        } else if i > pos {
                            assert(candidates@[i] == before[i - 1]);
                        }
                    }
                    assert forall|i: int| 0 <= i < candidates@.len() implies (
                    #[trigger] candidates@[i]).idx == point || row@.contains(candidates@[i].idx) by {
                        if i < pos {
                            assert(candidates@[i] == before[i]);
                        } else if i > pos {
                            assert(candidates@[i] == before[i - 1]);
                        } else {
                            assert(row@[k as int] == neighbour);
                        }
                    }
                }
                k = k + 1;
            }
            proof {
                assert(row@.take(row@.len() as int) =~= row@);
                assert forall|i: int| 0 <= i < candidates@.len() implies (
                #[trigger] candidates@[i]).idx < scorer.spec_len() by {
                    assert(reaches(links, level as int, candidates@[i].idx));
                }
            }
            let selected: Vec<PointOffsetType> = select_candidates_with_heuristic(
                scorer,
                &candidates,
                limit,
            );
            proof {
                lemma_select(scorer, candidates@, limit);
                assert forall|i: int| 0 <= i < selected@.len() implies (#[trigger] selected@[i])
                    < links.len() && (level as int) < links[selected@[i] as int]@.len() by {
                    assert(lists_point(candidates@, selected@[i]));
                    let j = choose|j: int|
                        0 <= j < candidates@.len() && candidates@[j].idx == selected@[i];
                    assert(reaches(links, level as int, candidates@[j].idx));
                }
            }
            let ghost given = selected@;
            self.set_row(other, level, selected);
            proof {
                assert forall|p: PointOffsetType| #[trigger] self.is_linked(p) implies old(self).is_linked(p) || p == point by {
                    if given.contains(p) && p != point {
                        let i = choose|i: int| 0 <= i < given.len() && given[i] == p;
                        assert(lists_point(candidates@, given[i]));
                        let j = choose|j: int|
                            0 <= j < candidates@.len() && candidates@[j].idx == given[i];
                        assert(row@.contains(candidates@[j].idx));
                        let k = choose|k: int| 0 <= k < row@.len() && row@[k] == p;
                        assert(old(self).neighbours(other, level as int)[k] == p);
                    }
                }
            }
        }
    }

    /// What holds of the graph once a point has been taken into it: the
    /// graph is sound and has its points, limits and layers as before; the
    /// point is the entry point where there was none or where it reaches
    /// higher than the entry point did; the first point leaves all lists
    /// as they were, and any point leaves the lists above the layers that
    /// it shares with the entry point as they were; a point that was not
    /// linked has neighbours on the ground layer where there was an entry
    /// point and the limits allow any, and each of them has neighbours
    /// there in turn; no other point comes to be linked, the lists of
    /// points that were not linked stay as they were, and a list that held
    /// neighbours holds some.
    pub open spec fn linked_in(&self, before: &GraphLayers, point: PointOffsetType) -> bool {
        &&& self.wf()
        &&& self.spec_num_points() == before.spec_num_points()
        &&& self.spec_m() == before.spec_m()
        &&& self.spec_m0() == before.spec_m0()
        &&& self.spec_ef_construct() == before.spec_ef_construct()
        &&& forall|q: PointOffsetType|
            q < self.spec_num_points() ==> #[trigger] self.level_of(q) == before.level_of(q)
        &&& self.spec_entry() == match before.spec_entry() {
            None => Some(point),
            Some(entry) => if before.level_of(point) > before.level_of(entry) {
                Some(point)
            } else {
                Some(entry)
            },
        }
        &&& before.spec_entry() is None ==> self.spec_links() == before.spec_links()
        &&& forall|q: PointOffsetType, l: int|
            q < self.spec_num_points() && 0 <= l <= self.level_of(q) && (
            before.spec_entry() matches Some(entry) ==> l > lower(
                before.level_of(point),
                before.level_of(entry),
            )) ==> #[trigger] self.neighbours(q, l) == before.neighbours(q, l)
        &&& before.spec_entry() is Some && !before.is_linked(point) && before.spec_m0() > 0
            && before.spec_ef_construct() > 0 ==> self.neighbours(point, 0).len() > 0
        &&& self.keeps_linked(before, point)
        &&& self.keeps_rows(before, point)
        &&& self.keeps_neighbours(before, point)
        &&& before.spec_entry() is Some && !before.is_linked(point) && before.spec_m0() > 0
            && before.spec_ef_construct() > 0 ==> self.joins(before, point)
    }

    /// Takes a point into the graph. The first point becomes the entry
    /// point. Any other is linked on each layer that it shares with the
    /// entry point, from the highest down to the ground: the walk over the
    /// layer finds the points nearest to it, its neighbours are chosen
    /// among them, and each of them gets it as a neighbour in turn. A point
    /// that reaches higher than the entry point takes its place.
    pub fn link_new_point<S: PointsScorer>(&mut self, point: PointOffsetType, scorer: &S)
        requires
            old(self).wf(),
            scorer.spec_len() == old(self).spec_num_points(),
            point < old(self).spec_num_points(),
        ensures
            final(self).linked_in(old(self), point),
    {
        let level: usize = self.point_level(point);
        let ef: usize = self.ef_construct;
        let ghost fresh = !self.is_linked(point);
        let ghost n = self.spec_num_points();
        match self.entry_point {
            None => {
                self.entry_point = Some(point);
                proof {
                    assert forall|p: PointOffsetType| #[trigger] self.is_linked(p) implies old(self).is_linked(p) || p == point by {
                        if p != point {
                            let (q, l, k) = choose|q: PointOffsetType, l: int, k: int|
                                q < self.spec_num_points() && 0 <= l <= self.level_of(q) && 0 <= k
                                    < self.neighbours(q, l).len() && #[trigger] self.neighbours(
                                    q,
                                    l,
                                )[k] == p;
                            assert(old(self).neighbours(q, l)[k] == p);
                        }
                    }
                }
            },
            Some(entry) => {
                let entry_level: usize = self.point_level(entry);
                let target = Target::Point(point);
                let mut level_entry: ScoredPointOffset = self.search_entry(
                    entry,
                    entry_level,
                    level,
                    scorer,
                    target,
                );
                let linking_level: usize = if level <= entry_level {
                    level
                } else {
                    entry_level
                };
                let layers: usize = self.links[point as usize].len();
                assert(linking_level < layers);
                let mut next: usize = linking_level + 1;
                while next > 0
                    invariant
                        self.wf(),
                        self.same_shape(old(self)),
                        n == self.spec_num_points(),
                        scorer.spec_len() == n,
                        point < n,
                        ef == self.spec_ef_construct(),
                        target == Target::Point(point),
                        next <= linking_level + 1,
                        linking_level <= self.level_of(point),
                        linking_level == lower(old(self).level_of(point), old(self).level_of(entry)),
                        level_entry.idx < n,
                        next <= self.level_of(level_entry.idx) + 1,
                        level_entry.score == target_score(scorer, target, level_entry.idx),
                        fresh ==> level_entry.idx != point,
                        self.keeps_linked(old(self), point),
                        self.keeps_rows(old(self), point),
                        self.keeps_neighbours(old(self), point),
                        next == 0 && fresh && self.spec_m0() > 0 && ef > 0 ==> self.joins(
                            old(self),
                            point,
                        ),
                        level_entry.idx == point || old(self).is_linked(level_entry.idx),
                        forall|q: PointOffsetType, l: int|
                            q < n && 0 <= l <= self.level_of(q) && (l < next || l > linking_level)
                                ==> #[trigger] self.neighbours(q, l) == old(self).neighbours(q, l),
                        next == 0 && fresh && self.spec_m0() > 0 && ef > 0 ==> self.neighbours(
                            point,
                            0,
                        ).len() > 0,
                    decreases next,
                {
                    next = next - 1;
                    let curr: usize = next;
                    let ghost start = *self;
                    let mut visited: Vec<bool> = fresh_marks(self.links.len());
                    visited[point as usize] = true;
                    let mut entries: Vec<ScoredPointOffset> = Vec::new();
                    if level_entry.idx != point {
                        visited[level_entry.idx as usize] = true;
                        entries.push(level_entry);
                    }
                    let ghost seen = visited@;
                    proof {
                        assert forall|i: int| 0 <= i < entries@.len() implies #[trigger] entry_ok(
                            entries@[i],
                            self.spec_links(),
                            curr as int,
                            scorer,
                            target,
                            visited@,
                        ) by {
                            assert(entries@[i] == level_entry);
                        }
                    }
                    let nearest: Vec<ScoredPointOffset> = self.search_on_level(
                        &entries,
                        curr,
                        ef,
                        scorer,
                        target,
                        false,
                        &mut visited,
                    );
                    proof {
                        assert forall|i: int| 0 <= i < nearest@.len() implies (
                        #[trigger] nearest@[i]).idx != point && reaches(
                            self.spec_links(),
                            curr as int,
                            nearest@[i].idx,
                        ) by {
                            assert(entry_ok(
                                nearest@[i],
                                self.spec_links(),
                                curr as int,
                                scorer,
                                target,
                                visited@,
                            ));
                            if lists_point(entries@, nearest@[i].idx) {
                                let k = choose|k: int|
                                    0 <= k < entries@.len() && entries@[k].idx == nearest@[i].idx;
                                assert(entries@[k] == level_entry);
                            } else {
                                assert(!seen[nearest@[i].idx as int]);
                            }
                        }
                        assert forall|i: int| 0 <= i < nearest@.len() implies (
                        #[trigger] nearest@[i]).idx < scorer.spec_len() by {
                            assert(reaches(self.spec_links(), curr as int, nearest@[i].idx));
                        }
                        assert forall|i: int| 0 <= i < nearest@.len() implies old(self).is_linked(
                            (#[trigger] nearest@[i]).idx,
                        ) by {
                            assert(nearest@[i].idx != point);
                            if lists_point(entries@, nearest@[i].idx) {
                                let k = choose|k: int|
                                    0 <= k < entries@.len() && entries@[k].idx == nearest@[i].idx;
                                assert(entries@[k] == level_entry);
                            } else {
                                assert(self.is_linked(nearest@[i].idx));
                            }
                        }
                    }
                    let limit: usize = self.get_m(curr);
                    let selected: Vec<PointOffsetType> = select_candidates_with_heuristic(
                        scorer,
                        &nearest,
                        limit,
                    );
                    let chosen: Vec<PointOffsetType> = copy_row(&selected);
                    proof {
                        lemma_select(scorer, nearest@, limit);
                        assert forall|i: int| 0 <= i < selected@.len() implies (
                        #[trigger] selected@[i]) != point && reaches(
                            self.spec_links(),
                            curr as int,
                            selected@[i],
                        ) by {
                            assert(lists_point(nearest@, selected@[i]));
                            let j = choose|j: int|
                                0 <= j < nearest@.len() && nearest@[j].idx == selected@[i];
                            assert(nearest@[j].idx != point);
                        }
                        assert forall|i: int| 0 <= i < selected@.len() implies old(self).is_linked(
                            #[trigger] selected@[i],
                        ) by {
                            assert(lists_point(nearest@, selected@[i]));
                            let j = choose|j: int|
                                0 <= j < nearest@.len() && nearest@[j].idx == selected@[i];
                            assert(old(self).is_linked(nearest@[j].idx));
                        }
                        assert(row_ok(selected@, self.spec_links(), curr as int)) by {
                            assert forall|k: int| 0 <= k < selected@.len() implies (
                            #[trigger] selected@[k]) < self.spec_links().len() && (curr as int)
                                < self.spec_links()[selected@[k] as int]@.len() by {
                                assert(reaches(self.spec_links(), curr as int, selected@[k]));
                            }
                        }
                        if curr == 0 && fresh && self.spec_m0() > 0 && ef > 0 {
                            assert(entries@[0] == level_entry);
                            assert(leads_with(nearest@, entries@[0].score));
                            lemma_select_first(scorer, nearest@, limit);
                        }
                    }
                    self.set_row(point, curr, selected);
                    proof {
                        assert forall|p: PointOffsetType| #[trigger] self.is_linked(p) implies old(self).is_linked(p) || p == point by {
                            if !start.is_linked(p) {
                                assert(chosen@.contains(p));
                                let i = choose|i: int| 0 <= i < chosen@.len() && chosen@[i] == p;
                                assert(old(self).is_linked(chosen@[i]));
                            }
                        }
                        assert forall|q: PointOffsetType, l: int|
                            q < self.spec_num_points() && q != point && !old(self).is_linked(q) && 0
                                <= l <= self.level_of(q) implies #[trigger] self.neighbours(q, l)
                            == old(self).neighbours(q, l) by {
                            assert(start.level_of(q) == self.level_of(q));
                            assert(start.neighbours(q, l) == old(self).neighbours(q, l));
                        }
                        assert forall|q: PointOffsetType, l: int|
                            q < self.spec_num_points() && q != point && 0 <= l <= self.level_of(q)
                                && old(self).neighbours(q, l).len() > 0 implies (
                        #[trigger] self.neighbours(q, l)).len() > 0 by {
                            assert(start.level_of(q) == self.level_of(q));
                            assert(start.neighbours(q, l).len() > 0);
                            assert(self.neighbours(q, l) == start.neighbours(q, l));
                        }
                    }
                    let mut k: usize = 0;
                    while k < chosen.len()
                        invariant
                            k <= chosen.len(),
                            self.wf(),
                            self.same_shape(old(self)),
                            self.keeps_linked(old(self), point),
                            self.keeps_rows(old(self), point),
                            self.keeps_neighbours(old(self), point),
                            forall|i: int|
                                0 <= i < k && self.spec_limit(curr as int) > 0 ==> self.neighbours(
                                    #[trigger] chosen@[i],
                                    curr as int,
                                ).len() > 0,
                            forall|i: int|
                                0 <= i < chosen@.len() ==> old(self).is_linked(#[trigger] chosen@[i]),
                            n == self.spec_num_points(),
                            scorer.spec_len() == n,
                            point < n,
                            curr <= self.level_of(point),
                            curr <= linking_level,
                            self.neighbours(point, curr as int) == chosen@,
                            forall|i: int|
                                0 <= i < chosen@.len() ==> (#[trigger] chosen@[i]) != point
                                    && chosen@[i] < n && curr <= self.level_of(chosen@[i]),
                            forall|q: PointOffsetType, l: int|
                                q < n && 0 <= l <= self.level_of(q) && (l < curr || l
                                    > linking_level) ==> #[trigger] self.neighbours(q, l) == old(self).neighbours(q, l),
                        decreases chosen.len() - k,
                    {
                        let other: PointOffsetType = chosen[k];
                        assert(chosen@[k as int] != point);
                        let ghost mid = *self;
                        self.connect_back(other, curr, point, scorer);
                        proof {
                            assert(old(self).is_linked(chosen@[k as int]));
                            assert forall|p: PointOffsetType| #[trigger] self.is_linked(p) implies old(self).is_linked(p) || p == point by {
                                if p != point {
                                    assert(mid.is_linked(p));
                                }
                            }
                            assert forall|q: PointOffsetType, l: int|
                                q < self.spec_num_points() && q != point && !old(self).is_linked(q)
                                    && 0 <= l <= self.level_of(q) implies #[trigger] self.neighbours(
                                q,
                                l,
                            ) == old(self).neighbours(q, l) by {
                                assert(mid.level_of(q) == self.level_of(q));
                                assert(mid.neighbours(q, l) == old(self).neighbours(q, l));
                            }
                            let row = mid.neighbours(other, curr as int);
                            assert(row.len() <= link_limit(mid.spec_m(), mid.spec_m0(), curr as int))
                                by {
                                assert(mid.spec_links()[other as int]@[curr as int]@.len()
                                    <= link_limit(mid.spec_m(), mid.spec_m0(), curr as int));
                            }
                            if mid.spec_limit(curr as int) > 0 {
                                lemma_connected_holds(
                                    scorer,
                                    other,
                                    point,
                                    row,
                                    mid.spec_limit(curr as int),
                                );
                            }
                            assert forall|q: PointOffsetType, l: int|
                                q < self.spec_num_points() && q != point && 0 <= l <= self.level_of(
                                    q,
                                ) && old(self).neighbours(q, l).len() > 0 implies (
                            #[trigger] self.neighbours(q, l)).len() > 0 by {
                                assert(mid.level_of(q) == self.level_of(q));
                                assert(mid.neighbours(q, l).len() > 0);
                                if !(q == other && l == curr) {
                                    assert(self.neighbours(q, l) == mid.neighbours(q, l));
                                }
                            }
                            assert forall|i: int|
                                0 <= i < k + 1 && self.spec_limit(curr as int)
                                    > 0 implies self.neighbours(
                                #[trigger] chosen@[i],
                                curr as int,
                            ).len() > 0 by {
                                if chosen@[i] != other {
                                    assert(mid.level_of(chosen@[i]) == self.level_of(chosen@[i]));
                                    assert(self.neighbours(chosen@[i], curr as int)
                                        == mid.neighbours(chosen@[i], curr as int));
                                }
                            }
                        }
                        k = k + 1;
                    }
                    proof {
                        if curr == 0 && fresh && self.spec_m0() > 0 && ef > 0 {
                            assert forall|i: int|
                                0 <= i < self.neighbours(point, 0).len() implies {
                                &&& (#[trigger] self.neighbours(point, 0)[i]) != point
                                &&& old(self).is_linked(self.neighbours(point, 0)[i])
                                &&& self.neighbours(self.neighbours(point, 0)[i], 0).len() > 0
                            } by {
                                assert(self.neighbours(point, 0)[i] == chosen@[i]);
                                assert(old(self).is_linked(chosen@[i]));
                            }
                        }
                    }
                    if nearest.len() > 0 {
                        level_entry = nearest[0];
                        proof {
                            assert(entry_ok(
                                nearest@[0],
                                start.spec_links(),
                                curr as int,
                                scorer,
                                target,
                                visited@,
                            ));
                            assert(nearest@[0].idx != point);
                            assert(start.level_of(nearest@[0].idx) == old(self).level_of(
                                nearest@[0].idx,
                            ));
                            assert(self.level_of(nearest@[0].idx) == old(self).level_of(
                                nearest@[0].idx,
                            ));
                            assert(old(self).is_linked(nearest@[0].idx));
                        }
                    }
                }
                let ghost linked = *self;
                if level > entry_level {
                    self.entry_point = Some(point);
                }
                proof {
                    assert forall|p: PointOffsetType| #[trigger] self.is_linked(p) implies old(self).is_linked(p) || p == point by {
                        if p != point {
                            if self.spec_entry() != Some(p) {
                                let (q, l, k) = choose|q: PointOffsetType, l: int, k: int|
                                    q < self.spec_num_points() && 0 <= l <= self.level_of(q) && 0
                                        <= k < self.neighbours(q, l).len()
                                        && #[trigger] self.neighbours(q, l)[k] == p;
                                assert(linked.neighbours(q, l)[k] == p);
                            }
                            assert(linked.is_linked(p));
                        }
                    }
                    assert forall|q: PointOffsetType, l: int|
                        q < self.spec_num_points() && q != point && !old(self).is_linked(q) && 0
                            <= l <= self.level_of(q) implies #[trigger] self.neighbours(q, l)
                        == old(self).neighbours(q, l) by {
                        assert(linked.level_of(q) == self.level_of(q));
                        assert(linked.neighbours(q, l) == old(self).neighbours(q, l));
                    }
                    assert forall|q: PointOffsetType, l: int|
                        q < self.spec_num_points() && q != point && 0 <= l <= self.level_of(q)
                            && old(self).neighbours(q, l).len() > 0 implies (
                    #[trigger] self.neighbours(q, l)).len() > 0 by {
                        assert(linked.level_of(q) == self.level_of(q));
                        assert(linked.neighbours(q, l).len() > 0);
                    }
                    if fresh && self.spec_m0() > 0 && ef > 0 {
                        assert(linked.joins(old(self), point));
                        assert forall|i: int| 0 <= i < self.neighbours(point, 0).len() implies {
                            &&& (#[trigger] self.neighbours(point, 0)[i]) != point
                            &&& old(self).is_linked(self.neighbours(point, 0)[i])
                            &&& self.neighbours(self.neighbours(point, 0)[i], 0).len() > 0
                        } by {
                            assert(linked.neighbours(point, 0)[i] != point);
                        }
                    }
                    assert forall|q: PointOffsetType| q < n implies #[trigger] self.level_of(q)
                        == old(self).level_of(q) by {
                        assert(linked.level_of(q) == old(self).level_of(q));
                    }
                    assert forall|q: PointOffsetType, l: int|
                        q < n && 0 <= l <= self.level_of(q) && l
                            > linking_level implies #[trigger] self.neighbours(q, l) == old(self).neighbours(q, l) by {
                        assert(linked.neighbours(q, l) == old(self).neighbours(q, l));
                    }
                }
            },
        }
    }
}

/// The layer that the draws give a point: the highest of those drawn for
/// it, the ground layer where none was.
pub open spec fn drawn_level(ids: Seq<PointOffsetType>, levels: Seq<usize>, point: PointOffsetType) -> int
    decreases ids.len(),
{
    if ids.len() == 0 || levels.len() == 0 {
        0
    } else {
        let rest = drawn_level(ids.drop_last(), levels.drop_last(), point);
        if ids.last() == point && levels.last() > rest {
            levels.last() as int
        } else {
            rest
        }
    }
}

/// Builds the graph over the given points, which are taken in one after
/// the other, each on the layers drawn for it. Where a point was given,
/// the graph has an entry point, and no given point reaches higher than it.
pub fn build_graph<S: PointsScorer>(
    num_points: usize,
    m: usize,
    m0: usize,
    ef_construct: usize,
    ids: &Vec<PointOffsetType>,
    levels: &Vec<usize>,
    scorer: &S,
) -> (r: GraphLayers)
    requires
        num_points <= u32::MAX,
        scorer.spec_len() == num_points,
        ids@.len() == levels@.len(),
        forall|i: int| 0 <= i < ids@.len() ==> (#[trigger] ids@[i]) < num_points,
    ensures
        r.wf(),
        r.spec_num_points() == num_points,
        r.spec_m() == m,
        r.spec_m0() == m0,
        r.spec_ef_construct() == ef_construct,
        forall|p: PointOffsetType|
            p < num_points ==> #[trigger] r.level_of(p) == drawn_level(ids@, levels@, p),
        r.spec_entry() is Some <==> ids@.len() > 0,
        r.spec_entry() matches Some(entry) ==> forall|i: int|
            0 <= i < ids@.len() ==> r.level_of(#[trigger] ids@[i]) <= r.level_of(entry),
{
    let mut graph = GraphLayers::new(num_points, m, m0, ef_construct);
    let mut i: usize = 0;
    proof {
        assert(ids@.take(0) =~= Seq::<PointOffsetType>::empty());
    }
    while i < ids.len()
        invariant
            i <= ids.len(),
            ids@.len() == levels@.len(),
            forall|k: int| 0 <= k < ids@.len() ==> (#[trigger] ids@[k]) < num_points,
            graph.wf(),
            graph.spec_num_points() == num_points,
            graph.spec_m() == m,
            graph.spec_m0() == m0,
            graph.spec_ef_construct() == ef_construct,
            graph.spec_entry() is None,
            forall|p: PointOffsetType|
                p < num_points ==> #[trigger] graph.level_of(p) == drawn_level(
                    ids@.take(i as int),
                    levels@.take(i as int),
                    p,
                ),
        decreases ids.len() - i,
    {
        let ghost before = graph;
        proof {
            assert(ids@.take(i as int + 1).drop_last() =~= ids@.take(i as int));
            assert(levels@.take(i as int + 1).drop_last() =~= levels@.take(i as int));
            assert(ids@.take(i as int + 1).last() == ids@[i as int]);
            assert(levels@.take(i as int + 1).last() == levels@[i as int]);
        }
        graph.set_levels(ids[i], levels[i]);
        proof {
            assert forall|p: PointOffsetType| p < num_points implies #[trigger] graph.level_of(p)
                == drawn_level(ids@.take(i as int + 1), levels@.take(i as int + 1), p) by {
                assert(before.level_of(p) == drawn_level(
                    ids@.take(i as int),
                    levels@.take(i as int),
                    p,
                ));
                if p != ids@[i as int] {
                    assert(graph.level_of(p) == before.level_of(p));
                }
            }
        }
        i = i + 1;
    }
    proof {
        assert(ids@.take(ids@.len() as int) =~= ids@);
        assert(levels@.take(levels@.len() as int) =~= levels@);
    }
    let ghost drawn = graph;
    let mut j: usize = 0;
    while j < ids.len()
        invariant
            j <= ids.len(),
            forall|k: int| 0 <= k < ids@.len() ==> (#[trigger] ids@[k]) < num_points,
            scorer.spec_len() == num_points,
            graph.wf(),
            graph.spec_num_points() == num_points,
            graph.spec_m() == m,
            graph.spec_m0() == m0,
            graph.spec_ef_construct() == ef_construct,
            forall|p: PointOffsetType|
                p < num_points ==> #[trigger] graph.level_of(p) == drawn.level_of(p),
            graph.spec_entry() is Some <==> j > 0,
            graph.spec_entry() matches Some(entry) ==> entry < num_points && forall|k: int|
                0 <= k < j ==> drawn.level_of(#[trigger] ids@[k]) <= drawn.level_of(entry),
        decreases ids.len() - j,
    {
        let ghost before = graph;
        graph.link_new_point(ids[j], scorer);
        proof {
            assert forall|p: PointOffsetType| p < num_points implies #[trigger] graph.level_of(p)
                == drawn.level_of(p) by {
                assert(before.level_of(p) == drawn.level_of(p));
            }
            let point = ids@[j as int];
            assert(before.level_of(point) == drawn.level_of(point));
            if before.spec_entry() is Some {
                let entry = before.spec_entry().unwrap();
                assert(before.level_of(entry) == drawn.level_of(entry));
            }
        }
        j = j + 1;
    }
    proof {
        if graph.spec_entry() is Some {
            let entry = graph.spec_entry().unwrap();
            assert(graph.level_of(entry) == drawn.level_of(entry));
            assert forall|k: int| 0 <= k < ids@.len() implies graph.level_of(#[trigger] ids@[k])
                <= graph.level_of(entry) by {
                assert(graph.level_of(ids@[k]) == drawn.level_of(ids@[k]));
            }
        }
    }
    graph
}

/// The neighbours of all points up to one on a layer, counted together.
pub open spec fn links_sum(links: Seq<Vec<Vec<PointOffsetType>>>, level: int, upto: int) -> int
    decreases upto,
{
    if upto <= 0 {
        0
    } else {
        links_sum(links, level, upto - 1) + if level < links[upto - 1]@.len() {
            links[upto - 1]@[level]@.len() as int
        } else {
            0
        }
    }
}

/// The number of points up to one that reach a layer.
pub open spec fn reach_count(links: Seq<Vec<Vec<PointOffsetType>>>, level: int, upto: int) -> int
    decreases upto,
{
    if upto <= 0 {
        0
    } else {
        reach_count(links, level, upto - 1) + if level < links[upto - 1]@.len() {
            1int
        } else {
            0int
        }
    }
}

/// The number of neighbours that a point of a layer has on it on average,
/// in whole neighbours; zero where no point reaches the layer.
pub open spec fn average_links(links: Seq<Vec<Vec<PointOffsetType>>>, level: int) -> int {
    if reach_count(links, level, links.len() as int) == 0 {
        0
    } else {
        links_sum(links, level, links.len() as int) / reach_count(links, level, links.len() as int)
    }
}

impl GraphLayers {
    /// The number of neighbours that a point of the layer has on it on
    /// average.
    pub fn get_average_connectivity_on_level(&self, level: usize) -> (r: usize)
        requires
            self.wf(),
        ensures
            r == average_links(self.spec_links(), level as int),
    {
        let mut sum: u128 = 0;
        let mut count: u128 = 0;
        let mut i: usize = 0;
        while i < self.links.len()
            invariant
                i <= self.links@.len(),
                self.links@.len() <= u32::MAX,
                sum == links_sum(self.links@, level as int, i as int),
                count == reach_count(self.links@, level as int, i as int),
                0 <= count <= i,
                0 <= sum <= count * usize::MAX,
            decreases self.links.len() - i,
        {
            if level < self.links[i].len() {
                let degree: usize = self.links[i][level].len();
                assert(sum + degree <= (count + 1) * usize::MAX) by (nonlinear_arith)
                    requires
                        sum <= count * usize::MAX,
                        degree <= usize::MAX,
                ;
                assert(count * usize::MAX <= u32::MAX * usize::MAX) by (nonlinear_arith)
                    requires
                        0 <= count <= u32::MAX,
                ;
                sum = sum + degree as u128;
                count = count + 1;
            }
            i = i + 1;
        }
        if count == 0 {
            0
        } else {
            assert(sum / count <= usize::MAX) by (nonlinear_arith)
                requires
                    0 <= sum <= count * usize::MAX,
                    count > 0,
            ;
            (sum / count) as usize
        }
    }
}

/// Two lists of neighbours as one: the first, and behind it what the
/// second holds besides, each point once and in the order of the second.
pub open spec fn merged_row(a: Seq<PointOffsetType>, b: Seq<PointOffsetType>) -> Seq<PointOffsetType>
    decreases b.len(),
{
    if b.len() == 0 {
        a
    } else {
        let rest = merged_row(a, b.drop_last());
        if rest.contains(b.last()) {
            rest
        } else {
            rest.push(b.last())
        }
    }
}

/// The merged list is no longer than both together, begins with the first
/// list, and holds points of the two lists only.
pub proof fn lemma_merged_row(a: Seq<PointOffsetType>, b: Seq<PointOffsetType>)
    ensures
        a.len() <= merged_row(a, b).len() <= a.len() + b.len(),
        forall|i: int| 0 <= i < a.len() ==> merged_row(a, b)[i] == a[i],
        forall|i: int|
            0 <= i < merged_row(a, b).len() ==> a.contains(#[trigger] merged_row(a, b)[i])
                || b.contains(merged_row(a, b)[i]),
        forall|i: int| 0 <= i < a.len() ==> merged_row(a, b).contains(#[trigger] a[i]),
        forall|i: int| 0 <= i < b.len() ==> merged_row(a, b).contains(#[trigger] b[i]),
    decreases b.len(),
{
    let all = merged_row(a, b);
    if b.len() == 0 {
        assert forall|i: int| 0 <= i < all.len() implies a.contains(#[trigger] all[i]) by {}
    } else {
        let init = b.drop_last();
        let rest = merged_row(a, init);
        lemma_merged_row(a, init);
        assert forall|i: int| 0 <= i < all.len() implies a.contains(#[trigger] all[i])
            || b.contains(all[i]) by {
            if i < rest.len() {
                assert(all[i] == rest[i]);
                if !a.contains(rest[i]) {
                    assert(init.contains(rest[i]));
                    let k = choose|k: int| 0 <= k < init.len() && init[k] == rest[i];
                    assert(b[k] == rest[i]);
                }
            } else {
                assert(all[i] == b[b.len() - 1]);
            }
        }
        assert forall|i: int| 0 <= i < a.len() implies all.contains(#[trigger] a[i]) by {
            assert(all[i] == a[i]);
        }
        assert forall|i: int| 0 <= i < b.len() implies all.contains(#[trigger] b[i]) by {
            if i < init.len() {
                assert(init[i] == b[i]);
                assert(rest.contains(init[i]));
                let k = choose|k: int| 0 <= k < rest.len() && rest[k] == init[i];
                assert(all[k] == b[i]);
            } else if rest.contains(b.last()) {
                let k = choose|k: int| 0 <= k < rest.len() && rest[k] == b.last();
                assert(all[k] == b[i]);
            } else {
                assert(all[all.len() - 1] == b[i]);
            }
        }
    }
}

/// Two lists of neighbours as one.
fn merge_rows(a: &Vec<PointOffsetType>, b: &Vec<PointOffsetType>) -> (r: Vec<PointOffsetType>)
    ensures
        r@ == merged_row(a@, b@),
{
    let mut row: Vec<PointOffsetType> = copy_row(a);
    let mut i: usize = 0;
    proof {
        assert(b@.take(0) =~= Seq::<PointOffsetType>::empty());
    }
    while i < b.len()
        invariant
            i <= b.len(),
            row@ == merged_row(a@, b@.take(i as int)),
        decreases b.len() - i,
    {
        let point: PointOffsetType = b[i];
        proof {
            assert(b@.take(i as int + 1).drop_last() =~= b@.take(i as int));
            assert(b@.take(i as int + 1).last() == point);
        }
        let mut found: bool = false;
        let mut k: usize = 0;
        while k < row.len() && !found
            invariant
                k <= row.len(),
                found ==> row@.contains(point),
                !found ==> forall|j: int| 0 <= j < k ==> row@[j] != point,
            decreases row.len() - k + if found { 0int } else { 1int },
        {
            if row[k] == point {
                found = true;
            } else {
                k = k + 1;
            }
        }
        if !found {
            row.push(point);
        }
        i = i + 1;
    }
    proof {
        assert(b@.take(b@.len() as int) =~= b@);
    }
    row
}

/// The sum of two limits, held within the numbers of the machine.
pub open spec fn joined_limit(a: usize, b: usize) -> usize {
    if a + b > usize::MAX {
        usize::MAX
    } else {
        (a + b) as usize
    }
}

/// The higher of two layers.
pub open spec fn higher(a: int, b: int) -> int {
    if a >= b {
        a
    } else {
        b
    }
}

impl GraphLayers {
    /// The neighbours of a point on a layer, none on a layer that the
    /// point does not reach.
    pub open spec fn row_or_empty(&self, point: PointOffsetType, level: int) -> Seq<PointOffsetType> {
        if 0 <= level <= self.level_of(point) {
            self.neighbours(point, level)
        } else {
            Seq::empty()
        }
    }

    /// The entry point of two graphs as one: the one that reaches higher,
    /// the first where both reach as high.
    pub open spec fn joined_entry(&self, other: &GraphLayers) -> Option<PointOffsetType> {
        match (self.spec_entry(), other.spec_entry()) {
            (None, theirs) => theirs,
            (Some(ours), None) => Some(ours),
            (Some(ours), Some(theirs)) => if other.level_of(theirs) > self.level_of(ours) {
                Some(theirs)
            } else {
                Some(ours)
            },
        }
    }

    /// The neighbours of the point on the layer are those of both graphs.
    pub open spec fn merged_at(
        &self,
        before: &GraphLayers,
        other: &GraphLayers,
        point: PointOffsetType,
        level: int,
    ) -> bool {
        self.neighbours(point, level) == merged_row(
            before.row_or_empty(point, level),
            other.row_or_empty(point, level),
        )
    }

    /// Takes the links of another graph over the same points into this
    /// one. Each point reaches the higher of its two top layers, and has on
    /// each layer the neighbours that it had, and behind them those that
    /// it has in the other graph besides. The limits on the number of
    /// neighbours are those of both graphs together.
    pub fn merge_from_other(&mut self, other: &GraphLayers)
        requires
            old(self).wf(),
            other.wf(),
            old(self).spec_num_points() == other.spec_num_points(),
        ensures
            final(self).wf(),
            final(self).spec_num_points() == old(self).spec_num_points(),
            final(self).spec_m() == joined_limit(old(self).spec_m(), other.spec_m()),
            final(self).spec_m0() == joined_limit(old(self).spec_m0(), other.spec_m0()),
            final(self).spec_ef_construct() == old(self).spec_ef_construct(),
            final(self).spec_entry() == old(self).joined_entry(other),
            forall|q: PointOffsetType|
                q < final(self).spec_num_points() ==> #[trigger] final(self).level_of(q) == higher(
                    old(self).level_of(q),
                    other.level_of(q),
                ),
            forall|q: PointOffsetType, l: int|
                q < final(self).spec_num_points() && 0 <= l <= final(self).level_of(q)
                    ==> #[trigger] final(self).merged_at(old(self), other, q, l),
            forall|p: PointOffsetType|
                #[trigger] final(self).is_linked(p) ==> old(self).is_linked(p) || other.is_linked(p),
    {
        let ghost before = *self;
        let ghost n = self.spec_num_points();
        let entry: Option<PointOffsetType> = match (self.entry_point, other.entry_point) {
            (None, theirs) => theirs,
            (Some(ours), None) => Some(ours),
            (Some(ours), Some(theirs)) => if other.point_level(theirs) > self.point_level(ours) {
                Some(theirs)
            } else {
                Some(ours)
            },
        };
        self.m = self.m.saturating_add(other.m);
        self.m0 = self.m0.saturating_add(other.m0);
        proof {
            let links = self.spec_links();
            assert forall|p: int, l: int|
                0 <= p < links.len() && 0 <= l < links[p]@.len() implies (
            #[trigger] links[p]@[l])@.len() <= link_limit(self.m, self.m0, l) by {
                assert(links[p]@[l]@.len() <= link_limit(before.m, before.m0, l));
            }
        }
        let count: usize = self.links.len();
        let mut point: PointOffsetType = 0;
        while (point as usize) < count
            invariant
                point <= count,
                count == n,
                n == self.spec_num_points(),
                n == other.spec_num_points(),
                n == before.spec_num_points(),
                self.wf(),
                other.wf(),
                before.wf(),
                self.spec_m() == joined_limit(before.spec_m(), other.spec_m()),
                self.spec_m0() == joined_limit(before.spec_m0(), other.spec_m0()),
                self.spec_ef_construct() == before.spec_ef_construct(),
                self.spec_entry() == before.spec_entry(),
                forall|q: PointOffsetType|
                    q < n ==> #[trigger] self.level_of(q) == if q < point {
                        higher(before.level_of(q), other.level_of(q))
                    } else {
                        before.level_of(q)
                    },
                forall|q: PointOffsetType, l: int|
                    q < n && 0 <= l <= self.level_of(q) ==> #[trigger] self.neighbours(q, l)
                        == before.row_or_empty(q, l),
            decreases count - point,
        {
            let ghost start = *self;
            let level: usize = other.point_level(point);
            self.set_levels(point, level);
            proof {
                assert forall|q: PointOffsetType| q < n implies #[trigger] self.level_of(q) == if q
                    < point + 1 {
                    higher(before.level_of(q), other.level_of(q))
                } else {
                    before.level_of(q)
                } by {
                    assert(start.level_of(q) == if q < point {
                        higher(before.level_of(q), other.level_of(q))
                    } else {
                        before.level_of(q)
                    });
                }
                assert forall|q: PointOffsetType, l: int|
                    q < n && 0 <= l <= self.level_of(q) implies #[trigger] self.neighbours(q, l)
                    == before.row_or_empty(q, l) by {
                    if l <= start.level_of(q) {
                        assert(start.neighbours(q, l) == before.row_or_empty(q, l));
                    } else {
                        assert(q == point);
                        assert(start.level_of(q) == before.level_of(q));
                        assert(self.neighbours(q, l).len() == 0);
                        assert(self.neighbours(q, l) =~= Seq::<PointOffsetType>::empty());
                    }
                }
            }
            point = point + 1;
        }
        let ghost raised = *self;
        let mut point: PointOffsetType = 0;
        while (point as usize) < count
            invariant
                point <= count,
                count == n,
                n == self.spec_num_points(),
                n == other.spec_num_points(),
                n == before.spec_num_points(),
                self.wf(),
                other.wf(),
                before.wf(),
                self.spec_m() == joined_limit(before.spec_m(), other.spec_m()),
                self.spec_m0() == joined_limit(before.spec_m0(), other.spec_m0()),
                self.spec_ef_construct() == before.spec_ef_construct(),
                self.spec_entry() == before.spec_entry(),
                forall|q: PointOffsetType|
                    q < n ==> #[trigger] self.level_of(q) == higher(
                        before.level_of(q),
                        other.level_of(q),
                    ),
                forall|q: PointOffsetType, l: int|
                    q < n && 0 <= l <= self.level_of(q) ==> #[trigger] self.neighbours(q, l) == if q
                        < point {
                        merged_row(before.row_or_empty(q, l), other.row_or_empty(q, l))
                    } else {
                        before.row_or_empty(q, l)
                    },
            decreases count - point,
        {
            let layers: usize = other.links[point as usize].len();
            let mut level: usize = 0;
            while level < layers
                invariant
                    level <= layers,
                    layers == other.level_of(point) + 1,
                    point < count,
                    count == n,
                    n == self.spec_num_points(),
                    n == other.spec_num_points(),
                    n == before.spec_num_points(),
                    self.wf(),
                    other.wf(),
                    before.wf(),
                    self.spec_m() == joined_limit(before.spec_m(), other.spec_m()),
                    self.spec_m0() == joined_limit(before.spec_m0(), other.spec_m0()),
                    self.spec_ef_construct() == before.spec_ef_construct(),
                    self.spec_entry() == before.spec_entry(),
                    forall|q: PointOffsetType|
                        q < n ==> #[trigger] self.level_of(q) == higher(
                            before.level_of(q),
                            other.level_of(q),
                        ),
                    forall|q: PointOffsetType, l: int|
                        q < n && 0 <= l <= self.level_of(q) ==> #[trigger] self.neighbours(q, l)
                            == if q < point || (q == point && l < level) {
                            merged_row(before.row_or_empty(q, l), other.row_or_empty(q, l))
                        } else {
                            before.row_or_empty(q, l)
                        },
                decreases layers - level,
            {
                let ghost start = *self;
                assert(start.level_of(point) == higher(before.level_of(point), other.level_of(point)));
                let row: Vec<PointOffsetType> = merge_rows(
                    &self.links[point as usize][level],
                    &other.links[point as usize][level],
                );
                let size: usize = row.len();
                proof {
                    let ours = start.neighbours(point, level as int);
                    let theirs = other.neighbours(point, level as int);
                    assert(ours == before.row_or_empty(point, level as int));
                    assert(theirs == other.row_or_empty(point, level as int));
                    lemma_merged_row(ours, theirs);
                    assert(theirs.len() <= link_limit(other.spec_m(), other.spec_m0(), level as int));
                    if level <= before.level_of(point) {
                        assert(before.neighbours(point, level as int).len() <= link_limit(
                            before.spec_m(),
                            before.spec_m0(),
                            level as int,
                        ));
                    }
                    assert forall|k: int| 0 <= k < row@.len() implies (#[trigger] row@[k])
                        < start.spec_links().len() && (level as int)
                        < start.spec_links()[row@[k] as int]@.len() by {
                        let target = row@[k];
                        if ours.contains(target) {
                            let j = choose|j: int| 0 <= j < ours.len() && ours[j] == target;
                            assert(start.spec_links()[point as int]@[level as int]@[j]
                                < start.spec_links().len());
                        } else {
                            let j = choose|j: int| 0 <= j < theirs.len() && theirs[j] == target;
                            assert(other.spec_links()[point as int]@[level as int]@[j]
                                < other.spec_links().len());
                            assert(start.level_of(target) == higher(
                                before.level_of(target),
                                other.level_of(target),
                            ));
                        }
                    }
                }
                self.set_row(point, level, row);
                proof {
                    assert forall|q: PointOffsetType| q < n implies #[trigger] self.level_of(q)
                        == higher(before.level_of(q), other.level_of(q)) by {
                        assert(start.level_of(q) == higher(before.level_of(q), other.level_of(q)));
                    }
                    assert forall|q: PointOffsetType, l: int|
                        q < n && 0 <= l <= self.level_of(q) implies #[trigger] self.neighbours(q, l)
                        == if q < point || (q == point && l < level + 1) {
                        merged_row(before.row_or_empty(q, l), other.row_or_empty(q, l))
                    } else {
                        before.row_or_empty(q, l)
                    } by {
                        if !(q == point && l == level) {
                            assert(start.level_of(q) == self.level_of(q));
                            assert(start.neighbours(q, l) == if q < point || (q == point && l
                                < level) {
                                merged_row(before.row_or_empty(q, l), other.row_or_empty(q, l))
                            } else {
                                before.row_or_empty(q, l)
                            });
                        }
                    }
                }
                level = level + 1;
            }
            proof {
                assert forall|q: PointOffsetType, l: int|
                    q < n && 0 <= l <= self.level_of(q) implies #[trigger] self.neighbours(q, l)
                    == if q < point + 1 {
                    merged_row(before.row_or_empty(q, l), other.row_or_empty(q, l))
                } else {
                    before.row_or_empty(q, l)
                } by {
                    if q == point && l >= layers {
                        assert(other.row_or_empty(q, l) =~= Seq::<PointOffsetType>::empty());
                    }
                }
            }
            point = point + 1;
        }
        let ghost merged = *self;
        self.entry_point = entry;
        proof {
            assert forall|q: PointOffsetType| q < n implies #[trigger] self.level_of(q) == higher(
                before.level_of(q),
                other.level_of(q),
            ) by {
                assert(merged.level_of(q) == higher(before.level_of(q), other.level_of(q)));
            }
            assert forall|q: PointOffsetType, l: int|
                q < n && 0 <= l <= self.level_of(q) implies #[trigger] self.merged_at(
                &before,
                other,
                q,
                l,
            ) by {
                assert(merged.level_of(q) == self.level_of(q));
                assert(merged.neighbours(q, l) == merged_row(
                    before.row_or_empty(q, l),
                    other.row_or_empty(q, l),
                ));
            }
            assert forall|p: PointOffsetType| #[trigger] self.is_linked(p) implies before.is_linked(
                p,
            ) || other.is_linked(p) by {
                if self.spec_entry() != Some(p) {
                    let (q, l, k) = choose|q: PointOffsetType, l: int, k: int|
                        q < self.spec_num_points() && 0 <= l <= self.level_of(q) && 0 <= k
                            < self.neighbours(q, l).len() && #[trigger] self.neighbours(q, l)[k]
                            == p;
                    let ours = before.row_or_empty(q, l);
                    let theirs = other.row_or_empty(q, l);
                    assert(self.merged_at(&before, other, q, l));
                    lemma_merged_row(ours, theirs);
                    assert(ours.contains(merged_row(ours, theirs)[k]) || theirs.contains(
                        merged_row(ours, theirs)[k],
                    ));
                    if ours.contains(p) {
                        let j = choose|j: int| 0 <= j < ours.len() && ours[j] == p;
                        assert(before.neighbours(q, l)[j] == p);
                    } else {
                        let j = choose|j: int| 0 <= j < theirs.len() && theirs[j] == p;
                        assert(other.neighbours(q, l)[j] == p);
                    }
                }
            }
        }
    }
}


/// True when the row holds points of the graph that reach the layer, no
/// more of them than the layer allows.
pub open spec fn stored_row_ok(
    links: Seq<Vec<Vec<PointOffsetType>>>,
    m: usize,
    m0: usize,
    p: int,
    l: int,
) -> bool {
    &&& links[p]@[l]@.len() <= link_limit(m, m0, l)
    &&& forall|k: int|
        0 <= k < links[p]@[l]@.len() ==> (#[trigger] links[p]@[l]@[k]) < links.len() && l
            < links[links[p]@[l]@[k] as int]@.len()
}

/// True when the point has its ground layer and each of its rows is sound.
pub open spec fn stored_point_ok(
    links: Seq<Vec<Vec<PointOffsetType>>>,
    m: usize,
    m0: usize,
    p: int,
) -> bool {
    &&& links[p]@.len() >= 1
    &&& forall|l: int| 0 <= l < links[p]@.len() ==> #[trigger] stored_row_ok(links, m, m0, p, l)
}

/// The lists of neighbours are sound when those of each point are.
pub proof fn lemma_stored_links(links: Seq<Vec<Vec<PointOffsetType>>>, m: usize, m0: usize)
    ensures
        links_ok(links, m, m0) <==> links.len() <= u32::MAX && forall|p: int|
            0 <= p < links.len() ==> #[trigger] stored_point_ok(links, m, m0, p),
{
    if links_ok(links, m, m0) {
        assert forall|p: int| 0 <= p < links.len() implies #[trigger] stored_point_ok(
            links,
            m,
            m0,
            p,
        ) by {
            assert(links[p]@.len() >= 1);
            assert forall|l: int| 0 <= l < links[p]@.len() implies #[trigger] stored_row_ok(
                links,
                m,
                m0,
                p,
                l,
            ) by {
                assert(links[p]@[l]@.len() <= link_limit(m, m0, l));
            }
        }
    }
    if links.len() <= u32::MAX && forall|p: int|
        0 <= p < links.len() ==> #[trigger] stored_point_ok(links, m, m0, p) {
        assert forall|p: int| 0 <= p < links.len() implies (#[trigger] links[p])@.len() >= 1 by {
            assert(stored_point_ok(links, m, m0, p));
        }
        assert forall|p: int, l: int|
            0 <= p < links.len() && 0 <= l < links[p]@.len() implies (#[trigger] links[p]@[l])@.len()
            <= link_limit(m, m0, l) by {
            assert(stored_point_ok(links, m, m0, p));
            assert(stored_row_ok(links, m, m0, p, l));
        }
        assert forall|p: int, l: int, k: int|
            0 <= p < links.len() && 0 <= l < links[p]@.len() && 0 <= k < links[p]@[l]@.len() implies {
            &&& (#[trigger] links[p]@[l]@[k]) < links.len()
            &&& l < links[links[p]@[l]@[k] as int]@.len()
        } by {
            assert(stored_point_ok(links, m, m0, p));
            assert(stored_row_ok(links, m, m0, p, l));
        }
    }
}

fn check_stored_row(
    links: &Vec<Vec<Vec<PointOffsetType>>>,
    m: usize,
    m0: usize,
    p: usize,
    l: usize,
) -> (ok: bool)
    requires
        p < links@.len(),
        l < links@[p as int]@.len(),
    ensures
        ok == stored_row_ok(links@, m, m0, p as int, l as int),
{
    let limit: usize = if l == 0 {
        m0
    } else {
        m
    };
    let row: &Vec<PointOffsetType> = &links[p][l];
    if row.len() > limit {
        return false;
    }
    let mut k: usize = 0;
    while k < row.len()
        invariant
            k <= row.len(),
            p < links@.len(),
            l < links@[p as int]@.len(),
            row@ == links@[p as int]@[l as int]@,
            forall|j: int|
                0 <= j < k ==> (#[trigger] row@[j]) < links@.len() && l
                    < links@[row@[j] as int]@.len(),
        decreases row.len() - k,
    {
        let target: usize = row[k] as usize;
        if target >= links.len() || l >= links[target].len() {
            assert(!(links@[p as int]@[l as int]@[k as int] < links@.len() && l
                < links@[links@[p as int]@[l as int]@[k as int] as int]@.len()));
            return false;
        }
        k = k + 1;
    }
    true
}

fn check_stored_point(links: &Vec<Vec<Vec<PointOffsetType>>>, m: usize, m0: usize, p: usize) -> (ok:
    bool)
    requires
        p < links@.len(),
    ensures
        ok == stored_point_ok(links@, m, m0, p as int),
{
    if links[p].len() == 0 {
        return false;
    }
    let mut l: usize = 0;
    while l < links[p].len()
        invariant
            l <= links@[p as int]@.len(),
            p < links@.len(),
            links@[p as int]@.len() >= 1,
            forall|j: int| 0 <= j < l ==> #[trigger] stored_row_ok(links@, m, m0, p as int, j),
        decreases links@[p as int]@.len() - l,
    {
        if !check_stored_row(links, m, m0, p, l) {
            return false;
        }
        l = l + 1;
    }
    true
}

/// A graph as it is stored: its limits, the lists of neighbours of each
/// point on each layer, and the entry point.
#[derive(Debug, PartialEq, Eq)]
pub struct StoredGraph {
    pub m: usize,
    pub m0: usize,
    pub ef_construct: usize,
    pub links: Vec<Vec<Vec<PointOffsetType>>>,
    pub entry_point: Option<PointOffsetType>,
}

impl StoredGraph {
    /// The lists of neighbours are sound, and the entry point is a point
    /// of the graph.
    pub open spec fn is_sound(&self) -> bool {
        &&& links_ok(self.links@, self.m, self.m0)
        &&& self.entry_point matches Some(entry) ==> entry < self.links@.len()
    }
}

impl GraphLayers {
    /// The graph as it is stored.
    pub closed spec fn parts(&self) -> StoredGraph {
        StoredGraph {
            m: self.m,
            m0: self.m0,
            ef_construct: self.ef_construct,
            links: self.links,
            entry_point: self.entry_point,
        }
    }

    /// The parts fix the graph: graphs with the same parts are the same
    /// graph.
    pub proof fn lemma_parts_fix(&self, other: &GraphLayers)
        requires
            self.parts() == other.parts(),
        ensures
            *self == *other,
    {
        assert(self.parts().m == other.parts().m);
        assert(self.parts().m0 == other.parts().m0);
        assert(self.parts().ef_construct == other.parts().ef_construct);
        assert(self.parts().links == other.parts().links);
        assert(self.parts().entry_point == other.parts().entry_point);
    }

    /// A graph that is stored and taken back searches as it did: graphs
    /// with the same parts give the same result to every search.
    pub proof fn lemma_restored_searches_alike<S: PointsScorer>(
        &self,
        restored: &GraphLayers,
        scorer: &S,
        top: usize,
        ef: usize,
        custom: Option<Seq<PointOffsetType>>,
    )
        requires
            self.parts() == restored.parts(),
        ensures
            restored.spec_search(scorer, top, ef, custom) == self.spec_search(
                scorer,
                top,
                ef,
                custom,
            ),
    {
        self.lemma_parts_fix(restored);
    }

    /// Takes the graph apart for storing.
    pub fn into_parts(self) -> (r: StoredGraph)
        ensures
            r == self.parts(),
            self.wf() ==> r.is_sound(),
    {
        StoredGraph {
            m: self.m,
            m0: self.m0,
            ef_construct: self.ef_construct,
            links: self.links,
            entry_point: self.entry_point,
        }
    }

    /// A graph from lists of neighbours as they were stored, once they
    /// have been found to be sound: each point has its ground layer, no
    /// list is longer than its layer allows, each neighbour is a point of
    /// the graph that reaches the layer of the list, and the entry point
    /// is a point of the graph. Lists that are not sound give no graph.
    pub fn from_parts(parts: StoredGraph) -> (r: Option<Self>)
        ensures
            r is Some <==> parts.is_sound(),
            r matches Some(graph) ==> graph.wf() && graph.parts() == parts,
    {
        let StoredGraph { m, m0, ef_construct, links, entry_point } = parts;
        proof {
            lemma_stored_links(links@, m, m0);
        }
        if links.len() > u32::MAX as usize {
            return None;
        }
        match entry_point {
            Some(entry) => {
                if entry as usize >= links.len() {
                    return None;
                }
            },
            None => {},
        }
        let mut p: usize = 0;
        while p < links.len()
            invariant
                p <= links@.len(),
                parts.links == links,
                parts.m == m,
                parts.m0 == m0,
                forall|j: int| 0 <= j < p ==> #[trigger] stored_point_ok(links@, m, m0, j),
            decreases links@.len() - p,
        {
            if !check_stored_point(&links, m, m0, p) {
                proof {
                    lemma_stored_links(links@, m, m0);
                }
                return None;
            }
            p = p + 1;
        }
        Some(GraphLayers { m, m0, ef_construct, links, entry_point })
    }
}

} // verus!

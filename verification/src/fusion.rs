use vstd::prelude::*;
use crate::sorting::{ordered_by_score, sort_by_score_descending, Scored};
use crate::types::{PointIdType, ScoreType, ScoredPoint};

verus! {

/// The constant of reciprocal rank fusion.
pub const RRF_K: u64 = 60;

/// One, as a fused score is written.
pub const SCORE_UNIT: i64 = 4_294_967_296;

impl Scored for ScoredPoint {
    open spec fn spec_score(&self) -> ScoreType {
        self.score
    }

    fn score(&self) -> (s: ScoreType) {
        self.score
    }
}

/// What a source adds to the score of the point it lists at position
/// `pos`, counted from zero: one over the constant plus the rank.
pub open spec fn position_score(pos: int) -> int {
    SCORE_UNIT as int / (RRF_K + pos + 1)
}

/// True when a point with this id is among `points`.
pub open spec fn has_id(points: Seq<ScoredPoint>, id: PointIdType) -> bool {
    exists|j: int| 0 <= j < points.len() && points[j].id == id
}

/// What one source adds to the score of `id`: the score of the first
/// position at which the source lists it, nothing where it does not.
pub open spec fn source_score(source: Seq<ScoredPoint>, id: PointIdType) -> int
    decreases source.len(),
{
    if source.len() == 0 {
        0
    } else if source.last().id == id && !has_id(source.drop_last(), id) {
        position_score(source.len() - 1)
    } else {
        source_score(source.drop_last(), id)
    }
}

/// The fused score of `id`: the sum of what the sources add.
pub open spec fn rrf_sum(sources: Seq<Seq<ScoredPoint>>, id: PointIdType) -> int
    decreases sources.len(),
{
    if sources.len() == 0 {
        0
    } else {
        rrf_sum(sources.drop_last(), id) + source_score(sources.last(), id)
    }
}

/// The sources laid end to end.
pub open spec fn concat(sources: Seq<Seq<ScoredPoint>>) -> Seq<ScoredPoint>
    decreases sources.len(),
{
    if sources.len() == 0 {
        Seq::empty()
    } else {
        concat(sources.drop_last()) + sources.last()
    }
}

/// For each id of `points` the first point that has it, in the order of
/// `points`.
pub open spec fn first_points(points: Seq<ScoredPoint>) -> Seq<ScoredPoint>
    decreases points.len(),
{
    if points.len() == 0 {
        Seq::empty()
    } else if has_id(first_points(points.drop_last()), points.last().id) {
        first_points(points.drop_last())
    } else {
        first_points(points.drop_last()).push(points.last())
    }
}

/// A fused score as it is stored.
pub open spec fn clamp_score(sum: int) -> ScoreType {
    if sum > i64::MAX {
        i64::MAX
    } else {
        sum as i64
    }
}

/// The points that any source lists, each once and with its fused score, in
/// the order in which the sources first list them.
pub open spec fn fused_points(sources: Seq<Seq<ScoredPoint>>) -> Seq<ScoredPoint> {
    first_points(concat(sources)).map_values(
        |p: ScoredPoint|
            ScoredPoint { id: p.id, version: p.version, score: clamp_score(rrf_sum(sources, p.id)) },
    )
}

/// The result of reciprocal rank fusion: the fused points, best first.
pub open spec fn spec_rrf_scoring(sources: Seq<Seq<ScoredPoint>>) -> Seq<ScoredPoint> {
    ordered_by_score(fused_points(sources))
}

/// The sources as sequences.
pub open spec fn sources_view(sources: Seq<Vec<ScoredPoint>>) -> Seq<Seq<ScoredPoint>> {
    sources.map_values(|v: Vec<ScoredPoint>| v@)
}

/// The score of a position lies between nothing and one unit.
pub proof fn lemma_position_score_bounds(pos: int)
    requires
        pos >= 0,
    ensures
        0 <= position_score(pos) <= SCORE_UNIT,
{
    assert(0 <= 4_294_967_296int / (60 + pos + 1) <= 4_294_967_296) by (nonlinear_arith)
        requires
            pos >= 0,
    ;
}

/// A source gives a point one unit at the most.
pub proof fn lemma_source_score_bounds(source: Seq<ScoredPoint>, id: PointIdType)
    ensures
        0 <= source_score(source, id) <= SCORE_UNIT,
        !has_id(source, id) ==> source_score(source, id) == 0,
    decreases source.len(),
{
    if source.len() > 0 {
        lemma_source_score_bounds(source.drop_last(), id);
        lemma_position_score_bounds(source.len() - 1);
        if !has_id(source, id) {
            assert(source.last() == source[source.len() - 1]);
            if has_id(source.drop_last(), id) {
                let j = choose|j: int|
                    0 <= j < source.drop_last().len() && source.drop_last()[j].id == id;
                assert(source[j].id == id);
            }
        }
    }
}

/// The sources together give a point no more than one unit each.
pub proof fn lemma_rrf_sum_bounds(sources: Seq<Seq<ScoredPoint>>, id: PointIdType)
    ensures
        0 <= rrf_sum(sources, id) <= sources.len() * SCORE_UNIT,
    decreases sources.len(),
{
    if sources.len() > 0 {
        lemma_rrf_sum_bounds(sources.drop_last(), id);
        lemma_source_score_bounds(sources.last(), id);
    }
}

/// The points of each source are among the points laid end to end.
pub proof fn lemma_concat_has_id(sources: Seq<Seq<ScoredPoint>>, id: PointIdType)
    ensures
        has_id(concat(sources), id) <==> exists|i: int|
            0 <= i < sources.len() && has_id(#[trigger] sources[i], id),
    decreases sources.len(),
{
    if sources.len() > 0 {
        let init = sources.drop_last();
        let last = sources.last();
        lemma_concat_has_id(init, id);
        let all = concat(sources);
        if has_id(all, id) {
            let j = choose|j: int| 0 <= j < all.len() && all[j].id == id;
            if j < concat(init).len() {
                assert(concat(init)[j].id == id);
                let i = choose|i: int| 0 <= i < init.len() && has_id(#[trigger] init[i], id);
                assert(sources[i] == init[i]);
            } else {
                assert(last[j - concat(init).len()].id == id);
                assert(has_id(sources[sources.len() - 1], id));
            }
        }
        if exists|i: int| 0 <= i < sources.len() && has_id(#[trigger] sources[i], id) {
            let i = choose|i: int| 0 <= i < sources.len() && has_id(#[trigger] sources[i], id);
            if i < init.len() {
                assert(init[i] == sources[i]);
                let j = choose|j: int| 0 <= j < concat(init).len() && concat(init)[j].id == id;
                assert(all[j].id == id);
            } else {
                let j = choose|j: int| 0 <= j < last.len() && last[j].id == id;
                assert(all[concat(init).len() + j].id == id);
            }
        }
    }
}

/// An id that no source lists has the fused score zero.
pub proof fn lemma_rrf_sum_absent(sources: Seq<Seq<ScoredPoint>>, id: PointIdType)
    requires
        !has_id(concat(sources), id),
    ensures
        rrf_sum(sources, id) == 0,
    decreases sources.len(),
{
    if sources.len() > 0 {
        let init = sources.drop_last();
        lemma_concat_has_id(sources, id);
        lemma_concat_has_id(init, id);
        assert(!has_id(sources[sources.len() - 1], id));
        if has_id(concat(init), id) {
            let i = choose|i: int| 0 <= i < init.len() && has_id(#[trigger] init[i], id);
            assert(sources[i] == init[i]);
        }
        lemma_rrf_sum_absent(init, id);
        lemma_source_score_bounds(sources.last(), id);
    }
}

/// The first points hold every id of the points, once.
pub proof fn lemma_first_points(points: Seq<ScoredPoint>)
    ensures
        forall|id: PointIdType| has_id(first_points(points), id) <==> has_id(points, id),
        forall|a: int, b: int|
            0 <= a < b < first_points(points).len() ==> first_points(points)[a].id
                != first_points(points)[b].id,
        first_points(points).len() <= points.len(),
    decreases points.len(),
{
    if points.len() > 0 {
        let init = points.drop_last();
        let x = points.last();
        lemma_first_points(init);
        let fp = first_points(points);
        let fi = first_points(init);
        assert forall|id: PointIdType| has_id(fp, id) <==> has_id(points, id) by {
            if has_id(fp, id) {
                let j = choose|j: int| 0 <= j < fp.len() && fp[j].id == id;
                if j < fi.len() {
                    assert(fi[j].id == id);
                    assert(has_id(init, id));
                    let k = choose|k: int| 0 <= k < init.len() && init[k].id == id;
                    assert(points[k].id == id);
                } else {
                    assert(points[points.len() - 1].id == id);
                }
            }
            if has_id(points, id) {
                let k = choose|k: int| 0 <= k < points.len() && points[k].id == id;
                if k < init.len() {
                    assert(init[k].id == id);
                    assert(has_id(init, id));
                    assert(has_id(first_points(init), id));
                    let j = choose|j: int| 0 <= j < fi.len() && fi[j].id == id;
                    assert(fp[j].id == id);
                } else {
                    if has_id(fi, x.id) {
                    } else {
                        assert(fp[fp.len() - 1].id == id);
                    }
                }
            }
        }
        assert forall|a: int, b: int| 0 <= a < b < fp.len() implies fp[a].id != fp[b].id by {
            if b < fi.len() {
                assert(fp[a] == fi[a] && fp[b] == fi[b]);
            } else {
                assert(fp[a] == fi[a]);
                assert(fp[b].id == x.id);
                assert(!has_id(fi, x.id));
            }
        }
    }
}

/// The score that the source adds for the point at `pos`, in the width in
/// which the sums are kept.
fn position_score_of(pos: usize) -> (r: u128)
    ensures
        r == position_score(pos as int),
        r <= SCORE_UNIT,
{
    proof {
        lemma_position_score_bounds(pos as int);
    }
    (SCORE_UNIT as u128) / ((RRF_K as u128) + (pos as u128) + 1)
}

/// Position of the first point with this id among the first `upto` points.
fn position_of(points: &Vec<ScoredPoint>, upto: usize, id: PointIdType) -> (r: Option<usize>)
    requires
        upto <= points.len(),
    ensures
        r matches Some(k) ==> k < upto && points@[k as int].id == id,
        r is Some <==> has_id(points@.take(upto as int), id),
{
    let mut j: usize = 0;
    while j < upto
        invariant
            j <= upto <= points.len(),
            forall|k: int| 0 <= k < j ==> points@[k].id != id,
        decreases upto - j,
    {
        if points[j].id == id {
            assert(points@.take(upto as int)[j as int].id == id);
            return Some(j);
        }
        j = j + 1;
    }
    assert(!has_id(points@.take(upto as int), id)) by {
        if has_id(points@.take(upto as int), id) {
            let k = choose|k: int|
                0 <= k < points@.take(upto as int).len() && points@.take(upto as int)[k].id == id;
            assert(points@[k].id == id);
        }
    }
    None
}

/// Fuses ranked lists by reciprocal rank: each point that some source lists
/// comes out once, with the sum over the sources of one over the constant
/// plus its rank there, the best score first. Points of equal score come
/// out in the order in which the sources first list them.
pub fn rrf_scoring(responses: Vec<Vec<ScoredPoint>>) -> (r: Vec<ScoredPoint>)
    ensures
        r@ == spec_rrf_scoring(sources_view(responses@)),
{
    let ghost sources = sources_view(responses@);
    let mut fused: Vec<ScoredPoint> = Vec::new();
    let mut sums: Vec<u128> = Vec::new();
    let mut si: usize = 0;
    proof {
        assert(sources.take(0) =~= Seq::<Seq<ScoredPoint>>::empty());
    }
    while si < responses.len()
        invariant
            si <= responses.len(),
            sources == sources_view(responses@),
            sources.len() == responses.len(),
            fused@ == first_points(concat(sources.take(si as int))),
            sums@.len() == fused@.len(),
            forall|k: int|
                0 <= k < fused@.len() ==> sums@[k] == rrf_sum(
                    sources.take(si as int),
                    #[trigger] fused@[k].id,
                ),
        decreases responses.len() - si,
    {
        let source: &Vec<ScoredPoint> = &responses[si];
        let ghost done = sources.take(si as int);
        let ghost before = concat(done);
        assert(sources[si as int] == source@);
        let mut pos: usize = 0;
        proof {
            assert(source@.take(0) =~= Seq::<ScoredPoint>::empty());
            assert(before + source@.take(0) =~= before);
            assert forall|k: int| 0 <= k < fused@.len() implies sums@[k] == rrf_sum(done, fused@[k].id)
                + source_score(source@.take(0), #[trigger] fused@[k].id) by {}
        }
        while pos < source.len()
            invariant
                pos <= source.len(),
                si < responses.len(),
                sources.len() == responses.len(),
                done == sources.take(si as int),
                before == concat(done),
                fused@ == first_points(before + source@.take(pos as int)),
                sums@.len() == fused@.len(),
                forall|k: int|
                    0 <= k < fused@.len() ==> sums@[k] == rrf_sum(done, fused@[k].id)
                        + source_score(source@.take(pos as int), #[trigger] fused@[k].id),
            decreases source.len() - pos,
        {
            let point: ScoredPoint = source[pos];
            let ghost so_far = before + source@.take(pos as int);
            let ghost next = before + source@.take(pos as int + 1);
            let ghost head = source@.take(pos as int);
            let ghost head_next = source@.take(pos as int + 1);
            proof {
                assert(next.drop_last() =~= so_far);
                assert(next.last() == point);
                assert(head_next.drop_last() =~= head);
                assert(head_next.last() == point);
                lemma_first_points(so_far);
            }
            let found: Option<usize> = position_of(&fused, fused.len(), point.id);
            proof {
                assert(fused@.take(fused@.len() as int) =~= fused@);
            }
            let added: u128 = position_score_of(pos);
            match found {
                Some(k) => {
                    let seen: Option<usize> = position_of(source, pos, point.id);
                    if seen.is_none() {
                        proof {
                            lemma_source_score_bounds(head, point.id);
                            lemma_rrf_sum_bounds(done, point.id);
                            assert(done.len() * SCORE_UNIT <= 0xffff_ffff_ffff_ffff * 4_294_967_296)
                                by (nonlinear_arith)
                                requires
                                    0 <= done.len() <= 0xffff_ffff_ffff_ffff,
                            ;
                        }
                        let ghost old_sums = sums@;
                        let total: u128 = sums[k] + added;
                        sums[k] = total;
                        proof {
                            assert forall|j: int| 0 <= j < fused@.len() implies sums@[j] == rrf_sum(
                                done,
                                fused@[j].id,
                            ) + source_score(head_next, #[trigger] fused@[j].id) by {
                                if j != k {
                                    assert(sums@[j] == old_sums[j]);
                                    assert(fused@[j].id != fused@[k as int].id);
                                }
                            }
                        }
                    } else {
                        proof {
                            assert forall|j: int| 0 <= j < fused@.len() implies sums@[j] == rrf_sum(
                                done,
                                fused@[j].id,
                            ) + source_score(head_next, #[trigger] fused@[j].id) by {}
                        }
                    }
                },
                None => {
                    proof {
                        assert(!has_id(so_far, point.id));
                        assert(!has_id(head, point.id)) by {
                            if has_id(head, point.id) {
                                let j = choose|j: int| 0 <= j < head.len() && head[j].id == point.id;
                                assert(so_far[before.len() + j].id == point.id);
                            }
                        }
                        assert(!has_id(before, point.id)) by {
                            if has_id(before, point.id) {
                                let j = choose|j: int|
                                    0 <= j < before.len() && before[j].id == point.id;
                                assert(so_far[j].id == point.id);
                            }
                        }
                        lemma_rrf_sum_absent(done, point.id);
                    }
                    let ghost old_fused = fused@;
                    let ghost old_sums = sums@;
                    fused.push(point);
                    sums.push(added);
                    proof {
                        assert forall|j: int| 0 <= j < fused@.len() implies sums@[j] == rrf_sum(
                            done,
                            fused@[j].id,
                        ) + source_score(head_next, #[trigger] fused@[j].id) by {
                            if j < old_fused.len() {
                                assert(fused@[j] == old_fused[j]);
                                assert(sums@[j] == old_sums[j]);
                                assert(has_id(old_fused, old_fused[j].id));
                            }
                        }
                    }
                },
            }
            pos = pos + 1;
        }
        proof {
            assert(source@.take(source@.len() as int) =~= source@);
            assert(sources.take(si as int + 1).drop_last() =~= done);
            assert(sources.take(si as int + 1).last() == source@);
        }
        si = si + 1;
    }
    proof {
        assert(sources.take(sources.len() as int) =~= sources);
    }
    let mut scored: Vec<ScoredPoint> = Vec::new();
    let mut k: usize = 0;
    while k < fused.len()
        invariant
            k <= fused.len(),
            sums@.len() == fused@.len(),
            fused@ == first_points(concat(sources)),
            forall|j: int|
                0 <= j < fused@.len() ==> sums@[j] == rrf_sum(sources, #[trigger] fused@[j].id),
            scored@.len() == k,
            forall|j: int| 0 <= j < k ==> scored@[j] == fused_points(sources)[j],
        decreases fused.len() - k,
    {
        let sum: u128 = sums[k];
        let score: i64 = if sum > i64::MAX as u128 {
            i64::MAX
        } else {
            sum as i64
        };
        scored.push(ScoredPoint { id: fused[k].id, version: fused[k].version, score });
        k = k + 1;
    }
    assert(scored@ =~= fused_points(sources));
    sort_by_score_descending(scored)
}


/// The ids of the points, in their order.
pub open spec fn ids_of(points: Seq<ScoredPoint>) -> Seq<PointIdType> {
    points.map_values(|p: ScoredPoint| p.id)
}

/// Fusing no sources, or sources that list nothing, gives no point.
pub proof fn lemma_rrf_of_nothing(sources: Seq<Seq<ScoredPoint>>)
    requires
        forall|i: int| 0 <= i < sources.len() ==> sources[i].len() == 0,
    ensures
        spec_rrf_scoring(sources).len() == 0,
    decreases sources.len(),
{
    lemma_concat_of_nothing(sources);
    assert(fused_points(sources) =~= Seq::<ScoredPoint>::empty());
}

proof fn lemma_concat_of_nothing(sources: Seq<Seq<ScoredPoint>>)
    requires
        forall|i: int| 0 <= i < sources.len() ==> sources[i].len() == 0,
    ensures
        concat(sources).len() == 0,
    decreases sources.len(),
{
    if sources.len() > 0 {
        let init = sources.drop_last();
        assert forall|i: int| 0 <= i < init.len() implies init[i].len() == 0 by {
            assert(init[i] == sources[i]);
        }
        lemma_concat_of_nothing(init);
        assert(sources.last() == sources[sources.len() - 1]);
    }
}

proof fn lemma_position_score_falls(p: int, q: int)
    requires
        0 <= p <= q,
    ensures
        position_score(p) >= position_score(q),
{
    assert(4_294_967_296int / (60 + p + 1) >= 4_294_967_296int / (60 + q + 1)) by (nonlinear_arith)
        requires
            0 <= p <= q,
    ;
}

/// In one source the first points score in falling order, and none of them
/// worse than the last position does.
proof fn lemma_single_source_order(source: Seq<ScoredPoint>)
    ensures
        forall|a: int, b: int|
            0 <= a < b < first_points(source).len() ==> source_score(
                source,
                first_points(source)[a].id,
            ) >= source_score(source, first_points(source)[b].id),
        forall|a: int|
            0 <= a < first_points(source).len() ==> source_score(
                source,
                #[trigger] first_points(source)[a].id,
            ) >= position_score(source.len() - 1),
    decreases source.len(),
{
    if source.len() > 0 {
        let init = source.drop_last();
        let x = source.last();
        let fi = first_points(init);
        let fp = first_points(source);
        lemma_single_source_order(init);
        lemma_first_points(init);
        assert forall|a: int| 0 <= a < fi.len() implies source_score(source, #[trigger] fi[a].id)
            == source_score(init, fi[a].id) && source_score(source, fi[a].id) >= position_score(
            source.len() - 1,
        ) by {
            assert(has_id(fi, fi[a].id));
            assert(has_id(init, fi[a].id));
            assert(init.len() > 0);
            lemma_position_score_falls(init.len() - 1, source.len() - 1);
        }
        if !has_id(fi, x.id) {
            assert(!has_id(init, x.id));
            assert(source_score(source, x.id) == position_score(source.len() - 1));
        }
        assert forall|a: int, b: int| 0 <= a < b < fp.len() implies source_score(source, fp[a].id)
            >= source_score(source, fp[b].id) by {
            assert(fp[a] == fi[a]);
            if b < fi.len() {
                assert(fp[b] == fi[b]);
            }
        }
        assert forall|a: int| 0 <= a < fp.len() implies source_score(source, #[trigger] fp[a].id)
            >= position_score(source.len() - 1) by {
            if a < fi.len() {
                assert(fp[a] == fi[a]);
            }
        }
    }
}

/// Fusing a single source gives its points in the order of the source,
/// each id once.
pub proof fn lemma_rrf_of_one_source(source: Seq<ScoredPoint>)
    ensures
        ids_of(spec_rrf_scoring(seq![source])) == ids_of(first_points(source)),
{
    let sources = seq![source];
    assert(sources.drop_last() =~= Seq::<Seq<ScoredPoint>>::empty());
    assert(sources.last() == source);
    assert(concat(sources.drop_last()) =~= Seq::<ScoredPoint>::empty());
    assert(concat(sources) =~= source);
    let fp = first_points(source);
    let fused = fused_points(sources);
    lemma_single_source_order(source);
    assert forall|id: PointIdType| rrf_sum(sources, id) == source_score(source, id) by {
        assert(rrf_sum(sources.drop_last(), id) == 0);
    }
    assert forall|a: int, b: int| 0 <= a < b < fused.len() implies fused[a].spec_score()
        >= fused[b].spec_score() by {
        assert(fused[a].score == clamp_score(rrf_sum(sources, fp[a].id)));
        assert(fused[b].score == clamp_score(rrf_sum(sources, fp[b].id)));
    }
    crate::sorting::lemma_ordered_is_fixed(fused);
    assert(ids_of(fused) =~= ids_of(fp));
}

} // verus!

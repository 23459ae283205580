use vstd::prelude::*;
use crate::types::{ScoreType, ScoredPointOffset};

verus! {

/// Something that carries a score.
pub trait Scored: Copy {
    spec fn spec_score(&self) -> ScoreType;

    fn score(&self) -> (s: ScoreType)
        ensures
            s == self.spec_score(),
    ;
}

impl Scored for ScoredPointOffset {
    open spec fn spec_score(&self) -> ScoreType {
        self.score
    }

    fn score(&self) -> (s: ScoreType) {
        self.score
    }
}

/// True when no element of `s` has a better score than one before it.
pub open spec fn sorted_by_score_descending<T: Scored>(s: Seq<T>) -> bool {
    forall|i: int, j: int| 0 <= i < j < s.len() ==> s[i].spec_score() >= s[j].spec_score()
}

/// Where an element with the given score goes into `sorted`: behind the
/// last element that scores at least as well.
pub open spec fn insertion_point<T: Scored>(sorted: Seq<T>, score: ScoreType) -> int
    decreases sorted.len(),
{
    if sorted.len() == 0 {
        0
    } else if sorted.last().spec_score() >= score {
        sorted.len() as int
    } else {
        insertion_point(sorted.drop_last(), score)
    }
}

/// The elements of `s` ordered by score, best first; elements of equal
/// score in the order they have in `s`.
pub open spec fn ordered_by_score<T: Scored>(s: Seq<T>) -> Seq<T>
    decreases s.len(),
{
    if s.len() == 0 {
        s
    } else {
        let rest = ordered_by_score(s.drop_last());
        rest.insert(insertion_point(rest, s.last().spec_score()), s.last())
    }
}

/// The insertion point lies within the list: every element from it on
/// scores worse, and the element before it scores at least as well.
pub proof fn lemma_insertion_point_bounds<T: Scored>(sorted: Seq<T>, score: ScoreType)
    ensures
        0 <= insertion_point(sorted, score) <= sorted.len(),
        forall|k: int|
            insertion_point(sorted, score) <= k < sorted.len() ==> sorted[k].spec_score() < score,
        insertion_point(sorted, score) > 0 ==> sorted[insertion_point(sorted, score)
            - 1].spec_score() >= score,
    decreases sorted.len(),
{
    if sorted.len() > 0 && sorted.last().spec_score() < score {
        let init = sorted.drop_last();
        lemma_insertion_point_bounds(init, score);
        assert forall|k: int|
            insertion_point(sorted, score) <= k < sorted.len() implies sorted[k].spec_score()
            < score by {
            if k < init.len() {
                assert(sorted[k] == init[k]);
            }
        }
        if insertion_point(sorted, score) > 0 {
            assert(sorted[insertion_point(sorted, score) - 1] == init[insertion_point(init, score)
                - 1]);
        }
    }
}

/// Ordering keeps every element, as often as it occurs, and puts no better
/// score behind a worse one.
pub proof fn lemma_ordered_by_score<T: Scored>(s: Seq<T>)
    ensures
        ordered_by_score(s).len() == s.len(),
        ordered_by_score(s).to_multiset() == s.to_multiset(),
        sorted_by_score_descending(ordered_by_score(s)),
    decreases s.len(),
{
    if s.len() == 0 {
    } else {
        let init = s.drop_last();
        let x = s.last();
        lemma_ordered_by_score(init);
        let rest = ordered_by_score(init);
        let pos = insertion_point(rest, x.spec_score());
        lemma_insertion_point_bounds(rest, x.spec_score());
        let out = rest.insert(pos, x);
        vstd::seq_lib::to_multiset_insert(rest, pos, x);
        assert(s =~= init.push(x));
        vstd::seq_lib::to_multiset_build(init, x);
        assert forall|a: int, b: int| 0 <= a < b < out.len() implies out[a].spec_score()
            >= out[b].spec_score() by {
            let ba = if a < pos { a } else { a - 1 };
            let bb = if b < pos { b } else { b - 1 };
            if a != pos {
                assert(out[a] == rest[ba]);
            }
            if b != pos {
                assert(out[b] == rest[bb]);
            }
            if b == pos && pos > 0 {
                assert(rest[a].spec_score() >= rest[pos - 1].spec_score());
            }
        }
    }
}

/// What is in order already stays as it is.
pub proof fn lemma_ordered_is_fixed<T: Scored>(s: Seq<T>)
    requires
        sorted_by_score_descending(s),
    ensures
        ordered_by_score(s) == s,
    decreases s.len(),
{
    if s.len() > 0 {
        let init = s.drop_last();
        assert forall|i: int, j: int| 0 <= i < j < init.len() implies init[i].spec_score()
            >= init[j].spec_score() by {
            assert(init[i] == s[i] && init[j] == s[j]);
        }
        lemma_ordered_is_fixed(init);
        if init.len() > 0 {
            assert(init.last() == s[s.len() - 2]);
            assert(init.last().spec_score() >= s.last().spec_score());
        }
        assert(init.insert(init.len() as int, s.last()) =~= s);
    }
}

/// Orders the elements by score, best first. Elements of equal score keep
/// the order they came in.
pub fn sort_by_score_descending<T: Scored>(points: Vec<T>) -> (r: Vec<T>)
    ensures
        r@ == ordered_by_score(points@),
        r@.len() == points@.len(),
        r@.to_multiset() == points@.to_multiset(),
        sorted_by_score_descending(r@),
{
    let mut out: Vec<T> = Vec::new();
    let mut i: usize = 0;
    proof {
        assert(points@.take(0) =~= Seq::<T>::empty());
    }
    while i < points.len()
        invariant
            i <= points.len(),
            out@.len() == i,
            out@ == ordered_by_score(points@.take(i as int)),
        decreases points.len() - i,
    {
        let item: T = points[i];
        let item_score: ScoreType = item.score();
        let mut pos: usize = out.len();
        proof {
            assert(out@.take(out@.len() as int) =~= out@);
        }
        while pos > 0 && out[pos - 1].score() < item_score
            invariant
                pos <= out.len(),
                insertion_point(out@, item_score) == insertion_point(
                    out@.take(pos as int),
                    item_score,
                ),
            decreases pos,
        {
            proof {
                assert(out@.take(pos as int).drop_last() =~= out@.take(pos as int - 1));
            }
            pos = pos - 1;
        }
        proof {
            assert(out@.take(out@.len() as int) =~= out@);
            if pos > 0 {
                assert(out@.take(pos as int).last() == out@[pos as int - 1]);
            }
            assert(insertion_point(out@, item_score) == pos);
            assert(points@.take(i as int + 1).drop_last() =~= points@.take(i as int));
            assert(points@.take(i as int + 1).last() == item);
        }
        out.insert(pos, item);
        i = i + 1;
    }
    proof {
        assert(points@.take(points.len() as int) =~= points@);
        lemma_ordered_by_score(points@);
    }
    out
}

/// True when no element of `s` is smaller than one before it.
pub open spec fn ascending(s: Seq<u32>) -> bool {
    forall|i: int, j: int| 0 <= i < j < s.len() ==> s[i] <= s[j]
}

/// Orders the numbers, smallest first.
pub fn sort_ascending(values: Vec<u32>) -> (r: Vec<u32>)
    ensures
        r@.to_multiset() == values@.to_multiset(),
        r@.len() == values@.len(),
        ascending(r@),
{
    let mut out: Vec<u32> = Vec::new();
    let mut i: usize = 0;
    proof {
        assert(values@.take(0) =~= Seq::<u32>::empty());
    }
    while i < values.len()
        invariant
            i <= values.len(),
            out@.len() == i,
            out@.to_multiset() == values@.take(i as int).to_multiset(),
            ascending(out@),
        decreases values.len() - i,
    {
        let item: u32 = values[i];
        let mut pos: usize = out.len();
        while pos > 0 && out[pos - 1] > item
            invariant
                pos <= out.len(),
                forall|k: int| pos <= k < out.len() ==> out[k] > item,
            decreases pos,
        {
            pos = pos - 1;
        }
        let ghost before = out@;
        out.insert(pos, item);
        proof {
            vstd::seq_lib::to_multiset_insert(before, pos as int, item);
            assert(values@.take(i as int + 1) =~= values@.take(i as int).push(item));
            vstd::seq_lib::to_multiset_build(values@.take(i as int), item);
            let after = out@;
            assert forall|a: int, b: int| 0 <= a < b < after.len() implies after[a] <= after[b] by {
                let ba = if a < pos { a } else { a - 1 };
                let bb = if b < pos { b } else { b - 1 };
                if a != pos {
                    assert(after[a] == before[ba]);
                }
                if b != pos {
                    assert(after[b] == before[bb]);
                }
            }
        }
        i = i + 1;
    }
    proof {
        assert(values@.take(values.len() as int) =~= values@);
    }
    out
}

} // verus!

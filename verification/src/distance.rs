use vstd::prelude::*;
use crate::types::{ScoreType, ScoredPoint};

verus! {

/// How the closeness of two vectors is measured.
#[derive(Clone, Copy, Debug, PartialEq, Eq, Structural)]
pub enum Distance {
    Cosine,
    Euclid,
    Dot,
    Manhattan,
}

impl Distance {
    /// True for the measures where a larger score is the closer match.
    pub open spec fn larger_is_better(self) -> bool {
        self == Distance::Cosine || self == Distance::Dot
    }

    /// A score passes the threshold when it is at least as good: not below
    /// it for a similarity, not above it for a distance.
    pub open spec fn spec_check_threshold(self, score: ScoreType, threshold: ScoreType) -> bool {
        if self.larger_is_better() {
            score >= threshold
        } else {
            score <= threshold
        }
    }

    pub fn check_threshold(&self, score: ScoreType, threshold: ScoreType) -> (r: bool)
        ensures
            r == self.spec_check_threshold(score, threshold),
    {
        match self {
            Distance::Cosine => score >= threshold,
            Distance::Dot => score >= threshold,
            Distance::Euclid => score <= threshold,
            Distance::Manhattan => score <= threshold,
        }
    }
}

/// Keeps the points whose score passes the threshold, in their order.
pub fn filter_by_threshold(
    points: Vec<ScoredPoint>,
    distance: Distance,
    score_threshold: Option<ScoreType>,
) -> (r: Vec<ScoredPoint>)
    ensures
        r@ == match score_threshold {
            Some(t) => points@.filter(|p: ScoredPoint| distance.spec_check_threshold(p.score, t)),
            None => points@,
        },
{
    match score_threshold {
        None => points,
        Some(t) => {
            let ghost pred = |p: ScoredPoint| distance.spec_check_threshold(p.score, t);
            let mut out: Vec<ScoredPoint> = Vec::new();
            let mut i: usize = 0;
            proof {
                assert(points@.take(0) =~= Seq::<ScoredPoint>::empty());
                reveal(Seq::filter);
                assert(Seq::<ScoredPoint>::empty().filter(pred) =~= Seq::<ScoredPoint>::empty());
            }
            while i < points.len()
                invariant
                    i <= points.len(),
                    pred == (|p: ScoredPoint| distance.spec_check_threshold(p.score, t)),
                    out@ == points@.take(i as int).filter(pred),
                decreases points.len() - i,
            {
                let point: ScoredPoint = points[i];
                proof {
                    assert(points@.take(i as int + 1) =~= points@.take(i as int).push(point));
                    points@.take(i as int).lemma_filter_push(point, pred);
                }
                if distance.check_threshold(point.score, t) {
                    out.push(point);
                }
                i = i + 1;
            }
            proof {
                assert(points@.take(points@.len() as int) =~= points@);
            }
            out
        },
    }
}

} // verus!

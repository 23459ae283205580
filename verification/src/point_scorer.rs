use vstd::prelude::*;
use crate::distance::Distance;
use crate::types::{PointOffsetType, ScoreType};

verus! {

/// What a search or a build needs to know of the points: how well a point
/// matches the query, how well two points match each other, and whether a
/// point may come out as a result. A larger score is a better match.
pub trait PointsScorer {
    /// Number of points that can be scored.
    spec fn spec_len(&self) -> nat;

    spec fn spec_score(&self, point: PointOffsetType) -> ScoreType;

    spec fn spec_score_internal(&self, a: PointOffsetType, b: PointOffsetType) -> ScoreType;

    /// True when the point is live and passes the filter of the search.
    spec fn spec_check(&self, point: PointOffsetType) -> bool;

    /// Number of points that can be scored.
    fn points_count(&self) -> (n: usize)
        ensures
            n == self.spec_len(),
    ;

    fn score_point(&self, point: PointOffsetType) -> (s: ScoreType)
        requires
            point < self.spec_len(),
        ensures
            s == self.spec_score(point),
    ;

    fn score_internal(&self, a: PointOffsetType, b: PointOffsetType) -> (s: ScoreType)
        requires
            a < self.spec_len(),
            b < self.spec_len(),
        ensures
            s == self.spec_score_internal(a, b),
    ;

    fn check_point(&self, point: PointOffsetType) -> (ok: bool)
        requires
            point < self.spec_len(),
        ensures
            ok == self.spec_check(point),
    ;
}

/// The part of the vectors that both have.
pub open spec fn common(a: Seq<i8>, b: Seq<i8>) -> int {
    if a.len() <= b.len() {
        a.len() as int
    } else {
        b.len() as int
    }
}

/// The sum of the products of the first `n` elements of two vectors.
pub open spec fn dot_upto(a: Seq<i8>, b: Seq<i8>, n: int) -> int
    decreases n,
{
    if n <= 0 {
        0
    } else {
        dot_upto(a, b, n - 1) + a[n - 1] as int * b[n - 1] as int
    }
}

/// A score as it is stored: held within the scores.
pub open spec fn clamp(sum: int) -> ScoreType {
    if sum > i64::MAX {
        i64::MAX
    } else if sum < i64::MIN {
        i64::MIN
    } else {
        sum as i64
    }
}

proof fn lemma_dot_bounds(a: Seq<i8>, b: Seq<i8>, n: int)
    requires
        0 <= n <= a.len(),
        n <= b.len(),
    ensures
        -16384 * n <= dot_upto(a, b, n) <= 16384 * n,
    decreases n,
{
    if n > 0 {
        lemma_dot_bounds(a, b, n - 1);
        let x = a[n - 1] as int;
        let y = b[n - 1] as int;
        assert(-16384 <= x * y <= 16384) by (nonlinear_arith)
            requires
                -128 <= x <= 127,
                -128 <= y <= 127,
        ;
    }
}

/// The dot product of two vectors of whole numbers over the elements that
/// both have, held within the scores.
pub fn dot_product(a: &Vec<i8>, b: &Vec<i8>) -> (r: ScoreType)
    ensures
        r == clamp(dot_upto(a@, b@, common(a@, b@))),
{
    let n: usize = shorter(a, b);
    let mut sum: i128 = 0;
    let mut i: usize = 0;
    while i < n
        invariant
            i <= n,
            n <= a.len(),
            n <= b.len(),
            sum == dot_upto(a@, b@, i as int),
        decreases n - i,
    {
        proof {
            lemma_dot_bounds(a@, b@, i as int);
            let x = a@[i as int] as int;
            let y = b@[i as int] as int;
            assert(-16384 <= x * y <= 16384) by (nonlinear_arith)
                requires
                    -128 <= x <= 127,
                    -128 <= y <= 127,
            ;
        }
        sum = sum + (a[i] as i128) * (b[i] as i128);
        i = i + 1;
    }
    held(sum)
}

/// The sum of the squares of the differences of the first `n` elements of
/// two vectors.
pub open spec fn square_upto(a: Seq<i8>, b: Seq<i8>, n: int) -> int
    decreases n,
{
    if n <= 0 {
        0
    } else {
        square_upto(a, b, n - 1) + (a[n - 1] as int - b[n - 1] as int) * (a[n - 1] as int - b[n
            - 1] as int)
    }
}

/// The sum of the differences of the first `n` elements of two vectors,
/// each taken without its sign.
pub open spec fn gap_upto(a: Seq<i8>, b: Seq<i8>, n: int) -> int
    decreases n,
{
    if n <= 0 {
        0
    } else {
        gap_upto(a, b, n - 1) + if a[n - 1] >= b[n - 1] {
            a[n - 1] as int - b[n - 1] as int
        } else {
            b[n - 1] as int - a[n - 1] as int
        }
    }
}

proof fn lemma_square_bounds(a: Seq<i8>, b: Seq<i8>, n: int)
    requires
        0 <= n <= a.len(),
        n <= b.len(),
    ensures
        0 <= square_upto(a, b, n) <= 65025 * n,
    decreases n,
{
    if n > 0 {
        lemma_square_bounds(a, b, n - 1);
        let d = a[n - 1] as int - b[n - 1] as int;
        assert(0 <= d * d <= 65025) by (nonlinear_arith)
            requires
                -255 <= d <= 255,
        ;
    }
}

proof fn lemma_gap_bounds(a: Seq<i8>, b: Seq<i8>, n: int)
    requires
        0 <= n <= a.len(),
        n <= b.len(),
    ensures
        0 <= gap_upto(a, b, n) <= 255 * n,
    decreases n,
{
    if n > 0 {
        lemma_gap_bounds(a, b, n - 1);
    }
}

/// How well two vectors of whole numbers match by a measure, over the
/// elements that both have; a larger score is the closer match. By dot
/// product and by cosine it is the dot product: vectors compared by cosine
/// are brought to one length when they are stored. By the Euclidean
/// measure it is the squared distance, and by the Manhattan measure the
/// distance, each with a minus sign.
pub open spec fn similarity(distance: Distance, a: Seq<i8>, b: Seq<i8>) -> ScoreType {
    match distance {
        Distance::Dot => clamp(dot_upto(a, b, common(a, b))),
        Distance::Cosine => clamp(dot_upto(a, b, common(a, b))),
        Distance::Euclid => clamp(-square_upto(a, b, common(a, b))),
        Distance::Manhattan => clamp(-gap_upto(a, b, common(a, b))),
    }
}

fn shorter(a: &Vec<i8>, b: &Vec<i8>) -> (n: usize)
    ensures
        n == common(a@, b@),
{
    if a.len() <= b.len() {
        a.len()
    } else {
        b.len()
    }
}

fn held(sum: i128) -> (r: ScoreType)
    ensures
        r == clamp(sum as int),
{
    if sum > i64::MAX as i128 {
        i64::MAX
    } else if sum < i64::MIN as i128 {
        i64::MIN
    } else {
        sum as i64
    }
}

fn square_distance(a: &Vec<i8>, b: &Vec<i8>) -> (r: ScoreType)
    ensures
        r == clamp(-square_upto(a@, b@, common(a@, b@))),
{
    let n: usize = shorter(a, b);
    let mut sum: i128 = 0;
    let mut i: usize = 0;
    while i < n
        invariant
            i <= n,
            n <= a.len(),
            n <= b.len(),
            sum == square_upto(a@, b@, i as int),
        decreases n - i,
    {
        proof {
            lemma_square_bounds(a@, b@, i as int);
            let d = a@[i as int] as int - b@[i as int] as int;
            assert(0 <= d * d <= 65025) by (nonlinear_arith)
                requires
                    -255 <= d <= 255,
            ;
        }
        let d: i128 = a[i] as i128 - b[i] as i128;
        sum = sum + d * d;
        i = i + 1;
    }
    proof {
        lemma_square_bounds(a@, b@, n as int);
    }
    held(-sum)
}

fn manhattan_distance(a: &Vec<i8>, b: &Vec<i8>) -> (r: ScoreType)
    ensures
        r == clamp(-gap_upto(a@, b@, common(a@, b@))),
{
    let n: usize = shorter(a, b);
    let mut sum: i128 = 0;
    let mut i: usize = 0;
    while i < n
        invariant
            i <= n,
            n <= a.len(),
            n <= b.len(),
            sum == gap_upto(a@, b@, i as int),
        decreases n - i,
    {
        proof {
            lemma_gap_bounds(a@, b@, i as int);
        }
        let d: i128 = if a[i] >= b[i] {
            a[i] as i128 - b[i] as i128
        } else {
            b[i] as i128 - a[i] as i128
        };
        sum = sum + d;
        i = i + 1;
    }
    proof {
        lemma_gap_bounds(a@, b@, n as int);
    }
    held(-sum)
}

/// How well two vectors match by the measure.
pub fn similarity_of(distance: Distance, a: &Vec<i8>, b: &Vec<i8>) -> (r: ScoreType)
    ensures
        r == similarity(distance, a@, b@),
{
    match distance {
        Distance::Dot => dot_product(a, b),
        Distance::Cosine => dot_product(a, b),
        Distance::Euclid => square_distance(a, b),
        Distance::Manhattan => manhattan_distance(a, b),
    }
}

/// Scores stored vectors of whole numbers against a query by a measure.
pub struct MetricQueryScorer<'a> {
    pub vector_storage: &'a Vec<Vec<i8>>,
    pub query: Vec<i8>,
    pub distance: Distance,
}

impl<'a> MetricQueryScorer<'a> {
    pub fn new(query: Vec<i8>, vector_storage: &'a Vec<Vec<i8>>, distance: Distance) -> (r: Self)
        ensures
            r.vector_storage == vector_storage,
            r.query == query,
            r.distance == distance,
    {
        MetricQueryScorer { vector_storage, query, distance }
    }

    /// The score of a stored vector against the query.
    pub fn score_stored(&self, idx: PointOffsetType) -> (r: ScoreType)
        requires
            idx < self.vector_storage@.len(),
        ensures
            r == similarity(self.distance, self.query@, self.vector_storage@[idx as int]@),
    {
        similarity_of(self.distance, &self.query, &self.vector_storage[idx as usize])
    }

    /// The score of a given vector against the query.
    pub fn score(&self, v2: &Vec<i8>) -> (r: ScoreType)
        ensures
            r == similarity(self.distance, self.query@, v2@),
    {
        similarity_of(self.distance, &self.query, v2)
    }

    /// The score of two stored vectors against each other.
    pub fn score_internal(&self, point_a: PointOffsetType, point_b: PointOffsetType) -> (r:
        ScoreType)
        requires
            point_a < self.vector_storage@.len(),
            point_b < self.vector_storage@.len(),
        ensures
            r == similarity(
                self.distance,
                self.vector_storage@[point_a as int]@,
                self.vector_storage@[point_b as int]@,
            ),
    {
        similarity_of(
            self.distance,
            &self.vector_storage[point_a as usize],
            &self.vector_storage[point_b as usize],
        )
    }
}

/// A scorer with the marks of the points that must not come out: deleted
/// ones and those that the filter of a search turns down. A point beyond
/// the marks may come out.
pub struct FilteredScorer<'a> {
    pub raw_scorer: MetricQueryScorer<'a>,
    pub excluded: &'a Vec<bool>,
}

impl<'a> PointsScorer for FilteredScorer<'a> {
    open spec fn spec_len(&self) -> nat {
        self.raw_scorer.vector_storage@.len()
    }

    open spec fn spec_score(&self, point: PointOffsetType) -> ScoreType {
        similarity(
            self.raw_scorer.distance,
            self.raw_scorer.query@,
            self.raw_scorer.vector_storage@[point as int]@,
        )
    }

    open spec fn spec_score_internal(&self, a: PointOffsetType, b: PointOffsetType) -> ScoreType {
        similarity(
            self.raw_scorer.distance,
            self.raw_scorer.vector_storage@[a as int]@,
            self.raw_scorer.vector_storage@[b as int]@,
        )
    }

    open spec fn spec_check(&self, point: PointOffsetType) -> bool {
        !(point < self.excluded@.len() && self.excluded@[point as int])
    }

    fn points_count(&self) -> (n: usize) {
        self.raw_scorer.vector_storage.len()
    }

    fn score_point(&self, point: PointOffsetType) -> (s: ScoreType) {
        self.raw_scorer.score_stored(point)
    }

    fn score_internal(&self, a: PointOffsetType, b: PointOffsetType) -> (s: ScoreType) {
        self.raw_scorer.score_internal(a, b)
    }

    fn check_point(&self, point: PointOffsetType) -> (ok: bool) {
        let slot: usize = point as usize;
        !(slot < self.excluded.len() && self.excluded[slot])
    }
}

} // verus!

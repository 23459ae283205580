use vstd::prelude::*;
use crate::types::PointOffsetType;

verus! {

/// True when every element of `s` is smaller than the one after it.
pub open spec fn strictly_increasing(s: Seq<u32>) -> bool {
    forall|i: int, j: int| 0 <= i < j < s.len() ==> s[i] < s[j]
}

/// The last element of an ascending list is its largest.
proof fn lemma_last_is_largest(s: Seq<u32>, p: u32)
    requires
        strictly_increasing(s),
        s.contains(p),
    ensures
        p <= s.last(),
{
    let k = choose|k: int| 0 <= k < s.len() && s[k] == p;
    if k < s.len() - 1 {
        assert(s[k] < s[s.len() - 1]);
    }
}

/// Two ascending lists that hold the same points are the same list: what
/// a list holds fixes the list, and with it its length.
pub proof fn lemma_same_points(a: Seq<u32>, b: Seq<u32>)
    requires
        strictly_increasing(a),
        strictly_increasing(b),
        forall|p: u32| a.contains(p) <==> b.contains(p),
    ensures
        a == b,
    decreases a.len(),
{
    if a.len() == 0 {
        if b.len() > 0 {
            assert(b.contains(b[0]));
        }
        assert(a =~= b);
    } else {
        assert(a.contains(a.last()));
        assert(b.contains(a.last()));
        assert(b.len() > 0);
        assert(b.contains(b.last()));
        lemma_last_is_largest(a, b.last());
        lemma_last_is_largest(b, a.last());
        let x = a.drop_last();
        let y = b.drop_last();
        assert forall|p: u32| x.contains(p) <==> y.contains(p) by {
            if x.contains(p) {
                let k = choose|k: int| 0 <= k < x.len() && x[k] == p;
                assert(a[k] == p && a[k] < a[a.len() - 1]);
                assert(a.contains(p));
                let j = choose|j: int| 0 <= j < b.len() && b[j] == p;
                assert(j < b.len() - 1);
                assert(y[j] == p);
            }
            if y.contains(p) {
                let k = choose|k: int| 0 <= k < y.len() && y[k] == p;
                assert(b[k] == p && b[k] < b[b.len() - 1]);
                assert(b.contains(p));
                let j = choose|j: int| 0 <= j < a.len() && a[j] == p;
                assert(j < a.len() - 1);
                assert(x[j] == p);
            }
        }
        assert(strictly_increasing(x)) by {
            assert forall|i: int, j: int| 0 <= i < j < x.len() implies x[i] < x[j] by {
                assert(a[i] < a[j]);
            }
        }
        assert(strictly_increasing(y)) by {
            assert forall|i: int, j: int| 0 <= i < j < y.len() implies y[i] < y[j] by {
                assert(b[i] < b[j]);
            }
        }
        lemma_same_points(x, y);
        assert(a =~= x.push(a.last()));
        assert(b =~= y.push(b.last()));
    }
}

/// Index of the first element of the sorted `list` that is not below `val`.
pub fn lower_bound(list: &Vec<u32>, val: u32) -> (pos: usize)
    requires
        strictly_increasing(list@),
    ensures
        pos <= list.len(),
        forall|i: int| 0 <= i < pos ==> list[i] < val,
        forall|i: int| pos <= i < list.len() ==> list[i] >= val,
{
    let mut lo: usize = 0;
    let mut hi: usize = list.len();
    while lo < hi
        invariant
            lo <= hi <= list.len(),
            strictly_increasing(list@),
            forall|i: int| 0 <= i < lo ==> list[i] < val,
            forall|i: int| hi <= i < list.len() ==> list[i] >= val,
        decreases hi - lo,
    {
        let mid: usize = lo + (hi - lo) / 2;
        if list[mid] < val {
            lo = mid + 1;
        } else {
            hi = mid;
        }
    }
    lo
}

/// Sorted list of the points that hold one token; no point occurs twice.
#[derive(Debug)]
pub struct PostingList {
    list: Vec<PointOffsetType>,
}

impl View for PostingList {
    type V = Seq<u32>;

    closed spec fn view(&self) -> Seq<u32> {
        self.list@
    }
}

impl Clone for PostingList {
    fn clone(&self) -> (r: Self)
        ensures
            r@ == self@,
    {
        PostingList { list: self.list.clone() }
    }
}

impl Default for PostingList {
    fn default() -> (r: Self)
        ensures
            r@ == Seq::<u32>::empty(),
            r.wf(),
    {
        PostingList { list: Vec::new() }
    }
}

impl PostingList {
    /// The list is sorted and free of duplicates.
    pub open spec fn wf(&self) -> bool {
        strictly_increasing(self@)
    }

    /// A list that holds `idx` alone.
    pub fn new(idx: PointOffsetType) -> (r: Self)
        ensures
            r.wf(),
            r@ == seq![idx],
    {
        let mut list: Vec<u32> = Vec::new();
        list.push(idx);
        PostingList { list }
    }

    /// Adds `idx`, keeping the order; a point that is present stays once.
    pub fn insert(&mut self, idx: PointOffsetType)
        requires
            old(self).wf(),
        ensures
            final(self).wf(),
            final(self)@.contains(idx),
            forall|v: u32| v != idx ==> (final(self)@.contains(v) <==> old(self)@.contains(v)),
            old(self)@.contains(idx) ==> final(self)@ == old(self)@,
            !old(self)@.contains(idx) ==> final(self)@.len() == old(self)@.len() + 1,
    {
        let pos: usize = lower_bound(&self.list, idx);
        if pos < self.list.len() && self.list[pos] == idx {
            assert(self.list@[pos as int] == idx);
            return ;
        }
        let ghost before = self.list@;
        assert(!before.contains(idx)) by {
            if before.contains(idx) {
                let k = choose|k: int| 0 <= k < before.len() && before[k] == idx;
                assert(before[k] == idx);
            }
        }
        self.list.insert(pos, idx);
        let ghost after = self.list@;
        assert(after == before.insert(pos as int, idx));
        assert(after[pos as int] == idx);
        assert forall|i: int, j: int| 0 <= i < j < after.len() implies after[i] < after[j] by {
            if i < pos {
                assert(after[i] == before[i]);
            } else if i > pos {
                assert(after[i] == before[i - 1]);
            }
            if j < pos {
                assert(after[j] == before[j]);
            } else if j > pos {
                assert(after[j] == before[j - 1]);
            }
        }
        assert forall|v: u32| v != idx implies (after.contains(v) <==> before.contains(v)) by {
            if after.contains(v) {
                let k = choose|k: int| 0 <= k < after.len() && after[k] == v;
                if k < pos {
                    assert(before[k] == v);
                } else {
                    assert(before[k - 1] == v);
                }
            }
            if before.contains(v) {
                let k = choose|k: int| 0 <= k < before.len() && before[k] == v;
                if k < pos {
                    assert(after[k] == v);
                } else {
                    assert(after[k + 1] == v);
                }
            }
        }
    }

    /// Removes `idx` if it is present.
    pub fn remove(&mut self, idx: PointOffsetType)
        requires
            old(self).wf(),
        ensures
            final(self).wf(),
            !final(self)@.contains(idx),
            forall|v: u32| v != idx ==> (final(self)@.contains(v) <==> old(self)@.contains(v)),
            !old(self)@.contains(idx) ==> final(self)@ == old(self)@,
            old(self)@.contains(idx) ==> final(self)@.len() + 1 == old(self)@.len(),
    {
        let pos: usize = lower_bound(&self.list, idx);
        let ghost before = self.list@;
        if pos < self.list.len() && self.list[pos] == idx {
            self.list.remove(pos);
            let ghost after = self.list@;
            assert(after == before.remove(pos as int));
            assert forall|i: int, j: int| 0 <= i < j < after.len() implies after[i] < after[j] by {
                let bi = if i < pos { i } else { i + 1 };
                let bj = if j < pos { j } else { j + 1 };
                assert(after[i] == before[bi]);
                assert(after[j] == before[bj]);
            }
            assert(!after.contains(idx)) by {
                if after.contains(idx) {
                    let k = choose|k: int| 0 <= k < after.len() && after[k] == idx;
                    let bk = if k < pos { k } else { k + 1 };
                    assert(after[k] == before[bk]);
                }
            }
            assert forall|v: u32| v != idx implies (after.contains(v) <==> before.contains(v)) by {
                if after.contains(v) {
                    let k = choose|k: int| 0 <= k < after.len() && after[k] == v;
                    let bk = if k < pos { k } else { k + 1 };
                    assert(before[bk] == v);
                }
                if before.contains(v) {
                    let k = choose|k: int| 0 <= k < before.len() && before[k] == v;
                    if k < pos {
                        assert(after[k] == v);
                    } else {
                        assert(after[k - 1] == v);
                    }
                }
            }
            assert(before.contains(idx)) by {
                assert(before[pos as int] == idx);
            }
        } else {
            assert(!before.contains(idx)) by {
                if before.contains(idx) {
                    let k = choose|k: int| 0 <= k < before.len() && before[k] == idx;
                    assert(before[k] == idx);
                }
            }
        }
    }

    /// Number of points in the list.
    pub fn len(&self) -> (n: usize)
        ensures
            n == self@.len(),
    {
        self.list.len()
    }

    /// True when the list holds no point.
    pub fn is_empty(&self) -> (r: bool)
        ensures
            r == (self@.len() == 0),
    {
        self.list.len() == 0
    }

    /// True when `val` is in the list.
    pub fn contains(&self, val: &PointOffsetType) -> (r: bool)
        requires
            self.wf(),
        ensures
            r == self@.contains(*val),
    {
        let pos: usize = lower_bound(&self.list, *val);
        if pos < self.list.len() && self.list[pos] == *val {
            assert(self@[pos as int] == *val);
            true
        } else {
            assert(!self@.contains(*val)) by {
                if self@.contains(*val) {
                    let k = choose|k: int| 0 <= k < self@.len() && self@[k] == *val;
                    assert(self@[k] == *val);
                }
            }
            false
        }
    }

    /// The point at position `i`.
    pub fn get(&self, i: usize) -> (r: PointOffsetType)
        requires
            i < self@.len(),
        ensures
            r == self@[i as int],
    {
        self.list[i]
    }

    /// The points in ascending order.
    pub fn iter(&self) -> (r: &Vec<PointOffsetType>)
        ensures
            r@ == self@,
    {
        &self.list
    }

    /// The points in ascending order, by value.
    pub fn into_vec(self) -> (r: Vec<PointOffsetType>)
        ensures
            r@ == self@,
    {
        self.list
    }
}


/// The gaps between neighbours of a posting list, each stored in as few
/// bytes as the widest gap needs.
#[derive(Debug)]
pub enum PackedGaps {
    Byte(Vec<u8>),
    Short(Vec<u16>),
    Word(Vec<u32>),
}

impl View for PackedGaps {
    type V = Seq<u32>;

    open spec fn view(&self) -> Seq<u32> {
        match self {
            PackedGaps::Byte(v) => v@.map_values(|g: u8| g as u32),
            PackedGaps::Short(v) => v@.map_values(|g: u16| g as u32),
            PackedGaps::Word(v) => v@,
        }
    }
}

impl PackedGaps {
    /// Packs the gaps into the narrowest width that holds the widest of them.
    pub fn pack(gaps: &Vec<u32>) -> (r: Self)
        ensures
            r@ == gaps@,
            (forall|i: int| 0 <= i < gaps@.len() ==> gaps@[i] <= u8::MAX) ==> r is Byte,
            (forall|i: int| 0 <= i < gaps@.len() ==> gaps@[i] <= u16::MAX) ==> !(r is Word),
    {
        let mut widest: u32 = 0;
        let mut i: usize = 0;
        while i < gaps.len()
            invariant
                i <= gaps.len(),
                forall|k: int| 0 <= k < i ==> gaps@[k] <= widest,
                widest <= u8::MAX || exists|k: int| 0 <= k < i && gaps@[k] == widest,
            decreases gaps.len() - i,
        {
            if gaps[i] > widest {
                widest = gaps[i];
            }
            i = i + 1;
        }
        if widest <= 0xff {
            let mut out: Vec<u8> = Vec::new();
            let mut j: usize = 0;
            while j < gaps.len()
                invariant
                    j <= gaps.len(),
                    widest <= 0xff,
                    forall|k: int| 0 <= k < gaps@.len() ==> gaps@[k] <= widest,
                    out@.map_values(|g: u8| g as u32) == gaps@.take(j as int),
                decreases gaps.len() - j,
            {
                let ghost before = out@;
                out.push(gaps[j] as u8);
                proof {
                    assert(out@.map_values(|g: u8| g as u32) =~= before.map_values(
                        |g: u8| g as u32,
                    ).push(gaps@[j as int]));
                    assert(gaps@.take(j as int + 1) =~= gaps@.take(j as int).push(gaps@[j as int]));
                }
                j = j + 1;
            }
            proof {
                assert(gaps@.take(gaps@.len() as int) =~= gaps@);
            }
            PackedGaps::Byte(out)
        } else if widest <= 0xffff {
            let mut out: Vec<u16> = Vec::new();
            let mut j: usize = 0;
            while j < gaps.len()
                invariant
                    j <= gaps.len(),
                    widest <= 0xffff,
                    forall|k: int| 0 <= k < gaps@.len() ==> gaps@[k] <= widest,
                    out@.map_values(|g: u16| g as u32) == gaps@.take(j as int),
                decreases gaps.len() - j,
            {
                let ghost before = out@;
                out.push(gaps[j] as u16);
                proof {
                    assert(out@.map_values(|g: u16| g as u32) =~= before.map_values(
                        |g: u16| g as u32,
                    ).push(gaps@[j as int]));
                    assert(gaps@.take(j as int + 1) =~= gaps@.take(j as int).push(gaps@[j as int]));
                }
                j = j + 1;
            }
            proof {
                assert(gaps@.take(gaps@.len() as int) =~= gaps@);
            }
            PackedGaps::Short(out)
        } else {
            let mut out: Vec<u32> = Vec::new();
            let mut j: usize = 0;
            while j < gaps.len()
                invariant
                    j <= gaps.len(),
                    out@ == gaps@.take(j as int),
                decreases gaps.len() - j,
            {
                out.push(gaps[j]);
                proof {
                    assert(gaps@.take(j as int + 1) =~= gaps@.take(j as int).push(gaps@[j as int]));
                }
                j = j + 1;
            }
            proof {
                assert(gaps@.take(gaps@.len() as int) =~= gaps@);
            }
            PackedGaps::Word(out)
        }
    }

    /// Number of gaps.
    pub fn len(&self) -> (n: usize)
        ensures
            n == self@.len(),
    {
        match self {
            PackedGaps::Byte(v) => v.len(),
            PackedGaps::Short(v) => v.len(),
            PackedGaps::Word(v) => v.len(),
        }
    }

    /// The gap at position `i`.
    pub fn get(&self, i: usize) -> (g: u32)
        requires
            i < self@.len(),
        ensures
            g == self@[i as int],
    {
        match self {
            PackedGaps::Byte(v) => v[i] as u32,
            PackedGaps::Short(v) => v[i] as u32,
            PackedGaps::Word(v) => v[i],
        }
    }
}

/// The point at position `n` of a list that starts at `first` and goes on
/// by the gaps.
pub open spec fn point_at(first: int, gaps: Seq<u32>, n: int) -> int
    decreases n,
{
    if n <= 0 {
        first
    } else {
        point_at(first, gaps, n - 1) + gaps[n - 1]
    }
}

/// The points of a list that starts at `first` and goes on by the gaps.
pub open spec fn unpacked(first: Option<u32>, gaps: Seq<u32>) -> Seq<u32> {
    match first {
        Some(f) => Seq::new((gaps.len() + 1) as nat, |n: int| point_at(f as int, gaps, n) as u32),
        None => Seq::empty(),
    }
}

/// A posting list that takes no more writes, stored as its first point and
/// the packed gaps between neighbours.
#[derive(Debug)]
pub struct CompressedPostingList {
    first: Option<PointOffsetType>,
    gaps: PackedGaps,
}

impl View for CompressedPostingList {
    type V = Seq<u32>;

    closed spec fn view(&self) -> Seq<u32> {
        unpacked(self.first, self.gaps@)
    }
}

proof fn lemma_point_at_rises(first: int, gaps: Seq<u32>, a: int, b: int)
    requires
        0 <= a <= b <= gaps.len(),
        forall|i: int| 0 <= i < gaps.len() ==> gaps[i] >= 1,
    ensures
        point_at(first, gaps, a) + (b - a) <= point_at(first, gaps, b),
    decreases b - a,
{
    if a < b {
        lemma_point_at_rises(first, gaps, a, b - 1);
    }
}

proof fn lemma_point_at_prefix(first: int, gaps: Seq<u32>, longer: Seq<u32>, n: int)
    requires
        0 <= n <= gaps.len() <= longer.len(),
        forall|i: int| 0 <= i < gaps.len() ==> gaps[i] == longer[i],
    ensures
        point_at(first, gaps, n) == point_at(first, longer, n),
    decreases n,
{
    if n > 0 {
        lemma_point_at_prefix(first, gaps, longer, n - 1);
    }
}

impl CompressedPostingList {
    /// The gaps are positive and the last point fits the offsets of points.
    pub closed spec fn wf(&self) -> bool {
        match self.first {
            Some(f) => {
                &&& forall|i: int| 0 <= i < self.gaps@.len() ==> self.gaps@[i] >= 1
                &&& point_at(f as int, self.gaps@, self.gaps@.len() as int) <= u32::MAX
                &&& self.gaps@.len() < usize::MAX
            },
            None => self.gaps@.len() == 0,
        }
    }

    /// Every point of a well-formed list fits the offsets of points.
    proof fn lemma_points_fit(&self)
        requires
            self.wf(),
        ensures
            self.first matches Some(f) ==> forall|n: int|
                0 <= n <= self.gaps@.len() ==> f <= #[trigger] point_at(f as int, self.gaps@, n)
                    <= u32::MAX,
    {
        match self.first {
            Some(f) => {
                assert forall|n: int| 0 <= n <= self.gaps@.len() implies f <= #[trigger] point_at(
                    f as int,
                    self.gaps@,
                    n,
                ) <= u32::MAX by {
                    lemma_point_at_rises(f as int, self.gaps@, 0, n);
                    lemma_point_at_rises(f as int, self.gaps@, n, self.gaps@.len() as int);
                }
            },
            None => {},
        }
    }

    /// A well-formed list is sorted and free of duplicates.
    pub proof fn lemma_sorted(&self)
        requires
            self.wf(),
        ensures
            strictly_increasing(self@),
    {
        match self.first {
            Some(f) => {
                let gaps = self.gaps@;
                assert forall|i: int, j: int| 0 <= i < j < self@.len() implies self@[i]
                    < self@[j] by {
                    lemma_point_at_rises(f as int, gaps, i, j);
                    lemma_point_at_rises(f as int, gaps, j, gaps.len() as int);
                    lemma_point_at_rises(f as int, gaps, 0, i);
                }
            },
            None => {},
        }
    }

    /// Compresses a posting list.
    pub fn new(list: PostingList) -> (r: Self)
        requires
            list.wf(),
        ensures
            r.wf(),
            r@ == list@,
    {
        let points: &Vec<u32> = list.iter();
        if points.len() == 0 {
            let gaps: Vec<u32> = Vec::new();
            let packed: PackedGaps = PackedGaps::pack(&gaps);
            let r = CompressedPostingList { first: None, gaps: packed };
            assert(r@ =~= list@);
            return r;
        }
        let first: u32 = points[0];
        let mut gaps: Vec<u32> = Vec::new();
        let mut i: usize = 1;
        while i < points.len()
            invariant
                1 <= i <= points.len(),
                points@ == list@,
                strictly_increasing(points@),
                first == points@[0],
                gaps@.len() == i - 1,
                forall|k: int| 0 <= k < gaps@.len() ==> gaps@[k] >= 1,
                forall|n: int| 0 <= n < i ==> point_at(first as int, gaps@, n) == points@[n],
            decreases points.len() - i,
        {
            let ghost before = gaps@;
            let gap: u32 = points[i] - points[i - 1];
            gaps.push(gap);
            proof {
                assert forall|n: int| 0 <= n < i + 1 implies point_at(first as int, gaps@, n)
                    == points@[n] by {
                    if n < i {
                        lemma_point_at_prefix(first as int, before, gaps@, n);
                    } else {
                        lemma_point_at_prefix(first as int, before, gaps@, n - 1);
                    }
                }
            }
            i = i + 1;
        }
        let packed: PackedGaps = PackedGaps::pack(&gaps);
        let r = CompressedPostingList { first: Some(first), gaps: packed };
        assert(point_at(first as int, gaps@, gaps@.len() as int) == points@[points@.len() - 1]);
        assert(r@ =~= list@);
        r
    }

    /// Number of points in the list.
    pub fn len(&self) -> (n: usize)
        requires
            self.wf(),
        ensures
            n == self@.len(),
    {
        match self.first {
            Some(f) => self.gaps.len() + 1,
            None => 0,
        }
    }

    /// The points in ascending order.
    pub fn iter(&self) -> (r: Vec<PointOffsetType>)
        requires
            self.wf(),
        ensures
            r@ == self@,
    {
        let mut out: Vec<u32> = Vec::new();
        match self.first {
            None => {
                assert(out@ =~= self@);
            },
            Some(f) => {
                let mut current: u32 = f;
                out.push(current);
                let mut i: usize = 0;
                while i < self.gaps.len()
                    invariant
                        i <= self.gaps@.len(),
                        self.wf(),
                        self.first == Some(f),
                        current == point_at(f as int, self.gaps@, i as int),
                        out@.len() == i + 1,
                        forall|n: int|
                            0 <= n <= i ==> out@[n] == point_at(f as int, self.gaps@, n) as u32,
                    decreases self.gaps@.len() - i,
                {
                    proof {
                        self.lemma_points_fit();
                        assert(point_at(f as int, self.gaps@, i as int + 1) <= u32::MAX);
                    }
                    current = current + self.gaps.get(i);
                    out.push(current);
                    i = i + 1;
                }
                assert(out@ =~= self@);
            },
        }
        out
    }

    /// True when `val` is in the list.
    pub fn contains(&self, val: &PointOffsetType) -> (r: bool)
        requires
            self.wf(),
        ensures
            r == self@.contains(*val),
    {
        let mut visitor: CompressedPostingVisitor<'_> = CompressedPostingVisitor::new(self);
        visitor.contains_next_and_advance(val)
    }
}

/// Walks a compressed posting list once, from the smallest point up.
#[derive(Debug)]
pub struct CompressedPostingVisitor<'a> {
    postings: &'a CompressedPostingList,
    /// Position of the point that the walk stands on.
    position: usize,
    /// That point, while the walk is not at the end.
    current: u32,
}

impl<'a> CompressedPostingVisitor<'a> {
    /// The list that is walked.
    pub closed spec fn list(&self) -> Seq<u32> {
        self.postings@
    }

    /// The walk stands inside its list, on the point it holds.
    pub closed spec fn wf(&self) -> bool {
        &&& self.postings.wf()
        &&& self.position <= self.postings@.len()
        &&& self.position < self.postings@.len() ==> self.current == self.postings@[self.position as int]
    }

    /// The walk has passed no point as large as `val`: it can still answer
    /// for `val`.
    pub closed spec fn can_answer(&self, val: u32) -> bool {
        forall|i: int| 0 <= i < self.position ==> self.postings@[i] < val
    }

    pub fn new(postings: &'a CompressedPostingList) -> (r: Self)
        requires
            postings.wf(),
        ensures
            r.wf(),
            r.list() == postings@,
            forall|val: u32| r.can_answer(val),
    {
        let current: u32 = match postings.first {
            Some(f) => f,
            None => 0,
        };
        CompressedPostingVisitor { postings, position: 0, current }
    }

    /// Says whether `val` is in the list, and moves the walk up to it. The
    /// values asked for must rise from call to call.
    pub fn contains_next_and_advance(&mut self, val: &PointOffsetType) -> (r: bool)
        requires
            old(self).wf(),
            old(self).can_answer(*val),
        ensures
            final(self).wf(),
            final(self).list() == old(self).list(),
            r == old(self).list().contains(*val),
            forall|next: u32| next > *val ==> final(self).can_answer(next),
            final(self).can_answer(*val),
    {
        let total: usize = self.postings.len();
        proof {
            self.postings.lemma_sorted();
            self.postings.lemma_points_fit();
        }
        let ghost list = self.postings@;
        while self.position < total && self.current < *val
            invariant
                self.wf(),
                self.postings@ == list,
                total == list.len(),
                strictly_increasing(list),
                forall|i: int| 0 <= i < self.position ==> list[i] < *val,
            decreases total - self.position,
        {
            proof {
                self.postings.lemma_points_fit();
                let f = self.postings.first->Some_0;
                assert(self.current == point_at(
                    f as int,
                    self.postings.gaps@,
                    self.position as int,
                ));
            }
            self.position = self.position + 1;
            if self.position < total {
                proof {
                    let f = self.postings.first->Some_0;
                    assert(point_at(f as int, self.postings.gaps@, self.position as int)
                        <= u32::MAX);
                }
                self.current = self.current + self.postings.gaps.get(self.position - 1);
            }
        }
        if self.position < total && self.current == *val {
            assert(list[self.position as int] == *val);
            true
        } else {
            assert(!list.contains(*val)) by {
                if list.contains(*val) {
                    let k = choose|k: int| 0 <= k < list.len() && list[k] == *val;
                    if k >= self.position {
                        assert(self.position < total);
                        assert(list[self.position as int] > *val);
                    }
                }
            }
            false
        }
    }
}

} // verus!

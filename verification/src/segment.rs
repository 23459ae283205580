use vstd::prelude::*;
use crate::multi_dense_storage::copy_vector;
use crate::types::{PointIdType, PointOffsetType, SeqNumberType};

verus! {

/// What a segment keeps of one point. The vector is held as the bit
/// patterns of its elements, the payload as the bytes of its document.
#[derive(Debug)]
pub struct PointRecord {
    pub id: PointIdType,
    pub version: SeqNumberType,
    pub vector: Vec<u32>,
    pub payload: Option<Vec<u8>>,
    pub deleted: bool,
}

/// A point as a plain value.
pub struct PointView {
    pub version: SeqNumberType,
    pub vector: Seq<u32>,
    pub payload: Option<Seq<u8>>,
}

/// The bytes inside, as a sequence.
pub open spec fn payload_view(payload: Option<Vec<u8>>) -> Option<Seq<u8>> {
    match payload {
        Some(bytes) => Some(bytes@),
        None => None,
    }
}

impl View for PointRecord {
    type V = PointView;

    open spec fn view(&self) -> PointView {
        PointView { version: self.version, vector: self.vector@, payload: payload_view(self.payload) }
    }
}

/// True when the record at `i` is live and has the id.
pub open spec fn is_live_at(points: Seq<PointRecord>, id: PointIdType, i: int) -> bool {
    0 <= i < points.len() && points[i].id == id && !points[i].deleted
}

/// True when some live record has the id.
pub open spec fn has_live(points: Seq<PointRecord>, id: PointIdType) -> bool {
    exists|i: int| is_live_at(points, id, i)
}

/// The position of the live record with the id.
pub open spec fn live_index(points: Seq<PointRecord>, id: PointIdType) -> int {
    choose|i: int| is_live_at(points, id, i)
}

/// No id has two live records.
pub open spec fn ids_unique(points: Seq<PointRecord>) -> bool {
    forall|i: int, j: int|
        #![trigger points[i], points[j]]
        0 <= i < j < points.len() && !points[i].deleted && !points[j].deleted ==> points[i].id
            != points[j].id
}

/// Number of records that are not deleted.
pub open spec fn live_count(points: Seq<PointRecord>) -> nat
    decreases points.len(),
{
    if points.len() == 0 {
        0
    } else {
        live_count(points.drop_last()) + if points.last().deleted {
            0nat
        } else {
            1nat
        }
    }
}

/// No more points are live than there are points.
pub proof fn lemma_live_count_bounded(points: Seq<PointRecord>)
    ensures
        live_count(points) <= points.len(),
    decreases points.len(),
{
    if points.len() > 0 {
        lemma_live_count_bounded(points.drop_last());
    }
}

/// A part of a shard that stands for itself: points with their vectors,
/// payloads and versions. A point is known by the id that clients give it
/// and lies at an offset that the segment gives it; a deleted point keeps
/// its offset.
#[derive(Debug)]
pub struct Segment {
    points: Vec<PointRecord>,
    version: Option<SeqNumberType>,
    appendable: bool,
    live: usize,
}

impl Segment {
    /// No id has two live records, the count of live points is right, and
    /// the offsets fit their type.
    pub closed spec fn wf(&self) -> bool {
        &&& ids_unique(self.points@)
        &&& self.live == live_count(self.points@)
        &&& self.points@.len() <= u32::MAX
    }

    /// The live point with the id.
    pub closed spec fn point(&self, id: PointIdType) -> Option<PointView> {
        if has_live(self.points@, id) {
            Some(self.points@[live_index(self.points@, id)]@)
        } else {
            None
        }
    }

    /// The offset of the live point with the id.
    pub closed spec fn internal_id(&self, id: PointIdType) -> Option<PointOffsetType> {
        if has_live(self.points@, id) {
            Some(live_index(self.points@, id) as PointOffsetType)
        } else {
            None
        }
    }

    /// The id of the live point at the offset.
    pub closed spec fn external_id(&self, internal: PointOffsetType) -> Option<PointIdType> {
        if internal < self.points@.len() && !self.points@[internal as int].deleted {
            Some(self.points@[internal as int].id)
        } else {
            None
        }
    }

    /// The highest version of a write that the segment took.
    pub closed spec fn spec_version(&self) -> Option<SeqNumberType> {
        self.version
    }

    pub closed spec fn spec_is_appendable(&self) -> bool {
        self.appendable
    }

    /// Number of live points.
    pub closed spec fn spec_available(&self) -> nat {
        live_count(self.points@)
    }

    /// Number of offsets given out, those of deleted points too.
    pub closed spec fn spec_total(&self) -> nat {
        self.points@.len()
    }

    /// An empty segment.
    pub fn new(appendable: bool) -> (r: Self)
        ensures
            r.wf(),
            r.spec_is_appendable() == appendable,
            r.spec_version() is None,
            r.spec_available() == 0,
            r.spec_total() == 0,
            forall|id: PointIdType| r.point(id) is None,
    {
        Segment { points: Vec::new(), version: None, appendable, live: 0 }
    }

    pub fn is_appendable(&self) -> (r: bool)
        ensures
            r == self.spec_is_appendable(),
    {
        self.appendable
    }

    /// Closes the segment for new points or opens it.
    pub fn set_appendable(&mut self, appendable: bool)
        requires
            old(self).wf(),
        ensures
            final(self).wf(),
            final(self).spec_is_appendable() == appendable,
            final(self).spec_version() == old(self).spec_version(),
            final(self).spec_available() == old(self).spec_available(),
            final(self).spec_total() == old(self).spec_total(),
            forall|id: PointIdType| final(self).point(id) == old(self).point(id),
    {
        self.appendable = appendable;
    }

    pub fn version(&self) -> (r: Option<SeqNumberType>)
        ensures
            r == self.spec_version(),
    {
        self.version
    }

    pub fn available_point_count(&self) -> (r: usize)
        requires
            self.wf(),
        ensures
            r == self.spec_available(),
    {
        self.live
    }

    /// The offset of the live point with the id.
    fn lookup(&self, id: PointIdType) -> (r: Option<PointOffsetType>)
        requires
            self.wf(),
        ensures
            r == self.internal_id(id),
            r is Some <==> self.point(id) is Some,
            r matches Some(i) ==> is_live_at(self.points@, id, i as int),
    {
        let mut i: usize = 0;
        while i < self.points.len()
            invariant
                i <= self.points.len(),
                self.wf(),
                forall|k: int| 0 <= k < i ==> !is_live_at(self.points@, id, k),
            decreases self.points.len() - i,
        {
            if !self.points[i].deleted && self.points[i].id == id {
                proof {
                    assert(is_live_at(self.points@, id, i as int));
                    let chosen = live_index(self.points@, id);
                    assert(is_live_at(self.points@, id, chosen));
                    if chosen < i {
                        assert(self.points@[chosen].id != self.points@[i as int].id);
                    } else if chosen > i {
                        assert(self.points@[i as int].id != self.points@[chosen].id);
                    }
                }
                return Some(i as PointOffsetType);
            }
            i = i + 1;
        }
        assert(!has_live(self.points@, id));
        None
    }

    /// The offset of the live point with the id.
    pub fn internal(&self, id: PointIdType) -> (r: Option<PointOffsetType>)
        requires
            self.wf(),
        ensures
            r == self.internal_id(id),
            r is Some <==> self.point(id) is Some,
    {
        self.lookup(id)
    }

    pub fn has_point(&self, id: PointIdType) -> (r: bool)
        requires
            self.wf(),
        ensures
            r == self.point(id) is Some,
    {
        self.lookup(id).is_some()
    }

    /// The version at which the point was written last.
    pub fn point_version(&self, id: PointIdType) -> (r: Option<SeqNumberType>)
        requires
            self.wf(),
        ensures
            r == match self.point(id) {
                Some(p) => Some(p.version),
                None => None,
            },
    {
        match self.lookup(id) {
            Some(i) => Some(self.points[i as usize].version),
            None => None,
        }
    }

    /// The vector of the point.
    pub fn get_vector(&self, id: PointIdType) -> (r: Option<Vec<u32>>)
        requires
            self.wf(),
        ensures
            match r {
                Some(v) => self.point(id) matches Some(p) && p.vector == v@,
                None => self.point(id) is None,
            },
    {
        match self.lookup(id) {
            Some(i) => Some(copy_vector(&self.points[i as usize].vector)),
            None => None,
        }
    }

    /// The payload of the point; `None` for a point without one and for a
    /// point that the segment does not hold.
    pub fn payload(&self, id: PointIdType) -> (r: Option<Vec<u8>>)
        requires
            self.wf(),
        ensures
            payload_view(r) == match self.point(id) {
                Some(p) => p.payload,
                None => None,
            },
    {
        match self.lookup(id) {
            Some(i) => match &self.points[i as usize].payload {
                Some(bytes) => Some(copy_vector(bytes)),
                None => None,
            },
            None => None,
        }
    }

    /// The id of the live point at the offset.
    pub fn external(&self, internal: PointOffsetType) -> (r: Option<PointIdType>)
        ensures
            r == self.external_id(internal),
    {
        let slot: usize = internal as usize;
        if slot < self.points.len() && !self.points[slot].deleted {
            Some(self.points[slot].id)
        } else {
            None
        }
    }
}

/// Within a segment the ids and the offsets of live points answer each
/// other: the point at the offset of an id has that id, and the offset of
/// the id of a live point is the offset of that point.
pub proof fn lemma_ids_and_offsets(segment: &Segment, id: PointIdType, internal: PointOffsetType)
    requires
        segment.wf(),
    ensures
        segment.internal_id(id) == Some(internal) <==> segment.external_id(internal) == Some(id),
{
    let points = segment.points@;
    if segment.internal_id(id) == Some(internal) {
        let chosen = live_index(points, id);
        assert(is_live_at(points, id, chosen));
    }
    if segment.external_id(internal) == Some(id) {
        assert(is_live_at(points, id, internal as int));
        let chosen = live_index(points, id);
        assert(is_live_at(points, id, chosen));
        if chosen < internal {
            assert(points[chosen].id != points[internal as int].id);
        } else if chosen > internal {
            assert(points[internal as int].id != points[chosen].id);
        }
    }
}


/// A live record is the one that stands for its id.
pub proof fn lemma_point_at(points: Seq<PointRecord>, id: PointIdType, i: int)
    requires
        ids_unique(points),
        is_live_at(points, id, i),
    ensures
        has_live(points, id),
        live_index(points, id) == i,
{
    let chosen = live_index(points, id);
    assert(is_live_at(points, id, chosen));
    if chosen < i {
        assert(points[chosen].id != points[i].id);
    } else if chosen > i {
        assert(points[i].id != points[chosen].id);
    }
}

/// Where two lists of records agree on the live records of an id, they
/// agree on its point.
proof fn lemma_same_point(before: Seq<PointRecord>, after: Seq<PointRecord>, id: PointIdType)
    requires
        ids_unique(before),
        ids_unique(after),
        forall|k: int| is_live_at(before, id, k) ==> is_live_at(after, id, k) && after[k]@ == before[k]@,
        forall|k: int| is_live_at(after, id, k) ==> is_live_at(before, id, k),
    ensures
        has_live(after, id) == has_live(before, id),
        has_live(before, id) ==> live_index(after, id) == live_index(before, id) && after[live_index(
            after,
            id,
        )]@ == before[live_index(before, id)]@,
{
    if has_live(before, id) {
        let k = live_index(before, id);
        assert(is_live_at(before, id, k));
        assert(is_live_at(after, id, k));
        lemma_point_at(after, id, k);
    }
    if has_live(after, id) {
        let k = live_index(after, id);
        assert(is_live_at(after, id, k));
        assert(is_live_at(before, id, k));
    }
}

proof fn lemma_live_count_push(points: Seq<PointRecord>, record: PointRecord)
    ensures
        live_count(points.push(record)) == live_count(points) + if record.deleted {
            0nat
        } else {
            1nat
        },
{
    assert(points.push(record).drop_last() =~= points);
}

proof fn lemma_live_count_update(points: Seq<PointRecord>, i: int, record: PointRecord)
    requires
        0 <= i < points.len(),
    ensures
        live_count(points.update(i, record)) + (if points[i].deleted {
            0int
        } else {
            1int
        }) == live_count(points) + (if record.deleted {
            0int
        } else {
            1int
        }),
    decreases points.len(),
{
    let after = points.update(i, record);
    if i == points.len() - 1 {
        assert(after.drop_last() =~= points.drop_last());
    } else {
        lemma_live_count_update(points.drop_last(), i, record);
        assert(after.drop_last() =~= points.drop_last().update(i, record));
    }
}

/// The larger of the two versions.
pub open spec fn later(a: SeqNumberType, b: SeqNumberType) -> SeqNumberType {
    if a >= b {
        a
    } else {
        b
    }
}

/// The version of a segment after it took a write of version `op_num`.
pub open spec fn bumped(version: Option<SeqNumberType>, op_num: SeqNumberType) -> Option<
    SeqNumberType,
> {
    match version {
        Some(v) => Some(later(v, op_num)),
        None => Some(op_num),
    }
}

/// True when a write of version `op_num` on the point is passed over: the
/// point was written at a later version.
pub open spec fn is_stale(point: Option<PointView>, op_num: SeqNumberType) -> bool {
    point matches Some(p) && p.version > op_num
}

/// Why a segment refuses a point.
#[derive(Clone, Copy, Debug, PartialEq, Eq, Structural)]
pub enum SegmentError {
    /// Every offset is given out.
    Full,
}

impl Segment {
    /// Everything but the point with the id is as it was.
    pub open spec fn same_but(&self, before: &Segment, id: PointIdType) -> bool {
        &&& self.spec_is_appendable() == before.spec_is_appendable()
        &&& forall|other: PointIdType| other != id ==> #[trigger] self.point(other) == before.point(other)
    }

    /// Everything is as it was.
    pub open spec fn same_as(&self, before: &Segment) -> bool {
        &&& self.spec_is_appendable() == before.spec_is_appendable()
        &&& self.spec_version() == before.spec_version()
        &&& self.spec_available() == before.spec_available()
        &&& self.spec_total() == before.spec_total()
        &&& forall|id: PointIdType| #[trigger] self.point(id) == before.point(id)
    }

    fn bump_version(&mut self, op_num: SeqNumberType)
        ensures
            final(self).version == bumped(old(self).version, op_num),
            final(self).points == old(self).points,
            final(self).appendable == old(self).appendable,
            final(self).live == old(self).live,
    {
        self.version = match self.version {
            Some(v) => Some(if v >= op_num { v } else { op_num }),
            None => Some(op_num),
        };
    }

    /// Writes the vector of a point at version `op_num`. A point that was
    /// written at a later version stays as it is. Says whether a point was
    /// there and was written over.
    pub fn upsert_point(&mut self, op_num: SeqNumberType, id: PointIdType, vector: Vec<u32>) -> (r:
        Result<bool, SegmentError>)
        requires
            old(self).wf(),
        ensures
            final(self).wf(),
            final(self).same_but(old(self), id),
            r is Err <==> old(self).point(id) is None && old(self).spec_total() >= u32::MAX,
            r is Err ==> final(self).same_as(old(self)),
            match old(self).point(id) {
                Some(p) => if p.version > op_num {
                    r == Ok::<bool, SegmentError>(false) && final(self).same_as(old(self))
                } else {
                    &&& r == Ok::<bool, SegmentError>(true)
                    &&& final(self).point(id) == Some(
                        PointView { version: op_num, vector: vector@, payload: p.payload },
                    )
                    &&& final(self).spec_version() == bumped(old(self).spec_version(), op_num)
                    &&& final(self).spec_available() == old(self).spec_available()
                    &&& final(self).spec_total() == old(self).spec_total()
                },
                None => r is Ok ==> {
                    &&& r == Ok::<bool, SegmentError>(false)
                    &&& final(self).point(id) == Some(
                        PointView { version: op_num, vector: vector@, payload: None },
                    )
                    &&& final(self).spec_version() == bumped(old(self).spec_version(), op_num)
                    &&& final(self).spec_available() == old(self).spec_available() + 1
                    &&& final(self).spec_total() == old(self).spec_total() + 1
                    &&& final(self).internal_id(id) == Some(old(self).spec_total() as PointOffsetType)
                },
            },
    {
        let ghost before = self.points@;
        match self.lookup(id) {
            Some(i) => {
                let slot: usize = i as usize;
                proof {
                    lemma_point_at(before, id, slot as int);
                }
                if self.points[slot].version > op_num {
                    return Ok(false);
                }
                self.points[slot].version = op_num;
                self.points[slot].vector = vector;
                self.bump_version(op_num);
                proof {
                    let after = self.points@;
                    assert(after[slot as int].id == id && !after[slot as int].deleted);
                    assert forall|a: int, b: int|
                        #![trigger after[a], after[b]]
                        0 <= a < b < after.len() && !after[a].deleted && !after[b].deleted implies after[a].id
                        != after[b].id by {
                        assert(after[a].id == before[a].id && after[a].deleted == before[a].deleted);
                        assert(after[b].id == before[b].id && after[b].deleted == before[b].deleted);
                        assert(before[a].id != before[b].id);
                    }
                    lemma_point_at(after, id, slot as int);
                    lemma_live_count_update(before, slot as int, after[slot as int]);
                    assert(after =~= before.update(slot as int, after[slot as int]));
                    assert forall|other: PointIdType| other != id implies #[trigger] self.point(
                        other,
                    ) == old(self).point(other) by {
                        assert forall|k: int| is_live_at(before, other, k) implies is_live_at(
                            after,
                            other,
                            k,
                        ) && after[k]@ == before[k]@ by {
                            assert(k != slot);
                        }
                        assert forall|k: int| is_live_at(after, other, k) implies is_live_at(
                            before,
                            other,
                            k,
                        ) by {
                            assert(k != slot);
                        }
                        lemma_same_point(before, after, other);
                    }
                }
                Ok(true)
            },
            None => {
                if self.points.len() >= u32::MAX as usize {
                    return Err(SegmentError::Full);
                }
                let record = PointRecord { id, version: op_num, vector, payload: None, deleted: false };
                self.points.push(record);
                proof {
                    lemma_live_count_push(before, record);
                    lemma_live_count_bounded(self.points@);
                }
                self.live = self.live + 1;
                self.bump_version(op_num);
                proof {
                    let after = self.points@;
                    let slot = before.len() as int;
                    assert(is_live_at(after, id, slot));
                    assert forall|a: int, b: int|
                        #![trigger after[a], after[b]]
                        0 <= a < b < after.len() && !after[a].deleted && !after[b].deleted implies after[a].id
                        != after[b].id by {
                        if b < before.len() {
                            assert(after[a] == before[a] && after[b] == before[b]);
                            assert(before[a].id != before[b].id);
                        } else {
                            assert(after[a] == before[a]);
                            if after[a].id == id {
                                assert(is_live_at(before, id, a));
                            }
                        }
                    }
                    lemma_point_at(after, id, slot);
                    assert forall|other: PointIdType| other != id implies #[trigger] self.point(
                        other,
                    ) == old(self).point(other) by {
                        assert forall|k: int| is_live_at(before, other, k) implies is_live_at(
                            after,
                            other,
                            k,
                        ) && after[k]@ == before[k]@ by {
                            assert(after[k] == before[k]);
                        }
                        assert forall|k: int| is_live_at(after, other, k) implies is_live_at(
                            before,
                            other,
                            k,
                        ) by {
                            assert(k != slot);
                            assert(after[k] == before[k]);
                        }
                        lemma_same_point(before, after, other);
                    }
                }
                Ok(false)
            },
        }
    }

    /// Sets or clears the payload of a point at version `op_num`. A point
    /// that was written at a later version stays as it is. Says whether the
    /// payload was written.
    pub fn set_payload(&mut self, op_num: SeqNumberType, id: PointIdType, payload: Option<Vec<u8>>) -> (r:
        bool)
        requires
            old(self).wf(),
        ensures
            final(self).wf(),
            final(self).same_but(old(self), id),
            final(self).spec_available() == old(self).spec_available(),
            final(self).spec_total() == old(self).spec_total(),
            match old(self).point(id) {
                Some(p) => if p.version > op_num {
                    !r && final(self).same_as(old(self))
                } else {
                    &&& r
                    &&& final(self).point(id) == Some(
                        PointView {
                            version: op_num,
                            vector: p.vector,
                            payload: payload_view(payload),
                        },
                    )
                    &&& final(self).spec_version() == bumped(old(self).spec_version(), op_num)
                },
                None => !r && final(self).same_as(old(self)),
            },
    {
        let ghost before = self.points@;
        match self.lookup(id) {
            Some(i) => {
                let slot: usize = i as usize;
                proof {
                    lemma_point_at(before, id, slot as int);
                }
                if self.points[slot].version > op_num {
                    return false;
                }
                self.points[slot].version = op_num;
                self.points[slot].payload = payload;
                self.bump_version(op_num);
                proof {
                    let after = self.points@;
                    assert(after[slot as int].id == id && !after[slot as int].deleted);
                    assert forall|a: int, b: int|
                        #![trigger after[a], after[b]]
                        0 <= a < b < after.len() && !after[a].deleted && !after[b].deleted implies after[a].id
                        != after[b].id by {
                        assert(after[a].id == before[a].id && after[a].deleted == before[a].deleted);
                        assert(after[b].id == before[b].id && after[b].deleted == before[b].deleted);
                        assert(before[a].id != before[b].id);
                    }
                    lemma_point_at(after, id, slot as int);
                    lemma_live_count_update(before, slot as int, after[slot as int]);
                    assert(after =~= before.update(slot as int, after[slot as int]));
                    assert forall|other: PointIdType| other != id implies #[trigger] self.point(
                        other,
                    ) == old(self).point(other) by {
                        assert forall|k: int| is_live_at(before, other, k) implies is_live_at(
                            after,
                            other,
                            k,
                        ) && after[k]@ == before[k]@ by {
                            assert(k != slot);
                        }
                        assert forall|k: int| is_live_at(after, other, k) implies is_live_at(
                            before,
                            other,
                            k,
                        ) by {
                            assert(k != slot);
                        }
                        lemma_same_point(before, after, other);
                    }
                }
                true
            },
            None => false,
        }
    }

    /// Deletes a point at version `op_num`. A point that was written at a
    /// later version stays. Says whether the point was deleted.
    pub fn delete_point(&mut self, op_num: SeqNumberType, id: PointIdType) -> (r: bool)
        requires
            old(self).wf(),
        ensures
            final(self).wf(),
            final(self).same_but(old(self), id),
            final(self).spec_total() == old(self).spec_total(),
            r == (old(self).point(id) is Some && !is_stale(old(self).point(id), op_num)),
            r ==> final(self).point(id) is None && final(self).spec_version() == bumped(
                old(self).spec_version(),
                op_num,
            ) && final(self).spec_available() + 1 == old(self).spec_available(),
            !r ==> final(self).same_as(old(self)),
    {
        let ghost before = self.points@;
        match self.lookup(id) {
            Some(i) => {
                let slot: usize = i as usize;
                proof {
                    lemma_point_at(before, id, slot as int);
                }
                if self.points[slot].version > op_num {
                    return false;
                }
                self.points[slot].deleted = true;
                proof {
                    let after = self.points@;
                    lemma_live_count_update(before, slot as int, after[slot as int]);
                    assert(after =~= before.update(slot as int, after[slot as int]));
                }
                self.live = self.live - 1;
                self.bump_version(op_num);
                proof {
                    let after = self.points@;
                    assert forall|a: int, b: int|
                        #![trigger after[a], after[b]]
                        0 <= a < b < after.len() && !after[a].deleted && !after[b].deleted implies after[a].id
                        != after[b].id by {
                        assert(after[a].id == before[a].id && after[b].id == before[b].id);
                        assert(a != slot && b != slot);
                        assert(after[a] == before[a] && after[b] == before[b]);
                        assert(before[a].id != before[b].id);
                    }
                    assert(!has_live(after, id)) by {
                        if has_live(after, id) {
                            let k = live_index(after, id);
                            assert(is_live_at(after, id, k));
                            assert(k != slot);
                            assert(after[k] == before[k]);
                            assert(is_live_at(before, id, k));
                            lemma_point_at(before, id, k);
                        }
                    }
                    assert forall|other: PointIdType| other != id implies #[trigger] self.point(
                        other,
                    ) == old(self).point(other) by {
                        assert forall|k: int| is_live_at(before, other, k) implies is_live_at(
                            after,
                            other,
                            k,
                        ) && after[k]@ == before[k]@ by {
                            assert(k != slot);
                            assert(after[k] == before[k]);
                        }
                        assert forall|k: int| is_live_at(after, other, k) implies is_live_at(
                            before,
                            other,
                            k,
                        ) by {
                            assert(k != slot);
                            assert(after[k] == before[k]);
                        }
                        lemma_same_point(before, after, other);
                    }
                }
                true
            },
            None => false,
        }
    }
}


/// The ids of the live records, in the order of their offsets.
pub open spec fn live_ids(points: Seq<PointRecord>) -> Seq<PointIdType>
    decreases points.len(),
{
    if points.len() == 0 {
        Seq::empty()
    } else if points.last().deleted {
        live_ids(points.drop_last())
    } else {
        live_ids(points.drop_last()).push(points.last().id)
    }
}

proof fn lemma_live_ids(points: Seq<PointRecord>, id: PointIdType)
    ensures
        live_ids(points).contains(id) <==> has_live(points, id),
    decreases points.len(),
{
    if points.len() > 0 {
        let init = points.drop_last();
        lemma_live_ids(init, id);
        let ids = live_ids(points);
        let before = live_ids(init);
        if ids.contains(id) {
            let k = choose|k: int| 0 <= k < ids.len() && ids[k] == id;
            if k < before.len() {
                assert(before[k] == id);
                assert(before.contains(id));
                let j = choose|j: int| is_live_at(init, id, j);
                assert(is_live_at(points, id, j));
            } else {
                assert(is_live_at(points, id, points.len() - 1));
            }
        }
        if has_live(points, id) {
            let j = choose|j: int| is_live_at(points, id, j);
            if j < init.len() {
                assert(is_live_at(init, id, j));
                assert(before.contains(id));
                let k = choose|k: int| 0 <= k < before.len() && before[k] == id;
                assert(ids[k] == id);
            } else {
                assert(ids[ids.len() - 1] == id);
            }
        }
    } else {
        if has_live(points, id) {
            let j = choose|j: int| is_live_at(points, id, j);
        }
    }
}

/// True when the first id comes before the second: a number before a UUID,
/// numbers and UUIDs each in their order.
pub open spec fn id_before(a: PointIdType, b: PointIdType) -> bool {
    match (a, b) {
        (PointIdType::NumId(x), PointIdType::NumId(y)) => x < y,
        (PointIdType::NumId(_), PointIdType::Uuid(_)) => true,
        (PointIdType::Uuid(_), PointIdType::NumId(_)) => false,
        (PointIdType::Uuid(x), PointIdType::Uuid(y)) => x < y,
    }
}

/// The order of point ids: numbers before UUIDs, each kind by value.
pub fn comes_before(a: PointIdType, b: PointIdType) -> (r: bool)
    ensures
        r == id_before(a, b),
{
    match (a, b) {
        (PointIdType::NumId(x), PointIdType::NumId(y)) => x < y,
        (PointIdType::NumId(_), PointIdType::Uuid(_)) => true,
        (PointIdType::Uuid(_), PointIdType::NumId(_)) => false,
        (PointIdType::Uuid(x), PointIdType::Uuid(y)) => x < y,
    }
}

/// True when the id is in the range that begins at `from`, which may be
/// left out or let in, and has no end.
pub open spec fn in_range(id: PointIdType, from: Option<PointIdType>, inclusive: bool) -> bool {
    match from {
        None => true,
        Some(f) => id_before(f, id) || (inclusive && f == id),
    }
}

impl Segment {
    /// The ids of the live points, in the order of their offsets.
    pub closed spec fn spec_ids(&self) -> Seq<PointIdType> {
        live_ids(self.points@)
    }

    /// The ids of the live points are the ids that have a point.
    pub proof fn lemma_ids(&self, id: PointIdType)
        ensures
            self.spec_ids().contains(id) <==> self.point(id) is Some,
    {
        lemma_live_ids(self.points@, id);
    }

    /// The ids of the live points, in the order of their offsets.
    pub fn iter_points(&self) -> (r: Vec<PointIdType>)
        ensures
            r@ == self.spec_ids(),
    {
        let mut ids: Vec<PointIdType> = Vec::new();
        let mut i: usize = 0;
        proof {
            assert(self.points@.take(0) =~= Seq::<PointRecord>::empty());
        }
        while i < self.points.len()
            invariant
                i <= self.points.len(),
                ids@ == live_ids(self.points@.take(i as int)),
            decreases self.points.len() - i,
        {
            proof {
                assert(self.points@.take(i as int + 1).drop_last() =~= self.points@.take(i as int));
                assert(self.points@.take(i as int + 1).last() == self.points@[i as int]);
            }
            if !self.points[i].deleted {
                ids.push(self.points[i].id);
            }
            i = i + 1;
        }
        proof {
            assert(self.points@.take(self.points@.len() as int) =~= self.points@);
        }
        ids
    }

    /// The first live id of the range: none comes before it.
    fn first_in_range(&self, from: Option<PointIdType>, inclusive: bool) -> (r: Option<PointIdType>)
        requires
            self.wf(),
        ensures
            match r {
                Some(id) => self.point(id) is Some && in_range(id, from, inclusive) && forall|
                    other: PointIdType,
                |
                    #![trigger self.point(other)]
                    self.point(other) is Some && in_range(other, from, inclusive) ==> !id_before(
                        other,
                        id,
                    ),
                None => forall|other: PointIdType|
                    #![trigger self.point(other)]
                    self.point(other) is Some ==> !in_range(other, from, inclusive),
            },
    {
        let mut best: Option<PointIdType> = None;
        let mut i: usize = 0;
        while i < self.points.len()
            invariant
                i <= self.points.len(),
                self.wf(),
                match best {
                    Some(id) => has_live(self.points@, id) && in_range(id, from, inclusive)
                        && forall|k: int|
                        #![trigger self.points@[k]]
                        0 <= k < i && !self.points@[k].deleted && in_range(
                            self.points@[k].id,
                            from,
                            inclusive,
                        ) ==> !id_before(self.points@[k].id, id),
                    None => forall|k: int|
                        #![trigger self.points@[k]]
                        0 <= k < i && !self.points@[k].deleted ==> !in_range(
                            self.points@[k].id,
                            from,
                            inclusive,
                        ),
                },
            decreases self.points.len() - i,
        {
            if !self.points[i].deleted {
                let id: PointIdType = self.points[i].id;
                let fits: bool = match from {
                    None => true,
                    Some(f) => comes_before(f, id) || (inclusive && f == id),
                };
                if fits {
                    let better: bool = match best {
                        None => true,
                        Some(b) => comes_before(id, b),
                    };
                    if better {
                        assert(is_live_at(self.points@, id, i as int));
                        best = Some(id);
                    }
                }
            }
            i = i + 1;
        }
        proof {
            match best {
                Some(id) => {
                    assert forall|other: PointIdType|
                        #![trigger self.point(other)]
                        self.point(other) is Some && in_range(
                            other,
                            from,
                            inclusive,
                        ) implies !id_before(other, id) by {
                        let k = live_index(self.points@, other);
                        assert(is_live_at(self.points@, other, k));
                        assert(!self.points@[k].deleted);
                    }
                },
                None => {
                    assert forall|other: PointIdType|
                        #![trigger self.point(other)]
                        self.point(other) is Some implies !in_range(other, from, inclusive) by {
                        let k = live_index(self.points@, other);
                        assert(is_live_at(self.points@, other, k));
                        assert(!self.points@[k].deleted);
                    }
                },
            }
        }
        best
    }

    /// The list is a page of the live ids from `offset` on: it rises, it
    /// holds live ids of the range only, and it leaves out no live id of
    /// the range but those behind its last where it is `limit` long.
    pub open spec fn is_page(
        &self,
        page: Seq<PointIdType>,
        offset: Option<PointIdType>,
        limit: Option<usize>,
    ) -> bool {
        &&& forall|i: int, j: int| 0 <= i < j < page.len() ==> id_before(page[i], page[j])
        &&& forall|i: int|
            0 <= i < page.len() ==> (#[trigger] self.point(page[i])) is Some && in_range(
                page[i],
                offset,
                true,
            )
        &&& limit matches Some(n) ==> page.len() <= n
        &&& forall|id: PointIdType|
            #![trigger self.point(id)]
            self.point(id) is Some && in_range(id, offset, true) ==> page.contains(id) || (limit
                == Some(page.len() as usize) && (page.len() > 0 ==> id_before(page.last(), id)))
    }

    /// The ids of the live points in ascending order, from `offset` on and
    /// `limit` at most.
    pub fn read_filtered(&self, offset: Option<PointIdType>, limit: Option<usize>) -> (r: Vec<
        PointIdType,
    >)
        requires
            self.wf(),
        ensures
            self.is_page(r@, offset, limit),
    {
        let mut page: Vec<PointIdType> = Vec::new();
        let mut from: Option<PointIdType> = offset;
        let mut inclusive: bool = true;
        let mut done: bool = false;
        let bounded: bool = limit.is_some();
        let most: usize = match limit {
            Some(n) => n,
            None => 0,
        };
        while !done && (!bounded || page.len() < most)
            invariant
                self.wf(),
                bounded == limit is Some,
                limit matches Some(n) ==> most == n,
                page@.len() == 0 ==> from == offset && inclusive,
                page@.len() > 0 ==> from == Some(page@.last()) && !inclusive,
                forall|i: int, j: int| 0 <= i < j < page@.len() ==> id_before(page@[i], page@[j]),
                forall|i: int|
                    0 <= i < page@.len() ==> (#[trigger] self.point(page@[i])) is Some && in_range(
                        page@[i],
                        offset,
                        true,
                    ),
                limit matches Some(n) ==> page@.len() <= n,
                forall|id: PointIdType|
                    #![trigger self.point(id)]
                    self.point(id) is Some && in_range(id, offset, true) ==> page@.contains(id)
                        || in_range(id, from, inclusive),
                done ==> forall|id: PointIdType|
                    #![trigger self.point(id)]
                    self.point(id) is Some ==> !in_range(id, from, inclusive),
                forall|i: int| 0 <= i < page@.len() ==> self.spec_ids().contains(#[trigger] page@[i]),
                page@.no_duplicates(),
                page@.len() <= self.spec_ids().len(),
            decreases self.spec_ids().len() - page@.len() + if done { 0int } else { 1int },
        {
            match self.first_in_range(from, inclusive) {
                None => {
                    done = true;
                },
                Some(id) => {
                    let ghost before = page@;
                    proof {
                        self.lemma_ids(id);
                        assert(!before.contains(id)) by {
                            if before.contains(id) {
                                let k = choose|k: int| 0 <= k < before.len() && before[k] == id;
                                if k < before.len() - 1 {
                                    assert(id_before(before[k], before[before.len() - 1]));
                                }
                                lemma_order(before[k], before.last());
                            }
                        }
                        lemma_room(self.spec_ids(), before, id);
                    }
                    page.push(id);
                    proof {
                        let after = page@;
                        assert forall|i: int, j: int| 0 <= i < j < after.len() implies id_before(
                            after[i],
                            after[j],
                        ) by {
                            if j == after.len() - 1 && before.len() > 0 {
                                assert(after[i] == before[i]);
                                if i < before.len() - 1 {
                                    assert(id_before(before[i], before.last()));
                                    lemma_order_chain(before[i], before.last(), id);
                                }
                            }
                        }
                        assert forall|i: int| 0 <= i < after.len() implies (#[trigger] self.point(
                            after[i],
                        )) is Some && in_range(after[i], offset, true) by {
                            if i < before.len() {
                                assert(after[i] == before[i]);
                            } else {
                                if before.len() > 0 {
                                    assert(self.point(before[before.len() - 1]) is Some);
                                    assert(in_range(before.last(), offset, true));
                                    lemma_range_grows(offset, before.last(), id);
                                }
                            }
                        }
                        assert forall|other: PointIdType|
                            #![trigger self.point(other)]
                            self.point(other) is Some && in_range(
                                other,
                                offset,
                                true,
                            ) implies after.contains(other) || in_range(other, Some(id), false) by {
                            if before.contains(other) {
                                let k = choose|k: int| 0 <= k < before.len() && before[k] == other;
                                assert(after[k] == other);
                            } else if other == id {
                                assert(after[after.len() - 1] == other);
                            } else {
                                assert(in_range(other, from, inclusive));
                                assert(!id_before(other, id));
                                lemma_order_total(other, id);
                            }
                        }
                        assert forall|i: int| 0 <= i < after.len() implies self.spec_ids().contains(
                            #[trigger] after[i],
                        ) by {
                            if i < before.len() {
                                assert(after[i] == before[i]);
                            }
                        }
                        assert(after.no_duplicates()) by {
                            assert forall|a: int, b: int|
                                0 <= a < after.len() && 0 <= b < after.len() && a != b implies after[a]
                                != after[b] by {
                                if a < before.len() && b < before.len() {
                                    assert(before[a] != before[b]);
                                } else if a < before.len() {
                                    assert(before.contains(before[a]));
                                } else {
                                    assert(before.contains(before[b]));
                                }
                            }
                        }
                    }
                    from = Some(id);
                    inclusive = false;
                },
            }
        }
        proof {
            let out = page@;
            assert forall|id: PointIdType|
                #![trigger self.point(id)]
                self.point(id) is Some && in_range(id, offset, true) implies out.contains(id) || (
                limit == Some(out.len() as usize) && (out.len() > 0 ==> id_before(out.last(), id))) by {
                if !out.contains(id) {
                    assert(in_range(id, from, inclusive));
                    assert(!done);
                }
            }
        }
        page
    }
}

/// No id comes before itself, and of two ids not both come before the
/// other.
proof fn lemma_order(a: PointIdType, b: PointIdType)
    ensures
        !(id_before(a, b) && id_before(b, a)),
        !id_before(a, a),
{
}

proof fn lemma_order_chain(a: PointIdType, b: PointIdType, c: PointIdType)
    requires
        id_before(a, b),
        id_before(b, c),
    ensures
        id_before(a, c),
{
}

proof fn lemma_order_total(a: PointIdType, b: PointIdType)
    ensures
        a == b || id_before(a, b) || id_before(b, a),
{
}

proof fn lemma_range_grows(offset: Option<PointIdType>, a: PointIdType, b: PointIdType)
    requires
        in_range(a, offset, true),
        id_before(a, b),
    ensures
        in_range(b, offset, true),
{
}

/// A list without repeats that holds only elements of another list and
/// misses one of them is shorter than that list.
proof fn lemma_room(all: Seq<PointIdType>, part: Seq<PointIdType>, missing: PointIdType)
    requires
        part.no_duplicates(),
        forall|i: int| 0 <= i < part.len() ==> all.contains(#[trigger] part[i]),
        all.contains(missing),
        !part.contains(missing),
    ensures
        part.len() < all.len(),
{
    let grown = part.push(missing);
    assert(grown.no_duplicates()) by {
        assert forall|a: int, b: int|
            0 <= a < grown.len() && 0 <= b < grown.len() && a != b implies grown[a] != grown[b] by {
            if a < part.len() && b < part.len() {
            } else if a < part.len() {
                assert(part.contains(part[a]));
            } else {
                assert(part.contains(part[b]));
            }
        }
    }
    assert(grown.to_set().subset_of(all.to_set())) by {
        assert forall|x: PointIdType| grown.to_set().contains(x) implies all.to_set().contains(x) by {
            let k = choose|k: int| 0 <= k < grown.len() && grown[k] == x;
            if k < part.len() {
                assert(all.contains(part[k]));
            }
        }
    }
    grown.unique_seq_to_set();
    vstd::seq_lib::seq_to_set_is_finite(all);
    vstd::set_lib::lemma_len_subset(grown.to_set(), all.to_set());
    all.lemma_cardinality_of_set();
}

} // verus!

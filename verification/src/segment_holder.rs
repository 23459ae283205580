use vstd::prelude::*;
use crate::proxy_segment::{upserted, with_payload, ProxySegment};
use crate::segment::{is_stale, payload_view, PointView, Segment, SegmentError};
use crate::types::{OperationError, PointIdType, SeqNumberType};

verus! {

/// Identifier of a segment within its holder.
pub type SegmentId = usize;

/// A segment as a holder keeps it: plain, or wrapped in a proxy.
#[derive(Debug)]
pub enum LockedSegment {
    Original(Segment),
    Proxy(ProxySegment),
}

impl LockedSegment {
    pub open spec fn wf(&self) -> bool {
        match self {
            LockedSegment::Original(segment) => segment.wf(),
            LockedSegment::Proxy(proxy) => proxy.wf(),
        }
    }

    /// The point as readers see it.
    pub open spec fn point(&self, id: PointIdType) -> Option<PointView> {
        match self {
            LockedSegment::Original(segment) => segment.point(id),
            LockedSegment::Proxy(proxy) => proxy.point(id),
        }
    }

    pub open spec fn spec_is_appendable(&self) -> bool {
        match self {
            LockedSegment::Original(segment) => segment.spec_is_appendable(),
            LockedSegment::Proxy(_) => true,
        }
    }

    /// Number of points that readers see.
    pub open spec fn spec_available(&self) -> nat {
        match self {
            LockedSegment::Original(segment) => segment.spec_available(),
            LockedSegment::Proxy(proxy) => proxy.spec_available(),
        }
    }

    /// True when the point has its place where writes go.
    pub open spec fn has_place(&self, id: PointIdType) -> bool {
        match self {
            LockedSegment::Original(segment) => segment.point(id) is Some,
            LockedSegment::Proxy(proxy) => proxy.write_point(id) is Some,
        }
    }

    /// True when a write to the point finds room: the point has its place
    /// already, or an offset is left to give out.
    pub open spec fn has_room_for(&self, id: PointIdType) -> bool {
        self.has_place(id) || self.spec_used() < u32::MAX
    }

    /// Number of offsets given out where writes go.
    pub open spec fn spec_used(&self) -> nat {
        match self {
            LockedSegment::Original(segment) => segment.spec_total(),
            LockedSegment::Proxy(proxy) => proxy.write_total(),
        }
    }

    pub fn is_appendable(&self) -> (r: bool)
        ensures
            r == self.spec_is_appendable(),
    {
        match self {
            LockedSegment::Original(segment) => segment.is_appendable(),
            LockedSegment::Proxy(proxy) => proxy.is_appendable(),
        }
    }

    pub fn available_point_count(&self) -> (r: usize)
        requires
            self.wf(),
        ensures
            r == self.spec_available(),
    {
        match self {
            LockedSegment::Original(segment) => segment.available_point_count(),
            LockedSegment::Proxy(proxy) => proxy.available_point_count(),
        }
    }

    pub fn has_point(&self, id: PointIdType) -> (r: bool)
        requires
            self.wf(),
        ensures
            r == self.point(id) is Some,
    {
        match self {
            LockedSegment::Original(segment) => segment.has_point(id),
            LockedSegment::Proxy(proxy) => proxy.has_point(id),
        }
    }

    /// The ids of the points that readers of the segment see.
    pub fn iter_points(&self) -> (r: Vec<PointIdType>)
        requires
            self.wf(),
        ensures
            forall|id: PointIdType| r@.contains(id) <==> self.point(id) is Some,
    {
        match self {
            LockedSegment::Original(segment) => {
                let ids = segment.iter_points();
                proof {
                    assert forall|id: PointIdType| ids@.contains(id) <==> self.point(id) is Some by {
                        segment.lemma_ids(id);
                    }
                }
                ids
            },
            LockedSegment::Proxy(proxy) => proxy.iter_points(),
        }
    }

    pub fn point_version(&self, id: PointIdType) -> (r: Option<SeqNumberType>)
        requires
            self.wf(),
        ensures
            r == match self.point(id) {
                Some(p) => Some(p.version),
                None => None,
            },
    {
        match self {
            LockedSegment::Original(segment) => segment.point_version(id),
            LockedSegment::Proxy(proxy) => proxy.point_version(id),
        }
    }

    pub fn get_vector(&self, id: PointIdType) -> (r: Option<Vec<u32>>)
        requires
            self.wf(),
        ensures
            match r {
                Some(v) => self.point(id) matches Some(p) && p.vector == v@,
                None => self.point(id) is None,
            },
    {
        match self {
            LockedSegment::Original(segment) => segment.get_vector(id),
            LockedSegment::Proxy(proxy) => proxy.get_vector(id),
        }
    }

    pub fn payload(&self, id: PointIdType) -> (r: Option<Vec<u8>>)
        requires
            self.wf(),
        ensures
            payload_view(r) == match self.point(id) {
                Some(p) => p.payload,
                None => None,
            },
    {
        match self {
            LockedSegment::Original(segment) => segment.payload(id),
            LockedSegment::Proxy(proxy) => proxy.payload(id),
        }
    }

    /// Everything but the point with the id is as it was.
    pub open spec fn same_but(&self, before: &LockedSegment, id: PointIdType) -> bool {
        &&& self.spec_is_appendable() == before.spec_is_appendable()
        &&& forall|other: PointIdType| other != id ==> #[trigger] self.point(other) == before.point(other)
    }

    /// Writes the vector of a point at version `op_num`.
    pub fn upsert_point(&mut self, op_num: SeqNumberType, id: PointIdType, vector: Vec<u32>) -> (r:
        Result<bool, SegmentError>)
        requires
            old(self).wf(),
        ensures
            final(self).wf(),
            final(self).same_but(old(self), id),
            r is Err <==> !old(self).has_room_for(id),
            r is Err ==> final(self).point(id) == old(self).point(id),
            final(self).spec_used() <= old(self).spec_used() + 1,
            old(self).spec_used() < u32::MAX ==> r is Ok,
            r matches Ok(replaced) ==> {
                &&& final(self).point(id) == Some(upserted(old(self).point(id), op_num, vector@))
                &&& replaced == (old(self).point(id) is Some && !is_stale(old(self).point(id), op_num))
                &&& final(self).has_place(id)
            },
    {
        match self {
            LockedSegment::Original(segment) => segment.upsert_point(op_num, id, vector),
            LockedSegment::Proxy(proxy) => proxy.upsert_point(op_num, id, vector),
        }
    }

    /// Sets or clears the payload of a point at version `op_num`.
    pub fn set_payload(&mut self, op_num: SeqNumberType, id: PointIdType, payload: Option<Vec<u8>>) -> (r:
        Result<bool, SegmentError>)
        requires
            old(self).wf(),
        ensures
            final(self).wf(),
            final(self).same_but(old(self), id),
            old(self).has_room_for(id) ==> r is Ok,
            old(self).has_place(id) ==> final(self).spec_used() == old(self).spec_used(),
            r is Err ==> final(self).point(id) == old(self).point(id),
            final(self).spec_used() <= old(self).spec_used() + 1,
            r matches Ok(written) ==> {
                &&& final(self).point(id) == with_payload(
                    old(self).point(id),
                    op_num,
                    payload_view(payload),
                )
                &&& written == (old(self).point(id) is Some && !is_stale(old(self).point(id), op_num))
            },
    {
        match self {
            LockedSegment::Original(segment) => Ok(segment.set_payload(op_num, id, payload)),
            LockedSegment::Proxy(proxy) => proxy.set_payload(op_num, id, payload),
        }
    }

    /// Deletes a point at version `op_num`.
    pub fn delete_point(&mut self, op_num: SeqNumberType, id: PointIdType) -> (r: bool)
        requires
            old(self).wf(),
        ensures
            final(self).wf(),
            final(self).same_but(old(self), id),
            old(self).point(id) is None ==> final(self).point(id) is None,
            !is_stale(old(self).point(id), op_num) ==> final(self).point(id) is None,
            final(self).spec_used() == old(self).spec_used(),
    {
        match self {
            LockedSegment::Original(segment) => segment.delete_point(op_num, id),
            LockedSegment::Proxy(proxy) => proxy.delete_point(op_num, id),
        }
    }
}


/// The segments of a shard, each under an id of its own.
#[derive(Debug)]
pub struct SegmentHolder {
    segments: Vec<(SegmentId, LockedSegment)>,
    id_source: SegmentId,
}

impl SegmentHolder {
    /// Number of segments.
    pub closed spec fn spec_len(&self) -> nat {
        self.segments@.len()
    }

    /// The id of the segment at a position.
    pub closed spec fn id_at(&self, i: int) -> SegmentId {
        self.segments@[i].0
    }

    /// The segment at a position.
    pub closed spec fn segment_at(&self, i: int) -> LockedSegment {
        self.segments@[i].1
    }

    /// The id that the next segment gets.
    pub closed spec fn spec_next_id(&self) -> SegmentId {
        self.id_source
    }

    /// True when the segment at the position holds the point.
    pub open spec fn held_at(&self, id: PointIdType, i: int) -> bool {
        0 <= i < self.spec_len() && self.segment_at(i).point(id) is Some
    }

    /// True when some segment holds the point.
    pub open spec fn is_held(&self, id: PointIdType) -> bool {
        exists|i: int| self.held_at(id, i)
    }

    /// The position of the segment that holds the point.
    pub open spec fn position_of(&self, id: PointIdType) -> int {
        choose|i: int| self.held_at(id, i)
    }

    /// The point as the shard holds it.
    pub open spec fn point(&self, id: PointIdType) -> Option<PointView> {
        if self.is_held(id) {
            self.segment_at(self.position_of(id)).point(id)
        } else {
            None
        }
    }

    /// The id of the segment that holds the point.
    pub open spec fn holder_of(&self, id: PointIdType) -> SegmentId {
        self.id_at(self.position_of(id))
    }

    /// True when the segment with the id stands at the position.
    pub open spec fn is_at(&self, sid: SegmentId, i: int) -> bool {
        0 <= i < self.spec_len() && self.id_at(i) == sid
    }

    /// The segment with the id, `None` where the holder has none.
    pub open spec fn segment(&self, sid: SegmentId) -> Option<LockedSegment> {
        if exists|i: int| self.is_at(sid, i) {
            Some(self.segment_at(choose|i: int| self.is_at(sid, i)))
        } else {
            None
        }
    }

    /// The segments are well formed, no two have one id, every id is below
    /// the next to give out, and no point is held by two segments.
    pub open spec fn wf(&self) -> bool {
        &&& forall|i: int| 0 <= i < self.spec_len() ==> (#[trigger] self.segment_at(i)).wf()
        &&& forall|i: int| 0 <= i < self.spec_len() ==> #[trigger] self.id_at(i) < self.spec_next_id()
        &&& forall|i: int, j: int|
            0 <= i < j < self.spec_len() ==> #[trigger] self.id_at(i) != #[trigger] self.id_at(j)
        &&& forall|i: int, j: int, id: PointIdType|
            #![trigger self.held_at(id, i), self.held_at(id, j)]
            self.held_at(id, i) && self.held_at(id, j) ==> i == j
    }

    /// The segment that holds a point is the one that stands for it.
    pub proof fn lemma_held(&self, id: PointIdType, i: int)
        requires
            self.wf(),
            self.held_at(id, i),
        ensures
            self.is_held(id),
            self.position_of(id) == i,
            self.point(id) == self.segment_at(i).point(id),
    {
        let chosen = self.position_of(id);
        assert(self.held_at(id, chosen));
    }

    /// The segment at a position is the one that its id names.
    pub proof fn lemma_at(&self, sid: SegmentId, i: int)
        requires
            self.wf(),
            self.is_at(sid, i),
        ensures
            self.segment(sid) == Some(self.segment_at(i)),
    {
        let chosen = choose|k: int| self.is_at(sid, k);
        assert(self.is_at(sid, chosen));
        if chosen < i {
            assert(self.id_at(chosen) != self.id_at(i));
        } else if chosen > i {
            assert(self.id_at(i) != self.id_at(chosen));
        }
    }

    /// A holder without segments.
    pub fn new() -> (r: Self)
        ensures
            r.wf(),
            r.spec_len() == 0,
            r.spec_next_id() == 0,
    {
        SegmentHolder { segments: Vec::new(), id_source: 0 }
    }

    pub fn len(&self) -> (r: usize)
        ensures
            r == self.spec_len(),
    {
        self.segments.len()
    }

    pub fn is_empty(&self) -> (r: bool)
        ensures
            r == (self.spec_len() == 0),
    {
        self.segments.len() == 0
    }

    /// Position of the segment with the id.
    fn index_of(&self, sid: SegmentId) -> (r: Option<usize>)
        ensures
            match r {
                Some(i) => self.is_at(sid, i as int),
                None => forall|i: int| !self.is_at(sid, i),
            },
    {
        let mut i: usize = 0;
        while i < self.segments.len()
            invariant
                i <= self.segments.len(),
                forall|k: int| 0 <= k < i ==> !self.is_at(sid, k),
            decreases self.segments.len() - i,
        {
            if self.segments[i].0 == sid {
                return Some(i);
            }
            i = i + 1;
        }
        None
    }

    /// The segment with the id.
    pub fn get(&self, sid: SegmentId) -> (r: Option<&LockedSegment>)
        requires
            self.wf(),
        ensures
            match r {
                Some(segment) => self.segment(sid) == Some(*segment) && segment.wf(),
                None => self.segment(sid) is None,
            },
    {
        match self.index_of(sid) {
            Some(i) => {
                proof {
                    self.lemma_at(sid, i as int);
                    assert(self.segment_at(i as int).wf());
                }
                Some(&self.segments[i].1)
            },
            None => None,
        }
    }

    /// The ids of the segments.
    pub fn segment_ids(&self) -> (r: Vec<SegmentId>)
        ensures
            r@.len() == self.spec_len(),
            forall|i: int| 0 <= i < r@.len() ==> r@[i] == self.id_at(i),
    {
        let mut ids: Vec<SegmentId> = Vec::new();
        let mut i: usize = 0;
        while i < self.segments.len()
            invariant
                i <= self.segments.len(),
                ids@.len() == i,
                forall|k: int| 0 <= k < i ==> ids@[k] == self.id_at(k),
            decreases self.segments.len() - i,
        {
            ids.push(self.segments[i].0);
            i = i + 1;
        }
        ids
    }

    /// Takes a segment in under a new id. None of its points may be held
    /// already.
    pub fn add_new_locked(&mut self, segment: LockedSegment) -> (r: SegmentId)
        requires
            old(self).wf(),
            segment.wf(),
            old(self).spec_next_id() < usize::MAX,
            forall|id: PointIdType|
                #![trigger segment.point(id)]
                segment.point(id) is Some ==> !old(self).is_held(id),
        ensures
            final(self).wf(),
            r == old(self).spec_next_id(),
            final(self).spec_next_id() == r + 1,
            final(self).spec_len() == old(self).spec_len() + 1,
            final(self).id_at(old(self).spec_len() as int) == r,
            final(self).segment_at(old(self).spec_len() as int) == segment,
            forall|i: int|
                0 <= i < old(self).spec_len() ==> #[trigger] final(self).id_at(i) == old(self).id_at(i)
                    && #[trigger] final(self).segment_at(i) == old(self).segment_at(i),
            final(self).segment(r) == Some(segment),
    {
        let id: SegmentId = self.id_source;
        self.id_source = self.id_source + 1;
        self.segments.push((id, segment));
        proof {
            let n = old(self).spec_len() as int;
            assert forall|i: int, j: int, p: PointIdType|
                #![trigger self.held_at(p, i), self.held_at(p, j)]
                self.held_at(p, i) && self.held_at(p, j) implies i == j by {
                if i < n && j < n {
                    assert(old(self).held_at(p, i) && old(self).held_at(p, j));
                } else if i < n {
                    assert(old(self).held_at(p, i));
                    assert(segment.point(p) is Some);
                } else if j < n {
                    assert(old(self).held_at(p, j));
                    assert(segment.point(p) is Some);
                }
            }
            assert forall|i: int| 0 <= i < self.spec_len() implies (#[trigger] self.segment_at(
                i,
            )).wf() by {
                if i < n {
                    assert(self.segment_at(i) == old(self).segment_at(i));
                }
            }
            assert forall|i: int| 0 <= i < self.spec_len() implies #[trigger] self.id_at(i)
                < self.spec_next_id() by {
                if i < n {
                    assert(self.id_at(i) == old(self).id_at(i));
                }
            }
            assert forall|i: int, j: int| 0 <= i < j < self.spec_len() implies #[trigger] self.id_at(
                i,
            ) != #[trigger] self.id_at(j) by {
                assert(self.id_at(i) == old(self).id_at(i));
                if j < n {
                    assert(self.id_at(j) == old(self).id_at(j));
                }
            }
            assert(self.is_at(id, n));
            self.lemma_at(id, n);
        }
        id
    }

    /// Takes a plain segment in under a new id.
    pub fn add_new(&mut self, segment: Segment) -> (r: SegmentId)
        requires
            old(self).wf(),
            segment.wf(),
            old(self).spec_next_id() < usize::MAX,
            forall|id: PointIdType|
                #![trigger segment.point(id)]
                segment.point(id) is Some ==> !old(self).is_held(id),
        ensures
            final(self).wf(),
            r == old(self).spec_next_id(),
            final(self).spec_next_id() == r + 1,
            final(self).spec_len() == old(self).spec_len() + 1,
            final(self).segment(r) == Some(LockedSegment::Original(segment)),
            forall|i: int|
                0 <= i < old(self).spec_len() ==> #[trigger] final(self).id_at(i) == old(self).id_at(i)
                    && #[trigger] final(self).segment_at(i) == old(self).segment_at(i),
    {
        self.add_new_locked(LockedSegment::Original(segment))
    }

    /// Takes the segment with the id out of the holder.
    pub fn remove(&mut self, sid: SegmentId) -> (r: Option<LockedSegment>)
        requires
            old(self).wf(),
        ensures
            final(self).wf(),
            final(self).spec_next_id() == old(self).spec_next_id(),
            r == old(self).segment(sid),
            r matches Some(segment) ==> segment.wf(),
            final(self).segment(sid) is None,
            forall|other: SegmentId| other != sid ==> final(self).segment(other) == old(self).segment(other),
            forall|id: PointIdType|
                #![trigger final(self).is_held(id)]
                final(self).is_held(id) ==> old(self).is_held(id) && final(self).point(id) == old(self).point(id),
            forall|id: PointIdType|
                #![trigger final(self).is_held(id)]
                final(self).is_held(id) ==> final(self).holder_of(id) == old(self).holder_of(id)
                    && final(self).holder_of(id) != sid,
            forall|id: PointIdType|
                #![trigger old(self).is_held(id)]
                old(self).is_held(id) && !(r matches Some(segment) && segment.point(id) is Some)
                    ==> final(self).is_held(id),
    {
        match self.index_of(sid) {
            None => {
                proof {
                    assert forall|p: PointIdType|
                        #![trigger self.is_held(p)]
                        self.is_held(p) implies self.holder_of(p) != sid by {
                        let k = self.position_of(p);
                        assert(self.held_at(p, k));
                        assert(!self.is_at(sid, k));
                    }
                }
                None
            },
            Some(i) => {
                proof {
                    self.lemma_at(sid, i as int);
                    assert(self.segment_at(i as int).wf());
                }
                let ghost before = *self;
                let entry: (SegmentId, LockedSegment) = self.segments.remove(i);
                proof {
                    let n = before.spec_len() as int;
                    assert(self.segments@ == before.segments@.remove(i as int));
                    assert forall|k: int| 0 <= k < self.spec_len() implies self.id_at(k)
                        == before.id_at(if k < i { k } else { k + 1 }) && self.segment_at(k)
                        == before.segment_at(if k < i { k } else { k + 1 }) by {}
                    assert forall|k: int| 0 <= k < self.spec_len() implies (
                    #[trigger] self.segment_at(k)).wf() by {
                        let b = if k < i { k } else { k + 1 };
                        assert(before.segment_at(b).wf());
                    }
                    assert forall|k: int| 0 <= k < self.spec_len() implies #[trigger] self.id_at(k)
                        < self.spec_next_id() by {
                        let b = if k < i { k } else { k + 1 };
                        assert(before.id_at(b) < before.spec_next_id());
                    }
                    assert forall|a: int, b: int| 0 <= a < b < self.spec_len() implies #[trigger] self.id_at(
                        a,
                    ) != #[trigger] self.id_at(b) by {
                        let ba = if a < i { a } else { a + 1 };
                        let bb = if b < i { b } else { b + 1 };
                        assert(before.id_at(ba) != before.id_at(bb));
                    }
                    assert forall|a: int, b: int, p: PointIdType|
                        #![trigger self.held_at(p, a), self.held_at(p, b)]
                        self.held_at(p, a) && self.held_at(p, b) implies a == b by {
                        let ba = if a < i { a } else { a + 1 };
                        let bb = if b < i { b } else { b + 1 };
                        assert(before.held_at(p, ba) && before.held_at(p, bb));
                    }
                    assert(self.segment(sid) is None) by {
                        if exists|k: int| self.is_at(sid, k) {
                            let k = choose|k: int| self.is_at(sid, k);
                            let b = if k < i { k } else { k + 1 };
                            assert(before.is_at(sid, b));
                            if b < i {
                                assert(before.id_at(b) != before.id_at(i as int));
                            } else {
                                assert(before.id_at(i as int) != before.id_at(b));
                            }
                        }
                    }
                    assert forall|other: SegmentId| other != sid implies self.segment(other)
                        == before.segment(other) by {
                        if exists|k: int| before.is_at(other, k) {
                            let k = choose|k: int| before.is_at(other, k);
                            assert(k != i);
                            let a = if k < i { k } else { k - 1 };
                            assert(self.is_at(other, a));
                            self.lemma_at(other, a);
                            before.lemma_at(other, k);
                        } else {
                            if exists|k: int| self.is_at(other, k) {
                                let k = choose|k: int| self.is_at(other, k);
                                let b = if k < i { k } else { k + 1 };
                                assert(before.is_at(other, b));
                            }
                        }
                    }
                    assert forall|p: PointIdType|
                        #![trigger self.is_held(p)]
                        self.is_held(p) implies before.is_held(p) && self.point(p) == before.point(
                        p,
                    ) && self.holder_of(p) == before.holder_of(p) && self.holder_of(p) != sid by {
                        let k = self.position_of(p);
                        assert(self.held_at(p, k));
                        let b = if k < i { k } else { k + 1 };
                        assert(before.held_at(p, b));
                        before.lemma_held(p, b);
                        self.lemma_held(p, k);
                        assert(self.id_at(k) == before.id_at(b));
                        if b < i {
                            assert(before.id_at(b) != before.id_at(i as int));
                        } else {
                            assert(before.id_at(i as int) != before.id_at(b));
                        }
                    }
                    assert forall|p: PointIdType|
                        #![trigger before.is_held(p)]
                        before.is_held(p) && !(entry.1.point(p) is Some) implies self.is_held(p) by {
                        let k = before.position_of(p);
                        assert(before.held_at(p, k));
                        assert(k != i);
                        let a = if k < i { k } else { k - 1 };
                        assert(self.held_at(p, a));
                    }
                }
                Some(entry.1)
            },
        }
    }
}


/// A point as a request gives it.
#[derive(Debug)]
pub struct PointStruct {
    pub id: PointIdType,
    pub vector: Vec<u32>,
    pub payload: Option<Vec<u8>>,
}

/// The point after a write of a vector and, where one is given, of a
/// payload, at version `op_num`.
pub open spec fn applied(
    prior: Option<PointView>,
    op_num: SeqNumberType,
    vector: Seq<u32>,
    payload: Option<Seq<u8>>,
) -> PointView {
    let written = upserted(prior, op_num, vector);
    if payload is Some && written.version <= op_num {
        PointView { version: op_num, vector: written.vector, payload }
    } else {
        written
    }
}

/// Writing the same twice is the same as writing it once.
pub proof fn lemma_applied_twice(
    prior: Option<PointView>,
    op_num: SeqNumberType,
    vector: Seq<u32>,
    payload: Option<Seq<u8>>,
)
    ensures
        applied(Some(applied(prior, op_num, vector, payload)), op_num, vector, payload) == applied(
            prior,
            op_num,
            vector,
            payload,
        ),
{
}

impl SegmentHolder {
    /// The holder has the same segments under the same ids as before, and
    /// each takes writes or not as before.
    pub open spec fn same_frame(&self, before: &SegmentHolder) -> bool {
        &&& self.spec_len() == before.spec_len()
        &&& self.spec_next_id() == before.spec_next_id()
        &&& forall|k: int|
            0 <= k < self.spec_len() ==> #[trigger] self.id_at(k) == before.id_at(k)
        &&& forall|k: int|
            0 <= k < self.spec_len() ==> (#[trigger] self.segment_at(k)).spec_is_appendable()
                == before.segment_at(k).spec_is_appendable()
    }

    /// Every point but the one with the id is held where it was and as it
    /// was.
    pub open spec fn same_but(&self, before: &SegmentHolder, id: PointIdType) -> bool {
        forall|k: int, other: PointIdType|
            #![trigger self.segment_at(k).point(other)]
            0 <= k < self.spec_len() && other != id ==> self.segment_at(k).point(other)
                == before.segment_at(k).point(other)
    }

    /// Where every point but one is held as before, the shard holds every
    /// point but that one as before.
    pub proof fn lemma_same_but(&self, before: &SegmentHolder, id: PointIdType, other: PointIdType)
        requires
            self.wf(),
            before.wf(),
            self.spec_len() == before.spec_len(),
            self.same_but(before, id),
            other != id,
        ensures
            self.is_held(other) == before.is_held(other),
            self.point(other) == before.point(other),
    {
        if before.is_held(other) {
            let k = before.position_of(other);
            assert(before.held_at(other, k));
            assert(self.segment_at(k).point(other) == before.segment_at(k).point(other));
            assert(self.held_at(other, k));
            self.lemma_held(other, k);
            before.lemma_held(other, k);
        }
        if self.is_held(other) {
            let k = self.position_of(other);
            assert(self.held_at(other, k));
            assert(self.segment_at(k).point(other) == before.segment_at(k).point(other));
            assert(before.held_at(other, k));
        }
    }

    /// Position of the segment that holds the point.
    fn find(&self, id: PointIdType) -> (r: Option<usize>)
        requires
            self.wf(),
        ensures
            match r {
                Some(i) => self.held_at(id, i as int),
                None => !self.is_held(id),
            },
    {
        let mut i: usize = 0;
        while i < self.segments.len()
            invariant
                i <= self.segments.len(),
                self.wf(),
                forall|k: int| 0 <= k < i ==> !self.held_at(id, k),
            decreases self.segments.len() - i,
        {
            assert(self.segment_at(i as int).wf());
            if self.segments[i].1.has_point(id) {
                return Some(i);
            }
            i = i + 1;
        }
        None
    }

    /// True when some segment holds the point.
    pub fn has_point(&self, id: PointIdType) -> (r: bool)
        requires
            self.wf(),
        ensures
            r == self.point(id) is Some,
    {
        match self.find(id) {
            Some(i) => {
                proof {
                    self.lemma_held(id, i as int);
                }
                true
            },
            None => false,
        }
    }

    /// The id of the segment that holds the point.
    pub fn segment_of(&self, id: PointIdType) -> (r: Option<SegmentId>)
        requires
            self.wf(),
        ensures
            match r {
                Some(sid) => self.is_held(id) && sid == self.id_at(self.position_of(id)),
                None => !self.is_held(id),
            },
    {
        match self.find(id) {
            Some(i) => {
                proof {
                    self.lemma_held(id, i as int);
                }
                Some(self.segments[i].0)
            },
            None => None,
        }
    }

    /// Writes a point into the segment at a position. The point must be
    /// held there or nowhere.
    fn apply_at(
        &mut self,
        i: usize,
        op_num: SeqNumberType,
        id: PointIdType,
        vector: Vec<u32>,
        payload: Option<Vec<u8>>,
    ) -> (r: Result<bool, SegmentError>)
        requires
            old(self).wf(),
            i < old(self).spec_len(),
            old(self).held_at(id, i as int) || !old(self).is_held(id),
        ensures
            final(self).wf(),
            final(self).same_frame(old(self)),
            final(self).same_but(old(self), id),
            forall|k: int|
                0 <= k < final(self).spec_len() && k != i ==> #[trigger] final(self).segment_at(k)
                    == old(self).segment_at(k),
            final(self).segment_at(i as int).spec_used() <= old(self).segment_at(i as int).spec_used()
                + 1,
            old(self).segment_at(i as int).spec_used() < u32::MAX ==> r is Ok,
            r is Err ==> final(self).point(id) == old(self).point(id),
            r matches Ok(replaced) ==> {
                &&& final(self).held_at(id, i as int)
                &&& final(self).point(id) == Some(
                    applied(old(self).point(id), op_num, vector@, payload_view(payload)),
                )
                &&& replaced == (old(self).point(id) is Some && !is_stale(old(self).point(id), op_num))
            },
    {
        let ghost before = *self;
        proof {
            assert(before.segment_at(i as int).wf());
            if before.held_at(id, i as int) {
                before.lemma_held(id, i as int);
            }
        }
        let replaced: bool = match self.segments[i].1.upsert_point(op_num, id, vector) {
            Ok(b) => b,
            Err(e) => {
                proof {
                    assert forall|k: int| 0 <= k < self.spec_len() implies self.segment_at(k).wf()
                        && self.id_at(k) == before.id_at(k) && (k != i ==> self.segment_at(k)
                        == before.segment_at(k)) by {}
                    assert forall|k: int, p: PointIdType| self.held_at(p, k) == before.held_at(p, k) by {
                        if 0 <= k < self.spec_len() && k != i {
                            assert(self.segment_at(k) == before.segment_at(k));
                        }
                    }
                    assert(self.spec_next_id() == before.spec_next_id());
                    assert forall|k: int| 0 <= k < self.spec_len() implies #[trigger] self.id_at(k)
                        < self.spec_next_id() by {
                        assert(before.id_at(k) < before.spec_next_id());
                    }
                    assert forall|a: int, b: int|
                        0 <= a < b < self.spec_len() implies #[trigger] self.id_at(a)
                        != #[trigger] self.id_at(b) by {
                        assert(before.id_at(a) != before.id_at(b));
                    }
                    assert forall|a: int, b: int, p: PointIdType|
                        #![trigger self.held_at(p, a), self.held_at(p, b)]
                        self.held_at(p, a) && self.held_at(p, b) implies a == b by {
                        assert(before.held_at(p, a) && before.held_at(p, b));
                    }
                    assert forall|k: int| 0 <= k < self.spec_len() implies (
                    #[trigger] self.segment_at(k)).wf() by {
                        if k != i {
                            assert(before.segment_at(k).wf());
                        }
                    }
                    assert(self.wf());
                    assert(self.is_held(id) == before.is_held(id)) by {
                        if self.is_held(id) {
                            let k = self.position_of(id);
                            assert(before.held_at(id, k));
                        }
                        if before.is_held(id) {
                            let k = before.position_of(id);
                            assert(self.held_at(id, k));
                        }
                    }
                    if before.is_held(id) {
                        self.lemma_held(id, i as int);
                    }
                }
                return Err(e);
            },
        };
        let ghost written = *self;
        if payload.is_some() {
            match self.segments[i].1.set_payload(op_num, id, payload) {
                Ok(_) => {},
                Err(e) => {
                    assert(false);
                    return Err(e);
                },
            }
        }
        proof {
            assert forall|k: int| 0 <= k < self.spec_len() implies self.id_at(k) == before.id_at(k)
                && (k != i ==> self.segment_at(k) == before.segment_at(k)) by {
                assert(written.id_at(k) == before.id_at(k));
                if k != i {
                    assert(written.segment_at(k) == before.segment_at(k));
                }
            }
            assert forall|k: int| 0 <= k < self.spec_len() implies (#[trigger] self.segment_at(k)).wf() by {
                if k != i {
                    assert(before.segment_at(k).wf());
                }
            }
            assert forall|k: int, other: PointIdType|
                #![trigger self.segment_at(k).point(other)]
                0 <= k < self.spec_len() && other != id implies self.segment_at(k).point(other)
                == before.segment_at(k).point(other) by {
                if k == i {
                    assert(self.segment_at(k).point(other) == written.segment_at(k).point(other));
                    assert(written.segment_at(k).point(other) == before.segment_at(k).point(other));
                }
            }
            assert forall|a: int, b: int, p: PointIdType|
                #![trigger self.held_at(p, a), self.held_at(p, b)]
                self.held_at(p, a) && self.held_at(p, b) implies a == b by {
                if p != id {
                    assert(self.segment_at(a).point(p) == before.segment_at(a).point(p));
                    assert(self.segment_at(b).point(p) == before.segment_at(b).point(p));
                    assert(before.held_at(p, a) && before.held_at(p, b));
                } else {
                    if a != i {
                        assert(before.held_at(id, a));
                        assert(before.is_held(id));
                        assert(before.held_at(id, i as int));
                    }
                    if b != i {
                        assert(before.held_at(id, b));
                        assert(before.is_held(id));
                        assert(before.held_at(id, i as int));
                    }
                }
            }
            assert(self.spec_next_id() == before.spec_next_id());
            assert forall|k: int| 0 <= k < self.spec_len() implies #[trigger] self.id_at(k)
                < self.spec_next_id() by {
                assert(before.id_at(k) < before.spec_next_id());
            }
            assert forall|a: int, b: int| 0 <= a < b < self.spec_len() implies #[trigger] self.id_at(
                a,
            ) != #[trigger] self.id_at(b) by {
                assert(before.id_at(a) != before.id_at(b));
            }
            assert(self.wf());
            assert(self.held_at(id, i as int));
            self.lemma_held(id, i as int);
            assert(before.point(id) == before.segment_at(i as int).point(id)) by {
                if !before.is_held(id) {
                    assert(!before.held_at(id, i as int));
                }
            }
        }
        Ok(replaced)
    }
}


impl SegmentHolder {
    /// The position of the smallest segment that takes writes among the
    /// first `n`: the one that readers see the fewest points of, the first
    /// of them where several are as small.
    pub open spec fn spec_smallest(&self, n: int) -> Option<int>
        decreases n,
    {
        if n <= 0 {
            None
        } else {
            match self.spec_smallest(n - 1) {
                Some(best) => if self.segment_at(n - 1).spec_is_appendable() && self.segment_at(
                    n - 1,
                ).spec_available() < self.segment_at(best).spec_available() {
                    Some(n - 1)
                } else {
                    Some(best)
                },
                None => if self.segment_at(n - 1).spec_is_appendable() {
                    Some(n - 1)
                } else {
                    None
                },
            }
        }
    }

    /// The smallest appendable segment among the first `n` is one of them
    /// and appendable; there is none only where none of them is appendable.
    pub proof fn lemma_smallest(&self, n: int)
        requires
            0 <= n <= self.spec_len(),
        ensures
            match self.spec_smallest(n) {
                Some(best) => 0 <= best < n && self.segment_at(best).spec_is_appendable(),
                None => forall|k: int| 0 <= k < n ==> !(#[trigger] self.segment_at(k)).spec_is_appendable(),
            },
        decreases n,
    {
        if n > 0 {
            self.lemma_smallest(n - 1);
        }
    }

    fn smallest_appendable_index(&self) -> (r: Option<usize>)
        requires
            self.wf(),
        ensures
            match r {
                Some(i) => self.spec_smallest(self.spec_len() as int) == Some(i as int) && i
                    < self.spec_len() && self.segment_at(i as int).spec_is_appendable(),
                None => self.spec_smallest(self.spec_len() as int) is None,
            },
    {
        let mut best: Option<usize> = None;
        let mut best_count: usize = 0;
        let mut i: usize = 0;
        while i < self.segments.len()
            invariant
                i <= self.segments.len(),
                self.wf(),
                match best {
                    Some(b) => self.spec_smallest(i as int) == Some(b as int) && b < i && best_count
                        == self.segment_at(b as int).spec_available() && self.segment_at(
                        b as int,
                    ).spec_is_appendable(),
                    None => self.spec_smallest(i as int) is None,
                },
            decreases self.segments.len() - i,
        {
            assert(self.segment_at(i as int).wf());
            if self.segments[i].1.is_appendable() {
                let count: usize = self.segments[i].1.available_point_count();
                let better: bool = match best {
                    Some(_) => count < best_count,
                    None => true,
                };
                if better {
                    best = Some(i);
                    best_count = count;
                }
            }
            i = i + 1;
        }
        best
    }

    /// The id of the smallest segment that takes writes.
    pub fn smallest_appendable_segment(&self) -> (r: Option<SegmentId>)
        requires
            self.wf(),
        ensures
            match self.spec_smallest(self.spec_len() as int) {
                Some(i) => r == Some(self.id_at(i)),
                None => r is None,
            },
    {
        match self.smallest_appendable_index() {
            Some(i) => Some(self.segments[i].0),
            None => None,
        }
    }

    /// Moves a point from one segment into another, as it is.
    fn move_point(&mut self, from: usize, to: usize, id: PointIdType) -> (r: Result<
        (),
        SegmentError,
    >)
        requires
            old(self).wf(),
            from < old(self).spec_len(),
            to < old(self).spec_len(),
            from != to,
            old(self).held_at(id, from as int),
        ensures
            final(self).wf(),
            final(self).same_frame(old(self)),
            final(self).same_but(old(self), id),
            final(self).point(id) == old(self).point(id),
            forall|k: int|
                0 <= k < final(self).spec_len() && k != to ==> (#[trigger] final(self).segment_at(
                    k,
                )).spec_used() == old(self).segment_at(k).spec_used(),
            final(self).segment_at(to as int).spec_used() <= old(self).segment_at(to as int).spec_used()
                + 1,
            old(self).segment_at(to as int).spec_used() < u32::MAX ==> r is Ok,
            r is Ok ==> final(self).held_at(id, to as int),
            r is Err ==> final(self).held_at(id, from as int),
    {
        let ghost before = *self;
        proof {
            before.lemma_held(id, from as int);
            assert(before.segment_at(from as int).wf());
            assert(before.segment_at(to as int).wf());
            assert(!before.held_at(id, to as int));
        }
        let version: SeqNumberType = match self.segments[from].1.point_version(id) {
            Some(v) => v,
            None => 0,
        };
        let vector: Vec<u32> = match self.segments[from].1.get_vector(id) {
            Some(v) => v,
            None => Vec::new(),
        };
        let payload: Option<Vec<u8>> = self.segments[from].1.payload(id);
        match self.apply_at_unchecked(to, version, id, vector, payload) {
            Err(e) => {
                proof {
                    assert forall|k: int, p: PointIdType|
                        0 <= k < self.spec_len() implies #[trigger] self.segment_at(k).point(p)
                        == before.segment_at(k).point(p) by {
                        if k != to {
                            assert(self.segment_at(k) == before.segment_at(k));
                        }
                    }
                    assert forall|k: int| 0 <= k < self.spec_len() implies (
                    #[trigger] self.segment_at(k)).wf() && self.segment_at(k).spec_is_appendable()
                        == before.segment_at(k).spec_is_appendable() by {
                        if k != to {
                            assert(self.segment_at(k) == before.segment_at(k));
                        }
                        assert(before.segment_at(k).wf());
                    }
                    self.lemma_frame_keeps_wf(&before);
                    assert(self.held_at(id, from as int));
                    self.lemma_held(id, from as int);
                }
                return Err(e);
            },
            Ok(()) => {},
        }
        let ghost copied = *self;
        self.segments[from].1.delete_point(version, id);
        proof {
            assert forall|k: int| 0 <= k < self.spec_len() implies self.id_at(k) == before.id_at(k)
                && (#[trigger] self.segment_at(k)).wf() && self.segment_at(k).spec_is_appendable()
                == before.segment_at(k).spec_is_appendable() by {
                assert(copied.id_at(k) == before.id_at(k));
                if k != from {
                    assert(self.segment_at(k) == copied.segment_at(k));
                }
                if k != to {
                    assert(copied.segment_at(k) == before.segment_at(k));
                }
                assert(before.segment_at(k).wf());
            }
            assert(self.spec_next_id() == before.spec_next_id());
            assert forall|k: int| 0 <= k < self.spec_len() implies #[trigger] self.id_at(k)
                < self.spec_next_id() by {
                assert(before.id_at(k) < before.spec_next_id());
            }
            assert forall|a: int, b: int| 0 <= a < b < self.spec_len() implies #[trigger] self.id_at(
                a,
            ) != #[trigger] self.id_at(b) by {
                assert(before.id_at(a) != before.id_at(b));
            }
            assert forall|k: int, other: PointIdType|
                #![trigger self.segment_at(k).point(other)]
                0 <= k < self.spec_len() && other != id implies self.segment_at(k).point(other)
                == before.segment_at(k).point(other) by {
                if k != from {
                    assert(self.segment_at(k) == copied.segment_at(k));
                } else {
                    assert(self.segment_at(k).point(other) == copied.segment_at(k).point(other));
                }
                if k != to {
                    assert(copied.segment_at(k) == before.segment_at(k));
                } else {
                    assert(copied.segment_at(k).point(other) == before.segment_at(k).point(other));
                }
            }
            assert(self.segment_at(from as int).point(id) is None);
            assert(self.segment_at(to as int).point(id) == before.segment_at(from as int).point(id));
            assert forall|a: int, b: int, p: PointIdType|
                #![trigger self.held_at(p, a), self.held_at(p, b)]
                self.held_at(p, a) && self.held_at(p, b) implies a == b by {
                if p != id {
                    assert(self.segment_at(a).point(p) == before.segment_at(a).point(p));
                    assert(self.segment_at(b).point(p) == before.segment_at(b).point(p));
                    assert(before.held_at(p, a) && before.held_at(p, b));
                } else {
                    if a != to {
                        assert(a != from);
                        assert(self.segment_at(a) == before.segment_at(a));
                        assert(before.held_at(id, a) && before.held_at(id, from as int));
                    }
                    if b != to {
                        assert(b != from);
                        assert(self.segment_at(b) == before.segment_at(b));
                        assert(before.held_at(id, b) && before.held_at(id, from as int));
                    }
                }
            }
            assert(self.wf());
            assert(self.held_at(id, to as int));
            self.lemma_held(id, to as int);
        }
        Ok(())
    }

    /// Where the segments are as before, the holder is well formed as
    /// before.
    proof fn lemma_frame_keeps_wf(&self, before: &SegmentHolder)
        requires
            before.wf(),
            self.spec_len() == before.spec_len(),
            self.spec_next_id() == before.spec_next_id(),
            forall|k: int| 0 <= k < self.spec_len() ==> self.id_at(k) == before.id_at(k),
            forall|k: int|
                0 <= k < self.spec_len() ==> (#[trigger] self.segment_at(k)).wf() && self.segment_at(
                    k,
                ).spec_is_appendable() == before.segment_at(k).spec_is_appendable(),
            forall|k: int, p: PointIdType|
                0 <= k < self.spec_len() ==> #[trigger] self.segment_at(k).point(p)
                    == before.segment_at(k).point(p),
        ensures
            self.wf(),
            self.same_frame(before),
            forall|id: PointIdType| self.same_but(before, id),
            forall|id: PointIdType| self.is_held(id) == before.is_held(id) && self.point(id) == before.point(id),
    {
        assert forall|k: int| 0 <= k < self.spec_len() implies #[trigger] self.id_at(k)
            < self.spec_next_id() by {
            assert(before.id_at(k) < before.spec_next_id());
        }
        assert forall|a: int, b: int| 0 <= a < b < self.spec_len() implies #[trigger] self.id_at(a)
            != #[trigger] self.id_at(b) by {
            assert(before.id_at(a) != before.id_at(b));
        }
        assert forall|a: int, b: int, p: PointIdType|
            #![trigger self.held_at(p, a), self.held_at(p, b)]
            self.held_at(p, a) && self.held_at(p, b) implies a == b by {
            assert(self.segment_at(a).point(p) == before.segment_at(a).point(p));
            assert(self.segment_at(b).point(p) == before.segment_at(b).point(p));
            assert(before.held_at(p, a) && before.held_at(p, b));
        }
        assert forall|id: PointIdType| self.is_held(id) == before.is_held(id) && self.point(id)
            == before.point(id) by {
            if self.is_held(id) {
                let k = self.position_of(id);
                assert(self.held_at(id, k));
                assert(self.segment_at(k).point(id) == before.segment_at(k).point(id));
                assert(before.held_at(id, k));
                before.lemma_held(id, k);
                self.lemma_held(id, k);
            }
            if before.is_held(id) {
                let k = before.position_of(id);
                assert(before.held_at(id, k));
                assert(self.segment_at(k).point(id) == before.segment_at(k).point(id));
                assert(self.held_at(id, k));
            }
        }
    }

    /// Copies a point into the segment at a position, whether or not
    /// another segment holds it: the holder is left in need of repair.
    fn apply_at_unchecked(
        &mut self,
        i: usize,
        version: SeqNumberType,
        id: PointIdType,
        vector: Vec<u32>,
        payload: Option<Vec<u8>>,
    ) -> (r: Result<(), SegmentError>)
        requires
            i < old(self).spec_len(),
            old(self).segment_at(i as int).wf(),
            old(self).segment_at(i as int).point(id) is None,
        ensures
            final(self).spec_len() == old(self).spec_len(),
            final(self).spec_next_id() == old(self).spec_next_id(),
            forall|k: int| 0 <= k < final(self).spec_len() ==> final(self).id_at(k) == old(self).id_at(k),
            forall|k: int|
                0 <= k < final(self).spec_len() && k != i ==> final(self).segment_at(k) == old(self).segment_at(k),
            final(self).segment_at(i as int).wf(),
            final(self).segment_at(i as int).same_but(&old(self).segment_at(i as int), id),
            final(self).segment_at(i as int).spec_used() <= old(self).segment_at(i as int).spec_used()
                + 1,
            old(self).segment_at(i as int).spec_used() < u32::MAX ==> r is Ok,
            r is Err ==> final(self).segment_at(i as int).point(id) is None,
            r is Ok ==> final(self).segment_at(i as int).point(id) == Some(
                PointView { version, vector: vector@, payload: payload_view(payload) },
            ),
    {
        let ghost before = *self;
        match self.segments[i].1.upsert_point(version, id, vector) {
            Ok(_) => {},
            Err(e) => {
                return Err(e);
            },
        }
        let ghost written = *self;
        match self.segments[i].1.set_payload(version, id, payload) {
            Ok(_) => {},
            Err(e) => {
                assert(false);
                return Err(e);
            },
        }
        proof {
            assert forall|other: PointIdType| other != id implies #[trigger] self.segment_at(
                i as int,
            ).point(other) == before.segment_at(i as int).point(other) by {
                assert(self.segment_at(i as int).point(other) == written.segment_at(i as int).point(
                    other,
                ));
            }
        }
        Ok(())
    }
}


/// The position of the last point of the request that has the id.
pub open spec fn last_index(points: Seq<PointStruct>, id: PointIdType) -> Option<int>
    decreases points.len(),
{
    if points.len() == 0 {
        None
    } else if points.last().id == id {
        Some(points.len() - 1)
    } else {
        last_index(points.drop_last(), id)
    }
}

/// True when one of the first `n` points of the request has the id.
pub open spec fn names(points: Seq<PointStruct>, id: PointIdType, n: int) -> bool {
    exists|j: int| 0 <= j < n && j < points.len() && points[j].id == id
}

/// The last place that names a point is a place of the list that names
/// it; there is none only where no place names the point.
pub proof fn lemma_last_index(points: Seq<PointStruct>, id: PointIdType)
    ensures
        match last_index(points, id) {
            Some(k) => 0 <= k < points.len() && points[k].id == id,
            None => !names(points, id, points.len() as int),
        },
    decreases points.len(),
{
    if points.len() > 0 && points.last().id != id {
        let init = points.drop_last();
        lemma_last_index(init, id);
        if last_index(init, id) is None {
            if names(points, id, points.len() as int) {
                let j = choose|j: int| 0 <= j < points.len() && j < points.len() && points[j].id == id;
                assert(init[j].id == id);
                assert(names(init, id, init.len() as int));
            }
        } else {
            let k = last_index(init, id)->Some_0;
            assert(init[k] == points[k]);
        }
    } else if points.len() == 0 {
        if names(points, id, 0) {
            let j = choose|j: int| 0 <= j < 0 && j < points.len() && points[j].id == id;
        }
    }
}

/// The point after the request: written as the last point of the request
/// with its id says, or as it was where the request does not name it.
pub open spec fn expected(
    prior: Option<PointView>,
    op_num: SeqNumberType,
    points: Seq<PointStruct>,
    id: PointIdType,
) -> Option<PointView> {
    match last_index(points, id) {
        Some(k) => Some(applied(prior, op_num, points[k].vector@, payload_view(points[k].payload))),
        None => prior,
    }
}

fn copy_bytes(bytes: &Vec<u8>) -> (r: Vec<u8>)
    ensures
        r@ == bytes@,
{
    crate::multi_dense_storage::copy_vector(bytes)
}

/// Position of the last point of the request that has the id of the point
/// at `k`.
fn last_occurrence(points: &Vec<PointStruct>, k: usize) -> (r: usize)
    requires
        k < points.len(),
    ensures
        r < points.len(),
        last_index(points@, points@[k as int].id) == Some(r as int),
{
    let id: PointIdType = points[k].id;
    let mut j: usize = points.len() - 1;
    proof {
        assert(points@.take(points@.len() as int) =~= points@);
    }
    while points[j].id != id
        invariant
            k <= j < points.len(),
            id == points@[k as int].id,
            last_index(points@, id) == last_index(points@.take(j as int + 1), id),
        decreases j,
    {
        proof {
            assert(points@.take(j as int + 1).drop_last() =~= points@.take(j as int));
            assert(points@.take(j as int + 1).last() == points@[j as int]);
        }
        j = j - 1;
    }
    proof {
        assert(points@.take(j as int + 1).last() == points@[j as int]);
    }
    j
}

impl SegmentHolder {
    /// Number of points among the first `n` of the request that the shard
    /// held before.
    pub open spec fn held_count(&self, points: Seq<PointStruct>, n: int) -> nat
        decreases n,
    {
        if n <= 0 {
            0
        } else {
            self.held_count(points, n - 1) + if self.is_held(points[n - 1].id) {
                1nat
            } else {
                0nat
            }
        }
    }

    /// Number of points among the first `n` of the request that the shard
    /// did not hold before and that the request names earlier.
    pub open spec fn repeat_count(&self, points: Seq<PointStruct>, n: int) -> nat
        decreases n,
    {
        if n <= 0 {
            0
        } else {
            self.repeat_count(points, n - 1) + if !self.is_held(points[n - 1].id) && names(
                points,
                points[n - 1].id,
                n - 1,
            ) {
                1nat
            } else {
                0nat
            }
        }
    }

    proof fn lemma_counts_bounded(&self, points: Seq<PointStruct>, n: int)
        requires
            0 <= n,
        ensures
            self.held_count(points, n) + self.repeat_count(points, n) <= n,
        decreases n,
    {
        if n > 0 {
            self.lemma_counts_bounded(points, n - 1);
        }
    }

    /// True when some segment takes writes.
    pub open spec fn has_appendable(&self) -> bool {
        self.spec_smallest(self.spec_len() as int) is Some
    }

    /// True when every segment has offsets left for a request of `n`
    /// points, wherever its points go.
    pub open spec fn has_room(&self, n: nat) -> bool {
        forall|i: int|
            0 <= i < self.spec_len() ==> (#[trigger] self.segment_at(i)).spec_used() + 3 * n
                <= u32::MAX
    }

    /// Writes the points of a request at version `op_num`. A point that the
    /// shard holds is written where it is, or, where its segment takes no
    /// writes, is moved to the smallest segment that does and written
    /// there. The points that the shard does not hold go to the segment
    /// that is the smallest once the others are written. Gives the number
    /// of points that were there to be written over.
    pub fn upsert_points(&mut self, op_num: SeqNumberType, points: &Vec<PointStruct>) -> (r: Result<
        usize,
        OperationError,
    >)
        requires
            old(self).wf(),
        ensures
            final(self).wf(),
            final(self).same_frame(old(self)),
            !old(self).has_appendable() ==> (r matches Err(
                OperationError::ServiceError { description },
            ) && description@ == "No appendable segments exists, expected at least one"@),
            !old(self).has_appendable() ==> forall|id: PointIdType|
                final(self).point(id) == old(self).point(id),
            old(self).has_appendable() && old(self).has_room(points@.len()) ==> r is Ok,
            old(self).has_appendable() ==> (r matches Err(e) ==> (e matches OperationError::ServiceError {
                description,
            } && description@ == "Segment has no room for another point"@)),
            r matches Ok(count) ==> {
                &&& forall|id: PointIdType|
                    final(self).point(id) == expected(old(self).point(id), op_num, points@, id)
                &&& count == old(self).held_count(points@, points@.len() as int) + old(self).repeat_count(points@, points@.len() as int)
                &&& (forall|k: int| 0 <= k < points@.len() ==> !old(self).is_held(points@[k].id))
                    ==> forall|k: int|
                    0 <= k < points@.len() ==> #[trigger] final(self).held_at(
                        points@[k].id,
                        old(self).spec_smallest(old(self).spec_len() as int)->Some_0,
                    )
            },
    {
        let ghost start = *self;
        let n: usize = points.len();
        if self.smallest_appendable_index().is_none() {
            return Err(
                OperationError::ServiceError {
                    description: "No appendable segments exists, expected at least one".to_string(),
                },
            );
        }
        let mut res: usize = 0;
        let mut found: Vec<bool> = Vec::new();
        let ghost mut touched: bool = false;
        let mut k: usize = 0;
        proof {
            start.lemma_same_frame_smallest(&start, start.spec_len() as int);
        }
        while k < n
            invariant
                k <= n,
                n == points@.len(),
                start.wf(),
                start.has_appendable(),
                self.wf(),
                self.same_frame(&start),
                forall|id: PointIdType| self.is_held(id) == start.is_held(id),
                forall|id: PointIdType|
                    #![trigger self.point(id)]
                    self.point(id) == if start.is_held(id) && names(points@, id, k as int) {
                        expected(start.point(id), op_num, points@, id)
                    } else {
                        start.point(id)
                    },
                found@.len() == k,
                forall|j: int| 0 <= j < k ==> found@[j] == start.is_held(points@[j].id),
                res == start.held_count(points@, k as int),
                forall|i: int|
                    0 <= i < self.spec_len() ==> (#[trigger] self.segment_at(i)).spec_used()
                        <= start.segment_at(i).spec_used() + 2 * k,
                start == *old(self),
                !touched ==> forall|i: int|
                    0 <= i < self.spec_len() ==> #[trigger] self.segment_at(i) == start.segment_at(i),
                touched ==> names_held(&start, points@, k as int),
            decreases n - k,
        {
            let id: PointIdType = points[k].id;
            let last: usize = last_occurrence(points, k);
            let ghost before = *self;
            proof {
                start.lemma_counts_bounded(points@, k as int);
                assert(names(points@, id, k as int + 1));
            }
            match self.find(id) {
                None => {
                    found.push(false);
                    proof {
                        assert forall|p: PointIdType|
                            #![trigger self.point(p)]
                            self.point(p) == if start.is_held(p) && names(
                                points@,
                                p,
                                k as int + 1,
                            ) {
                                expected(start.point(p), op_num, points@, p)
                            } else {
                                start.point(p)
                            } by {
                            if start.is_held(p) && names(points@, p, k as int + 1) {
                                let j = choose|j: int|
                                    0 <= j < k + 1 && j < points@.len() && points@[j].id == p;
                                assert(j < k);
                                assert(names(points@, p, k as int));
                            } else if names(points@, p, k as int) {
                                let j = choose|j: int|
                                    0 <= j < k && j < points@.len() && points@[j].id == p;
                                assert(names(points@, p, k as int + 1));
                            }
                        }
                        if touched {
                            let w = choose|w: int|
                                0 <= w < k && w < points@.len() && start.is_held(points@[w].id);
                            assert(names_held(&start, points@, k as int + 1));
                        }
                    }
                },
                Some(i) => {
                    found.push(true);
                    proof {
                        before.lemma_held(id, i as int);
                        assert(before.segment_at(i as int).wf());
                        before.lemma_smallest(before.spec_len() as int);
                        start.lemma_same_frame_smallest(&before, start.spec_len() as int);
                    }
                    let vector: Vec<u32> = crate::multi_dense_storage::copy_vector(
                        &points[last].vector,
                    );
                    let payload: Option<Vec<u8>> = match &points[last].payload {
                        Some(bytes) => Some(copy_bytes(bytes)),
                        None => None,
                    };
                    let at: usize = if self.segments[i].1.is_appendable() {
                        i
                    } else {
                        let to: usize = match self.smallest_appendable_index() {
                            Some(t) => t,
                            None => {
                                assert(false);
                                0
                            },
                        };
                        match self.move_point(i, to, id) {
                            Ok(()) => {},
                            Err(_) => {
                                proof {
                                    let now = *self;
                                    now.lemma_frame_chain(&before, &start);
                                    assert(before.segment_at(to as int).spec_used()
                                        <= start.segment_at(to as int).spec_used() + 2 * k);
                                }
                                return Err(
                                    OperationError::ServiceError {
                                        description: "Segment has no room for another point".to_string(),
                                    },
                                );
                            },
                        }
                        to
                    };
                    let ghost moved = *self;
                    proof {
                        moved.lemma_held(id, at as int);
                    }
                    proof {
                        let now = *self;
                        if at != i {
                            now.lemma_frame_chain(&before, &start);
                        }
                        assert(moved.segment_at(at as int).spec_used() <= before.segment_at(
                            at as int,
                        ).spec_used() + 1);
                        assert(before.segment_at(at as int).spec_used() <= start.segment_at(
                            at as int,
                        ).spec_used() + 2 * k);
                    }
                    match self.apply_at(at, op_num, id, vector, payload) {
                        Ok(_) => {},
                        Err(_) => {
                            proof {
                                let now = *self;
                                now.lemma_frame_chain(&moved, &start);
                            }
                            return Err(
                                OperationError::ServiceError {
                                    description: "Segment has no room for another point".to_string(),
                                },
                            );
                        },
                    }
                    res = res + 1;
                    proof {
                        let now = *self;
                        now.lemma_frame_chain(&moved, &start);
                        touched = true;
                        assert(names_held(&start, points@, k as int + 1)) by {
                            assert(start.is_held(points@[k as int].id));
                        }
                        assert forall|p: PointIdType| self.is_held(p) == start.is_held(p) by {
                            if p != id {
                                self.lemma_same_but(&moved, id, p);
                                moved.lemma_same_but(&before, id, p);
                            } else {
                                assert(self.held_at(id, at as int));
                            }
                        }
                        lemma_applied_twice(
                            start.point(id),
                            op_num,
                            points@[last as int].vector@,
                            payload_view(points@[last as int].payload),
                        );
                        assert forall|p: PointIdType|
                            #![trigger self.point(p)]
                            self.point(p) == if start.is_held(p) && names(
                                points@,
                                p,
                                k as int + 1,
                            ) {
                                expected(start.point(p), op_num, points@, p)
                            } else {
                                start.point(p)
                            } by {
                            if p != id {
                                self.lemma_same_but(&moved, id, p);
                                moved.lemma_same_but(&before, id, p);
                                assert(self.point(p) == before.point(p));
                                if names(points@, p, k as int + 1) {
                                    let j = choose|j: int|
                                        0 <= j < k + 1 && j < points@.len() && points@[j].id == p;
                                    assert(j < k);
                                    assert(names(points@, p, k as int));
                                } else if names(points@, p, k as int) {
                                    let j = choose|j: int|
                                        0 <= j < k && j < points@.len() && points@[j].id == p;
                                    assert(names(points@, p, k as int + 1));
                                }
                            } else {
                                assert(moved.point(id) == before.point(id));
                            }
                        }
                        assert forall|q: int| 0 <= q < self.spec_len() implies (
                        #[trigger] self.segment_at(q)).spec_used() <= start.segment_at(q).spec_used()
                            + 2 * (k + 1) by {
                            assert(before.segment_at(q).spec_used() <= start.segment_at(
                                q,
                            ).spec_used() + 2 * k);
                            assert(moved.segment_at(q).spec_used() <= before.segment_at(
                                q,
                            ).spec_used() + 1);
                            if q != at {
                                assert(self.segment_at(q) == moved.segment_at(q));
                            }
                        }
                    }
                },
            }
            k = k + 1;
        }
        let target: usize = match self.smallest_appendable_index() {
            Some(t) => t,
            None => {
                proof {
                    let now = *self;
                    start.lemma_same_frame_smallest(&now, start.spec_len() as int);
                }
                assert(false);
                0
            },
        };
        let ghost updated = *self;
        let mut k: usize = 0;
        while k < n
            invariant
                k <= n,
                n == points@.len(),
                start.wf(),
                updated.wf(),
                self.wf(),
                self.same_frame(&start),
                target < self.spec_len(),
                updated.spec_smallest(updated.spec_len() as int) == Some(target as int),
                !touched ==> forall|i: int|
                    0 <= i < updated.spec_len() ==> #[trigger] updated.segment_at(i) == start.segment_at(
                        i,
                    ),
                touched ==> names_held(&start, points@, n as int),
                found@.len() == n,
                forall|j: int| 0 <= j < n ==> found@[j] == start.is_held(points@[j].id),
                forall|id: PointIdType|
                    #![trigger self.point(id)]
                    start.is_held(id) ==> self.is_held(id) && self.point(id) == if names(
                        points@,
                        id,
                        n as int,
                    ) {
                        expected(start.point(id), op_num, points@, id)
                    } else {
                        start.point(id)
                    },
                forall|id: PointIdType|
                    #![trigger self.is_held(id)]
                    !start.is_held(id) ==> (self.is_held(id) <==> names(points@, id, k as int)),
                forall|id: PointIdType|
                    #![trigger self.is_held(id)]
                    !start.is_held(id) && self.is_held(id) ==> self.held_at(id, target as int)
                        && self.point(id) == expected(None, op_num, points@, id),
                res == start.held_count(points@, n as int) + start.repeat_count(points@, k as int),
                forall|i: int|
                    0 <= i < self.spec_len() ==> (#[trigger] self.segment_at(i)).spec_used()
                        <= start.segment_at(i).spec_used() + 2 * n + k,
                start == *old(self),
                start.has_appendable(),
            decreases n - k,
        {
            let id: PointIdType = points[k].id;
            let ghost before = *self;
            proof {
                start.lemma_counts_mixed(points@, n as int, k as int + 1);
            }
            if !found[k] {
                match self.find(id) {
                    Some(_) => {
                        res = res + 1;
                        proof {
                            assert(names(points@, id, k as int));
                            assert forall|p: PointIdType|
                                #![trigger self.is_held(p)]
                                !start.is_held(p) implies (self.is_held(p) <==> names(
                                    points@,
                                    p,
                                    k as int + 1,
                                )) by {
                                if names(points@, p, k as int + 1) {
                                    let j = choose|j: int|
                                        0 <= j < k + 1 && j < points@.len() && points@[j].id == p;
                                    if j == k {
                                        assert(p == id);
                                    } else {
                                        assert(names(points@, p, k as int));
                                    }
                                }
                                if names(points@, p, k as int) {
                                    let j = choose|j: int|
                                        0 <= j < k && j < points@.len() && points@[j].id == p;
                                    assert(names(points@, p, k as int + 1));
                                }
                            }
                        }
                    },
                    None => {
                        let last: usize = last_occurrence(points, k);
                        let vector: Vec<u32> = crate::multi_dense_storage::copy_vector(
                            &points[last].vector,
                        );
                        let payload: Option<Vec<u8>> = match &points[last].payload {
                            Some(bytes) => Some(copy_bytes(bytes)),
                            None => None,
                        };
                        proof {
                            assert(before.segment_at(target as int).spec_used()
                                <= start.segment_at(target as int).spec_used() + 2 * n + k);
                        }
                        match self.apply_at(target, op_num, id, vector, payload) {
                            Ok(_) => {},
                            Err(_) => {
                                proof {
                                    let now = *self;
                                    now.lemma_frame_chain(&before, &start);
                                }
                                return Err(
                                    OperationError::ServiceError {
                                        description: "Segment has no room for another point".to_string(),
                                    },
                                );
                            },
                        }
                        proof {
                            let now = *self;
                            now.lemma_frame_chain(&before, &start);
                            assert(!names(points@, id, k as int));
                            assert(names(points@, id, k as int + 1));
                            assert forall|p: PointIdType|
                                #![trigger self.point(p)]
                                start.is_held(p) implies self.is_held(p) && self.point(p) == if names(
                                    points@,
                                    p,
                                    n as int,
                                ) {
                                    expected(start.point(p), op_num, points@, p)
                                } else {
                                    start.point(p)
                                } by {
                                assert(p != id);
                                self.lemma_same_but(&before, id, p);
                                assert(before.point(p) == if names(points@, p, n as int) {
                                    expected(start.point(p), op_num, points@, p)
                                } else {
                                    start.point(p)
                                });
                            }
                            assert forall|p: PointIdType|
                                #![trigger self.is_held(p)]
                                !start.is_held(p) implies (self.is_held(p) <==> names(
                                    points@,
                                    p,
                                    k as int + 1,
                                )) by {
                                if p != id {
                                    self.lemma_same_but(&before, id, p);
                                    if names(points@, p, k as int + 1) {
                                        let j = choose|j: int|
                                            0 <= j < k + 1 && j < points@.len() && points@[j].id
                                                == p;
                                        assert(j < k);
                                        assert(names(points@, p, k as int));
                                    }
                                    if names(points@, p, k as int) {
                                        let j = choose|j: int|
                                            0 <= j < k && j < points@.len() && points@[j].id == p;
                                        assert(names(points@, p, k as int + 1));
                                    }
                                } else {
                                    assert(self.held_at(id, target as int));
                                }
                            }
                            assert forall|p: PointIdType|
                                #![trigger self.is_held(p)]
                                !start.is_held(p) && self.is_held(p) implies self.held_at(
                                    p,
                                    target as int,
                                ) && self.point(p) == expected(None, op_num, points@, p) by {
                                if p != id {
                                    self.lemma_same_but(&before, id, p);
                                    assert(before.is_held(p));
                                    assert(before.held_at(p, target as int));
                                    assert(self.segment_at(target as int).point(p)
                                        == before.segment_at(target as int).point(p));
                                } else {
                                    assert(before.point(id) is None);
                                }
                            }
                            assert forall|q: int| 0 <= q < self.spec_len() implies (
                            #[trigger] self.segment_at(q)).spec_used() <= start.segment_at(
                                q,
                            ).spec_used() + 2 * n + k + 1 by {
                                assert(before.segment_at(q).spec_used() <= start.segment_at(
                                    q,
                                ).spec_used() + 2 * n + k);
                                if q != target {
                                    assert(self.segment_at(q) == before.segment_at(q));
                                }
                            }
                        }
                    },
                }
            } else {
                proof {
                    assert(start.is_held(id));
                    assert forall|p: PointIdType|
                        #![trigger self.is_held(p)]
                        !start.is_held(p) implies (self.is_held(p) <==> names(
                            points@,
                            p,
                            k as int + 1,
                        )) by {
                        if names(points@, p, k as int + 1) {
                            let j = choose|j: int|
                                0 <= j < k + 1 && j < points@.len() && points@[j].id == p;
                            assert(j < k);
                            assert(names(points@, p, k as int));
                        }
                        if names(points@, p, k as int) {
                            let j = choose|j: int|
                                0 <= j < k && j < points@.len() && points@[j].id == p;
                            assert(names(points@, p, k as int + 1));
                        }
                    }
                }
            }
            k = k + 1;
        }
        proof {
            assert forall|id: PointIdType| self.point(id) == expected(
                start.point(id),
                op_num,
                points@,
                id,
            ) by {
                lemma_last_index(points@, id);
                if start.is_held(id) {
                    assert(self.point(id) == if names(points@, id, n as int) {
                        expected(start.point(id), op_num, points@, id)
                    } else {
                        start.point(id)
                    });
                    if last_index(points@, id) is Some {
                        let q = last_index(points@, id)->Some_0;
                        assert(names(points@, id, n as int));
                    }
                } else {
                    assert(start.point(id) is None);
                    if last_index(points@, id) is Some {
                        let q = last_index(points@, id)->Some_0;
                        assert(names(points@, id, n as int));
                        assert(self.is_held(id));
                        assert(self.held_at(id, target as int));
                    } else {
                        assert(!self.is_held(id));
                    }
                }
            }
            if forall|q: int| 0 <= q < points@.len() ==> !start.is_held(points@[q].id) {
                if touched {
                    let w = choose|w: int|
                        0 <= w < n && w < points@.len() && start.is_held(points@[w].id);
                    assert(false);
                }
                updated.lemma_same_segments_smallest(&start, start.spec_len() as int);
                assert forall|q: int| 0 <= q < points@.len() implies #[trigger] self.held_at(
                    points@[q].id,
                    start.spec_smallest(start.spec_len() as int)->Some_0,
                ) by {
                    let p = points@[q].id;
                    assert(names(points@, p, n as int));
                    assert(self.is_held(p));
                    assert(self.held_at(p, target as int));
                }
            }
        }
        Ok(res)
    }

    /// A holder framed as one that is framed as a third is framed as the
    /// third.
    proof fn lemma_frame_chain(&self, mid: &SegmentHolder, first: &SegmentHolder)
        requires
            self.same_frame(mid),
            mid.same_frame(first),
        ensures
            self.same_frame(first),
    {
        assert forall|k: int| 0 <= k < self.spec_len() implies #[trigger] self.id_at(k)
            == first.id_at(k) by {
            assert(mid.id_at(k) == first.id_at(k));
        }
        assert forall|k: int| 0 <= k < self.spec_len() implies (#[trigger] self.segment_at(
            k,
        )).spec_is_appendable() == first.segment_at(k).spec_is_appendable() by {
            assert(mid.segment_at(k).spec_is_appendable() == first.segment_at(
                k,
            ).spec_is_appendable());
        }
    }

    /// The points that were held and the repeats of those that were not are
    /// no more than the points.
    proof fn lemma_counts_mixed(&self, points: Seq<PointStruct>, n: int, k: int)
        requires
            0 <= k <= n,
        ensures
            self.held_count(points, n) + self.repeat_count(points, k) <= n,
        decreases n,
    {
        if k == n {
            self.lemma_counts_bounded(points, n);
        } else {
            self.lemma_counts_mixed(points, n - 1, k);
        }
    }

    /// Segments that take writes as before have a smallest one as before.
    proof fn lemma_same_frame_smallest(&self, other: &SegmentHolder, n: int)
        requires
            other.same_frame(self),
            0 <= n <= self.spec_len(),
        ensures
            self.spec_smallest(n) is Some <==> other.spec_smallest(n) is Some,
        decreases n,
    {
        if n > 0 {
            self.lemma_same_frame_smallest(other, n - 1);
            assert(other.segment_at(n - 1).spec_is_appendable() == self.segment_at(
                n - 1,
            ).spec_is_appendable());
        }
    }

    /// The same segments have the same smallest one.
    proof fn lemma_same_segments_smallest(&self, other: &SegmentHolder, n: int)
        requires
            0 <= n <= self.spec_len(),
            self.spec_len() == other.spec_len(),
            forall|i: int| 0 <= i < self.spec_len() ==> #[trigger] self.segment_at(i) == other.segment_at(i),
        ensures
            self.spec_smallest(n) == other.spec_smallest(n),
        decreases n,
    {
        if n > 0 {
            self.lemma_same_segments_smallest(other, n - 1);
            assert(self.segment_at(n - 1) == other.segment_at(n - 1));
            self.lemma_smallest(n - 1);
            if self.spec_smallest(n - 1) is Some {
                let b = self.spec_smallest(n - 1)->Some_0;
                assert(self.segment_at(b) == other.segment_at(b));
            }
        }
    }
}

/// True when the shard held one of the first `n` points of the request.
pub open spec fn names_held(holder: &SegmentHolder, points: Seq<PointStruct>, n: int) -> bool {
    exists|w: int| 0 <= w < n && w < points.len() && holder.is_held(points[w].id)
}


/// The segments that leave a holder when the ids are removed one after the
/// other: for each id, the first time it comes, the segment it names.
pub open spec fn removed_of(holder: &SegmentHolder, remove_ids: Seq<SegmentId>) -> Seq<LockedSegment>
    decreases remove_ids.len(),
{
    if remove_ids.len() == 0 {
        Seq::empty()
    } else if !remove_ids.drop_last().contains(remove_ids.last()) && holder.segment(
        remove_ids.last(),
    ) is Some {
        removed_of(holder, remove_ids.drop_last()).push(holder.segment(remove_ids.last())->Some_0)
    } else {
        removed_of(holder, remove_ids.drop_last())
    }
}

impl SegmentHolder {
    /// Takes a segment in under a new id in place of the segments with the
    /// given ids. Gives the new id and the segments that left. The points of
    /// the new segment may be held by segments that leave, by no others.
    pub fn swap_new(&mut self, segment: LockedSegment, remove_ids: &Vec<SegmentId>) -> (r: (
        SegmentId,
        Vec<LockedSegment>,
    ))
        requires
            old(self).wf(),
            segment.wf(),
            old(self).spec_next_id() < usize::MAX,
            forall|id: PointIdType|
                #![trigger segment.point(id)]
                segment.point(id) is Some && old(self).is_held(id) ==> remove_ids@.contains(
                    old(self).holder_of(id),
                ),
        ensures
            final(self).wf(),
            r.0 == old(self).spec_next_id(),
            final(self).spec_next_id() == r.0 + 1,
            final(self).segment(r.0) == Some(segment),
            forall|sid: SegmentId|
                sid != r.0 ==> #[trigger] final(self).segment(sid) == if remove_ids@.contains(sid) {
                    None
                } else {
                    old(self).segment(sid)
                },
            r.1@ == removed_of(old(self), remove_ids@),
    {
        let ghost start = *self;
        let mut removed: Vec<LockedSegment> = Vec::new();
        let mut k: usize = 0;
        proof {
            assert(remove_ids@.take(0) =~= Seq::<SegmentId>::empty());
        }
        while k < remove_ids.len()
            invariant
                k <= remove_ids.len(),
                start == *old(self),
                start.wf(),
                self.wf(),
                self.spec_next_id() == start.spec_next_id(),
                removed@ == removed_of(&start, remove_ids@.take(k as int)),
                forall|sid: SegmentId|
                    #![trigger self.segment(sid)]
                    self.segment(sid) == if remove_ids@.take(k as int).contains(sid) {
                        None
                    } else {
                        start.segment(sid)
                    },
                forall|id: PointIdType|
                    #![trigger self.is_held(id)]
                    self.is_held(id) ==> start.is_held(id) && self.holder_of(id) == start.holder_of(
                        id,
                    ) && !remove_ids@.take(k as int).contains(start.holder_of(id)),
            decreases remove_ids.len() - k,
        {
            let sid: SegmentId = remove_ids[k];
            let ghost before = *self;
            let ghost head = remove_ids@.take(k as int);
            let ghost head_next = remove_ids@.take(k as int + 1);
            proof {
                assert(head_next.drop_last() =~= head);
                assert(head_next.last() == sid);
                assert forall|x: SegmentId| head_next.contains(x) <==> (head.contains(x) || x
                    == sid) by {
                    if head.contains(x) {
                        let j = choose|j: int| 0 <= j < head.len() && head[j] == x;
                        assert(head_next[j] == x);
                    }
                    if x == sid {
                        assert(head_next[k as int] == x);
                    }
                    if head_next.contains(x) {
                        let j = choose|j: int| 0 <= j < head_next.len() && head_next[j] == x;
                        if j < k {
                            assert(head[j] == x);
                        }
                    }
                }
            }
            match self.remove(sid) {
                Some(gone) => {
                    removed.push(gone);
                },
                None => {},
            }
            proof {
                assert forall|x: SegmentId|
                    #![trigger self.segment(x)]
                    self.segment(x) == if head_next.contains(x) {
                        None
                    } else {
                        start.segment(x)
                    } by {
                    if x != sid {
                        assert(self.segment(x) == before.segment(x));
                    }
                }
                assert forall|id: PointIdType|
                    #![trigger self.is_held(id)]
                    self.is_held(id) implies start.is_held(id) && self.holder_of(id)
                    == start.holder_of(id) && !head_next.contains(start.holder_of(id)) by {
                    assert(before.is_held(id));
                }
            }
            k = k + 1;
        }
        proof {
            assert(remove_ids@.take(remove_ids@.len() as int) =~= remove_ids@);
            assert forall|id: PointIdType|
                #![trigger segment.point(id)]
                segment.point(id) is Some implies !self.is_held(id) by {
                if self.is_held(id) {
                    assert(start.is_held(id));
                }
            }
        }
        let ghost trimmed = *self;
        let new_id: SegmentId = self.add_new_locked(segment);
        proof {
            assert forall|sid: SegmentId| sid != new_id implies #[trigger] self.segment(sid)
                == if remove_ids@.contains(sid) {
                None
            } else {
                start.segment(sid)
            } by {
                assert(self.segment(sid) == trimmed.segment(sid)) by {
                    if exists|i: int| trimmed.is_at(sid, i) {
                        let i = choose|i: int| trimmed.is_at(sid, i);
                        assert(self.id_at(i) == trimmed.id_at(i));
                        assert(self.segment_at(i) == trimmed.segment_at(i));
                        assert(self.is_at(sid, i));
                        self.lemma_at(sid, i);
                        trimmed.lemma_at(sid, i);
                    } else if exists|i: int| self.is_at(sid, i) {
                        let i = choose|i: int| self.is_at(sid, i);
                        if i < trimmed.spec_len() {
                            assert(self.id_at(i) == trimmed.id_at(i));
                            assert(trimmed.is_at(sid, i));
                        }
                    }
                }
            }
        }
        (new_id, removed)
    }
}


/// A point as it is handed out.
#[derive(Debug)]
pub struct Record {
    pub id: PointIdType,
    pub payload: Option<Vec<u8>>,
    pub vector: Option<Vec<u32>>,
}

/// A record as a plain value.
pub struct RecordView {
    pub id: PointIdType,
    pub payload: Option<Seq<u8>>,
    pub vector: Option<Seq<u32>>,
}

impl View for Record {
    type V = RecordView;

    open spec fn view(&self) -> RecordView {
        RecordView {
            id: self.id,
            payload: payload_view(self.payload),
            vector: match self.vector {
                Some(v) => Some(v@),
                None => None,
            },
        }
    }
}

/// The records as plain values.
pub open spec fn records_view(records: Seq<Record>) -> Seq<RecordView> {
    records.map_values(|r: Record| r@)
}

impl SegmentHolder {
    /// The record of a point that the shard holds, with its payload and its
    /// vector where they are asked for.
    pub open spec fn record_of(&self, id: PointIdType, with_payload: bool, with_vector: bool) -> RecordView {
        RecordView {
            id,
            payload: if with_payload {
                self.point(id)->Some_0.payload
            } else {
                None
            },
            vector: if with_vector {
                Some(self.point(id)->Some_0.vector)
            } else {
                None
            },
        }
    }

    /// The records of those of the ids that the shard holds, in the order
    /// of the ids.
    pub open spec fn retrieved(&self, ids: Seq<PointIdType>, with_payload: bool, with_vector: bool) -> Seq<
        RecordView,
    >
        decreases ids.len(),
    {
        if ids.len() == 0 {
            Seq::empty()
        } else if self.is_held(ids.last()) {
            self.retrieved(ids.drop_last(), with_payload, with_vector).push(
                self.record_of(ids.last(), with_payload, with_vector),
            )
        } else {
            self.retrieved(ids.drop_last(), with_payload, with_vector)
        }
    }

    /// Reads points by id. An id that the shard does not hold gives no
    /// record.
    pub fn retrieve(&self, ids: &Vec<PointIdType>, with_payload: bool, with_vector: bool) -> (r: Vec<
        Record,
    >)
        requires
            self.wf(),
        ensures
            records_view(r@) == self.retrieved(ids@, with_payload, with_vector),
    {
        let mut records: Vec<Record> = Vec::new();
        let mut k: usize = 0;
        proof {
            assert(ids@.take(0) =~= Seq::<PointIdType>::empty());
            assert(records_view(records@) =~= Seq::<RecordView>::empty());
        }
        while k < ids.len()
            invariant
                k <= ids.len(),
                self.wf(),
                records_view(records@) == self.retrieved(ids@.take(k as int), with_payload, with_vector),
            decreases ids.len() - k,
        {
            let id: PointIdType = ids[k];
            let ghost before = records_view(records@);
            proof {
                assert(ids@.take(k as int + 1).drop_last() =~= ids@.take(k as int));
                assert(ids@.take(k as int + 1).last() == id);
            }
            match self.find(id) {
                Some(i) => {
                    proof {
                        self.lemma_held(id, i as int);
                        assert(self.segment_at(i as int).wf());
                    }
                    let payload: Option<Vec<u8>> = if with_payload {
                        self.segments[i].1.payload(id)
                    } else {
                        None
                    };
                    let vector: Option<Vec<u32>> = if with_vector {
                        self.segments[i].1.get_vector(id)
                    } else {
                        None
                    };
                    let record = Record { id, payload, vector };
                    records.push(record);
                    proof {
                        assert(record@ == self.record_of(id, with_payload, with_vector));
                        assert(records_view(records@) =~= before.push(record@));
                    }
                },
                None => {},
            }
            k = k + 1;
        }
        proof {
            assert(ids@.take(ids@.len() as int) =~= ids@);
        }
        records
    }
}

/// A point that a request has written can be read back as the request
/// gave it, where the shard held no later version of it: the vector is the
/// one of the last point of the request with its id, and so is the payload
/// where that point gives one.
pub proof fn lemma_written_reads_back(
    prior: Option<PointView>,
    op_num: SeqNumberType,
    points: Seq<PointStruct>,
    k: int,
)
    requires
        0 <= k < points.len(),
        last_index(points, points[k].id) == Some(k),
        !is_stale(prior, op_num),
    ensures
        expected(prior, op_num, points, points[k].id) matches Some(p) && p.vector == points[k].vector@
            && p.version == op_num && (points[k].payload is Some ==> p.payload == payload_view(
            points[k].payload,
        )),
{
}

} // verus!

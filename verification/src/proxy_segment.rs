use vstd::prelude::*;
use crate::segment::{bumped, is_stale, later, PointView, Segment, SegmentError};
use crate::types::{PointIdType, SeqNumberType};

verus! {

/// The point after a write of a vector at version `op_num`: a point that
/// was written at a later version stays as it is; else the vector and the
/// version are the new ones, and the payload stays.
pub open spec fn upserted(prior: Option<PointView>, op_num: SeqNumberType, vector: Seq<u32>) -> PointView {
    match prior {
        Some(p) => if p.version > op_num {
            p
        } else {
            PointView { version: op_num, vector, payload: p.payload }
        },
        None => PointView { version: op_num, vector, payload: None },
    }
}

/// After a write of version `v` the point has the later of `v` and the
/// version it had; a new point has `v`.
pub proof fn lemma_version_after_write(
    prior: Option<PointView>,
    op_num: SeqNumberType,
    vector: Seq<u32>,
)
    ensures
        upserted(prior, op_num, vector).version == match prior {
            Some(p) => later(p.version, op_num),
            None => op_num,
        },
{
}

/// A segment that takes no writes, with a segment beside it that takes
/// them in its place. A point of the wrapped segment is copied over before
/// it is first written, and is from then on hidden in the wrapped segment.
#[derive(Debug)]
pub struct ProxySegment {
    wrapped_segment: Segment,
    write_segment: Segment,
    deleted_points: Vec<PointIdType>,
}

impl ProxySegment {
    /// The point as the wrapped segment holds it.
    pub closed spec fn wrapped_point(&self, id: PointIdType) -> Option<PointView> {
        self.wrapped_segment.point(id)
    }

    /// The point as the write segment holds it.
    pub closed spec fn write_point(&self, id: PointIdType) -> Option<PointView> {
        self.write_segment.point(id)
    }

    /// True when the point is hidden in the wrapped segment.
    pub closed spec fn shadowed(&self, id: PointIdType) -> bool {
        self.deleted_points@.contains(id)
    }

    /// Number of offsets that the write segment has given out.
    pub closed spec fn write_total(&self) -> nat {
        self.write_segment.spec_total()
    }

    /// Both segments are well formed, and a point that both hold is hidden
    /// in the wrapped one.
    pub closed spec fn wf(&self) -> bool {
        &&& self.wrapped_segment.wf()
        &&& self.write_segment.wf()
        &&& forall|id: PointIdType|
            #![trigger self.write_segment.point(id)]
            self.write_segment.point(id) is Some && self.wrapped_segment.point(id) is Some
                ==> self.deleted_points@.contains(id)
    }

    /// The point as readers see it: from the write segment where that has
    /// it, else from the wrapped segment unless it is hidden there.
    pub open spec fn point(&self, id: PointIdType) -> Option<PointView> {
        if self.write_point(id) is Some {
            self.write_point(id)
        } else if !self.shadowed(id) {
            self.wrapped_point(id)
        } else {
            None
        }
    }

    /// Wraps a segment. The write segment must hold none of its points.
    pub fn new(wrapped_segment: Segment, write_segment: Segment) -> (r: Self)
        requires
            wrapped_segment.wf(),
            write_segment.wf(),
            forall|id: PointIdType|
                #![trigger write_segment.point(id)]
                !(write_segment.point(id) is Some && wrapped_segment.point(id) is Some),
        ensures
            r.wf(),
            forall|id: PointIdType| r.wrapped_point(id) == wrapped_segment.point(id),
            forall|id: PointIdType| r.write_point(id) == write_segment.point(id),
            forall|id: PointIdType| !r.shadowed(id),
            r.write_total() == write_segment.spec_total(),
    {
        ProxySegment { wrapped_segment, write_segment, deleted_points: Vec::new() }
    }

    /// The segment that takes the writes.
    pub fn write_segment(&self) -> (r: &Segment)
        requires
            self.wf(),
        ensures
            r.wf(),
            forall|id: PointIdType| r.point(id) == self.write_point(id),
            r.spec_total() == self.write_total(),
    {
        &self.write_segment
    }

    /// The segment that is wrapped.
    pub fn wrapped_segment(&self) -> (r: &Segment)
        requires
            self.wf(),
        ensures
            r.wf(),
            forall|id: PointIdType| r.point(id) == self.wrapped_point(id),
    {
        &self.wrapped_segment
    }

    /// The ids of the points that are hidden in the wrapped segment.
    pub fn deleted_points(&self) -> (r: &Vec<PointIdType>)
        ensures
            forall|id: PointIdType| r@.contains(id) == self.shadowed(id),
    {
        &self.deleted_points
    }

    /// A proxy takes writes.
    pub fn is_appendable(&self) -> (r: bool)
        ensures
            r,
    {
        true
    }

    fn is_shadowed(&self, id: PointIdType) -> (r: bool)
        ensures
            r == self.shadowed(id),
    {
        let mut i: usize = 0;
        while i < self.deleted_points.len()
            invariant
                i <= self.deleted_points.len(),
                forall|k: int| 0 <= k < i ==> self.deleted_points@[k] != id,
            decreases self.deleted_points.len() - i,
        {
            if self.deleted_points[i] == id {
                assert(self.deleted_points@[i as int] == id);
                return true;
            }
            i = i + 1;
        }
        assert(!self.deleted_points@.contains(id)) by {
            if self.deleted_points@.contains(id) {
                let k = choose|k: int|
                    0 <= k < self.deleted_points@.len() && self.deleted_points@[k] == id;
                assert(self.deleted_points@[k] != id);
            }
        }
        false
    }

    /// The ids of the points that readers see: those of the write segment
    /// in the order of their offsets, then those of the wrapped segment
    /// that are not hidden, in the order of theirs.
    pub closed spec fn spec_ids(&self) -> Seq<PointIdType> {
        self.write_segment.spec_ids() + self.wrapped_segment.spec_ids().filter(
            |id: PointIdType| !self.deleted_points@.contains(id),
        )
    }

    /// The ids that readers see are the ids of the points of the proxy.
    pub proof fn lemma_ids(&self, id: PointIdType)
        ensures
            self.spec_ids().contains(id) <==> self.point(id) is Some,
    {
        let pred = |id: PointIdType| !self.deleted_points@.contains(id);
        let first = self.write_segment.spec_ids();
        let all = self.wrapped_segment.spec_ids();
        let kept = all.filter(pred);
        self.write_segment.lemma_ids(id);
        self.wrapped_segment.lemma_ids(id);
        if self.spec_ids().contains(id) {
            let k = choose|k: int| 0 <= k < (first + kept).len() && (first + kept)[k] == id;
            if k < first.len() {
                assert(first[k] == id);
                assert(first.contains(id));
            } else {
                assert(kept[k - first.len()] == id);
                all.lemma_filter_pred(pred, k - first.len());
                assert(kept.contains(id));
                all.lemma_filter_contains_rev(pred, id);
            }
        }
        if self.point(id) is Some {
            if self.write_point(id) is Some {
                let k = choose|k: int| 0 <= k < first.len() && first[k] == id;
                assert((first + kept)[k] == id);
            } else {
                let k = choose|k: int| 0 <= k < all.len() && all[k] == id;
                all.lemma_filter_contains(pred, k);
                let j = choose|j: int| 0 <= j < kept.len() && kept[j] == id;
                assert((first + kept)[first.len() + j] == id);
            }
        }
    }

    /// The ids of the points that readers see, of both segments.
    pub fn iter_points(&self) -> (r: Vec<PointIdType>)
        requires
            self.wf(),
        ensures
            r@ == self.spec_ids(),
            forall|id: PointIdType| r@.contains(id) <==> self.point(id) is Some,
    {
        let ghost pred = |id: PointIdType| !self.deleted_points@.contains(id);
        let mut ids: Vec<PointIdType> = self.write_segment.iter_points();
        let wrapped: Vec<PointIdType> = self.wrapped_segment.iter_points();
        let ghost first = ids@;
        let mut i: usize = 0;
        proof {
            assert(wrapped@.take(0) =~= Seq::<PointIdType>::empty());
            reveal(Seq::filter);
            assert(Seq::<PointIdType>::empty().filter(pred) =~= Seq::<PointIdType>::empty());
            assert(first + Seq::<PointIdType>::empty() =~= first);
        }
        while i < wrapped.len()
            invariant
                i <= wrapped.len(),
                pred == (|id: PointIdType| !self.deleted_points@.contains(id)),
                ids@ == first + wrapped@.take(i as int).filter(pred),
            decreases wrapped.len() - i,
        {
            let id: PointIdType = wrapped[i];
            proof {
                assert(wrapped@.take(i as int + 1) =~= wrapped@.take(i as int).push(id));
                wrapped@.take(i as int).lemma_filter_push(id, pred);
            }
            if !self.is_shadowed(id) {
                ids.push(id);
                proof {
                    assert(ids@ =~= first + wrapped@.take(i as int).filter(pred).push(id));
                }
            }
            i = i + 1;
        }
        proof {
            assert(wrapped@.take(wrapped@.len() as int) =~= wrapped@);
            assert forall|id: PointIdType| ids@.contains(id) <==> self.point(id) is Some by {
                self.lemma_ids(id);
            }
        }
        ids
    }

    pub fn has_point(&self, id: PointIdType) -> (r: bool)
        requires
            self.wf(),
        ensures
            r == self.point(id) is Some,
    {
        if self.write_segment.has_point(id) {
            true
        } else if self.is_shadowed(id) {
            false
        } else {
            self.wrapped_segment.has_point(id)
        }
    }

    /// The version at which the point was written last.
    pub fn point_version(&self, id: PointIdType) -> (r: Option<SeqNumberType>)
        requires
            self.wf(),
        ensures
            r == match self.point(id) {
                Some(p) => Some(p.version),
                None => None,
            },
    {
        match self.write_segment.point_version(id) {
            Some(v) => Some(v),
            None => if self.is_shadowed(id) {
                None
            } else {
                self.wrapped_segment.point_version(id)
            },
        }
    }

    /// The vector of the point.
    pub fn get_vector(&self, id: PointIdType) -> (r: Option<Vec<u32>>)
        requires
            self.wf(),
        ensures
            match r {
                Some(v) => self.point(id) matches Some(p) && p.vector == v@,
                None => self.point(id) is None,
            },
    {
        match self.write_segment.get_vector(id) {
            Some(v) => Some(v),
            None => if self.is_shadowed(id) {
                None
            } else {
                self.wrapped_segment.get_vector(id)
            },
        }
    }

    /// Number of points that readers see, reckoned as the live points of
    /// both segments less the hidden ones, and held at the largest count.
    pub closed spec fn spec_available(&self) -> nat {
        let seen = if self.wrapped_segment.spec_available() >= self.deleted_points@.len() {
            self.wrapped_segment.spec_available() - self.deleted_points@.len()
        } else {
            0
        };
        if seen + self.write_segment.spec_available() > usize::MAX {
            usize::MAX as nat
        } else {
            (seen + self.write_segment.spec_available()) as nat
        }
    }

    pub fn available_point_count(&self) -> (r: usize)
        requires
            self.wf(),
        ensures
            r == self.spec_available(),
    {
        let wrapped: usize = self.wrapped_segment.available_point_count();
        let hidden: usize = self.deleted_points.len();
        let seen: usize = if wrapped >= hidden {
            wrapped - hidden
        } else {
            0
        };
        match seen.checked_add(self.write_segment.available_point_count()) {
            Some(n) => n,
            None => usize::MAX,
        }
    }

    /// Copies the point over from the wrapped segment, as it is, unless it
    /// is hidden there or not there. Says whether it was copied.
    fn move_if_exists(&mut self, id: PointIdType) -> (r: Result<bool, SegmentError>)
        requires
            old(self).wf(),
        ensures
            final(self).wf(),
            final(self).wrapped_segment == old(self).wrapped_segment,
            forall|other: PointIdType| final(self).point(other) == old(self).point(other),
            forall|other: PointIdType|
                other != id ==> final(self).shadowed(other) == old(self).shadowed(other)
                    && final(self).write_point(other) == old(self).write_point(other),
            r is Err <==> (old(self).wrapped_point(id) is Some && !old(self).shadowed(id) && old(self).write_total() >= u32::MAX),
            r is Err ==> final(self).write_segment.same_as(&old(self).write_segment) && final(self).deleted_points == old(self).deleted_points,
            old(self).write_point(id) is Some ==> r == Ok::<bool, SegmentError>(false),
            r matches Ok(moved) ==> {
                &&& moved == (old(self).wrapped_point(id) is Some && !old(self).shadowed(id))
                &&& old(self).wrapped_point(id) is Some ==> final(self).shadowed(id)
                &&& moved ==> final(self).write_point(id) == old(self).wrapped_point(id) && final(self).write_total() == old(self).write_total() + 1
                &&& !moved ==> final(self).write_segment.same_as(&old(self).write_segment) && final(self).shadowed(id) == old(self).shadowed(id) && final(self).write_total() == old(self).write_total()
            },
    {
        if self.is_shadowed(id) {
            return Ok(false);
        }
        let version: SeqNumberType = match self.wrapped_segment.point_version(id) {
            Some(v) => v,
            None => {
                return Ok(false);
            },
        };
        let vector: Vec<u32> = match self.wrapped_segment.get_vector(id) {
            Some(v) => v,
            None => {
                return Ok(false);
            },
        };
        let payload: Option<Vec<u8>> = self.wrapped_segment.payload(id);
        let ghost before = *self;
        assert(before.write_segment.point(id) is None);
        match self.write_segment.upsert_point(version, id, vector) {
            Err(e) => {
                return Err(e);
            },
            Ok(_) => {},
        }
        let ghost copied = self.write_segment;
        self.write_segment.set_payload(version, id, payload);
        let ghost old_hidden = self.deleted_points@;
        self.deleted_points.push(id);
        proof {
            let hidden = self.deleted_points@;
            assert(hidden[hidden.len() - 1] == id);
            assert forall|other: PointIdType| other != id implies hidden.contains(other)
                == old_hidden.contains(other) by {
                if hidden.contains(other) {
                    let k = choose|k: int| 0 <= k < hidden.len() && hidden[k] == other;
                    assert(old_hidden[k] == other);
                }
                if old_hidden.contains(other) {
                    let k = choose|k: int| 0 <= k < old_hidden.len() && old_hidden[k] == other;
                    assert(hidden[k] == other);
                }
            }
            assert forall|other: PointIdType| other != id implies self.write_segment.point(other)
                == before.write_segment.point(other) by {
                assert(self.write_segment.point(other) == copied.point(other));
                assert(copied.point(other) == before.write_segment.point(other));
            }
            assert(self.write_segment.point(id) == before.wrapped_segment.point(id));
            assert forall|other: PointIdType| self.point(other) == old(self).point(other) by {
                if other != id {
                    assert(self.write_point(other) == before.write_point(other));
                    assert(self.shadowed(other) == before.shadowed(other));
                }
            }
            assert forall|other: PointIdType|
                #![trigger self.write_segment.point(other)]
                self.write_segment.point(other) is Some && self.wrapped_segment.point(
                    other,
                ) is Some implies self.deleted_points@.contains(other) by {
                if other != id {
                    assert(before.write_segment.point(other) is Some);
                    assert(old_hidden.contains(other));
                }
            }
        }
        Ok(true)
    }

    /// Writes the vector of a point at version `op_num`. The point is
    /// copied over from the wrapped segment first if it is there, and is
    /// hidden there from then on. Says whether a point was there and was
    /// written over.
    pub fn upsert_point(&mut self, op_num: SeqNumberType, id: PointIdType, vector: Vec<u32>) -> (r:
        Result<bool, SegmentError>)
        requires
            old(self).wf(),
        ensures
            final(self).wf(),
            forall|other: PointIdType| final(self).wrapped_point(other) == old(self).wrapped_point(other),
            forall|other: PointIdType|
                other != id ==> #[trigger] final(self).point(other) == old(self).point(other),
            forall|other: PointIdType|
                other != id ==> #[trigger] final(self).shadowed(other) == old(self).shadowed(other),
            r is Err <==> old(self).write_point(id) is None && old(self).write_total() >= u32::MAX,
            r is Err ==> final(self).point(id) == old(self).point(id) && final(self).shadowed(id)
                == old(self).shadowed(id),
            final(self).write_total() <= old(self).write_total() + 1,
            old(self).write_point(id) is Some ==> final(self).write_total() == old(self).write_total(),
            r matches Ok(replaced) ==> {
                &&& final(self).point(id) == Some(upserted(old(self).point(id), op_num, vector@))
                &&& final(self).write_point(id) == final(self).point(id)
                &&& replaced == (old(self).point(id) is Some && !is_stale(old(self).point(id), op_num))
                &&& old(self).wrapped_point(id) is Some ==> final(self).shadowed(id)
                &&& old(self).wrapped_point(id) is None ==> final(self).shadowed(id) == old(self).shadowed(id)
            },
    {
        let ghost before = *self;
        match self.move_if_exists(id) {
            Err(e) => {
                return Err(e);
            },
            Ok(_) => {},
        }
        let ghost moved = *self;
        let r = self.write_segment.upsert_point(op_num, id, vector);
        proof {
            assert forall|other: PointIdType|
                #![trigger self.write_segment.point(other)]
                self.write_segment.point(other) is Some && self.wrapped_segment.point(
                    other,
                ) is Some implies self.deleted_points@.contains(other) by {
                if other != id {
                    assert(self.write_segment.point(other) == moved.write_segment.point(other));
                } else {
                    assert(before.wrapped_point(id) is Some ==> moved.shadowed(id));
                }
            }
            assert forall|other: PointIdType| other != id implies #[trigger] self.point(other)
                == old(self).point(other) by {
                assert(self.write_segment.point(other) == moved.write_segment.point(other));
                assert(moved.point(other) == before.point(other));
            }
            assert(moved.point(id) == before.point(id));
        }
        r
    }

    /// Deletes a point at version `op_num`: hides it in the wrapped segment
    /// and deletes it in the write segment. Says whether it was hidden or
    /// deleted.
    pub fn delete_point(&mut self, op_num: SeqNumberType, id: PointIdType) -> (r: bool)
        requires
            old(self).wf(),
        ensures
            final(self).wf(),
            forall|other: PointIdType| final(self).wrapped_point(other) == old(self).wrapped_point(other),
            forall|other: PointIdType|
                other != id ==> #[trigger] final(self).point(other) == old(self).point(other),
            final(self).point(id) == if is_stale(old(self).write_point(id), op_num) {
                old(self).write_point(id)
            } else {
                None
            },
            r == ((old(self).wrapped_point(id) is Some && !old(self).shadowed(id)) || (old(self).write_point(id) is Some && !is_stale(old(self).write_point(id), op_num))),
            final(self).write_total() == old(self).write_total(),
    {
        let ghost before = *self;
        let mut was_deleted: bool = false;
        if self.wrapped_segment.has_point(id) && !self.is_shadowed(id) {
            let ghost old_hidden = self.deleted_points@;
            self.deleted_points.push(id);
            proof {
                let hidden = self.deleted_points@;
                assert(hidden[hidden.len() - 1] == id);
                assert forall|other: PointIdType| other != id implies hidden.contains(other)
                    == old_hidden.contains(other) by {
                    if hidden.contains(other) {
                        let k = choose|k: int| 0 <= k < hidden.len() && hidden[k] == other;
                        assert(old_hidden[k] == other);
                    }
                    if old_hidden.contains(other) {
                        let k = choose|k: int| 0 <= k < old_hidden.len() && old_hidden[k] == other;
                        assert(hidden[k] == other);
                    }
                }
            }
            was_deleted = true;
        }
        let ghost hidden = *self;
        proof {
            assert forall|other: PointIdType| other != id implies hidden.shadowed(other)
                == before.shadowed(other) by {}
            assert(before.wrapped_point(id) is Some ==> hidden.shadowed(id));
        }
        let was_deleted_in_writable: bool = self.write_segment.delete_point(op_num, id);
        proof {
            assert forall|other: PointIdType|
                #![trigger self.write_segment.point(other)]
                self.write_segment.point(other) is Some && self.wrapped_segment.point(
                    other,
                ) is Some implies self.deleted_points@.contains(other) by {
                if other != id {
                    assert(self.write_segment.point(other) == hidden.write_segment.point(other));
                    assert(before.write_segment.point(other) is Some);
                    assert(before.shadowed(other));
                }
            }
            assert forall|other: PointIdType| other != id implies #[trigger] self.point(other)
                == old(self).point(other) by {
                assert(self.write_segment.point(other) == hidden.write_segment.point(other));
            }
        }
        was_deleted || was_deleted_in_writable
    }
}


/// The point after its payload was set at version `op_num`: a point that
/// was written at a later version stays as it is.
pub open spec fn with_payload(prior: Option<PointView>, op_num: SeqNumberType, payload: Option<Seq<u8>>) -> Option<
    PointView,
> {
    match prior {
        Some(p) => if p.version > op_num {
            Some(p)
        } else {
            Some(PointView { version: op_num, vector: p.vector, payload })
        },
        None => None,
    }
}

impl ProxySegment {
    /// The payload of the point; `None` for a point without one and for a
    /// point that readers do not see.
    pub fn payload(&self, id: PointIdType) -> (r: Option<Vec<u8>>)
        requires
            self.wf(),
        ensures
            crate::segment::payload_view(r) == match self.point(id) {
                Some(p) => p.payload,
                None => None,
            },
    {
        if self.write_segment.has_point(id) {
            self.write_segment.payload(id)
        } else if self.is_shadowed(id) {
            None
        } else {
            self.wrapped_segment.payload(id)
        }
    }

    /// Sets or clears the payload of a point at version `op_num`. The point
    /// is copied over from the wrapped segment first if it is there. Says
    /// whether the payload was written.
    pub fn set_payload(&mut self, op_num: SeqNumberType, id: PointIdType, payload: Option<Vec<u8>>) -> (r:
        Result<bool, SegmentError>)
        requires
            old(self).wf(),
        ensures
            final(self).wf(),
            forall|other: PointIdType| final(self).wrapped_point(other) == old(self).wrapped_point(other),
            forall|other: PointIdType|
                other != id ==> #[trigger] final(self).point(other) == old(self).point(other),
            r is Err <==> (old(self).wrapped_point(id) is Some && !old(self).shadowed(id) && old(self).write_total() >= u32::MAX),
            r is Err ==> final(self).point(id) == old(self).point(id),
            r is Err ==> old(self).write_point(id) is None,
            final(self).write_total() <= old(self).write_total() + 1,
            old(self).write_point(id) is Some ==> final(self).write_total() == old(self).write_total(),
            r matches Ok(written) ==> {
                &&& final(self).point(id) == with_payload(
                    old(self).point(id),
                    op_num,
                    crate::segment::payload_view(payload),
                )
                &&& written == (old(self).point(id) is Some && !is_stale(old(self).point(id), op_num))
            },
    {
        let ghost before = *self;
        match self.move_if_exists(id) {
            Err(e) => {
                return Err(e);
            },
            Ok(_) => {},
        }
        let ghost moved = *self;
        let written: bool = self.write_segment.set_payload(op_num, id, payload);
        proof {
            assert forall|other: PointIdType|
                #![trigger self.write_segment.point(other)]
                self.write_segment.point(other) is Some && self.wrapped_segment.point(
                    other,
                ) is Some implies self.deleted_points@.contains(other) by {
                if other != id {
                    assert(self.write_segment.point(other) == moved.write_segment.point(other));
                } else {
                    assert(moved.write_segment.point(id) is Some);
                }
            }
            assert forall|other: PointIdType| other != id implies #[trigger] self.point(other)
                == old(self).point(other) by {
                assert(self.write_segment.point(other) == moved.write_segment.point(other));
                assert(moved.point(other) == before.point(other));
            }
            assert(moved.point(id) == before.point(id));
        }
        Ok(written)
    }
}

} // verus!

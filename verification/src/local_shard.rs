use vstd::prelude::*;
use crate::segment_holder::{Record, RecordView, SegmentHolder};
use crate::types::{PointIdType, ScoreType, ScoredPoint, SeqNumberType};

verus! {

/// A point of a response with what was asked to come with it.
#[derive(Debug, PartialEq, Eq)]
pub struct FilledPoint {
    pub id: PointIdType,
    pub version: SeqNumberType,
    pub score: ScoreType,
    pub payload: Option<Vec<u8>>,
    pub vector: Option<Vec<u32>>,
}

/// A filled point as a plain value.
pub struct FilledPointView {
    pub id: PointIdType,
    pub version: SeqNumberType,
    pub score: ScoreType,
    pub payload: Option<Seq<u8>>,
    pub vector: Option<Seq<u32>>,
}

impl View for FilledPoint {
    type V = FilledPointView;

    open spec fn view(&self) -> FilledPointView {
        FilledPointView {
            id: self.id,
            version: self.version,
            score: self.score,
            payload: match self.payload {
                Some(bytes) => Some(bytes@),
                None => None,
            },
            vector: match self.vector {
                Some(vector) => Some(vector@),
                None => None,
            },
        }
    }
}

/// The filled points as plain values.
pub open spec fn filled_view(points: Seq<FilledPoint>) -> Seq<FilledPointView> {
    points.map_values(|p: FilledPoint| p@)
}

/// The point with the payload and the vector of its record.
pub open spec fn filled_with(point: ScoredPoint, record: RecordView) -> FilledPointView {
    FilledPointView {
        id: point.id,
        version: point.version,
        score: point.score,
        payload: record.payload,
        vector: record.vector,
    }
}

/// A shard of a collection on this node: the segments that hold its
/// points.
#[derive(Debug)]
pub struct LocalShard {
    pub segments: SegmentHolder,
}

impl LocalShard {
    /// The points of a response filled from the segments: a point that
    /// the shard no longer holds is dropped; every other keeps its place
    /// and its score and gets the payload and the vector that readers of
    /// the shard see for it, each where it is asked for.
    pub open spec fn spec_fill(
        &self,
        points: Seq<ScoredPoint>,
        with_payload: bool,
        with_vector: bool,
    ) -> Seq<FilledPointView>
        decreases points.len(),
    {
        if points.len() == 0 {
            Seq::empty()
        } else {
            let rest = self.spec_fill(points.drop_last(), with_payload, with_vector);
            let point = points.last();
            if self.segments.is_held(point.id) {
                rest.push(
                    filled_with(point, self.segments.record_of(point.id, with_payload, with_vector)),
                )
            } else {
                rest
            }
        }
    }

    /// A shard over the segments.
    pub fn new(segments: SegmentHolder) -> (r: Self)
        ensures
            r.segments == segments,
    {
        LocalShard { segments }
    }

    /// Fetches payload and vector for the points of a response, once the
    /// points that the response holds are known. A point that was deleted
    /// in the meantime is dropped.
    pub fn fill_with_payload_or_vectors(
        &self,
        query_response: Vec<ScoredPoint>,
        with_payload: bool,
        with_vector: bool,
    ) -> (r: Vec<FilledPoint>)
        requires
            self.segments.wf(),
        ensures
            filled_view(r@) == self.spec_fill(query_response@, with_payload, with_vector),
    {
        let mut filled: Vec<FilledPoint> = Vec::new();
        let mut i: usize = 0;
        proof {
            assert(query_response@.take(0) =~= Seq::<ScoredPoint>::empty());
            assert(filled_view(filled@) =~= Seq::<FilledPointView>::empty());
        }
        while i < query_response.len()
            invariant
                i <= query_response.len(),
                self.segments.wf(),
                filled_view(filled@) == self.spec_fill(
                    query_response@.take(i as int),
                    with_payload,
                    with_vector,
                ),
            decreases query_response.len() - i,
        {
            let point: ScoredPoint = query_response[i];
            let mut ids: Vec<PointIdType> = Vec::new();
            ids.push(point.id);
            proof {
                assert(query_response@.take(i as int + 1).drop_last() =~= query_response@.take(
                    i as int,
                ));
                assert(query_response@.take(i as int + 1).last() == point);
                assert(ids@.drop_last() =~= Seq::<PointIdType>::empty());
                assert(ids@.last() == point.id);
            }
            let mut records: Vec<Record> = self.segments.retrieve(&ids, with_payload, with_vector);
            let ghost found = records@;
            let ghost before = filled@;
            proof {
                let all = self.segments.retrieved(ids@, with_payload, with_vector);
                let none = self.segments.retrieved(ids@.drop_last(), with_payload, with_vector);
                assert(ids@.drop_last().len() == 0);
                assert(none.len() == 0);
                assert(crate::segment_holder::records_view(found) == all);
                assert(crate::segment_holder::records_view(found).len() == found.len());
                if self.segments.is_held(point.id) {
                    assert(all == none.push(
                        self.segments.record_of(point.id, with_payload, with_vector),
                    ));
                    assert(all.len() == 1);
                    assert(all[0] == self.segments.record_of(point.id, with_payload, with_vector));
                } else {
                    assert(all == none);
                }
            }
            match records.pop() {
                Some(record) => {
                    proof {
                        assert(found.len() == 1);
                        assert(crate::segment_holder::records_view(found)[0] == found[0]@);
                        assert(record == found[0]);
                    }
                    let ghost taken = record@;
                    filled.push(
                        FilledPoint {
                            id: point.id,
                            version: point.version,
                            score: point.score,
                            payload: record.payload,
                            vector: record.vector,
                        },
                    );
                    proof {
                        assert(filled@[filled@.len() - 1]@ == filled_with(point, taken));
                        assert(filled_view(filled@) =~= filled_view(before).push(
                            filled_with(point, taken),
                        ));
                    }
                },
                None => {
                    proof {
                        assert(found.len() == 0);
                    }
                },
            }
            i = i + 1;
        }
        proof {
            assert(query_response@.take(query_response@.len() as int) =~= query_response@);
        }
        filled
    }
}

} // verus!

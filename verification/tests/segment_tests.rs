use vector_engine::local_shard::{FilledPoint, LocalShard};
use vector_engine::proxy_segment::ProxySegment;
use vector_engine::segment::{Segment, SegmentError};
use vector_engine::segment_holder::{
    LockedSegment, PointStruct, SegmentHolder, SegmentId,
};
use vector_engine::types::{ScoredPoint, OperationError, PointIdType};

fn bits(values: &[f32]) -> Vec<u32> {
    values.iter().map(|v| v.to_bits()).collect()
}

fn id(n: u64) -> PointIdType {
    PointIdType::NumId(n)
}

fn build_segment_1() -> Segment {
    let mut segment = Segment::new(true);
    let vectors: [[f32; 4]; 5] = [
        [1.0, 0.0, 1.0, 1.0],
        [1.0, 0.0, 1.0, 0.0],
        [1.0, 1.0, 1.0, 1.0],
        [1.0, 1.0, 0.0, 1.0],
        [1.0, 0.0, 0.0, 0.0],
    ];
    for (i, vector) in vectors.iter().enumerate() {
        let n = i as u64 + 1;
        segment.upsert_point(n, id(n), bits(vector)).unwrap();
    }
    segment.set_payload(6, id(1), Some(b"{\"color\":\"red\"}".to_vec()));
    segment.set_payload(6, id(2), Some(b"{\"color\":\"red\"}".to_vec()));
    segment
}

fn build_segment_2() -> Segment {
    let mut segment = Segment::new(true);
    let vectors: [[f32; 4]; 5] = [
        [-1.0, 0.0, 1.0, 1.0],
        [-1.0, 0.0, 1.0, 0.0],
        [-1.0, 1.0, 1.0, 1.0],
        [-1.0, 1.0, 0.0, 1.0],
        [-1.0, 0.0, 0.0, 0.0],
    ];
    for (i, vector) in vectors.iter().enumerate() {
        let n = i as u64 + 11;
        segment.upsert_point(n, id(n), bits(vector)).unwrap();
    }
    segment
}

fn empty_segment() -> Segment {
    Segment::new(true)
}

fn wrap_proxy(holder: &mut SegmentHolder, sid: SegmentId) -> SegmentId {
    let temp_segment = empty_segment();
    let optimizing_segment = match holder.remove(sid).unwrap() {
        LockedSegment::Original(segment) => segment,
        LockedSegment::Proxy(_) => panic!("wrong type"),
    };
    let proxy = ProxySegment::new(optimizing_segment, temp_segment);
    let (new_id, _replaced_segments) = holder.swap_new(LockedSegment::Proxy(proxy), &vec![sid]);
    new_id
}

fn read_ids(segment: &LockedSegment, limit: usize) -> Vec<PointIdType> {
    let mut ids = segment.iter_points();
    ids.truncate(limit);
    ids
}

fn point(n: u64, vector: &[f32]) -> PointStruct {
    PointStruct { id: id(n), vector: bits(vector), payload: None }
}

#[test]
fn test_update_proxy_segments() {
    let segment1 = build_segment_1();
    let segment2 = build_segment_2();

    let mut holder = SegmentHolder::new();

    let sid1 = holder.add_new(segment1);
    let _sid2 = holder.add_new(segment2);

    let _proxy_id = wrap_proxy(&mut holder, sid1);

    let vectors = vec![[0.0, 0.0, 0.0, 0.0], [0.0, 0.0, 0.0, 0.0]];

    for i in 1..10 {
        let points = vec![
            point(100 * i + 1, &vectors[0]),
            point(100 * i + 2, &vectors[1]),
        ];
        holder.upsert_points(1000 + i, &points).unwrap();
    }

    let mut all_ids = Vec::new();
    for sid in holder.segment_ids() {
        all_ids.extend(read_ids(holder.get(sid).unwrap(), 100));
    }
    all_ids.sort();

    for i in 1..10 {
        let idx = 100 * i + 1;
        assert!(all_ids.contains(&id(idx)), "Not found {idx}")
    }
}

#[test]
fn test_move_points_to_copy_on_write() {
    let segment1 = build_segment_1();
    let segment2 = build_segment_2();

    let mut holder = SegmentHolder::new();

    let sid1 = holder.add_new(segment1);
    let _sid2 = holder.add_new(segment2);

    let proxy_id = wrap_proxy(&mut holder, sid1);

    let points = vec![point(1, &[0.0, 0.0, 0.0, 0.0]), point(2, &[0.0, 0.0, 0.0, 0.0])];

    holder.upsert_points(1001, &points).unwrap();

    let points = vec![point(2, &[0.0, 0.0, 0.0, 0.0]), point(3, &[0.0, 0.0, 0.0, 0.0])];

    holder.upsert_points(1002, &points).unwrap();

    let locked_proxy = match holder.get(proxy_id).unwrap() {
        LockedSegment::Original(_) => panic!("wrong type"),
        LockedSegment::Proxy(locked_proxy) => locked_proxy,
    };

    let copy_on_write_segment = locked_proxy.write_segment();

    let copy_on_write_points = copy_on_write_segment.iter_points();

    println!("copy_on_write_points = {copy_on_write_points:#?}");
    assert_eq!(copy_on_write_points, vec![id(1), id(2), id(3)]);

    for idx in copy_on_write_points {
        let internal = copy_on_write_segment.internal(idx).unwrap();
        println!("{idx:?} -> {internal}");
        assert_eq!(copy_on_write_segment.external(internal), Some(idx));
    }

    for internal in 0..3u32 {
        let external = copy_on_write_segment.external(internal).unwrap();
        println!("{internal} -> {external:?}");
        assert_eq!(copy_on_write_segment.internal(external), Some(internal));
    }

    let mut shadow = locked_proxy.deleted_points().clone();
    shadow.sort();
    assert_eq!(shadow, vec![id(1), id(2), id(3)]);
    assert_eq!(locked_proxy.point_version(id(2)), Some(1002));
    assert_eq!(locked_proxy.point_version(id(1)), Some(1001));
    assert_eq!(locked_proxy.point_version(id(4)), Some(4));
    assert_eq!(locked_proxy.wrapped_segment().point_version(id(2)), Some(6));
    assert_eq!(locked_proxy.payload(id(2)), Some(b"{\"color\":\"red\"}".to_vec()));
    assert_eq!(locked_proxy.get_vector(id(2)), Some(bits(&[0.0, 0.0, 0.0, 0.0])));
}

#[test]
fn test_upsert_points_in_smallest_segment() {
    let mut segment1 = build_segment_1();
    let mut segment2 = build_segment_2();
    let segment3 = empty_segment();

    // Fill segment 1 and 2 to the capacity
    for point_id in 0..100 {
        segment1
            .upsert_point(20, id(point_id), bits(&[0.0, 0.0, 0.0, 0.0]))
            .unwrap();
        segment2
            .upsert_point(20, id(100 + point_id), bits(&[0.0, 0.0, 0.0, 0.0]))
            .unwrap();
    }

    let mut holder = SegmentHolder::new();

    let _sid1 = holder.add_new(segment1);
    let _sid2 = holder.add_new(segment2);
    let sid3 = holder.add_new(segment3);

    let points: Vec<_> = (1000..1010)
        .map(|n| point(n, &[0.0, 0.0, 0.0, 0.0]))
        .collect();
    holder.upsert_points(1000, &points).unwrap();

    // Segment 1 and 2 are over capacity, we expect to have the new points in segment 3
    {
        let segment3 = holder.get(sid3).unwrap();
        for point_id in 1000..1010 {
            assert!(segment3.has_point(id(point_id)));
        }
        for point_id in 0..10 {
            assert!(!segment3.has_point(id(point_id)));
        }
    }
    assert_eq!(holder.smallest_appendable_segment(), Some(sid3));
    for sid in [_sid1, _sid2] {
        let segment = holder.get(sid).unwrap();
        for point_id in 1000..1010 {
            assert!(!segment.has_point(id(point_id)));
        }
    }
}

#[test]
fn segment_keeps_the_later_version() {
    let mut segment = Segment::new(true);
    assert_eq!(segment.upsert_point(5, id(7), vec![1, 2]), Ok(false));
    assert_eq!(segment.point_version(id(7)), Some(5));
    assert_eq!(segment.version(), Some(5));
    // an older write is passed over
    assert_eq!(segment.upsert_point(3, id(7), vec![9, 9]), Ok(false));
    assert_eq!(segment.point_version(id(7)), Some(5));
    assert_eq!(segment.get_vector(id(7)), Some(vec![1, 2]));
    // an equal or later write is taken
    assert_eq!(segment.upsert_point(5, id(7), vec![3, 4]), Ok(true));
    assert_eq!(segment.get_vector(id(7)), Some(vec![3, 4]));
    assert_eq!(segment.upsert_point(8, id(7), vec![5, 6]), Ok(true));
    assert_eq!(segment.point_version(id(7)), Some(8));
    assert_eq!(segment.version(), Some(8));
    assert!(!segment.set_payload(2, id(7), Some(vec![1])));
    assert!(segment.set_payload(9, id(7), Some(vec![1])));
    assert_eq!(segment.payload(id(7)), Some(vec![1]));
    assert!(!segment.delete_point(1, id(7)));
    assert!(segment.has_point(id(7)));
    assert!(segment.delete_point(9, id(7)));
    assert!(!segment.has_point(id(7)));
    assert_eq!(segment.available_point_count(), 0);
    assert!(!segment.delete_point(10, id(7)));
    let _ = SegmentError::Full;
}

#[test]
fn segment_maps_ids_and_offsets_both_ways() {
    let mut segment = Segment::new(true);
    for n in [40u64, 10, 30, 20] {
        segment.upsert_point(1, id(n), vec![n as u32]).unwrap();
    }
    segment.delete_point(2, id(30));
    segment.upsert_point(3, PointIdType::Uuid(77), vec![0]).unwrap();
    segment.upsert_point(4, id(30), vec![31]).unwrap();
    assert_eq!(segment.iter_points(), vec![id(40), id(10), id(20), PointIdType::Uuid(77), id(30)]);
    for point in segment.iter_points() {
        let offset = segment.internal(point).unwrap();
        assert_eq!(segment.external(offset), Some(point));
    }
    assert_eq!(segment.external(2), None);
    assert_eq!(segment.internal(id(30)), Some(5));
    assert_eq!(segment.internal(id(99)), None);
    assert_eq!(segment.available_point_count(), 5);
    assert_eq!(
        segment.read_filtered(None, None),
        vec![id(10), id(20), id(30), id(40), PointIdType::Uuid(77)]
    );
    assert_eq!(segment.read_filtered(Some(id(20)), Some(2)), vec![id(20), id(30)]);
    assert_eq!(segment.read_filtered(Some(id(25)), Some(0)), Vec::<PointIdType>::new());
    assert_eq!(
        segment.read_filtered(Some(id(35)), Some(10)),
        vec![id(40), PointIdType::Uuid(77)]
    );
}

#[test]
fn proxy_copies_a_point_before_it_writes() {
    let wrapped = build_segment_1();
    let mut proxy = ProxySegment::new(wrapped, empty_segment());
    assert!(proxy.is_appendable());
    assert!(proxy.has_point(id(2)));
    assert!(!proxy.write_segment().has_point(id(2)));
    assert_eq!(proxy.available_point_count(), 5);
    assert_eq!(proxy.upsert_point(1001, id(2), bits(&[0.5, 0.5, 0.5, 0.5])), Ok(true));
    // the read is served from the write segment
    assert_eq!(proxy.get_vector(id(2)), Some(bits(&[0.5, 0.5, 0.5, 0.5])));
    assert_eq!(proxy.write_segment().get_vector(id(2)), Some(bits(&[0.5, 0.5, 0.5, 0.5])));
    assert_eq!(proxy.write_segment().iter_points(), vec![id(2)]);
    assert_eq!(proxy.deleted_points(), &vec![id(2)]);
    // the wrapped segment is as it was
    assert_eq!(proxy.wrapped_segment().get_vector(id(2)), Some(bits(&[1.0, 0.0, 1.0, 0.0])));
    assert_eq!(proxy.payload(id(2)), Some(b"{\"color\":\"red\"}".to_vec()));
    assert_eq!(proxy.available_point_count(), 5);
    // an older write changes nothing but the place of the point
    assert_eq!(proxy.upsert_point(2, id(3), bits(&[9.0, 9.0, 9.0, 9.0])), Ok(false));
    assert_eq!(proxy.get_vector(id(3)), Some(bits(&[1.0, 1.0, 1.0, 1.0])));
    assert_eq!(proxy.point_version(id(3)), Some(3));
    // a new point goes to the write segment
    assert_eq!(proxy.upsert_point(1002, id(50), vec![1]), Ok(false));
    assert!(proxy.write_segment().has_point(id(50)));
    assert!(!proxy.wrapped_segment().has_point(id(50)));
    // a deleted point is hidden, not removed
    assert!(proxy.delete_point(1003, id(5)));
    assert!(!proxy.has_point(id(5)));
    assert!(proxy.wrapped_segment().has_point(id(5)));
    assert!(!proxy.delete_point(1004, id(5)));
    assert_eq!(proxy.set_payload(1005, id(1), Some(vec![7])), Ok(true));
    assert_eq!(proxy.payload(id(1)), Some(vec![7]));
    assert_eq!(proxy.wrapped_segment().payload(id(1)), Some(b"{\"color\":\"red\"}".to_vec()));
}

#[test]
fn holder_moves_points_out_of_closed_segments() {
    let mut closed = build_segment_1();
    closed.set_appendable(false);
    let mut holder = SegmentHolder::new();
    assert!(holder.is_empty());
    let closed_id = holder.add_new(closed);
    assert_eq!(
        holder.upsert_points(100, &vec![point(1, &[0.0; 4])]),
        Err(OperationError::ServiceError {
            description: "No appendable segments exists, expected at least one".to_string()
        })
    );
    assert_eq!(holder.smallest_appendable_segment(), None);
    let open_id = holder.add_new(empty_segment());
    assert_eq!(holder.len(), 2);
    let request = vec![
        PointStruct { id: id(1), vector: vec![1], payload: Some(vec![42]) },
        point(60, &[1.0; 4]),
        PointStruct { id: id(60), vector: vec![6], payload: None },
        PointStruct { id: id(2), vector: vec![2], payload: None },
    ];
    assert_eq!(holder.upsert_points(100, &request), Ok(3));
    assert_eq!(holder.segment_of(id(1)), Some(open_id));
    assert_eq!(holder.segment_of(id(2)), Some(open_id));
    assert_eq!(holder.segment_of(id(60)), Some(open_id));
    assert_eq!(holder.segment_of(id(3)), Some(closed_id));
    assert!(!holder.get(closed_id).unwrap().has_point(id(1)));
    let records = holder.retrieve(&vec![id(60), id(9), id(1), id(2)], true, true);
    assert_eq!(records.len(), 3);
    assert_eq!(records[0].id, id(60));
    assert_eq!(records[0].vector, Some(vec![6]));
    assert_eq!(records[0].payload, None);
    assert_eq!(records[1].vector, Some(vec![1]));
    assert_eq!(records[1].payload, Some(vec![42]));
    assert_eq!(records[2].vector, Some(vec![2]));
    assert_eq!(records[2].payload, Some(b"{\"color\":\"red\"}".to_vec()));
    let bare = holder.retrieve(&vec![id(1)], false, false);
    assert_eq!((bare[0].payload.clone(), bare[0].vector.clone()), (None, None));
    // a write that is older than the point changes nothing
    assert_eq!(holder.upsert_points(50, &vec![PointStruct { id: id(1), vector: vec![5], payload: None }]), Ok(1));
    assert_eq!(holder.retrieve(&vec![id(1)], false, true)[0].vector, Some(vec![1]));
    assert!(holder.has_point(id(5)));
    assert!(!holder.has_point(id(6)));
}

#[test]
fn insert_many_points_and_read_them_back() {
    let mut holder = SegmentHolder::new();
    holder.add_new(empty_segment());
    holder.add_new(empty_segment());
    let mut seed: u64 = 0x2545f4914f6cdd1d;
    let mut request = Vec::new();
    for n in 0..200u64 {
        seed ^= seed << 13;
        seed ^= seed >> 7;
        seed ^= seed << 17;
        request.push(PointStruct {
            id: id(n),
            vector: vec![seed as u32, (seed >> 32) as u32],
            payload: Some(seed.to_le_bytes().to_vec()),
        });
    }
    assert_eq!(holder.upsert_points(1, &request), Ok(0));
    for given in &request {
        let records = holder.retrieve(&vec![given.id], true, true);
        assert_eq!(records.len(), 1);
        assert_eq!(records[0].vector.as_ref(), Some(&given.vector));
        assert_eq!(records[0].payload, given.payload);
    }
}

#[test]
fn proxy_is_read_over_both_segments() {
    let mut wrapped = empty_segment();
    for n in [1u64, 2, 3] {
        wrapped.upsert_point(1, id(n), bits(&[0.0, 0.0, 0.0, 0.0])).unwrap();
    }
    let mut proxy = ProxySegment::new(wrapped, empty_segment());
    assert_eq!(proxy.iter_points(), vec![id(1), id(2), id(3)]);
    proxy.upsert_point(2, id(2), bits(&[1.0, 0.0, 0.0, 0.0])).unwrap();
    proxy.upsert_point(2, id(9), bits(&[1.0, 0.0, 0.0, 0.0])).unwrap();
    proxy.delete_point(3, id(3));
    assert_eq!(proxy.iter_points(), vec![id(2), id(9), id(1)]);
    let locked = LockedSegment::Proxy(proxy);
    assert_eq!(locked.iter_points(), vec![id(2), id(9), id(1)]);
}

#[test]
fn filled_point_carries_what_the_proxy_wrote() {
    let mut holder = SegmentHolder::new();
    let sid1 = holder.add_new(build_segment_1());
    let _proxy_id = wrap_proxy(&mut holder, sid1);
    let mut new_point = point(2, &[9.0, 8.0, 7.0, 6.0]);
    new_point.payload = Some(b"written through the proxy".to_vec());
    holder.upsert_points(1001, &vec![new_point]).unwrap();
    let shard = LocalShard::new(holder);
    let response = vec![
        ScoredPoint { id: id(77), version: 0, score: 9 },
        ScoredPoint { id: id(2), version: 1001, score: 5 },
    ];
    let filled = shard.fill_with_payload_or_vectors(response.clone(), true, true);
    assert_eq!(
        filled,
        vec![FilledPoint {
            id: id(2),
            version: 1001,
            score: 5,
            payload: Some(b"written through the proxy".to_vec()),
            vector: Some(bits(&[9.0, 8.0, 7.0, 6.0])),
        }]
    );
    let bare = shard.fill_with_payload_or_vectors(response, false, false);
    assert_eq!(bare.len(), 1);
    assert_eq!((bare[0].payload.clone(), bare[0].vector.clone()), (None, None));
}

use vector_engine::async_io_mock::UringReader;
use vector_engine::distance::Distance;
use vector_engine::payload_storage::OnDiskPayloadStorage;
use vector_engine::multi_dense_storage::{
    new_storage, open_appendable_memmap_multi_vector_storage,
    open_appendable_memmap_multi_vector_storage_byte,
    open_appendable_memmap_multi_vector_storage_half,
    open_appendable_memmap_multi_vector_storage_impl, AppendableMmapMultiDenseVectorStorage,
    MultiVectorComparator, MultiVectorConfig, VectorStorageEnum, CHUNK_SIZE_BYTES,
};
use vector_engine::types::OperationError;

const CONFIG: MultiVectorConfig = MultiVectorConfig { comparator: MultiVectorComparator::MaxSim };

fn small() -> AppendableMmapMultiDenseVectorStorage<u8> {
    // chunks of four vectors
    new_storage(2, Distance::Dot, CONFIG, 4, 1)
}

fn multi(values: &[[u8; 2]]) -> Vec<Vec<u8>> {
    values.iter().map(|v| v.to_vec()).collect()
}

fn too_large() -> OperationError {
    OperationError::ServiceError {
        description: "Cannot insert multi vector to the mmap vector storage. It's too large."
            .to_string(),
    }
}

#[test]
fn storage_opens_by_element_type() {
    match open_appendable_memmap_multi_vector_storage(128, Distance::Cosine, CONFIG).unwrap() {
        VectorStorageEnum::MultiDenseAppendableMemmap(storage) => {
            assert_eq!(storage.vector_dim(), 128);
            assert_eq!(storage.distance(), Distance::Cosine);
            assert_eq!(storage.multi_vector_config(), &CONFIG);
            assert_eq!(storage.total_vector_count(), 0);
            assert!(storage.is_on_disk());
        }
        _ => panic!("wrong type"),
    }
    assert!(matches!(
        open_appendable_memmap_multi_vector_storage_byte(128, Distance::Dot, CONFIG),
        Ok(VectorStorageEnum::MultiDenseAppendableMemmapByte(_))
    ));
    assert!(matches!(
        open_appendable_memmap_multi_vector_storage_half(128, Distance::Euclid, CONFIG),
        Ok(VectorStorageEnum::MultiDenseAppendableMemmapHalf(_))
    ));
    let refused = OperationError::ServiceError {
        description: "Vector does not fit a chunk of the storage".to_string(),
    };
    assert_eq!(
        open_appendable_memmap_multi_vector_storage_byte(0, Distance::Dot, CONFIG).unwrap_err(),
        refused
    );
    assert_eq!(
        open_appendable_memmap_multi_vector_storage(CHUNK_SIZE_BYTES, Distance::Dot, CONFIG)
            .unwrap_err(),
        refused
    );
    assert!(open_appendable_memmap_multi_vector_storage_impl::<u8>(
        CHUNK_SIZE_BYTES,
        Distance::Dot,
        CONFIG,
        1
    )
    .is_ok());
}

#[test]
fn inserted_vectors_are_read_back() {
    let mut storage = small();
    assert_eq!(storage.insert_vector(0, &multi(&[[1, 2], [3, 4]])), Ok(()));
    assert_eq!(storage.insert_vector(1, &multi(&[[5, 6]])), Ok(()));
    assert_eq!(storage.get_multi_opt(0), Some(multi(&[[1, 2], [3, 4]])));
    assert_eq!(storage.get_multi_opt(1), Some(multi(&[[5, 6]])));
    assert_eq!(storage.get_multi_opt(2), None);
    assert_eq!(storage.total_vector_count(), 2);
    // fewer vectors go into the old place
    assert_eq!(storage.insert_vector(0, &multi(&[[9, 9]])), Ok(()));
    assert_eq!(storage.get_multi_opt(0), Some(multi(&[[9, 9]])));
    assert_eq!(storage.get_multi_opt(1), Some(multi(&[[5, 6]])));
    // more vectors go behind the last; two are left in the chunk, three need the next
    assert_eq!(storage.insert_vector(1, &multi(&[[1, 1], [2, 2], [3, 3]])), Ok(()));
    assert_eq!(storage.get_multi_opt(1), Some(multi(&[[1, 1], [2, 2], [3, 3]])));
    assert_eq!(storage.get_multi_opt(0), Some(multi(&[[9, 9]])));
    // 7 places of 2 bytes are in use, and no point is deleted
    assert_eq!(storage.available_size_in_bytes(), Some(14));
    // a point beyond the last leaves empty points between
    assert_eq!(storage.insert_vector(4, &multi(&[[7, 7]])), Ok(()));
    assert_eq!(storage.total_vector_count(), 5);
    assert_eq!(storage.get_multi_opt(3), Some(vec![]));
    assert_eq!(storage.get_multi_opt(4), Some(multi(&[[7, 7]])));
}

#[test]
fn multi_vector_must_be_smaller_than_a_chunk() {
    let mut storage = small();
    storage.insert_vector(0, &multi(&[[1, 2]])).unwrap();
    assert_eq!(storage.insert_vector(1, &multi(&[[0, 0]; 4])), Err(too_large()));
    assert_eq!(storage.insert_vector(0, &multi(&[[0, 0]; 9])), Err(too_large()));
    assert_eq!(storage.total_vector_count(), 1);
    assert_eq!(storage.get_multi_opt(0), Some(multi(&[[1, 2]])));
    assert_eq!(storage.insert_vector(1, &multi(&[[0, 0]; 3])), Ok(()));
}

#[test]
fn deleted_points_are_counted() {
    let mut storage = small();
    for key in 0..3 {
        storage.insert_vector(key, &multi(&[[key as u8, 0]])).unwrap();
    }
    assert!(!storage.delete_vector(1));
    assert!(storage.delete_vector(1));
    assert!(!storage.delete_vector(7));
    assert!(storage.is_deleted_vector(1));
    assert!(!storage.is_deleted_vector(0));
    assert!(!storage.is_deleted_vector(7));
    assert_eq!(storage.deleted_vector_count(), 1);
    assert_eq!(storage.available_vector_count(), 2);
    assert_eq!(storage.deleted_vector_bitslice(), &vec![false, true, false]);
    // 3 places of 2 bytes, two of three points live
    assert_eq!(storage.available_size_in_bytes(), Some(4));
    assert!(storage.set_deleted(1, false));
    assert!(!storage.set_deleted(1, false));
    assert_eq!(storage.deleted_vector_count(), 0);
    storage.delete_vector(2);
    // a write brings the point back
    storage.insert_vector(2, &multi(&[[5, 5]])).unwrap();
    assert!(!storage.is_deleted_vector(2));
    assert_eq!(storage.deleted_vector_count(), 0);
}

#[test]
fn points_are_copied_from_another_storage() {
    let mut other = small();
    other.insert_vector(0, &multi(&[[1, 1]])).unwrap();
    other.insert_vector(1, &multi(&[[2, 2], [3, 3]])).unwrap();
    other.insert_vector(2, &multi(&[[4, 4]])).unwrap();
    other.delete_vector(1);
    let mut storage = small();
    storage.insert_vector(0, &multi(&[[9, 9]])).unwrap();
    assert_eq!(storage.update_from(&other, &vec![2, 1], &|| false), Ok((1, 3)));
    assert_eq!(storage.get_multi_opt(0), Some(multi(&[[9, 9]])));
    assert_eq!(storage.get_multi_opt(1), Some(multi(&[[4, 4]])));
    assert_eq!(storage.get_multi_opt(2), Some(multi(&[[2, 2], [3, 3]])));
    assert!(!storage.is_deleted_vector(1));
    assert!(storage.is_deleted_vector(2));
    assert_eq!(storage.update_from(&other, &vec![], &|| true), Ok((3, 3)));
    assert_eq!(
        storage.update_from(&other, &vec![0], &|| true),
        Err(OperationError::Cancelled { description: "process cancelled by service".to_string() })
    );
    assert_eq!(storage.total_vector_count(), 3);
}

fn joined(stored: Vec<u8>, given: Vec<u8>) -> Vec<u8> {
    let mut all = stored;
    all.push(b'+');
    all.extend(given);
    all
}

#[test]
fn assigned_payload_is_merged_into_the_stored_one() {
    let mut storage = OnDiskPayloadStorage::open();
    storage.assign(3, &b"a".to_vec(), joined);
    assert_eq!(storage.read_payload(3), Some(b"a".to_vec()));
    storage.assign(3, &b"b".to_vec(), joined);
    assert_eq!(storage.read_payload(3), Some(b"a+b".to_vec()));
    storage.assign_all(3, &b"c".to_vec());
    assert_eq!(storage.read_payload(3), Some(b"c".to_vec()));
    assert_eq!(storage.read_payload(4), None);
}

#[test]
fn payload_is_assigned_by_key() {
    let mut storage = OnDiskPayloadStorage::open();
    let merged = storage.assign_by_key(5, &b"x".to_vec(), |stored, given| Ok(joined(stored, given)));
    assert_eq!(merged, Ok(()));
    assert_eq!(storage.read_payload(5), Some(b"+x".to_vec()));
    let merged = storage.assign_by_key(5, &b"y".to_vec(), |stored, given| Ok(joined(stored, given)));
    assert_eq!(merged, Ok(()));
    assert_eq!(storage.read_payload(5), Some(b"+x+y".to_vec()));
    let failed = storage.assign_by_key(5, &b"z".to_vec(), |_, _| {
        Err(OperationError::ServiceError { description: "no such path".to_string() })
    });
    assert_eq!(
        failed,
        Err(OperationError::ServiceError { description: "no such path".to_string() })
    );
    assert_eq!(storage.read_payload(5), Some(b"+x+y".to_vec()));
}

#[test]
fn values_are_deleted_from_a_payload() {
    let mut storage = OnDiskPayloadStorage::open();
    let nothing = storage.delete(9, |stored| (vec![stored], vec![]));
    assert!(nothing.is_empty());
    assert_eq!(storage.read_payload(9), None);
    storage.update_storage(9, &b"abc".to_vec());
    let kept = storage.delete(9, |_| (vec![], b"changed".to_vec()));
    assert!(kept.is_empty());
    assert_eq!(storage.read_payload(9), Some(b"abc".to_vec()));
    let removed = storage.delete(9, |stored| (vec![stored[..1].to_vec()], stored[1..].to_vec()));
    assert_eq!(removed, vec![b"a".to_vec()]);
    assert_eq!(storage.read_payload(9), Some(b"bc".to_vec()));
}

#[test]
fn reader_stand_in_is_made_for_any_sizes() {
    assert!(UringReader::<u8>::new(0, 0).is_ok());
    assert!(UringReader::<u32>::new(1 << 20, 16).is_ok());
}

#[test]
fn inner_vectors_come_point_by_point() {
    let mut storage = small();
    assert!(storage.iterate_inner_vectors().is_empty());
    assert_eq!(storage.insert_vector(0, &multi(&[[1, 2], [3, 4]])), Ok(()));
    assert_eq!(storage.insert_vector(2, &multi(&[[5, 6]])), Ok(()));
    assert_eq!(storage.get_multi(0), multi(&[[1, 2], [3, 4]]));
    assert_eq!(storage.get_vector(2), multi(&[[5, 6]]));
    assert_eq!(storage.get_vector(1), Vec::<Vec<u8>>::new());
    assert_eq!(storage.get_vector_opt(2), Some(multi(&[[5, 6]])));
    assert_eq!(storage.get_vector_opt(3), None);
    assert_eq!(storage.iterate_inner_vectors(), multi(&[[1, 2], [3, 4], [5, 6]]));
    // a point that is written again keeps its turn
    assert_eq!(storage.insert_vector(0, &multi(&[[7, 8], [9, 9], [4, 4]])), Ok(()));
    assert_eq!(storage.iterate_inner_vectors(), multi(&[[7, 8], [9, 9], [4, 4], [5, 6]]));
}

#[test]
fn payloads_are_walked_in_the_order_of_the_points() {
    let mut storage = OnDiskPayloadStorage::open();
    for point in [70_000u32, 5, 300, 24, 0] {
        storage.update_storage(point, &point.to_string().into_bytes());
    }
    let rows = storage.iter().unwrap();
    assert_eq!(rows.iter().map(|row| row.0).collect::<Vec<_>>(), vec![0, 5, 24, 300, 70_000]);
    for (point, payload) in rows {
        assert_eq!(payload, point.to_string().into_bytes());
        assert_eq!(storage.read_payload(point), Some(payload));
    }
}

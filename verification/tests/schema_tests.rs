use vector_engine::hnsw::{discovery_entry_points, search_plain};
use vector_engine::hnsw_build::{draw_levels, get_random_layer, level_from_draws};
use vector_engine::payload_storage::OnDiskPayloadStorage;
use vector_engine::planned_query::{Direction, Fusion, OrderBy};
use vector_engine::resharding::{ReshardKey, ShardKey};
use vector_engine::schema::{
    shard_selection, validate_multi_vector, BaseGroupRequest, ContextInput, ContextPair,
    DiscoverInput, FusionQuery, Invalid, NamedSparseVector, NamedVector, NamedVectorStruct,
    NearestQuery, OrderByInterface,
    OrderByQuery, Prefetch, Query, QueryBaseGroupRequest, QueryGroupsRequest,
    QueryGroupsRequestInternal, QueryInterface, QueryRequestInternal, QueryResponse,
    SearchGroupsRequestInternal, SearchRequestInternal,
    RecommendInput, RecommendQuery, RecommendStrategy, ShardKeySelector, ShardSelectorInternal,
    SparseVector, Vector, VectorInput, VectorStruct,
};
use vector_engine::shard_transfer::{
    proposal_error, CollectionMetaOperations, ConsensusOperations, Proposal, ReplicaState,
    ReshardingOperation, SetShardReplicaState, ShardTransfer, ShardTransferDispatcher,
    ShardTransferKey, ShardTransferMethod, ShardTransferOperations, ShardTransferRestart,
};
use vector_engine::tracing_config::{Color, Config, SpanEvent};
use vector_engine::types::{OperationError, PointIdType, ScoredPoint, ScoredPointOffset};

fn dense(n: u32) -> VectorInput {
    VectorInput::DenseVector(vec![n, n])
}

fn sparse(indices: Vec<u32>, values: Vec<u32>) -> SparseVector {
    SparseVector { indices, values }
}

#[test]
fn vector_struct_is_empty_when_every_vector_is() {
    assert!(VectorStruct::Single(vec![]).is_empty());
    assert!(!VectorStruct::Single(vec![1]).is_empty());
    assert!(VectorStruct::MultiDense(vec![]).is_empty());
    assert!(!VectorStruct::MultiDense(vec![vec![]]).is_empty());
    assert!(VectorStruct::Named(vec![]).is_empty());
    let named = |last: Vector| {
        VectorStruct::Named(vec![
            ("a".to_string(), Vector::Dense(vec![])),
            ("b".to_string(), Vector::Sparse(sparse(vec![], vec![]))),
            ("c".to_string(), last),
        ])
    };
    assert!(named(Vector::MultiDense(vec![])).is_empty());
    assert!(!named(Vector::Sparse(sparse(vec![3], vec![1]))).is_empty());
}

#[test]
fn multi_vector_needs_vectors_of_one_dimension() {
    assert_eq!(validate_multi_vector(&vec![vec![1, 2], vec![3, 4]]), Ok(()));
    assert_eq!(validate_multi_vector(&vec![]), Err(Invalid::EmptyMultiVector));
    assert_eq!(validate_multi_vector(&vec![vec![1], vec![]]), Err(Invalid::EmptyVector));
    assert_eq!(validate_multi_vector(&vec![vec![1], vec![1, 2]]), Err(Invalid::MixedDimensions));
    assert_eq!(Vector::Dense(vec![]).validate(), Ok(()));
    assert_eq!(Vector::MultiDense(vec![]).validate(), Err(Invalid::EmptyMultiVector));
    assert_eq!(sparse(vec![1, 5, 3], vec![0, 0, 0]).validate(), Ok(()));
    assert_eq!(sparse(vec![1, 5], vec![0]).validate(), Err(Invalid::SparseLengths));
    assert_eq!(sparse(vec![1, 5, 1], vec![0, 0, 0]).validate(), Err(Invalid::SparseIndexTwice));
    assert_eq!(
        NamedVectorStruct::Sparse(NamedSparseVector {
            name: "s".to_string(),
            vector: sparse(vec![2, 2], vec![0, 0])
        })
        .validate(),
        Err(Invalid::SparseIndexTwice)
    );
    assert_eq!(NamedVectorStruct::Default(vec![]).validate(), Ok(()));
    assert_eq!(
        NamedVectorStruct::Dense(NamedVector { name: "d".to_string(), vector: vec![1] }).validate(),
        Ok(())
    );
    assert_eq!(
        Invalid::MixedDimensions.to_error(),
        OperationError::ValidationError {
            description: "all vectors must have the same dimension".to_string()
        }
    );
}

#[test]
fn recommendation_needs_an_example() {
    let input = |positive, negative| RecommendInput { positive, negative, strategy: None };
    assert_eq!(input(None, None).validate(), Err(Invalid::NoExamples));
    assert_eq!(input(Some(vec![]), Some(vec![])).validate(), Err(Invalid::NoExamples));
    assert_eq!(
        Invalid::NoExamples.to_error(),
        OperationError::ValidationError {
            description: "At least one positive or negative vector/id must be provided".to_string()
        }
    );
    assert_eq!(input(None, Some(vec![dense(1)])).validate(), Ok(()));
    let both = input(
        Some(vec![dense(1), VectorInput::Id(PointIdType::NumId(4))]),
        Some(vec![dense(2)]),
    );
    assert_eq!(both.validate(), Ok(()));
    assert_eq!(
        both.iter(),
        vec![&dense(1), &VectorInput::Id(PointIdType::NumId(4)), &dense(2)]
    );
    let bad = input(
        Some(vec![dense(1)]),
        Some(vec![VectorInput::MultiDenseVector(vec![]), VectorInput::SparseVector(sparse(vec![1], vec![]))]),
    );
    assert_eq!(bad.validate(), Err(Invalid::EmptyMultiVector));
    assert_eq!(RecommendStrategy::default(), RecommendStrategy::AverageVector);
}

#[test]
fn queries_are_checked_through() {
    let pair = |positive, negative| ContextPair { positive, negative };
    let good = pair(dense(1), dense(2));
    assert_eq!(good.iter(), vec![&dense(1), &dense(2)]);
    assert_eq!(good.validate(), Ok(()));
    let bad = || pair(dense(1), VectorInput::SparseVector(sparse(vec![1, 1], vec![0, 0])));
    assert_eq!(bad().validate(), Err(Invalid::SparseIndexTwice));
    assert_eq!(ContextInput(None).validate(), Ok(()));
    assert_eq!(ContextInput(Some(vec![pair(dense(1), dense(2)), bad()])).validate(), Err(Invalid::SparseIndexTwice));
    let discover = DiscoverInput { target: dense(1), context: Some(vec![bad()]) };
    assert_eq!(discover.validate(), Err(Invalid::SparseIndexTwice));
    let nearest = Query::Nearest(NearestQuery { nearest: VectorInput::MultiDenseVector(vec![vec![]]) });
    assert_eq!(nearest.validate(), Err(Invalid::EmptyVector));
    let fusion = Query::Fusion(FusionQuery { fusion: Fusion::Rrf });
    assert_eq!(fusion.validate(), Ok(()));
    let order = Query::OrderBy(OrderByQuery { order_by: OrderByInterface::Key("timestamp".to_string()) });
    assert_eq!(order.validate(), Ok(()));
    let by = OrderByInterface::Struct(OrderBy { key: "price".to_string(), direction: Direction::Asc });
    assert_eq!(Query::OrderBy(OrderByQuery { order_by: by }).validate(), Ok(()));
    let recommend = Query::Recommend(RecommendQuery {
        recommend: RecommendInput { positive: None, negative: None, strategy: Some(RecommendStrategy::BestScore) },
    });
    assert_eq!(QueryInterface::Query(recommend).validate(), Err(Invalid::NoExamples));
    assert_eq!(QueryInterface::Nearest(dense(3)).validate(), Ok(()));
}

fn request(query: Option<QueryInterface>, limit: Option<usize>) -> QueryRequestInternal {
    QueryRequestInternal {
        prefetch: None,
        query,
        using: None,
        params: None,
        score_threshold: None,
        limit,
        offset: None,
        with_vector: None,
        with_payload: None,
        lookup_from: None,
    }
}

fn prefetch(inner: Option<Vec<Prefetch>>, limit: Option<usize>) -> Prefetch {
    Prefetch {
        prefetch: inner,
        query: Some(QueryInterface::Nearest(dense(1))),
        using: None,
        params: None,
        score_threshold: None,
        limit,
        lookup_from: None,
    }
}

#[test]
fn limits_are_one_at_the_least() {
    assert_eq!(request(None, None).validate(), Ok(()));
    assert_eq!(request(None, Some(1)).validate(), Ok(()));
    assert_eq!(request(None, Some(0)).validate(), Err(Invalid::BelowMinimum));
    assert_eq!(
        request(Some(QueryInterface::Nearest(VectorInput::MultiDenseVector(vec![]))), Some(0)).validate(),
        Err(Invalid::EmptyMultiVector)
    );
    assert!(prefetch(None, Some(5)).validate());
    assert!(!prefetch(None, Some(0)).validate());
    assert!(prefetch(Some(vec![prefetch(None, None), prefetch(Some(vec![]), Some(2))]), None).validate());
    assert!(!prefetch(Some(vec![prefetch(None, None), prefetch(Some(vec![prefetch(None, Some(0))]), Some(2))]), None)
        .validate());
    let group = |group_size, limit| BaseGroupRequest {
        group_by: "city".to_string(),
        group_size,
        limit,
        with_lookup: None,
    };
    assert_eq!(group(1, 1).validate(), Ok(()));
    assert_eq!(group(0, 1).validate(), Err(Invalid::BelowMinimum));
    assert_eq!(group(1, 0).validate(), Err(Invalid::BelowMinimum));
    let query_group = |group_size, limit| QueryBaseGroupRequest {
        group_by: "city".to_string(),
        group_size,
        limit,
        with_lookup: None,
    };
    assert_eq!(query_group(None, None).validate(), Ok(()));
    assert_eq!(query_group(Some(3), Some(10)).validate(), Ok(()));
    assert_eq!(query_group(Some(0), None).validate(), Err(Invalid::BelowMinimum));
    assert_eq!(query_group(None, Some(0)).validate(), Err(Invalid::BelowMinimum));
}

#[test]
fn request_without_a_shard_key_goes_to_all_shards() {
    assert_eq!(shard_selection(None), ShardSelectorInternal::All);
    let key = ShardKey::Keyword("region_1".to_string());
    assert_eq!(
        shard_selection(Some(ShardKeySelector::ShardKey(key.clone()))),
        ShardSelectorInternal::ShardKey(key.clone())
    );
    assert_eq!(
        shard_selection(Some(ShardKeySelector::ShardKeys(vec![key.clone(), ShardKey::Number(2)]))),
        ShardSelectorInternal::ShardKeys(vec![key, ShardKey::Number(2)])
    );
}

#[test]
fn logger_config_takes_what_the_other_sets() {
    let mut config = Config {
        log_level: Some("info".to_string()),
        span_events: None,
        color: Some(Color::Explicit(false)),
    };
    config.merge(Config {
        log_level: None,
        span_events: Some(vec![SpanEvent::New, SpanEvent::Close]),
        color: Some(Color::Auto),
    });
    assert_eq!(
        config,
        Config {
            log_level: Some("info".to_string()),
            span_events: Some(vec![SpanEvent::New, SpanEvent::Close]),
            color: Some(Color::Auto),
        }
    );
    config.merge(Config { log_level: Some("debug".to_string()), ..Config::default() });
    assert_eq!(config.log_level, Some("debug".to_string()));
    assert_eq!(config.filter_directives(), "debug");
    assert_eq!(Config::default().filter_directives(), "");
    assert!(config.use_color(true));
    assert!(!config.use_color(false));
    config.merge(Config { color: Some(Color::Explicit(true)), ..Config::default() });
    assert!(config.use_color(false));
    assert_eq!(Color::default(), Color::Auto);
    assert!(!Color::Explicit(false).to_bool(true));
}

#[test]
fn transfer_steps_become_proposals() {
    let dispatcher = ShardTransferDispatcher::new(true, true, 11, 5, 2);
    assert_eq!(dispatcher.this_peer_id(), 11);
    assert_eq!(dispatcher.consensus_commit_term(), (5, 2));
    assert!(dispatcher.can_propose());
    let transfer = ShardTransfer { shard_id: 3, from: 1, to: 2, sync: true, method: None };
    let key = ShardTransferKey { shard_id: 3, from: 1, to: 2 };
    assert_eq!(transfer.key(), key);
    let meta = |operation| ConsensusOperations::CollectionMeta(Box::new(operation));
    let of = |operation| meta(CollectionMetaOperations::TransferShard("books".to_string(), operation));
    assert_eq!(
        dispatcher.snapshot_recovered_switch_to_partial(&transfer, "books".to_string()),
        Ok(of(ShardTransferOperations::RecoveryToPartial(key)))
    );
    assert_eq!(
        dispatcher.start_shard_transfer(transfer, "books".to_string()),
        of(ShardTransferOperations::Start(transfer))
    );
    assert_eq!(
        dispatcher.restart_shard_transfer(transfer, "books".to_string()),
        of(ShardTransferOperations::Restart(ShardTransferRestart {
            shard_id: 3,
            from: 1,
            to: 2,
            method: ShardTransferMethod::StreamRecords
        }))
    );
    let by_snapshot = ShardTransfer { method: Some(ShardTransferMethod::Snapshot), ..transfer };
    assert_eq!(by_snapshot.restart().method, ShardTransferMethod::Snapshot);
    assert_eq!(
        dispatcher.abort_shard_transfer(key, "books".to_string(), "peer is gone"),
        of(ShardTransferOperations::Abort { transfer: key, reason: "peer is gone".to_string() })
    );
    assert_eq!(
        dispatcher.set_shard_replica_set_state("books".to_string(), 3, ReplicaState::Partial, Some(ReplicaState::Recovery)),
        meta(CollectionMetaOperations::SetShardReplicaState(SetShardReplicaState {
            collection_name: "books".to_string(),
            shard_id: 3,
            peer_id: 11,
            state: ReplicaState::Partial,
            from_state: Some(ReplicaState::Recovery),
        }))
    );
    let reshard = ReshardKey { peer_id: 2, shard_id: 9, shard_key: None };
    assert_eq!(
        dispatcher.commit_read_hashring("books".to_string(), reshard.clone()),
        meta(CollectionMetaOperations::Resharding(
            "books".to_string(),
            ReshardingOperation::CommitRead(reshard.clone())
        ))
    );
    assert_eq!(
        dispatcher.commit_write_hashring("books".to_string(), reshard.clone()),
        meta(CollectionMetaOperations::Resharding(
            "books".to_string(),
            ReshardingOperation::CommitWrite(reshard)
        ))
    );
    let gone = ShardTransferDispatcher::new(false, true, 11, 5, 2);
    assert_eq!(
        gone.snapshot_recovered_switch_to_partial(&transfer, "books".to_string()),
        Err(OperationError::ServiceError {
            description: "Can't set shard state, table of contents is dropped".to_string()
        })
    );
    let alone = ShardTransferDispatcher::new(true, false, 11, 5, 2);
    assert!(!alone.can_propose());
    assert_eq!(
        alone.snapshot_recovered_switch_to_partial(&transfer, "books".to_string()),
        Err(OperationError::ServiceError {
            description: "Can't set shard state, this is a single node deployment".to_string()
        })
    );
    assert_eq!(
        proposal_error(Proposal::CommitReadHashring, "timed out"),
        OperationError::ServiceError {
            description: "Failed to propose and confirm commit read hashring operation through consensus: timed out".to_string()
        }
    );
    assert_eq!(Proposal::Abort.words(), "shard transfer abort");
}

#[test]
fn payloads_are_kept_under_cbor_keys() {
    let mut storage = OnDiskPayloadStorage::open();
    let points = [0u32, 23, 24, 255, 256, 65_535, 65_536, 16_777_216, u32::MAX];
    for point in points {
        assert_eq!(storage.read_payload(point), None);
        storage.update_storage(point, &point.to_string().into_bytes());
    }
    for point in points {
        assert_eq!(storage.read_payload(point), Some(point.to_string().into_bytes()));
    }
    // the keys are read back as the points they were written for
    let rows = storage.iter().unwrap();
    assert_eq!(rows.iter().map(|row| row.0).collect::<Vec<_>>(), points.to_vec());
    assert_eq!(rows[3].1, b"255".to_vec());
    storage.update_storage(24, &b"new".to_vec());
    assert_eq!(storage.payload(24), b"new".to_vec());
    assert_eq!(storage.payload(25), Vec::<u8>::new());
    assert_eq!(storage.iter().unwrap().len(), 9);
    assert_eq!(storage.drop(255), Some(b"255".to_vec()));
    assert_eq!(storage.drop(255), None);
    storage.remove_from_storage(0);
    storage.remove_from_storage(1);
    assert_eq!(storage.read_payload(0), None);
    assert_eq!(storage.read_payload(256), Some(b"256".to_vec()));
    assert_eq!(storage.iter().unwrap().len(), 7);
    storage.wipe();
    assert_eq!(storage.iter(), Ok(vec![]));
    assert_eq!(storage.read_payload(23), None);
}

#[test]
fn levels_are_drawn_within_bounds() {
    assert_eq!(level_from_draws(&vec![]), 0);
    assert_eq!(level_from_draws(&vec![3, 0, 0]), 0);
    assert_eq!(level_from_draws(&vec![0, 0, 5, 0]), 2);
    assert_eq!(level_from_draws(&vec![0, 0, 0]), 3);
    let mut seen = [0usize; 5];
    for _ in 0..2000 {
        let level = get_random_layer(4, 4);
        assert!(level <= 4);
        seen[level] += 1;
    }
    assert!(seen[0] > seen[1] && seen[1] > seen[2]);
    assert_eq!(get_random_layer(16, 0), 0);
    let levels = draw_levels(&vec![7, 8, 9], 0, 2);
    assert_eq!(levels.len(), 3);
    assert!(levels.iter().all(|level| *level <= 2));
}

#[test]
fn plain_scan_of_a_small_block_equals_brute_force() {
    // 10k points, of which every 200th carries the tag
    let mut seed: u64 = 0x9e3779b97f4a7c15;
    let mut scores = Vec::new();
    for _ in 0..10_000 {
        seed ^= seed << 13;
        seed ^= seed >> 7;
        seed ^= seed << 17;
        scores.push((seed % 100_000) as i64);
    }
    let tagged: Vec<ScoredPointOffset> = (0..10_000u32)
        .filter(|idx| idx % 200 == 0)
        .map(|idx| ScoredPointOffset { idx, score: scores[idx as usize] })
        .collect();
    assert_eq!(tagged.len(), 50);
    let found = search_plain(tagged.clone(), 10);
    let mut reference = tagged.clone();
    reference.sort_by(|a, b| b.score.cmp(&a.score));
    reference.truncate(10);
    assert_eq!(found, reference);
    assert_eq!(discovery_entry_points(&found), reference.iter().map(|p| p.idx).collect::<Vec<_>>());
}

#[test]
fn search_requests_need_a_limit_of_one_at_least() {
    let request = |limit: usize| SearchRequestInternal {
        vector: NamedVectorStruct::Default(vec![1, 2]),
        params: None,
        limit,
        offset: None,
        with_payload: None,
        with_vector: None,
        score_threshold: None,
    };
    assert_eq!(request(1).validate(), Ok(()));
    assert_eq!(request(0).validate(), Err(Invalid::BelowMinimum));
}

#[test]
fn group_requests_are_checked_with_their_groups() {
    let groups = |group_size: u32, limit: u32| BaseGroupRequest {
        group_by: "city".to_string(),
        group_size,
        limit,
        with_lookup: None,
    };
    let search = |group_request: BaseGroupRequest| SearchGroupsRequestInternal {
        vector: NamedVectorStruct::Default(vec![1, 2]),
        params: None,
        with_payload: None,
        with_vector: None,
        score_threshold: None,
        group_request,
    };
    assert_eq!(search(groups(1, 1)).validate(), Ok(()));
    assert_eq!(search(groups(0, 1)).validate(), Err(Invalid::BelowMinimum));
    assert_eq!(search(groups(1, 0)).validate(), Err(Invalid::BelowMinimum));
    let query = |group_size: Option<usize>| QueryGroupsRequest {
        search_group_request: QueryGroupsRequestInternal {
            prefetch: None,
            query: None,
            using: None,
            params: None,
            score_threshold: None,
            with_vector: None,
            with_payload: None,
            group_request: QueryBaseGroupRequest {
                group_by: "city".to_string(),
                group_size,
                limit: None,
                with_lookup: None,
            },
        },
        shard_key: None,
    };
    assert_eq!(query(None).validate(), Ok(()));
    assert_eq!(query(Some(3)).validate(), Ok(()));
    assert_eq!(query(Some(0)).validate(), Err(Invalid::BelowMinimum));
}

#[test]
fn query_response_holds_its_points() {
    let point = ScoredPoint { id: PointIdType::NumId(7), version: 3, score: 42 };
    let response = QueryResponse { points: vec![point] };
    assert_eq!(response.points.len(), 1);
    assert_eq!(response.points[0].id, PointIdType::NumId(7));
    assert_eq!(response.points[0].score, 42);
}

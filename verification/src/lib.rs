pub mod async_io_mock;
pub mod distance;
pub mod expected_count;
pub mod fusion;
pub mod graph_layers;
pub mod hash_ring;
pub mod hnsw;
pub mod hnsw_build;
pub mod hnsw_index;
pub mod inverted_index;
pub mod local_shard;
pub mod multi_dense_storage;
pub mod payload_storage;
pub mod planned_query;
pub mod point_scorer;
pub mod posting_list;
pub mod postings_iterator;
pub mod proxy_segment;
pub mod resharding;
pub mod ring_store;
pub mod schema;
pub mod segment;
pub mod segment_holder;
pub mod shard_transfer;
pub mod snapshot_archive;
pub mod sorting;
pub mod tracing_config;
pub mod types;

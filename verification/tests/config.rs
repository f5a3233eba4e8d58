use vexra::error::Error;
use vexra::config::{
    check_query_vector, default_distance, default_top_k, default_true, reset_doc_id_counter, CollectionConfig, DatabaseConfig,
    DistanceMetric, DocIdCounter, HnswSearchParams, IndexType,
};

#[test]
fn collection_config_builders() {
    let c = CollectionConfig::new("docs", 384);
    assert_eq!(c.name, "docs");
    assert_eq!(c.dimension, 384);
    assert_eq!(c.distance, DistanceMetric::Cosine);
    assert_eq!(c.description, "");
    let c = c.with_distance(DistanceMetric::Euclidean).with_description("my docs");
    assert_eq!(c.distance, DistanceMetric::Euclidean);
    assert_eq!(c.description, "my docs");
    assert_eq!((c.data_root_page, c.metadata_root_page), (0, 0));
}

#[test]
fn defaults() {
    assert_eq!(default_distance(), DistanceMetric::Cosine);
    assert_eq!(default_top_k(), 10);
    assert!(default_true());
    let d = DatabaseConfig::default();
    assert_eq!((d.page_size, d.cache_max_pages, d.wal_checkpoint_threshold), (4096, 16384, 1000));
    assert_eq!(IndexType::default(), IndexType::Flat);
}

#[test]
fn every_metric_ranks_lower_first() {
    assert!(DistanceMetric::Cosine.lower_is_better());
    assert!(DistanceMetric::Euclidean.lower_is_better());
    assert!(DistanceMetric::DotProduct.lower_is_better());
}

#[test]
fn search_params_widen_ef_to_k() {
    let p = HnswSearchParams::new(10, 5);
    assert_eq!((p.k, p.ef), (10, 10));
    let p = HnswSearchParams::new(10, 50);
    assert_eq!((p.k, p.ef), (10, 50));
}

#[test]
fn doc_ids_count_up_and_reset() {
    let mut c = DocIdCounter::new();
    assert_eq!(c.next_doc_id(), 1);
    assert_eq!(c.next_doc_id(), 2);
    reset_doc_id_counter(&mut c, 100);
    assert_eq!(c.next_doc_id(), 100);
}

#[test]
fn query_vectors_are_checked() {
    assert_eq!(check_query_vector(3, Some(3)), Ok(()));
    assert_eq!(check_query_vector(3, Some(2)), Err(Error::DimensionMismatch { expected: 3, actual: 2 }));
    assert_eq!(
        check_query_vector(3, None),
        Err(Error::InvalidConfig("Query vector is required for search".to_string()))
    );
}

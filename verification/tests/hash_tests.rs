use experiment_data_plane::hash::{hash_to_bucket, hash_to_bucket_with_salt};
use experiment_data_plane::layer::Layer;
use experiment_data_plane::BUCKET_SIZE;
use std::collections::HashSet;

fn empty_layer(id: &str, version: &str, salt: Option<String>) -> Layer {
    Layer {
        layer_id: id.to_string(),
        version: version.to_string(),
        priority: 100,
        hash_key: "user_id".to_string(),
        salt,
        services: vec![],
        ranges: vec![],
        enabled: true,
    }
}

#[test]
fn test_hash_to_bucket_with_salt() {
    let bucket = hash_to_bucket_with_salt("user_123", "layer1_v1");
    assert!(bucket < BUCKET_SIZE);
}

#[test]
fn test_hash_determinism() {
    let key = "user_456";
    let salt = "experiment_v2";
    let bucket1 = hash_to_bucket_with_salt(key, salt);
    let bucket2 = hash_to_bucket_with_salt(key, salt);
    assert_eq!(bucket1, bucket2);
}

#[test]
fn test_different_salts_produce_different_buckets() {
    let key = "user_789";
    let bucket1 = hash_to_bucket_with_salt(key, "layer1_v1");
    let bucket2 = hash_to_bucket_with_salt(key, "layer2_v1");
    assert_ne!(bucket1, bucket2);
}

#[test]
fn test_salt_ensures_different_distribution() {
    let salts = vec!["layer1_v1", "layer2_v1", "layer3_v1"];
    let mut distributions: Vec<HashSet<u32>> = vec![HashSet::new(); salts.len()];
    for i in 0..100 {
        let key = format!("user_{}", i);
        for (idx, salt) in salts.iter().enumerate() {
            let bucket = hash_to_bucket_with_salt(&key, salt);
            distributions[idx].insert(bucket);
        }
    }
    for dist in &distributions {
        assert!(dist.len() >= 95, "Expected at least 95 unique buckets, got {}", dist.len());
    }
}

#[test]
fn test_hash_distribution() {
    let mut buckets = vec![0; BUCKET_SIZE as usize];
    let salt = "test_layer_v1";
    for i in 0..100000 {
        let key = format!("user_{}", i);
        let bucket = hash_to_bucket_with_salt(&key, salt);
        buckets[bucket as usize] += 1;
    }
    let expected = 100000 / BUCKET_SIZE;
    let mut outside_range = 0;
    for count in buckets.iter() {
        if *count < expected / 2 || *count > expected * 2 {
            outside_range += 1;
        }
    }
    assert!(outside_range < BUCKET_SIZE / 20);
}

#[test]
fn test_different_layers_produce_different_distributions() {
    let layer1 = empty_layer("experiment_a", "v1", None);
    let layer2 = empty_layer("experiment_b", "v1", None);
    let mut same_bucket_count = 0;
    let total_users = 1000;
    for i in 0..total_users {
        let user_id = format!("user_{}", i);
        let salt1 = layer1.get_salt();
        let salt2 = layer2.get_salt();
        let bucket1 = hash_to_bucket_with_salt(&user_id, &salt1);
        let bucket2 = hash_to_bucket_with_salt(&user_id, &salt2);
        if bucket1 == bucket2 {
            same_bucket_count += 1;
        }
    }
    assert!(
        same_bucket_count < total_users / 20,
        "Too many bucket collisions: {} out of {} (expected < {})",
        same_bucket_count,
        total_users,
        total_users / 20
    );
}

#[test]
fn test_custom_salt_overrides_default() {
    let layer_with_custom_salt = empty_layer("test_layer", "v1", Some("my_custom_salt_123".to_string()));
    let layer_with_default_salt = empty_layer("test_layer", "v1", None);
    assert_eq!(layer_with_custom_salt.get_salt(), "my_custom_salt_123".to_string());
    assert_eq!(layer_with_default_salt.get_salt(), "test_layer_v1".to_string());
}

#[test]
fn test_salt_ensures_independence_across_layers() {
    let user_id = "user_12345";
    let salt1 = "click_experiment_v1";
    let salt2 = "color_experiment_v1";
    let bucket1 = hash_to_bucket_with_salt(user_id, salt1);
    let bucket2 = hash_to_bucket_with_salt(user_id, salt2);
    assert_ne!(bucket1, bucket2, "Same user should get different buckets in different experiments");
}

#[test]
fn test_version_change_produces_different_salt() {
    let layer_v1 = empty_layer("experiment", "v1", None);
    let layer_v2 = empty_layer("experiment", "v2", None);
    let salt_v1 = layer_v1.get_salt();
    let salt_v2 = layer_v2.get_salt();
    assert_ne!(salt_v1, salt_v2, "Different versions should produce different salts");
    assert_eq!(salt_v1, "experiment_v1");
    assert_eq!(salt_v2, "experiment_v2");
}

#[test]
fn test_salt_distribution_uniformity() {
    let salt = "test_experiment_v1";
    let mut bucket_counts = vec![0; 100];
    for i in 0..10000 {
        let user_id = format!("user_{}", i);
        let bucket = hash_to_bucket_with_salt(&user_id, salt);
        let bin = (bucket as usize) / 100;
        bucket_counts[bin] += 1;
    }
    let expected = 100;
    let mut outliers = 0;
    for &count in &bucket_counts {
        if count < expected / 2 || count > expected * 2 {
            outliers += 1;
        }
    }
    assert!(outliers < 10, "Distribution not uniform: {} outliers out of 100 bins", outliers);
}

#[test]
fn test_hash_to_bucket_two_arg_matches_salted() {
    assert_eq!(hash_to_bucket("abc", "xyz"), hash_to_bucket_with_salt("abc", "xyz"));
}

use experiment_data_plane::catalog::{ExperimentCatalog, ExperimentDef, VariantDef};
use experiment_data_plane::hash::hash_to_bucket;
use experiment_data_plane::json::{JsonValue, json_eq, merge_params_prioritized, obj_get_value};
use experiment_data_plane::layer::{BucketRange, Layer};
use experiment_data_plane::manager::LayerManager;
use experiment_data_plane::merge::{merge_layers_batch, ExperimentRequest, ServiceResult};
use experiment_data_plane::rule::{FieldType, Node, Op};
use experiment_data_plane::BUCKET_SIZE;

fn jstr(s: &str) -> JsonValue {
    JsonValue::Str(s.to_string())
}

fn jint(i: i64) -> JsonValue {
    JsonValue::Num { int_val: Some(i), bits: (i as f64).to_bits() }
}

fn jbool(b: bool) -> JsonValue {
    JsonValue::Bool(b)
}

fn obj(entries: Vec<(&str, JsonValue)>) -> JsonValue {
    JsonValue::Obj(entries.into_iter().map(|(k, v)| (k.to_string(), v)).collect())
}

fn one_bucket_layer(id: &str, priority: i32, salt: &str, user: &str, vid: i64) -> Layer {
    let bucket = hash_to_bucket(user, salt);
    Layer {
        layer_id: id.to_string(),
        version: "v1".to_string(),
        priority,
        hash_key: "user_id".to_string(),
        salt: Some(salt.to_string()),
        services: vec![],
        ranges: vec![BucketRange {
            start: bucket,
            end: bucket.saturating_add(1).min(BUCKET_SIZE),
            vid,
        }],
        enabled: true,
    }
}

fn result_for<'a>(
    results: &'a [(String, ServiceResult)],
    service: &str,
) -> &'a ServiceResult {
    &results.iter().find(|(s, _)| s == service).unwrap().1
}

#[test]
fn test_merge_params_nested() {
    let mut target: Vec<(String, JsonValue)> = vec![
        ("a".to_string(), obj(vec![("x", jint(1))])),
        ("b".to_string(), jint(2)),
    ];
    let source = obj(vec![("a", obj(vec![("y", jint(2))])), ("c", jint(3))]);
    match merge_params_prioritized(&mut target, &source) {
        Ok(()) => {},
        Err(_) => panic!("unexpected error"),
    }
    assert!(json_eq(
        obj_get_value(&target, "a").unwrap(),
        &obj(vec![("x", jint(1)), ("y", jint(2))])
    ));
    assert!(json_eq(obj_get_value(&target, "b").unwrap(), &jint(2)));
    assert!(json_eq(obj_get_value(&target, "c").unwrap(), &jint(3)));
}

#[test]
fn test_merge_params_override() {
    let mut target: Vec<(String, JsonValue)> = vec![("key".to_string(), jstr("high_priority"))];
    let source = obj(vec![("key", jstr("low_priority"))]);
    match merge_params_prioritized(&mut target, &source) {
        Ok(()) => {},
        Err(_) => panic!("unexpected error"),
    }
    assert!(json_eq(obj_get_value(&target, "key").unwrap(), &jstr("high_priority")));
}

#[test]
fn test_merge_params_non_object_source() {
    let mut target: Vec<(String, JsonValue)> = vec![];
    let err = match merge_params_prioritized(&mut target, &jint(1)) {
        Err(e) => e,
        Ok(_) => panic!("expected an error"),
    };
    assert!(err.message().contains("Source must be an object"));
}

#[test]
fn test_merge_layers_batch() {
    let exp1 = ExperimentDef {
        eid: 100,
        service: "test_svc".to_string(),
        rule: None,
        variants: vec![
            VariantDef { vid: 1001, params: obj(vec![("feature_a", jbool(true)), ("timeout", jint(100))]) },
            VariantDef { vid: 1002, params: obj(vec![("feature_b", jbool(true)), ("timeout", jint(200))]) },
        ],
    };
    let catalog = match ExperimentCatalog::from_experiments(vec![exp1]) {
        Ok(c) => c,
        Err(_) => panic!("unexpected error"),
    };
    let test_user = "user_test_123";
    let layer1 = one_bucket_layer("layer1", 200, "layer1_v1", test_user, 1001);
    let layer2 = one_bucket_layer("layer2", 100, "layer2_v1", test_user, 1002);
    let mut manager = LayerManager::new();
    manager.load_all_layers(vec![layer1, layer2], &catalog);
    let request = ExperimentRequest {
        services: vec!["test_svc".to_string()],
        context: vec![("user_id".to_string(), jstr(test_user))],
        layers: vec![],
    };
    let field_types: Vec<(String, FieldType)> = vec![];
    let response = merge_layers_batch(&request, &manager, &catalog, &field_types);
    let result = result_for(&response.results, "test_svc");
    assert!(json_eq(obj_get_value(&result.parameters, "timeout").unwrap(), &jint(100)));
    assert!(json_eq(obj_get_value(&result.parameters, "feature_a").unwrap(), &jbool(true)));
    assert!(json_eq(obj_get_value(&result.parameters, "feature_b").unwrap(), &jbool(true)));
    assert_eq!(result.vids, vec![1001, 1002]);
    assert_eq!(result.matched_layers.len(), 2);
}

#[test]
fn test_service_mismatch_is_silent() {
    let exp = ExperimentDef {
        eid: 1,
        service: "recommendation_svc".to_string(),
        rule: None,
        variants: vec![VariantDef { vid: 11, params: obj(vec![("x", jint(1))]) }],
    };
    let catalog = match ExperimentCatalog::from_experiments(vec![exp]) {
        Ok(c) => c,
        Err(_) => panic!("unexpected error"),
    };
    let user = "user_1";
    let layer = one_bucket_layer("l1", 10, "s1", user, 11);
    let mut manager = LayerManager::new();
    manager.load_all_layers(vec![layer], &catalog);
    let request = ExperimentRequest {
        services: vec!["search_svc".to_string()],
        context: vec![("user_id".to_string(), jstr(user))],
        layers: vec![],
    };
    let response = merge_layers_batch(&request, &manager, &catalog, &vec![]);
    let result = result_for(&response.results, "search_svc");
    assert!(result.parameters.is_empty());
    assert!(result.matched_layers.is_empty());
}

#[test]
fn test_rule_gates_assignment() {
    let rule = Node::Field {
        field: "country".to_string(),
        op: Op::Eq,
        values: vec![jstr("CN")],
    };
    let exp = ExperimentDef {
        eid: 2,
        service: "svc".to_string(),
        rule: Some(rule),
        variants: vec![VariantDef { vid: 21, params: obj(vec![("feature", jstr("china_special"))]) }],
    };
    let catalog = match ExperimentCatalog::from_experiments(vec![exp]) {
        Ok(c) => c,
        Err(_) => panic!("unexpected error"),
    };
    let user = "user_cn";
    let layer = one_bucket_layer("l1", 10, "s1", user, 21);
    let mut manager = LayerManager::new();
    manager.load_all_layers(vec![layer], &catalog);
    let field_types = vec![("country".to_string(), FieldType::String)];
    let req_cn = ExperimentRequest {
        services: vec!["svc".to_string()],
        context: vec![
            ("user_id".to_string(), jstr(user)),
            ("country".to_string(), jstr("CN")),
        ],
        layers: vec![],
    };
    let resp = merge_layers_batch(&req_cn, &manager, &catalog, &field_types);
    let result = result_for(&resp.results, "svc");
    assert_eq!(result.vids, vec![21]);
    assert!(json_eq(obj_get_value(&result.parameters, "feature").unwrap(), &jstr("china_special")));
    let req_us = ExperimentRequest {
        services: vec!["svc".to_string()],
        context: vec![
            ("user_id".to_string(), jstr(user)),
            ("country".to_string(), jstr("US")),
        ],
        layers: vec![],
    };
    let resp2 = merge_layers_batch(&req_us, &manager, &catalog, &field_types);
    let result2 = result_for(&resp2.results, "svc");
    assert!(result2.vids.is_empty());
}

#[test]
fn test_missing_hash_key_skips_layer() {
    let exp = ExperimentDef {
        eid: 3,
        service: "svc".to_string(),
        rule: None,
        variants: vec![VariantDef { vid: 31, params: obj(vec![("x", jint(1))]) }],
    };
    let catalog = match ExperimentCatalog::from_experiments(vec![exp]) {
        Ok(c) => c,
        Err(_) => panic!("unexpected error"),
    };
    let layer = one_bucket_layer("l1", 10, "s1", "user_x", 31);
    let mut manager = LayerManager::new();
    manager.load_all_layers(vec![layer], &catalog);
    let request = ExperimentRequest {
        services: vec!["svc".to_string()],
        context: vec![("other".to_string(), jstr("v"))],
        layers: vec![],
    };
    let response = merge_layers_batch(&request, &manager, &catalog, &vec![]);
    let result = result_for(&response.results, "svc");
    assert!(result.vids.is_empty());
    assert!(result.matched_layers.is_empty());
}

#[test]
fn test_nested_deep_merge() {
    let high = obj(vec![("config", obj(vec![("timeout", jint(100)), ("hi", jstr("v1"))]))]);
    let low = obj(vec![("config", obj(vec![("timeout", jint(200)), ("lo", jstr("v2"))]))]);
    let mut acc: Vec<(String, JsonValue)> = vec![];
    match merge_params_prioritized(&mut acc, &high) {
        Ok(()) => {},
        Err(_) => panic!("unexpected error"),
    }
    match merge_params_prioritized(&mut acc, &low) {
        Ok(()) => {},
        Err(_) => panic!("unexpected error"),
    }
    let expected = obj(vec![("timeout", jint(100)), ("hi", jstr("v1")), ("lo", jstr("v2"))]);
    assert!(json_eq(obj_get_value(&acc, "config").unwrap(), &expected));
}

#[test]
fn test_priority_wins_overlapping_scalar() {
    let exp = ExperimentDef {
        eid: 4,
        service: "svc".to_string(),
        rule: None,
        variants: vec![
            VariantDef { vid: 41, params: obj(vec![("timeout", jint(100)), ("feature_a", jbool(true))]) },
            VariantDef { vid: 42, params: obj(vec![("timeout", jint(200)), ("feature_b", jbool(true))]) },
        ],
    };
    let catalog = match ExperimentCatalog::from_experiments(vec![exp]) {
        Ok(c) => c,
        Err(_) => panic!("unexpected error"),
    };
    let user = "user_pw";
    let layer_h = one_bucket_layer("h", 200, "salt_h", user, 41);
    let layer_l = one_bucket_layer("l", 100, "salt_l", user, 42);
    let mut manager = LayerManager::new();
    manager.load_all_layers(vec![layer_h, layer_l], &catalog);
    let request = ExperimentRequest {
        services: vec!["svc".to_string()],
        context: vec![("user_id".to_string(), jstr(user))],
        layers: vec![],
    };
    let response = merge_layers_batch(&request, &manager, &catalog, &vec![]);
    let result = result_for(&response.results, "svc");
    assert!(json_eq(obj_get_value(&result.parameters, "timeout").unwrap(), &jint(100)));
    assert!(json_eq(obj_get_value(&result.parameters, "feature_a").unwrap(), &jbool(true)));
    assert!(json_eq(obj_get_value(&result.parameters, "feature_b").unwrap(), &jbool(true)));
    assert_eq!(result.matched_layers.len(), 2);
}

#[test]
fn test_rollback_on_empty_history_fails_cleanly() {
    let catalog = match ExperimentCatalog::from_experiments(vec![]) {
        Ok(c) => c,
        Err(_) => panic!("unexpected error"),
    };
    let mut manager = LayerManager::new();
    let layer = one_bucket_layer("l1", 10, "s1", "u", 1);
    manager.load_all_layers(vec![layer], &catalog);
    let ids_before = manager.get_layer_ids();
    let err = match manager.rollback_layer("l1", &catalog) {
        Err(e) => e,
        Ok(_) => panic!("expected an error"),
    };
    assert!(err.message().contains("No rollback version available"));
    assert_eq!(manager.get_layer_ids(), ids_before);
}

#[test]
fn test_rollback_restores_previous_version() {
    let catalog = match ExperimentCatalog::from_experiments(vec![]) {
        Ok(c) => c,
        Err(_) => panic!("unexpected error"),
    };
    let mut manager = LayerManager::new();
    let mut v1 = one_bucket_layer("l1", 10, "s1", "u", 1);
    v1.version = "v1".to_string();
    let mut v2 = one_bucket_layer("l1", 20, "s1", "u", 2);
    v2.version = "v2".to_string();
    manager.load_all_layers(vec![v1], &catalog);
    manager.load_layer(v2, &catalog);
    assert_eq!(manager.get_layer("l1").unwrap().version, "v2");
    match manager.rollback_layer("l1", &catalog) {
        Ok(()) => {},
        Err(_) => panic!("unexpected error"),
    }
    assert_eq!(manager.get_layer("l1").unwrap().version, "v1");
}

#[test]
fn test_numeric_hash_key_matches_decimal_string() {
    let exp = ExperimentDef {
        eid: 5,
        service: "svc".to_string(),
        rule: None,
        variants: vec![VariantDef { vid: 51, params: obj(vec![("x", jint(1))]) }],
    };
    let catalog = match ExperimentCatalog::from_experiments(vec![exp]) {
        Ok(c) => c,
        Err(_) => panic!("unexpected error"),
    };
    // The layer's single bucket is where the decimal rendering "12345" lands,
    // so a numeric hash-key value 12345 must take the same assignment.
    let layer = one_bucket_layer("l1", 10, "s1", "12345", 51);
    let mut manager = LayerManager::new();
    manager.load_all_layers(vec![layer], &catalog);
    let request = ExperimentRequest {
        services: vec!["svc".to_string()],
        context: vec![("user_id".to_string(), jint(12345))],
        layers: vec![],
    };
    let response = merge_layers_batch(&request, &manager, &catalog, &vec![]);
    let result = result_for(&response.results, "svc");
    assert_eq!(result.vids, vec![51]);
    assert_eq!(result.matched_layers, vec!["l1".to_string()]);
}

#[test]
fn test_non_integer_numeric_hash_key_skips_layer() {
    let exp = ExperimentDef {
        eid: 6,
        service: "svc".to_string(),
        rule: None,
        variants: vec![VariantDef { vid: 61, params: obj(vec![("x", jint(1))]) }],
    };
    let catalog = match ExperimentCatalog::from_experiments(vec![exp]) {
        Ok(c) => c,
        Err(_) => panic!("unexpected error"),
    };
    let mut layer = one_bucket_layer("l1", 10, "s1", "u", 61);
    layer.ranges = vec![BucketRange { start: 0, end: BUCKET_SIZE, vid: 61 }];
    let mut manager = LayerManager::new();
    manager.load_all_layers(vec![layer], &catalog);
    let request = ExperimentRequest {
        services: vec!["svc".to_string()],
        context: vec![(
            "user_id".to_string(),
            JsonValue::Num { int_val: None, bits: (1.5f64).to_bits() },
        )],
        layers: vec![],
    };
    let response = merge_layers_batch(&request, &manager, &catalog, &vec![]);
    let result = result_for(&response.results, "svc");
    assert!(result.vids.is_empty());
}

#[test]
fn test_duplicate_services_yield_one_entry() {
    let exp = ExperimentDef {
        eid: 7,
        service: "svc".to_string(),
        rule: None,
        variants: vec![VariantDef { vid: 71, params: obj(vec![("x", jint(1))]) }],
    };
    let catalog = match ExperimentCatalog::from_experiments(vec![exp]) {
        Ok(c) => c,
        Err(_) => panic!("unexpected error"),
    };
    let layer = one_bucket_layer("l1", 10, "s1", "u7", 71);
    let mut manager = LayerManager::new();
    manager.load_all_layers(vec![layer], &catalog);
    let request = ExperimentRequest {
        services: vec!["svc".to_string(), "svc".to_string(), "other".to_string()],
        context: vec![("user_id".to_string(), jstr("u7"))],
        layers: vec![],
    };
    let response = merge_layers_batch(&request, &manager, &catalog, &vec![]);
    assert_eq!(response.results.len(), 2);
    assert_eq!(response.results[0].0, "svc");
    assert_eq!(response.results[1].0, "other");
    assert_eq!(result_for(&response.results, "svc").vids, vec![71]);
}

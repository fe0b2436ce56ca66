use experiment_data_plane::catalog::{ExperimentCatalog, ExperimentDef, VariantDef};
use experiment_data_plane::json::JsonValue;

fn def(eid: i64, service: &str, vids: Vec<i64>) -> ExperimentDef {
    ExperimentDef {
        eid,
        service: service.to_string(),
        rule: None,
        variants: vids
            .into_iter()
            .map(|vid| VariantDef { vid, params: JsonValue::Obj(vec![]) })
            .collect(),
    }
}

#[test]
fn test_catalog_duplicate_eid_rejected() {
    let err = match ExperimentCatalog::from_experiments(vec![
        def(1, "a", vec![10]),
        def(1, "b", vec![11]),
    ]) {
        Err(e) => e,
        Ok(_) => panic!("expected an error"),
    };
    assert!(err.message().contains("Duplicate eid"));
}

#[test]
fn test_catalog_duplicate_vid_rejected() {
    let err = match ExperimentCatalog::from_experiments(vec![
        def(1, "a", vec![10]),
        def(2, "b", vec![10]),
    ]) {
        Err(e) => e,
        Ok(_) => panic!("expected an error"),
    };
    assert!(err.message().contains("Duplicate vid"));
}

#[test]
fn test_catalog_lookups() {
    let catalog = match ExperimentCatalog::from_experiments(vec![
        def(1, "a", vec![10, 11]),
        def(2, "b", vec![20]),
    ]) {
        Ok(c) => c,
        Err(_) => panic!("unexpected error"),
    };
    assert_eq!(catalog.len(), 2);
    assert!(!catalog.is_empty());
    assert_eq!(catalog.get_eid_by_vid(10), Some(1));
    assert_eq!(catalog.get_eid_by_vid(20), Some(2));
    assert_eq!(catalog.get_eid_by_vid(99), None);
    let (eid, service, rule, _params) = catalog.get_variant(11).unwrap();
    assert_eq!(eid, 1);
    assert_eq!(service, "a");
    assert!(rule.is_none());
    assert!(catalog.get_variant(99).is_none());
    assert_eq!(catalog.get_experiment(2).unwrap().service, "b");
}

#[test]
fn test_catalog_update_and_remove() {
    let mut catalog = match ExperimentCatalog::from_experiments(vec![def(1, "a", vec![10])]) {
        Ok(c) => c,
        Err(_) => panic!("unexpected error"),
    };
    catalog.update_experiment(def(1, "a2", vec![10, 12])).unwrap();
    assert_eq!(catalog.get_experiment(1).unwrap().service, "a2");
    assert_eq!(catalog.get_eid_by_vid(12), Some(1));
    let err = catalog.update_experiment(def(2, "b", vec![12])).unwrap_err();
    assert!(err.message().contains("Duplicate vid"));
    catalog.remove_experiment(1);
    assert!(catalog.get_experiment(1).is_none());
    assert_eq!(catalog.get_eid_by_vid(10), None);
}

#[test]
fn test_get_all_services_sorted_unique() {
    let mk = |eid: i64, svc: &str, vid: i64| ExperimentDef {
        eid,
        service: svc.to_string(),
        rule: None,
        variants: vec![VariantDef { vid, params: JsonValue::Obj(vec![]) }],
    };
    let catalog = match ExperimentCatalog::from_experiments(vec![
        mk(1, "zeta_svc", 11),
        mk(2, "alpha_svc", 21),
        mk(3, "zeta_svc", 31),
    ]) {
        Ok(c) => c,
        Err(_) => panic!("unexpected error"),
    };
    let services = catalog.get_all_services();
    assert_eq!(services, vec!["alpha_svc".to_string(), "zeta_svc".to_string()]);
}

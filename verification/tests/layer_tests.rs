use experiment_data_plane::layer::{Layer, BucketRange, validate_and_sort_ranges};
use experiment_data_plane::BUCKET_SIZE;

fn test_layer(ranges: Vec<BucketRange>) -> Layer {
    Layer {
        layer_id: "test".to_string(),
        version: "v1".to_string(),
        priority: 100,
        hash_key: "user_id".to_string(),
        salt: None,
        services: vec!["svc".to_string()],
        ranges,
        enabled: true,
    }
}

#[test]
fn test_ranges_hit_and_hole() {
    let layer = test_layer(vec![
        BucketRange { start: 0, end: 5000, vid: 1 },
        BucketRange { start: 7500, end: 10000, vid: 2 },
    ]);
    assert_eq!(layer.get_vid(0), Some(1));
    assert_eq!(layer.get_vid(4999), Some(1));
    assert_eq!(layer.get_vid(5000), None);
    assert_eq!(layer.get_vid(7499), None);
    assert_eq!(layer.get_vid(7500), Some(2));
    assert_eq!(layer.get_vid(9999), Some(2));
}

#[test]
fn test_ranges_overlap_error() {
    let mut ranges = vec![
        BucketRange { start: 0, end: 10, vid: 1 },
        BucketRange { start: 5, end: 20, vid: 2 },
    ];
    let err = match validate_and_sort_ranges(&mut ranges) {
        Err(e) => e,
        Ok(_) => panic!("expected an error"),
    };
    assert!(err.message().contains("Overlapping ranges"));
}

#[test]
fn test_ranges_end_bound_error() {
    let mut ranges = vec![BucketRange { start: 0, end: BUCKET_SIZE + 1, vid: 1 }];
    let err = match validate_and_sort_ranges(&mut ranges) {
        Err(e) => e,
        Ok(_) => panic!("expected an error"),
    };
    assert!(err.message().contains("exceeds BUCKET_SIZE"));
}

#[test]
fn test_ranges_sorted_after_validate() {
    let mut ranges = vec![
        BucketRange { start: 5000, end: 6000, vid: 2 },
        BucketRange { start: 0, end: 1000, vid: 1 },
    ];
    match validate_and_sort_ranges(&mut ranges) {
        Ok(()) => {},
        Err(_) => panic!("unexpected error"),
    }
    assert_eq!(ranges[0].start, 0);
    assert_eq!(ranges[1].start, 5000);
}

#[test]
fn test_ranges_start_end_error() {
    let mut ranges = vec![BucketRange { start: 10, end: 10, vid: 1 }];
    let err = match validate_and_sort_ranges(&mut ranges) {
        Err(e) => e,
        Ok(_) => panic!("expected an error"),
    };
    assert!(err.message().contains("start must be < end"));
}

#[test]
fn test_get_vid_out_of_space() {
    let layer = test_layer(vec![BucketRange { start: 0, end: 10000, vid: 7 }]);
    assert_eq!(layer.get_vid(10000), None);
    assert_eq!(layer.get_vid(9999), Some(7));
}

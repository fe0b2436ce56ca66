use experiment_data_plane::json::JsonValue;
use experiment_data_plane::rule::{CmpOrder, FieldType, Node, Op, compare_semver,
    simple_pattern_match};

fn jstr(s: &str) -> JsonValue {
    JsonValue::Str(s.to_string())
}

fn jint(i: i64) -> JsonValue {
    JsonValue::Num { int_val: Some(i), bits: (i as f64).to_bits() }
}

fn jbool(b: bool) -> JsonValue {
    JsonValue::Bool(b)
}

fn setup_field_types() -> Vec<(String, FieldType)> {
    vec![
        ("user_id".to_string(), FieldType::String),
        ("country".to_string(), FieldType::String),
        ("age".to_string(), FieldType::Int),
        ("balance".to_string(), FieldType::Float),
        ("premium".to_string(), FieldType::Bool),
        ("app_version".to_string(), FieldType::SemVer),
    ]
}

fn field(name: &str, op: Op, values: Vec<JsonValue>) -> Node {
    Node::Field { field: name.to_string(), op, values }
}

#[test]
fn test_node_validation_success() {
    let field_types = setup_field_types();
    let node = Node::And {
        children: vec![
            field("country", Op::Eq, vec![jstr("US")]),
            field("age", Op::Gte, vec![jint(18)]),
        ],
    };
    assert!(node.validate(&field_types).is_ok());
}

#[test]
fn test_node_validation_field_not_found() {
    let field_types = setup_field_types();
    let node = field("unknown_field", Op::Eq, vec![jstr("value")]);
    assert!(node.validate(&field_types).is_err());
}

#[test]
fn test_node_validation_empty_values() {
    let field_types = setup_field_types();
    let node = field("country", Op::Eq, vec![]);
    assert!(node.validate(&field_types).is_err());
}

#[test]
fn test_node_validation_type_mismatch() {
    let field_types = setup_field_types();
    let node = field("age", Op::Eq, vec![jstr("not_a_number")]);
    assert!(node.validate(&field_types).is_err());
}

#[test]
fn test_evaluate_eq() {
    let field_types = setup_field_types();
    let ctx = vec![("country".to_string(), jstr("US"))];
    let node = field("country", Op::Eq, vec![jstr("US")]);
    assert_eq!(node.evaluate(&ctx, &field_types).unwrap(), true);
}

#[test]
fn test_evaluate_neq() {
    let field_types = setup_field_types();
    let ctx = vec![("country".to_string(), jstr("CN"))];
    let node = field("country", Op::Neq, vec![jstr("US")]);
    assert_eq!(node.evaluate(&ctx, &field_types).unwrap(), true);
}

#[test]
fn test_evaluate_gte() {
    let field_types = setup_field_types();
    let ctx = vec![("age".to_string(), jint(25))];
    let node = field("age", Op::Gte, vec![jint(18)]);
    assert_eq!(node.evaluate(&ctx, &field_types).unwrap(), true);
}

#[test]
fn test_evaluate_in() {
    let field_types = setup_field_types();
    let ctx = vec![("country".to_string(), jstr("US"))];
    let node = field("country", Op::In, vec![jstr("US"), jstr("CA"), jstr("UK")]);
    assert_eq!(node.evaluate(&ctx, &field_types).unwrap(), true);
}

#[test]
fn test_evaluate_not_in() {
    let field_types = setup_field_types();
    let ctx = vec![("country".to_string(), jstr("CN"))];
    let node = field("country", Op::NotIn, vec![jstr("US"), jstr("CA"), jstr("UK")]);
    assert_eq!(node.evaluate(&ctx, &field_types).unwrap(), true);
}

#[test]
fn test_evaluate_like() {
    let field_types = setup_field_types();
    let ctx = vec![("user_id".to_string(), jstr("user_12345"))];
    let node = field("user_id", Op::Like, vec![jstr("user_*")]);
    assert_eq!(node.evaluate(&ctx, &field_types).unwrap(), true);
}

#[test]
fn test_evaluate_and() {
    let field_types = setup_field_types();
    let ctx = vec![
        ("country".to_string(), jstr("US")),
        ("age".to_string(), jint(25)),
    ];
    let node = Node::And {
        children: vec![
            field("country", Op::Eq, vec![jstr("US")]),
            field("age", Op::Gte, vec![jint(18)]),
        ],
    };
    assert_eq!(node.evaluate(&ctx, &field_types).unwrap(), true);
}

#[test]
fn test_evaluate_or() {
    let field_types = setup_field_types();
    let ctx = vec![
        ("country".to_string(), jstr("CN")),
        ("age".to_string(), jint(25)),
    ];
    let node = Node::Or {
        children: vec![
            field("country", Op::Eq, vec![jstr("US")]),
            field("age", Op::Gte, vec![jint(18)]),
        ],
    };
    assert_eq!(node.evaluate(&ctx, &field_types).unwrap(), true);
}

#[test]
fn test_evaluate_not() {
    let field_types = setup_field_types();
    let ctx = vec![("country".to_string(), jstr("CN"))];
    let node = Node::Not { child: Box::new(field("country", Op::Eq, vec![jstr("US")])) };
    assert_eq!(node.evaluate(&ctx, &field_types).unwrap(), true);
}

#[test]
fn test_evaluate_nested() {
    let field_types = setup_field_types();
    let ctx = vec![
        ("country".to_string(), jstr("US")),
        ("age".to_string(), jint(25)),
        ("premium".to_string(), jbool(true)),
    ];
    let node = Node::Or {
        children: vec![
            Node::And {
                children: vec![
                    field("country", Op::Eq, vec![jstr("US")]),
                    field("age", Op::Gte, vec![jint(18)]),
                ],
            },
            field("premium", Op::Eq, vec![jbool(true)]),
        ],
    };
    assert_eq!(node.evaluate(&ctx, &field_types).unwrap(), true);
}

#[test]
fn test_compare_semver() {
    assert_eq!(compare_semver("1.2.3", "1.2.3").unwrap(), CmpOrder::Equal);
    assert_eq!(compare_semver("1.2.4", "1.2.3").unwrap(), CmpOrder::Greater);
    assert_eq!(compare_semver("1.2.2", "1.2.3").unwrap(), CmpOrder::Less);
    assert_eq!(compare_semver("2.0.0", "1.9.9").unwrap(), CmpOrder::Greater);
}

#[test]
fn test_compare_semver_zero_extension() {
    assert_eq!(compare_semver("1.2", "1.2.0").unwrap(), CmpOrder::Equal);
    assert_eq!(compare_semver("1.2", "1.2.1").unwrap(), CmpOrder::Less);
}

#[test]
fn test_compare_semver_invalid() {
    let err = compare_semver("abc", "1.2.3").unwrap_err();
    assert!(err.message().contains("Invalid semver format"));
}

#[test]
fn test_simple_pattern_match() {
    assert_eq!(simple_pattern_match("hello", "*"), true);
    assert_eq!(simple_pattern_match("hello", "hello"), true);
    assert_eq!(simple_pattern_match("hello", "world"), false);
    assert_eq!(simple_pattern_match("hello_world", "hello*"), true);
    assert_eq!(simple_pattern_match("hello_world", "*world"), true);
    assert_eq!(simple_pattern_match("hello_world", "hello*world"), true);
    assert_eq!(simple_pattern_match("hello_world", "hi*"), false);
}

#[test]
fn test_complex_rule_scenarios() {
    let field_types = setup_field_types();
    let rule = Node::And {
        children: vec![
            Node::Or {
                children: vec![
                    field("country", Op::Eq, vec![jstr("US")]),
                    field("country", Op::Eq, vec![jstr("CA")]),
                ],
            },
            Node::Or {
                children: vec![
                    field("age", Op::Gte, vec![jint(18)]),
                    field("premium", Op::Eq, vec![jbool(true)]),
                ],
            },
        ],
    };
    rule.validate(&field_types).unwrap();
    let ctx1 = vec![
        ("country".to_string(), jstr("US")),
        ("age".to_string(), jint(25)),
        ("premium".to_string(), jbool(false)),
    ];
    assert_eq!(rule.evaluate(&ctx1, &field_types).unwrap(), true);
    let ctx2 = vec![
        ("country".to_string(), jstr("CA")),
        ("age".to_string(), jint(16)),
        ("premium".to_string(), jbool(true)),
    ];
    assert_eq!(rule.evaluate(&ctx2, &field_types).unwrap(), true);
    let ctx3 = vec![
        ("country".to_string(), jstr("UK")),
        ("age".to_string(), jint(25)),
        ("premium".to_string(), jbool(false)),
    ];
    assert_eq!(rule.evaluate(&ctx3, &field_types).unwrap(), false);
    let ctx4 = vec![
        ("country".to_string(), jstr("US")),
        ("age".to_string(), jint(16)),
        ("premium".to_string(), jbool(false)),
    ];
    assert_eq!(rule.evaluate(&ctx4, &field_types).unwrap(), false);
}

#[test]
fn test_semver_comparison() {
    let field_types = setup_field_types();
    let rule = field("app_version", Op::Gte, vec![jstr("2.0.0")]);
    rule.validate(&field_types).unwrap();
    let ctx_newer = vec![("app_version".to_string(), jstr("2.5.1"))];
    assert_eq!(rule.evaluate(&ctx_newer, &field_types).unwrap(), true);
    let ctx_older = vec![("app_version".to_string(), jstr("1.9.9"))];
    assert_eq!(rule.evaluate(&ctx_older, &field_types).unwrap(), false);
}

#[test]
fn test_in_operator() {
    let field_types = setup_field_types();
    let rule = field("country", Op::In, vec![jstr("US"), jstr("CA"), jstr("UK")]);
    rule.validate(&field_types).unwrap();
    let ctx_us = vec![("country".to_string(), jstr("US"))];
    assert_eq!(rule.evaluate(&ctx_us, &field_types).unwrap(), true);
    let ctx_cn = vec![("country".to_string(), jstr("CN"))];
    assert_eq!(rule.evaluate(&ctx_cn, &field_types).unwrap(), false);
}

#[test]
fn test_like_operator() {
    let field_types = setup_field_types();
    let rule = field("user_id", Op::Like, vec![jstr("test_*")]);
    rule.validate(&field_types).unwrap();
    let ctx_match = vec![("user_id".to_string(), jstr("test_12345"))];
    assert_eq!(rule.evaluate(&ctx_match, &field_types).unwrap(), true);
    let ctx_no_match = vec![("user_id".to_string(), jstr("user_12345"))];
    assert_eq!(rule.evaluate(&ctx_no_match, &field_types).unwrap(), false);
}

#[test]
fn test_not_operator() {
    let field_types = setup_field_types();
    let rule = Node::Not { child: Box::new(field("country", Op::Eq, vec![jstr("US")])) };
    rule.validate(&field_types).unwrap();
    let ctx_us = vec![("country".to_string(), jstr("US"))];
    assert_eq!(rule.evaluate(&ctx_us, &field_types).unwrap(), false);
    let ctx_cn = vec![("country".to_string(), jstr("CN"))];
    assert_eq!(rule.evaluate(&ctx_cn, &field_types).unwrap(), true);
}

#[test]
fn test_rule_validation_and_evaluation() {
    let field_types = setup_field_types();
    let rule = Node::And {
        children: vec![
            field("country", Op::Eq, vec![jstr("US")]),
            field("age", Op::Gte, vec![jint(18)]),
        ],
    };
    rule.validate(&field_types).unwrap();
    let ctx_pass = vec![
        ("country".to_string(), jstr("US")),
        ("age".to_string(), jint(25)),
    ];
    assert_eq!(rule.evaluate(&ctx_pass, &field_types).unwrap(), true);
    let ctx_fail = vec![
        ("country".to_string(), jstr("CN")),
        ("age".to_string(), jint(25)),
    ];
    assert_eq!(rule.evaluate(&ctx_fail, &field_types).unwrap(), false);
}

#[test]
fn test_float_comparison_uses_bits() {
    let field_types = setup_field_types();
    let rule = field(
        "balance",
        Op::Gt,
        vec![JsonValue::Num { int_val: None, bits: (99.5f64).to_bits() }],
    );
    let ctx = vec![("balance".to_string(), jint(100))];
    assert_eq!(rule.evaluate(&ctx, &field_types).unwrap(), true);
    let ctx2 = vec![(
        "balance".to_string(),
        JsonValue::Num { int_val: None, bits: (-3.5f64).to_bits() },
    )];
    assert_eq!(rule.evaluate(&ctx2, &field_types).unwrap(), false);
}

#[test]
fn test_float_nan_fails_comparison() {
    let field_types = setup_field_types();
    let rule = field(
        "balance",
        Op::Eq,
        vec![JsonValue::Num { int_val: None, bits: f64::NAN.to_bits() }],
    );
    let ctx = vec![("balance".to_string(), jint(1))];
    assert!(rule.evaluate(&ctx, &field_types).is_err());
}

use asset360_rules::forward_eval::{eval_node, evaluate_forward};
use asset360_rules::json::{values_equal, JsonValue};
use asset360_rules::shacl_ast::{EnforcementLevel, PropertyPath, ShaclAst};

fn text(s: &str) -> JsonValue {
    JsonValue::String(s.to_string())
}

fn num(s: &str) -> JsonValue {
    JsonValue::Number(s.to_string())
}

fn record(pairs: &[(&str, JsonValue)]) -> JsonValue {
    JsonValue::Object(pairs.iter().map(|(k, v)| (k.to_string(), v.clone())).collect())
}

const FORBIDDEN: [(&str, &str); 9] = [
    ("In_voorbereiding", "Verkocht"),
    ("In_voorbereiding", "Afgebroken"),
    ("In_voorbereiding", "Aangevuld"),
    ("In_voorbereiding", "Uit_dienst"),
    ("In_opvolging", "Verkocht"),
    ("In_opvolging", "Afgebroken"),
    ("In_opvolging", "Aangevuld"),
    ("In_opvolging", "Uit_dienst"),
    ("Uit_opvolging", "In_dienst"),
];

fn status_combo_ast() -> ShaclAst {
    let or_children: Vec<ShaclAst> = FORBIDDEN
        .iter()
        .map(|(primary, secondary)| ShaclAst::And {
            children: vec![
                ShaclAst::PropEquals {
                    path: PropertyPath::iri("https://data.infrabel.be/asset360/ceAssetPrimaryStatus"),
                    value: text(primary),
                },
                ShaclAst::PropEquals {
                    path: PropertyPath::iri("https://data.infrabel.be/asset360/ceAssetSecondaryStatus"),
                    value: text(secondary),
                },
            ],
        })
        .collect();
    ShaclAst::Not { child: Box::new(ShaclAst::Or { children: or_children }) }
}

#[test]
fn test_forbidden_combos_produce_violations() {
    let ast = status_combo_ast();
    for (primary, secondary) in FORBIDDEN.iter() {
        let data = record(&[
            ("ceAssetPrimaryStatus", text(primary)),
            ("ceAssetSecondaryStatus", text(secondary)),
        ]);
        let violations = evaluate_forward(&ast, &data, "Forbidden combo", &EnforcementLevel::Serious);
        assert!(!violations.is_empty(), "Expected violation for {primary}/{secondary}");
        assert_eq!(violations[0].enforcement_level, EnforcementLevel::Serious);
    }
}

#[test]
fn test_valid_combos_no_violations() {
    let ast = status_combo_ast();
    let valid = [
        ("In_voorbereiding", "In_dienst"),
        ("In_opvolging", "In_dienst"),
        ("Uit_opvolging", "Verkocht"),
        ("Uit_opvolging", "Afgebroken"),
    ];
    for (primary, secondary) in valid.iter() {
        let data = record(&[
            ("ceAssetPrimaryStatus", text(primary)),
            ("ceAssetSecondaryStatus", text(secondary)),
        ]);
        let violations = evaluate_forward(&ast, &data, "Forbidden combo", &EnforcementLevel::Serious);
        assert!(violations.is_empty(), "Unexpected violation for {primary}/{secondary}: {:?}", violations);
    }
}

#[test]
fn test_missing_field_produces_violation() {
    let ast = status_combo_ast();
    let data = record(&[("ceAssetPrimaryStatus", text("In_voorbereiding"))]);
    let violations = evaluate_forward(&ast, &data, "test", &EnforcementLevel::Serious);
    assert!(violations.is_empty(), "Missing secondary should not violate");
}

#[test]
fn test_prop_in() {
    let ast = ShaclAst::PropIn {
        path: PropertyPath::iri("https://example.org/status"),
        values: vec![text("active"), text("pending")],
    };
    let data = record(&[("status", text("active"))]);
    assert!(eval_node(&ast, &data));
    let data = record(&[("status", text("deleted"))]);
    assert!(!eval_node(&ast, &data));
}

#[test]
fn test_prop_count() {
    let ast = ShaclAst::PropCount {
        path: PropertyPath::iri("https://example.org/tags"),
        min: Some(1),
        max: Some(3),
    };
    let data = record(&[("tags", JsonValue::Array(vec![text("a"), text("b")]))]);
    assert!(eval_node(&ast, &data));
    let data = record(&[("tags", JsonValue::Array(vec![]))]);
    assert!(!eval_node(&ast, &data));
    let data = record(&[("tags", JsonValue::Array(vec![text("a"), text("b"), text("c"), text("d")]))]);
    assert!(!eval_node(&ast, &data));
}

#[test]
fn test_loose_equality() {
    assert!(values_equal(&text("true"), &JsonValue::Bool(true)));
    assert!(values_equal(&text("42"), &num("42")));
}

#[test]
fn loose_equality_never_coerces_two_non_strings() {
    assert!(!values_equal(&JsonValue::Bool(true), &num("1")));
    assert!(!values_equal(&num("42"), &text("43")));
    assert!(values_equal(&num("42"), &text("42")));
}

#[test]
fn prop_count_absent_field_counts_as_zero() {
    let ast = ShaclAst::PropCount {
        path: PropertyPath::iri("https://example.org/tags"),
        min: Some(1),
        max: Some(3),
    };
    assert!(!eval_node(&ast, &record(&[])));
    assert!(!eval_node(&ast, &record(&[("tags", JsonValue::Null)])));
    assert!(eval_node(&ast, &record(&[("tags", text("one"))])));
    let no_bounds = ShaclAst::PropCount { path: PropertyPath::iri("https://example.org/tags"), min: None, max: None };
    assert!(eval_node(&no_bounds, &record(&[])));
}

#[test]
fn path_pairs_treat_absence_as_documented() {
    let eq = ShaclAst::PathEquals {
        path_a: PropertyPath::iri("https://example.org/a"),
        path_b: PropertyPath::iri("https://example.org/b"),
    };
    let dis = ShaclAst::PathDisjoint {
        path_a: PropertyPath::iri("https://example.org/a"),
        path_b: PropertyPath::iri("https://example.org/b"),
    };
    assert!(eval_node(&eq, &record(&[])));
    assert!(!eval_node(&eq, &record(&[("a", text("x"))])));
    assert!(eval_node(&eq, &record(&[("a", text("1")), ("b", num("1"))])));
    assert!(eval_node(&dis, &record(&[("a", text("x"))])));
    assert!(!eval_node(&dis, &record(&[("a", text("x")), ("b", text("x"))])));
}

#[test]
fn sequence_and_inverse_paths() {
    let seq = ShaclAst::PropEquals {
        path: PropertyPath::sequence(vec![
            PropertyPath::iri("https://example.org/owner"),
            PropertyPath::iri("https://example.org/role"),
        ]),
        value: text("admin"),
    };
    let data = record(&[("owner", record(&[("role", text("admin"))]))]);
    assert!(eval_node(&seq, &data));
    let inv = ShaclAst::PropEquals {
        path: PropertyPath::inverse(PropertyPath::iri("https://example.org/owner")),
        value: text("admin"),
    };
    assert!(!eval_node(&inv, &data));
}

#[test]
fn violation_fields_are_sorted_and_deduplicated() {
    let ast = status_combo_ast();
    let data = record(&[
        ("ceAssetPrimaryStatus", text("In_voorbereiding")),
        ("ceAssetSecondaryStatus", text("Verkocht")),
    ]);
    let violations = evaluate_forward(&ast, &data, "Forbidden combo", &EnforcementLevel::Critical);
    assert_eq!(violations.len(), 1);
    assert_eq!(violations[0].fields, vec!["ceAssetPrimaryStatus".to_string(), "ceAssetSecondaryStatus".to_string()]);
    assert_eq!(violations[0].message, "Forbidden combo");
    assert_eq!(violations[0].enforcement_level, EnforcementLevel::Critical);
    assert!(violations[0].suggested_fix.is_none());
}

#[test]
fn objects_compare_as_maps() {
    let a = record(&[("x", text("1")), ("y", num("2"))]);
    let b = record(&[("y", num("2")), ("x", text("1"))]);
    let c = record(&[("x", text("1"))]);
    assert!(values_equal(&a, &b));
    assert_eq!(a, b);
    assert!(!values_equal(&a, &c));
    assert!(!values_equal(&c, &a));
    let ast = ShaclAst::PropEquals { path: PropertyPath::iri("https://example.org/o"), value: b.clone() };
    assert!(eval_node(&ast, &record(&[("o", a.clone())])));
}

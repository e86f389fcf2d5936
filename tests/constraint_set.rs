use asset360_rules::constraint_set::{
    evaluate_predicate_for_value, ClassSchema, ConstraintSet, FieldConstraint, SlotRange,
};
use asset360_rules::json::JsonValue;
use asset360_rules::predicate::{LogicalOperator, Predicate};
use asset360_rules::shacl_ast::{EnforcementLevel, PropertyPath, ShaclAst, ShapeResult};

fn text(s: &str) -> JsonValue {
    JsonValue::String(s.to_string())
}

fn record(pairs: &[(&str, JsonValue)]) -> JsonValue {
    JsonValue::Object(pairs.iter().map(|(k, v)| (k.to_string(), v.clone())).collect())
}

fn focus(pairs: &[(&str, JsonValue)]) -> Vec<(String, JsonValue)> {
    pairs.iter().map(|(k, v)| (k.to_string(), v.clone())).collect()
}

fn status_combo_shape() -> ShapeResult {
    let forbidden = [
        ("In_voorbereiding", "Verkocht"),
        ("In_voorbereiding", "Afgebroken"),
        ("In_voorbereiding", "Aangevuld"),
        ("In_voorbereiding", "Uit_dienst"),
        ("In_opvolging", "Verkocht"),
        ("In_opvolging", "Afgebroken"),
        ("In_opvolging", "Aangevuld"),
        ("In_opvolging", "Uit_dienst"),
        ("Uit_opvolging", "In_dienst"),
    ];
    let or_children: Vec<ShaclAst> = forbidden
        .iter()
        .map(|(p, s)| ShaclAst::And {
            children: vec![
                ShaclAst::PropEquals {
                    path: PropertyPath::iri("https://data.infrabel.be/asset360/ceAssetPrimaryStatus"),
                    value: text(p),
                },
                ShaclAst::PropEquals {
                    path: PropertyPath::iri("https://data.infrabel.be/asset360/ceAssetSecondaryStatus"),
                    value: text(s),
                },
            ],
        })
        .collect();
    ShapeResult {
        shape_uri: "asset360:StatusComboShape".into(),
        target_class: "TunnelComponent".into(),
        enforcement_level: EnforcementLevel::Serious,
        message: "Forbidden status combination".into(),
        affected_fields: vec!["ceAssetPrimaryStatus".into(), "ceAssetSecondaryStatus".into()],
        introspectable: true,
        ast: Some(ShaclAst::Not { child: Box::new(ShaclAst::Or { children: or_children }) }),
        sparql: None,
    }
}

#[test]
fn test_evaluate_no_violations() {
    let cs = ConstraintSet::from_shapes(vec![status_combo_shape()]);
    let data = record(&[
        ("ceAssetPrimaryStatus", text("In_voorbereiding")),
        ("ceAssetSecondaryStatus", text("In_dienst")),
    ]);
    let violations = cs.evaluate(&data);
    assert!(violations.is_empty());
}

#[test]
fn test_evaluate_with_violation() {
    let cs = ConstraintSet::from_shapes(vec![status_combo_shape()]);
    let data = record(&[
        ("ceAssetPrimaryStatus", text("In_voorbereiding")),
        ("ceAssetSecondaryStatus", text("Verkocht")),
    ]);
    let violations = cs.evaluate(&data);
    assert_eq!(violations.len(), 1);
    assert_eq!(violations[0].message, "Forbidden status combination");
}

#[test]
fn test_evaluate_two_shapes() {
    let shape1 = status_combo_shape();
    let shape2 = ShapeResult {
        shape_uri: "asset360:AnotherShape".into(),
        target_class: "TunnelComponent".into(),
        enforcement_level: EnforcementLevel::Error,
        message: "Another rule".into(),
        affected_fields: vec!["ceAssetPrimaryStatus".into()],
        introspectable: true,
        ast: Some(ShaclAst::PropIn {
            path: PropertyPath::iri("https://data.infrabel.be/asset360/ceAssetPrimaryStatus"),
            values: vec![text("In_voorbereiding"), text("In_opvolging")],
        }),
        sparql: None,
    };
    let cs = ConstraintSet::from_shapes(vec![shape1, shape2]);
    let data = record(&[
        ("ceAssetPrimaryStatus", text("In_voorbereiding")),
        ("ceAssetSecondaryStatus", text("Verkocht")),
    ]);
    let violations = cs.evaluate(&data);
    assert_eq!(violations.len(), 1);

    let data2 = record(&[
        ("ceAssetPrimaryStatus", text("Uit_opvolging")),
        ("ceAssetSecondaryStatus", text("Verkocht")),
    ]);
    let violations2 = cs.evaluate(&data2);
    assert_eq!(violations2.len(), 1);
    assert_eq!(violations2[0].message, "Another rule");
}

#[test]
fn test_solve_without_schema() {
    let cs = ConstraintSet::from_shapes(vec![status_combo_shape()]);
    let data = record(&[
        ("ceAssetPrimaryStatus", text("In_voorbereiding")),
        ("ceAssetSecondaryStatus", text("In_dienst")),
    ]);
    let result = cs.solve(&data, "ceAssetSecondaryStatus");
    assert!(result.is_some());
    match result.unwrap() {
        FieldConstraint::Query { predicate } => {
            assert!(matches!(predicate, Predicate::Expression { operator: LogicalOperator::And, .. }));
        }
        FieldConstraint::AllowedValues { .. } => panic!("expected Query without schema"),
    }
}

#[test]
fn constraint_set_test_solve_no_restrictions() {
    let cs = ConstraintSet::from_shapes(vec![status_combo_shape()]);
    let data = record(&[
        ("ceAssetPrimaryStatus", text("In_dienst")),
        ("ceAssetSecondaryStatus", text("In_dienst")),
    ]);
    let result = cs.solve(&data, "ceAssetSecondaryStatus");
    assert!(result.is_none(), "In_dienst has no forbidden combos");
}

#[test]
fn test_affected_fields_dedup() {
    let shape1 = status_combo_shape();
    let shape2 = ShapeResult {
        shape_uri: "asset360:AnotherShape".into(),
        target_class: "TunnelComponent".into(),
        enforcement_level: EnforcementLevel::Error,
        message: "Another rule".into(),
        affected_fields: vec!["ceAssetPrimaryStatus".into(), "newField".into()],
        introspectable: true,
        ast: None,
        sparql: None,
    };
    let cs = ConstraintSet::from_shapes(vec![shape1, shape2]);
    let fields = cs.affected_fields();
    assert_eq!(
        fields,
        vec![
            "ceAssetPrimaryStatus".to_string(),
            "ceAssetSecondaryStatus".to_string(),
            "newField".to_string(),
        ]
    );
}

fn delegate_shape() -> ShapeResult {
    ShapeResult {
        shape_uri: "asset360:DelegateShape".into(),
        target_class: "TunnelComponent".into(),
        enforcement_level: EnforcementLevel::Serious,
        message: "Delegate uniqueness".into(),
        affected_fields: vec!["belongsToTunnelComplex".into(), "isTunnelDelegate".into()],
        introspectable: false,
        ast: None,
        sparql: Some(
            r#"
            SELECT $this ?path
            WHERE {
                $this asset360:belongsToTunnelComplex ?complex ;
                      asset360:isTunnelDelegate true .
                ?other asset360:belongsToTunnelComplex ?complex ;
                       asset360:isTunnelDelegate true .
                FILTER(?other != $this)
            }
            "#
            .to_owned(),
        ),
    }
}

#[test]
fn test_scope_combining_multiple() {
    let cs = ConstraintSet::from_shapes(vec![delegate_shape()]);
    let focus = focus(&[
        ("asset360_uri", text("https://example.org/tc-42")),
        ("belongsToTunnelComplex", text("complex-7")),
        ("isTunnelDelegate", JsonValue::Bool(true)),
    ]);
    let pred = cs.scope(&focus, "asset360_uri");
    assert!(pred.is_some());
}

#[test]
fn test_scope_no_scope_shapes() {
    let cs = ConstraintSet::from_shapes(vec![status_combo_shape()]);
    let focus = focus(&[("asset360_uri", text("https://example.org/obj-1"))]);
    let pred = cs.scope(&focus, "asset360_uri");
    assert!(pred.is_none(), "single-object shape needs no scope");
}

#[test]
fn scope_of_two_query_rules_is_a_disjunction() {
    let cs = ConstraintSet::from_shapes(vec![delegate_shape(), delegate_shape()]);
    let focus = focus(&[
        ("asset360_uri", text("https://example.org/tc-42")),
        ("belongsToTunnelComplex", text("complex-7")),
    ]);
    match cs.scope(&focus, "asset360_uri").unwrap() {
        Predicate::Expression { operator: LogicalOperator::Or, predicates } => assert_eq!(predicates.len(), 2),
        other => panic!("expected OR, got {:?}", other),
    }
}

#[test]
fn test_eval_pred_equals() {
    let pred = Predicate::simple("status", "equals", text("Verkocht"));
    assert!(evaluate_predicate_for_value(&pred, "status", "Verkocht"));
    assert!(!evaluate_predicate_for_value(&pred, "status", "In_dienst"));
}

#[test]
fn test_eval_pred_not_equals() {
    let pred = Predicate::not(Predicate::simple("status", "equals", text("Verkocht")));
    assert!(!evaluate_predicate_for_value(&pred, "status", "Verkocht"));
    assert!(evaluate_predicate_for_value(&pred, "status", "In_dienst"));
}

#[test]
fn test_eval_pred_in() {
    let pred = Predicate::simple("status", "in", JsonValue::Array(vec![text("A"), text("B"), text("C")]));
    assert!(evaluate_predicate_for_value(&pred, "status", "A"));
    assert!(evaluate_predicate_for_value(&pred, "status", "C"));
    assert!(!evaluate_predicate_for_value(&pred, "status", "D"));
}

#[test]
fn test_eval_pred_different_field() {
    let pred = Predicate::simple("other_field", "equals", text("X"));
    assert!(evaluate_predicate_for_value(&pred, "status", "anything"));
}

#[test]
fn test_eval_pred_and() {
    let pred = Predicate::and(vec![
        Predicate::not(Predicate::simple("status", "equals", text("Verkocht"))),
        Predicate::not(Predicate::simple("status", "equals", text("Afgebroken"))),
    ]);
    assert!(evaluate_predicate_for_value(&pred, "status", "In_dienst"));
    assert!(!evaluate_predicate_for_value(&pred, "status", "Verkocht"));
    assert!(!evaluate_predicate_for_value(&pred, "status", "Afgebroken"));
}

#[test]
fn test_eval_pred_or() {
    let pred = Predicate::or(vec![
        Predicate::simple("status", "equals", text("A")),
        Predicate::simple("status", "equals", text("B")),
    ]);
    assert!(evaluate_predicate_for_value(&pred, "status", "A"));
    assert!(evaluate_predicate_for_value(&pred, "status", "B"));
    assert!(!evaluate_predicate_for_value(&pred, "status", "C"));
}

#[test]
fn eval_pred_unknown_operator_and_coercion() {
    let pred = Predicate::simple("status", "startsWith", text("A"));
    assert!(evaluate_predicate_for_value(&pred, "status", "zzz"));
    let pred = Predicate::simple("flag", "equals", JsonValue::Bool(true));
    assert!(evaluate_predicate_for_value(&pred, "flag", "true"));
    let pred = Predicate::simple("n", "notEquals", JsonValue::Number("42".into()));
    assert!(!evaluate_predicate_for_value(&pred, "n", "42"));
}

#[test]
fn solve_with_enum_schema_lists_allowed_values() {
    let schema = ClassSchema {
        slots: vec![
            SlotRange { name: "ceAssetPrimaryStatus".into(), enum_values: None },
            SlotRange {
                name: "ceAssetSecondaryStatus".into(),
                enum_values: Some(vec![
                    "In_dienst".into(),
                    "Verkocht".into(),
                    "Afgebroken".into(),
                    "Aangevuld".into(),
                    "Uit_dienst".into(),
                ]),
            },
        ],
    };
    let cs = ConstraintSet::from_shapes(vec![status_combo_shape()]).with_schema(schema);
    assert!(cs.has_schema());
    let data = record(&[("ceAssetPrimaryStatus", text("In_voorbereiding"))]);
    match cs.solve(&data, "ceAssetSecondaryStatus").unwrap() {
        FieldConstraint::AllowedValues { values } => assert_eq!(values, vec!["In_dienst".to_string()]),
        other => panic!("expected allowed values, got {:?}", other),
    }
    match cs.solve(&record(&[("ceAssetSecondaryStatus", text("Verkocht"))]), "ceAssetPrimaryStatus").unwrap() {
        FieldConstraint::Query { .. } => {}
        other => panic!("expected a query for a non-enum slot, got {:?}", other),
    }
}

#[test]
fn solve_on_non_object_is_none() {
    let cs = ConstraintSet::from_shapes(vec![status_combo_shape()]);
    assert!(cs.solve(&text("x"), "ceAssetSecondaryStatus").is_none());
    assert_eq!(cs.shape_count(), 1);
    assert!(!cs.has_schema());
}

#[test]
fn raw_query_rules_are_not_evaluated() {
    let cs = ConstraintSet::from_shapes(vec![delegate_shape()]);
    assert!(cs.evaluate(&record(&[])).is_empty());
}

#[test]
fn from_shacl_reports_parse_errors() {
    let r = ConstraintSet::from_shacl("this is not turtle", "", "", None);
    match r {
        Err(m) => assert!(m.starts_with("SHACL parse error: Turtle parse error: ")),
        Ok(_) => panic!("expected an error"),
    }
}

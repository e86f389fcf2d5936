use asset360_rules::json::JsonValue;
use asset360_rules::predicate::{from_json, LogicalOperator, NegateOperator, Predicate};

fn text(s: &str) -> JsonValue {
    JsonValue::String(s.to_string())
}

fn to_serde(v: &JsonValue) -> serde_json::Value {
    match v {
        JsonValue::Null => serde_json::Value::Null,
        JsonValue::Bool(b) => serde_json::Value::Bool(*b),
        JsonValue::Number(t) => serde_json::from_str(t).unwrap(),
        JsonValue::String(s) => serde_json::Value::String(s.clone()),
        JsonValue::Array(items) => serde_json::Value::Array(items.iter().map(to_serde).collect()),
        JsonValue::Object(es) => {
            let mut m = serde_json::Map::new();
            for (k, v) in es {
                m.insert(k.clone(), to_serde(v));
            }
            serde_json::Value::Object(m)
        }
    }
}

fn from_serde(v: &serde_json::Value) -> JsonValue {
    match v {
        serde_json::Value::Null => JsonValue::Null,
        serde_json::Value::Bool(b) => JsonValue::Bool(*b),
        serde_json::Value::Number(n) => JsonValue::Number(n.to_string()),
        serde_json::Value::String(s) => JsonValue::String(s.clone()),
        serde_json::Value::Array(items) => JsonValue::Array(items.iter().map(from_serde).collect()),
        serde_json::Value::Object(m) => {
            JsonValue::Object(m.iter().map(|(k, v)| (k.clone(), from_serde(v))).collect())
        }
    }
}

fn to_text(p: &Predicate) -> String {
    serde_json::to_string(&to_serde(&p.to_json())).unwrap()
}

fn from_text(s: &str) -> Option<Predicate> {
    let v: serde_json::Value = serde_json::from_str(s).unwrap();
    from_json(&from_serde(&v))
}

#[test]
fn test_simple_predicate_json_roundtrip() {
    let pred = Predicate::simple("zone", "equals", text("Zone 4"));
    let json = to_text(&pred);
    let parsed = from_text(&json).unwrap();
    assert_eq!(pred, parsed);

    let value: serde_json::Value = serde_json::from_str(&json).unwrap();
    assert!(value.get("type").is_none(), "should not have a 'type' discriminator");
    assert_eq!(value["fieldId"], "zone");
    assert_eq!(value["predicateTypeId"], "equals");
    assert_eq!(value["value"], "Zone 4");
}

#[test]
fn test_expression_json_roundtrip() {
    let pred = Predicate::and(vec![
        Predicate::simple("zone", "equals", text("Zone 4")),
        Predicate::not(Predicate::simple("status", "equals", text("deleted"))),
    ]);
    let json = to_text(&pred);
    let parsed = from_text(&json).unwrap();
    assert_eq!(pred, parsed);

    let value: serde_json::Value = serde_json::from_str(&json).unwrap();
    assert_eq!(value["operator"], "AND");
    assert!(value.get("type").is_none());
}

#[test]
fn test_negated_json_roundtrip() {
    let pred = Predicate::not(Predicate::simple("status", "equals", text("Verkocht")));
    let json = to_text(&pred);
    let parsed = from_text(&json).unwrap();
    assert_eq!(pred, parsed);

    let value: serde_json::Value = serde_json::from_str(&json).unwrap();
    assert_eq!(value["operator"], "NOT");
    assert!(value["predicate"].is_object());
}

#[test]
fn test_and_flattening() {
    let inner = Predicate::and(vec![
        Predicate::simple("a", "equals", text("1")),
        Predicate::simple("b", "equals", text("2")),
    ]);
    let outer = Predicate::and(vec![inner, Predicate::simple("c", "equals", text("3"))]);
    match &outer {
        Predicate::Expression { operator: LogicalOperator::And, predicates } => {
            assert_eq!(predicates.len(), 3);
        }
        _ => panic!("expected AND expression"),
    }
}

#[test]
fn test_single_element_and_unwraps() {
    let pred = Predicate::and(vec![Predicate::simple("zone", "equals", text("Zone 4"))]);
    match &pred {
        Predicate::Simple { field_id, .. } => assert_eq!(field_id, "zone"),
        _ => panic!("expected Simple predicate, got {:?}", pred),
    }
}

#[test]
fn test_deserialize_frontend_format() {
    let frontend_json = r#"{
        "operator": "AND",
        "predicates": [
            {"fieldId": "asset_type", "predicateTypeId": "equals", "value": "TunnelComponent"},
            {"operator": "NOT", "predicate": {"fieldId": "status", "predicateTypeId": "equals", "value": "deleted"}}
        ]
    }"#;
    let pred = from_text(frontend_json).unwrap();
    match &pred {
        Predicate::Expression { operator: LogicalOperator::And, predicates } => {
            assert_eq!(predicates.len(), 2);
            match &predicates[1] {
                Predicate::Negated { operator: NegateOperator::NOT, .. } => {}
                other => panic!("expected Negated, got {:?}", other),
            }
        }
        other => panic!("expected Expression, got {:?}", other),
    }
}

#[test]
fn or_collapses_single_child() {
    let x = Predicate::not(Predicate::simple("f", "equals", text("v")));
    let expected = Predicate::not(Predicate::simple("f", "equals", text("v")));
    assert_eq!(Predicate::or(vec![x]), expected);
}

#[test]
fn or_flattens_nested_or_but_not_and() {
    let nested_or = Predicate::or(vec![
        Predicate::simple("a", "equals", text("1")),
        Predicate::simple("b", "equals", text("2")),
    ]);
    let nested_and = Predicate::and(vec![
        Predicate::simple("c", "equals", text("3")),
        Predicate::simple("d", "equals", text("4")),
    ]);
    let p = Predicate::or(vec![nested_or, nested_and]);
    match &p {
        Predicate::Expression { operator: LogicalOperator::Or, predicates } => {
            assert_eq!(predicates.len(), 3);
            assert!(matches!(predicates[2], Predicate::Expression { operator: LogicalOperator::And, .. }));
        }
        _ => panic!("expected OR expression"),
    }
}

#[test]
fn not_never_cancels() {
    let p = Predicate::not(Predicate::not(Predicate::simple_no_value("f", "exists")));
    match &p {
        Predicate::Negated { predicate, .. } => {
            assert!(matches!(**predicate, Predicate::Negated { .. }))
        }
        _ => panic!("expected a negation"),
    }
}

#[test]
fn round_trip_nested_with_numbers_and_no_value() {
    let p = Predicate::or(vec![
        Predicate::simple("n", "equals", JsonValue::Number("42".to_string())),
        Predicate::and(vec![
            Predicate::simple_no_value("x", "exists"),
            Predicate::not(Predicate::simple("b", "equals", JsonValue::Bool(true))),
        ]),
    ]);
    assert_eq!(from_text(&to_text(&p)).unwrap(), p);
}

#[test]
fn null_value_reads_back_as_null() {
    let p = Predicate::and(vec![Predicate::simple("f", "equals", JsonValue::Null)]);
    assert_eq!(from_text(&to_text(&p)).unwrap(), p);
    let absent = from_text(r#"{"fieldId": "f", "predicateTypeId": "exists"}"#).unwrap();
    assert_eq!(absent, Predicate::simple_no_value("f", "exists"));
}

#[test]
fn unknown_shapes_do_not_read() {
    assert!(from_text(r#"{"operator": "XOR", "predicates": []}"#).is_none());
    assert!(from_text(r#"{"fieldId": 3, "predicateTypeId": "equals"}"#).is_none());
    assert!(from_text(r#"[1, 2]"#).is_none());
}

#[test]
fn empty_and_is_an_empty_expression() {
    let p = Predicate::and(vec![]);
    assert_eq!(
        p,
        Predicate::Expression { operator: LogicalOperator::And, predicates: vec![] }
    );
}

use asset360_rules::json::JsonValue;
use asset360_rules::predicate::{LogicalOperator, Predicate};
use asset360_rules::scope_predicate::{
    derive_scope_predicate, extract_shared_attribute_joins, iri_local_name,
};
use asset360_rules::shacl_ast::{EnforcementLevel, ShaclAst, ShapeResult};

fn text(s: &str) -> JsonValue {
    JsonValue::String(s.to_string())
}

fn delegate_shape() -> ShapeResult {
    ShapeResult {
        shape_uri: "https://data.infrabel.be/asset360/TunnelComponent_DelegateUniquenessShape".to_owned(),
        target_class: "TunnelComponent".to_owned(),
        enforcement_level: EnforcementLevel::Serious,
        message: "Only one tunnel component per tunnel complex can be marked as delegate.".to_owned(),
        affected_fields: vec!["belongsToTunnelComplex".to_owned(), "isTunnelDelegate".to_owned()],
        introspectable: false,
        ast: None,
        sparql: Some(
            r#"
            SELECT $this ?path
            WHERE {
                $this asset360:belongsToTunnelComplex ?complex ;
                      asset360:isTunnelDelegate true .
                ?other asset360:belongsToTunnelComplex ?complex ;
                       asset360:isTunnelDelegate true .
                FILTER(?other != $this)
                { BIND(asset360:isTunnelDelegate AS ?path) }
                UNION
                { BIND(asset360:belongsToTunnelComplex AS ?path) }
            }
            "#
            .to_owned(),
        ),
    }
}

#[test]
fn test_derive_scope_for_delegate_uniqueness() {
    let shape = delegate_shape();
    let focus = vec![
        ("asset360_uri".to_string(), text("https://example.org/tunnel-component-42")),
        ("belongsToTunnelComplex".to_string(), text("complex-7")),
        ("isTunnelDelegate".to_string(), JsonValue::Bool(true)),
    ];
    let pred = derive_scope_predicate(&shape, &focus, "asset360_uri");
    assert!(pred.is_some(), "should produce a scope predicate");
    let pred = pred.unwrap();
    match &pred {
        Predicate::Expression { operator: LogicalOperator::And, predicates } => {
            assert_eq!(predicates.len(), 2);
            match &predicates[0] {
                Predicate::Simple { field_id, predicate_type_id, value } => {
                    assert_eq!(field_id, "belongsToTunnelComplex");
                    assert_eq!(predicate_type_id, "equals");
                    assert_eq!(value, &Some(text("complex-7")));
                }
                other => panic!("expected simple, got {:?}", other),
            }
            match &predicates[1] {
                Predicate::Negated { predicate, .. } => match predicate.as_ref() {
                    Predicate::Simple { field_id, value, .. } => {
                        assert_eq!(field_id, "asset360_uri");
                        assert_eq!(value, &Some(text("https://example.org/tunnel-component-42")));
                    }
                    other => panic!("expected simple, got {:?}", other),
                },
                other => panic!("expected NOT, got {:?}", other),
            }
        }
        other => panic!("expected AND, got {:?}", other),
    }
}

#[test]
fn test_no_scope_for_single_object_shape() {
    let shape = ShapeResult {
        shape_uri: "https://data.infrabel.be/asset360/StatusComboShape".to_owned(),
        target_class: "TunnelComponent".to_owned(),
        enforcement_level: EnforcementLevel::Serious,
        message: "Forbidden status combination".to_owned(),
        affected_fields: vec!["ceAssetPrimaryStatus".to_owned(), "ceAssetSecondaryStatus".to_owned()],
        introspectable: true,
        ast: Some(ShaclAst::Not { child: Box::new(ShaclAst::And { children: vec![] }) }),
        sparql: None,
    };
    let focus = vec![("asset360_uri".to_string(), text("https://example.org/obj-1"))];
    let pred = derive_scope_predicate(&shape, &focus, "asset360_uri");
    assert!(pred.is_none(), "single-object shapes need no scope");
}

#[test]
fn test_missing_focus_data_returns_none() {
    let shape = delegate_shape();
    let focus: Vec<(String, JsonValue)> = Vec::new();
    let pred = derive_scope_predicate(&shape, &focus, "asset360_uri");
    assert!(pred.is_none(), "missing focus data → can't fill scope predicate");
}

#[test]
fn test_extract_shared_joins() {
    let sparql = r#"
        SELECT $this ?path
        WHERE {
            $this asset360:belongsToTunnelComplex ?complex ;
                  asset360:isTunnelDelegate true .
            ?other asset360:belongsToTunnelComplex ?complex ;
                   asset360:isTunnelDelegate true .
            FILTER(?other != $this)
        }
    "#;
    let shared = extract_shared_attribute_joins(sparql);
    assert_eq!(shared, vec!["belongsToTunnelComplex"]);
}

#[test]
fn shared_attribute_with_literal_object_is_not_shared() {
    let sparql = "$this ex:A ?v .\n$this ex:B true .\n?other ex:A ?v .\n?other ex:B true .\n";
    assert_eq!(extract_shared_attribute_joins(sparql), vec!["A"]);
    let shape = ShapeResult {
        shape_uri: "s".into(),
        target_class: "C".into(),
        enforcement_level: EnforcementLevel::Serious,
        message: "m".into(),
        affected_fields: vec![],
        introspectable: false,
        ast: None,
        sparql: Some(sparql.to_string()),
    };
    let focus = vec![("A".to_string(), text("C7")), ("uri".to_string(), text("U42"))];
    let expected = Predicate::and(vec![
        Predicate::simple("A", "equals", text("C7")),
        Predicate::not(Predicate::simple("uri", "equals", text("U42"))),
    ]);
    assert_eq!(derive_scope_predicate(&shape, &focus, "uri"), Some(expected));
}

#[test]
fn shared_joins_need_the_same_variable_and_skip_filters() {
    let sparql = "$this ex:A ?v .\n?other ex:A ?w .\n$this FILTER ?x .\n?o FILTER ?x .\n";
    assert!(extract_shared_attribute_joins(sparql).is_empty());
    let sorted = "$this ex:Zed ?z ;\n?o ex:Zed ?z ;\n$this <http://x.org/p#Alpha> ?a .\n?o <http://x.org/p#Alpha> ?a .\n";
    assert_eq!(extract_shared_attribute_joins(sorted), vec!["Alpha>", "Zed"]);
}

#[test]
fn iri_local_name_falls_back_to_prefix_and_whole() {
    assert_eq!(iri_local_name("asset360:foo"), "foo");
    assert_eq!(iri_local_name("https://a.org/x/y"), "y");
    assert_eq!(iri_local_name("plain"), "plain");
}

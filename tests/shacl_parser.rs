use asset360_rules::json::JsonValue;
use asset360_rules::shacl_ast::{EnforcementLevel, PropertyPath, ShaclAst, ShapeResult};
use asset360_rules::shacl_parser::{extract_bind_fields_from_sparql, parse_shacl, ParseError};

const STATUS_COMBO_TTL: &str = r#"
@prefix sh: <http://www.w3.org/ns/shacl#> .
@prefix asset360: <https://data.infrabel.be/asset360/> .
@prefix rdf: <http://www.w3.org/1999/02/22-rdf-syntax-ns#> .

asset360:TunnelComponent_ForbiddenStatusComboShape
  a sh:NodeShape ;
  sh:targetClass asset360:TunnelComponent ;
  asset360:enforcementLevel "serious" ;
  asset360:introspectable true ;
  sh:message "Forbidden: ceAssetPrimaryStatus incompatible with ceAssetSecondaryStatus." ;
  sh:not [
    sh:or (
      [
        sh:and (
          [ sh:property [ sh:path asset360:ceAssetPrimaryStatus ; sh:hasValue "In_voorbereiding" ] ]
          [ sh:property [ sh:path asset360:ceAssetSecondaryStatus ; sh:hasValue "Verkocht" ] ]
        )
      ]
      [
        sh:and (
          [ sh:property [ sh:path asset360:ceAssetPrimaryStatus ; sh:hasValue "In_voorbereiding" ] ]
          [ sh:property [ sh:path asset360:ceAssetSecondaryStatus ; sh:hasValue "Afgebroken" ] ]
        )
      ]
    )
  ] .
"#;

const DELEGATE_TTL: &str = r#"
@prefix sh: <http://www.w3.org/ns/shacl#> .
@prefix asset360: <https://data.infrabel.be/asset360/> .

asset360:TunnelComponent_DelegateUniquenessShape
  a sh:NodeShape ;
  sh:targetClass asset360:TunnelComponent ;
  asset360:enforcementLevel "serious" ;
  asset360:introspectable false ;
  sh:sparql [
    sh:message "Only one tunnel component per tunnel complex can be marked as delegate." ;
    sh:select """
      SELECT $this ?path
      WHERE {
        $this asset360:belongsToTunnelComplex ?complex ;
              asset360:isTunnelDelegate true .
        ?other asset360:belongsToTunnelComplex ?complex ;
               asset360:isTunnelDelegate true .
        FILTER(?other != $this)
        { BIND(asset360:isTunnelDelegate AS ?path) }
        UNION
        { BIND(asset360:belongsToTunnelComplex AS ?path) }
      }
    """ ;
  ] .
"#;

#[test]
fn test_parse_introspectable_shape() {
    let results = parse_shacl(STATUS_COMBO_TTL, "TunnelComponent", "").unwrap();
    assert_eq!(results.len(), 1);
    let shape = &results[0];
    assert!(shape.introspectable);
    assert_eq!(shape.target_class, "TunnelComponent");
    assert_eq!(shape.enforcement_level, EnforcementLevel::Serious);
    assert!(shape.ast.is_some());
    assert!(shape.sparql.is_none());

    let ast = shape.ast.as_ref().unwrap();
    match ast {
        ShaclAst::Not { child } => match child.as_ref() {
            ShaclAst::Or { children } => {
                assert_eq!(children.len(), 2);
                for child in children {
                    match child {
                        ShaclAst::And { children: inner } => {
                            assert_eq!(inner.len(), 2);
                        }
                        _ => panic!("expected And, got {child:?}"),
                    }
                }
            }
            _ => panic!("expected Or, got {child:?}"),
        },
        _ => panic!("expected Not, got {ast:?}"),
    }

    assert!(shape.affected_fields.contains(&"ceAssetPrimaryStatus".to_owned()));
    assert!(shape.affected_fields.contains(&"ceAssetSecondaryStatus".to_owned()));
}

#[test]
fn test_parse_sparql_shape() {
    let results = parse_shacl(DELEGATE_TTL, "TunnelComponent", "").unwrap();
    assert_eq!(results.len(), 1);
    let shape = &results[0];
    assert!(!shape.introspectable);
    assert!(shape.ast.is_none());
    assert!(shape.sparql.is_some());
    assert_eq!(shape.enforcement_level, EnforcementLevel::Serious);
    assert!(shape.message.contains("Only one tunnel component"));
    assert!(shape.affected_fields.contains(&"isTunnelDelegate".to_owned()));
    assert!(shape.affected_fields.contains(&"belongsToTunnelComplex".to_owned()));
}

#[test]
fn test_parse_combined_file() {
    let combined = format!("{STATUS_COMBO_TTL}\n{DELEGATE_TTL}");
    let results = parse_shacl(&combined, "TunnelComponent", "").unwrap();
    assert_eq!(results.len(), 2);
    let introspectable_count = results.iter().filter(|r| r.introspectable).count();
    let sparql_count = results.iter().filter(|r| r.sparql.is_some()).count();
    assert_eq!(introspectable_count, 1);
    assert_eq!(sparql_count, 1);
}

#[test]
fn test_parse_empty_target_class_returns_all() {
    let results = parse_shacl(STATUS_COMBO_TTL, "", "").unwrap();
    assert_eq!(results.len(), 1);
}

#[test]
fn test_parse_wrong_target_class_returns_empty() {
    let results = parse_shacl(STATUS_COMBO_TTL, "Signal", "").unwrap();
    assert_eq!(results.len(), 0);
}

fn assert_error_contains(result: Result<Vec<ShapeResult>, ParseError>, needles: &[&str]) {
    let err = match result {
        Err(e) => e,
        Ok(_) => panic!("expected a parse error"),
    };
    let msg = err.message();
    for needle in needles {
        assert!(
            msg.contains(needle),
            "Error message missing expected substring \"{needle}\".\nFull message:\n{msg}"
        );
    }
}

#[test]
fn test_unsupported_sh_pattern_error() {
    let ttl = r#"
@prefix sh: <http://www.w3.org/ns/shacl#> .
@prefix asset360: <https://data.infrabel.be/asset360/> .

asset360:TestShape
  a sh:NodeShape ;
  sh:targetClass asset360:TunnelComponent ;
  asset360:introspectable true ;
  sh:property [
    sh:path asset360:name ;
    sh:pattern "^[A-Z]"
  ] .
"#;
    let result = parse_shacl(ttl, "TunnelComponent", "");
    assert_error_contains(
        result,
        &["Unsupported value constraint", "name", "sh:hasValue", "introspectable false", "pattern"],
    );
}

#[test]
fn test_unsupported_sh_class_error() {
    let ttl = r#"
@prefix sh: <http://www.w3.org/ns/shacl#> .
@prefix asset360: <https://data.infrabel.be/asset360/> .

asset360:TestShape
  a sh:NodeShape ;
  sh:targetClass asset360:TunnelComponent ;
  asset360:introspectable true ;
  sh:property [
    sh:path asset360:belongsToTunnelComplex ;
    sh:class asset360:TunnelComplex
  ] .
"#;
    let result = parse_shacl(ttl, "TunnelComponent", "");
    assert_error_contains(
        result,
        &[
            "Unsupported value constraint",
            "belongsToTunnelComplex",
            "sh:hasValue",
            "sh:class",
            "introspectable false",
        ],
    );
}

#[test]
fn test_unsupported_sh_datatype_error() {
    let ttl = r#"
@prefix sh: <http://www.w3.org/ns/shacl#> .
@prefix xsd: <http://www.w3.org/2001/XMLSchema#> .
@prefix asset360: <https://data.infrabel.be/asset360/> .

asset360:TestShape
  a sh:NodeShape ;
  sh:targetClass asset360:TunnelComponent ;
  asset360:introspectable true ;
  sh:property [
    sh:path asset360:length ;
    sh:datatype xsd:decimal
  ] .
"#;
    let result = parse_shacl(ttl, "TunnelComponent", "");
    assert_error_contains(
        result,
        &["Unsupported value constraint", "length", "sh:datatype", "introspectable false"],
    );
}

#[test]
fn test_unsupported_alternative_path_error() {
    let ttl = r#"
@prefix sh: <http://www.w3.org/ns/shacl#> .
@prefix asset360: <https://data.infrabel.be/asset360/> .

asset360:TestShape
  a sh:NodeShape ;
  sh:targetClass asset360:TunnelComponent ;
  asset360:introspectable true ;
  sh:property [
    sh:path [ sh:alternativePath ( asset360:name asset360:identification ) ] ;
    sh:minCount 1
  ] .
"#;
    let result = parse_shacl(ttl, "TunnelComponent", "");
    assert_error_contains(result, &["Unsupported property path", "alternativePath", "sh:inversePath"]);
}

const MULTILANG_TTL: &str = r#"
@prefix sh: <http://www.w3.org/ns/shacl#> .
@prefix asset360: <https://data.infrabel.be/asset360/> .

asset360:TestShape
  a sh:NodeShape ;
  sh:targetClass asset360:TunnelComponent ;
  asset360:enforcementLevel "serious" ;
  asset360:introspectable true ;
  sh:message "Forbidden status combination"@en ;
  sh:message "Verboden statuscombinatie"@nl ;
  sh:message "Combinaison de statuts interdite"@fr ;
  sh:not [
    sh:and (
      [ sh:property [ sh:path asset360:ceAssetPrimaryStatus ; sh:hasValue "In_voorbereiding" ] ]
      [ sh:property [ sh:path asset360:ceAssetSecondaryStatus ; sh:hasValue "Verkocht" ] ]
    )
  ] .
"#;

#[test]
fn test_language_tagged_message_exact_match() {
    let results = parse_shacl(MULTILANG_TTL, "TunnelComponent", "nl").unwrap();
    assert_eq!(results[0].message, "Verboden statuscombinatie");
}

#[test]
fn test_language_tagged_message_different_lang() {
    let results = parse_shacl(MULTILANG_TTL, "TunnelComponent", "fr").unwrap();
    assert_eq!(results[0].message, "Combinaison de statuts interdite");
}

#[test]
fn test_language_tagged_message_fallback_to_first() {
    let results = parse_shacl(MULTILANG_TTL, "TunnelComponent", "de").unwrap();
    assert!(!results[0].message.is_empty());
}

#[test]
fn test_language_tagged_message_empty_lang_picks_any() {
    let results = parse_shacl(MULTILANG_TTL, "TunnelComponent", "").unwrap();
    assert!(!results[0].message.is_empty());
}

#[test]
fn test_untagged_message_still_works() {
    let results = parse_shacl(STATUS_COMBO_TTL, "TunnelComponent", "nl").unwrap();
    assert!(results[0].message.contains("Forbidden"));
}

const PREFIXES: &str = "@prefix sh: <http://www.w3.org/ns/shacl#> .\n@prefix a: <https://data.infrabel.be/asset360/> .\n";

fn one_rule(body: &str) -> Result<Vec<ShapeResult>, ParseError> {
    let ttl = format!("{PREFIXES}a:S a sh:NodeShape ; sh:targetClass a:C ; {body} .\n");
    parse_shacl(&ttl, "C", "")
}

#[test]
fn non_introspectable_rule_swallows_unsupported_construct() {
    let results = one_rule("a:introspectable false ; sh:property [ sh:path a:name ; sh:pattern \"x\" ]").unwrap();
    assert_eq!(results.len(), 1);
    assert!(!results[0].introspectable);
    assert!(results[0].ast.is_none());
    assert!(results[0].sparql.is_none());
    assert!(results[0].affected_fields.is_empty());
}

#[test]
fn turtle_syntax_error_is_reported() {
    match parse_shacl("this is not turtle", "", "") {
        Err(ParseError::Turtle(m)) => assert!(!m.is_empty()),
        other => panic!("expected a Turtle error, got {:?}", other),
    }
}

#[test]
fn shape_without_components_is_missing_field() {
    match one_rule("sh:message \"m\"") {
        Err(ParseError::MissingField(m)) => {
            assert_eq!(m, "no constraint components found on shape https://data.infrabel.be/asset360/S")
        }
        other => panic!("expected a missing field, got {:?}", other),
    }
}

#[test]
fn property_without_path_is_missing_field() {
    match one_rule("sh:property [ sh:hasValue \"x\" ]") {
        Err(e @ ParseError::MissingField(_)) => {
            assert!(e.message().starts_with("Missing required field: sh:path missing on property shape _:"))
        }
        other => panic!("expected a missing field, got {:?}", other),
    }
}

#[test]
fn literal_values_become_json_values() {
    let results = one_rule(
        "sh:property [ sh:path a:n ; sh:in ( \"+007\" \"1.5\" \"true\" \"abc\" a:iri ) ]",
    )
    .unwrap();
    match results[0].ast.as_ref().unwrap() {
        ShaclAst::PropIn { path, values } => {
            assert_eq!(path, &PropertyPath::iri("https://data.infrabel.be/asset360/n"));
            assert_eq!(
                values,
                &vec![
                    JsonValue::Number("7".to_string()),
                    JsonValue::Number("1.5".to_string()),
                    JsonValue::Bool(true),
                    JsonValue::String("abc".to_string()),
                    JsonValue::String("https://data.infrabel.be/asset360/iri".to_string()),
                ]
            );
        }
        other => panic!("expected sh:in, got {:?}", other),
    }
}

#[test]
fn counts_paths_and_pairs_are_translated() {
    let results = one_rule(
        "a:enforcementLevel \"critical\" ; sh:property [ sh:path ( a:owner a:tags ) ; sh:minCount 1 ; sh:maxCount \"x\" ] ; sh:property [ sh:path [ sh:inversePath a:parent ] ; sh:disjoint a:child ]",
    )
    .unwrap();
    assert_eq!(results[0].enforcement_level, EnforcementLevel::Critical);
    match results[0].ast.as_ref().unwrap() {
        ShaclAst::And { children } => {
            assert_eq!(children.len(), 2);
            assert_eq!(
                children[0],
                ShaclAst::PropCount {
                    path: PropertyPath::sequence(vec![
                        PropertyPath::iri("https://data.infrabel.be/asset360/owner"),
                        PropertyPath::iri("https://data.infrabel.be/asset360/tags"),
                    ]),
                    min: Some(1),
                    max: None,
                }
            );
            assert_eq!(
                children[1],
                ShaclAst::PathDisjoint {
                    path_a: PropertyPath::inverse(PropertyPath::iri("https://data.infrabel.be/asset360/parent")),
                    path_b: PropertyPath::iri("https://data.infrabel.be/asset360/child"),
                }
            );
        }
        other => panic!("expected a conjunction, got {:?}", other),
    }
    assert_eq!(results[0].affected_fields, vec!["child".to_string()]);
}

#[test]
fn unknown_enforcement_level_defaults_to_serious() {
    let results = one_rule("a:enforcementLevel \"loud\" ; sh:property [ sh:path a:x ; sh:hasValue \"1\" ]").unwrap();
    assert_eq!(results[0].enforcement_level, EnforcementLevel::Serious);
    assert_eq!(
        results[0].ast,
        Some(ShaclAst::PropEquals {
            path: PropertyPath::iri("https://data.infrabel.be/asset360/x"),
            value: JsonValue::Number("1".to_string()),
        })
    );
}

#[test]
fn bind_fields_are_sorted_and_deduplicated() {
    let q = "{ BIND(ex:b AS ?p) }\n  BIND( <http://x.org/a#z> AS ?q)\nBIND(ex:b AS ?r)\nBIND(nothing)\n";
    assert_eq!(extract_bind_fields_from_sparql(q), vec!["b".to_string(), "z>".to_string()]);
}

#[test]
fn float_literals_take_their_number_text() {
    let results = one_rule("sh:property [ sh:path a:n ; sh:in ( \"1e3\" \"2.50\" \"-0012\" ) ]").unwrap();
    match results[0].ast.as_ref().unwrap() {
        ShaclAst::PropIn { values, .. } => assert_eq!(
            values,
            &vec![
                JsonValue::Number("1000.0".to_string()),
                JsonValue::Number("2.5".to_string()),
                JsonValue::Number("-12".to_string()),
            ]
        ),
        other => panic!("expected sh:in, got {:?}", other),
    }
}

#[test]
fn non_introspectable_rule_that_translates_keeps_no_tree() {
    let results = one_rule("a:introspectable false ; sh:property [ sh:path a:x ; sh:hasValue \"1\" ]").unwrap();
    assert_eq!(results.len(), 1);
    assert!(!results[0].introspectable);
    assert!(results[0].ast.is_none());
    assert!(results[0].sparql.is_none());
    assert!(results[0].affected_fields.is_empty());
}

#[test]
fn missing_field_propagates_even_when_not_introspectable() {
    match one_rule("a:introspectable false ; sh:property [ sh:hasValue \"x\" ]") {
        Err(ParseError::MissingField(_)) => {}
        other => panic!("expected a missing field, got {:?}", other),
    }
    match one_rule("a:introspectable false ; sh:message \"m\"") {
        Err(ParseError::MissingField(_)) => {}
        other => panic!("expected a missing field, got {:?}", other),
    }
}

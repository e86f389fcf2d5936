use asset360_rules::backward_solver::{
    simplify_node, solve_backward, FieldConstraintKind, Simplified,
};
use asset360_rules::json::JsonValue;
use asset360_rules::predicate::{LogicalOperator, Predicate};
use asset360_rules::shacl_ast::{PropertyPath, ShaclAst};

fn text(s: &str) -> JsonValue {
    JsonValue::String(s.to_string())
}

fn known(pairs: &[(&str, &str)]) -> Vec<(String, JsonValue)> {
    pairs.iter().map(|(k, v)| (k.to_string(), text(v))).collect()
}

fn status_combo_ast() -> ShaclAst {
    let forbidden = [
        ("In_voorbereiding", "Verkocht"),
        ("In_voorbereiding", "Afgebroken"),
        ("In_voorbereiding", "Aangevuld"),
        ("In_voorbereiding", "Uit_dienst"),
        ("In_opvolging", "Verkocht"),
        ("In_opvolging", "Afgebroken"),
        ("In_opvolging", "Aangevuld"),
        ("In_opvolging", "Uit_dienst"),
        ("Uit_opvolging", "In_dienst"),
    ];
    let or_children: Vec<ShaclAst> = forbidden
        .iter()
        .map(|(p, s)| ShaclAst::And {
            children: vec![
                ShaclAst::PropEquals {
                    path: PropertyPath::iri("https://data.infrabel.be/asset360/ceAssetPrimaryStatus"),
                    value: text(p),
                },
                ShaclAst::PropEquals {
                    path: PropertyPath::iri("https://data.infrabel.be/asset360/ceAssetSecondaryStatus"),
                    value: text(s),
                },
            ],
        })
        .collect();
    ShaclAst::Not { child: Box::new(ShaclAst::Or { children: or_children }) }
}

fn and_children(p: &Predicate) -> &Vec<Predicate> {
    match p {
        Predicate::Expression { operator: LogicalOperator::And, predicates } => predicates,
        other => panic!("expected AND, got {:?}", other),
    }
}

fn not_equals(field: &str, value: &str) -> Predicate {
    Predicate::not(Predicate::simple(field, "equals", text(value)))
}

#[test]
fn test_solve_in_voorbereiding() {
    let ast = status_combo_ast();
    let known = known(&[("ceAssetPrimaryStatus", "In_voorbereiding")]);
    let pred = solve_backward(&ast, &known, "ceAssetSecondaryStatus");
    assert!(pred.is_some(), "should produce a predicate");
    let pred = pred.unwrap();
    let predicates = and_children(&pred);
    assert_eq!(predicates.len(), 4, "4 forbidden secondary statuses for In_voorbereiding");
    for p in predicates {
        assert!(matches!(p, Predicate::Negated { .. }));
    }
}

#[test]
fn test_solve_in_opvolging() {
    let ast = status_combo_ast();
    let known = known(&[("ceAssetPrimaryStatus", "In_opvolging")]);
    let pred = solve_backward(&ast, &known, "ceAssetSecondaryStatus");
    assert!(pred.is_some());
    let pred = pred.unwrap();
    assert_eq!(and_children(&pred).len(), 4, "4 forbidden secondary statuses for In_opvolging");
}

#[test]
fn test_solve_uit_opvolging() {
    let ast = status_combo_ast();
    let known = known(&[("ceAssetPrimaryStatus", "Uit_opvolging")]);
    let pred = solve_backward(&ast, &known, "ceAssetSecondaryStatus");
    assert!(pred.is_some());
    let pred = pred.unwrap();
    assert!(matches!(pred, Predicate::Negated { .. }), "single negation, not AND");
    assert_eq!(pred, not_equals("ceAssetSecondaryStatus", "In_dienst"));
}

#[test]
fn backward_solver_test_solve_no_restrictions() {
    let ast = status_combo_ast();
    let known = known(&[("ceAssetPrimaryStatus", "In_dienst")]);
    let pred = solve_backward(&ast, &known, "ceAssetSecondaryStatus");
    assert!(pred.is_none(), "no restrictions for In_dienst");
}

#[test]
fn test_solve_target_is_primary_status() {
    let ast = status_combo_ast();
    let known = known(&[("ceAssetSecondaryStatus", "Verkocht")]);
    let pred = solve_backward(&ast, &known, "ceAssetPrimaryStatus");
    assert!(pred.is_some());
    let pred = pred.unwrap();
    assert_eq!(and_children(&pred).len(), 2);
}

#[test]
fn test_solve_both_known() {
    let ast = status_combo_ast();
    let known = known(&[
        ("ceAssetPrimaryStatus", "In_voorbereiding"),
        ("ceAssetSecondaryStatus", "In_dienst"),
    ]);
    let pred = solve_backward(&ast, &known, "ceAssetSecondaryStatus");
    assert!(pred.is_none(), "both fields known, valid combo → no restrictions");
}

#[test]
fn test_solve_no_known_fields() {
    let ast = status_combo_ast();
    let known: Vec<(String, JsonValue)> = Vec::new();
    let pred = solve_backward(&ast, &known, "ceAssetSecondaryStatus");
    assert!(pred.is_some(), "unknown primary → all secondary constraints survive");
    let pred = pred.unwrap();
    let predicates = and_children(&pred);
    assert_eq!(predicates.len(), 9, "9 forbidden combos → 9 NOT-EQUALS");
}

#[test]
fn solve_in_voorbereiding_names_the_four_values_in_order() {
    let ast = status_combo_ast();
    let known = known(&[("ceAssetPrimaryStatus", "In_voorbereiding")]);
    let pred = solve_backward(&ast, &known, "ceAssetSecondaryStatus").unwrap();
    let expected = Predicate::and(vec![
        not_equals("ceAssetSecondaryStatus", "Verkocht"),
        not_equals("ceAssetSecondaryStatus", "Afgebroken"),
        not_equals("ceAssetSecondaryStatus", "Aangevuld"),
        not_equals("ceAssetSecondaryStatus", "Uit_dienst"),
    ]);
    assert_eq!(pred, expected);
}

#[test]
fn unsatisfiable_rule_gives_empty_in() {
    let ast = ShaclAst::PropEquals {
        path: PropertyPath::iri("https://example.org/a"),
        value: text("x"),
    };
    let known = known(&[("a", "y")]);
    let pred = solve_backward(&ast, &known, "b").unwrap();
    assert_eq!(pred, Predicate::simple("b", "in", JsonValue::Array(vec![])));
}

#[test]
fn prop_in_on_target_becomes_in_predicate() {
    let ast = ShaclAst::PropIn {
        path: PropertyPath::iri("https://example.org/status"),
        values: vec![text("a"), text("b")],
    };
    let pred = solve_backward(&ast, &Vec::new(), "status").unwrap();
    assert_eq!(pred, Predicate::simple("status", "in", JsonValue::Array(vec![text("a"), text("b")])));
}

#[test]
fn counts_and_path_pairs_never_constrain_the_target() {
    let count = ShaclAst::PropCount { path: PropertyPath::iri("https://example.org/t"), min: Some(1), max: None };
    assert!(solve_backward(&count, &Vec::new(), "t").is_none());
    let known_empty = vec![("t".to_string(), JsonValue::Array(vec![]))];
    let pred = solve_backward(&count, &known_empty, "other").unwrap();
    assert_eq!(pred, Predicate::simple("other", "in", JsonValue::Array(vec![])));
    let pair = ShaclAst::PathEquals {
        path_a: PropertyPath::iri("https://example.org/t"),
        path_b: PropertyPath::iri("https://example.org/u"),
    };
    assert!(solve_backward(&pair, &Vec::new(), "t").is_none());
}

fn field_eq(f: &str, v: &str) -> Simplified {
    Simplified::FieldConstraint { field: f.to_string(), kind: FieldConstraintKind::Equals(text(v)) }
}

fn describe(n: &Simplified) -> String {
    format!("{:?}", n)
}

#[test]
fn simplify_twice_is_simplify_once() {
    let inputs = vec![
        Simplified::Not(Box::new(Simplified::Or(vec![field_eq("a", "1"), Simplified::Bool(false), field_eq("a", "2")]))),
        Simplified::And(vec![Simplified::Bool(true), Simplified::Not(Box::new(Simplified::Not(Box::new(field_eq("a", "1")))))]),
        Simplified::Or(vec![Simplified::Bool(false)]),
        Simplified::Not(Box::new(Simplified::And(vec![field_eq("a", "1"), Simplified::Bool(true)]))),
    ];
    for x in inputs.iter() {
        let once = simplify_node(x);
        let twice = simplify_node(&once);
        assert_eq!(describe(&once), describe(&twice));
    }
}

#[test]
fn de_morgan_on_two_field_tests() {
    let a = field_eq("s", "x");
    let b = Simplified::Or(vec![field_eq("s", "y"), field_eq("s", "z")]);
    let lhs = simplify_node(&Simplified::Not(Box::new(Simplified::Or(vec![
        field_eq("s", "x"),
        Simplified::Or(vec![field_eq("s", "y"), field_eq("s", "z")]),
    ]))));
    let rhs = simplify_node(&Simplified::And(vec![Simplified::Not(Box::new(a)), Simplified::Not(Box::new(b))]));
    assert_eq!(describe(&lhs), describe(&rhs));
    match lhs {
        Simplified::And(cs) => assert_eq!(cs.len(), 2),
        other => panic!("expected a conjunction, got {:?}", other),
    }
}

#[test]
fn simplify_folds_constants() {
    let n = Simplified::And(vec![Simplified::Bool(true), Simplified::Bool(true)]);
    assert!(matches!(simplify_node(&n), Simplified::Bool(true)));
    let n = Simplified::Or(vec![field_eq("a", "1"), Simplified::Bool(true)]);
    assert!(matches!(simplify_node(&n), Simplified::Bool(true)));
    let n = Simplified::Not(Box::new(field_eq("a", "1")));
    assert!(matches!(
        simplify_node(&n),
        Simplified::FieldConstraint { kind: FieldConstraintKind::NotEquals(_), .. }
    ));
}

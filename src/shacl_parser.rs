//! The rule text parser: shapes written as Turtle compiled into rules.
//!
//! A shape either carries a raw query (kept as text, with the fields that its
//! `BIND(<iri> AS ?var)` lines name) or is translated into a constraint tree. A
//! construct outside the translated subset is an error that names the node, the
//! predicates found on it and the supported ones; a shape marked as not
//! introspectable swallows it and yields a rule with no tree.
//!
//! The triple graph is walked by following blank nodes. So that a cyclic graph
//! cannot make the walk endless, nesting is bounded by [`depth_fuel`]: an acyclic
//! document never reaches the bound.

use vstd::prelude::*;

use crate::json::{model_of_items, JsonModel, JsonValue};
use crate::names::{
    insert_name, is_sorted_set_of, lemma_is_sorted_list, sorted_list, strictly_sorted, texts,
};
use crate::numbers::{
    float_number_text, float_text, i64_text, i64_value, int_text, parse_i64, parse_u32, u32_value,
};
use crate::rdf::{
    first_literal, first_object, first_str, keyed, list_items, literal_for_language,
    local_or_whole, objects, predicate_names, term_key, KeyedTriple, RdfTerm, TermModel,
    TripleStore, RDF_TYPE,
};
use crate::scan::{
    find_from, find_from_exec, line_end, line_end_exec, lemma_line_end, prefixed_local_name,
    trim_end_at, trim_end_exec, trim_start_at, trim_start_exec,
};
use crate::shacl_ast::{
    model_of_asts, model_of_paths, AstModel, EnforcementLevel, PathModel,
    PropertyPath, ShaclAst, ShapeResult,
};

verus! {

broadcast use vstd::std_specs::vec::group_vec_axioms;

/// Why rule text could not be compiled.
#[derive(Debug, PartialEq)]
pub enum ParseError {
    /// The text is not well-formed Turtle.
    Turtle(String),
    /// A construct that the translated subset does not cover.
    UnsupportedConstruct(String),
    /// A required part of a construct is missing.
    MissingField(String),
}

/// The mathematical model of a [`ParseError`].
pub ghost enum ErrModel {
    Turtle(Seq<char>),
    Unsupported(Seq<char>),
    Missing(Seq<char>),
}

impl ParseError {
    pub open spec fn model(self) -> ErrModel {
        match self {
            ParseError::Turtle(m) => ErrModel::Turtle(m@),
            ParseError::UnsupportedConstruct(m) => ErrModel::Unsupported(m@),
            ParseError::MissingField(m) => ErrModel::Missing(m@),
        }
    }

    /// The error as a rule author reads it (see [`error_text`]).
    pub fn message(&self) -> (r: String)
        ensures
            r@ == error_text(self.model()),
    {
        match self {
            ParseError::Turtle(m) => "Turtle parse error: ".to_owned().concat(m.as_str()),
            ParseError::UnsupportedConstruct(m) => "Unsupported SHACL construct: ".to_owned().concat(
                m.as_str(),
            ),
            ParseError::MissingField(m) => "Missing required field: ".to_owned().concat(m.as_str()),
        }
    }
}

/// The text of an error: its kind, then its detail.
pub open spec fn error_text(e: ErrModel) -> Seq<char> {
    match e {
        ErrModel::Turtle(m) => "Turtle parse error: "@ + m,
        ErrModel::Unsupported(m) => "Unsupported SHACL construct: "@ + m,
        ErrModel::Missing(m) => "Missing required field: "@ + m,
    }
}

pub const SH: &'static str = "http://www.w3.org/ns/shacl#";

pub const ASSET360: &'static str = "https://data.infrabel.be/asset360/";

/// The IRI of a term of the shapes vocabulary.
pub open spec fn sh_iri(local: Seq<char>) -> Seq<char> {
    SH@ + local
}

/// The IRI of a term of the rule annotations.
pub open spec fn a360_iri(local: Seq<char>) -> Seq<char> {
    ASSET360@ + local
}

pub fn sh(local: &str) -> (r: String)
    ensures
        r@ == sh_iri(local@),
{
    SH.to_owned().concat(local)
}

pub fn a360(local: &str) -> (r: String)
    ensures
        r@ == a360_iri(local@),
{
    ASSET360.to_owned().concat(local)
}

// ── Messages ─────────────────────────────────────────────────────────

/// The names separated by `, `.
pub open spec fn join(names: Seq<Seq<char>>) -> Seq<char>
    decreases names.len(),
{
    if names.len() == 0 {
        Seq::empty()
    } else if names.len() == 1 {
        names[0]
    } else {
        join(names.drop_last()) + ", "@ + names.last()
    }
}

pub open spec fn node_message(key: Seq<char>, preds: Seq<Seq<char>>) -> Seq<char> {
    "Unsupported SHACL construct on node "@ + key + ".\nFound predicates: ["@ + join(preds)
        + "].\nSupported: sh:not, sh:and, sh:or, sh:property (with sh:path + value constraint).\nHint: Set `asset360:introspectable false` and use `sh:sparql` instead."@
}

pub open spec fn value_message(name: Seq<char>, key: Seq<char>, preds: Seq<Seq<char>>) -> Seq<char> {
    "Unsupported value constraint on property \""@ + name + "\" (node "@ + key
        + ").\nFound predicates: ["@ + join(preds)
        + "].\nSupported property constraints: sh:hasValue, sh:in, sh:minCount, sh:maxCount, sh:equals, sh:disjoint.\nCommon unsupported: sh:pattern, sh:class, sh:nodeKind, sh:datatype, sh:minInclusive/maxInclusive, sh:minLength/maxLength.\nHint: Set `asset360:introspectable false` and use `sh:sparql` for this constraint."@
}

pub open spec fn path_message(key: Seq<char>, preds: Seq<Seq<char>>) -> Seq<char> {
    "Unsupported property path at blank node "@ + key + ".\nFound predicates: ["@ + join(preds)
        + "].\nSupported paths: simple IRI, sequence (RDF list), sh:inversePath.\nHint: sh:alternativePath, sh:zeroOrMorePath etc. are not supported."@
}

pub open spec fn literal_path_message(value: Seq<char>) -> Seq<char> {
    "Unexpected term in path position: \""@ + value
        + "\".\nPaths must be IRIs (e.g. asset360:fieldName) or structured (sh:inversePath, sequence)."@
}

pub open spec fn depth_message(key: Seq<char>) -> Seq<char> {
    "Nesting at node "@ + key + " does not end; the document holds a cycle."@
}

pub open spec fn missing_path_message(key: Seq<char>) -> Seq<char> {
    "sh:path missing on property shape "@ + key
}

pub open spec fn no_components_message(key: Seq<char>) -> Seq<char> {
    "no constraint components found on shape "@ + key
}

/// The predicates on a node, for a message: local names, sorted, each once.
pub open spec fn found_predicates(k: Seq<KeyedTriple>, key: Seq<char>) -> Seq<Seq<char>> {
    sorted_list(predicate_names(k, key))
}

// ── Translation ──────────────────────────────────────────────────────

/// How deep the walk may nest in a document of `n` triples.
pub open spec fn depth_fuel(n: nat) -> nat {
    if n <= (usize::MAX - 2) / 2 {
        2 * n + 2
    } else {
        usize::MAX as nat
    }
}

/// How many items an RDF list of a document of `n` triples may have.
pub open spec fn list_fuel(k: Seq<KeyedTriple>) -> nat {
    k.len()
}

/// The JSON value that a term stands for: a literal that reads as an `i64` is
/// that number, else one that reads as a finite float is that number, else
/// `true` and `false` are booleans and any other literal a string; an IRI or a
/// blank node key is a string.
pub open spec fn term_json(t: TermModel) -> JsonModel {
    match t {
        TermModel::Literal(v, _) => match i64_value(v) {
            Some(n) => JsonModel::Number(int_text(n)),
            None => match float_number_text(v) {
                Some(x) => JsonModel::Number(x),
                None => if v == "true"@ {
                    JsonModel::Bool(true)
                } else if v == "false"@ {
                    JsonModel::Bool(false)
                } else {
                    JsonModel::Str(v)
                },
            },
        },
        _ => JsonModel::Str(term_key(t)),
    }
}

pub open spec fn terms_json(ts: Seq<TermModel>) -> Seq<JsonModel> {
    ts.map_values(|t: TermModel| term_json(t))
}

/// The path that a term describes: an IRI is a simple path; a blank node is an
/// inverse path (`sh:inversePath`) or else a sequence (an RDF list of paths).
pub open spec fn parse_path_spec(k: Seq<KeyedTriple>, t: TermModel, fuel: nat) -> Result<PathModel, ErrModel>
    decreases fuel, 0nat,
{
    match t {
        TermModel::Iri(n) => Ok(PathModel::Iri(n)),
        TermModel::Blank(b) => {
            let key = term_key(t);
            if fuel == 0 {
                Err(ErrModel::Unsupported(depth_message(key)))
            } else {
                match first_object(k, key, sh_iri("inversePath"@)) {
                    Some(inner) => match parse_path_spec(k, inner, (fuel - 1) as nat) {
                        Ok(p) => Ok(PathModel::Inverse(Box::new(p))),
                        Err(e) => Err(e),
                    },
                    None => {
                        let items = list_items(k, t, list_fuel(k));
                        if items.len() > 0 {
                            match parse_paths_spec(k, items, (fuel - 1) as nat) {
                                Ok(ps) => Ok(PathModel::Sequence(ps)),
                                Err(e) => Err(e),
                            }
                        } else {
                            Err(ErrModel::Unsupported(path_message(key, found_predicates(k, key))))
                        }
                    },
                }
            }
        },
        TermModel::Literal(v, _) => Err(ErrModel::Unsupported(literal_path_message(v))),
    }
}

/// The paths of the terms, in order; the first error, if any.
pub open spec fn parse_paths_spec(k: Seq<KeyedTriple>, ts: Seq<TermModel>, fuel: nat) -> Result<
    Seq<PathModel>,
    ErrModel,
>
    decreases fuel, ts.len(),
{
    if ts.len() == 0 {
        Ok(Seq::empty())
    } else {
        match parse_paths_spec(k, ts.drop_last(), fuel) {
            Err(e) => Err(e),
            Ok(ps) => match parse_path_spec(k, ts.last(), fuel) {
                Ok(p) => Ok(ps.push(p)),
                Err(e) => Err(e),
            },
        }
    }
}

/// The constraint that a node describes: the first of `sh:not`, `sh:and`,
/// `sh:or`, `sh:property` that it has, or else a property shape when it has a
/// `sh:path`.
pub open spec fn parse_node_spec(k: Seq<KeyedTriple>, key: Seq<char>, fuel: nat) -> Result<AstModel, ErrModel>
    decreases fuel, 0nat,
{
    if fuel == 0 {
        Err(ErrModel::Unsupported(depth_message(key)))
    } else {
        let f = (fuel - 1) as nat;
        match first_object(k, key, sh_iri("not"@)) {
            Some(inner) => match parse_node_spec(k, term_key(inner), f) {
                Ok(c) => Ok(AstModel::Not(Box::new(c))),
                Err(e) => Err(e),
            },
            None => match first_object(k, key, sh_iri("and"@)) {
                Some(head) => match parse_nodes_spec(k, list_items(k, head, list_fuel(k)), f) {
                    Ok(cs) => Ok(AstModel::And(cs)),
                    Err(e) => Err(e),
                },
                None => match first_object(k, key, sh_iri("or"@)) {
                    Some(head) => match parse_nodes_spec(k, list_items(k, head, list_fuel(k)), f) {
                        Ok(cs) => Ok(AstModel::Or(cs)),
                        Err(e) => Err(e),
                    },
                    None => match first_object(k, key, sh_iri("property"@)) {
                        Some(p) => parse_property_spec(k, term_key(p), f),
                        None => if first_object(k, key, sh_iri("path"@)) is Some {
                            parse_property_spec(k, key, f)
                        } else {
                            Err(ErrModel::Unsupported(node_message(key, found_predicates(k, key))))
                        },
                    },
                },
            },
        }
    }
}

/// The constraints of the nodes that the terms name, in order; the first error.
pub open spec fn parse_nodes_spec(k: Seq<KeyedTriple>, ts: Seq<TermModel>, fuel: nat) -> Result<
    Seq<AstModel>,
    ErrModel,
>
    decreases fuel, ts.len(),
{
    if ts.len() == 0 {
        Ok(Seq::empty())
    } else {
        match parse_nodes_spec(k, ts.drop_last(), fuel) {
            Err(e) => Err(e),
            Ok(cs) => match parse_node_spec(k, term_key(ts.last()), fuel) {
                Ok(c) => Ok(cs.push(c)),
                Err(e) => Err(e),
            },
        }
    }
}

/// The name of a path for a message.
pub open spec fn path_name(p: PathModel) -> Seq<char> {
    match p {
        PathModel::Iri(i) => match crate::shacl_ast::iri_local_name(i) {
            Some(n) => n,
            None => "(complex path)"@,
        },
        _ => "(complex path)"@,
    }
}

/// A count bound, when the literal reads as a `u32`.
pub open spec fn count_bound(l: Option<Seq<char>>) -> Option<u32> {
    match l {
        Some(x) => u32_value(x),
        None => None,
    }
}

/// The constraint of a property shape: its `sh:path` and the first value
/// constraint it has, of `sh:hasValue`, `sh:in`, `sh:minCount`/`sh:maxCount`,
/// `sh:equals`, `sh:disjoint`.
pub open spec fn parse_property_spec(k: Seq<KeyedTriple>, key: Seq<char>, fuel: nat) -> Result<
    AstModel,
    ErrModel,
>
    decreases fuel, 0nat,
{
    if fuel == 0 {
        Err(ErrModel::Unsupported(depth_message(key)))
    } else {
        let f = (fuel - 1) as nat;
        match first_object(k, key, sh_iri("path"@)) {
            None => Err(ErrModel::Missing(missing_path_message(key))),
            Some(pt) => match parse_path_spec(k, pt, f) {
                Err(e) => Err(e),
                Ok(path) => match first_object(k, key, sh_iri("hasValue"@)) {
                    Some(v) => Ok(AstModel::PropEquals(path, term_json(v))),
                    None => match first_object(k, key, sh_iri("in"@)) {
                        Some(head) => Ok(
                            AstModel::PropIn(path, terms_json(list_items(k, head, list_fuel(k)))),
                        ),
                        None => {
                            let min = count_bound(first_literal(k, key, sh_iri("minCount"@)));
                            let max = count_bound(first_literal(k, key, sh_iri("maxCount"@)));
                            if min is Some || max is Some {
                                Ok(AstModel::PropCount(path, min, max))
                            } else {
                                match first_object(k, key, sh_iri("equals"@)) {
                                    Some(o) => match parse_path_spec(k, o, f) {
                                        Ok(p2) => Ok(AstModel::PathEquals(path, p2)),
                                        Err(e) => Err(e),
                                    },
                                    None => match first_object(k, key, sh_iri("disjoint"@)) {
                                        Some(o) => match parse_path_spec(k, o, f) {
                                            Ok(p2) => Ok(AstModel::PathDisjoint(path, p2)),
                                            Err(e) => Err(e),
                                        },
                                        None => Err(
                                            ErrModel::Unsupported(
                                                value_message(
                                                    path_name(path),
                                                    key,
                                                    found_predicates(k, key),
                                                ),
                                            ),
                                        ),
                                    },
                                }
                            }
                        },
                    },
                },
            },
        }
    }
}

/// Results in order: the first error, else all the constraints.
pub open spec fn then(a: Result<Seq<AstModel>, ErrModel>, b: Result<Seq<AstModel>, ErrModel>) -> Result<
    Seq<AstModel>,
    ErrModel,
> {
    match a {
        Err(e) => Err(e),
        Ok(x) => match b {
            Err(e) => Err(e),
            Ok(y) => Ok(x + y),
        },
    }
}

/// The negations of the nodes that the terms name.
pub open spec fn not_components(k: Seq<KeyedTriple>, os: Seq<TermModel>, fuel: nat) -> Result<
    Seq<AstModel>,
    ErrModel,
>
    decreases os.len(),
{
    if os.len() == 0 {
        Ok(Seq::empty())
    } else {
        then(
            not_components(k, os.drop_last(), fuel),
            match parse_node_spec(k, term_key(os.last()), fuel) {
                Ok(c) => Ok(seq![AstModel::Not(Box::new(c))]),
                Err(e) => Err(e),
            },
        )
    }
}

/// The conjunctions (`and`) or disjunctions of the node lists that the terms head.
pub open spec fn list_components(k: Seq<KeyedTriple>, os: Seq<TermModel>, fuel: nat, and: bool) -> Result<
    Seq<AstModel>,
    ErrModel,
>
    decreases os.len(),
{
    if os.len() == 0 {
        Ok(Seq::empty())
    } else {
        then(
            list_components(k, os.drop_last(), fuel, and),
            match parse_nodes_spec(k, list_items(k, os.last(), list_fuel(k)), fuel) {
                Ok(cs) => Ok(seq![if and { AstModel::And(cs) } else { AstModel::Or(cs) }]),
                Err(e) => Err(e),
            },
        )
    }
}

/// The property shapes that the terms name.
pub open spec fn property_components(k: Seq<KeyedTriple>, os: Seq<TermModel>, fuel: nat) -> Result<
    Seq<AstModel>,
    ErrModel,
>
    decreases os.len(),
{
    if os.len() == 0 {
        Ok(Seq::empty())
    } else {
        then(
            property_components(k, os.drop_last(), fuel),
            match parse_property_spec(k, term_key(os.last()), fuel) {
                Ok(c) => Ok(seq![c]),
                Err(e) => Err(e),
            },
        )
    }
}

/// The constraint between the shape's `sh:path` and its `sh:equals` (`equals`)
/// or `sh:disjoint` path, when it has both.
#[verifier::opaque]
pub open spec fn pair_component(k: Seq<KeyedTriple>, shape: Seq<char>, fuel: nat, equals: bool) -> Result<
    Seq<AstModel>,
    ErrModel,
> {
    let other = if equals {
        sh_iri("equals"@)
    } else {
        sh_iri("disjoint"@)
    };
    match first_object(k, shape, sh_iri("path"@)) {
        Some(a) => match first_object(k, shape, other) {
            Some(b) => match parse_path_spec(k, a, fuel) {
                Err(e) => Err(e),
                Ok(pa) => match parse_path_spec(k, b, fuel) {
                    Err(e) => Err(e),
                    Ok(pb) => Ok(
                        seq![
                            if equals {
                                AstModel::PathEquals(pa, pb)
                            } else {
                                AstModel::PathDisjoint(pa, pb)
                            },
                        ],
                    ),
                },
            },
            None => Ok(Seq::empty()),
        },
        None => Ok(Seq::empty()),
    }
}

/// The constraint of a shape: its negations, conjunctions, disjunctions, property
/// shapes and path pairs, in that order; one stands for itself, several are
/// joined in a conjunction, none is an error.
pub open spec fn parse_shape_spec(k: Seq<KeyedTriple>, shape: Seq<char>) -> Result<AstModel, ErrModel> {
    let fuel = depth_fuel(k.len());
    let all = then(
        then(node_components(k, shape, fuel), pair_component(k, shape, fuel, true)),
        pair_component(k, shape, fuel, false),
    );
    match all {
        Err(e) => Err(e),
        Ok(cs) => if cs.len() == 0 {
            Err(ErrModel::Missing(no_components_message(shape)))
        } else if cs.len() == 1 {
            Ok(cs[0])
        } else {
            Ok(AstModel::And(cs))
        },
    }
}

/// The negations, conjunctions, disjunctions and property shapes of a shape, in
/// that order; the first error.
#[verifier::opaque]
pub open spec fn node_components(k: Seq<KeyedTriple>, shape: Seq<char>, fuel: nat) -> Result<
    Seq<AstModel>,
    ErrModel,
> {
    then(
        then(
            then(
                not_components(k, objects(k, shape, sh_iri("not"@)), fuel),
                list_components(k, objects(k, shape, sh_iri("and"@)), fuel, true),
            ),
            list_components(k, objects(k, shape, sh_iri("or"@)), fuel, false),
        ),
        property_components(k, objects(k, shape, sh_iri("property"@)), fuel),
    )
}

// ── Raw queries ──────────────────────────────────────────────────────

/// The field that line `s[a..b]` binds: on the trimmed line, the text between the
/// first `BIND(` and the next ` AS`, trimmed, by its local name.
pub open spec fn bind_field(s: Seq<char>, a: int, b: int) -> Option<Seq<char>> {
    let t0 = trim_start_at(s, a, b);
    let t1 = trim_end_at(s, t0, b);
    let st = find_from(s, "BIND("@, t0, t1);
    if st < 0 {
        None
    } else {
        let e = find_from(s, " AS"@, st + 5, t1);
        if e < 0 {
            None
        } else {
            let i0 = trim_start_at(s, st + 5, e);
            let i1 = trim_end_at(s, i0, e);
            Some(prefixed_local_name(s.subrange(i0, i1)))
        }
    }
}

/// The fields that the lines of `s` from position `i` on bind.
pub open spec fn bind_fields_from(s: Seq<char>, i: int) -> Set<Seq<char>>
    decreases s.len() + 1 - i,
{
    if i < 0 || i >= s.len() {
        Set::empty()
    } else {
        let e = line_end(s, i);
        proof {
            lemma_line_end(s, i);
        }
        let here = match bind_field(s, i, e) {
            Some(x) => set![x],
            None => Set::empty(),
        };
        here.union(bind_fields_from(s, e + 1))
    }
}

/// The fields that a raw query binds with `BIND(<iri> AS ?var)`.
pub open spec fn bind_fields(s: Seq<char>) -> Set<Seq<char>> {
    bind_fields_from(s, 0)
}

// ── Shapes ───────────────────────────────────────────────────────────

/// The mathematical model of a [`ShapeResult`], but for its affected fields.
pub ghost struct ShapeModel {
    pub uri: Seq<char>,
    pub target: Seq<char>,
    pub level: EnforcementLevel,
    pub message: Seq<char>,
    pub introspectable: bool,
    pub ast: Option<AstModel>,
    pub sparql: Option<Seq<char>>,
}

pub open spec fn shape_model(r: ShapeResult) -> ShapeModel {
    ShapeModel {
        uri: r.shape_uri@,
        target: r.target_class@,
        level: r.enforcement_level,
        message: r.message@,
        introspectable: r.introspectable,
        ast: match r.ast {
            Some(a) => Some(a.model()),
            None => None,
        },
        sparql: match r.sparql {
            Some(q) => Some(q@),
            None => None,
        },
    }
}

/// Whether the subject is typed as a node shape.
pub open spec fn is_node_shape(k: Seq<KeyedTriple>, subj: Seq<char>) -> bool {
    exists|i: int|
        0 <= i < k.len() && #[trigger] k[i].0 == subj && k[i].1 == RDF_TYPE@ && term_key(k[i].2)
            == sh_iri("NodeShape"@)
}

/// The enforcement level that an annotation names; `serious` by default and for
/// an unknown name.
pub open spec fn level_of(l: Option<Seq<char>>) -> EnforcementLevel {
    match l {
        Some(x) => if x == "critical"@ {
            EnforcementLevel::Critical
        } else if x == "error"@ {
            EnforcementLevel::Error
        } else if x == "unlikely"@ {
            EnforcementLevel::Unlikely
        } else {
            EnforcementLevel::Serious
        },
        None => EnforcementLevel::Serious,
    }
}

/// Whether a shape's target class passes the filter: an empty filter passes
/// every shape; else the target's local name or the target itself must match.
pub open spec fn target_matches(target: Option<Seq<char>>, filter: Seq<char>) -> bool {
    filter.len() == 0 || match target {
        Some(t) => local_or_whole(t) == filter || t == filter,
        None => false,
    }
}

/// What one subject yields: nothing when it is no node shape or its target does
/// not pass the filter, else its rule or the error that stops the parse.
#[verifier::opaque]
pub open spec fn shape_outcome(k: Seq<KeyedTriple>, subj: Seq<char>, filter: Seq<char>, language: Seq<char>) -> Option<
    Result<ShapeModel, ErrModel>,
> {
    let target = first_str(k, subj, sh_iri("targetClass"@));
    if !is_node_shape(k, subj) || !target_matches(target, filter) {
        None
    } else {
        let target_name = match target {
            Some(t) => local_or_whole(t),
            None => Seq::empty(),
        };
        let level = level_of(first_literal(k, subj, a360_iri("enforcementLevel"@)));
        let introspectable = match first_literal(k, subj, a360_iri("introspectable"@)) {
            Some(x) => x == "true"@,
            None => true,
        };
        let message = match literal_for_language(k, subj, sh_iri("message"@), language) {
            Some(m) => m,
            None => Seq::empty(),
        };
        match first_object(k, subj, sh_iri("sparql"@)) {
            Some(q) => {
                let qk = term_key(q);
                let select = match first_literal(k, qk, sh_iri("select"@)) {
                    Some(x) => x,
                    None => Seq::empty(),
                };
                let qmessage = match literal_for_language(k, qk, sh_iri("message"@), language) {
                    Some(m) => m,
                    None => message,
                };
                Some(
                    Ok(
                        ShapeModel {
                            uri: subj,
                            target: target_name,
                            level,
                            message: qmessage,
                            introspectable: false,
                            ast: None,
                            sparql: Some(select),
                        },
                    ),
                )
            },
            None => {
                let degenerate = ShapeModel {
                    uri: subj,
                    target: target_name,
                    level,
                    message,
                    introspectable: false,
                    ast: None,
                    sparql: None,
                };
                match parse_shape_spec(k, subj) {
                    Ok(ast) => if introspectable {
                        Some(
                            Ok(
                                ShapeModel {
                                    uri: subj,
                                    target: target_name,
                                    level,
                                    message,
                                    introspectable: true,
                                    ast: Some(ast),
                                    sparql: None,
                                },
                            ),
                        )
                    } else {
                        Some(Ok(degenerate))
                    },
                    Err(e) => if introspectable || !(e is Unsupported) {
                        Some(Err(e))
                    } else {
                        Some(Ok(degenerate))
                    },
                }
            },
        }
    }
}

/// The subjects of the triples, each once, in the order they first appear.
pub open spec fn subject_order(k: Seq<KeyedTriple>) -> Seq<Seq<char>>
    decreases k.len(),
{
    if k.len() == 0 {
        Seq::empty()
    } else {
        let prev = subject_order(k.drop_last());
        if prev.contains(k.last().0) {
            prev
        } else {
            prev.push(k.last().0)
        }
    }
}

/// The rules of the subjects, in order; the first error stops the parse.
pub open spec fn shapes_from(k: Seq<KeyedTriple>, subjects: Seq<Seq<char>>, filter: Seq<char>, language: Seq<char>) -> Result<
    Seq<ShapeModel>,
    ErrModel,
>
    decreases subjects.len(),
{
    if subjects.len() == 0 {
        Ok(Seq::empty())
    } else {
        match shapes_from(k, subjects.drop_last(), filter, language) {
            Err(e) => Err(e),
            Ok(ss) => match shape_outcome(k, subjects.last(), filter, language) {
                None => Ok(ss),
                Some(Ok(m)) => Ok(ss.push(m)),
                Some(Err(e)) => Err(e),
            },
        }
    }
}

/// The rules that a document's triples describe.
pub open spec fn parse_rules(k: Seq<KeyedTriple>, filter: Seq<char>, language: Seq<char>) -> Result<
    Seq<ShapeModel>,
    ErrModel,
> {
    shapes_from(k, subject_order(k), filter, language)
}

// ── Executable translation ──────────────────────────────────────────

pub open spec fn path_result(r: Result<PropertyPath, ParseError>) -> Result<PathModel, ErrModel> {
    match r {
        Ok(p) => Ok(p.model()),
        Err(e) => Err(e.model()),
    }
}

pub open spec fn paths_result(r: Result<Vec<PropertyPath>, ParseError>) -> Result<Seq<PathModel>, ErrModel> {
    match r {
        Ok(ps) => Ok(model_of_paths(ps@)),
        Err(e) => Err(e.model()),
    }
}

pub open spec fn ast_result(r: Result<ShaclAst, ParseError>) -> Result<AstModel, ErrModel> {
    match r {
        Ok(a) => Ok(a.model()),
        Err(e) => Err(e.model()),
    }
}

pub open spec fn asts_result(r: Result<Vec<ShaclAst>, ParseError>) -> Result<Seq<AstModel>, ErrModel> {
    match r {
        Ok(cs) => Ok(model_of_asts(cs@)),
        Err(e) => Err(e.model()),
    }
}

pub open spec fn term_models(ts: Seq<&RdfTerm>) -> Seq<TermModel> {
    ts.map_values(|t: &RdfTerm| t.model())
}

/// The names separated by `, ` (see [`join`]).
fn join_names(names: &Vec<String>) -> (r: String)
    ensures
        r@ == join(texts(names@)),
{
    let ghost t = texts(names@);
    if names.len() == 0 {
        return String::new();
    }
    let mut out = names[0].clone();
    let mut i: usize = 1;
    assert(t.subrange(0, 1) =~= seq![t[0]]);
    while i < names.len()
        invariant
            1 <= i <= names@.len(),
            t == texts(names@),
            out@ == join(t.subrange(0, i as int)),
        decreases names.len() - i,
    {
        assert(t.subrange(0, i + 1).drop_last() =~= t.subrange(0, i as int));
        out = out.concat(", ").concat(names[i].as_str());
        i = i + 1;
    }
    assert(t.subrange(0, i as int) =~= t);
    out
}

/// The predicates on a node for a message (see [`found_predicates`]).
fn found_predicates_text(store: &TripleStore, key: &str) -> (r: String)
    ensures
        r@ == join(found_predicates(store.model(), key@)),
{
    let names = store.list_predicates(key);
    proof {
        lemma_is_sorted_list(names@, predicate_names(store.model(), key@));
    }
    join_names(&names)
}

/// The JSON value that a term stands for (see [`term_json`]).
pub fn term_to_json_value(t: &RdfTerm) -> (r: JsonValue)
    ensures
        r.model() == term_json(t.model()),
{
    match t {
        RdfTerm::Literal { value, .. } => {
            match parse_i64(value.as_str()) {
                Some(n) => JsonValue::Number(i64_text(n)),
                None => match float_text(value.as_str()) {
                    Some(x) => JsonValue::Number(x),
                    None => {
                        if crate::json::str_equal(value.as_str(), "true") {
                            JsonValue::Bool(true)
                        } else if crate::json::str_equal(value.as_str(), "false") {
                            JsonValue::Bool(false)
                        } else {
                            JsonValue::String(value.clone())
                        }
                    },
                },
            }
        },
        _ => JsonValue::String(crate::rdf::term_key_exec(t)),
    }
}

fn terms_to_json(ts: &Vec<&RdfTerm>) -> (r: Vec<JsonValue>)
    ensures
        model_of_items(r@) == terms_json(term_models(ts@)),
{
    let mut out: Vec<JsonValue> = Vec::new();
    let mut i: usize = 0;
    while i < ts.len()
        invariant
            i <= ts@.len(),
            out@.len() == i,
            forall|j: int| 0 <= j < i ==> #[trigger] out@[j].model() == term_json(ts@[j].model()),
        decreases ts.len() - i,
    {
        out.push(term_to_json_value(ts[i]));
        i = i + 1;
    }
    proof {
        crate::json::lemma_model_of_items(out@);
        assert(model_of_items(out@) =~= terms_json(term_models(ts@)));
    }
    out
}

fn depth_error(key: &str) -> (r: ParseError)
    ensures
        r.model() == ErrModel::Unsupported(depth_message(key@)),
{
    ParseError::UnsupportedConstruct(
        "Nesting at node ".to_owned().concat(key).concat(" does not end; the document holds a cycle."),
    )
}

/// The path that a term describes (see [`parse_path_spec`]).
fn parse_path(store: &TripleStore, t: &RdfTerm, fuel: usize) -> (r: Result<PropertyPath, ParseError>)
    ensures
        !(r matches Err(ParseError::Turtle(_))),
        path_result(r) == parse_path_spec(store.model(), t.model(), fuel as nat),
    decreases fuel, 0nat,
{
    match t {
        RdfTerm::Iri(n) => Ok(PropertyPath::Iri { iri: n.clone() }),
        RdfTerm::Blank(_) => {
            let key = crate::rdf::term_key_exec(t);
            if fuel == 0 {
                return Err(depth_error(key.as_str()));
            }
            let inverse = sh("inversePath");
            match store.first_object(key.as_str(), inverse.as_str()) {
                Some(inner) => match parse_path(store, inner, fuel - 1) {
                    Ok(p) => Ok(PropertyPath::Inverse { path: Box::new(p) }),
                    Err(e) => Err(e),
                },
                None => {
                    let items = store.collect_rdf_list(t, store.triples.len());
                    assert(store.model().len() == store.triples@.len());
                    assert(term_models(items@).subrange(0, items@.len() as int) =~= term_models(items@));
                    if items.len() > 0 {
                        match parse_paths_upto(store, &items, items.len(), fuel - 1) {
                            Ok(ps) => Ok(PropertyPath::Sequence { steps: ps }),
                            Err(e) => Err(e),
                        }
                    } else {
                        let found = found_predicates_text(store, key.as_str());
                        Err(
                            ParseError::UnsupportedConstruct(
                                "Unsupported property path at blank node ".to_owned().concat(
                                    key.as_str(),
                                ).concat(".\nFound predicates: [").concat(found.as_str()).concat(
                                    "].\nSupported paths: simple IRI, sequence (RDF list), sh:inversePath.\nHint: sh:alternativePath, sh:zeroOrMorePath etc. are not supported.",
                                ),
                            ),
                        )
                    }
                },
            }
        },
        RdfTerm::Literal { value, .. } => Err(
            ParseError::UnsupportedConstruct(
                "Unexpected term in path position: \"".to_owned().concat(value.as_str()).concat(
                    "\".\nPaths must be IRIs (e.g. asset360:fieldName) or structured (sh:inversePath, sequence).",
                ),
            ),
        ),
    }
}

/// The paths of the first `n` terms (see [`parse_paths_spec`]).
fn parse_paths_upto(store: &TripleStore, ts: &Vec<&RdfTerm>, n: usize, fuel: usize) -> (r: Result<
    Vec<PropertyPath>,
    ParseError,
>)
    requires
        n <= ts@.len(),
    ensures
        !(r matches Err(ParseError::Turtle(_))),
        paths_result(r) == parse_paths_spec(
            store.model(),
            term_models(ts@).subrange(0, n as int),
            fuel as nat,
        ),
    decreases fuel, n,
{
    let ghost tm = term_models(ts@);
    if n == 0 {
        assert(tm.subrange(0, 0) =~= Seq::<TermModel>::empty());
        let out: Vec<PropertyPath> = Vec::new();
        assert(model_of_paths(out@) =~= Seq::<PathModel>::empty());
        return Ok(out);
    }
    assert(tm.subrange(0, n as int).drop_last() =~= tm.subrange(0, n - 1));
    assert(tm.subrange(0, n as int).last() == ts@[n - 1].model());
    match parse_paths_upto(store, ts, n - 1, fuel) {
        Err(e) => Err(e),
        Ok(ps) => match parse_path(store, ts[n - 1], fuel) {
            Ok(p) => {
                let mut ps = ps;
                let ghost before = ps@;
                ps.push(p);
                assert(ps@.drop_last() =~= before);
                Ok(ps)
            },
            Err(e) => Err(e),
        },
    }
}

/// The constraint that a node describes (see [`parse_node_spec`]).
fn parse_constraint_node(store: &TripleStore, key: &str, fuel: usize) -> (r: Result<ShaclAst, ParseError>)
    ensures
        !(r matches Err(ParseError::Turtle(_))),
        ast_result(r) == parse_node_spec(store.model(), key@, fuel as nat),
    decreases fuel, 0nat,
{
    if fuel == 0 {
        return Err(depth_error(key));
    }
    let f = fuel - 1;
    let not_p = sh("not");
    let and_p = sh("and");
    let or_p = sh("or");
    let property_p = sh("property");
    let path_p = sh("path");
    if let Some(inner) = store.first_object(key, not_p.as_str()) {
        let ik = crate::rdf::term_key_exec(inner);
        return match parse_constraint_node(store, ik.as_str(), f) {
            Ok(c) => Ok(ShaclAst::Not { child: Box::new(c) }),
            Err(e) => Err(e),
        };
    }
    if let Some(head) = store.first_object(key, and_p.as_str()) {
        let items = store.collect_rdf_list(head, store.triples.len());
        assert(store.model().len() == store.triples@.len());
        return match parse_nodes_upto(store, &items, items.len(), f) {
            Ok(cs) => {
                assert(term_models(items@).subrange(0, items@.len() as int) =~= term_models(items@));
                Ok(ShaclAst::And { children: cs })
            },
            Err(e) => {
                assert(term_models(items@).subrange(0, items@.len() as int) =~= term_models(items@));
                Err(e)
            },
        };
    }
    if let Some(head) = store.first_object(key, or_p.as_str()) {
        let items = store.collect_rdf_list(head, store.triples.len());
        assert(store.model().len() == store.triples@.len());
        return match parse_nodes_upto(store, &items, items.len(), f) {
            Ok(cs) => {
                assert(term_models(items@).subrange(0, items@.len() as int) =~= term_models(items@));
                Ok(ShaclAst::Or { children: cs })
            },
            Err(e) => {
                assert(term_models(items@).subrange(0, items@.len() as int) =~= term_models(items@));
                Err(e)
            },
        };
    }
    if let Some(p) = store.first_object(key, property_p.as_str()) {
        let pk = crate::rdf::term_key_exec(p);
        return parse_property_shape(store, pk.as_str(), f);
    }
    if store.first_object(key, path_p.as_str()).is_some() {
        return parse_property_shape(store, key, f);
    }
    let found = found_predicates_text(store, key);
    Err(
        ParseError::UnsupportedConstruct(
            "Unsupported SHACL construct on node ".to_owned().concat(key).concat(
                ".\nFound predicates: [",
            ).concat(found.as_str()).concat(
                "].\nSupported: sh:not, sh:and, sh:or, sh:property (with sh:path + value constraint).\nHint: Set `asset360:introspectable false` and use `sh:sparql` instead.",
            ),
        ),
    )
}

/// The constraints of the nodes that the first `n` terms name (see
/// [`parse_nodes_spec`]).
fn parse_nodes_upto(store: &TripleStore, ts: &Vec<&RdfTerm>, n: usize, fuel: usize) -> (r: Result<
    Vec<ShaclAst>,
    ParseError,
>)
    requires
        n <= ts@.len(),
    ensures
        !(r matches Err(ParseError::Turtle(_))),
        asts_result(r) == parse_nodes_spec(
            store.model(),
            term_models(ts@).subrange(0, n as int),
            fuel as nat,
        ),
    decreases fuel, n,
{
    let ghost tm = term_models(ts@);
    if n == 0 {
        assert(tm.subrange(0, 0) =~= Seq::<TermModel>::empty());
        let out: Vec<ShaclAst> = Vec::new();
        assert(model_of_asts(out@) =~= Seq::<AstModel>::empty());
        return Ok(out);
    }
    assert(tm.subrange(0, n as int).drop_last() =~= tm.subrange(0, n - 1));
    assert(tm.subrange(0, n as int).last() == ts@[n - 1].model());
    match parse_nodes_upto(store, ts, n - 1, fuel) {
        Err(e) => Err(e),
        Ok(cs) => {
            let key = crate::rdf::term_key_exec(ts[n - 1]);
            match parse_constraint_node(store, key.as_str(), fuel) {
                Ok(c) => {
                    let mut cs = cs;
                    let ghost before = cs@;
                    cs.push(c);
                    assert(cs@.drop_last() =~= before);
                    Ok(cs)
                },
                Err(e) => Err(e),
            }
        },
    }
}

/// The constraint of a property shape (see [`parse_property_spec`]).
fn parse_property_shape(store: &TripleStore, key: &str, fuel: usize) -> (r: Result<ShaclAst, ParseError>)
    ensures
        !(r matches Err(ParseError::Turtle(_))),
        ast_result(r) == parse_property_spec(store.model(), key@, fuel as nat),
    decreases fuel, 0nat,
{
    if fuel == 0 {
        return Err(depth_error(key));
    }
    let f = fuel - 1;
    let path_p = sh("path");
    let path_term = match store.first_object(key, path_p.as_str()) {
        Some(t) => t,
        None => {
            return Err(ParseError::MissingField("sh:path missing on property shape ".to_owned().concat(key)));
        },
    };
    let path = match parse_path(store, path_term, f) {
        Ok(p) => p,
        Err(e) => {
            return Err(e);
        },
    };
    let has_value_p = sh("hasValue");
    if let Some(v) = store.first_object(key, has_value_p.as_str()) {
        return Ok(ShaclAst::PropEquals { path, value: term_to_json_value(v) });
    }
    let in_p = sh("in");
    if let Some(head) = store.first_object(key, in_p.as_str()) {
        let items = store.collect_rdf_list(head, store.triples.len());
        assert(store.model().len() == store.triples@.len());
        return Ok(ShaclAst::PropIn { path, values: terms_to_json(&items) });
    }
    let min_p = sh("minCount");
    let max_p = sh("maxCount");
    let min = match store.first_literal(key, min_p.as_str()) {
        Some(x) => parse_u32(x.as_str()),
        None => None,
    };
    let max = match store.first_literal(key, max_p.as_str()) {
        Some(x) => parse_u32(x.as_str()),
        None => None,
    };
    if min.is_some() || max.is_some() {
        return Ok(ShaclAst::PropCount { path, min, max });
    }
    let equals_p = sh("equals");
    if let Some(o) = store.first_object(key, equals_p.as_str()) {
        return match parse_path(store, o, f) {
            Ok(p2) => Ok(ShaclAst::PathEquals { path_a: path, path_b: p2 }),
            Err(e) => Err(e),
        };
    }
    let disjoint_p = sh("disjoint");
    if let Some(o) = store.first_object(key, disjoint_p.as_str()) {
        return match parse_path(store, o, f) {
            Ok(p2) => Ok(ShaclAst::PathDisjoint { path_a: path, path_b: p2 }),
            Err(e) => Err(e),
        };
    }
    let name = match path.local_name() {
        Some(n) => n,
        None => "(complex path)",
    };
    let found = found_predicates_text(store, key);
    Err(
        ParseError::UnsupportedConstruct(
            "Unsupported value constraint on property \"".to_owned().concat(name).concat(
                "\" (node ",
            ).concat(key).concat(").\nFound predicates: [").concat(found.as_str()).concat(
                "].\nSupported property constraints: sh:hasValue, sh:in, sh:minCount, sh:maxCount, sh:equals, sh:disjoint.\nCommon unsupported: sh:pattern, sh:class, sh:nodeKind, sh:datatype, sh:minInclusive/maxInclusive, sh:minLength/maxLength.\nHint: Set `asset360:introspectable false` and use `sh:sparql` for this constraint.",
            ),
        ),
    )
}

fn depth_fuel_exec(n: usize) -> (r: usize)
    ensures
        r == depth_fuel(n as nat),
{
    if n <= (usize::MAX - 2) / 2 {
        2 * n + 2
    } else {
        usize::MAX
    }
}

proof fn lemma_model_of_asts_concat(a: Seq<ShaclAst>, b: Seq<ShaclAst>)
    ensures
        model_of_asts(a + b) == model_of_asts(a) + model_of_asts(b),
{
    crate::shacl_ast::lemma_model_of_asts(a);
    crate::shacl_ast::lemma_model_of_asts(b);
    crate::shacl_ast::lemma_model_of_asts(a + b);
    assert(model_of_asts(a + b) =~= model_of_asts(a) + model_of_asts(b));
}

fn push_component(cs: Vec<ShaclAst>, c: ShaclAst) -> (r: Vec<ShaclAst>)
    ensures
        model_of_asts(r@) == model_of_asts(cs@) + seq![c.model()],
{
    let mut cs = cs;
    let ghost before = cs@;
    cs.push(c);
    assert(cs@.drop_last() =~= before);
    assert(model_of_asts(before).push(c.model()) =~= model_of_asts(before) + seq![c.model()]);
    cs
}

/// The negations of the nodes that the first `n` terms name.
fn not_components_upto(store: &TripleStore, os: &Vec<&RdfTerm>, n: usize, fuel: usize) -> (r: Result<
    Vec<ShaclAst>,
    ParseError,
>)
    requires
        n <= os@.len(),
    ensures
        !(r matches Err(ParseError::Turtle(_))),
        asts_result(r) == not_components(store.model(), term_models(os@).subrange(0, n as int), fuel as nat),
    decreases n,
{
    let ghost tm = term_models(os@);
    if n == 0 {
        assert(tm.subrange(0, 0) =~= Seq::<TermModel>::empty());
        let out: Vec<ShaclAst> = Vec::new();
        assert(model_of_asts(out@) =~= Seq::<AstModel>::empty());
        return Ok(out);
    }
    assert(tm.subrange(0, n as int).drop_last() =~= tm.subrange(0, n - 1));
    assert(tm.subrange(0, n as int).last() == os@[n - 1].model());
    match not_components_upto(store, os, n - 1, fuel) {
        Err(e) => Err(e),
        Ok(cs) => {
            let key = crate::rdf::term_key_exec(os[n - 1]);
            match parse_constraint_node(store, key.as_str(), fuel) {
                Ok(c) => Ok(push_component(cs, ShaclAst::Not { child: Box::new(c) })),
                Err(e) => Err(e),
            }
        },
    }
}

/// The conjunctions or disjunctions of the node lists that the first `n` terms head.
fn list_components_upto(store: &TripleStore, os: &Vec<&RdfTerm>, n: usize, fuel: usize, and: bool) -> (r:
    Result<Vec<ShaclAst>, ParseError>)
    requires
        n <= os@.len(),
    ensures
        !(r matches Err(ParseError::Turtle(_))),
        asts_result(r) == list_components(
            store.model(),
            term_models(os@).subrange(0, n as int),
            fuel as nat,
            and,
        ),
    decreases n,
{
    let ghost tm = term_models(os@);
    if n == 0 {
        assert(tm.subrange(0, 0) =~= Seq::<TermModel>::empty());
        let out: Vec<ShaclAst> = Vec::new();
        assert(model_of_asts(out@) =~= Seq::<AstModel>::empty());
        return Ok(out);
    }
    assert(tm.subrange(0, n as int).drop_last() =~= tm.subrange(0, n - 1));
    assert(tm.subrange(0, n as int).last() == os@[n - 1].model());
    match list_components_upto(store, os, n - 1, fuel, and) {
        Err(e) => Err(e),
        Ok(cs) => {
            let items = store.collect_rdf_list(os[n - 1], store.triples.len());
            assert(store.model().len() == store.triples@.len());
            assert(term_models(items@).subrange(0, items@.len() as int) =~= term_models(items@));
            match parse_nodes_upto(store, &items, items.len(), fuel) {
                Ok(children) => {
                    let c = if and {
                        ShaclAst::And { children }
                    } else {
                        ShaclAst::Or { children }
                    };
                    Ok(push_component(cs, c))
                },
                Err(e) => Err(e),
            }
        },
    }
}

/// The property shapes that the first `n` terms name.
fn property_components_upto(store: &TripleStore, os: &Vec<&RdfTerm>, n: usize, fuel: usize) -> (r: Result<
    Vec<ShaclAst>,
    ParseError,
>)
    requires
        n <= os@.len(),
    ensures
        !(r matches Err(ParseError::Turtle(_))),
        asts_result(r) == property_components(
            store.model(),
            term_models(os@).subrange(0, n as int),
            fuel as nat,
        ),
    decreases n,
{
    let ghost tm = term_models(os@);
    if n == 0 {
        assert(tm.subrange(0, 0) =~= Seq::<TermModel>::empty());
        let out: Vec<ShaclAst> = Vec::new();
        assert(model_of_asts(out@) =~= Seq::<AstModel>::empty());
        return Ok(out);
    }
    assert(tm.subrange(0, n as int).drop_last() =~= tm.subrange(0, n - 1));
    assert(tm.subrange(0, n as int).last() == os@[n - 1].model());
    match property_components_upto(store, os, n - 1, fuel) {
        Err(e) => Err(e),
        Ok(cs) => {
            let key = crate::rdf::term_key_exec(os[n - 1]);
            match parse_property_shape(store, key.as_str(), fuel) {
                Ok(c) => Ok(push_component(cs, c)),
                Err(e) => Err(e),
            }
        },
    }
}

fn pair_component_exec(store: &TripleStore, shape: &str, fuel: usize, equals: bool) -> (r: Result<
    Vec<ShaclAst>,
    ParseError,
>)
    ensures
        !(r matches Err(ParseError::Turtle(_))),
        asts_result(r) == pair_component(store.model(), shape@, fuel as nat, equals),
{
    proof {
        reveal(pair_component);
    }
    let path_p = sh("path");
    let other_p = if equals {
        sh("equals")
    } else {
        sh("disjoint")
    };
    let empty: Vec<ShaclAst> = Vec::new();
    assert(model_of_asts(empty@) =~= Seq::<AstModel>::empty());
    let a = match store.first_object(shape, path_p.as_str()) {
        Some(a) => a,
        None => {
            return Ok(empty);
        },
    };
    let b = match store.first_object(shape, other_p.as_str()) {
        Some(b) => b,
        None => {
            return Ok(empty);
        },
    };
    let pa = match parse_path(store, a, fuel) {
        Ok(p) => p,
        Err(e) => {
            return Err(e);
        },
    };
    let pb = match parse_path(store, b, fuel) {
        Ok(p) => p,
        Err(e) => {
            return Err(e);
        },
    };
    let c = if equals {
        ShaclAst::PathEquals { path_a: pa, path_b: pb }
    } else {
        ShaclAst::PathDisjoint { path_a: pa, path_b: pb }
    };
    Ok(push_component(empty, c))
}

fn append_components(cs: Vec<ShaclAst>, more: Vec<ShaclAst>) -> (r: Vec<ShaclAst>)
    ensures
        model_of_asts(r@) == model_of_asts(cs@) + model_of_asts(more@),
{
    let mut cs = cs;
    let mut more = more;
    let ghost a = cs@;
    let ghost b = more@;
    cs.append(&mut more);
    proof {
        lemma_model_of_asts_concat(a, b);
    }
    cs
}

fn node_components_exec(store: &TripleStore, shape: &str, fuel: usize) -> (r: Result<Vec<ShaclAst>, ParseError>)
    ensures
        !(r matches Err(ParseError::Turtle(_))),
        asts_result(r) == node_components(store.model(), shape@, fuel as nat),
{
    proof {
        reveal(node_components);
    }
    let not_p = sh("not");
    let and_p = sh("and");
    let or_p = sh("or");
    let property_p = sh("property");
    let nots = store.objects(shape, not_p.as_str());
    let ands = store.objects(shape, and_p.as_str());
    let ors = store.objects(shape, or_p.as_str());
    let props = store.objects(shape, property_p.as_str());
    assert(term_models(nots@).subrange(0, nots@.len() as int) =~= term_models(nots@));
    assert(term_models(ands@).subrange(0, ands@.len() as int) =~= term_models(ands@));
    assert(term_models(ors@).subrange(0, ors@.len() as int) =~= term_models(ors@));
    assert(term_models(props@).subrange(0, props@.len() as int) =~= term_models(props@));
    let a = match not_components_upto(store, &nots, nots.len(), fuel) {
        Ok(x) => x,
        Err(e) => {
            return Err(e);
        },
    };
    let b = match list_components_upto(store, &ands, ands.len(), fuel, true) {
        Ok(x) => x,
        Err(e) => {
            return Err(e);
        },
    };
    let c = match list_components_upto(store, &ors, ors.len(), fuel, false) {
        Ok(x) => x,
        Err(e) => {
            return Err(e);
        },
    };
    let d = match property_components_upto(store, &props, props.len(), fuel) {
        Ok(x) => x,
        Err(e) => {
            return Err(e);
        },
    };
    Ok(append_components(append_components(append_components(a, b), c), d))
}

/// The constraint of a shape (see [`parse_shape_spec`]).
pub fn parse_shape_ast(store: &TripleStore, shape: &str) -> (r: Result<ShaclAst, ParseError>)
    ensures
        !(r matches Err(ParseError::Turtle(_))),
        ast_result(r) == parse_shape_spec(store.model(), shape@),
{
    let fuel = depth_fuel_exec(store.triples.len());
    assert(store.model().len() == store.triples@.len());
    let a = match node_components_exec(store, shape, fuel) {
        Ok(x) => x,
        Err(e) => {
            return Err(e);
        },
    };
    let e1 = match pair_component_exec(store, shape, fuel, true) {
        Ok(x) => x,
        Err(e) => {
            return Err(e);
        },
    };
    let e2 = match pair_component_exec(store, shape, fuel, false) {
        Ok(x) => x,
        Err(e) => {
            return Err(e);
        },
    };
    let all = append_components(append_components(a, e1), e2);
    proof {
        crate::shacl_ast::lemma_model_of_asts(all@);
    }
    let mut all = all;
    if all.len() == 0 {
        Err(ParseError::MissingField("no constraint components found on shape ".to_owned().concat(shape)))
    } else if all.len() == 1 {
        Ok(all.remove(0))
    } else {
        Ok(ShaclAst::And { children: all })
    }
}

fn bind_field_exec(text: &str, s: &Vec<char>, a: usize, b: usize) -> (r: Option<String>)
    requires
        s@ == text@,
        a <= b <= s@.len(),
    ensures
        crate::rdf::opt_text(r) == bind_field(s@, a as int, b as int),
{
    let t0 = trim_start_exec(s, a, b);
    let t1 = trim_end_exec(s, t0, b);
    let bind = crate::text::chars_of("BIND(");
    let as_word = crate::text::chars_of(" AS");
    proof {
        reveal_strlit("BIND(");
        reveal_strlit(" AS");
    }
    let st = match find_from_exec(s, &bind, t0, t1) {
        Some(k) => k,
        None => {
            return None;
        },
    };
    let e = match find_from_exec(s, &as_word, st + 5, t1) {
        Some(k) => k,
        None => {
            return None;
        },
    };
    let i0 = trim_start_exec(s, st + 5, e);
    let i1 = trim_end_exec(s, i0, e);
    let iri = text.substring_char(i0, i1);
    Some(crate::scope_predicate::iri_local_name(iri).to_owned())
}

/// The fields that a raw query binds (see [`bind_fields`]), sorted, each once.
pub fn extract_bind_fields_from_sparql(sparql: &str) -> (r: Vec<String>)
    ensures
        is_sorted_set_of(r@, bind_fields(sparql@)),
{
    let s = crate::text::chars_of(sparql);
    let mut out: Vec<String> = Vec::new();
    let mut i: usize = 0;
    assert(texts(out@).to_set() =~= Set::<Seq<char>>::empty());
    assert(Set::<Seq<char>>::empty().union(bind_fields_from(s@, 0)) =~= bind_fields_from(s@, 0));
    while i < s.len()
        invariant
            s@ == sparql@,
            i <= s@.len() + 1,
            strictly_sorted(texts(out@)),
            texts(out@).to_set().union(bind_fields_from(s@, i as int)) == bind_fields(s@),
        decreases s.len() + 1 - i,
    {
        let e = line_end_exec(&s, i);
        let ghost before = texts(out@).to_set();
        let ghost rest = bind_fields_from(s@, e + 1);
        match bind_field_exec(sparql, &s, i, e) {
            Some(x) => {
                insert_name(&mut out, x.as_str());
                assert(texts(out@).to_set().union(rest) =~= before.union(set![x@].union(rest)));
            },
            None => {
                assert(before.union(Set::<Seq<char>>::empty().union(rest)) =~= before.union(rest));
            },
        }
        if e < s.len() {
            i = e + 1;
        } else {
            i = e;
        }
    }
    assert(bind_fields_from(s@, i as int) =~= Set::<Seq<char>>::empty());
    assert(texts(out@).to_set().union(Set::<Seq<char>>::empty()) =~= texts(out@).to_set());
    out
}

fn contains_text(v: &Vec<String>, x: &str) -> (r: bool)
    ensures
        r == texts(v@).contains(x@),
{
    let mut i: usize = 0;
    while i < v.len()
        invariant
            i <= v@.len(),
            forall|j: int| 0 <= j < i ==> #[trigger] v@[j]@ != x@,
        decreases v.len() - i,
    {
        if crate::json::str_equal(v[i].as_str(), x) {
            assert(texts(v@)[i as int] == x@);
            return true;
        }
        i = i + 1;
    }
    assert forall|j: int| 0 <= j < texts(v@).len() implies #[trigger] texts(v@)[j] != x@ by {
        assert(texts(v@)[j] == v@[j]@);
    }
    false
}

/// The subjects of the store, each once, in the order they first appear.
fn subjects_in_order(store: &TripleStore) -> (r: Vec<String>)
    ensures
        texts(r@) == subject_order(store.model()),
{
    let ghost m = store.model();
    let mut out: Vec<String> = Vec::new();
    let mut i: usize = 0;
    assert(m.subrange(0, 0) =~= Seq::<KeyedTriple>::empty());
    assert(texts(out@) =~= Seq::<Seq<char>>::empty());
    while i < store.triples.len()
        invariant
            i <= store.triples@.len(),
            m == store.model(),
            m.len() == store.triples@.len(),
            texts(out@) == subject_order(m.subrange(0, i as int)),
        decreases store.triples.len() - i,
    {
        assert(m.subrange(0, i + 1).drop_last() =~= m.subrange(0, i as int));
        assert(m[i as int].0 == store.triples@[i as int].0@);
        let key = store.triples[i].0.as_str();
        if !contains_text(&out, key) {
            let ghost before = out@;
            out.push(key.to_owned());
            assert(texts(out@) =~= texts(before).push(key@));
        }
        i = i + 1;
    }
    assert(m.subrange(0, i as int) =~= m);
    out
}

fn is_node_shape_exec(store: &TripleStore, subj: &str) -> (r: bool)
    ensures
        r == is_node_shape(store.model(), subj@),
{
    let ghost m = store.model();
    let node_shape = sh("NodeShape");
    let mut i: usize = 0;
    while i < store.triples.len()
        invariant
            i <= store.triples@.len(),
            m == store.model(),
            m.len() == store.triples@.len(),
            node_shape@ == sh_iri("NodeShape"@),
            forall|j: int|
                0 <= j < i ==> !(#[trigger] m[j].0 == subj@ && m[j].1 == RDF_TYPE@ && term_key(m[j].2)
                    == sh_iri("NodeShape"@)),
        decreases store.triples.len() - i,
    {
        assert(m[i as int] == (store.triples@[i as int].0@, store.triples@[i as int].1@, store.triples@[i as int].2.model()));
        if crate::json::str_equal(store.triples[i].0.as_str(), subj) && crate::json::str_equal(
            store.triples[i].1.as_str(),
            RDF_TYPE,
        ) {
            let key = crate::rdf::term_key_exec(&store.triples[i].2);
            if key.eq(&node_shape) {
                assert(m[i as int].0 == subj@ && m[i as int].1 == RDF_TYPE@ && term_key(m[i as int].2)
                    == sh_iri("NodeShape"@));
                return true;
            }
        }
        i = i + 1;
    }
    false
}

fn level_of_exec(l: Option<String>) -> (r: EnforcementLevel)
    ensures
        r == level_of(crate::rdf::opt_text(l)),
{
    match l {
        Some(x) => {
            if crate::json::str_equal(x.as_str(), "critical") {
                EnforcementLevel::Critical
            } else if crate::json::str_equal(x.as_str(), "error") {
                EnforcementLevel::Error
            } else if crate::json::str_equal(x.as_str(), "unlikely") {
                EnforcementLevel::Unlikely
            } else {
                EnforcementLevel::Serious
            }
        },
        None => EnforcementLevel::Serious,
    }
}

/// A rule as parsing yields it: a rule kept as a raw query is not introspectable
/// and has no tree; a rule that is not introspectable has no tree; and its
/// affected fields are those its raw query binds, or those its constraint refers
/// to, sorted, each once, and none for a rule with neither.
pub open spec fn rule_well_formed(r: ShapeResult) -> bool {
    &&& (r.sparql is Some ==> !r.introspectable && r.ast is None)
    &&& (!r.introspectable ==> r.ast is None)
    &&& match r.sparql {
        Some(q) => is_sorted_set_of(r.affected_fields@, bind_fields(q@)),
        None => match r.ast {
            Some(a) => is_sorted_set_of(r.affected_fields@, crate::forward_eval::referenced_names(a)),
            None => r.affected_fields@.len() == 0,
        },
    }
}

pub open spec fn outcome_model(o: Option<Result<ShapeResult, ParseError>>) -> Option<Result<ShapeModel, ErrModel>> {
    match o {
        None => None,
        Some(Ok(r)) => Some(Ok(shape_model(r))),
        Some(Err(e)) => Some(Err(e.model())),
    }
}

/// What one subject yields (see [`shape_outcome`]).
fn shape_outcome_exec(store: &TripleStore, subj: &str, filter: &str, language: &str) -> (r: Option<
    Result<ShapeResult, ParseError>,
>)
    ensures
        !(r matches Some(Err(ParseError::Turtle(_)))),
        outcome_model(r) == shape_outcome(store.model(), subj@, filter@, language@),
        r matches Some(Ok(x)) ==> rule_well_formed(x),
{
    proof {
        reveal(shape_outcome);
    }
    let target_p = sh("targetClass");
    let target = store.first_str(subj, target_p.as_str());
    if !is_node_shape_exec(store, subj) {
        return None;
    }
    let passes = if filter.unicode_len() == 0 {
        true
    } else {
        match &target {
            Some(t) => {
                let local = match crate::shacl_ast::local_name_of_iri(t.as_str()) {
                    Some(n) => n,
                    None => t.as_str(),
                };
                crate::json::str_equal(local, filter) || crate::json::str_equal(t.as_str(), filter)
            },
            None => false,
        }
    };
    if !passes {
        return None;
    }
    let target_name = match &target {
        Some(t) => match crate::shacl_ast::local_name_of_iri(t.as_str()) {
            Some(n) => n.to_owned(),
            None => t.clone(),
        },
        None => String::new(),
    };
    let level_p = a360("enforcementLevel");
    let level = level_of_exec(store.first_literal(subj, level_p.as_str()));
    let intro_p = a360("introspectable");
    let introspectable = match store.first_literal(subj, intro_p.as_str()) {
        Some(x) => crate::json::str_equal(x.as_str(), "true"),
        None => true,
    };
    let message_p = sh("message");
    let message = match store.literal_for_language(subj, message_p.as_str(), language) {
        Some(m) => m,
        None => String::new(),
    };
    let sparql_p = sh("sparql");
    if let Some(q) = store.first_object(subj, sparql_p.as_str()) {
        let qk = crate::rdf::term_key_exec(q);
        let select_p = sh("select");
        let select = match store.first_literal(qk.as_str(), select_p.as_str()) {
            Some(x) => x,
            None => String::new(),
        };
        let qmessage = match store.literal_for_language(qk.as_str(), message_p.as_str(), language) {
            Some(m) => m,
            None => message,
        };
        let affected_fields = extract_bind_fields_from_sparql(select.as_str());
        return Some(
            Ok(
                ShapeResult {
                    shape_uri: subj.to_owned(),
                    target_class: target_name,
                    enforcement_level: level,
                    message: qmessage,
                    affected_fields,
                    introspectable: false,
                    ast: None,
                    sparql: Some(select),
                },
            ),
        );
    }
    match parse_shape_ast(store, subj) {
        Ok(ast) => {
            if introspectable {
                let affected_fields = crate::forward_eval::collect_violation_fields(&ast);
                Some(
                    Ok(
                        ShapeResult {
                            shape_uri: subj.to_owned(),
                            target_class: target_name,
                            enforcement_level: level,
                            message,
                            affected_fields,
                            introspectable: true,
                            ast: Some(ast),
                            sparql: None,
                        },
                    ),
                )
            } else {
                Some(Ok(degenerate_rule(subj, target_name, level, message)))
            }
        },
        Err(e) => {
            let unsupported = match &e {
                ParseError::UnsupportedConstruct(_) => true,
                _ => false,
            };
            if introspectable || !unsupported {
                Some(Err(e))
            } else {
                Some(Ok(degenerate_rule(subj, target_name, level, message)))
            }
        },
    }
}

/// A rule annotated as not introspectable and holding no raw query: no tree, no
/// query, no fields.
fn degenerate_rule(subj: &str, target_name: String, level: EnforcementLevel, message: String) -> (r: ShapeResult)
    ensures
        shape_model(r) == (ShapeModel {
            uri: subj@,
            target: target_name@,
            level,
            message: message@,
            introspectable: false,
            ast: None,
            sparql: None,
        }),
        rule_well_formed(r),
{
    ShapeResult {
        shape_uri: subj.to_owned(),
        target_class: target_name,
        enforcement_level: level,
        message,
        affected_fields: Vec::new(),
        introspectable: false,
        ast: None,
        sparql: None,
    }
}

pub open spec fn rules_result(r: Result<Vec<ShapeResult>, ParseError>) -> Result<Seq<ShapeModel>, ErrModel> {
    match r {
        Ok(rs) => Ok(rs@.map_values(|x: ShapeResult| shape_model(x))),
        Err(e) => Err(e.model()),
    }
}

proof fn lemma_shapes_error_stays(
    k: Seq<KeyedTriple>,
    subjects: Seq<Seq<char>>,
    filter: Seq<char>,
    language: Seq<char>,
    i: int,
    j: int,
)
    requires
        0 <= i <= j <= subjects.len(),
        shapes_from(k, subjects.subrange(0, i), filter, language) is Err,
    ensures
        shapes_from(k, subjects.subrange(0, j), filter, language) == shapes_from(
            k,
            subjects.subrange(0, i),
            filter,
            language,
        ),
    decreases j - i,
{
    if j > i {
        lemma_shapes_error_stays(k, subjects, filter, language, i, j - 1);
        assert(subjects.subrange(0, j).drop_last() =~= subjects.subrange(0, j - 1));
    }
}

proof fn lemma_shapes_step(
    k: Seq<KeyedTriple>,
    sm: Seq<Seq<char>>,
    filter: Seq<char>,
    language: Seq<char>,
    i: int,
)
    requires
        0 <= i < sm.len(),
    ensures
        shapes_from(k, sm.subrange(0, i + 1), filter, language) == match shapes_from(
            k,
            sm.subrange(0, i),
            filter,
            language,
        ) {
            Err(e) => Err(e),
            Ok(ss) => match shape_outcome(k, sm[i], filter, language) {
                None => Ok(ss),
                Some(Ok(m)) => Ok(ss.push(m)),
                Some(Err(e)) => Err(e),
            },
        },
{
    assert(sm.subrange(0, i + 1).drop_last() =~= sm.subrange(0, i));
}

/// The rules that the triples of a document describe, for shapes whose target
/// passes `target_class` (all of them when it is empty), with messages chosen
/// for `language` (see [`parse_rules`]).
pub fn parse_shacl_triples(triples: Vec<crate::rdf::RdfTriple>, target_class: &str, language: &str) -> (r:
    Result<Vec<ShapeResult>, ParseError>)
    ensures
        !(r matches Err(ParseError::Turtle(_))),
        rules_result(r) == parse_rules(
            keyed(crate::rdf::triple_models(triples@)),
            target_class@,
            language@,
        ),
        r matches Ok(rs) ==> forall|i: int| 0 <= i < rs@.len() ==> rule_well_formed(#[trigger] rs@[i]),
{
    let ghost tm = crate::rdf::triple_models(triples@);
    let store = TripleStore::new(triples);
    let ghost k = store.model();
    let subjects = subjects_in_order(&store);
    let ghost sm = texts(subjects@);
    let mut out: Vec<ShapeResult> = Vec::new();
    let mut i: usize = 0;
    assert(sm.subrange(0, 0) =~= Seq::<Seq<char>>::empty());
    assert(out@.map_values(|x: ShapeResult| shape_model(x)) =~= Seq::<ShapeModel>::empty());
    while i < subjects.len()
        invariant
            i <= subjects@.len(),
            k == store.model(),
            k == keyed(tm),
            tm == crate::rdf::triple_models(triples@),
            sm == texts(subjects@),
            sm == subject_order(k),
            shapes_from(k, sm.subrange(0, i as int), target_class@, language@) == Ok::<
                Seq<ShapeModel>,
                ErrModel,
            >(out@.map_values(|x: ShapeResult| shape_model(x))),
            forall|j: int| 0 <= j < out@.len() ==> rule_well_formed(#[trigger] out@[j]),
        decreases subjects.len() - i,
    {
        proof {
            lemma_shapes_step(k, sm, target_class@, language@, i as int);
        }
        assert(sm[i as int] == subjects@[i as int]@);
        match shape_outcome_exec(&store, subjects[i].as_str(), target_class, language) {
            None => {},
            Some(Ok(x)) => {
                let ghost before = out@;
                out.push(x);
                assert(out@.map_values(|x: ShapeResult| shape_model(x)) =~= before.map_values(
                    |x: ShapeResult| shape_model(x),
                ).push(shape_model(x)));
            },
            Some(Err(e)) => {
                proof {
                    lemma_shapes_error_stays(
                        k,
                        sm,
                        target_class@,
                        language@,
                        i + 1,
                        sm.len() as int,
                    );
                    assert(sm.subrange(0, sm.len() as int) =~= sm);
                }
                return Err(e);
            },
        }
        i = i + 1;
    }
    assert(sm.subrange(0, i as int) =~= sm);
    Ok(out)
}

/// Compiles rule text (Turtle) into rules: a [`ParseError::Turtle`], carrying
/// the reader's message, exactly when the Turtle reader rejects the text;
/// otherwise what [`parse_shacl_triples`] gives on the triples that the reader
/// returned. Every rule returned is well formed (see [`rule_well_formed`]).
pub fn parse_shacl(ttl: &str, target_class: &str, language: &str) -> (r: Result<Vec<ShapeResult>, ParseError>)
    ensures
        !crate::rdf::turtle_accepts(ttl@) ==> r matches Err(ParseError::Turtle(_)),
        crate::rdf::turtle_accepts(ttl@) ==> !(r matches Err(ParseError::Turtle(_))),
        r matches Ok(rs) ==> forall|i: int| 0 <= i < rs@.len() ==> rule_well_formed(#[trigger] rs@[i]),
{
    match crate::rdf::parse_turtle(ttl) {
        Err(m) => Err(ParseError::Turtle(m)),
        Ok(ts) => parse_shacl_triples(ts, target_class, language),
    }
}

// ── Unsupported constructs ──────────────────────────────────────────

/// A property shape whose path is a simple IRI and that has none of the
/// supported value constraints (`sh:hasValue`, `sh:in`, a `sh:minCount` or
/// `sh:maxCount` that reads as a count, `sh:equals`, `sh:disjoint`) is an
/// unsupported-construct error. Its text names the field, the predicates found on
/// the node, the supported constraints and the remedy (see [`value_message`]).
pub proof fn lemma_unsupported_property(k: Seq<KeyedTriple>, key: Seq<char>, field: Seq<char>, fuel: nat)
    requires
        fuel > 0,
        first_object(k, key, sh_iri("path"@)) == Some(TermModel::Iri(field)),
        first_object(k, key, sh_iri("hasValue"@)) is None,
        first_object(k, key, sh_iri("in"@)) is None,
        count_bound(first_literal(k, key, sh_iri("minCount"@))) is None,
        count_bound(first_literal(k, key, sh_iri("maxCount"@))) is None,
        first_object(k, key, sh_iri("equals"@)) is None,
        first_object(k, key, sh_iri("disjoint"@)) is None,
    ensures
        parse_property_spec(k, key, fuel) == Err::<AstModel, ErrModel>(
            ErrModel::Unsupported(value_message(path_name(PathModel::Iri(field)), key, found_predicates(k, key))),
        ),
{
}

/// The rule that a node shape yields when its constraint holds an unsupported
/// construct: the error itself when the shape is introspectable (annotated `true`,
/// or not annotated), else a rule with no tree, no query and not introspectable.
pub proof fn lemma_unsupported_shape(k: Seq<KeyedTriple>, subj: Seq<char>, filter: Seq<char>, language: Seq<char>, m: Seq<char>)
    requires
        is_node_shape(k, subj),
        target_matches(first_str(k, subj, sh_iri("targetClass"@)), filter),
        first_object(k, subj, sh_iri("sparql"@)) is None,
        parse_shape_spec(k, subj) == Err::<AstModel, ErrModel>(ErrModel::Unsupported(m)),
    ensures
        ({
            let introspectable = match first_literal(k, subj, a360_iri("introspectable"@)) {
                Some(x) => x == "true"@,
                None => true,
            };
            if introspectable {
                shape_outcome(k, subj, filter, language) == Some(Err::<ShapeModel, ErrModel>(ErrModel::Unsupported(m)))
            } else {
                shape_outcome(k, subj, filter, language) matches Some(Ok(r)) && r.ast is None && r.sparql is None
                    && !r.introspectable && r.uri == subj
            }
        }),
{
    reveal(shape_outcome);
}

} // verus!

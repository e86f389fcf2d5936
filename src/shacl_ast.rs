//! The rule language: property paths, the constraint tree, enforcement levels,
//! parsed rules and the violations that evaluation reports.

use vstd::prelude::*;

use crate::json::{model_of_items, JsonModel, JsonValue};
use crate::text::{after_last, split_after_last};

verus! {

/// A property path: a field reference.
#[derive(Debug, PartialEq)]
pub enum PropertyPath {
    /// One predicate, named by an IRI (`https://example.org/ns/status`).
    Iri { iri: String },
    /// Several predicates followed in order.
    Sequence { steps: Vec<PropertyPath> },
    /// A predicate followed backwards.
    Inverse { path: Box<PropertyPath> },
}

/// The local name of an IRI: what follows its last `#`, or else its last `/`.
pub open spec fn iri_local_name(iri: Seq<char>) -> Option<Seq<char>> {
    match after_last(iri, '#') {
        Some(name) => Some(name),
        None => after_last(iri, '/'),
    }
}

/// The local name of a path: that of its IRI when it is a simple path.
pub open spec fn path_local_name(p: PropertyPath) -> Option<Seq<char>> {
    match p {
        PropertyPath::Iri { iri } => iri_local_name(iri@),
        _ => None,
    }
}

/// The local name of an IRI (see [`iri_local_name`]).
pub fn local_name_of_iri(iri: &str) -> (r: Option<&str>)
    ensures
        r matches Some(n) ==> iri_local_name(iri@) == Some(n@),
        r is None ==> iri_local_name(iri@) is None,
{
    match split_after_last(iri, '#') {
        Some(name) => Some(name),
        None => split_after_last(iri, '/'),
    }
}

impl PropertyPath {
    /// A simple path for the IRI.
    pub fn iri(iri: &str) -> (r: PropertyPath)
        ensures
            r matches PropertyPath::Iri { iri: i } && i@ == iri@,
    {
        PropertyPath::Iri { iri: iri.to_owned() }
    }

    /// A sequence path of the steps.
    pub fn sequence(steps: Vec<PropertyPath>) -> (r: PropertyPath)
        ensures
            r == (PropertyPath::Sequence { steps }),
    {
        PropertyPath::Sequence { steps }
    }

    /// The inverse of the path.
    pub fn inverse(path: PropertyPath) -> (r: PropertyPath)
        ensures
            r == (PropertyPath::Inverse { path: Box::new(path) }),
    {
        PropertyPath::Inverse { path: Box::new(path) }
    }

    /// The local name of a simple path (see [`iri_local_name`]); none for the others.
    pub fn local_name(&self) -> (r: Option<&str>)
        ensures
            r matches Some(n) ==> path_local_name(*self) == Some(n@),
            r is None ==> path_local_name(*self) is None,
    {
        match self {
            PropertyPath::Iri { iri } => local_name_of_iri(iri.as_str()),
            _ => None,
        }
    }
}

/// A constraint in the rule language.
#[derive(Debug, PartialEq)]
pub enum ShaclAst {
    /// Every child holds.
    And { children: Vec<ShaclAst> },
    /// Some child holds.
    Or { children: Vec<ShaclAst> },
    /// The child does not hold.
    Not { child: Box<ShaclAst> },
    /// The field at `path` has the value.
    PropEquals { path: PropertyPath, value: JsonValue },
    /// The field at `path` has one of the values.
    PropIn { path: PropertyPath, values: Vec<JsonValue> },
    /// The field at `path` holds between `min` and `max` elements.
    PropCount { path: PropertyPath, min: Option<u32>, max: Option<u32> },
    /// The fields at the two paths are equal.
    PathEquals { path_a: PropertyPath, path_b: PropertyPath },
    /// The fields at the two paths are not equal.
    PathDisjoint { path_a: PropertyPath, path_b: PropertyPath },
}

/// How severe a violation is.
#[derive(Clone, Copy, Debug, PartialEq, Eq, Structural)]
pub enum EnforcementLevel {
    Critical,
    Serious,
    Error,
    Unlikely,
}

impl EnforcementLevel {
    /// Whether the level blocks publication: critical and serious do.
    pub fn is_blocking(&self) -> (r: bool)
        ensures
            r == (*self is Critical || *self is Serious),
    {
        match self {
            EnforcementLevel::Critical | EnforcementLevel::Serious => true,
            _ => false,
        }
    }

    /// The level's name in lower case, as violations carry it.
    pub fn as_str(&self) -> (r: &'static str)
        ensures
            r@ == match *self {
                EnforcementLevel::Critical => "critical"@,
                EnforcementLevel::Serious => "serious"@,
                EnforcementLevel::Error => "error"@,
                EnforcementLevel::Unlikely => "unlikely"@,
            },
    {
        match self {
            EnforcementLevel::Critical => "critical",
            EnforcementLevel::Serious => "serious",
            EnforcementLevel::Error => "error",
            EnforcementLevel::Unlikely => "unlikely",
        }
    }
}

impl Default for EnforcementLevel {
    fn default() -> (r: EnforcementLevel)
        ensures
            r == EnforcementLevel::Serious,
    {
        EnforcementLevel::Serious
    }
}

/// One rule: a shape compiled to a constraint tree, or kept as a raw query.
#[derive(Debug, PartialEq)]
pub struct ShapeResult {
    /// The IRI of the shape.
    pub shape_uri: String,
    /// The local name of the class that the rule targets.
    pub target_class: String,
    /// How severe a violation of the rule is.
    pub enforcement_level: EnforcementLevel,
    /// The message a violation carries.
    pub message: String,
    /// The fields the rule reads, sorted, each once.
    pub affected_fields: Vec<String>,
    /// Whether the rule is in the introspectable subset.
    pub introspectable: bool,
    /// The constraint tree, for an introspectable rule.
    pub ast: Option<ShaclAst>,
    /// The raw query text, for a rule kept as a query.
    pub sparql: Option<String>,
}

/// A failed rule, as evaluation reports it.
#[derive(Debug, PartialEq)]
pub struct Violation {
    /// The fields that the rule reads.
    pub fields: Vec<String>,
    /// The rule's message.
    pub message: String,
    /// The rule's enforcement level.
    pub enforcement_level: EnforcementLevel,
    /// A fix, where one is known.
    pub suggested_fix: Option<String>,
}

/// The mathematical model of a [`PropertyPath`].
pub ghost enum PathModel {
    Iri(Seq<char>),
    Sequence(Seq<PathModel>),
    Inverse(Box<PathModel>),
}

/// The mathematical model of a [`ShaclAst`].
pub ghost enum AstModel {
    And(Seq<AstModel>),
    Or(Seq<AstModel>),
    Not(Box<AstModel>),
    PropEquals(PathModel, JsonModel),
    PropIn(PathModel, Seq<JsonModel>),
    PropCount(PathModel, Option<u32>, Option<u32>),
    PathEquals(PathModel, PathModel),
    PathDisjoint(PathModel, PathModel),
}

pub open spec fn model_of_paths(ps: Seq<PropertyPath>) -> Seq<PathModel>
    decreases ps,
{
    if ps.len() == 0 {
        Seq::empty()
    } else {
        model_of_paths(ps.drop_last()).push(ps.last().model())
    }
}

pub open spec fn model_of_asts(cs: Seq<ShaclAst>) -> Seq<AstModel>
    decreases cs,
{
    if cs.len() == 0 {
        Seq::empty()
    } else {
        model_of_asts(cs.drop_last()).push(cs.last().model())
    }
}

pub proof fn lemma_model_of_paths(ps: Seq<PropertyPath>)
    ensures
        model_of_paths(ps).len() == ps.len(),
        forall|i: int| 0 <= i < ps.len() ==> #[trigger] model_of_paths(ps)[i] == ps[i].model(),
    decreases ps.len(),
{
    if ps.len() > 0 {
        lemma_model_of_paths(ps.drop_last());
    }
}

pub proof fn lemma_model_of_asts(cs: Seq<ShaclAst>)
    ensures
        model_of_asts(cs).len() == cs.len(),
        forall|i: int| 0 <= i < cs.len() ==> #[trigger] model_of_asts(cs)[i] == cs[i].model(),
    decreases cs.len(),
{
    if cs.len() > 0 {
        lemma_model_of_asts(cs.drop_last());
    }
}

impl PropertyPath {
    pub open spec fn model(self) -> PathModel
        decreases self,
    {
        match self {
            PropertyPath::Iri { iri } => PathModel::Iri(iri@),
            PropertyPath::Sequence { steps } => PathModel::Sequence(model_of_paths(steps@)),
            PropertyPath::Inverse { path } => PathModel::Inverse(Box::new((*path).model())),
        }
    }
}

impl ShaclAst {
    pub open spec fn model(self) -> AstModel
        decreases self,
    {
        match self {
            ShaclAst::And { children } => AstModel::And(model_of_asts(children@)),
            ShaclAst::Or { children } => AstModel::Or(model_of_asts(children@)),
            ShaclAst::Not { child } => AstModel::Not(Box::new((*child).model())),
            ShaclAst::PropEquals { path, value } => AstModel::PropEquals(path.model(), value.model()),
            ShaclAst::PropIn { path, values } => AstModel::PropIn(path.model(), model_of_items(values@)),
            ShaclAst::PropCount { path, min, max } => AstModel::PropCount(path.model(), min, max),
            ShaclAst::PathEquals { path_a, path_b } => AstModel::PathEquals(path_a.model(), path_b.model()),
            ShaclAst::PathDisjoint { path_a, path_b } => AstModel::PathDisjoint(
                path_a.model(),
                path_b.model(),
            ),
        }
    }
}

} // verus!

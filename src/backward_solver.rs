//! Backward solving: from a constraint, the known fields of a record and one
//! target field, the predicate that the target's value must meet.
//!
//! Three steps: known values are substituted into the constraint, the result is
//! simplified as a boolean formula, and what remains on the target field is read
//! out as a predicate.

use vstd::prelude::*;

use crate::forward_eval::{any_value_equal, count_of, count_within};
use crate::json::{
    duplicate_items, lemma_lookup_model, lookup_entry, loose_eq, model_lookup_from,
    model_of_entries, model_of_items, str_equal, values_equal, JsonModel, JsonValue,
};
use crate::predicate::{combine, opt_pred_model, LogicalOperator, PredModel, Predicate};
use crate::shacl_ast::{path_local_name, ShaclAst};

verus! {

broadcast use vstd::std_specs::vec::group_vec_axioms;

/// What a constraint on one field asks of it.
#[derive(Debug)]
pub enum FieldConstraintKind {
    Equals(JsonValue),
    In(Vec<JsonValue>),
    NotEquals(JsonValue),
}

/// A constraint with the known fields substituted: a boolean formula over
/// constants and constraints on single fields.
#[derive(Debug)]
pub enum Simplified {
    Bool(bool),
    And(Vec<Simplified>),
    Or(Vec<Simplified>),
    Not(Box<Simplified>),
    FieldConstraint { field: String, kind: FieldConstraintKind },
}

/// The mathematical model of a [`FieldConstraintKind`].
pub ghost enum KindModel {
    Equals(JsonModel),
    In(Seq<JsonModel>),
    NotEquals(JsonModel),
}

/// The mathematical model of a [`Simplified`] formula.
pub ghost enum NodeModel {
    Bool(bool),
    And(Seq<NodeModel>),
    Or(Seq<NodeModel>),
    Not(Box<NodeModel>),
    Field(Seq<char>, KindModel),
}

impl FieldConstraintKind {
    pub open spec fn model(self) -> KindModel {
        match self {
            FieldConstraintKind::Equals(v) => KindModel::Equals(v.model()),
            FieldConstraintKind::In(vs) => KindModel::In(model_of_items(vs@)),
            FieldConstraintKind::NotEquals(v) => KindModel::NotEquals(v.model()),
        }
    }
}

pub open spec fn model_of_nodes(ns: Seq<Simplified>) -> Seq<NodeModel>
    decreases ns,
{
    if ns.len() == 0 {
        Seq::empty()
    } else {
        model_of_nodes(ns.drop_last()).push(ns.last().model())
    }
}

impl Simplified {
    pub open spec fn model(self) -> NodeModel
        decreases self,
    {
        match self {
            Simplified::Bool(b) => NodeModel::Bool(b),
            Simplified::And(cs) => NodeModel::And(model_of_nodes(cs@)),
            Simplified::Or(cs) => NodeModel::Or(model_of_nodes(cs@)),
            Simplified::Not(inner) => NodeModel::Not(Box::new((*inner).model())),
            Simplified::FieldConstraint { field, kind } => NodeModel::Field(field@, kind.model()),
        }
    }
}

pub proof fn lemma_model_of_nodes(ns: Seq<Simplified>)
    ensures
        model_of_nodes(ns).len() == ns.len(),
        forall|i: int| 0 <= i < ns.len() ==> #[trigger] model_of_nodes(ns)[i] == ns[i].model(),
    decreases ns.len(),
{
    if ns.len() > 0 {
        lemma_model_of_nodes(ns.drop_last());
    }
}

// ── Substitute ───────────────────────────────────────────────────────

/// The formula that a constraint becomes once the known fields are put in.
///
/// A test on a known field becomes its truth value; one on the target field is
/// kept as a field constraint (a count never is); one on any other field, and
/// every constraint between two paths, becomes `true`.
pub open spec fn substitute(ast: ShaclAst, known: Seq<(Seq<char>, JsonModel)>, target: Seq<char>) -> NodeModel
    decreases ast,
{
    match ast {
        ShaclAst::And { children } => NodeModel::And(substitute_all(children@, known, target)),
        ShaclAst::Or { children } => NodeModel::Or(substitute_all(children@, known, target)),
        ShaclAst::Not { child } => NodeModel::Not(Box::new(substitute(*child, known, target))),
        ShaclAst::PropEquals { path, value } => match path_local_name(path) {
            Some(f) => match model_lookup_from(known, f, 0) {
                Some(kv) => NodeModel::Bool(loose_eq(kv, value.model())),
                None => if f == target {
                    NodeModel::Field(f, KindModel::Equals(value.model()))
                } else {
                    NodeModel::Bool(true)
                },
            },
            None => NodeModel::Bool(true),
        },
        ShaclAst::PropIn { path, values } => match path_local_name(path) {
            Some(f) => match model_lookup_from(known, f, 0) {
                Some(kv) => NodeModel::Bool(
                    exists|i: int|
                        0 <= i < values@.len() && loose_eq(kv, #[trigger] values@[i].model()),
                ),
                None => if f == target {
                    NodeModel::Field(f, KindModel::In(model_of_items(values@)))
                } else {
                    NodeModel::Bool(true)
                },
            },
            None => NodeModel::Bool(true),
        },
        ShaclAst::PropCount { path, min, max } => match path_local_name(path) {
            Some(f) => match model_lookup_from(known, f, 0) {
                Some(kv) => NodeModel::Bool(count_within(count_of(Some(kv)), min, max)),
                None => NodeModel::Bool(true),
            },
            None => NodeModel::Bool(true),
        },
        ShaclAst::PathEquals { .. } => NodeModel::Bool(true),
        ShaclAst::PathDisjoint { .. } => NodeModel::Bool(true),
    }
}

pub open spec fn substitute_all(
    cs: Seq<ShaclAst>,
    known: Seq<(Seq<char>, JsonModel)>,
    target: Seq<char>,
) -> Seq<NodeModel>
    decreases cs,
{
    if cs.len() == 0 {
        Seq::empty()
    } else {
        substitute_all(cs.drop_last(), known, target).push(substitute(cs.last(), known, target))
    }
}

// ── Simplify ─────────────────────────────────────────────────────────

/// Whether some member is the constant `b`.
pub open spec fn has_const(cs: Seq<NodeModel>, b: bool) -> bool {
    exists|i: int| 0 <= i < cs.len() && cs[i] == NodeModel::Bool(b)
}

/// The members other than the constant `b`, in order.
pub open spec fn drop_const(cs: Seq<NodeModel>, b: bool) -> Seq<NodeModel>
    decreases cs.len(),
{
    if cs.len() == 0 {
        Seq::empty()
    } else if cs.last() == NodeModel::Bool(b) {
        drop_const(cs.drop_last(), b)
    } else {
        drop_const(cs.drop_last(), b).push(cs.last())
    }
}

/// The conjunction of simplified members: `false` if one is `false`, else the
/// members other than `true`; none left is `true`, one left stands for itself.
pub open spec fn fold_and(cs: Seq<NodeModel>) -> NodeModel {
    if has_const(cs, false) {
        NodeModel::Bool(false)
    } else {
        let f = drop_const(cs, true);
        if f.len() == 0 {
            NodeModel::Bool(true)
        } else if f.len() == 1 {
            f[0]
        } else {
            NodeModel::And(f)
        }
    }
}

/// The disjunction of simplified members, dual to [`fold_and`].
pub open spec fn fold_or(cs: Seq<NodeModel>) -> NodeModel {
    if has_const(cs, true) {
        NodeModel::Bool(true)
    } else {
        let f = drop_const(cs, false);
        if f.len() == 0 {
            NodeModel::Bool(false)
        } else if f.len() == 1 {
            f[0]
        } else {
            NodeModel::Or(f)
        }
    }
}

/// The negation of a simplified formula: a constant flips, an equality becomes an
/// inequality, a disjunction becomes the conjunction of the negated members and a
/// conjunction the disjunction of them (De Morgan), anything else is wrapped.
pub open spec fn negate(s: NodeModel) -> NodeModel
    decreases s,
{
    match s {
        NodeModel::Bool(b) => NodeModel::Bool(!b),
        NodeModel::Field(f, KindModel::Equals(v)) => NodeModel::Field(f, KindModel::NotEquals(v)),
        NodeModel::Or(cs) => fold_and(negate_all(cs)),
        NodeModel::And(cs) => fold_or(negate_all(cs)),
        _ => NodeModel::Not(Box::new(s)),
    }
}

pub open spec fn negate_all(cs: Seq<NodeModel>) -> Seq<NodeModel>
    decreases cs,
{
    if cs.len() == 0 {
        Seq::empty()
    } else {
        negate_all(cs.drop_last()).push(negate(cs.last()))
    }
}

/// The simplified formula: constants folded bottom-up and negations pushed down.
pub open spec fn simplify(n: NodeModel) -> NodeModel
    decreases n,
{
    match n {
        NodeModel::Bool(b) => NodeModel::Bool(b),
        NodeModel::Field(f, k) => NodeModel::Field(f, k),
        NodeModel::Not(inner) => negate(simplify(*inner)),
        NodeModel::And(cs) => fold_and(simplify_all(cs)),
        NodeModel::Or(cs) => fold_or(simplify_all(cs)),
    }
}

pub open spec fn simplify_all(cs: Seq<NodeModel>) -> Seq<NodeModel>
    decreases cs,
{
    if cs.len() == 0 {
        Seq::empty()
    } else {
        simplify_all(cs.drop_last()).push(simplify(cs.last()))
    }
}

// ── Extract ──────────────────────────────────────────────────────────

/// The predicate that a field constraint on the target stands for.
pub open spec fn field_predicate(f: Seq<char>, k: KindModel) -> PredModel {
    match k {
        KindModel::Equals(v) => PredModel::Simple(f, "equals"@, Some(v)),
        KindModel::In(vs) => PredModel::Simple(f, "in"@, Some(JsonModel::Array(vs))),
        KindModel::NotEquals(v) => PredModel::Negated(
            Box::new(PredModel::Simple(f, "equals"@, Some(v))),
        ),
    }
}

/// The predicate that a simplified formula puts on the target field: none for
/// `true`, an empty `in` for `false`; members that say nothing of the target are
/// left out of a combination.
pub open spec fn extract(n: NodeModel, target: Seq<char>) -> Option<PredModel>
    decreases n,
{
    match n {
        NodeModel::Bool(b) => if b {
            None
        } else {
            Some(PredModel::Simple(target, "in"@, Some(JsonModel::Array(Seq::empty()))))
        },
        NodeModel::Field(f, k) => if f == target {
            Some(field_predicate(f, k))
        } else {
            None
        },
        NodeModel::Not(inner) => match extract(*inner, target) {
            Some(p) => Some(PredModel::Negated(Box::new(p))),
            None => None,
        },
        NodeModel::And(cs) => gather(LogicalOperator::And, extract_all(cs, target)),
        NodeModel::Or(cs) => gather(LogicalOperator::Or, extract_all(cs, target)),
    }
}

/// The predicates of the members that constrain the target, in order.
pub open spec fn extract_all(cs: Seq<NodeModel>, target: Seq<char>) -> Seq<PredModel>
    decreases cs,
{
    if cs.len() == 0 {
        Seq::empty()
    } else {
        match extract(cs.last(), target) {
            Some(p) => extract_all(cs.drop_last(), target).push(p),
            None => extract_all(cs.drop_last(), target),
        }
    }
}

/// None for no predicate, the predicate itself for one, else their combination.
pub open spec fn gather(op: LogicalOperator, ps: Seq<PredModel>) -> Option<PredModel> {
    if ps.len() == 0 {
        None
    } else if ps.len() == 1 {
        Some(ps[0])
    } else {
        Some(combine(op, ps))
    }
}

/// What backward solving gives: the predicate on the target after substituting
/// the known fields and simplifying, or none where the target is unconstrained.
pub open spec fn solve_spec(ast: ShaclAst, known: Seq<(Seq<char>, JsonModel)>, target: Seq<char>) -> Option<
    PredModel,
> {
    extract(simplify(substitute(ast, known, target)), target)
}

// ── Laws of simplification ──────────────────────────────────────────

/// Whether a negation may wrap the formula in simplified form.
pub open spec fn wrappable(c: NodeModel) -> bool {
    match c {
        NodeModel::Bool(_) => false,
        NodeModel::And(_) => false,
        NodeModel::Or(_) => false,
        NodeModel::Field(_, KindModel::Equals(_)) => false,
        _ => true,
    }
}

/// The shape of a simplified formula: negations wrap only what they cannot push
/// into, and combinations have at least two members, none a constant.
pub open spec fn is_simplified(n: NodeModel) -> bool
    decreases n,
{
    match n {
        NodeModel::Bool(_) => true,
        NodeModel::Field(_, _) => true,
        NodeModel::Not(c) => is_simplified(*c) && wrappable(*c),
        NodeModel::And(cs) => cs.len() >= 2 && all_simplified_members(cs),
        NodeModel::Or(cs) => cs.len() >= 2 && all_simplified_members(cs),
    }
}

pub open spec fn all_simplified_members(cs: Seq<NodeModel>) -> bool
    decreases cs,
{
    if cs.len() == 0 {
        true
    } else {
        all_simplified_members(cs.drop_last()) && is_simplified(cs.last()) && !(cs.last() is Bool)
    }
}

proof fn lemma_all_simplified_members(cs: Seq<NodeModel>)
    ensures
        all_simplified_members(cs) <==> forall|i: int|
            0 <= i < cs.len() ==> is_simplified(#[trigger] cs[i]) && !(cs[i] is Bool),
    decreases cs.len(),
{
    if cs.len() > 0 {
        let d = cs.drop_last();
        lemma_all_simplified_members(d);
        assert(forall|i: int| 0 <= i < d.len() ==> #[trigger] d[i] == cs[i]);
        if forall|i: int| 0 <= i < cs.len() ==> is_simplified(#[trigger] cs[i]) && !(cs[i] is Bool) {
            assert forall|i: int| 0 <= i < d.len() implies is_simplified(#[trigger] d[i]) && !(
            d[i] is Bool) by {
                assert(d[i] == cs[i]);
            }
            assert(is_simplified(cs[cs.len() - 1]));
        }
        if all_simplified_members(cs) {
            assert forall|i: int| 0 <= i < cs.len() implies is_simplified(#[trigger] cs[i]) && !(
            cs[i] is Bool) by {
                if i < d.len() {
                    assert(d[i] == cs[i]);
                }
            }
        }
    }
}

proof fn lemma_drop_const(cs: Seq<NodeModel>, b: bool)
    ensures
        forall|i: int|
            0 <= i < drop_const(cs, b).len() ==> #[trigger] drop_const(cs, b)[i] != NodeModel::Bool(b)
                && cs.contains(drop_const(cs, b)[i]),
        !has_const(cs, b) ==> drop_const(cs, b) == cs,
    decreases cs.len(),
{
    if cs.len() > 0 {
        lemma_drop_const(cs.drop_last(), b);
        let d = drop_const(cs.drop_last(), b);
        assert forall|i: int| 0 <= i < d.len() implies cs.contains(#[trigger] d[i]) by {
            let k = choose|k: int| 0 <= k < cs.drop_last().len() && cs.drop_last()[k] == d[i];
            assert(cs[k] == d[i]);
        }
        if cs.last() != NodeModel::Bool(b) {
            assert(cs.contains(cs.last())) by {
                assert(cs[cs.len() - 1] == cs.last());
            }
        }
        if !has_const(cs, b) {
            assert(!has_const(cs.drop_last(), b)) by {
                if has_const(cs.drop_last(), b) {
                    let k = choose|k: int|
                        0 <= k < cs.drop_last().len() && cs.drop_last()[k] == NodeModel::Bool(b);
                    assert(cs[k] == NodeModel::Bool(b));
                }
            }
            assert(cs[cs.len() - 1] != NodeModel::Bool(b));
            assert(cs.drop_last().push(cs.last()) =~= cs);
        }
    } else {
        assert(drop_const(cs, b) =~= cs);
    }
}

/// Folding members that are all simplified gives a simplified formula.
proof fn lemma_fold_simplified(cs: Seq<NodeModel>, and: bool)
    requires
        forall|i: int| 0 <= i < cs.len() ==> is_simplified(#[trigger] cs[i]),
    ensures
        is_simplified(if and { fold_and(cs) } else { fold_or(cs) }),
{
    let b = and;
    lemma_drop_const(cs, b);
    let f = drop_const(cs, b);
    if !has_const(cs, !b) {
        assert forall|i: int| 0 <= i < f.len() implies is_simplified(#[trigger] f[i]) && !(
        f[i] is Bool) by {
            let k = choose|k: int| 0 <= k < cs.len() && cs[k] == f[i];
            if f[i] is Bool {
                let v = f[i]->Bool_0;
                if v == !b {
                    assert(has_const(cs, !b));
                }
            }
        }
        lemma_all_simplified_members(f);
        if f.len() == 1 {
            assert(is_simplified(f[0]));
        }
    }
}

proof fn lemma_negate_simplified(s: NodeModel)
    requires
        is_simplified(s),
    ensures
        is_simplified(negate(s)),
        !(s is Bool) ==> !(negate(s) is Bool),
    decreases s,
{
    match s {
        NodeModel::Or(cs) => {
            lemma_negate_all_simplified(cs);
            lemma_fold_nonconst(negate_all(cs), true);
            lemma_fold_simplified(negate_all(cs), true);
        },
        NodeModel::And(cs) => {
            lemma_negate_all_simplified(cs);
            lemma_fold_nonconst(negate_all(cs), false);
            lemma_fold_simplified(negate_all(cs), false);
        },
        _ => {},
    }
}

/// Folding two or more members, none a constant, leaves a combination of them.
proof fn lemma_fold_nonconst(cs: Seq<NodeModel>, and: bool)
    requires
        cs.len() >= 2,
        forall|i: int| 0 <= i < cs.len() ==> !(#[trigger] cs[i] is Bool),
    ensures
        (if and { fold_and(cs) } else { fold_or(cs) }) == (if and { NodeModel::And(cs) } else {
            NodeModel::Or(cs)
        }),
{
    lemma_drop_const(cs, and);
    assert(!has_const(cs, !and)) by {
        if has_const(cs, !and) {
            let k = choose|k: int| 0 <= k < cs.len() && cs[k] == NodeModel::Bool(!and);
            assert(cs[k] is Bool);
        }
    }
    assert(!has_const(cs, and)) by {
        if has_const(cs, and) {
            let k = choose|k: int| 0 <= k < cs.len() && cs[k] == NodeModel::Bool(and);
            assert(cs[k] is Bool);
        }
    }
}

proof fn lemma_negate_all_simplified(cs: Seq<NodeModel>)
    requires
        cs.len() >= 2,
        all_simplified_members(cs),
    ensures
        negate_all(cs).len() == cs.len(),
        forall|i: int|
            0 <= i < cs.len() ==> is_simplified(#[trigger] negate_all(cs)[i]) && !(
            negate_all(cs)[i] is Bool) && negate_all(cs)[i] == negate(cs[i]),
    decreases cs,
{
    lemma_all_simplified_members(cs);
    lemma_negate_all_index(cs);
    assert forall|i: int| 0 <= i < cs.len() implies is_simplified(#[trigger] negate_all(cs)[i])
        && !(negate_all(cs)[i] is Bool) && negate_all(cs)[i] == negate(cs[i]) by {
        lemma_negate_simplified(cs[i]);
    }
}

proof fn lemma_negate_all_index(cs: Seq<NodeModel>)
    ensures
        negate_all(cs).len() == cs.len(),
        forall|i: int| 0 <= i < cs.len() ==> #[trigger] negate_all(cs)[i] == negate(cs[i]),
    decreases cs.len(),
{
    if cs.len() > 0 {
        lemma_negate_all_index(cs.drop_last());
    }
}

proof fn lemma_simplify_all_index(cs: Seq<NodeModel>)
    ensures
        simplify_all(cs).len() == cs.len(),
        forall|i: int| 0 <= i < cs.len() ==> #[trigger] simplify_all(cs)[i] == simplify(cs[i]),
    decreases cs.len(),
{
    if cs.len() > 0 {
        lemma_simplify_all_index(cs.drop_last());
    }
}

/// Every result of simplification has the simplified shape.
pub proof fn lemma_simplify_shape(n: NodeModel)
    ensures
        is_simplified(simplify(n)),
    decreases n,
{
    match n {
        NodeModel::Not(inner) => {
            lemma_simplify_shape(*inner);
            lemma_negate_simplified(simplify(*inner));
        },
        NodeModel::And(cs) => {
            lemma_simplify_all_index(cs);
            assert forall|i: int| 0 <= i < simplify_all(cs).len() implies is_simplified(
                #[trigger] simplify_all(cs)[i],
            ) by {
                lemma_simplify_shape(cs[i]);
            }
            lemma_fold_simplified(simplify_all(cs), true);
        },
        NodeModel::Or(cs) => {
            lemma_simplify_all_index(cs);
            assert forall|i: int| 0 <= i < simplify_all(cs).len() implies is_simplified(
                #[trigger] simplify_all(cs)[i],
            ) by {
                lemma_simplify_shape(cs[i]);
            }
            lemma_fold_simplified(simplify_all(cs), false);
        },
        _ => {},
    }
}

/// A formula of the simplified shape is left as it is by simplification.
pub proof fn lemma_simplified_is_fixed(n: NodeModel)
    requires
        is_simplified(n),
    ensures
        simplify(n) == n,
    decreases n,
{
    match n {
        NodeModel::Not(c) => {
            lemma_simplified_is_fixed(*c);
        },
        NodeModel::And(cs) => {
            lemma_all_simplified_members(cs);
            lemma_simplify_all_index(cs);
            assert forall|i: int| 0 <= i < cs.len() implies #[trigger] simplify_all(cs)[i] == cs[i] by {
                lemma_simplified_is_fixed(cs[i]);
            }
            assert(simplify_all(cs) =~= cs);
            lemma_fold_nonconst(cs, true);
        },
        NodeModel::Or(cs) => {
            lemma_all_simplified_members(cs);
            lemma_simplify_all_index(cs);
            assert forall|i: int| 0 <= i < cs.len() implies #[trigger] simplify_all(cs)[i] == cs[i] by {
                lemma_simplified_is_fixed(cs[i]);
            }
            assert(simplify_all(cs) =~= cs);
            lemma_fold_nonconst(cs, false);
        },
        _ => {},
    }
}

/// Simplification is idempotent: simplifying a simplified formula changes nothing.
pub proof fn lemma_simplify_idempotent(x: NodeModel)
    ensures
        simplify(simplify(x)) == simplify(x),
{
    lemma_simplify_shape(x);
    lemma_simplified_is_fixed(simplify(x));
}

/// De Morgan: the negation of a disjunction of two formulas simplifies to the
/// same formula as the conjunction of their negations, whatever the formulas.
pub proof fn lemma_de_morgan(a: NodeModel, b: NodeModel)
    ensures
        simplify(NodeModel::Not(Box::new(NodeModel::Or(seq![a, b])))) == simplify(
            NodeModel::And(seq![NodeModel::Not(Box::new(a)), NodeModel::Not(Box::new(b))]),
        ),
{
    let sa = simplify(a);
    let sb = simplify(b);
    lemma_simplify_shape(a);
    lemma_simplify_shape(b);
    lemma_negate_simplified(sa);
    lemma_negate_simplified(sb);
    let pair = seq![a, b];
    assert(pair.drop_last() =~= seq![a]);
    assert(seq![a].drop_last() =~= Seq::<NodeModel>::empty());
    lemma_simplify_all_index(pair);
    assert(simplify_all(pair) =~= seq![sa, sb]);
    let na = NodeModel::Not(Box::new(a));
    let nb = NodeModel::Not(Box::new(b));
    let npair = seq![na, nb];
    assert(npair.drop_last() =~= seq![na]);
    assert(seq![na].drop_last() =~= Seq::<NodeModel>::empty());
    lemma_simplify_all_index(npair);
    assert(simplify_all(npair) =~= seq![negate(sa), negate(sb)]);
    let s2 = seq![sa, sb];
    let n2 = seq![negate(sa), negate(sb)];
    assert(s2.drop_last() =~= seq![sa]);
    assert(seq![sa].drop_last() =~= Seq::<NodeModel>::empty());
    assert(n2.drop_last() =~= seq![negate(sa)]);
    assert(seq![negate(sa)].drop_last() =~= Seq::<NodeModel>::empty());
    lemma_negate_all_index(s2);
    assert(negate_all(s2) =~= n2);
    assert(drop_const(Seq::<NodeModel>::empty(), false) =~= Seq::<NodeModel>::empty());
    assert(drop_const(Seq::<NodeModel>::empty(), true) =~= Seq::<NodeModel>::empty());
    assert(simplify(NodeModel::Or(pair)) == fold_or(s2));
    assert(simplify(NodeModel::And(npair)) == fold_and(n2));
    if has_const(s2, true) {
        if sa == NodeModel::Bool(true) {
            assert(n2[0] == NodeModel::Bool(false));
        } else {
            assert(s2[1] == NodeModel::Bool(true));
            assert(n2[1] == NodeModel::Bool(false));
        }
        assert(has_const(n2, false));
        assert(negate(fold_or(s2)) == fold_and(n2));
    } else {
        assert(sa != NodeModel::Bool(true) && sb != NodeModel::Bool(true)) by {
            assert(s2[0] == sa && s2[1] == sb);
        }
        assert(!has_const(n2, false)) by {
            if has_const(n2, false) {
                let k = choose|k: int| 0 <= k < 2 && n2[k] == NodeModel::Bool(false);
                if k == 0 {
                    assert(sa is Bool);
                } else {
                    assert(sb is Bool);
                }
            }
        }
        if !(sa is Bool) && !(sb is Bool) {
            lemma_fold_nonconst(s2, false);
            lemma_fold_nonconst(n2, true);
        } else {
            assert(sa == NodeModel::Bool(false) || sb == NodeModel::Bool(false));
            let ds = drop_const(s2, false);
            let dn = drop_const(n2, true);
            if sa == NodeModel::Bool(false) && sb == NodeModel::Bool(false) {
                assert(drop_const(seq![sa], false) =~= Seq::<NodeModel>::empty());
                assert(ds =~= Seq::<NodeModel>::empty());
                assert(drop_const(seq![negate(sa)], true) =~= Seq::<NodeModel>::empty());
                assert(dn =~= Seq::<NodeModel>::empty());
            } else if sa == NodeModel::Bool(false) {
                assert(drop_const(seq![sa], false) =~= Seq::<NodeModel>::empty());
                assert(ds =~= seq![sb]);
                assert(drop_const(seq![negate(sa)], true) =~= Seq::<NodeModel>::empty());
                assert(dn =~= seq![negate(sb)]);
            } else {
                assert(drop_const(seq![sa], false) =~= seq![sa]);
                assert(ds =~= seq![sa]);
                assert(drop_const(seq![negate(sa)], true) =~= seq![negate(sa)]);
                assert(dn =~= seq![negate(sa)]);
            }
        }
    }
}

// ── Truth under an assignment ───────────────────────────────────────

/// An assignment of truth values to field constraints that treats an inequality
/// as the negation of the equality.
pub open spec fn consistent(ft: spec_fn(Seq<char>, KindModel) -> bool) -> bool {
    forall|f: Seq<char>, v: JsonModel| #[trigger] ft(f, KindModel::NotEquals(v)) == !ft(f, KindModel::Equals(v))
}

/// The truth value of a formula when each field constraint takes its value from
/// `ft`.
pub open spec fn node_true(n: NodeModel, ft: spec_fn(Seq<char>, KindModel) -> bool) -> bool
    decreases n,
{
    match n {
        NodeModel::Bool(b) => b,
        NodeModel::Field(f, k) => ft(f, k),
        NodeModel::Not(c) => !node_true(*c, ft),
        NodeModel::And(cs) => all_true(cs, ft),
        NodeModel::Or(cs) => any_true(cs, ft),
    }
}

pub open spec fn all_true(cs: Seq<NodeModel>, ft: spec_fn(Seq<char>, KindModel) -> bool) -> bool
    decreases cs,
{
    if cs.len() == 0 {
        true
    } else {
        all_true(cs.drop_last(), ft) && node_true(cs.last(), ft)
    }
}

pub open spec fn any_true(cs: Seq<NodeModel>, ft: spec_fn(Seq<char>, KindModel) -> bool) -> bool
    decreases cs,
{
    if cs.len() == 0 {
        false
    } else {
        any_true(cs.drop_last(), ft) || node_true(cs.last(), ft)
    }
}

proof fn lemma_all_any_index(cs: Seq<NodeModel>, ft: spec_fn(Seq<char>, KindModel) -> bool)
    ensures
        all_true(cs, ft) <==> forall|i: int| 0 <= i < cs.len() ==> node_true(#[trigger] cs[i], ft),
        any_true(cs, ft) <==> exists|i: int| 0 <= i < cs.len() && node_true(#[trigger] cs[i], ft),
    decreases cs.len(),
{
    if cs.len() > 0 {
        let d = cs.drop_last();
        lemma_all_any_index(d, ft);
        assert(forall|i: int| 0 <= i < d.len() ==> #[trigger] d[i] == cs[i]);
        if all_true(cs, ft) {
            assert forall|i: int| 0 <= i < cs.len() implies node_true(#[trigger] cs[i], ft) by {
                if i < d.len() {
                    assert(node_true(d[i], ft));
                }
            }
        }
        if forall|i: int| 0 <= i < cs.len() ==> node_true(#[trigger] cs[i], ft) {
            assert forall|i: int| 0 <= i < d.len() implies node_true(#[trigger] d[i], ft) by {
                assert(node_true(cs[i], ft));
            }
            assert(node_true(cs[cs.len() - 1], ft));
        }
        if any_true(cs, ft) {
            if any_true(d, ft) {
                let i = choose|i: int| 0 <= i < d.len() && node_true(#[trigger] d[i], ft);
                assert(node_true(cs[i], ft));
            } else {
                assert(node_true(cs[cs.len() - 1], ft));
            }
        }
        if exists|i: int| 0 <= i < cs.len() && node_true(#[trigger] cs[i], ft) {
            let i = choose|i: int| 0 <= i < cs.len() && node_true(#[trigger] cs[i], ft);
            if i < d.len() {
                assert(node_true(d[i], ft));
            }
        }
    }
}

proof fn lemma_drop_const_truth(cs: Seq<NodeModel>, b: bool, ft: spec_fn(Seq<char>, KindModel) -> bool)
    ensures
        b ==> (all_true(drop_const(cs, b), ft) == all_true(cs, ft)),
        !b ==> (any_true(drop_const(cs, b), ft) == any_true(cs, ft)),
    decreases cs.len(),
{
    if cs.len() > 0 {
        let d = cs.drop_last();
        lemma_drop_const_truth(d, b, ft);
        if cs.last() != NodeModel::Bool(b) {
            let e = drop_const(cs, b);
            assert(e == drop_const(d, b).push(cs.last()));
            assert(e.drop_last() =~= drop_const(d, b));
            assert(e.last() == cs.last());
            assert(all_true(e, ft) == (all_true(drop_const(d, b), ft) && node_true(cs.last(), ft)));
            assert(any_true(e, ft) == (any_true(drop_const(d, b), ft) || node_true(cs.last(), ft)));
        } else {
            assert(drop_const(cs, b) == drop_const(d, b));
            assert(node_true(cs.last(), ft) == b);
        }
    }
}

proof fn lemma_fold_truth(cs: Seq<NodeModel>, ft: spec_fn(Seq<char>, KindModel) -> bool)
    ensures
        node_true(fold_and(cs), ft) == all_true(cs, ft),
        node_true(fold_or(cs), ft) == any_true(cs, ft),
{
    lemma_all_any_index(cs, ft);
    lemma_drop_const_truth(cs, true, ft);
    lemma_drop_const_truth(cs, false, ft);
    let t = drop_const(cs, true);
    let f = drop_const(cs, false);
    lemma_all_any_index(t, ft);
    lemma_all_any_index(f, ft);
    if has_const(cs, false) {
        let i = choose|i: int| 0 <= i < cs.len() && cs[i] == NodeModel::Bool(false);
        assert(!node_true(cs[i], ft));
    }
    if has_const(cs, true) {
        let i = choose|i: int| 0 <= i < cs.len() && cs[i] == NodeModel::Bool(true);
        assert(node_true(cs[i], ft));
    }
    if t.len() == 1 {
        assert(all_true(t, ft) == node_true(t[0], ft));
    }
    if f.len() == 1 {
        assert(any_true(f, ft) == node_true(f[0], ft));
    }
}

proof fn lemma_negate_truth(s: NodeModel, ft: spec_fn(Seq<char>, KindModel) -> bool)
    requires
        consistent(ft),
    ensures
        node_true(negate(s), ft) == !node_true(s, ft),
    decreases s,
{
    match s {
        NodeModel::Field(f, KindModel::Equals(v)) => {
            assert(ft(f, KindModel::NotEquals(v)) == !ft(f, KindModel::Equals(v)));
        },
        NodeModel::Or(cs) => {
            lemma_negate_all_truth(cs, ft);
            lemma_fold_truth(negate_all(cs), ft);
        },
        NodeModel::And(cs) => {
            lemma_negate_all_truth(cs, ft);
            lemma_fold_truth(negate_all(cs), ft);
        },
        _ => {},
    }
}

proof fn lemma_negate_all_truth(cs: Seq<NodeModel>, ft: spec_fn(Seq<char>, KindModel) -> bool)
    requires
        consistent(ft),
    ensures
        all_true(negate_all(cs), ft) == !any_true(cs, ft),
        any_true(negate_all(cs), ft) == !all_true(cs, ft),
    decreases cs,
{
    if cs.len() > 0 {
        lemma_negate_all_truth(cs.drop_last(), ft);
        lemma_negate_truth(cs.last(), ft);
        let e = negate_all(cs);
        assert(e.drop_last() =~= negate_all(cs.drop_last()));
        assert(e.last() == negate(cs.last()));
    }
}

proof fn lemma_simplify_all_truth(cs: Seq<NodeModel>, ft: spec_fn(Seq<char>, KindModel) -> bool)
    requires
        consistent(ft),
    ensures
        all_true(simplify_all(cs), ft) == all_true(cs, ft),
        any_true(simplify_all(cs), ft) == any_true(cs, ft),
    decreases cs,
{
    if cs.len() > 0 {
        lemma_simplify_all_truth(cs.drop_last(), ft);
        lemma_simplify_keeps_truth(cs.last(), ft);
        let e = simplify_all(cs);
        assert(e.drop_last() =~= simplify_all(cs.drop_last()));
        assert(e.last() == simplify(cs.last()));
    }
}

/// Simplification keeps the truth value of a formula under every assignment to
/// its field constraints in which an inequality is the negation of the equality.
pub proof fn lemma_simplify_keeps_truth(n: NodeModel, ft: spec_fn(Seq<char>, KindModel) -> bool)
    requires
        consistent(ft),
    ensures
        node_true(simplify(n), ft) == node_true(n, ft),
    decreases n,
{
    match n {
        NodeModel::Not(inner) => {
            lemma_simplify_keeps_truth(*inner, ft);
            lemma_negate_truth(simplify(*inner), ft);
        },
        NodeModel::And(cs) => {
            lemma_simplify_all_truth(cs, ft);
            lemma_fold_truth(simplify_all(cs), ft);
        },
        NodeModel::Or(cs) => {
            lemma_simplify_all_truth(cs, ft);
            lemma_fold_truth(simplify_all(cs), ft);
        },
        _ => {},
    }
}

// ── Executable steps ────────────────────────────────────────────────

fn copy_kind(k: &FieldConstraintKind) -> (r: FieldConstraintKind)
    ensures
        r.model() == k.model(),
{
    match k {
        FieldConstraintKind::Equals(v) => FieldConstraintKind::Equals(v.duplicate()),
        FieldConstraintKind::In(vs) => FieldConstraintKind::In(duplicate_items(vs)),
        FieldConstraintKind::NotEquals(v) => FieldConstraintKind::NotEquals(v.duplicate()),
    }
}

/// A copy of a formula with the same model.
pub fn copy_node(n: &Simplified) -> (r: Simplified)
    ensures
        r.model() == n.model(),
    decreases n,
{
    match n {
        Simplified::Bool(b) => Simplified::Bool(*b),
        Simplified::And(cs) => Simplified::And(copy_children(cs)),
        Simplified::Or(cs) => Simplified::Or(copy_children(cs)),
        Simplified::Not(inner) => Simplified::Not(Box::new(copy_node(inner))),
        Simplified::FieldConstraint { field, kind } => Simplified::FieldConstraint {
            field: field.clone(),
            kind: copy_kind(kind),
        },
    }
}

fn copy_children(cs: &Vec<Simplified>) -> (r: Vec<Simplified>)
    ensures
        model_of_nodes(r@) == model_of_nodes(cs@),
    decreases cs,
{
    let mut out: Vec<Simplified> = Vec::new();
    let mut i: usize = 0;
    while i < cs.len()
        invariant
            i <= cs@.len(),
            out@.len() == i,
            forall|j: int| 0 <= j < i ==> #[trigger] out@[j].model() == cs@[j].model(),
        decreases cs.len() - i,
    {
        out.push(copy_node(&cs[i]));
        i = i + 1;
    }
    proof {
        lemma_model_of_nodes(out@);
        lemma_model_of_nodes(cs@);
        assert(model_of_nodes(out@) =~= model_of_nodes(cs@));
    }
    out
}

fn substitute_children(cs: &Vec<ShaclAst>, known: &Vec<(String, JsonValue)>, target: &str) -> (r: Vec<
    Simplified,
>)
    ensures
        model_of_nodes(r@) == substitute_all(cs@, model_of_entries(known@), target@),
    decreases cs,
{
    let mut out: Vec<Simplified> = Vec::new();
    let mut i: usize = 0;
    assert(cs@.subrange(0, 0) =~= Seq::<ShaclAst>::empty());
    while i < cs.len()
        invariant
            i <= cs@.len(),
            model_of_nodes(out@) == substitute_all(cs@.subrange(0, i as int), model_of_entries(known@), target@),
        decreases cs.len() - i,
    {
        let ghost before = out@;
        assert(cs@.subrange(0, i + 1).drop_last() =~= cs@.subrange(0, i as int));
        out.push(substitute_node(&cs[i], known, target));
        assert(out@.drop_last() =~= before);
        i = i + 1;
    }
    assert(cs@.subrange(0, i as int) =~= cs@);
    out
}

fn count_value(v: &JsonValue) -> (r: usize)
    ensures
        r == count_of(Some(v.model())),
{
    match v {
        JsonValue::Null => 0,
        JsonValue::Array(items) => {
            proof {
                crate::json::lemma_model_of_items(items@);
            }
            items.len()
        },
        _ => 1,
    }
}

/// The local name of the path that a test on one field reads.
pub open spec fn path_local_name_of(ast: &ShaclAst) -> Option<Seq<char>> {
    match *ast {
        ShaclAst::PropEquals { path, .. } => path_local_name(path),
        ShaclAst::PropIn { path, .. } => path_local_name(path),
        ShaclAst::PropCount { path, .. } => path_local_name(path),
        _ => None,
    }
}

/// Substitutes the known fields into a constraint (see [`substitute`]).
pub fn substitute_node(ast: &ShaclAst, known: &Vec<(String, JsonValue)>, target: &str) -> (r: Simplified)
    ensures
        r.model() == substitute(*ast, model_of_entries(known@), target@),
    decreases ast,
{
    proof {
        if let Some(f) = path_local_name_of(ast) {
            lemma_lookup_model(known@, f, 0);
        }
    }
    match ast {
        ShaclAst::And { children } => Simplified::And(substitute_children(children, known, target)),
        ShaclAst::Or { children } => Simplified::Or(substitute_children(children, known, target)),
        ShaclAst::Not { child } => Simplified::Not(Box::new(substitute_node(child, known, target))),
        ShaclAst::PropEquals { path, value } => match path.local_name() {
            Some(f) => match lookup_entry(known, f) {
                Some(kv) => Simplified::Bool(values_equal(kv, value)),
                None => if str_equal(f, target) {
                    Simplified::FieldConstraint {
                        field: f.to_owned(),
                        kind: FieldConstraintKind::Equals(value.duplicate()),
                    }
                } else {
                    Simplified::Bool(true)
                },
            },
            None => Simplified::Bool(true),
        },
        ShaclAst::PropIn { path, values } => match path.local_name() {
            Some(f) => match lookup_entry(known, f) {
                Some(kv) => Simplified::Bool(any_value_equal(kv, values)),
                None => if str_equal(f, target) {
                    Simplified::FieldConstraint {
                        field: f.to_owned(),
                        kind: FieldConstraintKind::In(duplicate_items(values)),
                    }
                } else {
                    Simplified::Bool(true)
                },
            },
            None => Simplified::Bool(true),
        },
        ShaclAst::PropCount { path, min, max } => match path.local_name() {
            Some(f) => match lookup_entry(known, f) {
                Some(kv) => {
                    let count = count_value(kv);
                    let min_ok = match min {
                        Some(m) => count >= *m as usize,
                        None => true,
                    };
                    let max_ok = match max {
                        Some(m) => count <= *m as usize,
                        None => true,
                    };
                    Simplified::Bool(min_ok && max_ok)
                },
                None => Simplified::Bool(true),
            },
            None => Simplified::Bool(true),
        },
        ShaclAst::PathEquals { .. } | ShaclAst::PathDisjoint { .. } => Simplified::Bool(true),
    }
}

/// Folds simplified members into a conjunction (`and`) or a disjunction (see
/// [`fold_and`] and [`fold_or`]).
fn fold_members(cs: Vec<Simplified>, and: bool) -> (r: Simplified)
    ensures
        r.model() == (if and { fold_and(model_of_nodes(cs@)) } else { fold_or(model_of_nodes(cs@)) }),
{
    let ghost m = model_of_nodes(cs@);
    proof {
        lemma_model_of_nodes(cs@);
    }
    let mut i: usize = 0;
    while i < cs.len()
        invariant
            i <= cs@.len(),
            m == model_of_nodes(cs@),
            m.len() == cs@.len(),
            forall|j: int| 0 <= j < cs@.len() ==> #[trigger] m[j] == cs@[j].model(),
            forall|j: int| 0 <= j < i ==> #[trigger] m[j] != NodeModel::Bool(!and),
        decreases cs.len() - i,
    {
        let absorbing = match &cs[i] {
            Simplified::Bool(v) => *v == !and,
            _ => false,
        };
        if absorbing {
            assert(has_const(m, !and)) by {
                assert(m[i as int] == NodeModel::Bool(!and));
            }
            return Simplified::Bool(!and);
        }
        i = i + 1;
    }
    assert(!has_const(m, !and));
    let n = cs.len();
    let mut rest = cs;
    let mut kept: Vec<Simplified> = Vec::new();
    let mut k: usize = 0;
    assert(m.subrange(0, 0) =~= Seq::<NodeModel>::empty());
    assert(model_of_nodes(kept@) =~= Seq::<NodeModel>::empty());
    while rest.len() > 0
        invariant
            k <= n,
            n == m.len(),
            rest@.len() == n - k,
            forall|j: int| 0 <= j < rest@.len() ==> #[trigger] rest@[j].model() == m[k + j],
            model_of_nodes(kept@) == drop_const(m.subrange(0, k as int), and),
        decreases rest@.len(),
    {
        let c = rest.remove(0);
        assert(c.model() == m[k as int]);
        assert(m.subrange(0, k + 1).drop_last() =~= m.subrange(0, k as int));
        let neutral = match &c {
            Simplified::Bool(v) => *v == and,
            _ => false,
        };
        if !neutral {
            let ghost before = kept@;
            kept.push(c);
            assert(kept@.drop_last() =~= before);
        }
        k = k + 1;
    }
    assert(m.subrange(0, k as int) =~= m);
    proof {
        lemma_model_of_nodes(kept@);
    }
    if kept.len() == 0 {
        Simplified::Bool(and)
    } else if kept.len() == 1 {
        kept.remove(0)
    } else if and {
        Simplified::And(kept)
    } else {
        Simplified::Or(kept)
    }
}

fn negate_children(cs: &Vec<Simplified>) -> (r: Vec<Simplified>)
    ensures
        model_of_nodes(r@) == negate_all(model_of_nodes(cs@)),
    decreases cs,
{
    let ghost m = model_of_nodes(cs@);
    proof {
        lemma_model_of_nodes(cs@);
        assert(m.subrange(0, 0) =~= Seq::<NodeModel>::empty());
    }
    let mut out: Vec<Simplified> = Vec::new();
    let mut i: usize = 0;
    while i < cs.len()
        invariant
            i <= cs@.len(),
            m == model_of_nodes(cs@),
            m.len() == cs@.len(),
            forall|j: int| 0 <= j < cs@.len() ==> #[trigger] m[j] == cs@[j].model(),
            model_of_nodes(out@) == negate_all(m.subrange(0, i as int)),
        decreases cs.len() - i,
    {
        let ghost before = out@;
        assert(m.subrange(0, i + 1).drop_last() =~= m.subrange(0, i as int));
        out.push(negate_node(&cs[i]));
        assert(out@.drop_last() =~= before);
        i = i + 1;
    }
    assert(m.subrange(0, i as int) =~= m);
    out
}

/// The negation of a simplified formula (see [`negate`]).
pub fn negate_node(s: &Simplified) -> (r: Simplified)
    ensures
        r.model() == negate(s.model()),
    decreases s,
{
    match s {
        Simplified::Bool(b) => Simplified::Bool(!*b),
        Simplified::Or(cs) => fold_members(negate_children(cs), true),
        Simplified::And(cs) => fold_members(negate_children(cs), false),
        Simplified::FieldConstraint { field, kind: FieldConstraintKind::Equals(v) } => {
            Simplified::FieldConstraint {
                field: field.clone(),
                kind: FieldConstraintKind::NotEquals(v.duplicate()),
            }
        },
        _ => Simplified::Not(Box::new(copy_node(s))),
    }
}

fn simplify_children(cs: &Vec<Simplified>) -> (r: Vec<Simplified>)
    ensures
        model_of_nodes(r@) == simplify_all(model_of_nodes(cs@)),
    decreases cs,
{
    let ghost m = model_of_nodes(cs@);
    proof {
        lemma_model_of_nodes(cs@);
        assert(m.subrange(0, 0) =~= Seq::<NodeModel>::empty());
    }
    let mut out: Vec<Simplified> = Vec::new();
    let mut i: usize = 0;
    while i < cs.len()
        invariant
            i <= cs@.len(),
            m == model_of_nodes(cs@),
            m.len() == cs@.len(),
            forall|j: int| 0 <= j < cs@.len() ==> #[trigger] m[j] == cs@[j].model(),
            model_of_nodes(out@) == simplify_all(m.subrange(0, i as int)),
        decreases cs.len() - i,
    {
        let ghost before = out@;
        assert(m.subrange(0, i + 1).drop_last() =~= m.subrange(0, i as int));
        out.push(simplify_node(&cs[i]));
        assert(out@.drop_last() =~= before);
        i = i + 1;
    }
    assert(m.subrange(0, i as int) =~= m);
    out
}

/// Simplifies a formula (see [`simplify`]).
pub fn simplify_node(n: &Simplified) -> (r: Simplified)
    ensures
        r.model() == simplify(n.model()),
    decreases n,
{
    match n {
        Simplified::Bool(b) => Simplified::Bool(*b),
        Simplified::FieldConstraint { .. } => copy_node(n),
        Simplified::Not(inner) => {
            let s = simplify_node(inner);
            negate_node(&s)
        },
        Simplified::And(cs) => fold_members(simplify_children(cs), true),
        Simplified::Or(cs) => fold_members(simplify_children(cs), false),
    }
}

fn extract_children(cs: &Vec<Simplified>, target: &str) -> (r: Vec<Predicate>)
    ensures
        crate::predicate::model_of_preds(r@) == extract_all(model_of_nodes(cs@), target@),
    decreases cs,
{
    let ghost m = model_of_nodes(cs@);
    proof {
        lemma_model_of_nodes(cs@);
        assert(m.subrange(0, 0) =~= Seq::<NodeModel>::empty());
    }
    let mut out: Vec<Predicate> = Vec::new();
    let mut i: usize = 0;
    while i < cs.len()
        invariant
            i <= cs@.len(),
            m == model_of_nodes(cs@),
            m.len() == cs@.len(),
            forall|j: int| 0 <= j < cs@.len() ==> #[trigger] m[j] == cs@[j].model(),
            crate::predicate::model_of_preds(out@) == extract_all(m.subrange(0, i as int), target@),
        decreases cs.len() - i,
    {
        let ghost before = out@;
        assert(m.subrange(0, i + 1).drop_last() =~= m.subrange(0, i as int));
        match extract_predicate(&cs[i], target) {
            Some(p) => {
                out.push(p);
                assert(out@.drop_last() =~= before);
            },
            None => {},
        }
        i = i + 1;
    }
    assert(m.subrange(0, i as int) =~= m);
    out
}

fn gather_exec(op: LogicalOperator, ps: Vec<Predicate>) -> (r: Option<Predicate>)
    ensures
        opt_pred_model(r) == gather(op, crate::predicate::model_of_preds(ps@)),
{
    proof {
        crate::predicate::lemma_model_of_preds(ps@);
    }
    let mut ps = ps;
    if ps.len() == 0 {
        None
    } else if ps.len() == 1 {
        Some(ps.remove(0))
    } else {
        match op {
            LogicalOperator::And => Some(Predicate::and(ps)),
            LogicalOperator::Or => Some(Predicate::or(ps)),
        }
    }
}

/// The predicate that a simplified formula puts on the target (see [`extract`]).
pub fn extract_predicate(n: &Simplified, target: &str) -> (r: Option<Predicate>)
    ensures
        opt_pred_model(r) == extract(n.model(), target@),
    decreases n,
{
    match n {
        Simplified::Bool(b) => {
            if *b {
                None
            } else {
                let empty: Vec<JsonValue> = Vec::new();
                proof {
                    assert(model_of_items(empty@) =~= Seq::<JsonModel>::empty());
                }
                Some(Predicate::simple(target, "in", JsonValue::Array(empty)))
            }
        },
        Simplified::FieldConstraint { field, kind } => {
            if !str_equal(field.as_str(), target) {
                return None;
            }
            match kind {
                FieldConstraintKind::Equals(v) => Some(
                    Predicate::simple(field.as_str(), "equals", v.duplicate()),
                ),
                FieldConstraintKind::In(vs) => Some(
                    Predicate::simple(field.as_str(), "in", JsonValue::Array(duplicate_items(vs))),
                ),
                FieldConstraintKind::NotEquals(v) => Some(
                    Predicate::not(Predicate::simple(field.as_str(), "equals", v.duplicate())),
                ),
            }
        },
        Simplified::Not(inner) => match extract_predicate(inner, target) {
            Some(p) => Some(Predicate::not(p)),
            None => None,
        },
        Simplified::And(cs) => gather_exec(LogicalOperator::And, extract_children(cs, target)),
        Simplified::Or(cs) => gather_exec(LogicalOperator::Or, extract_children(cs, target)),
    }
}

/// The predicate that a constraint puts on `target_field`, given the known
/// fields: none where every value of the target is allowed.
pub fn solve_backward(ast: &ShaclAst, known_fields: &Vec<(String, JsonValue)>, target_field: &str) -> (r:
    Option<Predicate>)
    ensures
        opt_pred_model(r) == solve_spec(*ast, model_of_entries(known_fields@), target_field@),
{
    let substituted = substitute_node(ast, known_fields, target_field);
    let simplified = simplify_node(&substituted);
    extract_predicate(&simplified, target_field)
}

} // verus!

//! Filter predicates: the canonical filter-expression format that solving and
//! scope derivation produce, with its combinators and its JSON wire format.
//!
//! On the wire a simple predicate is `{"fieldId", "predicateTypeId", "value"?}`, a
//! combination `{"operator": "AND"|"OR", "predicates": [...]}` and a negation
//! `{"operator": "NOT", "predicate": {...}}`. No tag tells them apart: a reader
//! tries the combination's shape, then the negation's, then the simple one.

use vstd::prelude::*;

use crate::json::{
    key_index, key_position, lemma_key_index_range,
    lemma_model_of_entries, lemma_model_of_items, model_of_entries,
    model_of_items, str_equal, JsonModel, JsonValue,
};

verus! {

broadcast use vstd::std_specs::vec::group_vec_axioms;

/// How a combination joins its predicates.
#[derive(Clone, Copy, Debug, PartialEq, Eq, Structural)]
pub enum LogicalOperator {
    And,
    Or,
}

/// The operator of a negation.
#[derive(Clone, Copy, Debug, PartialEq, Eq, Structural)]
pub enum NegateOperator {
    NOT,
}

/// A filter predicate.
#[derive(Debug, PartialEq)]
pub enum Predicate {
    /// A combination of predicates.
    Expression { operator: LogicalOperator, predicates: Vec<Predicate> },
    /// The negation of a predicate.
    Negated { operator: NegateOperator, predicate: Box<Predicate> },
    /// A test on one field (`zone equals "Zone 4"`).
    Simple { field_id: String, predicate_type_id: String, value: Option<JsonValue> },
}

/// The mathematical model of a [`Predicate`].
pub ghost enum PredModel {
    Expression(LogicalOperator, Seq<PredModel>),
    Negated(Box<PredModel>),
    Simple(Seq<char>, Seq<char>, Option<JsonModel>),
}

pub open spec fn model_of_preds(ps: Seq<Predicate>) -> Seq<PredModel>
    decreases ps,
{
    if ps.len() == 0 {
        Seq::empty()
    } else {
        model_of_preds(ps.drop_last()).push(ps.last().model())
    }
}

pub proof fn lemma_model_of_preds(ps: Seq<Predicate>)
    ensures
        model_of_preds(ps).len() == ps.len(),
        forall|i: int| 0 <= i < ps.len() ==> #[trigger] model_of_preds(ps)[i] == ps[i].model(),
    decreases ps.len(),
{
    if ps.len() > 0 {
        lemma_model_of_preds(ps.drop_last());
    }
}

pub proof fn lemma_model_of_preds_concat(a: Seq<Predicate>, b: Seq<Predicate>)
    ensures
        model_of_preds(a + b) == model_of_preds(a) + model_of_preds(b),
{
    lemma_model_of_preds(a);
    lemma_model_of_preds(b);
    lemma_model_of_preds(a + b);
    assert(model_of_preds(a + b) =~= model_of_preds(a) + model_of_preds(b));
}

pub open spec fn model_of_value(v: Option<JsonValue>) -> Option<JsonModel> {
    match v {
        Some(x) => Some(x.model()),
        None => None,
    }
}

impl Predicate {
    pub open spec fn model(self) -> PredModel
        decreases self,
    {
        match self {
            Predicate::Expression { operator, predicates } => PredModel::Expression(
                operator,
                model_of_preds(predicates@),
            ),
            Predicate::Negated { predicate, .. } => PredModel::Negated(Box::new((*predicate).model())),
            Predicate::Simple { field_id, predicate_type_id, value } => PredModel::Simple(
                field_id@,
                predicate_type_id@,
                model_of_value(value),
            ),
        }
    }
}

pub open spec fn opt_pred_model(p: Option<Predicate>) -> Option<PredModel> {
    match p {
        Some(x) => Some(x.model()),
        None => None,
    }
}

/// What one predicate adds to a combination joined by `op`: the children of a
/// combination by the same operator, else the predicate itself.
pub open spec fn spliced(op: LogicalOperator, p: PredModel) -> Seq<PredModel> {
    match p {
        PredModel::Expression(o, cs) => if o == op {
            cs
        } else {
            seq![p]
        },
        _ => seq![p],
    }
}

/// The predicates, with one level of same-operator combinations opened up.
pub open spec fn flatten(op: LogicalOperator, ps: Seq<PredModel>) -> Seq<PredModel>
    decreases ps.len(),
{
    if ps.len() == 0 {
        Seq::empty()
    } else {
        flatten(op, ps.drop_last()) + spliced(op, ps.last())
    }
}

/// The combination of the predicates by `op`: flattened one level, and the
/// single predicate itself where only one remains.
pub open spec fn combine(op: LogicalOperator, ps: Seq<PredModel>) -> PredModel {
    let f = flatten(op, ps);
    if f.len() == 1 {
        f[0]
    } else {
        PredModel::Expression(op, f)
    }
}

fn combine_exec(op: LogicalOperator, predicates: Vec<Predicate>) -> (r: Predicate)
    ensures
        r.model() == combine(op, model_of_preds(predicates@)),
{
    let ghost orig = model_of_preds(predicates@);
    proof {
        lemma_model_of_preds(predicates@);
    }
    let ghost n = predicates@.len();
    let mut rest = predicates;
    let mut flat: Vec<Predicate> = Vec::new();
    let ghost mut k: int = 0;
    while rest.len() > 0
        invariant
            0 <= k <= n,
            n == orig.len(),
            rest@.len() == n - k,
            forall|j: int| 0 <= j < rest@.len() ==> #[trigger] rest@[j].model() == orig[k + j],
            model_of_preds(flat@) == flatten(op, orig.subrange(0, k)),
        decreases rest@.len(),
    {
        let p = rest.remove(0);
        proof {
            assert(p.model() == orig[k]);
            assert(orig.subrange(0, k + 1).drop_last() =~= orig.subrange(0, k));
            assert(orig.subrange(0, k + 1).last() == orig[k]);
        }
        match p {
            Predicate::Expression { operator, predicates: children } => {
                if operator == op {
                    let mut children = children;
                    let ghost before = flat@;
                    let ghost cs = children@;
                    flat.append(&mut children);
                    proof {
                        lemma_model_of_preds_concat(before, cs);
                    }
                } else {
                    let ghost before = flat@;
                    let q = Predicate::Expression { operator, predicates: children };
                    assert(q.model() == orig[k]);
                    flat.push(q);
                    assert(flat@.drop_last() =~= before);
                }
            },
            other => {
                let ghost before = flat@;
                flat.push(other);
                assert(flat@.drop_last() =~= before);
            },
        }
        proof {
            k = k + 1;
        }
    }
    proof {
        assert(orig.subrange(0, k) =~= orig);
        lemma_model_of_preds(flat@);
    }
    if flat.len() == 1 {
        flat.remove(0)
    } else {
        Predicate::Expression { operator: op, predicates: flat }
    }
}

impl Predicate {
    /// A simple predicate with a value.
    pub fn simple(field_id: &str, op: &str, value: JsonValue) -> (r: Predicate)
        ensures
            r.model() == PredModel::Simple(field_id@, op@, Some(value.model())),
    {
        Predicate::Simple {
            field_id: field_id.to_owned(),
            predicate_type_id: op.to_owned(),
            value: Some(value),
        }
    }

    /// A simple predicate without a value (`exists`).
    pub fn simple_no_value(field_id: &str, op: &str) -> (r: Predicate)
        ensures
            r.model() == PredModel::Simple(field_id@, op@, None),
    {
        Predicate::Simple {
            field_id: field_id.to_owned(),
            predicate_type_id: op.to_owned(),
            value: None,
        }
    }

    /// The conjunction of the predicates: nested conjunctions are opened up one
    /// level, and a single predicate stands for itself.
    pub fn and(predicates: Vec<Predicate>) -> (r: Predicate)
        ensures
            r.model() == combine(LogicalOperator::And, model_of_preds(predicates@)),
    {
        combine_exec(LogicalOperator::And, predicates)
    }

    /// The disjunction of the predicates: nested disjunctions are opened up one
    /// level, and a single predicate stands for itself.
    pub fn or(predicates: Vec<Predicate>) -> (r: Predicate)
        ensures
            r.model() == combine(LogicalOperator::Or, model_of_preds(predicates@)),
    {
        combine_exec(LogicalOperator::Or, predicates)
    }

    /// The negation of the predicate; a negation is never cancelled here.
    pub fn not(predicate: Predicate) -> (r: Predicate)
        ensures
            r.model() == PredModel::Negated(Box::new(predicate.model())),
    {
        Predicate::Negated { operator: NegateOperator::NOT, predicate: Box::new(predicate) }
    }
}

/// Whether a predicate is a combination by `op`.
pub open spec fn is_combination(op: LogicalOperator, p: PredModel) -> bool {
    p matches PredModel::Expression(o, _) && o == op
}

/// A conjunction built from a conjunction of two predicates and a third one has
/// the three predicates as its children, with no nesting, whenever none of the
/// three is itself a conjunction.
pub proof fn lemma_and_flattens(a: PredModel, b: PredModel, c: PredModel)
    requires
        !is_combination(LogicalOperator::And, a),
        !is_combination(LogicalOperator::And, b),
        !is_combination(LogicalOperator::And, c),
    ensures
        combine(LogicalOperator::And, seq![combine(LogicalOperator::And, seq![a, b]), c])
            == PredModel::Expression(LogicalOperator::And, seq![a, b, c]),
{
    let op = LogicalOperator::And;
    assert(seq![a, b].drop_last() =~= seq![a]);
    assert(seq![a].drop_last() =~= Seq::<PredModel>::empty());
    assert(flatten(op, Seq::<PredModel>::empty()) =~= Seq::<PredModel>::empty());
    assert(flatten(op, seq![a]) =~= seq![a]);
    assert(flatten(op, seq![a, b]) =~= seq![a, b]);
    let inner = combine(op, seq![a, b]);
    assert(inner == PredModel::Expression(op, seq![a, b]));
    let outer = seq![inner, c];
    assert(outer.drop_last() =~= seq![inner]);
    assert(seq![inner].drop_last() =~= Seq::<PredModel>::empty());
    assert(flatten(op, seq![inner]) =~= seq![a, b]);
    assert(flatten(op, outer) =~= seq![a, b, c]);
}

/// A conjunction or a disjunction of one predicate is that predicate, unless it is
/// itself a combination of a single predicate by the same operator (which the
/// combinators never build).
pub proof fn lemma_single_collapses(op: LogicalOperator, x: PredModel)
    requires
        !(x matches PredModel::Expression(o, cs) && o == op && cs.len() == 1),
    ensures
        combine(op, seq![x]) == x,
{
    assert(seq![x].drop_last() =~= Seq::<PredModel>::empty());
    assert(flatten(op, Seq::<PredModel>::empty()) =~= Seq::<PredModel>::empty());
    assert(flatten(op, seq![x]) =~= Seq::<PredModel>::empty() + spliced(op, x));
    match x {
        PredModel::Expression(o, cs) => {
            if o == op {
                assert(flatten(op, seq![x]) =~= cs);
            } else {
                assert(flatten(op, seq![x]) =~= seq![x]);
            }
        },
        _ => {
            assert(flatten(op, seq![x]) =~= seq![x]);
        },
    }
}

/// The wire name of a combination's operator.
pub open spec fn op_text(op: LogicalOperator) -> Seq<char> {
    match op {
        LogicalOperator::And => "AND"@,
        LogicalOperator::Or => "OR"@,
    }
}

/// The members of a simple predicate on the wire.
pub open spec fn simple_members(f: Seq<char>, o: Seq<char>, v: Option<JsonModel>) -> Seq<
    (Seq<char>, JsonModel),
> {
    let head = seq![("fieldId"@, JsonModel::Str(f)), ("predicateTypeId"@, JsonModel::Str(o))];
    match v {
        Some(x) => head.push(("value"@, x)),
        None => head,
    }
}

/// The wire form of a predicate.
pub open spec fn encode(p: PredModel) -> JsonModel
    decreases p,
{
    match p {
        PredModel::Expression(op, cs) => JsonModel::Object(
            seq![
                ("operator"@, JsonModel::Str(op_text(op))),
                ("predicates"@, JsonModel::Array(encode_all(cs))),
            ],
        ),
        PredModel::Negated(inner) => JsonModel::Object(
            seq![("operator"@, JsonModel::Str("NOT"@)), ("predicate"@, encode(*inner))],
        ),
        PredModel::Simple(f, o, v) => JsonModel::Object(simple_members(f, o, v)),
    }
}

pub open spec fn encode_all(cs: Seq<PredModel>) -> Seq<JsonModel>
    decreases cs,
{
    if cs.len() == 0 {
        Seq::empty()
    } else {
        encode_all(cs.drop_last()).push(encode(cs.last()))
    }
}

/// The operator that a wire value names, if it names one.
pub open spec fn logical_operator_of(v: JsonModel) -> Option<LogicalOperator> {
    if v == JsonModel::Str("AND"@) {
        Some(LogicalOperator::And)
    } else if v == JsonModel::Str("OR"@) {
        Some(LogicalOperator::Or)
    } else {
        None
    }
}

/// The simple predicate that the members describe, if they describe one: a
/// missing value is no value, a present one (`null` too) is that value.
pub open spec fn decode_simple(es: Seq<(Seq<char>, JsonModel)>) -> Option<PredModel> {
    let fi = key_index(es, "fieldId"@, 0);
    let ti = key_index(es, "predicateTypeId"@, 0);
    let vi = key_index(es, "value"@, 0);
    if fi >= 0 && ti >= 0 && es[fi].1 is Str && es[ti].1 is Str {
        Some(
            PredModel::Simple(
                es[fi].1->Str_0,
                es[ti].1->Str_0,
                if vi >= 0 {
                    Some(es[vi].1)
                } else {
                    None
                },
            ),
        )
    } else {
        None
    }
}

/// The predicate that a wire value stands for, read as a combination, else as a
/// negation, else as a simple predicate.
pub open spec fn decode(v: JsonModel) -> Option<PredModel>
    decreases v,
{
    match v {
        JsonModel::Object(es) => decode_members(es),
        _ => None,
    }
}

pub open spec fn decode_members(es: Seq<(Seq<char>, JsonModel)>) -> Option<PredModel>
    decreases es,
{
    let oi = key_index(es, "operator"@, 0);
    let psi = key_index(es, "predicates"@, 0);
    let pi = key_index(es, "predicate"@, 0);
    proof {
        lemma_key_index_range(es, "operator"@, 0);
        lemma_key_index_range(es, "predicates"@, 0);
        lemma_key_index_range(es, "predicate"@, 0);
    }
    let as_combination = if oi >= 0 && psi >= 0 && logical_operator_of(es[oi].1) is Some {
        match es[psi].1 {
            JsonModel::Array(items) => match decode_all(items) {
                Some(cs) => Some(PredModel::Expression(logical_operator_of(es[oi].1)->0, cs)),
                None => None,
            },
            _ => None,
        }
    } else {
        None
    };
    let as_negation = if oi >= 0 && pi >= 0 && es[oi].1 == JsonModel::Str("NOT"@) {
        match decode(es[pi].1) {
            Some(inner) => Some(PredModel::Negated(Box::new(inner))),
            None => None,
        }
    } else {
        None
    };
    if as_combination is Some {
        as_combination
    } else if as_negation is Some {
        as_negation
    } else {
        decode_simple(es)
    }
}

pub open spec fn decode_all(items: Seq<JsonModel>) -> Option<Seq<PredModel>>
    decreases items,
{
    if items.len() == 0 {
        Some(Seq::empty())
    } else {
        match decode_all(items.drop_last()) {
            Some(cs) => match decode(items.last()) {
                Some(c) => Some(cs.push(c)),
                None => None,
            },
            None => None,
        }
    }
}

proof fn lemma_wire_names_differ()
    ensures
        "operator"@ != "predicates"@,
        "operator"@ != "predicate"@,
        "predicates"@ != "predicate"@,
        "operator"@ != "fieldId"@,
        "operator"@ != "predicateTypeId"@,
        "operator"@ != "value"@,
        "predicates"@ != "fieldId"@,
        "predicates"@ != "predicateTypeId"@,
        "predicates"@ != "value"@,
        "predicate"@ != "fieldId"@,
        "predicate"@ != "predicateTypeId"@,
        "predicate"@ != "value"@,
        "fieldId"@ != "predicateTypeId"@,
        "fieldId"@ != "value"@,
        "predicateTypeId"@ != "value"@,
        "AND"@ != "OR"@,
        "AND"@ != "NOT"@,
        "OR"@ != "NOT"@,
{
    reveal_strlit("operator");
    reveal_strlit("predicates");
    reveal_strlit("predicate");
    reveal_strlit("fieldId");
    reveal_strlit("predicateTypeId");
    reveal_strlit("value");
    reveal_strlit("AND");
    reveal_strlit("OR");
    reveal_strlit("NOT");
    assert("operator"@[1] != "predicates"@[1]);
    assert("operator"@[1] != "predicate"@[1]);
    assert("predicates"@.len() != "predicate"@.len());
    assert("operator"@[0] != "fieldId"@[0]);
    assert("operator"@[0] != "predicateTypeId"@[0]);
    assert("operator"@[0] != "value"@[0]);
    assert("predicates"@[0] != "fieldId"@[0]);
    assert("predicates"@.len() != "predicateTypeId"@.len());
    assert("predicates"@[0] != "value"@[0]);
    assert("predicate"@[0] != "fieldId"@[0]);
    assert("predicate"@.len() != "predicateTypeId"@.len());
    assert("predicate"@[0] != "value"@[0]);
    assert("fieldId"@[0] != "predicateTypeId"@[0]);
    assert("fieldId"@[0] != "value"@[0]);
    assert("predicateTypeId"@[0] != "value"@[0]);
    assert("AND"@[0] != "OR"@[0]);
    assert("AND"@[0] != "NOT"@[0]);
    assert("OR"@[0] != "NOT"@[0]);
}

/// Reading back the wire form of a predicate gives the predicate again, for every
/// predicate.
pub proof fn lemma_wire_round_trip(p: PredModel)
    ensures
        decode(encode(p)) == Some(p),
    decreases p,
{
    lemma_wire_names_differ();
    match p {
        PredModel::Expression(op, cs) => {
            lemma_wire_round_trip_all(cs);
            let es = seq![
                ("operator"@, JsonModel::Str(op_text(op))),
                ("predicates"@, JsonModel::Array(encode_all(cs))),
            ];
            assert(key_index(es, "operator"@, 0) == 0);
            assert(key_index(es, "predicates"@, 1) == 1);
            assert(key_index(es, "predicates"@, 0) == 1);
            assert(logical_operator_of(es[0].1) == Some(op));
        },
        PredModel::Negated(inner) => {
            lemma_wire_round_trip(*inner);
            let es = seq![("operator"@, JsonModel::Str("NOT"@)), ("predicate"@, encode(*inner))];
            assert(key_index(es, "operator"@, 0) == 0);
            assert(key_index(es, "predicates"@, 2) == -1);
            assert(key_index(es, "predicates"@, 1) == -1);
            assert(key_index(es, "predicates"@, 0) == -1);
            assert(key_index(es, "predicate"@, 1) == 1);
            assert(key_index(es, "predicate"@, 0) == 1);
            assert(logical_operator_of(es[0].1) is None);
        },
        PredModel::Simple(f, o, v) => {
            let es = simple_members(f, o, v);
            assert(key_index(es, "operator"@, 3) == -1);
            assert(key_index(es, "operator"@, 2) == -1);
            assert(key_index(es, "operator"@, 1) == -1);
            assert(key_index(es, "operator"@, 0) == -1);
            assert(key_index(es, "fieldId"@, 0) == 0);
            assert(key_index(es, "predicateTypeId"@, 1) == 1);
            assert(key_index(es, "predicateTypeId"@, 0) == 1);
            assert(key_index(es, "value"@, 2) == if v is Some { 2int } else { -1int });
            assert(key_index(es, "value"@, 1) == if v is Some { 2int } else { -1int });
            assert(key_index(es, "value"@, 0) == if v is Some { 2int } else { -1int });
        },
    }
}

pub proof fn lemma_wire_round_trip_all(cs: Seq<PredModel>)
    ensures
        decode_all(encode_all(cs)) == Some(cs),
    decreases cs,
{
    if cs.len() > 0 {
        lemma_wire_round_trip_all(cs.drop_last());
        lemma_wire_round_trip(cs.last());
        assert(encode_all(cs).drop_last() =~= encode_all(cs.drop_last()));
        assert(cs.drop_last().push(cs.last()) =~= cs);
    } else {
        assert(encode_all(cs) =~= Seq::<JsonModel>::empty());
    }
}

/// Whether the value is the string `t`.
fn is_text(v: &JsonValue, t: &str) -> (r: bool)
    ensures
        r == (v.model() == JsonModel::Str(t@)),
{
    match v {
        JsonValue::String(s) => str_equal(s.as_str(), t),
        _ => false,
    }
}

fn operator_of(v: &JsonValue) -> (r: Option<LogicalOperator>)
    ensures
        r == logical_operator_of(v.model()),
{
    if is_text(v, "AND") {
        Some(LogicalOperator::And)
    } else if is_text(v, "OR") {
        Some(LogicalOperator::Or)
    } else {
        None
    }
}

proof fn lemma_decode_all_stays_none(items: Seq<JsonModel>, i: int, j: int)
    requires
        0 <= i <= j <= items.len(),
        decode_all(items.subrange(0, i)) is None,
    ensures
        decode_all(items.subrange(0, j)) is None,
    decreases j - i,
{
    if j > i {
        lemma_decode_all_stays_none(items, i, j - 1);
        assert(items.subrange(0, j).drop_last() =~= items.subrange(0, j - 1));
    }
}

fn decode_items(items: &Vec<JsonValue>) -> (r: Option<Vec<Predicate>>)
    ensures
        r matches Some(cs) ==> decode_all(model_of_items(items@)) == Some(model_of_preds(cs@)),
        r is None ==> decode_all(model_of_items(items@)) is None,
    decreases items,
{
    let ghost m = model_of_items(items@);
    proof {
        lemma_model_of_items(items@);
        assert(m.subrange(0, 0) =~= Seq::<JsonModel>::empty());
        assert(model_of_preds(Seq::<Predicate>::empty()) =~= Seq::<PredModel>::empty());
    }
    let mut out: Vec<Predicate> = Vec::new();
    let mut i: usize = 0;
    while i < items.len()
        invariant
            i <= items.len(),
            m == model_of_items(items@),
            m.len() == items@.len(),
            forall|j: int| 0 <= j < items@.len() ==> #[trigger] m[j] == items@[j].model(),
            decode_all(m.subrange(0, i as int)) == Some(model_of_preds(out@)),
        decreases items.len() - i,
    {
        let ghost before = out@;
        assert(m.subrange(0, i + 1).drop_last() =~= m.subrange(0, i as int));
        assert(m.subrange(0, i + 1).last() == items@[i as int].model());
        match from_json(&items[i]) {
            Some(p) => {
                out.push(p);
                assert(out@.drop_last() =~= before);
            },
            None => {
                proof {
                    lemma_decode_all_stays_none(m, i + 1, m.len() as int);
                    assert(m.subrange(0, m.len() as int) =~= m);
                }
                return None;
            },
        }
        i = i + 1;
    }
    assert(m.subrange(0, i as int) =~= m);
    Some(out)
}

fn decode_simple_exec(es: &Vec<(String, JsonValue)>) -> (r: Option<Predicate>)
    ensures
        opt_pred_model(r) == decode_simple(model_of_entries(es@)),
{
    proof {
        lemma_model_of_entries(es@);
    }
    let fi = key_position(es, "fieldId");
    let ti = key_position(es, "predicateTypeId");
    let vi = key_position(es, "value");
    match (fi, ti) {
        (Some(f), Some(t)) => {
            let field_id = match &es[f].1 {
                JsonValue::String(x) => x.clone(),
                _ => {
                    return None;
                },
            };
            let predicate_type_id = match &es[t].1 {
                JsonValue::String(x) => x.clone(),
                _ => {
                    return None;
                },
            };
            let value = match vi {
                Some(k) => Some(es[k].1.duplicate()),
                None => None,
            };
            Some(Predicate::Simple { field_id, predicate_type_id, value })
        },
        _ => None,
    }
}

fn decode_object(es: &Vec<(String, JsonValue)>) -> (r: Option<Predicate>)
    ensures
        opt_pred_model(r) == decode_members(model_of_entries(es@)),
    decreases es,
{
    let ghost m = model_of_entries(es@);
    proof {
        lemma_model_of_entries(es@);
        lemma_key_index_range(m, "operator"@, 0);
        lemma_key_index_range(m, "predicates"@, 0);
        lemma_key_index_range(m, "predicate"@, 0);
    }
    let oi = key_position(es, "operator");
    let psi = key_position(es, "predicates");
    let pi = key_position(es, "predicate");
    if let (Some(o), Some(ps)) = (oi, psi) {
        if let Some(op) = operator_of(&es[o].1) {
            if let JsonValue::Array(items) = &es[ps].1 {
                if let Some(cs) = decode_items(items) {
                    return Some(Predicate::Expression { operator: op, predicates: cs });
                }
            }
        }
    }
    if let (Some(o), Some(p)) = (oi, pi) {
        if is_text(&es[o].1, "NOT") {
            if let Some(inner) = from_json(&es[p].1) {
                return Some(Predicate::not(inner));
            }
        }
    }
    decode_simple_exec(es)
}

/// Reads a predicate from its wire form (see [`decode`]).
pub fn from_json(v: &JsonValue) -> (r: Option<Predicate>)
    ensures
        opt_pred_model(r) == decode(v.model()),
    decreases v,
{
    match v {
        JsonValue::Object(es) => decode_object(es),
        _ => None,
    }
}

fn member(key: &str, value: JsonValue) -> (r: (String, JsonValue))
    ensures
        r.0@ == key@,
        r.1 == value,
{
    (key.to_owned(), value)
}

fn encode_preds(ps: &Vec<Predicate>) -> (r: Vec<JsonValue>)
    ensures
        model_of_items(r@) == encode_all(model_of_preds(ps@)),
    decreases ps,
{
    let ghost m = model_of_preds(ps@);
    proof {
        lemma_model_of_preds(ps@);
        assert(m.subrange(0, 0) =~= Seq::<PredModel>::empty());
        assert(model_of_items(Seq::<JsonValue>::empty()) =~= Seq::<JsonModel>::empty());
    }
    let mut out: Vec<JsonValue> = Vec::new();
    let mut i: usize = 0;
    while i < ps.len()
        invariant
            i <= ps.len(),
            m == model_of_preds(ps@),
            m.len() == ps@.len(),
            forall|j: int| 0 <= j < ps@.len() ==> #[trigger] m[j] == ps@[j].model(),
            model_of_items(out@) == encode_all(m.subrange(0, i as int)),
        decreases ps.len() - i,
    {
        let ghost before = out@;
        let x = ps[i].to_json();
        out.push(x);
        assert(out@.drop_last() =~= before);
        assert(m.subrange(0, i + 1).drop_last() =~= m.subrange(0, i as int));
        i = i + 1;
    }
    assert(m.subrange(0, i as int) =~= m);
    out
}

proof fn lemma_two_members(es: Seq<(String, JsonValue)>)
    requires
        es.len() == 2,
    ensures
        model_of_entries(es) == seq![
            (es[0].0@, es[0].1.model()),
            (es[1].0@, es[1].1.model()),
        ],
{
    lemma_model_of_entries(es);
    assert(model_of_entries(es) =~= seq![
        (es[0].0@, es[0].1.model()),
        (es[1].0@, es[1].1.model()),
    ]);
}

impl Predicate {
    /// The wire form of the predicate (see [`encode`]).
    pub fn to_json(&self) -> (r: JsonValue)
        ensures
            r.model() == encode(self.model()),
        decreases self,
    {
        match self {
            Predicate::Expression { operator, predicates } => {
                let items = encode_preds(predicates);
                let op = match operator {
                    LogicalOperator::And => "AND",
                    LogicalOperator::Or => "OR",
                };
                let mut es: Vec<(String, JsonValue)> = Vec::new();
                es.push(member("operator", JsonValue::String(op.to_owned())));
                es.push(member("predicates", JsonValue::Array(items)));
                proof {
                    lemma_two_members(es@);
                }
                JsonValue::Object(es)
            },
            Predicate::Negated { predicate, .. } => {
                let inner = predicate.to_json();
                let mut es: Vec<(String, JsonValue)> = Vec::new();
                es.push(member("operator", JsonValue::String("NOT".to_owned())));
                es.push(member("predicate", inner));
                proof {
                    lemma_two_members(es@);
                }
                JsonValue::Object(es)
            },
            Predicate::Simple { field_id, predicate_type_id, value } => {
                let mut es: Vec<(String, JsonValue)> = Vec::new();
                es.push(member("fieldId", JsonValue::String(field_id.clone())));
                es.push(member("predicateTypeId", JsonValue::String(predicate_type_id.clone())));
                proof {
                    lemma_two_members(es@);
                }
                let ghost head = es@;
                match value {
                    Some(v) => {
                        es.push(member("value", v.duplicate()));
                        proof {
                            assert(es@.drop_last() =~= head);
                        }
                    },
                    None => {},
                }
                JsonValue::Object(es)
            },
        }
    }
}

} // verus!

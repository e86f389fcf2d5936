//! A set of rules handled as a unit: evaluated together against a record, solved
//! together for one target field, scoped together for a focus record.

use vstd::prelude::*;

use crate::backward_solver::{gather, solve_backward, solve_spec};
use crate::forward_eval::{evaluate_forward, holds, referenced_names};
use crate::json::{str_equal, text_matches, JsonModel, JsonValue};
use crate::names::{insert_name, is_sorted_set_of, strictly_sorted, texts};
use crate::predicate::{
    combine, lemma_model_of_preds, model_of_preds, opt_pred_model, LogicalOperator, PredModel,
    Predicate,
};
use crate::scope_predicate::derive_scope_predicate;
use crate::shacl_ast::{EnforcementLevel, ShapeResult, Violation};
use crate::shacl_parser::{error_text, rule_well_formed, ErrModel};

verus! {

broadcast use vstd::std_specs::vec::group_vec_axioms;

/// A slot of the target class, as the schema registry describes it: its name,
/// and the permissible values of its range when that range is an enumeration.
pub struct SlotRange {
    pub name: String,
    pub enum_values: Option<Vec<String>>,
}

/// The slots of the target class that the schema registry describes, in order.
pub struct ClassSchema {
    pub slots: Vec<SlotRange>,
}

/// What solving says of the target field.
#[derive(Debug, PartialEq)]
pub enum FieldConstraint {
    /// The target is an enumeration: the values that meet every rule.
    AllowedValues { values: Vec<String> },
    /// The predicate that the target's value must meet.
    Query { predicate: Predicate },
}

/// A set of rules, with the schema of their target class where one is attached.
pub struct ConstraintSet {
    shapes: Vec<ShapeResult>,
    schema: Option<ClassSchema>,
}

// ── Evaluation ───────────────────────────────────────────────────────

/// A violation as evaluation reports it: message, level, and the set of fields.
pub type ViolationModel = (Seq<char>, EnforcementLevel, Set<Seq<char>>);

/// The violations of the rules against a record, in rule order: one for each rule
/// with a constraint tree that does not hold.
pub open spec fn expected_violations(shapes: Seq<ShapeResult>, data: JsonModel) -> Seq<ViolationModel>
    decreases shapes.len(),
{
    if shapes.len() == 0 {
        Seq::empty()
    } else {
        let s = shapes.last();
        let prev = expected_violations(shapes.drop_last(), data);
        match s.ast {
            Some(a) => if holds(a, data) {
                prev
            } else {
                prev.push((s.message@, s.enforcement_level, referenced_names(a)))
            },
            None => prev,
        }
    }
}

pub open spec fn violation_model(v: Violation) -> ViolationModel {
    (v.message@, v.enforcement_level, texts(v.fields@).to_set())
}

/// Whether a violation is in its reported form: fields sorted, each once, and no
/// suggested fix.
pub open spec fn violation_well_formed(v: Violation) -> bool {
    strictly_sorted(texts(v.fields@)) && v.suggested_fix is None
}

// ── Solving ──────────────────────────────────────────────────────────

/// The members of an object but those named `key`.
pub open spec fn without_key(es: Seq<(String, JsonValue)>, key: Seq<char>) -> Seq<(String, JsonValue)>
    decreases es.len(),
{
    if es.len() == 0 {
        Seq::empty()
    } else if es.last().0@ == key {
        without_key(es.drop_last(), key)
    } else {
        without_key(es.drop_last(), key).push(es.last())
    }
}

/// The predicates that the rules with constraint trees put on the target, in
/// rule order.
pub open spec fn solved(shapes: Seq<ShapeResult>, known: Seq<(Seq<char>, JsonModel)>, target: Seq<char>) -> Seq<
    PredModel,
>
    decreases shapes.len(),
{
    if shapes.len() == 0 {
        Seq::empty()
    } else {
        let prev = solved(shapes.drop_last(), known, target);
        match shapes.last().ast {
            Some(a) => match solve_spec(a, known, target) {
                Some(p) => prev.push(p),
                None => prev,
            },
            None => prev,
        }
    }
}

/// One predicate stands for itself; several are joined in a conjunction.
pub open spec fn joined(ps: Seq<PredModel>) -> PredModel {
    if ps.len() == 1 {
        ps[0]
    } else {
        combine(LogicalOperator::And, ps)
    }
}

/// Whether the candidate reads as one of the items.
pub open spec fn any_text_matches(candidate: Seq<char>, items: Seq<JsonModel>) -> bool
    decreases items.len(),
{
    if items.len() == 0 {
        false
    } else {
        any_text_matches(candidate, items.drop_last()) || text_matches(candidate, items.last())
    }
}

/// Whether a candidate value of the target meets a simple predicate.
pub open spec fn simple_test(
    f: Seq<char>,
    op: Seq<char>,
    v: Option<JsonModel>,
    target: Seq<char>,
    candidate: Seq<char>,
) -> bool {
    if f != target {
        true
    } else if op == "equals"@ {
        match v {
            Some(x) => text_matches(candidate, x),
            None => false,
        }
    } else if op == "notEquals"@ {
        match v {
            Some(x) => !text_matches(candidate, x),
            None => true,
        }
    } else if op == "in"@ {
        match v {
            Some(JsonModel::Array(items)) => any_text_matches(candidate, items),
            _ => true,
        }
    } else {
        true
    }
}

/// Whether a candidate value of the target meets a predicate. A test on another
/// field, an unknown operator or a malformed `in` lets every value through.
pub open spec fn pred_allows(p: PredModel, target: Seq<char>, candidate: Seq<char>) -> bool
    decreases p,
{
    match p {
        PredModel::Simple(f, op, v) => simple_test(f, op, v, target, candidate),
        PredModel::Negated(inner) => !pred_allows(*inner, target, candidate),
        PredModel::Expression(op, ps) => match op {
            LogicalOperator::And => all_allow(ps, target, candidate),
            LogicalOperator::Or => any_allows(ps, target, candidate),
        },
    }
}

pub open spec fn all_allow(ps: Seq<PredModel>, target: Seq<char>, candidate: Seq<char>) -> bool
    decreases ps,
{
    if ps.len() == 0 {
        true
    } else {
        all_allow(ps.drop_last(), target, candidate) && pred_allows(ps.last(), target, candidate)
    }
}

pub open spec fn any_allows(ps: Seq<PredModel>, target: Seq<char>, candidate: Seq<char>) -> bool
    decreases ps,
{
    if ps.len() == 0 {
        false
    } else {
        any_allows(ps.drop_last(), target, candidate) || pred_allows(ps.last(), target, candidate)
    }
}

/// The candidates that meet a predicate, in order.
pub open spec fn allowed_values(p: PredModel, target: Seq<char>, candidates: Seq<Seq<char>>) -> Seq<Seq<char>>
    decreases candidates.len(),
{
    if candidates.len() == 0 {
        Seq::empty()
    } else {
        let prev = allowed_values(p, target, candidates.drop_last());
        if pred_allows(p, target, candidates.last()) {
            prev.push(candidates.last())
        } else {
            prev
        }
    }
}

/// The first slot named `name` from position `i` on, as its position, or -1.
pub open spec fn slot_index(slots: Seq<SlotRange>, name: Seq<char>, i: int) -> int
    decreases slots.len() - i,
{
    if i < 0 || i >= slots.len() {
        -1
    } else if slots[i].name@ == name {
        i
    } else {
        slot_index(slots, name, i + 1)
    }
}

/// The permissible values of the target, when the schema gives its range as an
/// enumeration.
pub open spec fn target_enum(schema: Option<ClassSchema>, target: Seq<char>) -> Option<Seq<Seq<char>>> {
    match schema {
        Some(c) => {
            let k = slot_index(c.slots@, target, 0);
            if k >= 0 {
                match c.slots@[k].enum_values {
                    Some(vs) => Some(texts(vs@)),
                    None => None,
                }
            } else {
                None
            }
        },
        None => None,
    }
}

pub open spec fn constraint_model(c: FieldConstraint) -> (Option<Seq<Seq<char>>>, Option<PredModel>) {
    match c {
        FieldConstraint::AllowedValues { values } => (Some(texts(values@)), None),
        FieldConstraint::Query { predicate } => (None, Some(predicate.model())),
    }
}

/// What solving a set of rules gives: none for a record that is no object or
/// when no rule constrains the target; else the joined predicate, or the
/// permissible values that meet it when the target is an enumeration.
pub open spec fn solve_set(
    shapes: Seq<ShapeResult>,
    schema: Option<ClassSchema>,
    data: JsonValue,
    target: Seq<char>,
) -> Option<(Option<Seq<Seq<char>>>, Option<PredModel>)> {
    match data {
        JsonValue::Object(es) => {
            let ps = solved(shapes, crate::json::model_of_entries(without_key(es@, target)), target);
            if ps.len() == 0 {
                None
            } else {
                let p = joined(ps);
                match target_enum(schema, target) {
                    Some(keys) => Some((Some(allowed_values(p, target, keys)), None)),
                    None => Some((None, Some(p))),
                }
            }
        },
        _ => None,
    }
}

// ── Scope ────────────────────────────────────────────────────────────

/// The scope predicates of the rules, in rule order.
pub open spec fn scopes(shapes: Seq<ShapeResult>, focus: Seq<(String, JsonValue)>, uri_field: Seq<char>) -> Seq<
    PredModel,
>
    decreases shapes.len(),
{
    if shapes.len() == 0 {
        Seq::empty()
    } else {
        let prev = scopes(shapes.drop_last(), focus, uri_field);
        match shapes.last().sparql {
            Some(q) => match crate::scope_predicate::scope_from_names(
                crate::names::sorted_list(crate::scope_predicate::shared_attributes(q@)),
                focus,
                uri_field,
            ) {
                Some(p) => prev.push(p),
                None => prev,
            },
            None => prev,
        }
    }
}

/// The fields of the rules, all together.
pub open spec fn all_fields(shapes: Seq<ShapeResult>) -> Set<Seq<char>>
    decreases shapes.len(),
{
    if shapes.len() == 0 {
        Set::empty()
    } else {
        all_fields(shapes.drop_last()).union(texts(shapes.last().affected_fields@).to_set())
    }
}

// ── Executable ───────────────────────────────────────────────────────

fn matches_text(candidate: &str, v: &JsonValue) -> (r: bool)
    ensures
        r == text_matches(candidate@, v.model()),
{
    match v {
        JsonValue::String(s) => str_equal(candidate, s.as_str()),
        JsonValue::Bool(b) => if *b {
            str_equal(candidate, "true")
        } else {
            str_equal(candidate, "false")
        },
        JsonValue::Number(n) => str_equal(candidate, n.as_str()),
        _ => false,
    }
}

fn any_item_matches(candidate: &str, items: &Vec<JsonValue>) -> (r: bool)
    ensures
        r == any_text_matches(candidate@, crate::json::model_of_items(items@)),
{
    proof {
        crate::json::lemma_model_of_items(items@);
    }
    let ghost m = crate::json::model_of_items(items@);
    let mut acc = false;
    let mut i: usize = 0;
    assert(m.subrange(0, 0) =~= Seq::<JsonModel>::empty());
    while i < items.len()
        invariant
            i <= items@.len(),
            m == crate::json::model_of_items(items@),
            m.len() == items@.len(),
            forall|j: int| 0 <= j < items@.len() ==> #[trigger] m[j] == items@[j].model(),
            acc == any_text_matches(candidate@, m.subrange(0, i as int)),
        decreases items.len() - i,
    {
        assert(m.subrange(0, i + 1).drop_last() =~= m.subrange(0, i as int));
        let h = matches_text(candidate, &items[i]);
        acc = acc || h;
        i = i + 1;
    }
    assert(m.subrange(0, i as int) =~= m);
    acc
}

fn simple_allows(
    field_id: &str,
    op: &str,
    value: &Option<JsonValue>,
    target_field: &str,
    candidate: &str,
) -> (r: bool)
    ensures
        r == simple_test(
            field_id@,
            op@,
            crate::predicate::model_of_value(*value),
            target_field@,
            candidate@,
        ),
{
    if !str_equal(field_id, target_field) {
        return true;
    }
    if str_equal(op, "equals") {
        match value {
            Some(v) => matches_text(candidate, v),
            None => false,
        }
    } else if str_equal(op, "notEquals") {
        match value {
            Some(v) => !matches_text(candidate, v),
            None => true,
        }
    } else if str_equal(op, "in") {
        match value {
            Some(JsonValue::Array(items)) => any_item_matches(candidate, items),
            Some(v) => {
                assert(!(v.model() is Array));
                true
            },
            None => true,
        }
    } else {
        true
    }
}

/// Whether a candidate value of the target meets a predicate (see
/// [`pred_allows`]).
pub fn evaluate_predicate_for_value(pred: &Predicate, target_field: &str, candidate: &str) -> (r: bool)
    ensures
        r == pred_allows(pred.model(), target_field@, candidate@),
    decreases pred,
{
    match pred {
        Predicate::Simple { field_id, predicate_type_id, value } => simple_allows(
            field_id.as_str(),
            predicate_type_id.as_str(),
            value,
            target_field,
            candidate,
        ),
        Predicate::Negated { predicate, .. } => !evaluate_predicate_for_value(
            predicate,
            target_field,
            candidate,
        ),
        Predicate::Expression { operator, predicates } => evaluate_all(
            *operator,
            predicates,
            target_field,
            candidate,
        ),
    }
}

fn evaluate_all(op: LogicalOperator, ps: &Vec<Predicate>, target_field: &str, candidate: &str) -> (r: bool)
    ensures
        r == match op {
            LogicalOperator::And => all_allow(model_of_preds(ps@), target_field@, candidate@),
            LogicalOperator::Or => any_allows(model_of_preds(ps@), target_field@, candidate@),
        },
    decreases ps,
{
    let ghost m = model_of_preds(ps@);
    proof {
        lemma_model_of_preds(ps@);
        assert(m.subrange(0, 0) =~= Seq::<PredModel>::empty());
    }
    let is_and = match op {
        LogicalOperator::And => true,
        LogicalOperator::Or => false,
    };
    let mut acc = is_and;
    let mut i: usize = 0;
    while i < ps.len()
        invariant
            i <= ps@.len(),
            m == model_of_preds(ps@),
            m.len() == ps@.len(),
            forall|j: int| 0 <= j < ps@.len() ==> #[trigger] m[j] == ps@[j].model(),
            is_and == (op == LogicalOperator::And),
            acc == if is_and {
                all_allow(m.subrange(0, i as int), target_field@, candidate@)
            } else {
                any_allows(m.subrange(0, i as int), target_field@, candidate@)
            },
        decreases ps.len() - i,
    {
        assert(m.subrange(0, i + 1).drop_last() =~= m.subrange(0, i as int));
        let h = evaluate_predicate_for_value(&ps[i], target_field, candidate);
        if is_and {
            acc = acc && h;
        } else {
            acc = acc || h;
        }
        i = i + 1;
    }
    assert(m.subrange(0, i as int) =~= m);
    acc
}

fn without_key_exec(es: &Vec<(String, JsonValue)>, key: &str) -> (r: Vec<(String, JsonValue)>)
    ensures
        crate::json::model_of_entries(r@) == crate::json::model_of_entries(without_key(es@, key@)),
{
    let mut out: Vec<(String, JsonValue)> = Vec::new();
    let mut i: usize = 0;
    let ghost mut shadow: Seq<(String, JsonValue)> = Seq::empty();
    assert(es@.subrange(0, 0) =~= Seq::<(String, JsonValue)>::empty());
    while i < es.len()
        invariant
            i <= es@.len(),
            shadow == without_key(es@.subrange(0, i as int), key@),
            crate::json::model_of_entries(out@) == crate::json::model_of_entries(shadow),
        decreases es.len() - i,
    {
        assert(es@.subrange(0, i + 1).drop_last() =~= es@.subrange(0, i as int));
        if !str_equal(es[i].0.as_str(), key) {
            let ghost before = out@;
            out.push((es[i].0.clone(), es[i].1.duplicate()));
            proof {
                let next = shadow.push(es@[i as int]);
                assert(out@.drop_last() =~= before);
                assert(next.drop_last() =~= shadow);
                shadow = next;
            }
        }
        i = i + 1;
    }
    assert(es@.subrange(0, i as int) =~= es@);
    out
}

impl ConstraintSet {
    pub closed spec fn shapes(&self) -> Seq<ShapeResult> {
        self.shapes@
    }

    pub closed spec fn schema(&self) -> Option<ClassSchema> {
        self.schema
    }

    /// A set of the rules, with no schema.
    pub fn from_shapes(shapes: Vec<ShapeResult>) -> (r: ConstraintSet)
        ensures
            r.shapes() == shapes@,
            r.schema() is None,
    {
        ConstraintSet { shapes, schema: None }
    }

    /// The set with the schema of its target class attached.
    pub fn with_schema(self, schema: ClassSchema) -> (r: ConstraintSet)
        ensures
            r.shapes() == self.shapes(),
            r.schema() == Some(schema),
    {
        ConstraintSet { shapes: self.shapes, schema: Some(schema) }
    }

    /// The rules that rule text describes (see
    /// [`crate::shacl_parser::parse_shacl`]), with the schema where one is given;
    /// a parse error is reported as its message after `SHACL parse error: `, and
    /// text that the Turtle reader rejects is always an error.
    pub fn from_shacl(ttl: &str, target_class: &str, language: &str, schema: Option<ClassSchema>) -> (r: Result<
        ConstraintSet,
        String,
    >)
        ensures
            r matches Ok(cs) ==> cs.schema() == schema && forall|i: int|
                0 <= i < cs.shapes().len() ==> rule_well_formed(#[trigger] cs.shapes()[i]),
            !crate::rdf::turtle_accepts(ttl@) ==> r is Err,
            r matches Err(msg) ==> exists|e: ErrModel| msg@ == "SHACL parse error: "@ + #[trigger] error_text(e),
    {
        match crate::shacl_parser::parse_shacl(ttl, target_class, language) {
            Ok(shapes) => Ok(ConstraintSet { shapes, schema }),
            Err(e) => {
                let text = e.message();
                assert(text@ == error_text(e.model()));
                Err("SHACL parse error: ".to_owned().concat(text.as_str()))
            },
        }
    }

    /// The violations of every rule with a constraint tree against the record, in
    /// rule order (rules kept as raw queries are not evaluated here).
    pub fn evaluate(&self, object_data: &JsonValue) -> (r: Vec<Violation>)
        ensures
            r@.map_values(|v: Violation| violation_model(v)) == expected_violations(
                self.shapes(),
                object_data.model(),
            ),
            forall|i: int| 0 <= i < r@.len() ==> violation_well_formed(#[trigger] r@[i]),
    {
        let ghost sh = self.shapes@;
        let mut out: Vec<Violation> = Vec::new();
        let mut i: usize = 0;
        assert(sh.subrange(0, 0) =~= Seq::<ShapeResult>::empty());
        assert(out@.map_values(|v: Violation| violation_model(v)) =~= Seq::<ViolationModel>::empty());
        while i < self.shapes.len()
            invariant
                i <= sh.len(),
                sh == self.shapes@,
                out@.map_values(|v: Violation| violation_model(v)) == expected_violations(
                    sh.subrange(0, i as int),
                    object_data.model(),
                ),
                forall|j: int| 0 <= j < out@.len() ==> violation_well_formed(#[trigger] out@[j]),
            decreases self.shapes.len() - i,
        {
            assert(sh.subrange(0, i + 1).drop_last() =~= sh.subrange(0, i as int));
            let shape = &self.shapes[i];
            match &shape.ast {
                Some(ast) => {
                    let mut vs = evaluate_forward(
                        ast,
                        object_data,
                        shape.message.as_str(),
                        &shape.enforcement_level,
                    );
                    if vs.len() > 0 {
                        let ghost before = out@;
                        let v = vs.remove(0);
                        out.push(v);
                        assert(out@.map_values(|v: Violation| violation_model(v)) =~= before.map_values(
                            |v: Violation| violation_model(v),
                        ).push(violation_model(v)));
                    }
                },
                None => {},
            }
            i = i + 1;
        }
        assert(sh.subrange(0, i as int) =~= sh);
        out
    }

    /// The allowed values of `target_field` given the other fields of the record
    /// (see [`solve_set`]).
    pub fn solve(&self, object_data: &JsonValue, target_field: &str) -> (r: Option<FieldConstraint>)
        ensures
            match r {
                Some(c) => Some(constraint_model(c)),
                None => None,
            } == solve_set(self.shapes(), self.schema(), *object_data, target_field@),
    {
        let obj = match object_data {
            JsonValue::Object(es) => es,
            _ => {
                return None;
            },
        };
        let known = without_key_exec(obj, target_field);
        let ghost kspec = without_key(obj@, target_field@);
        let ghost sh = self.shapes@;
        let mut predicates: Vec<Predicate> = Vec::new();
        let mut i: usize = 0;
        assert(sh.subrange(0, 0) =~= Seq::<ShapeResult>::empty());
        assert(model_of_preds(predicates@) =~= Seq::<PredModel>::empty());
        while i < self.shapes.len()
            invariant
                i <= sh.len(),
                sh == self.shapes@,
                crate::json::model_of_entries(known@) == crate::json::model_of_entries(kspec),
                model_of_preds(predicates@) == solved(sh.subrange(0, i as int), crate::json::model_of_entries(kspec), target_field@),
            decreases self.shapes.len() - i,
        {
            assert(sh.subrange(0, i + 1).drop_last() =~= sh.subrange(0, i as int));
            match &self.shapes[i].ast {
                Some(ast) => {
                    let solved_here = solve_backward(ast, &known, target_field);
                    match solved_here {
                        Some(p) => {
                            let ghost before = predicates@;
                            predicates.push(p);
                            assert(predicates@.drop_last() =~= before);
                        },
                        None => {},
                    }
                },
                None => {},
            }
            i = i + 1;
        }
        assert(sh.subrange(0, i as int) =~= sh);
        proof {
            lemma_model_of_preds(predicates@);
        }
        if predicates.len() == 0 {
            return None;
        }
        let combined = if predicates.len() == 1 {
            predicates.remove(0)
        } else {
            Predicate::and(predicates)
        };
        assert(combined.model() == joined(solved(
            self.shapes(),
            crate::json::model_of_entries(without_key(obj@, target_field@)),
            target_field@,
        )));
        match &self.schema {
            Some(schema) => {
                let mut k: usize = 0;
                let mut found = false;
                while k < schema.slots.len() && !found
                    invariant
                        k <= schema.slots@.len(),
                        found ==> k < schema.slots@.len() && slot_index(schema.slots@, target_field@, 0)
                            == k,
                        !found ==> slot_index(schema.slots@, target_field@, 0) == slot_index(
                            schema.slots@,
                            target_field@,
                            k as int,
                        ),
                    decreases schema.slots@.len() - k + (if found { 0int } else { 1int }),
                {
                    if str_equal(schema.slots[k].name.as_str(), target_field) {
                        found = true;
                    } else {
                        k = k + 1;
                    }
                }
                if found {
                    if let Some(keys) = &schema.slots[k].enum_values {
                        let values = allowed_exec(&combined, target_field, keys);
                        return Some(FieldConstraint::AllowedValues { values });
                    }
                }
                Some(FieldConstraint::Query { predicate: combined })
            },
            None => Some(FieldConstraint::Query { predicate: combined }),
        }
    }

    /// The scope predicates of the rules for a focus record, joined in a
    /// disjunction: none where no rule has one.
    pub fn scope(&self, focus_data: &Vec<(String, JsonValue)>, uri_field: &str) -> (r: Option<Predicate>)
        ensures
            opt_pred_model(r) == gather(LogicalOperator::Or, scopes(self.shapes(), focus_data@, uri_field@)),
    {
        let ghost sh = self.shapes@;
        let mut predicates: Vec<Predicate> = Vec::new();
        let mut i: usize = 0;
        assert(sh.subrange(0, 0) =~= Seq::<ShapeResult>::empty());
        assert(model_of_preds(predicates@) =~= Seq::<PredModel>::empty());
        while i < self.shapes.len()
            invariant
                i <= sh.len(),
                sh == self.shapes@,
                model_of_preds(predicates@) == scopes(sh.subrange(0, i as int), focus_data@, uri_field@),
            decreases self.shapes.len() - i,
        {
            assert(sh.subrange(0, i + 1).drop_last() =~= sh.subrange(0, i as int));
            match derive_scope_predicate(&self.shapes[i], focus_data, uri_field) {
                Some(p) => {
                    let ghost before = predicates@;
                    predicates.push(p);
                    assert(predicates@.drop_last() =~= before);
                },
                None => {},
            }
            i = i + 1;
        }
        assert(sh.subrange(0, i as int) =~= sh);
        proof {
            lemma_model_of_preds(predicates@);
        }
        if predicates.len() == 0 {
            None
        } else if predicates.len() == 1 {
            Some(predicates.remove(0))
        } else {
            Some(Predicate::or(predicates))
        }
    }

    /// Every field that some rule reads, sorted, each once.
    pub fn affected_fields(&self) -> (r: Vec<String>)
        ensures
            is_sorted_set_of(r@, all_fields(self.shapes())),
    {
        let ghost sh = self.shapes@;
        let mut out: Vec<String> = Vec::new();
        let mut i: usize = 0;
        assert(sh.subrange(0, 0) =~= Seq::<ShapeResult>::empty());
        assert(texts(out@).to_set() =~= Set::<Seq<char>>::empty());
        while i < self.shapes.len()
            invariant
                i <= sh.len(),
                sh == self.shapes@,
                strictly_sorted(texts(out@)),
                texts(out@).to_set() == all_fields(sh.subrange(0, i as int)),
            decreases self.shapes.len() - i,
        {
            assert(sh.subrange(0, i + 1).drop_last() =~= sh.subrange(0, i as int));
            let fields = &self.shapes[i].affected_fields;
            let ghost start = texts(out@).to_set();
            let mut j: usize = 0;
            assert(texts(fields@.subrange(0, 0)).to_set() =~= Set::<Seq<char>>::empty());
            assert(start.union(Set::<Seq<char>>::empty()) =~= start);
            while j < fields.len()
                invariant
                    j <= fields@.len(),
                    strictly_sorted(texts(out@)),
                    texts(out@).to_set() == start.union(texts(fields@.subrange(0, j as int)).to_set()),
                decreases fields.len() - j,
            {
                insert_name(&mut out, fields[j].as_str());
                proof {
                    assert(fields@.subrange(0, j + 1) =~= fields@.subrange(0, j as int).push(fields@[j as int]));
                    crate::names::lemma_texts_push_set(fields@.subrange(0, j as int), fields@[j as int]);
                }
                assert(texts(out@).to_set() =~= start.union(texts(fields@.subrange(0, j + 1)).to_set()));
                j = j + 1;
            }
            assert(fields@.subrange(0, j as int) =~= fields@);
            i = i + 1;
        }
        assert(sh.subrange(0, i as int) =~= sh);
        out
    }

    /// How many rules the set holds.
    pub fn shape_count(&self) -> (r: usize)
        ensures
            r == self.shapes().len(),
    {
        self.shapes.len()
    }

    /// Whether a schema is attached.
    pub fn has_schema(&self) -> (r: bool)
        ensures
            r == self.schema() is Some,
    {
        self.schema.is_some()
    }

    /// The rules of the set.
    pub fn shapes_ref(&self) -> (r: &Vec<ShapeResult>)
        ensures
            r@ == self.shapes(),
    {
        &self.shapes
    }
}

fn allowed_exec(p: &Predicate, target: &str, keys: &Vec<String>) -> (r: Vec<String>)
    ensures
        texts(r@) == allowed_values(p.model(), target@, texts(keys@)),
{
    let ghost ks = texts(keys@);
    let mut out: Vec<String> = Vec::new();
    let mut i: usize = 0;
    assert(ks.subrange(0, 0) =~= Seq::<Seq<char>>::empty());
    assert(texts(out@) =~= Seq::<Seq<char>>::empty());
    while i < keys.len()
        invariant
            i <= keys@.len(),
            ks == texts(keys@),
            texts(out@) == allowed_values(p.model(), target@, ks.subrange(0, i as int)),
        decreases keys.len() - i,
    {
        assert(ks.subrange(0, i + 1).drop_last() =~= ks.subrange(0, i as int));
        assert(ks[i as int] == keys@[i as int]@);
        if evaluate_predicate_for_value(p, target, keys[i].as_str()) {
            let ghost before = out@;
            out.push(keys[i].clone());
            assert(texts(out@) =~= texts(before).push(keys@[i as int]@));
        }
        i = i + 1;
    }
    assert(ks.subrange(0, i as int) =~= ks);
    out
}

} // verus!

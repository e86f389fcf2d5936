//! Forward evaluation: a rule's constraint tree checked against a flat record.

use vstd::prelude::*;

use crate::json::{loose_eq, model_field, values_equal, JsonModel, JsonValue};
use crate::names::{insert_name, strictly_sorted, texts};
use crate::shacl_ast::{
    iri_local_name, local_name_of_iri, path_local_name, EnforcementLevel, PropertyPath, ShaclAst,
    Violation,
};

verus! {

broadcast use vstd::std_specs::vec::group_vec_axioms;

/// The record field that a simple path names: the IRI's local name, or the whole
/// IRI where it has none.
pub open spec fn iri_key(iri: Seq<char>) -> Seq<char> {
    match iri_local_name(iri) {
        Some(name) => name,
        None => iri,
    }
}

/// The value that a path reaches from a record. A simple path looks up a field, a
/// sequence follows its steps in turn, and an inverse path reaches nothing in a
/// single record.
pub open spec fn resolve(data: JsonModel, path: PropertyPath) -> Option<JsonModel>
    decreases path,
{
    match path {
        PropertyPath::Iri { iri } => model_field(data, iri_key(iri@)),
        PropertyPath::Sequence { steps } => resolve_steps(data, steps@),
        PropertyPath::Inverse { .. } => None,
    }
}

pub open spec fn resolve_steps(data: JsonModel, steps: Seq<PropertyPath>) -> Option<JsonModel>
    decreases steps,
{
    if steps.len() == 0 {
        Some(data)
    } else {
        match resolve_steps(data, steps.drop_last()) {
            Some(cur) => resolve(cur, steps.last()),
            None => None,
        }
    }
}

/// How many values a field holds: none when absent or null, an array's length,
/// else one.
pub open spec fn count_of(v: Option<JsonModel>) -> nat {
    match v {
        None => 0,
        Some(JsonModel::Null) => 0,
        Some(JsonModel::Array(items)) => items.len(),
        Some(_) => 1,
    }
}

pub open spec fn count_within(count: nat, min: Option<u32>, max: Option<u32>) -> bool {
    (match min {
        Some(m) => count >= m,
        None => true,
    }) && (match max {
        Some(m) => count <= m,
        None => true,
    })
}

/// Whether a constraint holds of a record.
pub open spec fn holds(ast: ShaclAst, data: JsonModel) -> bool
    decreases ast,
{
    match ast {
        ShaclAst::And { children } => all_hold(children@, data),
        ShaclAst::Or { children } => any_holds(children@, data),
        ShaclAst::Not { child } => !holds(*child, data),
        ShaclAst::PropEquals { path, value } => match resolve(data, path) {
            Some(v) => loose_eq(v, value.model()),
            None => false,
        },
        ShaclAst::PropIn { path, values } => match resolve(data, path) {
            Some(v) => exists|i: int| 0 <= i < values@.len() && loose_eq(v, #[trigger] values@[i].model()),
            None => false,
        },
        ShaclAst::PropCount { path, min, max } => count_within(count_of(resolve(data, path)), min, max),
        ShaclAst::PathEquals { path_a, path_b } => match resolve(data, path_a) {
            Some(a) => match resolve(data, path_b) {
                Some(b) => loose_eq(a, b),
                None => false,
            },
            None => resolve(data, path_b) is None,
        },
        ShaclAst::PathDisjoint { path_a, path_b } => match resolve(data, path_a) {
            Some(a) => match resolve(data, path_b) {
                Some(b) => !loose_eq(a, b),
                None => true,
            },
            None => true,
        },
    }
}

pub open spec fn all_hold(cs: Seq<ShaclAst>, data: JsonModel) -> bool
    decreases cs,
{
    if cs.len() == 0 {
        true
    } else {
        all_hold(cs.drop_last(), data) && holds(cs.last(), data)
    }
}

pub open spec fn any_holds(cs: Seq<ShaclAst>, data: JsonModel) -> bool
    decreases cs,
{
    if cs.len() == 0 {
        false
    } else {
        any_holds(cs.drop_last(), data) || holds(cs.last(), data)
    }
}

/// The names that an optional local name contributes.
pub open spec fn name_set(n: Option<Seq<char>>) -> Set<Seq<char>> {
    match n {
        Some(x) => set![x],
        None => Set::empty(),
    }
}

/// The local names of every path that a constraint refers to.
pub open spec fn referenced_names(ast: ShaclAst) -> Set<Seq<char>>
    decreases ast,
{
    match ast {
        ShaclAst::And { children } => names_in(children@),
        ShaclAst::Or { children } => names_in(children@),
        ShaclAst::Not { child } => referenced_names(*child),
        ShaclAst::PropEquals { path, .. } => name_set(path_local_name(path)),
        ShaclAst::PropIn { path, .. } => name_set(path_local_name(path)),
        ShaclAst::PropCount { path, .. } => name_set(path_local_name(path)),
        ShaclAst::PathEquals { path_a, path_b } => name_set(path_local_name(path_a)).union(
            name_set(path_local_name(path_b)),
        ),
        ShaclAst::PathDisjoint { path_a, path_b } => name_set(path_local_name(path_a)).union(
            name_set(path_local_name(path_b)),
        ),
    }
}

pub open spec fn names_in(cs: Seq<ShaclAst>) -> Set<Seq<char>>
    decreases cs,
{
    if cs.len() == 0 {
        Set::empty()
    } else {
        names_in(cs.drop_last()).union(referenced_names(cs.last()))
    }
}

proof fn lemma_steps_stay_none(data: JsonModel, steps: Seq<PropertyPath>, i: int, j: int)
    requires
        0 <= i <= j <= steps.len(),
        resolve_steps(data, steps.subrange(0, i)) is None,
    ensures
        resolve_steps(data, steps.subrange(0, j)) is None,
    decreases j - i,
{
    if j > i {
        lemma_steps_stay_none(data, steps, i, j - 1);
        assert(steps.subrange(0, j).drop_last() =~= steps.subrange(0, j - 1));
    }
}

/// The value that a path reaches from a record (see [`resolve`]).
pub fn resolve_path<'a>(data: &'a JsonValue, path: &PropertyPath) -> (r: Option<&'a JsonValue>)
    ensures
        r matches Some(v) ==> resolve(data.model(), *path) == Some(v.model()),
        r is None ==> resolve(data.model(), *path) is None,
    decreases path,
{
    match path {
        PropertyPath::Iri { iri } => {
            let key = match local_name_of_iri(iri.as_str()) {
                Some(name) => name,
                None => iri.as_str(),
            };
            data.get(key)
        },
        PropertyPath::Sequence { steps } => resolve_steps_exec(data, steps),
        PropertyPath::Inverse { .. } => None,
    }
}

fn resolve_steps_exec<'a>(data: &'a JsonValue, steps: &Vec<PropertyPath>) -> (r: Option<&'a JsonValue>)
    ensures
        r matches Some(v) ==> resolve_steps(data.model(), steps@) == Some(v.model()),
        r is None ==> resolve_steps(data.model(), steps@) is None,
    decreases steps,
{
    let mut current: &'a JsonValue = data;
    let mut i: usize = 0;
    assert(steps@.subrange(0, 0) =~= Seq::<PropertyPath>::empty());
    while i < steps.len()
        invariant
            i <= steps@.len(),
            resolve_steps(data.model(), steps@.subrange(0, i as int)) == Some(current.model()),
        decreases steps.len() - i,
    {
        assert(steps@.subrange(0, i + 1).drop_last() =~= steps@.subrange(0, i as int));
        match resolve_path(current, &steps[i]) {
            Some(next) => {
                current = next;
            },
            None => {
                proof {
                    lemma_steps_stay_none(data.model(), steps@, i + 1, steps@.len() as int);
                    assert(steps@.subrange(0, steps@.len() as int) =~= steps@);
                }
                return None;
            },
        }
        i = i + 1;
    }
    assert(steps@.subrange(0, i as int) =~= steps@);
    Some(current)
}

fn resolve_count(data: &JsonValue, path: &PropertyPath) -> (r: usize)
    ensures
        r == count_of(resolve(data.model(), *path)),
{
    match resolve_path(data, path) {
        None => 0,
        Some(JsonValue::Null) => 0,
        Some(JsonValue::Array(items)) => {
            proof {
                crate::json::lemma_model_of_items(items@);
            }
            items.len()
        },
        Some(_) => 1,
    }
}

pub fn any_value_equal(v: &JsonValue, values: &Vec<JsonValue>) -> (r: bool)
    ensures
        r == exists|i: int| 0 <= i < values@.len() && loose_eq(v.model(), #[trigger] values@[i].model()),
{
    let mut i: usize = 0;
    while i < values.len()
        invariant
            i <= values@.len(),
            forall|j: int| 0 <= j < i ==> !loose_eq(v.model(), #[trigger] values@[j].model()),
        decreases values.len() - i,
    {
        if values_equal(v, &values[i]) {
            return true;
        }
        i = i + 1;
    }
    false
}

fn eval_all(children: &Vec<ShaclAst>, data: &JsonValue) -> (r: bool)
    ensures
        r == all_hold(children@, data.model()),
    decreases children,
{
    let mut acc = true;
    let mut i: usize = 0;
    assert(children@.subrange(0, 0) =~= Seq::<ShaclAst>::empty());
    while i < children.len()
        invariant
            i <= children@.len(),
            acc == all_hold(children@.subrange(0, i as int), data.model()),
        decreases children.len() - i,
    {
        assert(children@.subrange(0, i + 1).drop_last() =~= children@.subrange(0, i as int));
        let h = eval_node(&children[i], data);
        acc = acc && h;
        i = i + 1;
    }
    assert(children@.subrange(0, i as int) =~= children@);
    acc
}

fn eval_any(children: &Vec<ShaclAst>, data: &JsonValue) -> (r: bool)
    ensures
        r == any_holds(children@, data.model()),
    decreases children,
{
    let mut acc = false;
    let mut i: usize = 0;
    assert(children@.subrange(0, 0) =~= Seq::<ShaclAst>::empty());
    while i < children.len()
        invariant
            i <= children@.len(),
            acc == any_holds(children@.subrange(0, i as int), data.model()),
        decreases children.len() - i,
    {
        assert(children@.subrange(0, i + 1).drop_last() =~= children@.subrange(0, i as int));
        let h = eval_node(&children[i], data);
        acc = acc || h;
        i = i + 1;
    }
    assert(children@.subrange(0, i as int) =~= children@);
    acc
}

/// Whether a constraint holds of a record (see [`holds`]).
pub fn eval_node(ast: &ShaclAst, data: &JsonValue) -> (r: bool)
    ensures
        r == holds(*ast, data.model()),
    decreases ast,
{
    match ast {
        ShaclAst::And { children } => eval_all(children, data),
        ShaclAst::Or { children } => eval_any(children, data),
        ShaclAst::Not { child } => !eval_node(child, data),
        ShaclAst::PropEquals { path, value } => match resolve_path(data, path) {
            Some(v) => values_equal(v, value),
            None => false,
        },
        ShaclAst::PropIn { path, values } => match resolve_path(data, path) {
            Some(v) => any_value_equal(v, values),
            None => false,
        },
        ShaclAst::PropCount { path, min, max } => {
            let count = resolve_count(data, path);
            let min_ok = match min {
                Some(m) => count >= *m as usize,
                None => true,
            };
            let max_ok = match max {
                Some(m) => count <= *m as usize,
                None => true,
            };
            min_ok && max_ok
        },
        ShaclAst::PathEquals { path_a, path_b } => {
            let a = resolve_path(data, path_a);
            let b = resolve_path(data, path_b);
            match (a, b) {
                (Some(x), Some(y)) => values_equal(x, y),
                (None, None) => true,
                _ => false,
            }
        },
        ShaclAst::PathDisjoint { path_a, path_b } => {
            let a = resolve_path(data, path_a);
            let b = resolve_path(data, path_b);
            match (a, b) {
                (Some(x), Some(y)) => !values_equal(x, y),
                _ => true,
            }
        },
    }
}

fn add_path_name(path: &PropertyPath, names: &mut Vec<String>)
    requires
        strictly_sorted(texts(old(names)@)),
    ensures
        strictly_sorted(texts(final(names)@)),
        texts(final(names)@).to_set() == texts(old(names)@).to_set().union(name_set(path_local_name(*path))),
{
    match path.local_name() {
        Some(name) => {
            insert_name(names, name);
        },
        None => {
            assert(texts(names@).to_set().union(Set::empty()) =~= texts(names@).to_set());
        },
    }
}

fn collect_all(children: &Vec<ShaclAst>, names: &mut Vec<String>)
    requires
        strictly_sorted(texts(old(names)@)),
    ensures
        strictly_sorted(texts(final(names)@)),
        texts(final(names)@).to_set() == texts(old(names)@).to_set().union(names_in(children@)),
    decreases children,
{
    let ghost start = texts(names@).to_set();
    let mut i: usize = 0;
    assert(children@.subrange(0, 0) =~= Seq::<ShaclAst>::empty());
    assert(start.union(Set::empty()) =~= start);
    while i < children.len()
        invariant
            i <= children@.len(),
            strictly_sorted(texts(names@)),
            texts(names@).to_set() == start.union(names_in(children@.subrange(0, i as int))),
        decreases children.len() - i,
    {
        assert(children@.subrange(0, i + 1).drop_last() =~= children@.subrange(0, i as int));
        collect_paths(&children[i], names);
        assert(start.union(names_in(children@.subrange(0, i + 1))) =~= start.union(
            names_in(children@.subrange(0, i as int)),
        ).union(referenced_names(children@[i as int])));
        i = i + 1;
    }
    assert(children@.subrange(0, i as int) =~= children@);
}

/// Adds to a sorted set of names the local names that a constraint refers to.
pub fn collect_paths(ast: &ShaclAst, names: &mut Vec<String>)
    requires
        strictly_sorted(texts(old(names)@)),
    ensures
        strictly_sorted(texts(final(names)@)),
        texts(final(names)@).to_set() == texts(old(names)@).to_set().union(referenced_names(*ast)),
    decreases ast,
{
    let ghost start = texts(names@).to_set();
    match ast {
        ShaclAst::And { children } | ShaclAst::Or { children } => {
            collect_all(children, names);
        },
        ShaclAst::Not { child } => {
            collect_paths(child, names);
        },
        ShaclAst::PropEquals { path, .. } | ShaclAst::PropIn { path, .. } | ShaclAst::PropCount {
            path,
            ..
        } => {
            add_path_name(path, names);
        },
        ShaclAst::PathEquals { path_a, path_b } | ShaclAst::PathDisjoint { path_a, path_b } => {
            add_path_name(path_a, names);
            add_path_name(path_b, names);
            assert(start.union(name_set(path_local_name(*path_a))).union(
                name_set(path_local_name(*path_b)),
            ) =~= start.union(referenced_names(*ast)));
        },
    }
}

/// The local names that a constraint refers to, sorted, each once.
pub fn collect_violation_fields(ast: &ShaclAst) -> (r: Vec<String>)
    ensures
        strictly_sorted(texts(r@)),
        texts(r@).to_set() == referenced_names(*ast),
{
    let mut names: Vec<String> = Vec::new();
    assert(texts(names@) =~= Seq::<Seq<char>>::empty());
    assert(texts(names@).to_set() =~= Set::<Seq<char>>::empty());
    collect_paths(ast, &mut names);
    assert(Set::<Seq<char>>::empty().union(referenced_names(*ast)) =~= referenced_names(*ast));
    names
}

/// Checks a record against a constraint: no violation when it holds, else one
/// violation with the rule's message and level, naming the fields that the
/// constraint refers to.
pub fn evaluate_forward(
    ast: &ShaclAst,
    data: &JsonValue,
    message: &str,
    enforcement_level: &EnforcementLevel,
) -> (r: Vec<Violation>)
    ensures
        holds(*ast, data.model()) ==> r@.len() == 0,
        !holds(*ast, data.model()) ==> r@.len() == 1 && r@[0].message@ == message@
            && r@[0].enforcement_level == *enforcement_level && r@[0].suggested_fix is None
            && strictly_sorted(texts(r@[0].fields@)) && texts(r@[0].fields@).to_set()
            == referenced_names(*ast),
{
    if eval_node(ast, data) {
        Vec::new()
    } else {
        let fields = collect_violation_fields(ast);
        let mut out: Vec<Violation> = Vec::new();
        out.push(
            Violation {
                fields,
                message: message.to_owned(),
                enforcement_level: *enforcement_level,
                suggested_fix: None,
            },
        );
        out
    }
}

} // verus!

//! Scope predicates: for a rule that spans records, the predicate that selects
//! the peer records sharing an attribute with the focus record.
//!
//! The shared attributes come from the join patterns of the rule's raw query,
//! found by a line-by-line scan: a line `$this p ?v` and a line `?other p ?v`
//! with the same predicate and the same variable make `p` shared.

use vstd::prelude::*;

use crate::json::{lookup, lookup_entry, JsonValue};
use crate::names::{
    insert_name, is_sorted_set_of, lemma_is_sorted_list, sorted_list, strictly_sorted, texts,
};
use crate::predicate::{combine, opt_pred_model, LogicalOperator, PredModel, Predicate};
use crate::scan::{
    equals_exec, line_end, line_end_exec, lemma_line_end, next_word, prefixed_local_name,
    starts_with, starts_with_exec, strip_end_at, strip_end_exec, trim_end_at, trim_end_exec,
    words_from,
};
use crate::shacl_ast::ShapeResult;
use crate::text::{chars_of, split_after_last};

verus! {

broadcast use vstd::std_specs::vec::group_vec_axioms;

/// A triple pattern of a query line: whether its subject is `$this` (else another
/// variable), the local name of its predicate, and its object variable.
pub type Binding = (bool, Seq<char>, Seq<char>);

/// The end of line `s[a..b]` once trailing white space, then every trailing `;`,
/// then every trailing `.` is removed.
pub open spec fn clean_end(s: Seq<char>, a: int, b: int) -> int {
    strip_end_at(s, a, strip_end_at(s, a, trim_end_at(s, a, b), ';'), '.')
}

/// The binding that line `s[a..b]` holds, if any: at least three words, the third
/// a variable, the second no `FILTER` or `BIND`, the first `$this` or a variable.
pub open spec fn line_binding(s: Seq<char>, a: int, b: int) -> Option<Binding> {
    let w = words_from(s, a, clean_end(s, a, b));
    if w.len() >= 3 && starts_with(w[2], "?"@) && !starts_with(w[1], "FILTER"@) && !starts_with(
        w[1],
        "BIND"@,
    ) {
        if w[0] == "$this"@ {
            Some((true, prefixed_local_name(w[1]), w[2]))
        } else if starts_with(w[0], "?"@) {
            Some((false, prefixed_local_name(w[1]), w[2]))
        } else {
            None
        }
    } else {
        None
    }
}

/// The bindings of the lines of `s` from position `i` on, in order.
pub open spec fn bindings_from(s: Seq<char>, i: int) -> Seq<Binding>
    decreases s.len() + 1 - i,
{
    if i < 0 || i >= s.len() {
        Seq::empty()
    } else {
        let e = line_end(s, i);
        proof {
            lemma_line_end(s, i);
        }
        let here = match line_binding(s, i, e) {
            Some(x) => seq![x],
            None => Seq::empty(),
        };
        here + bindings_from(s, e + 1)
    }
}

/// Whether binding `i` of `$this` and binding `j` of another variable share their
/// predicate and their variable.
pub open spec fn joins(bs: Seq<Binding>, i: int, j: int) -> bool {
    0 <= i < bs.len() && 0 <= j < bs.len() && bs[i].0 && !bs[j].0 && bs[i].1 == bs[j].1 && bs[i].2
        == bs[j].2
}

/// The shared attributes of a query text.
pub open spec fn shared_attributes(s: Seq<char>) -> Set<Seq<char>> {
    let bs = bindings_from(s, 0);
    Set::new(|p: Seq<char>| exists|i: int, j: int| #[trigger] joins(bs, i, j) && bs[i].1 == p)
}

/// The names joined by the pairs before `(i, j)`, in the order of rows then columns.
pub open spec fn joined_before(bs: Seq<Binding>, i: int, j: int) -> Set<Seq<char>> {
    Set::new(
        |p: Seq<char>|
            exists|x: int, y: int|
                #[trigger] joins(bs, x, y) && (x < i || (x == i && y < j)) && bs[x].1 == p,
    )
}

/// The local name of an IRI or a prefixed name (see [`prefixed_local_name`]).
pub fn iri_local_name(iri: &str) -> (r: &str)
    ensures
        r@ == prefixed_local_name(iri@),
{
    match split_after_last(iri, '#') {
        Some(n) => n,
        None => match split_after_last(iri, '/') {
            Some(n) => n,
            None => match split_after_last(iri, ':') {
                Some(n) => n,
                None => iri,
            },
        },
    }
}

fn clean_end_exec(s: &Vec<char>, a: usize, b: usize) -> (r: usize)
    requires
        a <= b <= s@.len(),
    ensures
        r == clean_end(s@, a as int, b as int),
        a <= r <= b,
{
    let t = trim_end_exec(s, a, b);
    let u = strip_end_exec(s, a, t, ';');
    strip_end_exec(s, a, u, '.')
}

/// The binding of the line `s[a..b]` (see [`line_binding`]).
fn line_binding_exec(text: &str, s: &Vec<char>, a: usize, b: usize) -> (r: Option<
    (bool, String, String),
>)
    requires
        s@ == text@,
        a <= b <= s@.len(),
    ensures
        r matches Some(x) ==> line_binding(s@, a as int, b as int) == Some((x.0, x.1@, x.2@)),
        r is None ==> line_binding(s@, a as int, b as int) is None,
{
    let c = clean_end_exec(s, a, b);
    let (s0, e0) = match next_word(s, a, c) {
        Some(w) => w,
        None => {
            return None;
        },
    };
    let (s1, e1) = match next_word(s, e0, c) {
        Some(w) => w,
        None => {
            return None;
        },
    };
    let (s2, e2) = match next_word(s, e1, c) {
        Some(w) => w,
        None => {
            return None;
        },
    };
    let ghost w = words_from(s@, a as int, c as int);
    assert(w[0] == s@.subrange(s0 as int, e0 as int));
    assert(w[1] == s@.subrange(s1 as int, e1 as int));
    assert(w[2] == s@.subrange(s2 as int, e2 as int));
    let question = chars_of("?");
    let filter = chars_of("FILTER");
    let bind = chars_of("BIND");
    let this = chars_of("$this");
    if !starts_with_exec(s, s2, e2, &question) || starts_with_exec(s, s1, e1, &filter)
        || starts_with_exec(s, s1, e1, &bind) {
        return None;
    }
    let is_this = equals_exec(s, s0, e0, &this);
    if !is_this && !starts_with_exec(s, s0, e0, &question) {
        return None;
    }
    let predicate = text.substring_char(s1, e1);
    let name = iri_local_name(predicate);
    let object = text.substring_char(s2, e2);
    Some((is_this, name.to_owned(), object.to_owned()))
}

/// The bindings of every line of a query text.
fn collect_bindings(text: &str) -> (r: Vec<(bool, String, String)>)
    ensures
        r@.len() == bindings_from(text@, 0).len(),
        forall|k: int|
            0 <= k < r@.len() ==> bindings_from(text@, 0)[k] == (
                #[trigger] r@[k].0,
                r@[k].1@,
                r@[k].2@,
            ),
{
    let s = chars_of(text);
    let mut out: Vec<(bool, String, String)> = Vec::new();
    let mut i: usize = 0;
    let ghost all = bindings_from(s@, 0);
    while i < s.len()
        invariant
            s@ == text@,
            i <= s@.len() + 1,
            all == bindings_from(s@, 0),
            all == out@.map_values(|x: (bool, String, String)| (x.0, x.1@, x.2@)) + bindings_from(
                s@,
                i as int,
            ),
        decreases s.len() + 1 - i,
    {
        let e = line_end_exec(&s, i);
        let ghost before = out@;
        let ghost mapped = before.map_values(|x: (bool, String, String)| (x.0, x.1@, x.2@));
        match line_binding_exec(text, &s, i, e) {
            Some(x) => {
                out.push(x);
                assert(out@.map_values(|x: (bool, String, String)| (x.0, x.1@, x.2@)) =~= mapped.push(
                    (x.0, x.1@, x.2@),
                ));
                assert(mapped.push((x.0, x.1@, x.2@)) + bindings_from(s@, e + 1) =~= mapped + (seq![
                    (x.0, x.1@, x.2@),
                ] + bindings_from(s@, e + 1)));
            },
            None => {
                assert(Seq::<Binding>::empty() + bindings_from(s@, e + 1) =~= bindings_from(
                    s@,
                    e + 1,
                ));
            },
        }
        if e < s.len() {
            i = e + 1;
        } else {
            i = e;
        }
    }
    assert(bindings_from(s@, i as int) =~= Seq::<Binding>::empty());
    assert(all =~= out@.map_values(|x: (bool, String, String)| (x.0, x.1@, x.2@)));
    out
}

/// The shared attributes of a query text (see [`shared_attributes`]), sorted, each
/// once.
pub fn extract_shared_attribute_joins(sparql: &str) -> (r: Vec<String>)
    ensures
        is_sorted_set_of(r@, shared_attributes(sparql@)),
{
    let bs = collect_bindings(sparql);
    let ghost m = bindings_from(sparql@, 0);
    let mut shared: Vec<String> = Vec::new();
    assert(texts(shared@).to_set() =~= joined_before(m, 0, 0));
    let mut i: usize = 0;
    while i < bs.len()
        invariant
            i <= bs@.len(),
            m.len() == bs@.len(),
            forall|k: int| 0 <= k < bs@.len() ==> m[k] == (#[trigger] bs@[k].0, bs@[k].1@, bs@[k].2@),
            strictly_sorted(texts(shared@)),
            texts(shared@).to_set() == joined_before(m, i as int, 0),
        decreases bs.len() - i,
    {
        let mut j: usize = 0;
        while j < bs.len()
            invariant
                i < bs@.len(),
                j <= bs@.len(),
                m.len() == bs@.len(),
                forall|k: int|
                    0 <= k < bs@.len() ==> m[k] == (#[trigger] bs@[k].0, bs@[k].1@, bs@[k].2@),
                strictly_sorted(texts(shared@)),
                texts(shared@).to_set() == joined_before(m, i as int, j as int),
            decreases bs.len() - j,
        {
            let hit = bs[i].0 && !bs[j].0 && bs[i].1.eq(&bs[j].1) && bs[i].2.eq(&bs[j].2);
            let ghost before = joined_before(m, i as int, j as int);
            assert(m[i as int] == (bs@[i as int].0, bs@[i as int].1@, bs@[i as int].2@));
            assert(m[j as int] == (bs@[j as int].0, bs@[j as int].1@, bs@[j as int].2@));
            assert(hit == joins(m, i as int, j as int));
            if hit {
                insert_name(&mut shared, bs[i].1.as_str());
                assert(joined_before(m, i as int, j + 1) =~= before.insert(m[i as int].1));
            } else {
                assert(joined_before(m, i as int, j + 1) =~= before) by {
                    assert forall|p: Seq<char>| joined_before(m, i as int, j + 1).contains(p) implies before.contains(p) by {
                        let (x, y) = choose|x: int, y: int|
                            #[trigger] joins(m, x, y) && (x < i || (x == i && y < j + 1)) && m[x].1 == p;
                        assert(joins(m, x, y) && (x < i || (x == i && y < j)) && m[x].1 == p);
                    }
                }
            }
            j = j + 1;
        }
        assert(joined_before(m, i as int, bs@.len() as int) =~= joined_before(m, i + 1, 0));
        i = i + 1;
    }
    assert(joined_before(m, i as int, 0) =~= shared_attributes(sparql@));
    shared
}

/// The value of a focus field, as a model.
pub open spec fn focus_value(focus: Seq<(String, JsonValue)>, name: Seq<char>) -> crate::json::JsonModel
    recommends
        lookup(focus, name) is Some,
{
    lookup(focus, name)->0.model()
}

/// The scope predicate for shared attributes `names`, in their order: every
/// shared attribute equal to the focus record's value, and the focus record itself
/// left out by its URI. None where there is no shared attribute, or the focus
/// record lacks one of them or the URI field.
pub open spec fn scope_from_names(
    names: Seq<Seq<char>>,
    focus: Seq<(String, JsonValue)>,
    uri_field: Seq<char>,
) -> Option<PredModel> {
    if names.len() == 0 || lookup(focus, uri_field) is None || exists|k: int|
        0 <= k < names.len() && lookup(focus, #[trigger] names[k]) is None {
        None
    } else {
        Some(
            combine(
                LogicalOperator::And,
                names.map_values(
                    |n: Seq<char>| PredModel::Simple(n, "equals"@, Some(focus_value(focus, n))),
                ).push(
                    PredModel::Negated(
                        Box::new(
                            PredModel::Simple(uri_field, "equals"@, Some(focus_value(focus, uri_field))),
                        ),
                    ),
                ),
            ),
        )
    }
}

fn derive_scope_from_sparql(sparql: &str, focus_data: &Vec<(String, JsonValue)>, uri_field: &str) -> (r:
    Option<Predicate>)
    ensures
        opt_pred_model(r) == scope_from_names(sorted_list(shared_attributes(sparql@)), focus_data@, uri_field@),
{
    let shared = extract_shared_attribute_joins(sparql);
    let ghost names = texts(shared@);
    proof {
        lemma_is_sorted_list(shared@, shared_attributes(sparql@));
    }
    assert(names.len() == shared@.len());
    if shared.len() == 0 {
        assert(scope_from_names(names, focus_data@, uri_field@) is None);
        return None;
    }
    let focus_uri = match lookup_entry(focus_data, uri_field) {
        Some(v) => v,
        None => {
            assert(scope_from_names(names, focus_data@, uri_field@) is None);
            return None;
        },
    };
    let mut predicates: Vec<Predicate> = Vec::new();
    let mut k: usize = 0;
    while k < shared.len()
        invariant
            k <= shared@.len(),
            names == texts(shared@),
            names.len() == shared@.len(),
            strictly_sorted(names),
            names.to_set() == shared_attributes(sparql@),
            names == sorted_list(shared_attributes(sparql@)),
            lookup(focus_data@, uri_field@) == Some(*focus_uri),
            predicates@.len() == k,
            forall|j: int| 0 <= j < k ==> lookup(focus_data@, #[trigger] names[j]) is Some,
            forall|j: int|
                0 <= j < k ==> #[trigger] predicates@[j].model() == PredModel::Simple(
                    names[j],
                    "equals"@,
                    Some(focus_value(focus_data@, names[j])),
                ),
        decreases shared.len() - k,
    {
        let value = match lookup_entry(focus_data, shared[k].as_str()) {
            Some(v) => v,
            None => {
                assert(lookup(focus_data@, names[k as int]) is None);
                assert(scope_from_names(names, focus_data@, uri_field@) is None);
                return None;
            },
        };
        predicates.push(Predicate::simple(shared[k].as_str(), "equals", value.duplicate()));
        k = k + 1;
    }
    let ghost firsts = predicates@;
    predicates.push(Predicate::not(Predicate::simple(uri_field, "equals", focus_uri.duplicate())));
    proof {
        crate::predicate::lemma_model_of_preds(predicates@);
        let expected = names.map_values(
            |n: Seq<char>| PredModel::Simple(n, "equals"@, Some(focus_value(focus_data@, n))),
        ).push(
            PredModel::Negated(
                Box::new(
                    PredModel::Simple(uri_field@, "equals"@, Some(focus_value(focus_data@, uri_field@))),
                ),
            ),
        );
        assert(crate::predicate::model_of_preds(predicates@) =~= expected);
        assert(!exists|k: int| 0 <= k < names.len() && lookup(focus_data@, #[trigger] names[k]) is None);
    }
    Some(Predicate::and(predicates))
}

/// The scope predicate of a rule for a focus record. Only a rule kept as a raw
/// query has one (see [`scope_from_names`]); for the others there is none.
pub fn derive_scope_predicate(
    shape: &ShapeResult,
    focus_data: &Vec<(String, JsonValue)>,
    uri_field: &str,
) -> (r: Option<Predicate>)
    ensures
        shape.sparql is None ==> r is None,
        shape.sparql matches Some(q) ==> opt_pred_model(r) == scope_from_names(
            sorted_list(shared_attributes(q@)),
            focus_data@,
            uri_field@,
        ),
{
    match &shape.sparql {
        Some(sparql) => derive_scope_from_sparql(sparql.as_str(), focus_data, uri_field),
        None => None,
    }
}

} // verus!

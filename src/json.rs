//! A JSON document model of the library's own: the values that rules compare
//! and the flat records that they are checked against.

use vstd::prelude::*;

verus! {

broadcast use vstd::std_specs::vec::group_vec_axioms;

/// A JSON value, as rules and records hold it.
///
/// A number is kept as its canonical decimal text (`42`, `-7`, `1.5`): that is how
/// it prints and how it compares, two numbers being equal when their texts are.
/// An object keeps its members in order; a lookup finds the first member of that
/// name, and two objects are the same value when they map the same names to the
/// same values, whatever the order (see [`same_value`]).
#[derive(Debug)]
pub enum JsonValue {
    Null,
    Bool(bool),
    Number(String),
    String(String),
    Array(Vec<JsonValue>),
    Object(Vec<(String, JsonValue)>),
}

/// The mathematical model of a [`JsonValue`].
pub ghost enum JsonModel {
    Null,
    Bool(bool),
    Number(Seq<char>),
    Str(Seq<char>),
    Array(Seq<JsonModel>),
    Object(Seq<(Seq<char>, JsonModel)>),
}

pub open spec fn model_of_items(items: Seq<JsonValue>) -> Seq<JsonModel>
    decreases items,
{
    if items.len() == 0 {
        Seq::empty()
    } else {
        model_of_items(items.drop_last()).push(items.last().model())
    }
}

pub open spec fn model_of_entries(entries: Seq<(String, JsonValue)>) -> Seq<(Seq<char>, JsonModel)>
    decreases entries,
{
    if entries.len() == 0 {
        Seq::empty()
    } else {
        model_of_entries(entries.drop_last()).push((entries.last().0@, entries.last().1.model()))
    }
}

pub proof fn lemma_model_of_items(items: Seq<JsonValue>)
    ensures
        model_of_items(items).len() == items.len(),
        forall|i: int| 0 <= i < items.len() ==> #[trigger] model_of_items(items)[i] == items[i].model(),
    decreases items.len(),
{
    if items.len() > 0 {
        lemma_model_of_items(items.drop_last());
    }
}

pub proof fn lemma_model_of_entries(entries: Seq<(String, JsonValue)>)
    ensures
        model_of_entries(entries).len() == entries.len(),
        forall|i: int|
            0 <= i < entries.len() ==> #[trigger] model_of_entries(entries)[i] == (
                entries[i].0@,
                entries[i].1.model(),
            ),
    decreases entries.len(),
{
    if entries.len() > 0 {
        lemma_model_of_entries(entries.drop_last());
    }
}

/// The text of a boolean, as JSON writes it.
pub open spec fn bool_text(b: bool) -> Seq<char> {
    if b {
        "true"@
    } else {
        "false"@
    }
}

/// Whether a string `s` reads as the primitive value `other`.
pub open spec fn text_matches(s: Seq<char>, other: JsonModel) -> bool {
    match other {
        JsonModel::Bool(b) => s == bool_text(b),
        JsonModel::Number(n) => s == n,
        JsonModel::Str(t) => s == t,
        _ => false,
    }
}

/// Loose equality: the values are the same (see [`same_value`]), or one is a string that reads as the
/// other's primitive value (`"true"` and `true`, `"42"` and `42`). Two values of
/// different types, neither a string, are never equal.
pub open spec fn loose_eq(a: JsonModel, b: JsonModel) -> bool {
    same_value(a, b) || match a {
        JsonModel::Str(s) => text_matches(s, b),
        _ => match b {
            JsonModel::Str(s) => text_matches(s, a),
            _ => false,
        },
    }
}

/// The first member named `key` from position `i` on.
pub open spec fn lookup_from(entries: Seq<(String, JsonValue)>, key: Seq<char>, i: int) -> Option<
    JsonValue,
>
    decreases entries.len() - i,
{
    if i < 0 || i >= entries.len() {
        None
    } else if entries[i].0@ == key {
        Some(entries[i].1)
    } else {
        lookup_from(entries, key, i + 1)
    }
}

/// The member named `key` of an object: the first one of that name.
pub open spec fn lookup(entries: Seq<(String, JsonValue)>, key: Seq<char>) -> Option<JsonValue> {
    lookup_from(entries, key, 0)
}

/// The field `key` of a value: a member when the value is an object, else none.
pub open spec fn field_of(v: JsonValue, key: Seq<char>) -> Option<JsonValue> {
    match v {
        JsonValue::Object(entries) => lookup(entries@, key),
        _ => None,
    }
}

/// The first member named `key` from position `i` on, over models.
pub open spec fn model_lookup_from(entries: Seq<(Seq<char>, JsonModel)>, key: Seq<char>, i: int) -> Option<
    JsonModel,
>
    decreases entries.len() - i,
{
    if i < 0 || i >= entries.len() {
        None
    } else if entries[i].0 == key {
        Some(entries[i].1)
    } else {
        model_lookup_from(entries, key, i + 1)
    }
}

/// The field `key` of a value's model: the first member of that name when the
/// value is an object, else none.
pub open spec fn model_field(v: JsonModel, key: Seq<char>) -> Option<JsonModel> {
    match v {
        JsonModel::Object(entries) => model_lookup_from(entries, key, 0),
        _ => None,
    }
}

pub proof fn lemma_lookup_model(entries: Seq<(String, JsonValue)>, key: Seq<char>, i: int)
    requires
        0 <= i <= entries.len(),
    ensures
        lookup_from(entries, key, i) matches Some(v) ==> model_lookup_from(
            model_of_entries(entries),
            key,
            i,
        ) == Some(v.model()),
        lookup_from(entries, key, i) is None ==> model_lookup_from(model_of_entries(entries), key, i)
            is None,
    decreases entries.len() - i,
{
    lemma_model_of_entries(entries);
    if i < entries.len() && entries[i].0@ != key {
        lemma_lookup_model(entries, key, i + 1);
    }
}

/// Whether two values are the same JSON value: objects compare as maps from each
/// name to the value of its first member, arrays item by item, anything else
/// exactly (numbers by their text).
pub open spec fn same_value(a: JsonModel, b: JsonModel) -> bool
    decreases a,
{
    match a {
        JsonModel::Array(xs) => match b {
            JsonModel::Array(ys) => xs.len() == ys.len() && same_items(xs, ys),
            _ => false,
        },
        JsonModel::Object(es) => match b {
            JsonModel::Object(fs) => members_match(es, es, fs) && names_within(fs, es),
            _ => false,
        },
        _ => a == b,
    }
}

/// Whether the items are the same, position by position (for equal lengths).
pub open spec fn same_items(xs: Seq<JsonModel>, ys: Seq<JsonModel>) -> bool
    decreases xs,
{
    if xs.len() == 0 || ys.len() != xs.len() {
        xs.len() == ys.len()
    } else {
        same_items(xs.drop_last(), ys.drop_last()) && same_value(xs.last(), ys.last())
    }
}

/// Whether each member of `part` (a prefix of `all`) has its name in `fs`, and
/// the first member of each name the same value as `fs`'s first of that name.
pub open spec fn members_match(
    all: Seq<(Seq<char>, JsonModel)>,
    part: Seq<(Seq<char>, JsonModel)>,
    fs: Seq<(Seq<char>, JsonModel)>,
) -> bool
    decreases part,
{
    if part.len() == 0 {
        true
    } else {
        let k = part.last().0;
        let j = key_index(fs, k, 0);
        members_match(all, part.drop_last(), fs) && j >= 0 && (key_index(all, k, 0) != part.len() - 1
            || (j < fs.len() && same_value(part.last().1, fs[j].1)))
    }
}

/// Whether every name of `fs` names a member of `es`.
pub open spec fn names_within(fs: Seq<(Seq<char>, JsonModel)>, es: Seq<(Seq<char>, JsonModel)>) -> bool {
    forall|j: int| 0 <= j < fs.len() ==> key_index(es, #[trigger] fs[j].0, 0) >= 0
}

/// The first position from `i` on of a member named `key`, or -1.
pub open spec fn key_index(es: Seq<(Seq<char>, JsonModel)>, key: Seq<char>, i: int) -> int
    decreases es.len() - i,
{
    if i < 0 || i >= es.len() {
        -1
    } else if es[i].0 == key {
        i
    } else {
        key_index(es, key, i + 1)
    }
}

pub proof fn lemma_key_index_range(es: Seq<(Seq<char>, JsonModel)>, key: Seq<char>, i: int)
    requires
        0 <= i,
    ensures
        -1 <= key_index(es, key, i) < es.len(),
        key_index(es, key, i) >= 0 ==> es[key_index(es, key, i)].0 == key,
    decreases es.len() - i,
{
    if i < es.len() && es[i].0 != key {
        lemma_key_index_range(es, key, i + 1);
    }
}


/// Text equality of two strings.
pub fn str_equal(a: &str, b: &str) -> (r: bool)
    ensures
        r == (a@ == b@),
{
    let x: String = a.to_owned();
    let y: String = b.to_owned();
    x.eq(&y)
}

/// The first member named `key`.
pub fn lookup_entry<'a>(entries: &'a Vec<(String, JsonValue)>, key: &str) -> (r: Option<&'a JsonValue>)
    ensures
        r matches Some(v) ==> lookup(entries@, key@) == Some(*v),
        r is None ==> lookup(entries@, key@) is None,
{
    let mut i: usize = 0;
    while i < entries.len()
        invariant
            0 <= i <= entries.len(),
            lookup_from(entries@, key@, 0) == lookup_from(entries@, key@, i as int),
        decreases entries.len() - i,
    {
        if str_equal(entries[i].0.as_str(), key) {
            return Some(&entries[i].1);
        }
        i = i + 1;
    }
    None
}

impl JsonValue {
    pub open spec fn model(self) -> JsonModel
        decreases self,
    {
        match self {
            JsonValue::Null => JsonModel::Null,
            JsonValue::Bool(b) => JsonModel::Bool(b),
            JsonValue::Number(t) => JsonModel::Number(t@),
            JsonValue::String(s) => JsonModel::Str(s@),
            JsonValue::Array(items) => JsonModel::Array(model_of_items(items@)),
            JsonValue::Object(entries) => JsonModel::Object(model_of_entries(entries@)),
        }
    }

    /// The field `key`: a member when this value is an object, else none.
    pub fn get(&self, key: &str) -> (r: Option<&JsonValue>)
        ensures
            r matches Some(v) ==> field_of(*self, key@) == Some(*v),
            r is None ==> field_of(*self, key@) is None,
            r matches Some(v) ==> model_field(self.model(), key@) == Some(v.model()),
            r is None ==> model_field(self.model(), key@) is None,
    {
        proof {
            if let JsonValue::Object(entries) = self {
                lemma_lookup_model(entries@, key@, 0);
            }
        }
        match self {
            JsonValue::Object(entries) => lookup_entry(entries, key),
            _ => None,
        }
    }

    /// A copy with the same model.
    pub fn duplicate(&self) -> (r: JsonValue)
        ensures
            r.model() == self.model(),
        decreases self,
    {
        match self {
            JsonValue::Null => JsonValue::Null,
            JsonValue::Bool(b) => JsonValue::Bool(*b),
            JsonValue::Number(t) => JsonValue::Number(t.clone()),
            JsonValue::String(s) => JsonValue::String(s.clone()),
            JsonValue::Array(items) => {
                let out = duplicate_items(items);
                JsonValue::Array(out)
            },
            JsonValue::Object(entries) => {
                let out = duplicate_entries(entries);
                JsonValue::Object(out)
            },
        }
    }

    /// Whether the two values are the same JSON value (see [`same_value`]).
    pub fn same_as(&self, other: &JsonValue) -> (r: bool)
        ensures
            r == same_value(self.model(), other.model()),
        decreases self,
    {
        match self {
            JsonValue::Null => matches!(other, JsonValue::Null),
            JsonValue::Bool(a) => match other {
                JsonValue::Bool(b) => *a == *b,
                _ => false,
            },
            JsonValue::Number(a) => match other {
                JsonValue::Number(b) => a.eq(b),
                _ => false,
            },
            JsonValue::String(a) => match other {
                JsonValue::String(b) => a.eq(b),
                _ => false,
            },
            JsonValue::Array(a) => match other {
                JsonValue::Array(b) => items_same(a, b),
                _ => false,
            },
            JsonValue::Object(a) => match other {
                JsonValue::Object(b) => {
                    let m = members_same(a, b);
                    if !m {
                        return false;
                    }
                    names_within_exec(b, a)
                },
                _ => false,
            },
        }
    }
}

impl PartialEq for JsonValue {
    fn eq(&self, other: &JsonValue) -> (r: bool)
        ensures
            r == same_value(self.model(), other.model()),
    {
        self.same_as(other)
    }
}

impl vstd::std_specs::cmp::PartialEqSpecImpl for JsonValue {
    open spec fn obeys_eq_spec() -> bool {
        false
    }

    open spec fn eq_spec(&self, other: &JsonValue) -> bool {
        same_value(self.model(), other.model())
    }
}

impl Clone for JsonValue {
    fn clone(&self) -> (r: JsonValue)
        ensures
            r.model() == self.model(),
    {
        self.duplicate()
    }
}

/// Copies of the members, each with the same name and model.
pub fn duplicate_entries(entries: &Vec<(String, JsonValue)>) -> (r: Vec<(String, JsonValue)>)
    ensures
        model_of_entries(r@) == model_of_entries(entries@),
    decreases entries,
{
    let mut out: Vec<(String, JsonValue)> = Vec::new();
    let mut i: usize = 0;
    while i < entries.len()
        invariant
            0 <= i <= entries.len(),
            out@.len() == i,
            forall|j: int|
                0 <= j < i ==> #[trigger] out@[j].0@ == entries@[j].0@ && out@[j].1.model()
                    == entries@[j].1.model(),
        decreases entries.len() - i,
    {
        let v = entries[i].1.duplicate();
        out.push((entries[i].0.clone(), v));
        i = i + 1;
    }
    proof {
        lemma_model_of_entries(out@);
        lemma_model_of_entries(entries@);
        assert(model_of_entries(out@) =~= model_of_entries(entries@));
    }
    out
}

fn items_same(a: &Vec<JsonValue>, b: &Vec<JsonValue>) -> (r: bool)
    ensures
        r == (model_of_items(a@).len() == model_of_items(b@).len() && same_items(
            model_of_items(a@),
            model_of_items(b@),
        )),
    decreases a,
{
    proof {
        lemma_model_of_items(a@);
        lemma_model_of_items(b@);
    }
    if a.len() != b.len() {
        return false;
    }
    let ghost ma = model_of_items(a@);
    let ghost mb = model_of_items(b@);
    let mut i: usize = 0;
    assert(ma.subrange(0, 0) =~= Seq::<JsonModel>::empty());
    while i < a.len()
        invariant
            i <= a@.len(),
            a@.len() == b@.len(),
            ma == model_of_items(a@),
            mb == model_of_items(b@),
            ma.len() == a@.len(),
            mb.len() == b@.len(),
            forall|j: int| 0 <= j < a@.len() ==> #[trigger] ma[j] == a@[j].model(),
            forall|j: int| 0 <= j < b@.len() ==> #[trigger] mb[j] == b@[j].model(),
            same_items(ma.subrange(0, i as int), mb.subrange(0, i as int)),
        decreases a.len() - i,
    {
        assert(ma.subrange(0, i + 1).drop_last() =~= ma.subrange(0, i as int));
        assert(mb.subrange(0, i + 1).drop_last() =~= mb.subrange(0, i as int));
        if !a[i].same_as(&b[i]) {
            proof {
                lemma_same_items_prefix(ma, mb, i + 1, ma.len() as int);
                assert(ma.subrange(0, ma.len() as int) =~= ma);
                assert(mb.subrange(0, mb.len() as int) =~= mb);
            }
            return false;
        }
        i = i + 1;
    }
    assert(ma.subrange(0, i as int) =~= ma);
    assert(mb.subrange(0, i as int) =~= mb);
    true
}

proof fn lemma_same_items_prefix(xs: Seq<JsonModel>, ys: Seq<JsonModel>, i: int, j: int)
    requires
        0 < i <= j <= xs.len(),
        xs.len() == ys.len(),
        !same_items(xs.subrange(0, i), ys.subrange(0, i)),
    ensures
        !same_items(xs.subrange(0, j), ys.subrange(0, j)),
    decreases j - i,
{
    if j > i {
        lemma_same_items_prefix(xs, ys, i, j - 1);
        assert(xs.subrange(0, j).drop_last() =~= xs.subrange(0, j - 1));
        assert(ys.subrange(0, j).drop_last() =~= ys.subrange(0, j - 1));
    }
}

proof fn lemma_members_prefix(all: Seq<(Seq<char>, JsonModel)>, fs: Seq<(Seq<char>, JsonModel)>, i: int, j: int)
    requires
        0 < i <= j <= all.len(),
        !members_match(all, all.subrange(0, i), fs),
    ensures
        !members_match(all, all.subrange(0, j), fs),
    decreases j - i,
{
    if j > i {
        lemma_members_prefix(all, fs, i, j - 1);
        assert(all.subrange(0, j).drop_last() =~= all.subrange(0, j - 1));
    }
}

/// Whether every member of `a` has a name present in `b` and, for the first
/// member of each name, a value that is the same as `b`'s first of that name.
fn members_same(a: &Vec<(String, JsonValue)>, b: &Vec<(String, JsonValue)>) -> (r: bool)
    ensures
        r == members_match(model_of_entries(a@), model_of_entries(a@), model_of_entries(b@)),
    decreases a,
{
    let ghost ma = model_of_entries(a@);
    let ghost mb = model_of_entries(b@);
    proof {
        lemma_model_of_entries(a@);
        lemma_model_of_entries(b@);
    }
    let mut i: usize = 0;
    assert(ma.subrange(0, 0) =~= Seq::<(Seq<char>, JsonModel)>::empty());
    while i < a.len()
        invariant
            i <= a@.len(),
            ma == model_of_entries(a@),
            mb == model_of_entries(b@),
            ma.len() == a@.len(),
            mb.len() == b@.len(),
            forall|j: int| 0 <= j < a@.len() ==> #[trigger] ma[j] == (a@[j].0@, a@[j].1.model()),
            forall|j: int| 0 <= j < b@.len() ==> #[trigger] mb[j] == (b@[j].0@, b@[j].1.model()),
            members_match(ma, ma.subrange(0, i as int), mb),
        decreases a.len() - i,
    {
        let ghost part = ma.subrange(0, i + 1);
        assert(part.drop_last() =~= ma.subrange(0, i as int));
        assert(part.last() == ma[i as int]);
        let key = a[i].0.as_str();
        let ok = match key_position(b, key) {
            None => false,
            Some(j) => {
                match key_position(a, key) {
                    Some(first) => {
                        if first == i {
                            a[i].1.same_as(&b[j].1)
                        } else {
                            true
                        }
                    },
                    None => true,
                }
            },
        };
        if !ok {
            proof {
                lemma_members_prefix(ma, mb, i + 1, ma.len() as int);
                assert(ma.subrange(0, ma.len() as int) =~= ma);
            }
            return false;
        }
        i = i + 1;
    }
    assert(ma.subrange(0, i as int) =~= ma);
    true
}

/// Whether every name of `b` is the name of some member of `a`.
fn names_within_exec(b: &Vec<(String, JsonValue)>, a: &Vec<(String, JsonValue)>) -> (r: bool)
    ensures
        r == names_within(model_of_entries(b@), model_of_entries(a@)),
{
    let ghost ma = model_of_entries(a@);
    let ghost mb = model_of_entries(b@);
    proof {
        lemma_model_of_entries(b@);
    }
    let mut i: usize = 0;
    while i < b.len()
        invariant
            i <= b@.len(),
            ma == model_of_entries(a@),
            mb == model_of_entries(b@),
            mb.len() == b@.len(),
            forall|j: int| 0 <= j < b@.len() ==> #[trigger] mb[j] == (b@[j].0@, b@[j].1.model()),
            forall|j: int| 0 <= j < i ==> key_index(ma, #[trigger] mb[j].0, 0) >= 0,
        decreases b.len() - i,
    {
        if key_position(a, b[i].0.as_str()).is_none() {
            assert(key_index(ma, mb[i as int].0, 0) < 0);
            return false;
        }
        i = i + 1;
    }
    true
}

/// The position of the first member named `key`.
pub fn key_position(es: &Vec<(String, JsonValue)>, key: &str) -> (r: Option<usize>)
    ensures
        r matches Some(k) ==> key_index(model_of_entries(es@), key@, 0) == k && k < es@.len(),
        r is None ==> key_index(model_of_entries(es@), key@, 0) == -1,
{
    let ghost m = model_of_entries(es@);
    proof {
        lemma_model_of_entries(es@);
    }
    let mut i: usize = 0;
    while i < es.len()
        invariant
            i <= es.len(),
            m == model_of_entries(es@),
            m.len() == es@.len(),
            forall|j: int| 0 <= j < es@.len() ==> #[trigger] m[j] == (es@[j].0@, es@[j].1.model()),
            key_index(m, key@, 0) == key_index(m, key@, i as int),
        decreases es.len() - i,
    {
        if str_equal(es[i].0.as_str(), key) {
            return Some(i);
        }
        i = i + 1;
    }
    None
}

/// Copies of the items, each with the same model.
pub fn duplicate_items(items: &Vec<JsonValue>) -> (r: Vec<JsonValue>)
    ensures
        model_of_items(r@) == model_of_items(items@),
        r@.len() == items@.len(),
        forall|j: int| 0 <= j < items@.len() ==> #[trigger] r@[j].model() == items@[j].model(),
    decreases items,
{
    let mut out: Vec<JsonValue> = Vec::new();
    let mut i: usize = 0;
    while i < items.len()
        invariant
            0 <= i <= items.len(),
            out@.len() == i,
            forall|j: int| 0 <= j < i ==> #[trigger] out@[j].model() == items@[j].model(),
        decreases items.len() - i,
    {
        let v = items[i].duplicate();
        out.push(v);
        i = i + 1;
    }
    proof {
        lemma_model_of_items(out@);
        lemma_model_of_items(items@);
        assert(model_of_items(out@) =~= model_of_items(items@));
    }
    out
}

/// Loose equality of two values (see [`loose_eq`]).
pub fn values_equal(a: &JsonValue, b: &JsonValue) -> (r: bool)
    ensures
        r == loose_eq(a.model(), b.model()),
{
    if a.same_as(b) {
        return true;
    }
    match a {
        JsonValue::String(s) => text_matches_value(s, b),
        _ => match b {
            JsonValue::String(s) => text_matches_value(s, a),
            _ => false,
        },
    }
}

fn text_matches_value(s: &String, other: &JsonValue) -> (r: bool)
    ensures
        r == text_matches(s@, other.model()),
{
    match other {
        JsonValue::Bool(b) => {
            if *b {
                str_equal(s.as_str(), "true")
            } else {
                str_equal(s.as_str(), "false")
            }
        },
        JsonValue::Number(n) => s.eq(n),
        JsonValue::String(t) => s.eq(t),
        _ => false,
    }
}

} // verus!

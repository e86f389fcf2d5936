//! RDF triples as the rule parser reads them, and the queries it makes of them:
//! the objects of a subject and predicate, typed first objects, language choice of
//! literals, predicate listings and RDF lists.

use vstd::prelude::*;

use crate::json::str_equal;
use crate::names::{insert_name, strictly_sorted, texts};
use crate::shacl_ast::iri_local_name;
use oxrdf::{NamedOrBlankNode as Nb, Term};
use oxttl::TurtleParser;

verus! {

broadcast use vstd::std_specs::vec::group_vec_axioms;

/// An RDF term.
#[derive(Debug, PartialEq)]
pub enum RdfTerm {
    /// A named node, by its IRI.
    Iri(String),
    /// A blank node, by its label.
    Blank(String),
    /// A literal: its lexical form and its language tag, if any.
    Literal { value: String, language: Option<String> },
}

/// An RDF triple.
#[derive(Debug, PartialEq)]
pub struct RdfTriple {
    pub subject: RdfTerm,
    pub predicate: String,
    pub object: RdfTerm,
}

/// The mathematical model of an [`RdfTerm`].
pub ghost enum TermModel {
    Iri(Seq<char>),
    Blank(Seq<char>),
    Literal(Seq<char>, Option<Seq<char>>),
}

/// A triple with its subject's key.
pub type KeyedTriple = (Seq<char>, Seq<char>, TermModel);

pub open spec fn opt_text(o: Option<String>) -> Option<Seq<char>> {
    match o {
        Some(s) => Some(s@),
        None => None,
    }
}

impl RdfTerm {
    pub open spec fn model(self) -> TermModel {
        match self {
            RdfTerm::Iri(i) => TermModel::Iri(i@),
            RdfTerm::Blank(b) => TermModel::Blank(b@),
            RdfTerm::Literal { value, language } => TermModel::Literal(value@, opt_text(language)),
        }
    }

    pub fn duplicate(&self) -> (r: RdfTerm)
        ensures
            r.model() == self.model(),
    {
        match self {
            RdfTerm::Iri(i) => RdfTerm::Iri(i.clone()),
            RdfTerm::Blank(b) => RdfTerm::Blank(b.clone()),
            RdfTerm::Literal { value, language } => RdfTerm::Literal {
                value: value.clone(),
                language: match language {
                    Some(l) => Some(l.clone()),
                    None => None,
                },
            },
        }
    }
}

impl RdfTriple {
    pub open spec fn model(self) -> (TermModel, Seq<char>, TermModel) {
        (self.subject.model(), self.predicate@, self.object.model())
    }
}

/// Whether the Turtle reader reads a document to its end without a syntax error.
/// This depends on the text alone. The labels that the reader gives anonymous
/// blank nodes do not, so nothing is named of the triples themselves.
pub uninterp spec fn turtle_accepts(text: Seq<char>) -> bool;

/// The models of the triples.
pub open spec fn triple_models(ts: Seq<RdfTriple>) -> Seq<(TermModel, Seq<char>, TermModel)> {
    ts.map_values(|t: RdfTriple| t.model())
}

/// Relies on `oxttl::TurtleParser` (reading from bytes): the triples of the
/// document in the order the parser yields them, or the message of the first
/// error it reports, an error exactly when the text is no Turtle; subjects and
/// objects are copied term by term. Anonymous blank nodes get fresh labels on
/// every call, so nothing is claimed of the triples.
#[verifier::external_body]
pub(crate) fn parse_turtle(text: &str) -> (r: Result<Vec<RdfTriple>, String>)
    ensures
        r is Ok <==> turtle_accepts(text@),
{
    let mut out = Vec::new();
    for item in TurtleParser::new().for_reader(text.as_bytes()) {
        let t = item.map_err(|e| e.to_string())?;
        let subject = match t.subject {
            Nb::NamedNode(n) => RdfTerm::Iri(n.into_string()),
            Nb::BlankNode(b) => RdfTerm::Blank(b.into_string()),
        };
        let object = match t.object {
            Term::NamedNode(n) => RdfTerm::Iri(n.into_string()),
            Term::BlankNode(b) => RdfTerm::Blank(b.into_string()),
            Term::Literal(l) => { let (value, _, language) = l.destruct(); RdfTerm::Literal { value, language } },
        };
        out.push(RdfTriple { subject, predicate: t.predicate.into_string(), object });
    }
    Ok(out)
}

/// The key of a term: the IRI of a named node, `_:` and the label of a blank
/// node, the lexical form of a literal.
pub open spec fn term_key(t: TermModel) -> Seq<char> {
    match t {
        TermModel::Iri(i) => i,
        TermModel::Blank(b) => "_:"@ + b,
        TermModel::Literal(v, _) => v,
    }
}

/// The triples with their subjects' keys.
pub open spec fn keyed(ts: Seq<(TermModel, Seq<char>, TermModel)>) -> Seq<KeyedTriple> {
    ts.map_values(|t: (TermModel, Seq<char>, TermModel)| (term_key(t.0), t.1, t.2))
}

/// The objects of the triples with subject key `s` and predicate `p`, in order.
pub open spec fn objects(k: Seq<KeyedTriple>, s: Seq<char>, p: Seq<char>) -> Seq<TermModel>
    decreases k.len(),
{
    if k.len() == 0 {
        Seq::empty()
    } else if k.last().0 == s && k.last().1 == p {
        objects(k.drop_last(), s, p).push(k.last().2)
    } else {
        objects(k.drop_last(), s, p)
    }
}

pub open spec fn first_object(k: Seq<KeyedTriple>, s: Seq<char>, p: Seq<char>) -> Option<TermModel> {
    let os = objects(k, s, p);
    if os.len() > 0 {
        Some(os[0])
    } else {
        None
    }
}

/// The text of the first object: an IRI or a literal's lexical form.
pub open spec fn first_str(k: Seq<KeyedTriple>, s: Seq<char>, p: Seq<char>) -> Option<Seq<char>> {
    match first_object(k, s, p) {
        Some(TermModel::Iri(i)) => Some(i),
        Some(TermModel::Literal(v, _)) => Some(v),
        _ => None,
    }
}

/// The lexical form of the first object, when that object is a literal.
pub open spec fn first_literal(k: Seq<KeyedTriple>, s: Seq<char>, p: Seq<char>) -> Option<Seq<char>> {
    match first_object(k, s, p) {
        Some(TermModel::Literal(v, _)) => Some(v),
        _ => None,
    }
}

/// The literal objects, in order.
pub open spec fn literals_of(os: Seq<TermModel>) -> Seq<(Seq<char>, Option<Seq<char>>)>
    decreases os.len(),
{
    if os.len() == 0 {
        Seq::empty()
    } else {
        match os.last() {
            TermModel::Literal(v, l) => literals_of(os.drop_last()).push((v, l)),
            _ => literals_of(os.drop_last()),
        }
    }
}

/// The first position from `i` on of a literal tagged `lang` (or untagged, for
/// `None`), or -1.
pub open spec fn tagged_from(ls: Seq<(Seq<char>, Option<Seq<char>>)>, lang: Option<Seq<char>>, i: int) -> int
    decreases ls.len() - i,
{
    if i < 0 || i >= ls.len() {
        -1
    } else if ls[i].1 == lang {
        i
    } else {
        tagged_from(ls, lang, i + 1)
    }
}

/// The literal chosen for a language: one tagged with exactly that language,
/// else an untagged one, else the first; the first of each kind.
pub open spec fn literal_for_language(k: Seq<KeyedTriple>, s: Seq<char>, p: Seq<char>, language: Seq<char>) -> Option<
    Seq<char>,
> {
    let ls = literals_of(objects(k, s, p));
    let exact = tagged_from(ls, Some(language), 0);
    let untagged = tagged_from(ls, None, 0);
    if ls.len() == 0 {
        None
    } else if exact >= 0 {
        Some(ls[exact].0)
    } else if untagged >= 0 {
        Some(ls[untagged].0)
    } else {
        Some(ls[0].0)
    }
}

/// The local name of an IRI, or the IRI itself where it has none.
pub open spec fn local_or_whole(iri: Seq<char>) -> Seq<char> {
    match iri_local_name(iri) {
        Some(n) => n,
        None => iri,
    }
}

/// The local names of the predicates on subject `s`.
pub open spec fn predicate_names(k: Seq<KeyedTriple>, s: Seq<char>) -> Set<Seq<char>> {
    Set::new(|n: Seq<char>| exists|i: int| 0 <= i < k.len() && #[trigger] k[i].0 == s && local_or_whole(k[i].1) == n)
}

/// The local names of the predicates on subject `s` among the first `i` triples.
pub open spec fn names_upto(k: Seq<KeyedTriple>, s: Seq<char>, i: int) -> Set<Seq<char>> {
    Set::new(|n: Seq<char>| exists|j: int| 0 <= j < i && #[trigger] k[j].0 == s && local_or_whole(k[j].1) == n)
}

proof fn lemma_names_upto_step(k: Seq<KeyedTriple>, s: Seq<char>, i: int)
    requires
        0 <= i < k.len(),
    ensures
        names_upto(k, s, i + 1) == if k[i].0 == s {
            names_upto(k, s, i).insert(local_or_whole(k[i].1))
        } else {
            names_upto(k, s, i)
        },
{
    let next = names_upto(k, s, i + 1);
    let prev = names_upto(k, s, i);
    let expected = if k[i].0 == s { prev.insert(local_or_whole(k[i].1)) } else { prev };
    assert forall|x: Seq<char>| next.contains(x) <==> expected.contains(x) by {
        if next.contains(x) {
            let j = choose|j: int| 0 <= j < i + 1 && #[trigger] k[j].0 == s && local_or_whole(k[j].1) == x;
            if j < i {
                assert(prev.contains(x));
            }
        }
        if prev.contains(x) {
            let j = choose|j: int| 0 <= j < i && #[trigger] k[j].0 == s && local_or_whole(k[j].1) == x;
            assert(next.contains(x));
        }
        if k[i].0 == s && x == local_or_whole(k[i].1) {
            assert(next.contains(x));
        }
    }
    assert(next =~= expected);
}

/// The items of the RDF list that starts at `head`, following at most `fuel` links:
/// a list stops at `rdf:nil`, or where a node lacks `rdf:first` or `rdf:rest`
/// (the item of a node without `rdf:rest` is kept).
pub open spec fn list_items(k: Seq<KeyedTriple>, head: TermModel, fuel: nat) -> Seq<TermModel>
    decreases fuel,
{
    let key = term_key(head);
    if fuel == 0 || key == RDF_NIL@ {
        Seq::empty()
    } else {
        match first_object(k, key, RDF_FIRST@) {
            None => Seq::empty(),
            Some(item) => match first_object(k, key, RDF_REST@) {
                None => seq![item],
                Some(rest) => seq![item] + list_items(k, rest, (fuel - 1) as nat),
            },
        }
    }
}

pub const RDF_TYPE: &'static str = "http://www.w3.org/1999/02/22-rdf-syntax-ns#type";

pub const RDF_FIRST: &'static str = "http://www.w3.org/1999/02/22-rdf-syntax-ns#first";

pub const RDF_REST: &'static str = "http://www.w3.org/1999/02/22-rdf-syntax-ns#rest";

pub const RDF_NIL: &'static str = "http://www.w3.org/1999/02/22-rdf-syntax-ns#nil";

// ── The store ────────────────────────────────────────────────────────

/// The triples of a document, each with its subject's key.
pub struct TripleStore {
    pub triples: Vec<(String, String, RdfTerm)>,
}

impl TripleStore {
    pub open spec fn model(self) -> Seq<KeyedTriple> {
        self.triples@.map_values(|t: (String, String, RdfTerm)| (t.0@, t.1@, t.2.model()))
    }

    /// The store of the triples.
    pub fn new(ts: Vec<RdfTriple>) -> (r: TripleStore)
        ensures
            r.model() == keyed(triple_models(ts@)),
    {
        let ghost orig = ts@;
        let mut rest = ts;
        let mut out: Vec<(String, String, RdfTerm)> = Vec::new();
        let ghost mut n: int = 0;
        while rest.len() > 0
            invariant
                0 <= n <= orig.len(),
                rest@ == orig.subrange(n, orig.len() as int),
                out@.map_values(|t: (String, String, RdfTerm)| (t.0@, t.1@, t.2.model())) == keyed(
                    orig.subrange(0, n).map_values(|t: RdfTriple| t.model()),
                ),
            decreases rest@.len(),
        {
            let t = rest.remove(0);
            let ghost before = out@;
            let key = term_key_exec(&t.subject);
            out.push((key, t.predicate, t.object));
            proof {
                assert(orig[n] == t);
                assert(orig.subrange(0, n + 1) =~= orig.subrange(0, n).push(t));
                let prev = orig.subrange(0, n).map_values(|t: RdfTriple| t.model());
                let next = orig.subrange(0, n + 1).map_values(|t: RdfTriple| t.model());
                assert(next =~= prev.push(t.model()));
                assert(keyed(next) =~= keyed(prev).push((term_key(t.subject.model()), t.predicate@, t.object.model())));
                assert(out@.map_values(|t: (String, String, RdfTerm)| (t.0@, t.1@, t.2.model())) =~= before.map_values(|t: (String, String, RdfTerm)| (t.0@, t.1@, t.2.model())).push((term_key(t.subject.model()), t.predicate@, t.object.model())));
                assert(out@.map_values(|t: (String, String, RdfTerm)| (t.0@, t.1@, t.2.model()))
                    =~= keyed(orig.subrange(0, n + 1).map_values(|t: RdfTriple| t.model())));
                n = n + 1;
                assert(rest@ =~= orig.subrange(n, orig.len() as int));
            }
        }
        proof {
            assert(orig.subrange(0, n) =~= orig);
        }
        TripleStore { triples: out }
    }

    /// The objects of subject `s` and predicate `p` (see [`objects`]).
    pub fn objects(&self, s: &str, p: &str) -> (r: Vec<&RdfTerm>)
        ensures
            r@.map_values(|t: &RdfTerm| t.model()) == objects(self.model(), s@, p@),
    {
        let ghost m = self.model();
        let mut out: Vec<&RdfTerm> = Vec::new();
        let mut i: usize = 0;
        assert(m.subrange(0, 0) =~= Seq::<KeyedTriple>::empty());
        while i < self.triples.len()
            invariant
                i <= self.triples@.len(),
                m == self.model(),
                m.len() == self.triples@.len(),
                out@.map_values(|t: &RdfTerm| t.model()) == objects(m.subrange(0, i as int), s@, p@),
            decreases self.triples.len() - i,
        {
            assert(m.subrange(0, i + 1).drop_last() =~= m.subrange(0, i as int));
            assert(m[i as int] == (self.triples@[i as int].0@, self.triples@[i as int].1@, self.triples@[i as int].2.model()));
            if str_equal(self.triples[i].0.as_str(), s) && str_equal(self.triples[i].1.as_str(), p) {
                let ghost before = out@;
                out.push(&self.triples[i].2);
                assert(out@.map_values(|t: &RdfTerm| t.model()) =~= before.map_values(|t: &RdfTerm| t.model()).push(self.triples@[i as int].2.model()));
            }
            i = i + 1;
        }
        assert(m.subrange(0, i as int) =~= m);
        out
    }

    /// The first object of subject `s` and predicate `p`.
    pub fn first_object(&self, s: &str, p: &str) -> (r: Option<&RdfTerm>)
        ensures
            r matches Some(t) ==> first_object(self.model(), s@, p@) == Some(t.model()),
            r is None ==> first_object(self.model(), s@, p@) is None,
    {
        let os = self.objects(s, p);
        if os.len() > 0 {
            assert(os@.map_values(|t: &RdfTerm| t.model())[0] == os@[0].model());
            Some(os[0])
        } else {
            None
        }
    }

    /// The text of the first object (see [`first_str`]).
    pub fn first_str(&self, s: &str, p: &str) -> (r: Option<String>)
        ensures
            opt_text(r) == first_str(self.model(), s@, p@),
    {
        match self.first_object(s, p) {
            Some(RdfTerm::Iri(i)) => Some(i.clone()),
            Some(RdfTerm::Literal { value, .. }) => Some(value.clone()),
            _ => None,
        }
    }

    /// The lexical form of the first object, when it is a literal.
    pub fn first_literal(&self, s: &str, p: &str) -> (r: Option<String>)
        ensures
            opt_text(r) == first_literal(self.model(), s@, p@),
    {
        match self.first_object(s, p) {
            Some(RdfTerm::Literal { value, .. }) => Some(value.clone()),
            _ => None,
        }
    }
}

impl TripleStore {
    /// The literal chosen for a language (see [`literal_for_language`]).
    pub fn literal_for_language(&self, s: &str, p: &str, language: &str) -> (r: Option<String>)
        ensures
            opt_text(r) == literal_for_language(self.model(), s@, p@, language@),
    {
        let os = self.objects(s, p);
        let ghost om = os@.map_values(|t: &RdfTerm| t.model());
        let mut lits: Vec<(String, Option<String>)> = Vec::new();
        let mut i: usize = 0;
        assert(om.subrange(0, 0) =~= Seq::<TermModel>::empty());
        while i < os.len()
            invariant
                i <= os@.len(),
                om == os@.map_values(|t: &RdfTerm| t.model()),
                lits@.map_values(|l: (String, Option<String>)| (l.0@, opt_text(l.1))) == literals_of(om.subrange(0, i as int)),
            decreases os.len() - i,
        {
            assert(om.subrange(0, i + 1).drop_last() =~= om.subrange(0, i as int));
            assert(om[i as int] == os@[i as int].model());
            match os[i] {
                RdfTerm::Literal { value, language } => {
                    let ghost before = lits@;
                    let lang = match language {
                        Some(l) => Some(l.clone()),
                        None => None,
                    };
                    lits.push((value.clone(), lang));
                    assert(lits@.map_values(|l: (String, Option<String>)| (l.0@, opt_text(l.1))) =~= before.map_values(|l: (String, Option<String>)| (l.0@, opt_text(l.1))).push((value@, opt_text(*language))));
                },
                _ => {},
            }
            i = i + 1;
        }
        assert(om.subrange(0, i as int) =~= om);
        let ghost lm = lits@.map_values(|l: (String, Option<String>)| (l.0@, opt_text(l.1)));
        if lits.len() == 0 {
            return None;
        }
        let mut k: usize = 0;
        while k < lits.len()
            invariant
                k <= lits@.len(),
                lm == lits@.map_values(|l: (String, Option<String>)| (l.0@, opt_text(l.1))),
                lm == literals_of(objects(self.model(), s@, p@)),
                tagged_from(lm, Some(language@), 0) == tagged_from(lm, Some(language@), k as int),
            decreases lits.len() - k,
        {
            let hit = match &lits[k].1 {
                Some(t) => str_equal(t.as_str(), language),
                None => false,
            };
            assert(lm[k as int] == (lits@[k as int].0@, opt_text(lits@[k as int].1)));
            if hit {
                return Some(lits[k].0.clone());
            }
            k = k + 1;
        }
        let mut k: usize = 0;
        while k < lits.len()
            invariant
                k <= lits@.len(),
                lm == lits@.map_values(|l: (String, Option<String>)| (l.0@, opt_text(l.1))),
                lm == literals_of(objects(self.model(), s@, p@)),
                tagged_from(lm, Some(language@), 0) == -1,
                tagged_from(lm, None, 0) == tagged_from(lm, None, k as int),
            decreases lits.len() - k,
        {
            assert(lm[k as int] == (lits@[k as int].0@, opt_text(lits@[k as int].1)));
            if lits[k].1.is_none() {
                return Some(lits[k].0.clone());
            }
            k = k + 1;
        }
        assert(lm[0] == (lits@[0].0@, opt_text(lits@[0].1)));
        Some(lits[0].0.clone())
    }

    /// The local names of the predicates on a subject, sorted, each once.
    pub fn list_predicates(&self, s: &str) -> (r: Vec<String>)
        ensures
            strictly_sorted(texts(r@)),
            texts(r@).to_set() == predicate_names(self.model(), s@),
    {
        let ghost m = self.model();
        let mut out: Vec<String> = Vec::new();
        let mut i: usize = 0;
        assert(texts(out@).to_set() =~= Set::<Seq<char>>::empty());
        assert(names_upto(m, s@, 0) =~= Set::<Seq<char>>::empty());
        while i < self.triples.len()
            invariant
                i <= self.triples@.len(),
                m == self.model(),
                m.len() == self.triples@.len(),
                strictly_sorted(texts(out@)),
                texts(out@).to_set() == names_upto(m, s@, i as int),
            decreases self.triples.len() - i,
        {
            let ghost before = texts(out@).to_set();
            assert(m[i as int] == (self.triples@[i as int].0@, self.triples@[i as int].1@, self.triples@[i as int].2.model()));
            if str_equal(self.triples[i].0.as_str(), s) {
                let pred = self.triples[i].1.as_str();
                let name = match crate::shacl_ast::local_name_of_iri(pred) {
                    Some(n) => n,
                    None => pred,
                };
                insert_name(&mut out, name);
                proof { lemma_names_upto_step(m, s@, i as int); }
            } else {
                proof { lemma_names_upto_step(m, s@, i as int); }
            }
            i = i + 1;
        }
        assert(names_upto(m, s@, i as int) =~= predicate_names(m, s@));
        out
    }

    /// The items of the RDF list at `head` (see [`list_items`]).
    pub fn collect_rdf_list<'a>(&'a self, head: &'a RdfTerm, fuel: usize) -> (r: Vec<&'a RdfTerm>)
        ensures
            r@.map_values(|t: &RdfTerm| t.model()) == list_items(self.model(), head.model(), fuel as nat),
    {
        let ghost m = self.model();
        let mut out: Vec<&'a RdfTerm> = Vec::new();
        let mut current: &'a RdfTerm = head;
        let mut f: usize = fuel;
        let mut done = false;
        while !done && f > 0
            invariant
                m == self.model(),
                list_items(m, head.model(), fuel as nat) == out@.map_values(|t: &RdfTerm| t.model()) + (
                if done { Seq::<TermModel>::empty() } else { list_items(m, current.model(), f as nat) }),
            decreases (if done { 0int } else { 1int }) + f,
        {
            let ghost before = out@.map_values(|t: &RdfTerm| t.model());
            let key = term_key_exec(current);
            if str_equal(key.as_str(), RDF_NIL) {
                done = true;
                assert(before + Seq::<TermModel>::empty() =~= before);
            } else {
                match self.first_object(key.as_str(), RDF_FIRST) {
                    None => {
                        done = true;
                        assert(before + Seq::<TermModel>::empty() =~= before);
                    },
                    Some(item) => {
                        out.push(item);
                        assert(out@.map_values(|t: &RdfTerm| t.model()) =~= before.push(item.model()));
                        match self.first_object(key.as_str(), RDF_REST) {
                            None => {
                                done = true;
                                assert(before + seq![item.model()] =~= before.push(item.model()) + Seq::<TermModel>::empty());
                            },
                            Some(rest) => {
                                assert(before + (seq![item.model()] + list_items(m, rest.model(), (f - 1) as nat)) =~= before.push(item.model()) + list_items(m, rest.model(), (f - 1) as nat));
                                current = rest;
                                f = f - 1;
                            },
                        }
                    },
                }
            }
        }
        proof {
            if !done {
                assert(list_items(m, current.model(), 0) =~= Seq::<TermModel>::empty());
            }
            assert(out@.map_values(|t: &RdfTerm| t.model()) + Seq::<TermModel>::empty() =~= out@.map_values(|t: &RdfTerm| t.model()));
        }
        out
    }
}

/// The key of a term (see [`term_key`]).
pub fn term_key_exec(t: &RdfTerm) -> (r: String)
    ensures
        r@ == term_key(t.model()),
{
    match t {
        RdfTerm::Iri(i) => i.clone(),
        RdfTerm::Blank(b) => "_:".to_owned().concat(b.as_str()),
        RdfTerm::Literal { value, .. } => value.clone(),
    }
}

} // verus!

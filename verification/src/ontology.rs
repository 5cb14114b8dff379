//! Facts about concepts, and a bounded forward-chaining reasoner over them.

use vstd::prelude::*;
use crate::model::ConceptId;
use crate::okf::{Link, LinkModel, OkfDocument};
use crate::table::{
    before, lemma_before_irreflexive, lemma_before_total, lemma_before_transitive, str_before,
};
use crate::text::{lemma_views_push, str_eq, views};

verus! {

/// What a fact says of its subject.
#[derive(Debug, PartialEq, Eq, PartialOrd, Ord)]
pub enum Object {
    /// Another concept.
    Concept(ConceptId),
    /// Plain text.
    Literal(String),
}

/// Mathematical counterpart of [`Object`].
pub enum ObjectModel {
    Concept(Seq<char>),
    Literal(Seq<char>),
}

impl View for Object {
    type V = ObjectModel;

    open spec fn view(&self) -> ObjectModel {
        match *self {
            Object::Concept(id) => ObjectModel::Concept(id@),
            Object::Literal(s) => ObjectModel::Literal(s@),
        }
    }
}

impl Clone for Object {
    fn clone(&self) -> (r: Self)
        ensures
            r@ == self@,
    {
        match self {
            Object::Concept(id) => Object::Concept(id.clone()),
            Object::Literal(s) => Object::Literal(s.clone()),
        }
    }
}

/// A fact: subject, predicate, object.
#[derive(Debug, PartialEq, Eq, PartialOrd, Ord)]
pub struct Triple {
    pub subject: ConceptId,
    pub predicate: String,
    pub object: Object,
}

/// Mathematical counterpart of [`Triple`].
pub struct TripleModel {
    pub subject: Seq<char>,
    pub predicate: Seq<char>,
    pub object: ObjectModel,
}

impl View for Triple {
    type V = TripleModel;

    open spec fn view(&self) -> TripleModel {
        TripleModel {
            subject: self.subject@,
            predicate: self.predicate@,
            object: self.object@,
        }
    }
}

impl Clone for Triple {
    fn clone(&self) -> (r: Self)
        ensures
            r@ == self@,
    {
        Triple {
            subject: self.subject.clone(),
            predicate: self.predicate.clone(),
            object: self.object.clone(),
        }
    }
}

pub type Triples = Seq<TripleModel>;

/// A copy of a list of facts.
pub fn clone_triples(v: &Vec<Triple>) -> (r: Vec<Triple>)
    ensures
        views(r@) == views(v@),
{
    let mut out: Vec<Triple> = Vec::new();
    let mut i: usize = 0;
    while i < v.len()
        invariant
            i <= v.len(),
            out@.len() == i,
            forall|k: int| 0 <= k < i ==> (#[trigger] out@[k])@ == v@[k]@,
        decreases v.len() - i,
    {
        out.push(v[i].clone());
        i += 1;
    }
    assert(views(out@) =~= views(v@));
    out
}

/// Predicate of a document's type.
pub const RDF_TYPE: &'static str = "rdf:type";

/// Predicate of links without a relation.
pub const RELATED: &'static str = "related";

/// Predicate of tags.
pub const TAG: &'static str = "tag";

// ---------------------------------------------------------------------
// Facts of a document
// ---------------------------------------------------------------------

pub open spec fn link_fact(subject: Seq<char>, l: LinkModel) -> TripleModel {
    TripleModel {
        subject,
        predicate: match l.rel {
            Some(r) => r,
            None => RELATED@,
        },
        object: ObjectModel::Concept(l.target),
    }
}

pub open spec fn literal_fact(
    subject: Seq<char>,
    predicate: Seq<char>,
    text: Seq<char>,
) -> TripleModel {
    TripleModel { subject, predicate, object: ObjectModel::Literal(text) }
}

/// The facts of a document: its type, its tags and its links, in that order.
pub open spec fn document_facts(
    subject: Seq<char>,
    doc_type: Seq<char>,
    tags: Seq<Seq<char>>,
    links: Seq<LinkModel>,
) -> Triples {
    seq![literal_fact(subject, RDF_TYPE@, doc_type)] + Seq::new(
        tags.len(),
        |i: int| literal_fact(subject, TAG@, tags[i]),
    ) + Seq::new(links.len(), |i: int| link_fact(subject, links[i]))
}

fn triple_from_link(subject: &ConceptId, link: &Link) -> (r: Triple)
    ensures
        r@ == link_fact(subject@, link@),
{
    let predicate = match &link.rel {
        Some(r) => r.clone(),
        None => RELATED.to_owned(),
    };
    Triple { subject: subject.clone(), predicate, object: Object::Concept(link.target.clone()) }
}

/// The facts of a document with the given parts.
pub fn facts_of(
    subject: &ConceptId,
    doc_type: &str,
    tags: &Vec<String>,
    links: &Vec<Link>,
) -> (r: Vec<Triple>)
    ensures
        views(r@) == document_facts(subject@, doc_type@, views(tags@), views(links@)),
{
    let ghost want = document_facts(subject@, doc_type@, views(tags@), views(links@));
    let mut out: Vec<Triple> = Vec::new();
    out.push(
        Triple {
            subject: subject.clone(),
            predicate: RDF_TYPE.to_owned(),
            object: Object::Literal(doc_type.to_owned()),
        },
    );
    let mut i: usize = 0;
    assert(views(out@) =~= want.take(1));
    while i < tags.len()
        invariant
            i <= tags.len(),
            want == document_facts(subject@, doc_type@, views(tags@), views(links@)),
            views(out@) == want.take(1 + i),
        decreases tags.len() - i,
    {
        assert(views(tags@)[i as int] == tags@[i as int]@);
        let t = Triple {
            subject: subject.clone(),
            predicate: TAG.to_owned(),
            object: Object::Literal(tags[i].clone()),
        };
        proof {
            lemma_views_push(out@, t);
        }
        out.push(t);
        assert(want[1 + i] == t@);
        i += 1;
        assert(views(out@) =~= want.take(1 + i));
    }
    let mut j: usize = 0;
    while j < links.len()
        invariant
            j <= links.len(),
            want == document_facts(subject@, doc_type@, views(tags@), views(links@)),
            views(out@) == want.take(1 + tags@.len() + j),
        decreases links.len() - j,
    {
        assert(views(links@)[j as int] == links@[j as int]@);
        let t = triple_from_link(subject, &links[j]);
        proof {
            lemma_views_push(out@, t);
        }
        out.push(t);
        assert(want[1 + tags@.len() + j] == t@);
        j += 1;
        assert(views(out@) =~= want.take(1 + tags@.len() + j));
    }
    assert(want.take(want.len() as int) =~= want);
    out
}

/// The facts of a parsed document.
pub fn triples_from_document(subject: &ConceptId, doc: &OkfDocument) -> (r: Vec<Triple>)
    ensures
        views(r@) == document_facts(subject@, doc@.doc_type, doc@.tags, doc@.links),
{
    facts_of(subject, doc.doc_type.as_str(), &doc.tags, &doc.links)
}

// ---------------------------------------------------------------------
// Axioms
// ---------------------------------------------------------------------

/// Everything of the subclass is of the superclass.
#[derive(Debug, PartialEq, Eq)]
pub struct SubClassOf {
    pub subclass: String,
    pub superclass: String,
}

/// Mathematical counterpart of [`SubClassOf`].
pub struct SubClassModel {
    pub subclass: Seq<char>,
    pub superclass: Seq<char>,
}

impl View for SubClassOf {
    type V = SubClassModel;

    open spec fn view(&self) -> SubClassModel {
        SubClassModel { subclass: self.subclass@, superclass: self.superclass@ }
    }
}

/// What is known of a predicate.
#[derive(Debug, PartialEq, Eq)]
pub enum PropertyAxiom {
    /// `(x, sub, y)` gives `(x, sup, y)`.
    SubPropertyOf { sub: String, sup: String },
    /// `(x, p, y)` and `(y, p, z)` give `(x, p, z)`.
    Transitive(String),
    /// `(x, p, y)` gives `(y, p, x)`.
    Symmetric(String),
    /// `(x, property, y)` gives `(y, inverse, x)`.
    InverseOf { property: String, inverse: String },
}

/// Mathematical counterpart of [`PropertyAxiom`].
pub enum AxiomModel {
    SubPropertyOf { sub: Seq<char>, sup: Seq<char> },
    Transitive(Seq<char>),
    Symmetric(Seq<char>),
    InverseOf { property: Seq<char>, inverse: Seq<char> },
}

impl View for PropertyAxiom {
    type V = AxiomModel;

    open spec fn view(&self) -> AxiomModel {
        match *self {
            PropertyAxiom::SubPropertyOf { sub, sup } => AxiomModel::SubPropertyOf {
                sub: sub@,
                sup: sup@,
            },
            PropertyAxiom::Transitive(p) => AxiomModel::Transitive(p@),
            PropertyAxiom::Symmetric(p) => AxiomModel::Symmetric(p@),
            PropertyAxiom::InverseOf { property, inverse } => AxiomModel::InverseOf {
                property: property@,
                inverse: inverse@,
            },
        }
    }
}

/// The axioms to reason with.
#[derive(Debug)]
pub struct Ontology {
    pub classes: Vec<SubClassOf>,
    pub properties: Vec<PropertyAxiom>,
}

/// Mathematical counterpart of [`Ontology`].
pub struct OntologyModel {
    pub classes: Seq<SubClassModel>,
    pub properties: Seq<AxiomModel>,
}

impl View for Ontology {
    type V = OntologyModel;

    open spec fn view(&self) -> OntologyModel {
        OntologyModel { classes: views(self.classes@), properties: views(self.properties@) }
    }
}

pub open spec fn no_axioms() -> OntologyModel {
    OntologyModel { classes: Seq::empty(), properties: Seq::empty() }
}

impl Default for Ontology {
    fn default() -> (r: Ontology)
        ensures
            r@ == no_axioms(),
    {
        let r = Ontology { classes: Vec::new(), properties: Vec::new() };
        assert(r@.classes =~= Seq::empty());
        assert(r@.properties =~= Seq::empty());
        r
    }
}

/// How far reasoning may go.
#[derive(Debug, Clone, Copy, PartialEq, Eq)]
pub struct ReasoningBudget {
    /// Rounds of rules.
    pub max_iterations: usize,
    /// Facts in all, asserted and derived.
    pub max_triples: usize,
}

impl Default for ReasoningBudget {
    fn default() -> (r: ReasoningBudget)
        ensures
            r == (ReasoningBudget { max_iterations: 16, max_triples: 10_000 }),
    {
        ReasoningBudget { max_iterations: 16, max_triples: 10_000 }
    }
}

/// What reasoning arrived at, and whether it was cut short.
#[derive(Debug, PartialEq, Eq)]
pub struct Materialized {
    /// Asserted and derived facts, in ascending order, each once.
    pub triples: Vec<Triple>,
    /// The rounds ran out before nothing new came.
    pub truncated_by_iterations: bool,
    /// There was no room for more facts.
    pub truncated_by_triples: bool,
}

/// Mathematical counterpart of [`Materialized`].
pub struct MaterializedModel {
    pub triples: Triples,
    pub by_iterations: bool,
    pub by_triples: bool,
}

impl View for Materialized {
    type V = MaterializedModel;

    open spec fn view(&self) -> MaterializedModel {
        MaterializedModel {
            triples: views(self.triples@),
            by_iterations: self.truncated_by_iterations,
            by_triples: self.truncated_by_triples,
        }
    }
}

// ---------------------------------------------------------------------
// The order of facts
// ---------------------------------------------------------------------

/// Concepts come before literals; either kind goes by its text.
pub open spec fn object_before(a: ObjectModel, b: ObjectModel) -> bool {
    match (a, b) {
        (ObjectModel::Concept(x), ObjectModel::Concept(y)) => before(x, y),
        (ObjectModel::Literal(x), ObjectModel::Literal(y)) => before(x, y),
        (ObjectModel::Concept(_), ObjectModel::Literal(_)) => true,
        (ObjectModel::Literal(_), ObjectModel::Concept(_)) => false,
    }
}

/// By subject, then predicate, then object.
pub open spec fn fact_before(a: TripleModel, b: TripleModel) -> bool {
    if a.subject != b.subject {
        before(a.subject, b.subject)
    } else if a.predicate != b.predicate {
        before(a.predicate, b.predicate)
    } else {
        object_before(a.object, b.object)
    }
}

/// Facts in ascending order, each once.
pub open spec fn facts_ascend(s: Triples) -> bool {
    forall|i: int, j: int| 0 <= i < j < s.len() ==> fact_before(#[trigger] s[i], #[trigger] s[j])
}

/// How many facts from the front come before `t`.
pub open spec fn fact_rank(s: Triples, t: TripleModel) -> nat
    decreases s.len(),
{
    if s.len() > 0 && fact_before(s[0], t) {
        1 + fact_rank(s.skip(1), t)
    } else {
        0
    }
}

/// `s` with `t` at its place, unless it is there.
pub open spec fn with_fact(s: Triples, t: TripleModel) -> Triples {
    let r = fact_rank(s, t) as int;
    if r < s.len() && s[r] == t {
        s
    } else {
        s.insert(r, t)
    }
}

pub proof fn lemma_fact_order(a: TripleModel, b: TripleModel, c: TripleModel)
    ensures
        !fact_before(a, a),
        fact_before(a, b) || fact_before(b, a) || a == b,
        fact_before(a, b) && fact_before(b, c) ==> fact_before(a, c),
{
    lemma_before_irreflexive(a.subject);
    lemma_before_irreflexive(b.subject);
    lemma_before_irreflexive(a.predicate);
    lemma_before_total(a.subject, b.subject);
    lemma_before_total(a.predicate, b.predicate);
    match a.object {
        ObjectModel::Concept(x) => lemma_before_irreflexive(x),
        ObjectModel::Literal(x) => lemma_before_irreflexive(x),
    }
    match (a.object, b.object) {
        (ObjectModel::Concept(x), ObjectModel::Concept(y)) => lemma_before_total(x, y),
        (ObjectModel::Literal(x), ObjectModel::Literal(y)) => lemma_before_total(x, y),
        _ => {},
    }
    if fact_before(a, b) && fact_before(b, c) {
        if before(a.subject, b.subject) && before(b.subject, c.subject) {
            lemma_before_transitive(a.subject, b.subject, c.subject);
            lemma_before_irreflexive(a.subject);
        }
        if before(a.predicate, b.predicate) && before(b.predicate, c.predicate) {
            lemma_before_transitive(a.predicate, b.predicate, c.predicate);
            lemma_before_irreflexive(a.predicate);
        }
        if a.subject == c.subject {
            lemma_before_total(a.subject, b.subject);
        }
        if a.predicate == c.predicate {
            lemma_before_total(a.predicate, b.predicate);
        }
        match (a.object, b.object, c.object) {
            (ObjectModel::Concept(x), ObjectModel::Concept(y), ObjectModel::Concept(z)) => {
                if before(x, y) && before(y, z) {
                    lemma_before_transitive(x, y, z);
                }
            },
            (ObjectModel::Literal(x), ObjectModel::Literal(y), ObjectModel::Literal(z)) => {
                if before(x, y) && before(y, z) {
                    lemma_before_transitive(x, y, z);
                }
            },
            _ => {},
        }
    }
}

proof fn lemma_fact_rank(s: Triples, t: TripleModel)
    requires
        facts_ascend(s),
    ensures
        fact_rank(s, t) <= s.len(),
        forall|i: int| 0 <= i < fact_rank(s, t) ==> fact_before(#[trigger] s[i], t),
        ({
            let r = fact_rank(s, t) as int;
            !(r < s.len() && s[r] == t) ==> forall|i: int|
                r <= i < s.len() ==> fact_before(t, #[trigger] s[i])
        }),
    decreases s.len(),
{
    if s.len() > 0 {
        if fact_before(s[0], t) {
            let u = s.skip(1);
            assert(facts_ascend(u));
            lemma_fact_rank(u, t);
            let r = fact_rank(s, t) as int;
            assert forall|i: int| 0 <= i < r implies fact_before(#[trigger] s[i], t) by {
                if i > 0 {
                    assert(u[i - 1] == s[i]);
                }
            }
            if !(r < s.len() && s[r] == t) {
                assert(!(r - 1 < u.len() && u[r - 1] == t));
                assert forall|i: int| r <= i < s.len() implies fact_before(t, #[trigger] s[i]) by {
                    assert(u[i - 1] == s[i]);
                }
            }
        } else if s[0] != t {
            assert forall|i: int| 0 <= i < s.len() implies fact_before(t, #[trigger] s[i]) by {
                lemma_fact_order(s[0], t, t);
                lemma_fact_order(t, s[0], s[i]);
            }
        }
    }
}

pub proof fn lemma_with_fact(s: Triples, t: TripleModel)
    requires
        facts_ascend(s),
    ensures
        facts_ascend(with_fact(s, t)),
        forall|x: TripleModel| #[trigger]
            with_fact(s, t).contains(x) <==> s.contains(x) || x == t,
        s.contains(t) ==> with_fact(s, t) == s,
        with_fact(s, t).len() == s.len() + if s.contains(t) {
            0nat
        } else {
            1nat
        },
{
    lemma_fact_rank(s, t);
    let r = fact_rank(s, t) as int;
    let u = with_fact(s, t);
    if r < s.len() && s[r] == t {
        assert(s.contains(t));
    } else {
        assert(u[r] == t);
        if s.contains(t) {
            let k = choose|k: int| 0 <= k < s.len() && s[k] == t;
            lemma_fact_order(t, t, t);
            assert(fact_before(s[k], t) || fact_before(t, s[k]));
        }
        assert forall|i: int, j: int| 0 <= i < j < u.len() implies fact_before(
            #[trigger] u[i],
            #[trigger] u[j],
        ) by {
            if i != r {
                assert(u[i] == s[if i < r { i } else { i - 1 }]);
            }
            if j != r {
                assert(u[j] == s[if j < r { j } else { j - 1 }]);
            }
        }
        assert forall|x: TripleModel| #[trigger] u.contains(x) <==> s.contains(x) || x == t by {
            if s.contains(x) {
                let k = choose|k: int| 0 <= k < s.len() && s[k] == x;
                assert(u[if k < r { k } else { k + 1 }] == x);
            }
            if u.contains(x) && x != t {
                let k = choose|k: int| 0 <= k < u.len() && u[k] == x;
                assert(s[if k < r { k } else { k - 1 }] == x);
            }
        }
    }
}

pub fn object_eq(a: &Object, b: &Object) -> (r: bool)
    ensures
        r == (a@ == b@),
{
    match (a, b) {
        (Object::Concept(x), Object::Concept(y)) => x.same(y),
        (Object::Literal(x), Object::Literal(y)) => str_eq(x.as_str(), y.as_str()),
        _ => false,
    }
}

pub fn fact_eq(a: &Triple, b: &Triple) -> (r: bool)
    ensures
        r == (a@ == b@),
{
    a.subject.same(&b.subject) && str_eq(a.predicate.as_str(), b.predicate.as_str()) && object_eq(
        &a.object,
        &b.object,
    )
}

fn is_fact_before(a: &Triple, b: &Triple) -> (r: bool)
    ensures
        r == fact_before(a@, b@),
{
    if !a.subject.same(&b.subject) {
        str_before(a.subject.as_str(), b.subject.as_str())
    } else if !str_eq(a.predicate.as_str(), b.predicate.as_str()) {
        str_before(a.predicate.as_str(), b.predicate.as_str())
    } else {
        match (&a.object, &b.object) {
            (Object::Concept(x), Object::Concept(y)) => str_before(x.as_str(), y.as_str()),
            (Object::Literal(x), Object::Literal(y)) => str_before(x.as_str(), y.as_str()),
            (Object::Concept(_), Object::Literal(_)) => true,
            (Object::Literal(_), Object::Concept(_)) => false,
        }
    }
}

/// Adds a fact at its place, unless it is there.
pub fn add_fact(s: &mut Vec<Triple>, t: Triple)
    requires
        facts_ascend(views(old(s)@)),
    ensures
        views(final(s)@) == with_fact(views(old(s)@), t@),
{
    let mut i: usize = 0;
    proof {
        lemma_fact_rank(views(s@), t@);
    }
    assert(views(s@).skip(0) =~= views(s@));
    while i < s.len() && is_fact_before(&s[i], &t)
        invariant
            i <= s.len(),
            *s == *old(s),
            fact_rank(views(s@), t@) == i + fact_rank(views(s@).skip(i as int), t@),
        decreases s.len() - i,
    {
        assert(views(s@).skip(i as int).skip(1) =~= views(s@).skip(i + 1));
        i += 1;
    }
    if !(i < s.len() && fact_eq(&s[i], &t)) {
        let ghost tv = t@;
        s.insert(i, t);
        assert(views(s@) =~= views(old(s)@).insert(i as int, tv));
    }
}

/// Whether a list holds a fact.
pub fn has_fact(s: &Vec<Triple>, t: &Triple) -> (r: bool)
    ensures
        r == views(s@).contains(t@),
{
    let mut i: usize = 0;
    while i < s.len()
        invariant
            i <= s.len(),
            forall|k: int| 0 <= k < i ==> (#[trigger] views(s@)[k]) != t@,
        decreases s.len() - i,
    {
        if fact_eq(&s[i], t) {
            assert(views(s@)[i as int] == t@);
            return true;
        }
        i += 1;
    }
    false
}

} // verus!

//! Forward chaining to a fixed point, within a budget.

use vstd::prelude::*;
use crate::model::ConceptId;
use crate::ontology::{
    add_fact, facts_ascend, has_fact, lemma_with_fact, literal_fact, with_fact, AxiomModel,
    Materialized, MaterializedModel, Object, ObjectModel, Ontology, OntologyModel, PropertyAxiom,
    ReasoningBudget, SubClassModel, SubClassOf, Triple, TripleModel, Triples, RDF_TYPE,
};
use crate::text::{lemma_views_push, str_eq, views};

verus! {

// ---------------------------------------------------------------------
// One round of rules
// ---------------------------------------------------------------------

/// What the first `m` class axioms make of one fact.
pub open spec fn classes_of(t: TripleModel, classes: Seq<SubClassModel>, m: int) -> Triples
    decreases m,
{
    if m <= 0 {
        Seq::empty()
    } else {
        let rest = classes_of(t, classes, m - 1);
        if t.predicate == RDF_TYPE@ && t.object == ObjectModel::Literal(classes[m - 1].subclass) {
            rest.push(literal_fact(t.subject, RDF_TYPE@, classes[m - 1].superclass))
        } else {
            rest
        }
    }
}

/// What the class axioms make of the first `n` facts.
pub open spec fn class_round(known: Triples, n: int, classes: Seq<SubClassModel>) -> Triples
    decreases n,
{
    if n <= 0 {
        Seq::empty()
    } else {
        class_round(known, n - 1, classes) + classes_of(
            known[n - 1],
            classes,
            classes.len() as int,
        )
    }
}

/// The first `n` facts with predicate `sub`, said of `sup`.
pub open spec fn renamed(known: Triples, n: int, sub: Seq<char>, sup: Seq<char>) -> Triples
    decreases n,
{
    if n <= 0 {
        Seq::empty()
    } else {
        let rest = renamed(known, n - 1, sub, sup);
        let t = known[n - 1];
        if t.predicate == sub {
            rest.push(TripleModel { predicate: sup, ..t })
        } else {
            rest
        }
    }
}

/// The first `n` facts with predicate `p` between concepts, turned round and
/// said of `q`.
pub open spec fn flipped(known: Triples, n: int, p: Seq<char>, q: Seq<char>) -> Triples
    decreases n,
{
    if n <= 0 {
        Seq::empty()
    } else {
        let rest = flipped(known, n - 1, p, q);
        let t = known[n - 1];
        match t.object {
            ObjectModel::Concept(y) => if t.predicate == p {
                rest.push(
                    TripleModel {
                        subject: y,
                        predicate: q,
                        object: ObjectModel::Concept(t.subject),
                    },
                )
            } else {
                rest
            },
            ObjectModel::Literal(_) => rest,
        }
    }
}

/// The pairs of concepts that the first `n` facts relate by `p`.
pub open spec fn edges(known: Triples, n: int, p: Seq<char>) -> Seq<(Seq<char>, Seq<char>)>
    decreases n,
{
    if n <= 0 {
        Seq::empty()
    } else {
        let rest = edges(known, n - 1, p);
        let t = known[n - 1];
        match t.object {
            ObjectModel::Concept(y) => if t.predicate == p {
                rest.push((t.subject, y))
            } else {
                rest
            },
            ObjectModel::Literal(_) => rest,
        }
    }
}

/// What one edge gives when followed by each of the first `m`.
pub open spec fn hops(
    e: (Seq<char>, Seq<char>),
    es: Seq<(Seq<char>, Seq<char>)>,
    m: int,
    p: Seq<char>,
) -> Triples
    decreases m,
{
    if m <= 0 {
        Seq::empty()
    } else {
        let rest = hops(e, es, m - 1, p);
        if e.1 == es[m - 1].0 {
            rest.push(
                TripleModel {
                    subject: e.0,
                    predicate: p,
                    object: ObjectModel::Concept(es[m - 1].1),
                },
            )
        } else {
            rest
        }
    }
}

/// What the first `n` edges give when followed by any edge.
pub open spec fn chains(es: Seq<(Seq<char>, Seq<char>)>, n: int, p: Seq<char>) -> Triples
    decreases n,
{
    if n <= 0 {
        Seq::empty()
    } else {
        chains(es, n - 1, p) + hops(es[n - 1], es, es.len() as int, p)
    }
}

/// What one property axiom makes of the facts.
pub open spec fn axiom_round(known: Triples, a: AxiomModel) -> Triples {
    let n = known.len() as int;
    match a {
        AxiomModel::SubPropertyOf { sub, sup } => renamed(known, n, sub, sup),
        AxiomModel::Symmetric(p) => flipped(known, n, p, p),
        AxiomModel::InverseOf { property, inverse } => flipped(known, n, property, inverse),
        AxiomModel::Transitive(p) => {
            let es = edges(known, n, p);
            chains(es, es.len() as int, p)
        },
    }
}

pub open spec fn property_round(known: Triples, axioms: Seq<AxiomModel>, n: int) -> Triples
    decreases n,
{
    if n <= 0 {
        Seq::empty()
    } else {
        property_round(known, axioms, n - 1) + axiom_round(known, axioms[n - 1])
    }
}

/// What one round of all the rules gives: classes first, then each property
/// axiom in turn.
pub open spec fn derived(known: Triples, o: OntologyModel) -> Triples {
    class_round(known, known.len() as int, o.classes) + property_round(
        known,
        o.properties,
        o.properties.len() as int,
    )
}

// ---------------------------------------------------------------------
// Rounds to a fixed point
// ---------------------------------------------------------------------

/// `known` with the facts of `ts` from index `i` on, as far as there is room;
/// and whether a new one was left over.
pub open spec fn absorb(known: Triples, ts: Triples, i: int, max: nat) -> (Triples, bool)
    decreases ts.len() - i,
{
    if i < 0 || i >= ts.len() {
        (known, false)
    } else if known.len() >= max && !known.contains(ts[i]) {
        (known, true)
    } else {
        absorb(with_fact(known, ts[i]), ts, i + 1, max)
    }
}

/// Rounds until nothing new comes, the rounds run out or the room does. The
/// rounds cut reasoning short where something is still missing after the last.
pub open spec fn rounds_from(
    known: Triples,
    o: OntologyModel,
    b: ReasoningBudget,
    used: nat,
) -> MaterializedModel
    decreases b.max_iterations - used,
{
    if used >= b.max_iterations {
        MaterializedModel { triples: known, by_iterations: !closed(known, o), by_triples: false }
    } else {
        let (more, full) = absorb(known, derived(known, o), 0, b.max_triples as nat);
        if full {
            MaterializedModel {
                triples: more,
                by_iterations: used + 1 == b.max_iterations,
                by_triples: true,
            }
        } else if more.len() == known.len() {
            MaterializedModel { triples: more, by_iterations: false, by_triples: false }
        } else {
            rounds_from(more, o, b, used + 1)
        }
    }
}

/// What reasoning over `facts` arrives at.
pub open spec fn closure(facts: Triples, o: OntologyModel, b: ReasoningBudget) -> MaterializedModel {
    let (known, full) = absorb(Seq::empty(), facts, 0, b.max_triples as nat);
    if full {
        MaterializedModel {
            triples: known,
            by_iterations: b.max_iterations == 0 && !closed(known, o),
            by_triples: true,
        }
    } else {
        rounds_from(known, o, b, 0)
    }
}

// ---------------------------------------------------------------------
// Meaning of a round
// ---------------------------------------------------------------------

/// `x` follows from `known` by one property axiom.
pub open spec fn axiom_gives(known: Triples, a: AxiomModel, x: TripleModel) -> bool {
    match a {
        AxiomModel::SubPropertyOf { sub, sup } => exists|t: TripleModel| #[trigger]
            known.contains(t) && t.predicate == sub && x == (TripleModel { predicate: sup, ..t }),
        AxiomModel::Symmetric(p) => exists|t: TripleModel| #[trigger]
            known.contains(t) && t.predicate == p && t.object == ObjectModel::Concept(x.subject)
                && x.predicate == p && x.object == ObjectModel::Concept(t.subject),
        AxiomModel::InverseOf { property, inverse } => exists|t: TripleModel| #[trigger]
            known.contains(t) && t.predicate == property && t.object == ObjectModel::Concept(
                x.subject,
            ) && x.predicate == inverse && x.object == ObjectModel::Concept(t.subject),
        AxiomModel::Transitive(p) => exists|t: TripleModel, u: TripleModel| #[trigger]
            known.contains(t) && #[trigger] known.contains(u) && t.predicate == p && u.predicate
                == p && t.object == ObjectModel::Concept(u.subject) && u.object is Concept && x
                == (TripleModel { object: u.object, ..t }),
    }
}

/// `x` follows from `known` by one class axiom.
pub open spec fn class_gives(known: Triples, c: SubClassModel, x: TripleModel) -> bool {
    exists|t: TripleModel| #[trigger]
        known.contains(t) && t.predicate == RDF_TYPE@ && t.object == ObjectModel::Literal(
            c.subclass,
        ) && x == literal_fact(t.subject, RDF_TYPE@, c.superclass)
}

/// `x` follows from `known` in one step.
pub open spec fn follows(known: Triples, o: OntologyModel, x: TripleModel) -> bool {
    ||| exists|i: int| 0 <= i < o.classes.len() && class_gives(known, #[trigger] o.classes[i], x)
    ||| exists|i: int|
        0 <= i < o.properties.len() && axiom_gives(known, #[trigger] o.properties[i], x)
}

proof fn lemma_classes_of(t: TripleModel, classes: Seq<SubClassModel>, m: int, x: TripleModel)
    requires
        0 <= m <= classes.len(),
    ensures
        classes_of(t, classes, m).contains(x) <==> exists|i: int|
            0 <= i < m && t.predicate == RDF_TYPE@ && t.object == ObjectModel::Literal(
                (#[trigger] classes[i]).subclass,
            ) && x == literal_fact(t.subject, RDF_TYPE@, classes[i].superclass),
    decreases m,
{
    if m > 0 {
        lemma_classes_of(t, classes, m - 1, x);
        let rest = classes_of(t, classes, m - 1);
        let all = classes_of(t, classes, m);
        if t.predicate == RDF_TYPE@ && t.object == ObjectModel::Literal(classes[m - 1].subclass) {
            let y = literal_fact(t.subject, RDF_TYPE@, classes[m - 1].superclass);
            lemma_push_contains(rest, y, x);
            if x == y {
                assert(classes[m - 1].superclass == classes[m - 1].superclass);
            }
        }
    }
}

pub proof fn lemma_push_contains<A>(s: Seq<A>, y: A, x: A)
    ensures
        s.push(y).contains(x) <==> s.contains(x) || x == y,
{
    let u = s.push(y);
    assert(u[s.len() as int] == y);
    if s.contains(x) {
        let k = choose|k: int| 0 <= k < s.len() && s[k] == x;
        assert(u[k] == x);
    }
    if u.contains(x) && x != y {
        let k = choose|k: int| 0 <= k < u.len() && u[k] == x;
        assert(s[k] == x);
    }
}

pub proof fn lemma_concat_contains<A>(s: Seq<A>, t: Seq<A>, x: A)
    ensures
        (s + t).contains(x) <==> s.contains(x) || t.contains(x),
{
    let u = s + t;
    if s.contains(x) {
        let k = choose|k: int| 0 <= k < s.len() && s[k] == x;
        assert(u[k] == x);
    }
    if t.contains(x) {
        let k = choose|k: int| 0 <= k < t.len() && t[k] == x;
        assert(u[s.len() + k] == x);
    }
    if u.contains(x) {
        let k = choose|k: int| 0 <= k < u.len() && u[k] == x;
        if k < s.len() {
            assert(s[k] == x);
        } else {
            assert(t[k - s.len()] == x);
        }
    }
}

/// Some fact among the first `n` gives `x` by a class axiom.
spec fn class_gives_to(known: Triples, n: int, classes: Seq<SubClassModel>, x: TripleModel) -> bool {
    exists|k: int, i: int|
        0 <= k < n && 0 <= i < classes.len() && (#[trigger] known[k]).predicate == RDF_TYPE@
            && known[k].object == ObjectModel::Literal((#[trigger] classes[i]).subclass) && x
            == literal_fact(known[k].subject, RDF_TYPE@, classes[i].superclass)
}

proof fn lemma_class_round(known: Triples, n: int, classes: Seq<SubClassModel>, x: TripleModel)
    requires
        0 <= n <= known.len(),
    ensures
        class_round(known, n, classes).contains(x) <==> class_gives_to(known, n, classes, x),
    decreases n,
{
    if n > 0 {
        lemma_class_round(known, n - 1, classes, x);
        lemma_classes_of(known[n - 1], classes, classes.len() as int, x);
        lemma_concat_contains(
            class_round(known, n - 1, classes),
            classes_of(known[n - 1], classes, classes.len() as int),
            x,
        );
        if class_gives_to(known, n, classes, x) && !class_gives_to(known, n - 1, classes, x) {
            let (k, i) = choose|k: int, i: int|
                0 <= k < n && 0 <= i < classes.len() && (#[trigger] known[k]).predicate
                    == RDF_TYPE@ && known[k].object == ObjectModel::Literal(
                    (#[trigger] classes[i]).subclass,
                ) && x == literal_fact(known[k].subject, RDF_TYPE@, classes[i].superclass);
            assert(k == n - 1);
        }
    }
}

proof fn lemma_renamed(known: Triples, n: int, sub: Seq<char>, sup: Seq<char>, x: TripleModel)
    requires
        0 <= n <= known.len(),
    ensures
        renamed(known, n, sub, sup).contains(x) <==> exists|k: int|
            0 <= k < n && (#[trigger] known[k]).predicate == sub && x == (TripleModel {
                predicate: sup,
                ..known[k]
            }),
    decreases n,
{
    if n > 0 {
        lemma_renamed(known, n - 1, sub, sup, x);
        let rest = renamed(known, n - 1, sub, sup);
        let y = TripleModel { predicate: sup, ..known[n - 1] };
        lemma_push_contains(rest, y, x);
    }
}

proof fn lemma_flipped(known: Triples, n: int, p: Seq<char>, q: Seq<char>, x: TripleModel)
    requires
        0 <= n <= known.len(),
    ensures
        flipped(known, n, p, q).contains(x) <==> exists|k: int|
            0 <= k < n && (#[trigger] known[k]).predicate == p && known[k].object
                == ObjectModel::Concept(x.subject) && x.predicate == q && x.object
                == ObjectModel::Concept(known[k].subject),
    decreases n,
{
    if n > 0 {
        lemma_flipped(known, n - 1, p, q, x);
        let rest = flipped(known, n - 1, p, q);
        let t = known[n - 1];
        match t.object {
            ObjectModel::Concept(y) => {
                let z = TripleModel {
                    subject: y,
                    predicate: q,
                    object: ObjectModel::Concept(t.subject),
                };
                lemma_push_contains(rest, z, x);
            },
            ObjectModel::Literal(_) => {},
        }
    }
}

proof fn lemma_edges(known: Triples, n: int, p: Seq<char>, e: (Seq<char>, Seq<char>))
    requires
        0 <= n <= known.len(),
    ensures
        edges(known, n, p).contains(e) <==> exists|k: int|
            0 <= k < n && (#[trigger] known[k]).predicate == p && known[k].object
                == ObjectModel::Concept(e.1) && known[k].subject == e.0,
    decreases n,
{
    if n > 0 {
        lemma_edges(known, n - 1, p, e);
        let rest = edges(known, n - 1, p);
        let t = known[n - 1];
        match t.object {
            ObjectModel::Concept(y) => {
                lemma_push_contains(rest, (t.subject, y), e);
            },
            ObjectModel::Literal(_) => {},
        }
    }
}

proof fn lemma_hops(
    e: (Seq<char>, Seq<char>),
    es: Seq<(Seq<char>, Seq<char>)>,
    m: int,
    p: Seq<char>,
    x: TripleModel,
)
    requires
        0 <= m <= es.len(),
    ensures
        hops(e, es, m, p).contains(x) <==> exists|k: int|
            0 <= k < m && e.1 == (#[trigger] es[k]).0 && x == (TripleModel {
                subject: e.0,
                predicate: p,
                object: ObjectModel::Concept(es[k].1),
            }),
    decreases m,
{
    if m > 0 {
        lemma_hops(e, es, m - 1, p, x);
        let rest = hops(e, es, m - 1, p);
        let y = TripleModel {
            subject: e.0,
            predicate: p,
            object: ObjectModel::Concept(es[m - 1].1),
        };
        lemma_push_contains(rest, y, x);
    }
}

spec fn chain_to(es: Seq<(Seq<char>, Seq<char>)>, n: int, p: Seq<char>, x: TripleModel) -> bool {
    exists|j: int, k: int|
        0 <= j < n && 0 <= k < es.len() && (#[trigger] es[j]).1 == (#[trigger] es[k]).0 && x == (
        TripleModel { subject: es[j].0, predicate: p, object: ObjectModel::Concept(es[k].1) })
}

proof fn lemma_chains(es: Seq<(Seq<char>, Seq<char>)>, n: int, p: Seq<char>, x: TripleModel)
    requires
        0 <= n <= es.len(),
    ensures
        chains(es, n, p).contains(x) <==> chain_to(es, n, p, x),
    decreases n,
{
    if n > 0 {
        lemma_chains(es, n - 1, p, x);
        lemma_hops(es[n - 1], es, es.len() as int, p, x);
        lemma_concat_contains(chains(es, n - 1, p), hops(es[n - 1], es, es.len() as int, p), x);
        if chain_to(es, n, p, x) && !chain_to(es, n - 1, p, x) {
            let (j, k) = choose|j: int, k: int|
                0 <= j < n && 0 <= k < es.len() && (#[trigger] es[j]).1 == (#[trigger] es[k]).0
                    && x == (TripleModel {
                    subject: es[j].0,
                    predicate: p,
                    object: ObjectModel::Concept(es[k].1),
                });
            assert(j == n - 1);
        }
    }
}

proof fn lemma_axiom_round(known: Triples, a: AxiomModel, x: TripleModel)
    ensures
        axiom_round(known, a).contains(x) <==> axiom_gives(known, a, x),
{
    let n = known.len() as int;
    assert forall|k: int| 0 <= k < n implies known.contains(#[trigger] known[k]) by {}
    match a {
        AxiomModel::SubPropertyOf { sub, sup } => {
            lemma_renamed(known, n, sub, sup, x);
            if axiom_gives(known, a, x) {
                let t = choose|t: TripleModel| #[trigger]
                    known.contains(t) && t.predicate == sub && x == (TripleModel {
                        predicate: sup,
                        ..t
                    });
                let k = choose|k: int| 0 <= k < n && known[k] == t;
                assert(known[k].predicate == sub);
            }
        },
        AxiomModel::Symmetric(p) => {
            lemma_flipped(known, n, p, p, x);
            if axiom_gives(known, a, x) {
                let t = choose|t: TripleModel| #[trigger]
                    known.contains(t) && t.predicate == p && t.object == ObjectModel::Concept(
                        x.subject,
                    ) && x.predicate == p && x.object == ObjectModel::Concept(t.subject);
                let k = choose|k: int| 0 <= k < n && known[k] == t;
                assert(known[k].predicate == p);
            }
        },
        AxiomModel::InverseOf { property, inverse } => {
            lemma_flipped(known, n, property, inverse, x);
            if axiom_gives(known, a, x) {
                let t = choose|t: TripleModel| #[trigger]
                    known.contains(t) && t.predicate == property && t.object
                        == ObjectModel::Concept(x.subject) && x.predicate == inverse && x.object
                        == ObjectModel::Concept(t.subject);
                let k = choose|k: int| 0 <= k < n && known[k] == t;
                assert(known[k].predicate == property);
            }
        },
        AxiomModel::Transitive(p) => {
            let es = edges(known, n, p);
            lemma_chains(es, es.len() as int, p, x);
            if axiom_gives(known, a, x) {
                let (t, u) = choose|t: TripleModel, u: TripleModel| #[trigger]
                    known.contains(t) && #[trigger] known.contains(u) && t.predicate == p
                        && u.predicate == p && t.object == ObjectModel::Concept(u.subject)
                        && u.object is Concept && x == (TripleModel { object: u.object, ..t });
                let kt = choose|k: int| 0 <= k < n && known[k] == t;
                let ku = choose|k: int| 0 <= k < n && known[k] == u;
                let z = match u.object {
                    ObjectModel::Concept(z) => z,
                    ObjectModel::Literal(z) => z,
                };
                let e1 = (t.subject, u.subject);
                let e2 = (u.subject, z);
                lemma_edges(known, n, p, e1);
                lemma_edges(known, n, p, e2);
                assert(known[kt].predicate == p && known[ku].predicate == p);
                assert(es.contains(e1) && es.contains(e2));
                let j = choose|j: int| 0 <= j < es.len() && es[j] == e1;
                let k = choose|k: int| 0 <= k < es.len() && es[k] == e2;
                assert(es[j].1 == es[k].0);
                assert(chain_to(es, es.len() as int, p, x));
            }
            if chain_to(es, es.len() as int, p, x) {
                let (j, k) = choose|j: int, k: int|
                    0 <= j < es.len() && 0 <= k < es.len() && (#[trigger] es[j]).1 == (
                    #[trigger] es[k]).0 && x == (TripleModel {
                        subject: es[j].0,
                        predicate: p,
                        object: ObjectModel::Concept(es[k].1),
                    });
                assert(es.contains(es[j]) && es.contains(es[k]));
                lemma_edges(known, n, p, es[j]);
                lemma_edges(known, n, p, es[k]);
                let a1 = choose|i: int|
                    0 <= i < n && (#[trigger] known[i]).predicate == p && known[i].object
                        == ObjectModel::Concept(es[j].1) && known[i].subject == es[j].0;
                let a2 = choose|i: int|
                    0 <= i < n && (#[trigger] known[i]).predicate == p && known[i].object
                        == ObjectModel::Concept(es[k].1) && known[i].subject == es[k].0;
                assert(known.contains(known[a1]) && known.contains(known[a2]));
            }
        },
    }
}

proof fn lemma_property_round(known: Triples, axioms: Seq<AxiomModel>, n: int, x: TripleModel)
    requires
        0 <= n <= axioms.len(),
    ensures
        property_round(known, axioms, n).contains(x) <==> exists|i: int|
            0 <= i < n && axiom_gives(known, #[trigger] axioms[i], x),
    decreases n,
{
    if n > 0 {
        lemma_property_round(known, axioms, n - 1, x);
        lemma_axiom_round(known, axioms[n - 1], x);
        lemma_concat_contains(
            property_round(known, axioms, n - 1),
            axiom_round(known, axioms[n - 1]),
            x,
        );
    }
}

/// A round of rules gives exactly what follows in one step.
pub proof fn law_round_is_one_step(known: Triples, o: OntologyModel, x: TripleModel)
    ensures
        derived(known, o).contains(x) <==> follows(known, o, x),
{
    let n = known.len() as int;
    lemma_class_round(known, n, o.classes, x);
    lemma_property_round(known, o.properties, o.properties.len() as int, x);
    lemma_concat_contains(
        class_round(known, n, o.classes),
        property_round(known, o.properties, o.properties.len() as int),
        x,
    );
    if class_gives_to(known, n, o.classes, x) {
        let (k, i) = choose|k: int, i: int|
            0 <= k < n && 0 <= i < o.classes.len() && (#[trigger] known[k]).predicate == RDF_TYPE@
                && known[k].object == ObjectModel::Literal((#[trigger] o.classes[i]).subclass) && x
                == literal_fact(known[k].subject, RDF_TYPE@, o.classes[i].superclass);
        assert(known.contains(known[k]));
        assert(class_gives(known, o.classes[i], x));
    }
    if exists|i: int| 0 <= i < o.classes.len() && class_gives(known, #[trigger] o.classes[i], x) {
        let i = choose|i: int|
            0 <= i < o.classes.len() && class_gives(known, #[trigger] o.classes[i], x);
        let t = choose|t: TripleModel| #[trigger]
            known.contains(t) && t.predicate == RDF_TYPE@ && t.object == ObjectModel::Literal(
                o.classes[i].subclass,
            ) && x == literal_fact(t.subject, RDF_TYPE@, o.classes[i].superclass);
        let k = choose|k: int| 0 <= k < n && known[k] == t;
        assert(known[k].predicate == RDF_TYPE@);
        assert(class_gives_to(known, n, o.classes, x));
    }
}

// ---------------------------------------------------------------------
// Laws of the closure
// ---------------------------------------------------------------------

/// Everything that follows from `s` in one step is in `s`.
pub open spec fn closed(s: Triples, o: OntologyModel) -> bool {
    forall|x: TripleModel| #[trigger] follows(s, o, x) ==> s.contains(x)
}

/// Every fact of `s` is in `t`.
pub open spec fn within(s: Triples, t: Triples) -> bool {
    forall|x: TripleModel| #[trigger] s.contains(x) ==> t.contains(x)
}

pub proof fn lemma_absorb(known: Triples, ts: Triples, i: int, max: nat)
    requires
        facts_ascend(known),
        0 <= i <= ts.len(),
    ensures
        ({
            let (r, full) = absorb(known, ts, i, max);
            &&& facts_ascend(r)
            &&& known.len() <= r.len()
            &&& r.len() <= if known.len() > max {
                known.len()
            } else {
                max
            }
            &&& within(known, r)
            &&& forall|x: TripleModel| #[trigger]
                r.contains(x) ==> known.contains(x) || exists|k: int|
                    i <= k < ts.len() && #[trigger] ts[k] == x
            &&& !full ==> forall|k: int| i <= k < ts.len() ==> r.contains(#[trigger] ts[k])
            &&& full ==> r.len() >= max && exists|k: int|
                i <= k < ts.len() && !r.contains(#[trigger] ts[k])
            &&& r.len() == known.len() ==> r == known
        }),
    decreases ts.len() - i,
{
    if i < ts.len() && (known.len() < max || known.contains(ts[i])) {
        lemma_with_fact(known, ts[i]);
        let next = with_fact(known, ts[i]);
        lemma_absorb(next, ts, i + 1, max);
        let (r, full) = absorb(known, ts, i, max);
        assert forall|x: TripleModel| #[trigger] known.contains(x) implies r.contains(x) by {
            assert(next.contains(x));
        }
        assert forall|x: TripleModel| #[trigger] r.contains(x) implies known.contains(x) || exists|
            k: int,
        |
            i <= k < ts.len() && #[trigger] ts[k] == x by {
            if next.contains(x) {
                if x == ts[i] {
                    assert(ts[i] == x);
                }
            } else {
                let k = choose|k: int| i + 1 <= k < ts.len() && #[trigger] ts[k] == x;
                assert(ts[k] == x);
            }
        }
        if !full {
            assert forall|k: int| i <= k < ts.len() implies r.contains(#[trigger] ts[k]) by {
                if k == i {
                    assert(next.contains(ts[i]));
                }
            }
        }
        if r.len() == known.len() {
            assert(known.contains(ts[i]));
            assert(next == known);
        }
    }
}

/// More facts give at least as much.
proof fn lemma_follows_monotone(s: Triples, t: Triples, o: OntologyModel, x: TripleModel)
    requires
        within(s, t),
        follows(s, o, x),
    ensures
        follows(t, o, x),
{
    if exists|i: int| 0 <= i < o.classes.len() && class_gives(s, #[trigger] o.classes[i], x) {
        let i = choose|i: int|
            0 <= i < o.classes.len() && class_gives(s, #[trigger] o.classes[i], x);
        let u = choose|u: TripleModel| #[trigger]
            s.contains(u) && u.predicate == RDF_TYPE@ && u.object == ObjectModel::Literal(
                o.classes[i].subclass,
            ) && x == literal_fact(u.subject, RDF_TYPE@, o.classes[i].superclass);
        assert(t.contains(u));
        assert(class_gives(t, o.classes[i], x));
    } else {
        let i = choose|i: int|
            0 <= i < o.properties.len() && axiom_gives(s, #[trigger] o.properties[i], x);
        let a = o.properties[i];
        match a {
            AxiomModel::SubPropertyOf { sub, sup } => {
                let u = choose|u: TripleModel| #[trigger]
                    s.contains(u) && u.predicate == sub && x == (TripleModel {
                        predicate: sup,
                        ..u
                    });
                assert(t.contains(u));
            },
            AxiomModel::Symmetric(p) => {
                let u = choose|u: TripleModel| #[trigger]
                    s.contains(u) && u.predicate == p && u.object == ObjectModel::Concept(
                        x.subject,
                    ) && x.predicate == p && x.object == ObjectModel::Concept(u.subject);
                assert(t.contains(u));
            },
            AxiomModel::InverseOf { property, inverse } => {
                let u = choose|u: TripleModel| #[trigger]
                    s.contains(u) && u.predicate == property && u.object == ObjectModel::Concept(
                        x.subject,
                    ) && x.predicate == inverse && x.object == ObjectModel::Concept(u.subject);
                assert(t.contains(u));
            },
            AxiomModel::Transitive(p) => {
                let (u, v) = choose|u: TripleModel, v: TripleModel| #[trigger]
                    s.contains(u) && #[trigger] s.contains(v) && u.predicate == p && v.predicate
                        == p && u.object == ObjectModel::Concept(v.subject) && v.object is Concept
                        && x == (TripleModel { object: v.object, ..u });
                assert(t.contains(u) && t.contains(v));
            },
        }
        assert(axiom_gives(t, a, x));
    }
}

proof fn lemma_absorb_sound(known: Triples, o: OntologyModel, max: nat, m: Triples)
    requires
        facts_ascend(known),
        within(known, m),
        closed(m, o),
    ensures
        within(absorb(known, derived(known, o), 0, max).0, m),
{
    let d = derived(known, o);
    lemma_absorb(known, d, 0, max);
    let r = absorb(known, d, 0, max).0;
    assert forall|x: TripleModel| #[trigger] r.contains(x) implies m.contains(x) by {
        if !known.contains(x) {
            let k = choose|k: int| 0 <= k < d.len() && #[trigger] d[k] == x;
            assert(d.contains(x));
            law_round_is_one_step(known, o, x);
            lemma_follows_monotone(known, m, o, x);
        }
    }
}

proof fn lemma_rounds(
    known: Triples,
    o: OntologyModel,
    b: ReasoningBudget,
    used: nat,
    m: Triples,
)
    requires
        facts_ascend(known),
        known.len() <= b.max_triples,
    ensures
        ({
            let r = rounds_from(known, o, b, used);
            &&& facts_ascend(r.triples)
            &&& r.triples.len() <= b.max_triples
            &&& within(known, r.triples)
            &&& within(known, m) && closed(m, o) ==> within(r.triples, m)
            &&& !r.by_iterations && !r.by_triples ==> closed(r.triples, o)
            &&& r.by_iterations || r.by_triples ==> !closed(r.triples, o)
            &&& r.by_triples ==> r.triples.len() == b.max_triples
        }),
    decreases b.max_iterations - used,
{
    if used < b.max_iterations {
        let d = derived(known, o);
        lemma_absorb(known, d, 0, b.max_triples as nat);
        if within(known, m) && closed(m, o) {
            lemma_absorb_sound(known, o, b.max_triples as nat, m);
        }
        let (more, full) = absorb(known, d, 0, b.max_triples as nat);
        if full {
            let k = choose|k: int| 0 <= k < d.len() && !more.contains(#[trigger] d[k]);
            assert(d.contains(d[k]));
            law_round_is_one_step(known, o, d[k]);
            lemma_follows_monotone(known, more, o, d[k]);
        } else if more.len() == known.len() {
            assert forall|x: TripleModel| #[trigger] follows(known, o, x) implies known.contains(
                x,
            ) by {
                law_round_is_one_step(known, o, x);
                let k = choose|k: int| 0 <= k < d.len() && d[k] == x;
                assert(more.contains(d[k]));
            }
        } else {
            lemma_rounds(more, o, b, used + 1, m);
        }
    }
}

/// What reasoning arrives at is in ascending order, each fact once, and no
/// more than the budget allows; and it is in every set of facts that holds the
/// asserted ones and is closed under the axioms.
pub proof fn law_closure_is_sound(
    facts: Triples,
    o: OntologyModel,
    b: ReasoningBudget,
    m: Triples,
)
    ensures
        facts_ascend(closure(facts, o, b).triples),
        closure(facts, o, b).triples.len() <= b.max_triples,
        within(facts, m) && closed(m, o) ==> within(closure(facts, o, b).triples, m),
{
    lemma_closure(facts, o, b, m);
}

/// Reasoning that was not cut short gave every asserted fact and everything
/// that follows.
pub proof fn law_closure_is_complete(facts: Triples, o: OntologyModel, b: ReasoningBudget)
    requires
        !closure(facts, o, b).by_iterations,
        !closure(facts, o, b).by_triples,
    ensures
        within(facts, closure(facts, o, b).triples),
        closed(closure(facts, o, b).triples, o),
{
    lemma_closure(facts, o, b, facts);
}

/// Reasoning is said to be cut short only where something is missing: by the
/// rounds, where something still follows; by the room, where it is used up and
/// an asserted fact was left out or something still follows.
pub proof fn law_cuts_are_real(facts: Triples, o: OntologyModel, b: ReasoningBudget)
    ensures
        closure(facts, o, b).by_iterations ==> !closed(closure(facts, o, b).triples, o),
        closure(facts, o, b).by_triples ==> closure(facts, o, b).triples.len() == b.max_triples
            && !(within(facts, closure(facts, o, b).triples) && closed(
            closure(facts, o, b).triples,
            o,
        )),
{
    lemma_closure(facts, o, b, facts);
}

proof fn lemma_closure(facts: Triples, o: OntologyModel, b: ReasoningBudget, m: Triples)
    ensures
        ({
            let r = closure(facts, o, b);
            &&& facts_ascend(r.triples)
            &&& r.triples.len() <= b.max_triples
            &&& within(facts, m) && closed(m, o) ==> within(r.triples, m)
            &&& !r.by_iterations && !r.by_triples ==> within(facts, r.triples) && closed(
                r.triples,
                o,
            )
            &&& r.by_iterations ==> !closed(r.triples, o)
            &&& r.by_triples ==> r.triples.len() == b.max_triples && !(within(facts, r.triples)
                && closed(r.triples, o))
        }),
{
    let none: Triples = Seq::empty();
    lemma_absorb(none, facts, 0, b.max_triples as nat);
    let (known, full) = absorb(none, facts, 0, b.max_triples as nat);
    if within(facts, m) && closed(m, o) {
        assert forall|x: TripleModel| #[trigger] known.contains(x) implies m.contains(x) by {
            let k = choose|k: int| 0 <= k < facts.len() && #[trigger] facts[k] == x;
            assert(facts.contains(x));
        }
    }
    if full {
        let k = choose|k: int| 0 <= k < facts.len() && !known.contains(#[trigger] facts[k]);
        assert(facts.contains(facts[k]));
    } else {
        lemma_rounds(known, o, b, 0, m);
        let r = closure(facts, o, b);
        assert forall|x: TripleModel| #[trigger] facts.contains(x) implies r.triples.contains(x) by {
            let k = choose|k: int| 0 <= k < facts.len() && facts[k] == x;
            assert(known.contains(facts[k]));
        }
    }
}

// ---------------------------------------------------------------------
// The reasoner
// ---------------------------------------------------------------------

fn push_triple(out: &mut Vec<Triple>, t: Triple)
    ensures
        views(final(out)@) == views(old(out)@).push(t@),
{
    proof {
        lemma_views_push(out@, t);
    }
    out.push(t);
}

fn apply_classes(known: &Vec<Triple>, classes: &Vec<SubClassOf>) -> (out: Vec<Triple>)
    ensures
        views(out@) == class_round(views(known@), known@.len() as int, views(classes@)),
{
    let mut out: Vec<Triple> = Vec::new();
    let mut i: usize = 0;
    assert(views(out@) =~= Seq::empty());
    while i < known.len()
        invariant
            i <= known.len(),
            views(out@) == class_round(views(known@), i as int, views(classes@)),
        decreases known.len() - i,
    {
        let t = &known[i];
        let ghost before = views(out@);
        assert(views(known@)[i as int] == t@);
        let is_type = str_eq(t.predicate.as_str(), RDF_TYPE);
        let mut j: usize = 0;
        assert(before + classes_of(t@, views(classes@), 0) =~= before);
        while j < classes.len()
            invariant
                j <= classes.len(),
                is_type == (t@.predicate == RDF_TYPE@),
                views(out@) == before + classes_of(t@, views(classes@), j as int),
            decreases classes.len() - j,
        {
            assert(views(classes@)[j as int] == classes@[j as int]@);
            let applies = is_type && match &t.object {
                Object::Literal(class) => str_eq(class.as_str(), classes[j].subclass.as_str()),
                Object::Concept(_) => false,
            };
            if applies {
                push_triple(
                    &mut out,
                    Triple {
                        subject: t.subject.clone(),
                        predicate: RDF_TYPE.to_owned(),
                        object: Object::Literal(classes[j].superclass.clone()),
                    },
                );
            }
            j += 1;
            assert(views(out@) =~= before + classes_of(t@, views(classes@), j as int));
        }
        i += 1;
    }
    out
}

fn apply_rename(out: &mut Vec<Triple>, known: &Vec<Triple>, sub: &String, sup: &String)
    ensures
        views(final(out)@) == views(old(out)@) + renamed(
            views(known@),
            known@.len() as int,
            sub@,
            sup@,
        ),
{
    let mut i: usize = 0;
    assert(views(out@) =~= views(old(out)@) + Seq::empty());
    while i < known.len()
        invariant
            i <= known.len(),
            views(out@) == views(old(out)@) + renamed(views(known@), i as int, sub@, sup@),
        decreases known.len() - i,
    {
        assert(views(known@)[i as int] == known@[i as int]@);
        if str_eq(known[i].predicate.as_str(), sub.as_str()) {
            push_triple(
                out,
                Triple {
                    subject: known[i].subject.clone(),
                    predicate: sup.clone(),
                    object: known[i].object.clone(),
                },
            );
        }
        i += 1;
        assert(views(out@) =~= views(old(out)@) + renamed(views(known@), i as int, sub@, sup@));
    }
}

fn apply_flip(out: &mut Vec<Triple>, known: &Vec<Triple>, p: &String, q: &String)
    ensures
        views(final(out)@) == views(old(out)@) + flipped(
            views(known@),
            known@.len() as int,
            p@,
            q@,
        ),
{
    let mut i: usize = 0;
    assert(views(out@) =~= views(old(out)@) + Seq::empty());
    while i < known.len()
        invariant
            i <= known.len(),
            views(out@) == views(old(out)@) + flipped(views(known@), i as int, p@, q@),
        decreases known.len() - i,
    {
        assert(views(known@)[i as int] == known@[i as int]@);
        match &known[i].object {
            Object::Concept(y) => {
                if str_eq(known[i].predicate.as_str(), p.as_str()) {
                    push_triple(
                        out,
                        Triple {
                            subject: y.clone(),
                            predicate: q.clone(),
                            object: Object::Concept(known[i].subject.clone()),
                        },
                    );
                }
            },
            Object::Literal(_) => {},
        }
        i += 1;
        assert(views(out@) =~= views(old(out)@) + flipped(views(known@), i as int, p@, q@));
    }
}

fn edges_of(known: &Vec<Triple>, p: &String) -> (es: Vec<(ConceptId, ConceptId)>)
    ensures
        views(es@) == edges(views(known@), known@.len() as int, p@),
{
    let mut es: Vec<(ConceptId, ConceptId)> = Vec::new();
    let mut i: usize = 0;
    assert(views(es@) =~= Seq::empty());
    while i < known.len()
        invariant
            i <= known.len(),
            views(es@) == edges(views(known@), i as int, p@),
        decreases known.len() - i,
    {
        assert(views(known@)[i as int] == known@[i as int]@);
        match &known[i].object {
            Object::Concept(y) => {
                if str_eq(known[i].predicate.as_str(), p.as_str()) {
                    let e = (known[i].subject.clone(), y.clone());
                    proof {
                        lemma_views_push(es@, e);
                    }
                    es.push(e);
                }
            },
            Object::Literal(_) => {},
        }
        i += 1;
    }
    es
}

fn apply_chains(out: &mut Vec<Triple>, known: &Vec<Triple>, p: &String)
    ensures
        ({
            let es = edges(views(known@), known@.len() as int, p@);
            views(final(out)@) == views(old(out)@) + chains(es, es.len() as int, p@)
        }),
{
    let es = edges_of(known, p);
    let mut i: usize = 0;
    assert(views(out@) =~= views(old(out)@) + Seq::empty());
    while i < es.len()
        invariant
            i <= es.len(),
            views(es@) == edges(views(known@), known@.len() as int, p@),
            views(out@) == views(old(out)@) + chains(views(es@), i as int, p@),
        decreases es.len() - i,
    {
        let ghost before = views(out@);
        assert(views(es@)[i as int] == es@[i as int]@);
        let mut j: usize = 0;
        assert(before + Seq::empty() =~= before);
        while j < es.len()
            invariant
                i < es.len(),
                j <= es.len(),
                views(es@)[i as int] == es@[i as int]@,
                views(out@) == before + hops(views(es@)[i as int], views(es@), j as int, p@),
            decreases es.len() - j,
        {
            assert(views(es@)[j as int] == es@[j as int]@);
            if es[i].1.same(&es[j].0) {
                push_triple(
                    out,
                    Triple {
                        subject: es[i].0.clone(),
                        predicate: p.clone(),
                        object: Object::Concept(es[j].1.clone()),
                    },
                );
            }
            j += 1;
            assert(views(out@) =~= before + hops(
                views(es@)[i as int],
                views(es@),
                j as int,
                p@,
            ));
        }
        i += 1;
        assert(views(out@) =~= views(old(out)@) + chains(views(es@), i as int, p@));
    }
}

/// One round of all the rules. What comes out may be known already.
fn apply_rules_once(known: &Vec<Triple>, ontology: &Ontology) -> (out: Vec<Triple>)
    ensures
        views(out@) == derived(views(known@), ontology@),
{
    let mut out = apply_classes(known, &ontology.classes);
    let ghost classes = views(out@);
    let mut i: usize = 0;
    assert(views(out@) =~= classes + Seq::empty());
    while i < ontology.properties.len()
        invariant
            i <= ontology.properties.len(),
            classes == class_round(views(known@), known@.len() as int, ontology@.classes),
            views(out@) == classes + property_round(
                views(known@),
                ontology@.properties,
                i as int,
            ),
        decreases ontology.properties.len() - i,
    {
        assert(ontology@.properties[i as int] == ontology.properties@[i as int]@);
        let ghost before = views(out@);
        match &ontology.properties[i] {
            PropertyAxiom::SubPropertyOf { sub, sup } => apply_rename(&mut out, known, sub, sup),
            PropertyAxiom::Symmetric(p) => apply_flip(&mut out, known, p, p),
            PropertyAxiom::InverseOf { property, inverse } => apply_flip(
                &mut out,
                known,
                property,
                inverse,
            ),
            PropertyAxiom::Transitive(p) => apply_chains(&mut out, known, p),
        }
        assert(views(out@) == before + axiom_round(
            views(known@),
            ontology@.properties[i as int],
        ));
        i += 1;
        assert(views(out@) =~= classes + property_round(
            views(known@),
            ontology@.properties,
            i as int,
        ));
    }
    out
}

fn absorb_all(known: &mut Vec<Triple>, ts: &Vec<Triple>, max: usize) -> (full: bool)
    requires
        facts_ascend(views(old(known)@)),
    ensures
        (views(final(known)@), full) == absorb(views(old(known)@), views(ts@), 0, max as nat),
        facts_ascend(views(final(known)@)),
{
    let mut i: usize = 0;
    while i < ts.len()
        invariant
            i <= ts.len(),
            facts_ascend(views(known@)),
            absorb(views(old(known)@), views(ts@), 0, max as nat) == absorb(
                views(known@),
                views(ts@),
                i as int,
                max as nat,
            ),
        decreases ts.len() - i,
    {
        assert(views(ts@)[i as int] == ts@[i as int]@);
        if known.len() >= max && !has_fact(known, &ts[i]) {
            return true;
        }
        proof {
            lemma_with_fact(views(known@), ts@[i as int]@);
        }
        add_fact(known, ts[i].clone());
        i += 1;
    }
    false
}

/// Whether nothing more follows from the facts.
fn is_closed(known: &Vec<Triple>, ontology: &Ontology) -> (r: bool)
    ensures
        r == closed(views(known@), ontology@),
{
    let next = apply_rules_once(known, ontology);
    let ghost d = views(next@);
    let mut i: usize = 0;
    while i < next.len()
        invariant
            i <= next.len(),
            d == views(next@),
            d == derived(views(known@), ontology@),
            forall|k: int| 0 <= k < i ==> views(known@).contains(#[trigger] d[k]),
        decreases next.len() - i,
    {
        if !has_fact(known, &next[i]) {
            proof {
                assert(d[i as int] == next@[i as int]@);
                assert(d.contains(d[i as int]));
                law_round_is_one_step(views(known@), ontology@, d[i as int]);
            }
            return false;
        }
        i += 1;
    }
    assert forall|x: TripleModel| #[trigger] follows(views(known@), ontology@, x) implies views(
        known@,
    ).contains(x) by {
        law_round_is_one_step(views(known@), ontology@, x);
        let k = choose|k: int| 0 <= k < d.len() && d[k] == x;
        assert(views(known@).contains(d[k]));
    }
    true
}

/// Applies the axioms to the facts until nothing new comes or the budget is
/// used up.
pub fn materialize(facts: &Vec<Triple>, ontology: &Ontology, budget: &ReasoningBudget) -> (r:
    Materialized)
    ensures
        r@ == closure(views(facts@), ontology@, *budget),
        facts_ascend(r@.triples),
        r@.triples.len() <= budget.max_triples,
{
    let mut known: Vec<Triple> = Vec::new();
    assert(views(known@) =~= Seq::empty());
    proof {
        law_closure_is_sound(views(facts@), ontology@, *budget, Seq::empty());
    }
    if absorb_all(&mut known, facts, budget.max_triples) {
        let cut = budget.max_iterations == 0 && !is_closed(&known, ontology);
        return Materialized {
            triples: known,
            truncated_by_iterations: cut,
            truncated_by_triples: true,
        };
    }
    let mut used: usize = 0;
    while used < budget.max_iterations
        invariant
            used <= budget.max_iterations,
            facts_ascend(views(known@)),
            closure(views(facts@), ontology@, *budget) == rounds_from(
                views(known@),
                ontology@,
                *budget,
                used as nat,
            ),
            facts_ascend(closure(views(facts@), ontology@, *budget).triples),
            closure(views(facts@), ontology@, *budget).triples.len() <= budget.max_triples,
        decreases budget.max_iterations - used,
    {
        used += 1;
        let derived_now = apply_rules_once(&known, ontology);
        let count = known.len();
        let full = absorb_all(&mut known, &derived_now, budget.max_triples);
        if full {
            return Materialized {
                triples: known,
                truncated_by_iterations: used == budget.max_iterations,
                truncated_by_triples: true,
            };
        }
        if known.len() == count {
            return Materialized {
                triples: known,
                truncated_by_iterations: false,
                truncated_by_triples: false,
            };
        }
    }
    let cut = !is_closed(&known, ontology);
    Materialized { triples: known, truncated_by_iterations: cut, truncated_by_triples: false }
}

} // verus!

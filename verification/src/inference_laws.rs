//! What reasoning answers, from the axioms and documents it is given.

use vstd::prelude::*;
use crate::args::flag_arg;
use crate::axiom_laws::{
    is_plain, is_tight, law_arrow_lines_declare, law_name_lines_declare, lemma_words,
};
use crate::axioms::{declared, AxiomErrorModel};
use crate::graph::{NeighborSource, TraversalModel, VisitedModel};
use crate::inference::{
    asked, axiom_arg, axioms_to, brief_json, class_arg, classes_to, combined, fact_set, gathered,
    gathered_all, inline_ontology, kept, loads, marked, reason_cuts, reason_head, reason_json,
    reason_tool, reasoned, reasoned_from, reasoned_gathered, reasoned_loaded, reasoned_on,
    reasoned_over, reasoned_walked, run_end, saves, Gets,
};
use crate::json::{number, opt_text, JsonModel};
use crate::mcp::ToolAnswer;
use crate::member_laws::group_members;
use crate::memory::{default_budget, got, store_ok, InMemoryStore, StoreModel};
use crate::okf::{parsed, DocModel};
use crate::model::Budget;
use crate::ontology::{
    document_facts, fact_before, facts_ascend, lemma_with_fact, AxiomModel, MaterializedModel,
    ObjectModel, OntologyModel, ReasoningBudget, SubClassModel, TripleModel, Triples, RDF_TYPE,
};
use crate::patching_laws::body_of;
use crate::reading::{walks, WalkAnswer};
use crate::reason::{
    absorb, axiom_gives, class_gives, closed, closure, derived, follows, law_closure_is_complete,
    law_closure_is_sound, law_round_is_one_step, lemma_absorb, rounds_from, within,
};
use crate::replies::{object_json, triple_json};
use crate::repo::{Answer, MemoryRepository, TripleStore};
use crate::search_laws::holds_document;
use crate::store::{DocViewModel, StoreError, StoreErrorModel};
use crate::table::{
    ascending, before, lemma_before_irreflexive, lemma_before_transitive, lemma_lookup_put,
    lemma_put_ascending, lookup,
};
use crate::text::lines;
use crate::workflow_laws::{how_many, lemma_how_many};
use crate::writing_laws::lemma_holds;

verus! {

// ---------------------------------------------------------------------
// Answers
// ---------------------------------------------------------------------

/// An entry of a list of facts: `x` has `p`, of a kind and with a value.
pub open spec fn says(
    v: JsonModel,
    x: Seq<char>,
    p: Seq<char>,
    kind: Seq<char>,
    value: Seq<char>,
) -> bool {
    &&& v.member("subject"@) == Some(JsonModel::String(x))
    &&& v.member("predicate"@) == Some(JsonModel::String(p))
    &&& v.member("object"@) is Some
    &&& v.member("object"@)->0.member("kind"@) == Some(JsonModel::String(kind))
    &&& v.member("object"@)->0.member("value"@) == Some(JsonModel::String(value))
}

/// The facts that a reply lists.
pub open spec fn facts_listed(reply: JsonModel) -> Seq<JsonModel> {
    reply.member("triples"@)->0->Array_0
}

/// A reply lists a fact.
pub open spec fn lists_fact(
    reply: JsonModel,
    x: Seq<char>,
    p: Seq<char>,
    kind: Seq<char>,
    value: Seq<char>,
) -> bool {
    exists|k: int|
        0 <= k < facts_listed(reply).len() && says(
            #[trigger] facts_listed(reply)[k],
            x,
            p,
            kind,
            value,
        )
}

/// A reply that says that reasoning was not cut short.
pub open spec fn is_whole(reply: JsonModel) -> bool {
    &&& reply.member("truncated"@) is Some
    &&& reply.member("truncated"@)->0.member("reasoning_by_iterations"@) == Some(
        JsonModel::Bool(false),
    )
    &&& reply.member("truncated"@)->0.member("reasoning_by_triples"@) == Some(
        JsonModel::Bool(false),
    )
}

/// Some entry of the neighbourhood in a reply is the existing concept `x`.
pub open spec fn is_near(reply: JsonModel, x: Seq<char>) -> bool {
    reply.member("neighborhood"@) matches Some(JsonModel::Array(l)) && exists|k: int|
        0 <= k < l.len() && (#[trigger] l[k]).member("concept_id"@) == Some(JsonModel::String(x))
            && l[k].member("exists"@) == Some(JsonModel::Bool(true))
}

/// What a document says of itself: its type, its tags, and what its links lead
/// to.
pub open spec fn document_says(
    d: DocModel,
    p: Seq<char>,
    kind: Seq<char>,
    value: Seq<char>,
) -> bool {
    ||| p == "rdf:type"@ && kind == "literal"@ && value == d.doc_type
    ||| p == "tag"@ && kind == "literal"@ && d.tags.contains(value)
    ||| kind == "concept"@ && exists|i: int|
        0 <= i < d.links.len() && (#[trigger] d.links[i]).target == value && p == (
        match d.links[i].rel {
            Some(rel) => rel,
            None => "related"@,
        })
}

/// A document of the neighbourhood says so.
pub open spec fn is_stated(
    s: StoreModel,
    reply: JsonModel,
    x: Seq<char>,
    p: Seq<char>,
    kind: Seq<char>,
    value: Seq<char>,
) -> bool {
    is_near(reply, x) && exists|raw: Seq<char>| #[trigger]
        holds_document(s, x, raw) && parsed(raw, default_budget()) is Ok && document_says(
            parsed(raw, default_budget())->Ok_0,
            p,
            kind,
            value,
        )
}

// ---------------------------------------------------------------------
// Rules
// ---------------------------------------------------------------------

/// A reply to which an axiom about predicates, an object of the arguments, adds
/// nothing more.
pub open spec fn obeys_property(reply: JsonModel, a: JsonModel) -> bool {
    match a.member("kind"@) {
        Some(JsonModel::String(kind)) => {
            &&& kind == "sub_property_of"@ ==> forall|x: Seq<char>, k: Seq<char>, y: Seq<char>|
                #![trigger lists_fact(reply, x, a.member("sub"@)->0->String_0, k, y)]
                is_kind(k) && lists_fact(reply, x, a.member("sub"@)->0->String_0, k, y)
                    ==> lists_fact(reply, x, a.member("sup"@)->0->String_0, k, y)
            &&& kind == "symmetric"@ ==> forall|x: Seq<char>, y: Seq<char>|
                #![trigger lists_fact(reply, x, a.member("property"@)->0->String_0, "concept"@, y)]
                lists_fact(reply, x, a.member("property"@)->0->String_0, "concept"@, y)
                    ==> lists_fact(reply, y, a.member("property"@)->0->String_0, "concept"@, x)
            &&& kind == "inverse_of"@ ==> forall|x: Seq<char>, y: Seq<char>|
                #![trigger lists_fact(reply, x, a.member("property"@)->0->String_0, "concept"@, y)]
                lists_fact(reply, x, a.member("property"@)->0->String_0, "concept"@, y)
                    ==> lists_fact(reply, y, a.member("inverse"@)->0->String_0, "concept"@, x)
            &&& kind == "transitive"@ ==> forall|x: Seq<char>, y: Seq<char>, z: Seq<char>|
                #![trigger lists_fact(reply, x, a.member("property"@)->0->String_0, "concept"@, y),
                    lists_fact(reply, y, a.member("property"@)->0->String_0, "concept"@, z)]
                lists_fact(reply, x, a.member("property"@)->0->String_0, "concept"@, y)
                    && lists_fact(reply, y, a.member("property"@)->0->String_0, "concept"@, z)
                    ==> lists_fact(reply, x, a.member("property"@)->0->String_0, "concept"@, z)
            &&& kind == "sub_property_of"@ || kind == "symmetric"@ || kind == "inverse_of"@ || kind
                == "transitive"@
        },
        _ => false,
    }
}

/// A reply to which an axiom about classes adds nothing more.
pub open spec fn obeys_class(reply: JsonModel, a: JsonModel) -> bool {
    forall|x: Seq<char>|
        #![trigger lists_fact(reply, x, "rdf:type"@, "literal"@, a.member("subclass"@)->0->String_0)]
        lists_fact(reply, x, "rdf:type"@, "literal"@, a.member("subclass"@)->0->String_0)
            ==> lists_fact(reply, x, "rdf:type"@, "literal"@, a.member("superclass"@)->0->String_0)
}

/// The two kinds of what a fact is about.
pub open spec fn is_kind(k: Seq<char>) -> bool {
    k == "concept"@ || k == "literal"@
}

spec fn object_of(kind: Seq<char>, value: Seq<char>) -> ObjectModel {
    if kind == "concept"@ {
        ObjectModel::Concept(value)
    } else {
        ObjectModel::Literal(value)
    }
}

spec fn fact_of(x: Seq<char>, p: Seq<char>, kind: Seq<char>, value: Seq<char>) -> TripleModel {
    TripleModel { subject: x, predicate: p, object: object_of(kind, value) }
}

proof fn lemma_says(
    t: TripleModel,
    derived: bool,
    x: Seq<char>,
    p: Seq<char>,
    kind: Seq<char>,
    value: Seq<char>,
)
    requires
        is_kind(kind),
    ensures
        says(triple_json(t, derived), x, p, kind, value) <==> t == fact_of(x, p, kind, value),
        triple_json(t, derived).member("derived"@) == Some(JsonModel::Bool(derived)),
{
    broadcast use group_members;

    reveal_strlit("subject");
    reveal_strlit("predicate");
    reveal_strlit("object");
    reveal_strlit("derived");
    reveal_strlit("kind");
    reveal_strlit("value");
    reveal_strlit("concept");
    reveal_strlit("literal");
    assert("subject"@[0] != "derived"@[0]);
    assert("concept"@[0] != "literal"@[0]);
    let v = triple_json(t, derived);
    assert(v.member("object"@) == Some(object_json(t.object)));
    match t.object {
        ObjectModel::Concept(y) => {
            assert(object_json(t.object).member("kind"@) == Some(
                JsonModel::String("concept"@),
            ));
            assert(object_json(t.object).member("value"@) == Some(JsonModel::String(y)));
        },
        ObjectModel::Literal(y) => {
            assert(object_json(t.object).member("kind"@) == Some(
                JsonModel::String("literal"@),
            ));
            assert(object_json(t.object).member("value"@) == Some(JsonModel::String(y)));
        },
    }
    if says(v, x, p, kind, value) {
        assert(JsonModel::String(t.subject) == JsonModel::String(x));
    }
}

proof fn lemma_reply_members(
    root: Seq<char>,
    facts: Triples,
    m: MaterializedModel,
    t: TraversalModel,
    o: Option<Seq<char>>,
    persist: bool,
)
    ensures
        ({
            let v = reason_json(root, facts, m, t, o, persist);
            let asserted = fact_set(facts, facts.len() as int).len();
            &&& v.member("root"@) == Some(JsonModel::String(root))
            &&& v.member("asserted_count"@) == Some(number(asserted))
            &&& v.member("derived_count"@) == Some(
                number(crate::inference::monus(m.triples.len(), asserted)),
            )
            &&& v.member("triples"@) == Some(marked(m.triples, facts))
            &&& v.member("neighborhood"@) == Some(
                JsonModel::Array(Seq::new(t.visited.len(), |i: int| brief_json(t.visited[i]))),
            )
            &&& v.member("ontology_id"@) == Some(opt_text(o))
            &&& v.member("persisted"@) == Some(JsonModel::Bool(persist))
            &&& v.member("truncated"@) == Some(reason_cuts(t, m))
            &&& reason_cuts(t, m).member("reasoning_by_iterations"@) == Some(
                JsonModel::Bool(m.by_iterations),
            )
            &&& reason_cuts(t, m).member("reasoning_by_triples"@) == Some(
                JsonModel::Bool(m.by_triples),
            )
        }),
{
    broadcast use group_members;

    reveal_strlit("root");
    reveal_strlit("asserted_count");
    reveal_strlit("derived_count");
    reveal_strlit("triples");
    reveal_strlit("neighborhood");
    reveal_strlit("ontology_id");
    reveal_strlit("persisted");
    reveal_strlit("truncated");
    reveal_strlit("traversal_by_nodes");
    reveal_strlit("traversal_by_depth");
    reveal_strlit("traversal_by_bytes");
    reveal_strlit("reasoning_by_iterations");
    reveal_strlit("reasoning_by_triples");
    assert("persisted"@[0] != "truncated"@[0]);
    assert("traversal_by_nodes"@[13] != "traversal_by_depth"@[13]);
    assert("traversal_by_nodes"@[13] != "traversal_by_bytes"@[13]);
    assert("traversal_by_depth"@[13] != "traversal_by_bytes"@[13]);
}

proof fn lemma_brief(v: VisitedModel)
    ensures
        brief_json(v).member("concept_id"@) == Some(JsonModel::String(v.id)),
        brief_json(v).member("exists"@) == Some(JsonModel::Bool(v.exists)),
{
    broadcast use group_members;

    reveal_strlit("concept_id");
    reveal_strlit("depth");
    reveal_strlit("exists");
}

/// What stands behind an answer: what was walked and read, the axioms, and how
/// far reasoning might go.
struct Behind {
    facts: Triples,
    t: TraversalModel,
    gs: Gets,
    inline: OntologyModel,
    loaded: OntologyModel,
    limits: ReasoningBudget,
}

spec fn result_of(z: Behind) -> MaterializedModel {
    closure(z.facts, combined(z.inline, z.loaded), z.limits)
}

spec fn is_behind<R: MemoryRepository>(
    pre: R,
    b: Budget,
    args: JsonModel,
    z: Behind,
    reply: JsonModel,
) -> bool {
    let h = reason_head(args, b)->Ok_0;
    &&& reason_head(args, b) is Ok
    &&& asked(pre, z.t.visited, z.gs)
    &&& gathered_all(z.t.visited, z.gs) == Answer::<Triples>::Ok(z.facts)
    &&& inline_ontology(args) == Ok::<_, crate::mcp::ToolErrorModel>(z.inline)
    &&& loads(pre, b, h.ontology_id, Ok(z.loaded))
    &&& reply == reason_json(
        h.root,
        z.facts,
        result_of(z),
        z.t,
        h.ontology_id,
        flag_arg(args, "persist"@, true),
    )
}

proof fn lemma_behind<R: MemoryRepository + NeighborSource<Error = StoreError> + TripleStore>(
    pre: R,
    b: Budget,
    args: JsonModel,
    post: R,
    r: ToolAnswer,
) -> (z: Behind)
    requires
        reason_tool(pre, b, args, post, r),
        r is Ok,
    ensures
        is_behind(pre, b, args, z, r->Ok_0),
        walks(pre, reason_head(args, b)->Ok_0.limits, reason_head(args, b)->Ok_0.root, Ok(z.t)),
        if flag_arg(args, "persist"@, true) {
            kept(pre, result_of(z).triples, r->Ok_0, post, r)
        } else {
            post == pre
        },
{
    let h = reason_head(args, b)->Ok_0;
    assert(reasoned_from(pre, b, args, h, post, r));
    let w = choose|w: WalkAnswer| #[trigger]
        walks(pre, h.limits, h.root, w) && reasoned_walked(pre, b, args, h, w, post, r);
    let t = w->Ok_0;
    assert(w == WalkAnswer::Ok(t));
    assert(reasoned_over(pre, b, args, h, t, post, r));
    let gs = choose|gs: Gets| #[trigger]
        asked(pre, t.visited, gs) && reasoned_gathered(
            pre,
            b,
            args,
            h,
            t,
            gathered_all(t.visited, gs),
            post,
            r,
        );
    let facts = gathered_all(t.visited, gs)->Ok_0;
    let inline = inline_ontology(args)->Ok_0;
    assert(reasoned_on(pre, b, args, h, t, facts, inline, post, r));
    let l = choose|l: crate::args::Parsed<OntologyModel>| #[trigger]
        loads(pre, b, h.ontology_id, l) && reasoned_loaded(
            pre,
            args,
            h,
            t,
            facts,
            inline,
            l,
            post,
            r,
        );
    let loaded = l->Ok_0;
    let limits = crate::inference::reasoning_limits(args)->Ok_0;
    let z = Behind { facts, t, gs, inline, loaded, limits };
    assert(reasoned(pre, args, h, t, facts, combined(inline, loaded), post, r));
    z
}

/// A reply lists a fact where reasoning arrived at it.
proof fn lemma_listed<R: MemoryRepository>(
    pre: R,
    b: Budget,
    args: JsonModel,
    z: Behind,
    reply: JsonModel,
    x: Seq<char>,
    p: Seq<char>,
    kind: Seq<char>,
    value: Seq<char>,
)
    requires
        is_behind(pre, b, args, z, reply),
        is_kind(kind),
    ensures
        lists_fact(reply, x, p, kind, value) <==> result_of(z).triples.contains(
            fact_of(x, p, kind, value),
        ),
{
    let h = reason_head(args, b)->Ok_0;
    let m = result_of(z);
    let f = fact_of(x, p, kind, value);
    lemma_reply_members(
        h.root,
        z.facts,
        m,
        z.t,
        h.ontology_id,
        flag_arg(args, "persist"@, true),
    );
    let l = facts_listed(reply);
    if lists_fact(reply, x, p, kind, value) {
        let k = choose|k: int| 0 <= k < l.len() && says(#[trigger] l[k], x, p, kind, value);
        lemma_says(m.triples[k], !z.facts.contains(m.triples[k]), x, p, kind, value);
        assert(m.triples.contains(m.triples[k]));
    }
    if m.triples.contains(f) {
        let k = choose|k: int| 0 <= k < m.triples.len() && m.triples[k] == f;
        lemma_says(f, !z.facts.contains(f), x, p, kind, value);
        assert(says(l[k], x, p, kind, value));
    }
}

proof fn lemma_axioms_to(l: Seq<JsonModel>, n: int)
    requires
        0 <= n <= l.len(),
        axioms_to(l, n) is Ok,
    ensures
        axioms_to(l, n)->Ok_0.len() == n,
        forall|i: int|
            0 <= i < n ==> axiom_arg(#[trigger] l[i]) == Ok::<_, crate::mcp::ToolErrorModel>(
                axioms_to(l, n)->Ok_0[i],
            ),
    decreases n,
{
    if n > 0 {
        lemma_axioms_to(l, n - 1);
    }
}

proof fn lemma_classes_to(l: Seq<JsonModel>, n: int)
    requires
        0 <= n <= l.len(),
        classes_to(l, n) is Ok,
    ensures
        classes_to(l, n)->Ok_0.len() == n,
        forall|i: int|
            0 <= i < n ==> class_arg(#[trigger] l[i]) == Ok::<_, crate::mcp::ToolErrorModel>(
                classes_to(l, n)->Ok_0[i],
            ),
    decreases n,
{
    if n > 0 {
        lemma_classes_to(l, n - 1);
    }
}

/// What an axiom gives of facts that are closed under it is among them.
proof fn lemma_gives(s: Triples, o: OntologyModel, i: int, x: TripleModel)
    requires
        closed(s, o),
        0 <= i < o.properties.len(),
        axiom_gives(s, o.properties[i], x),
    ensures
        s.contains(x),
{
    assert(follows(s, o, x));
}

proof fn lemma_kinds_differ()
    ensures
        "concept"@ != "literal"@,
        "transitive"@ != "symmetric"@,
        "transitive"@ != "sub_property_of"@,
        "transitive"@ != "inverse_of"@,
        "symmetric"@ != "sub_property_of"@,
        "symmetric"@ != "inverse_of"@,
        "sub_property_of"@ != "inverse_of"@,
{
    reveal_strlit("concept");
    reveal_strlit("literal");
    reveal_strlit("transitive");
    reveal_strlit("symmetric");
    reveal_strlit("sub_property_of");
    reveal_strlit("inverse_of");
    assert("concept"@[0] != "literal"@[0]);
    assert("transitive"@[0] != "inverse_of"@[0]);
    assert("symmetric"@.len() != "sub_property_of"@.len());
}

/// One axiom about predicates, by its kind.
#[verifier::spinoff_prover]
proof fn lemma_obeys_property<R: MemoryRepository>(
    pre: R,
    b: Budget,
    args: JsonModel,
    z: Behind,
    reply: JsonModel,
    l: Seq<JsonModel>,
    i: int,
)
    requires
        is_behind(pre, b, args, z, reply),
        closed(result_of(z).triples, combined(z.inline, z.loaded)),
        args.member("properties"@) == Some(JsonModel::Array(l)),
        0 <= i < l.len(),
    ensures
        obeys_property(reply, l[i]),
{
    let s = result_of(z).triples;
    let o = combined(z.inline, z.loaded);
    let a = l[i];
    lemma_kinds_differ();
    lemma_axioms_to(l, l.len() as int);
    let x0 = axiom_arg(a)->Ok_0;
    assert(axiom_arg(l[i]) == Ok::<_, crate::mcp::ToolErrorModel>(z.inline.properties[i]));
    assert(o.properties[i] == x0);
    let kind = a.member("kind"@)->0->String_0;
    if kind == "sub_property_of"@ {
        let p = a.member("sub"@)->0->String_0;
        let q = a.member("sup"@)->0->String_0;
        assert(x0 == (AxiomModel::SubPropertyOf { sub: p, sup: q }));
        assert forall|x: Seq<char>, k: Seq<char>, y: Seq<char>|
            is_kind(k) && #[trigger] lists_fact(reply, x, p, k, y) implies lists_fact(
            reply,
            x,
            q,
            k,
            y,
        ) by {
            lemma_listed(pre, b, args, z, reply, x, p, k, y);
            lemma_listed(pre, b, args, z, reply, x, q, k, y);
            assert(s.contains(fact_of(x, p, k, y)));
            lemma_gives(s, o, i, fact_of(x, q, k, y));
        }
    } else {
        let p = a.member("property"@)->0->String_0;
        if kind == "symmetric"@ {
            assert(x0 == AxiomModel::Symmetric(p));
            assert forall|x: Seq<char>, y: Seq<char>| #[trigger]
                lists_fact(reply, x, p, "concept"@, y) implies lists_fact(
                reply,
                y,
                p,
                "concept"@,
                x,
            ) by {
                lemma_listed(pre, b, args, z, reply, x, p, "concept"@, y);
                lemma_listed(pre, b, args, z, reply, y, p, "concept"@, x);
                assert(s.contains(fact_of(x, p, "concept"@, y)));
                lemma_gives(s, o, i, fact_of(y, p, "concept"@, x));
            }
        } else if kind == "inverse_of"@ {
            let q = a.member("inverse"@)->0->String_0;
            assert(x0 == (AxiomModel::InverseOf { property: p, inverse: q }));
            assert forall|x: Seq<char>, y: Seq<char>| #[trigger]
                lists_fact(reply, x, p, "concept"@, y) implies lists_fact(
                reply,
                y,
                q,
                "concept"@,
                x,
            ) by {
                lemma_listed(pre, b, args, z, reply, x, p, "concept"@, y);
                lemma_listed(pre, b, args, z, reply, y, q, "concept"@, x);
                assert(s.contains(fact_of(x, p, "concept"@, y)));
                lemma_gives(s, o, i, fact_of(y, q, "concept"@, x));
            }
        } else {
            assert(x0 == AxiomModel::Transitive(p));
            assert forall|x: Seq<char>, y: Seq<char>, w: Seq<char>| #[trigger]
                lists_fact(reply, x, p, "concept"@, y) && #[trigger] lists_fact(
                    reply,
                    y,
                    p,
                    "concept"@,
                    w,
                ) implies lists_fact(reply, x, p, "concept"@, w) by {
                lemma_listed(pre, b, args, z, reply, x, p, "concept"@, y);
                lemma_listed(pre, b, args, z, reply, y, p, "concept"@, w);
                lemma_listed(pre, b, args, z, reply, x, p, "concept"@, w);
                let f = fact_of(x, p, "concept"@, y);
                let g = fact_of(y, p, "concept"@, w);
                assert(s.contains(f) && s.contains(g));
                assert(axiom_gives(s, x0, fact_of(x, p, "concept"@, w))) by {
                    assert(s.contains(f) && s.contains(g) && f.predicate == p && g.predicate == p
                        && f.object == ObjectModel::Concept(g.subject) && g.object is Concept
                        && fact_of(x, p, "concept"@, w) == (TripleModel {
                        object: g.object,
                        ..f
                    }));
                }
                lemma_gives(s, o, i, fact_of(x, p, "concept"@, w));
            }
        }
    }
}

#[verifier::spinoff_prover]
proof fn lemma_obeys_class<R: MemoryRepository>(
    pre: R,
    b: Budget,
    args: JsonModel,
    z: Behind,
    reply: JsonModel,
    l: Seq<JsonModel>,
    i: int,
)
    requires
        is_behind(pre, b, args, z, reply),
        closed(result_of(z).triples, combined(z.inline, z.loaded)),
        args.member("classes"@) == Some(JsonModel::Array(l)),
        0 <= i < l.len(),
    ensures
        obeys_class(reply, l[i]),
{
    let s = result_of(z).triples;
    let o = combined(z.inline, z.loaded);
    let a = l[i];
    lemma_kinds_differ();
    lemma_classes_to(l, l.len() as int);
    assert(class_arg(l[i]) == Ok::<_, crate::mcp::ToolErrorModel>(z.inline.classes[i]));
    let c = class_arg(a)->Ok_0;
    assert(o.classes[i] == c);
    let t = "rdf:type"@;
    assert(t == RDF_TYPE@);
    assert forall|x: Seq<char>| #[trigger]
        lists_fact(reply, x, t, "literal"@, c.subclass) implies lists_fact(
        reply,
        x,
        t,
        "literal"@,
        c.superclass,
    ) by {
        lemma_listed(pre, b, args, z, reply, x, t, "literal"@, c.subclass);
        lemma_listed(pre, b, args, z, reply, x, t, "literal"@, c.superclass);
        let f = fact_of(x, t, "literal"@, c.subclass);
        let g = fact_of(x, t, "literal"@, c.superclass);
        assert(s.contains(f));
        assert(class_gives(s, o.classes[i], g));
        assert(follows(s, o, g));
    }
}

/// An answer of `memory_reason` that was not cut short is closed under every
/// axiom that came with the call: under each object of `properties` by the rule
/// of its kind, and under each object of `classes`.
pub proof fn law_answers_obey_their_axioms<
    R: MemoryRepository + NeighborSource<Error = StoreError> + TripleStore,
>(pre: R, b: Budget, args: JsonModel, post: R, r: ToolAnswer, l: Seq<JsonModel>, i: int)
    requires
        reason_tool(pre, b, args, post, r),
        r is Ok,
        is_whole(r->Ok_0),
        0 <= i < l.len(),
    ensures
        args.member("properties"@) == Some(JsonModel::Array(l)) ==> obeys_property(r->Ok_0, l[i]),
        args.member("classes"@) == Some(JsonModel::Array(l)) ==> obeys_class(r->Ok_0, l[i]),
{
    let z = lemma_behind(pre, b, args, post, r);
    lemma_whole(pre, b, args, z, r->Ok_0);
    if args.member("properties"@) == Some(JsonModel::Array(l)) {
        lemma_obeys_property(pre, b, args, z, r->Ok_0, l, i);
    }
    if args.member("classes"@) == Some(JsonModel::Array(l)) {
        lemma_obeys_class(pre, b, args, z, r->Ok_0, l, i);
    }
}

proof fn lemma_whole<R: MemoryRepository>(
    pre: R,
    b: Budget,
    args: JsonModel,
    z: Behind,
    reply: JsonModel,
)
    requires
        is_behind(pre, b, args, z, reply),
        is_whole(reply),
    ensures
        closed(result_of(z).triples, combined(z.inline, z.loaded)),
        within(z.facts, result_of(z).triples),
{
    let h = reason_head(args, b)->Ok_0;
    lemma_reply_members(
        h.root,
        z.facts,
        result_of(z),
        z.t,
        h.ontology_id,
        flag_arg(args, "persist"@, true),
    );
    law_closure_is_complete(z.facts, combined(z.inline, z.loaded), z.limits);
}

// ---------------------------------------------------------------------
// Facts
// ---------------------------------------------------------------------

proof fn lemma_document_facts(
    x: Seq<char>,
    d: DocModel,
    p: Seq<char>,
    kind: Seq<char>,
    value: Seq<char>,
)
    requires
        is_kind(kind),
    ensures
        document_facts(x, d.doc_type, d.tags, d.links).contains(fact_of(x, p, kind, value))
            <==> document_says(d, p, kind, value),
{
    lemma_kinds_differ();
    let l = document_facts(x, d.doc_type, d.tags, d.links);
    let f = fact_of(x, p, kind, value);
    let n = d.tags.len() as int;
    assert(l.len() == 1 + n + d.links.len());
    if l.contains(f) {
        let k = choose|k: int| 0 <= k < l.len() && l[k] == f;
        if k == 0 {
            assert(f == crate::ontology::literal_fact(x, RDF_TYPE@, d.doc_type));
        } else if k <= n {
            assert(f == crate::ontology::literal_fact(x, crate::ontology::TAG@, d.tags[k - 1]));
        } else {
            assert(f == crate::ontology::link_fact(x, d.links[k - 1 - n]));
        }
    }
    if document_says(d, p, kind, value) {
        if p == "rdf:type"@ && kind == "literal"@ && value == d.doc_type {
            assert(l[0] == f);
        } else if p == "tag"@ && kind == "literal"@ && d.tags.contains(value) {
            let i = choose|i: int| 0 <= i < d.tags.len() && d.tags[i] == value;
            assert(l[1 + i] == f);
        } else {
            let i = choose|i: int|
                0 <= i < d.links.len() && (#[trigger] d.links[i]).target == value && p == (
                match d.links[i].rel {
                    Some(rel) => rel,
                    None => "related"@,
                });
            assert(l[1 + n + i] == f);
        }
    }
}

spec fn gave(vis: Seq<VisitedModel>, gs: Gets, i: int, f: TripleModel) -> bool {
    &&& vis[i].exists
    &&& gs[i] is Ok
    &&& gs[i]->Ok_0 is Some
    &&& vis[i].id == f.subject
    &&& ({
        let d = gs[i]->Ok_0->0;
        document_facts(vis[i].id, d.doc_type, d.tags, d.links).contains(f)
    })
}

proof fn lemma_subjects(x: Seq<char>, d: DocViewModel, f: TripleModel)
    requires
        document_facts(x, d.doc_type, d.tags, d.links).contains(f),
    ensures
        f.subject == x,
{
}

proof fn lemma_gathered(vis: Seq<VisitedModel>, gs: Gets, n: int, f: TripleModel)
    requires
        0 <= n <= gs.len() <= vis.len(),
        gathered(vis, gs, n) is Ok,
    ensures
        gathered(vis, gs, n)->Ok_0.contains(f) <==> exists|i: int|
            0 <= i < n && #[trigger] gave(vis, gs, i, f),
    decreases n,
{
    if n > 0 {
        lemma_gathered(vis, gs, n - 1, f);
        let before = gathered(vis, gs, n - 1)->Ok_0;
        let all = gathered(vis, gs, n)->Ok_0;
        if vis[n - 1].exists && gs[n - 1]->Ok_0 is Some {
            let d = gs[n - 1]->Ok_0->0;
            let more = document_facts(vis[n - 1].id, d.doc_type, d.tags, d.links);
            crate::reason::lemma_concat_contains(before, more, f);
            if more.contains(f) {
                lemma_subjects(vis[n - 1].id, d, f);
                assert(gave(vis, gs, n - 1, f));
            }
        }
        if exists|i: int| 0 <= i < n && #[trigger] gave(vis, gs, i, f) {
            let i = choose|i: int| 0 <= i < n && #[trigger] gave(vis, gs, i, f);
            if i < n - 1 {
                assert(gave(vis, gs, i, f));
            }
        }
    }
}

spec fn was_visited(vis: Seq<VisitedModel>, x: Seq<char>) -> bool {
    exists|k: int| 0 <= k < vis.len() && (#[trigger] vis[k]).id == x && vis[k].exists
}

spec fn is_said(s: StoreModel, x: Seq<char>, p: Seq<char>, kind: Seq<char>, value: Seq<char>) -> bool {
    exists|raw: Seq<char>| #[trigger]
        holds_document(s, x, raw) && parsed(raw, default_budget()) is Ok && document_says(
            parsed(raw, default_budget())->Ok_0,
            p,
            kind,
            value,
        )
}

proof fn lemma_near<R: MemoryRepository>(
    pre: R,
    b: Budget,
    args: JsonModel,
    z: Behind,
    reply: JsonModel,
    x: Seq<char>,
)
    requires
        is_behind(pre, b, args, z, reply),
    ensures
        is_near(reply, x) <==> was_visited(z.t.visited, x),
{
    let h = reason_head(args, b)->Ok_0;
    let vis = z.t.visited;
    lemma_reply_members(
        h.root,
        z.facts,
        result_of(z),
        z.t,
        h.ontology_id,
        flag_arg(args, "persist"@, true),
    );
    let l = Seq::new(vis.len(), |i: int| brief_json(vis[i]));
    assert(reply.member("neighborhood"@) == Some(JsonModel::Array(l)));
    if is_near(reply, x) {
        let k = choose|k: int|
            0 <= k < l.len() && (#[trigger] l[k]).member("concept_id"@) == Some(
                JsonModel::String(x),
            ) && l[k].member("exists"@) == Some(JsonModel::Bool(true));
        lemma_brief(vis[k]);
        assert(JsonModel::String(vis[k].id) == JsonModel::String(x));
        assert(JsonModel::Bool(vis[k].exists) == JsonModel::Bool(true));
    }
    if was_visited(vis, x) {
        let k = choose|k: int| 0 <= k < vis.len() && (#[trigger] vis[k]).id == x && vis[k].exists;
        lemma_brief(vis[k]);
        assert(l[k].member("concept_id"@) == Some(JsonModel::String(x)));
    }
}

proof fn lemma_read(s: StoreModel, x: Seq<char>, f: TripleModel, d: DocViewModel)
    requires
        store_ok(s),
        got(s, x) == Answer::<Option<DocViewModel>>::Ok(Some(d)),
    ensures
        holds_document(s, x, d.raw),
        forall|raw: Seq<char>| holds_document(s, x, raw) ==> raw == d.raw,
        parsed(d.raw, default_budget()) is Ok,
        d.doc_type == parsed(d.raw, default_budget())->Ok_0.doc_type,
        d.tags == parsed(d.raw, default_budget())->Ok_0.tags,
        d.links == parsed(d.raw, default_budget())->Ok_0.links,
{
    lemma_holds(s, x, d.raw);
    assert forall|raw: Seq<char>| holds_document(s, x, raw) implies raw == d.raw by {
        lemma_holds(s, x, raw);
    }
}

#[verifier::spinoff_prover]
proof fn lemma_said(
    pre: InMemoryStore,
    vis: Seq<VisitedModel>,
    gs: Gets,
    x: Seq<char>,
    p: Seq<char>,
    kind: Seq<char>,
    value: Seq<char>,
)
    requires
        store_ok(pre@),
        asked(pre, vis, gs),
        gathered_all(vis, gs) is Ok,
        is_kind(kind),
    ensures
        gathered_all(vis, gs)->Ok_0.contains(fact_of(x, p, kind, value)) <==> was_visited(vis, x)
            && is_said(pre@, x, p, kind, value),
{
    let f = fact_of(x, p, kind, value);
    lemma_gathered(vis, gs, gs.len() as int, f);
    assert(gs.len() == vis.len());
    if gathered_all(vis, gs)->Ok_0.contains(f) {
        let i = choose|i: int| 0 <= i < gs.len() && #[trigger] gave(vis, gs, i, f);
        assert(pre.get_rel(vis[i].id, gs[i]));
        let d = gs[i]->Ok_0->0;
        lemma_read(pre@, x, f, d);
        lemma_document_facts(x, parsed(d.raw, default_budget())->Ok_0, p, kind, value);
    }
    if was_visited(vis, x) && is_said(pre@, x, p, kind, value) {
        let k = choose|k: int| 0 <= k < vis.len() && (#[trigger] vis[k]).id == x && vis[k].exists;
        let raw = choose|raw: Seq<char>| #[trigger]
            holds_document(pre@, x, raw) && parsed(raw, default_budget()) is Ok && document_says(
                parsed(raw, default_budget())->Ok_0,
                p,
                kind,
                value,
            );
        assert(pre.get_rel(vis[k].id, gs[k]));
        lemma_holds(pre@, x, raw);
        let d = gs[k]->Ok_0->0;
        assert(got(pre@, x) == Answer::<Option<DocViewModel>>::Ok(Some(d)));
        lemma_read(pre@, x, f, d);
        lemma_document_facts(x, parsed(raw, default_budget())->Ok_0, p, kind, value);
        assert(gave(vis, gs, k, f));
    }
}

/// The facts that reasoning starts from are those that the documents of the
/// neighbourhood state.
proof fn lemma_stated(
    pre: InMemoryStore,
    b: Budget,
    args: JsonModel,
    z: Behind,
    reply: JsonModel,
    x: Seq<char>,
    p: Seq<char>,
    kind: Seq<char>,
    value: Seq<char>,
)
    requires
        store_ok(pre@),
        is_behind(pre, b, args, z, reply),
        is_kind(kind),
    ensures
        z.facts.contains(fact_of(x, p, kind, value)) <==> is_stated(
            pre@,
            reply,
            x,
            p,
            kind,
            value,
        ),
{
    lemma_near(pre, b, args, z, reply, x);
    lemma_said(pre, z.t.visited, z.gs, x, p, kind, value);
    assert(is_stated(pre@, reply, x, p, kind, value) <==> is_near(reply, x) && is_said(
        pre@,
        x,
        p,
        kind,
        value,
    ));
}

/// What an answer of `memory_reason` lists as not derived is what the documents
/// of the neighbourhood state, and where it was not cut short, it lists all of
/// that.
pub proof fn law_facts_come_from_documents(
    pre: InMemoryStore,
    b: Budget,
    args: JsonModel,
    post: InMemoryStore,
    r: ToolAnswer,
    x: Seq<char>,
    p: Seq<char>,
    kind: Seq<char>,
    value: Seq<char>,
)
    requires
        store_ok(pre@),
        reason_tool(pre, b, args, post, r),
        r is Ok,
        is_kind(kind),
    ensures
        is_whole(r->Ok_0) && is_stated(pre@, r->Ok_0, x, p, kind, value) ==> lists_fact(
            r->Ok_0,
            x,
            p,
            kind,
            value,
        ),
        forall|k: int|
            0 <= k < facts_listed(r->Ok_0).len() && says(
                #[trigger] facts_listed(r->Ok_0)[k],
                x,
                p,
                kind,
                value,
            ) ==> facts_listed(r->Ok_0)[k].member("derived"@) == Some(
                JsonModel::Bool(!is_stated(pre@, r->Ok_0, x, p, kind, value)),
            ),
{
    let reply = r->Ok_0;
    let z = lemma_behind(pre, b, args, post, r);
    let h = reason_head(args, b)->Ok_0;
    let m = result_of(z);
    lemma_stated(pre, b, args, z, reply, x, p, kind, value);
    lemma_listed(pre, b, args, z, reply, x, p, kind, value);
    lemma_reply_members(
        h.root,
        z.facts,
        m,
        z.t,
        h.ontology_id,
        flag_arg(args, "persist"@, true),
    );
    if is_whole(reply) {
        lemma_whole(pre, b, args, z, reply);
    }
    assert forall|k: int|
        0 <= k < facts_listed(reply).len() && says(
            #[trigger] facts_listed(reply)[k],
            x,
            p,
            kind,
            value,
        ) implies facts_listed(reply)[k].member("derived"@) == Some(
        JsonModel::Bool(!is_stated(pre@, reply, x, p, kind, value)),
    ) by {
        lemma_says(m.triples[k], !z.facts.contains(m.triples[k]), x, p, kind, value);
    }
}

// ---------------------------------------------------------------------
// Nothing else
// ---------------------------------------------------------------------

/// A set of facts, by subject, predicate, kind and value.
pub type FactSet = spec_fn(Seq<char>, Seq<char>, Seq<char>, Seq<char>) -> bool;

/// A set of facts to which an axiom about predicates adds nothing.
pub open spec fn respects_property(m: FactSet, a: JsonModel) -> bool {
    match a.member("kind"@) {
        Some(JsonModel::String(kind)) => {
            &&& kind == "sub_property_of"@ ==> forall|x: Seq<char>, k: Seq<char>, y: Seq<char>|
                #![trigger m(x, a.member("sub"@)->0->String_0, k, y)]
                is_kind(k) && m(x, a.member("sub"@)->0->String_0, k, y) ==> m(
                    x,
                    a.member("sup"@)->0->String_0,
                    k,
                    y,
                )
            &&& kind == "symmetric"@ ==> forall|x: Seq<char>, y: Seq<char>|
                #![trigger m(x, a.member("property"@)->0->String_0, "concept"@, y)]
                m(x, a.member("property"@)->0->String_0, "concept"@, y) ==> m(
                    y,
                    a.member("property"@)->0->String_0,
                    "concept"@,
                    x,
                )
            &&& kind == "inverse_of"@ ==> forall|x: Seq<char>, y: Seq<char>|
                #![trigger m(x, a.member("property"@)->0->String_0, "concept"@, y)]
                m(x, a.member("property"@)->0->String_0, "concept"@, y) ==> m(
                    y,
                    a.member("inverse"@)->0->String_0,
                    "concept"@,
                    x,
                )
            &&& kind == "transitive"@ ==> forall|x: Seq<char>, y: Seq<char>, z: Seq<char>|
                #![trigger m(x, a.member("property"@)->0->String_0, "concept"@, y),
                    m(y, a.member("property"@)->0->String_0, "concept"@, z)]
                m(x, a.member("property"@)->0->String_0, "concept"@, y) && m(
                    y,
                    a.member("property"@)->0->String_0,
                    "concept"@,
                    z,
                ) ==> m(x, a.member("property"@)->0->String_0, "concept"@, z)
        },
        _ => true,
    }
}

/// A set of facts to which an axiom about classes adds nothing.
pub open spec fn respects_class(m: FactSet, a: JsonModel) -> bool {
    forall|x: Seq<char>|
        #![trigger m(x, "rdf:type"@, "literal"@, a.member("subclass"@)->0->String_0)]
        m(x, "rdf:type"@, "literal"@, a.member("subclass"@)->0->String_0) ==> m(
            x,
            "rdf:type"@,
            "literal"@,
            a.member("superclass"@)->0->String_0,
        )
}

/// A set of facts to which the axioms of a call add nothing.
pub open spec fn respects_call(m: FactSet, args: JsonModel) -> bool {
    &&& args.member("properties"@) matches Some(JsonModel::Array(l)) ==> forall|i: int|
        0 <= i < l.len() ==> respects_property(m, #[trigger] l[i])
    &&& args.member("classes"@) matches Some(JsonModel::Array(l)) ==> forall|i: int|
        0 <= i < l.len() ==> respects_class(m, #[trigger] l[i])
}

spec fn fact_in(m: FactSet, f: TripleModel) -> bool {
    match f.object {
        ObjectModel::Concept(y) => m(f.subject, f.predicate, "concept"@, y),
        ObjectModel::Literal(y) => m(f.subject, f.predicate, "literal"@, y),
    }
}

/// What one more step gives of facts in `m` is in `m`.
#[verifier::spinoff_prover]
proof fn lemma_step_stays(m: FactSet, args: JsonModel, s: Triples, x: TripleModel)
    requires
        inline_ontology(args) is Ok,
        respects_call(m, args),
        forall|f: TripleModel| #[trigger] s.contains(f) ==> fact_in(m, f),
        follows(s, inline_ontology(args)->Ok_0, x),
    ensures
        fact_in(m, x),
{
    let o = inline_ontology(args)->Ok_0;
    lemma_kinds_differ();
    if exists|i: int| 0 <= i < o.classes.len() && class_gives(s, #[trigger] o.classes[i], x) {
        let i = choose|i: int| 0 <= i < o.classes.len() && class_gives(s, #[trigger] o.classes[i], x);
        let l = args.member("classes"@)->0->Array_0;
        lemma_classes_to(l, l.len() as int);
        assert(class_arg(l[i]) == Ok::<_, crate::mcp::ToolErrorModel>(o.classes[i]));
        assert(respects_class(m, l[i]));
        let t = choose|t: TripleModel| #[trigger]
            s.contains(t) && t.predicate == RDF_TYPE@ && t.object == ObjectModel::Literal(
                o.classes[i].subclass,
            ) && x == crate::ontology::literal_fact(t.subject, RDF_TYPE@, o.classes[i].superclass);
        assert(fact_in(m, t));
    } else {
        let i = choose|i: int|
            0 <= i < o.properties.len() && axiom_gives(s, #[trigger] o.properties[i], x);
        let l = args.member("properties"@)->0->Array_0;
        lemma_axioms_to(l, l.len() as int);
        assert(axiom_arg(l[i]) == Ok::<_, crate::mcp::ToolErrorModel>(o.properties[i]));
        let a = l[i];
        assert(respects_property(m, a));
        match o.properties[i] {
            AxiomModel::SubPropertyOf { sub, sup } => {
                let t = choose|t: TripleModel| #[trigger]
                    s.contains(t) && t.predicate == sub && x == (TripleModel {
                        predicate: sup,
                        ..t
                    });
                assert(fact_in(m, t));
                assert(a.member("kind"@) == Some(JsonModel::String("sub_property_of"@)));
            },
            AxiomModel::Symmetric(p) => {
                let t = choose|t: TripleModel| #[trigger]
                    s.contains(t) && t.predicate == p && t.object == ObjectModel::Concept(
                        x.subject,
                    ) && x.predicate == p && x.object == ObjectModel::Concept(t.subject);
                assert(fact_in(m, t));
                assert(a.member("kind"@) == Some(JsonModel::String("symmetric"@)));
            },
            AxiomModel::InverseOf { property, inverse } => {
                let t = choose|t: TripleModel| #[trigger]
                    s.contains(t) && t.predicate == property && t.object == ObjectModel::Concept(
                        x.subject,
                    ) && x.predicate == inverse && x.object == ObjectModel::Concept(t.subject);
                assert(fact_in(m, t));
                assert(a.member("kind"@) == Some(JsonModel::String("inverse_of"@)));
            },
            AxiomModel::Transitive(p) => {
                let (t, u) = choose|t: TripleModel, u: TripleModel| #[trigger]
                    s.contains(t) && #[trigger] s.contains(u) && t.predicate == p && u.predicate
                        == p && t.object == ObjectModel::Concept(u.subject) && u.object is Concept
                        && x == (TripleModel { object: u.object, ..t });
                assert(fact_in(m, t) && fact_in(m, u));
                assert(a.member("kind"@) == Some(JsonModel::String("transitive"@)));
            },
        }
    }
}

spec fn all_in(m: FactSet, s: Triples) -> bool {
    forall|f: TripleModel| #[trigger] s.contains(f) ==> fact_in(m, f)
}

proof fn lemma_absorbed_stay(m: FactSet, known: Triples, ts: Triples, max: nat)
    requires
        facts_ascend(known),
        all_in(m, known),
        all_in(m, ts),
    ensures
        facts_ascend(absorb(known, ts, 0, max).0),
        all_in(m, absorb(known, ts, 0, max).0),
{
    lemma_absorb(known, ts, 0, max);
    let r = absorb(known, ts, 0, max).0;
    assert forall|f: TripleModel| #[trigger] r.contains(f) implies fact_in(m, f) by {
        if !known.contains(f) {
            let k = choose|k: int| 0 <= k < ts.len() && #[trigger] ts[k] == f;
            assert(ts.contains(f));
        }
    }
}

proof fn lemma_rounds_stay(
    m: FactSet,
    args: JsonModel,
    known: Triples,
    limits: ReasoningBudget,
    used: nat,
)
    requires
        inline_ontology(args) is Ok,
        respects_call(m, args),
        facts_ascend(known),
        all_in(m, known),
    ensures
        all_in(m, rounds_from(known, inline_ontology(args)->Ok_0, limits, used).triples),
    decreases limits.max_iterations - used,
{
    let o = inline_ontology(args)->Ok_0;
    if used < limits.max_iterations {
        let d = derived(known, o);
        assert forall|f: TripleModel| #[trigger] d.contains(f) implies fact_in(m, f) by {
            law_round_is_one_step(known, o, f);
            lemma_step_stays(m, args, known, f);
        }
        lemma_absorbed_stay(m, known, d, limits.max_triples as nat);
        let more = absorb(known, d, 0, limits.max_triples as nat).0;
        if !absorb(known, d, 0, limits.max_triples as nat).1 && more.len() != known.len() {
            lemma_rounds_stay(m, args, more, limits, used + 1);
        }
    }
}

/// With no `ontology_id`, an answer of `memory_reason` lists only what must be
/// so: what is in every set of facts that holds what the documents of the
/// neighbourhood state and to which the axioms of the call add nothing.
pub proof fn law_answers_list_nothing_else(
    pre: InMemoryStore,
    b: Budget,
    args: JsonModel,
    post: InMemoryStore,
    r: ToolAnswer,
    m: FactSet,
)
    requires
        store_ok(pre@),
        reason_tool(pre, b, args, post, r),
        r is Ok,
        args.member("ontology_id"@) is None,
        respects_call(m, args),
        forall|x: Seq<char>, p: Seq<char>, k: Seq<char>, y: Seq<char>|
            is_kind(k) && #[trigger] is_stated(pre@, r->Ok_0, x, p, k, y) ==> m(x, p, k, y),
    ensures
        forall|x: Seq<char>, p: Seq<char>, k: Seq<char>, y: Seq<char>|
            is_kind(k) && #[trigger] lists_fact(r->Ok_0, x, p, k, y) ==> m(x, p, k, y),
{
    let reply = r->Ok_0;
    let z = lemma_behind(pre, b, args, post, r);
    let o = combined(z.inline, z.loaded);
    lemma_kinds_differ();
    assert(o.classes =~= z.inline.classes);
    assert(o.properties =~= z.inline.properties);
    assert(o == z.inline);
    assert forall|f: TripleModel| #[trigger] z.facts.contains(f) implies fact_in(m, f) by {
        match f.object {
            ObjectModel::Concept(y) => {
                assert(f == fact_of(f.subject, f.predicate, "concept"@, y));
                lemma_stated(pre, b, args, z, reply, f.subject, f.predicate, "concept"@, y);
            },
            ObjectModel::Literal(y) => {
                assert(f == fact_of(f.subject, f.predicate, "literal"@, y));
                lemma_stated(pre, b, args, z, reply, f.subject, f.predicate, "literal"@, y);
            },
        }
    }
    let none: Triples = Seq::empty();
    lemma_absorbed_stay(m, none, z.facts, z.limits.max_triples as nat);
    let known = absorb(none, z.facts, 0, z.limits.max_triples as nat).0;
    lemma_rounds_stay(m, args, known, z.limits, 0);
    assert(all_in(m, result_of(z).triples));
    assert forall|x: Seq<char>, p: Seq<char>, k: Seq<char>, y: Seq<char>|
        is_kind(k) && #[trigger] lists_fact(reply, x, p, k, y) implies m(x, p, k, y) by {
        lemma_listed(pre, b, args, z, reply, x, p, k, y);
        assert(fact_in(m, fact_of(x, p, k, y)));
    }
}

// ---------------------------------------------------------------------
// Axioms in documents
// ---------------------------------------------------------------------

/// A reply to which an axiom of a document, by its keyword and its names, adds
/// nothing more.
pub open spec fn obeys_line(reply: JsonModel, keyword: Seq<char>, p: Seq<char>, q: Seq<char>) -> bool {
    &&& keyword == "sub_property_of"@ ==> forall|x: Seq<char>, k: Seq<char>, y: Seq<char>|
        is_kind(k) && #[trigger] lists_fact(reply, x, p, k, y) ==> lists_fact(reply, x, q, k, y)
    &&& keyword == "inverse_of"@ ==> forall|x: Seq<char>, y: Seq<char>| #[trigger]
        lists_fact(reply, x, p, "concept"@, y) ==> lists_fact(reply, y, q, "concept"@, x)
    &&& keyword == "subclass_of"@ ==> forall|x: Seq<char>| #[trigger]
        lists_fact(reply, x, "rdf:type"@, "literal"@, p) ==> lists_fact(
            reply,
            x,
            "rdf:type"@,
            "literal"@,
            q,
        )
}

/// A reply to which an axiom of a document about one predicate adds nothing
/// more.
pub open spec fn obeys_name(reply: JsonModel, keyword: Seq<char>, p: Seq<char>) -> bool {
    &&& keyword == "symmetric"@ ==> forall|x: Seq<char>, y: Seq<char>| #[trigger]
        lists_fact(reply, x, p, "concept"@, y) ==> lists_fact(reply, y, p, "concept"@, x)
    &&& keyword == "transitive"@ ==> forall|x: Seq<char>, y: Seq<char>, z: Seq<char>| #[trigger]
        lists_fact(reply, x, p, "concept"@, y) && #[trigger] lists_fact(
            reply,
            y,
            p,
            "concept"@,
            z,
        ) ==> lists_fact(reply, x, p, "concept"@, z)
}

/// What the reply lists is closed under an axiom that reasoning went by.
#[verifier::spinoff_prover]
proof fn lemma_obeys_axiom<R: MemoryRepository>(
    pre: R,
    b: Budget,
    args: JsonModel,
    z: Behind,
    reply: JsonModel,
    a: AxiomModel,
)
    requires
        is_behind(pre, b, args, z, reply),
        closed(result_of(z).triples, combined(z.inline, z.loaded)),
        z.loaded.properties.contains(a),
    ensures
        match a {
            AxiomModel::SubPropertyOf { sub, sup } => obeys_line(
                reply,
                "sub_property_of"@,
                sub,
                sup,
            ),
            AxiomModel::InverseOf { property, inverse } => obeys_line(
                reply,
                "inverse_of"@,
                property,
                inverse,
            ),
            AxiomModel::Symmetric(p) => obeys_name(reply, "symmetric"@, p),
            AxiomModel::Transitive(p) => obeys_name(reply, "transitive"@, p),
        },
{
    let s = result_of(z).triples;
    let o = combined(z.inline, z.loaded);
    lemma_words();
    lemma_kinds_differ();
    let n = z.inline.properties.len() as int;
    let j = choose|j: int| 0 <= j < z.loaded.properties.len() && z.loaded.properties[j] == a;
    let i = n + j;
    assert(o.properties[i] == a);
    match a {
        AxiomModel::SubPropertyOf { sub: p, sup: q } => {
            assert forall|x: Seq<char>, k: Seq<char>, y: Seq<char>|
                is_kind(k) && #[trigger] lists_fact(reply, x, p, k, y) implies lists_fact(
                reply,
                x,
                q,
                k,
                y,
            ) by {
                lemma_listed(pre, b, args, z, reply, x, p, k, y);
                lemma_listed(pre, b, args, z, reply, x, q, k, y);
                assert(s.contains(fact_of(x, p, k, y)));
                lemma_gives(s, o, i, fact_of(x, q, k, y));
            }
        },
        AxiomModel::InverseOf { property: p, inverse: q } => {
            assert forall|x: Seq<char>, y: Seq<char>| #[trigger]
                lists_fact(reply, x, p, "concept"@, y) implies lists_fact(
                reply,
                y,
                q,
                "concept"@,
                x,
            ) by {
                lemma_listed(pre, b, args, z, reply, x, p, "concept"@, y);
                lemma_listed(pre, b, args, z, reply, y, q, "concept"@, x);
                assert(s.contains(fact_of(x, p, "concept"@, y)));
                lemma_gives(s, o, i, fact_of(y, q, "concept"@, x));
            }
        },
        AxiomModel::Symmetric(p) => {
            assert forall|x: Seq<char>, y: Seq<char>| #[trigger]
                lists_fact(reply, x, p, "concept"@, y) implies lists_fact(
                reply,
                y,
                p,
                "concept"@,
                x,
            ) by {
                lemma_listed(pre, b, args, z, reply, x, p, "concept"@, y);
                lemma_listed(pre, b, args, z, reply, y, p, "concept"@, x);
                assert(s.contains(fact_of(x, p, "concept"@, y)));
                lemma_gives(s, o, i, fact_of(y, p, "concept"@, x));
            }
        },
        AxiomModel::Transitive(p) => {
            assert forall|x: Seq<char>, y: Seq<char>, w: Seq<char>| #[trigger]
                lists_fact(reply, x, p, "concept"@, y) && #[trigger] lists_fact(
                    reply,
                    y,
                    p,
                    "concept"@,
                    w,
                ) implies lists_fact(reply, x, p, "concept"@, w) by {
                lemma_listed(pre, b, args, z, reply, x, p, "concept"@, y);
                lemma_listed(pre, b, args, z, reply, y, p, "concept"@, w);
                lemma_listed(pre, b, args, z, reply, x, p, "concept"@, w);
                let f = fact_of(x, p, "concept"@, y);
                let g = fact_of(y, p, "concept"@, w);
                let e = fact_of(x, p, "concept"@, w);
                assert(s.contains(f) && s.contains(g));
                assert(e == (TripleModel { object: g.object, ..f }));
                assert(axiom_gives(s, a, e));
                lemma_gives(s, o, i, e);
            }
        },
    }
}

proof fn lemma_obeys_subclass<R: MemoryRepository>(
    pre: R,
    b: Budget,
    args: JsonModel,
    z: Behind,
    reply: JsonModel,
    c: SubClassModel,
)
    requires
        is_behind(pre, b, args, z, reply),
        closed(result_of(z).triples, combined(z.inline, z.loaded)),
        z.loaded.classes.contains(c),
    ensures
        obeys_line(reply, "subclass_of"@, c.subclass, c.superclass),
{
    let s = result_of(z).triples;
    let o = combined(z.inline, z.loaded);
    lemma_words();
    lemma_kinds_differ();
    let n = z.inline.classes.len() as int;
    let j = choose|j: int| 0 <= j < z.loaded.classes.len() && z.loaded.classes[j] == c;
    assert(o.classes[n + j] == c);
    let t = "rdf:type"@;
    assert(t == RDF_TYPE@);
    assert forall|x: Seq<char>| #[trigger]
        lists_fact(reply, x, t, "literal"@, c.subclass) implies lists_fact(
        reply,
        x,
        t,
        "literal"@,
        c.superclass,
    ) by {
        lemma_listed(pre, b, args, z, reply, x, t, "literal"@, c.subclass);
        lemma_listed(pre, b, args, z, reply, x, t, "literal"@, c.superclass);
        let f = fact_of(x, t, "literal"@, c.subclass);
        let g = fact_of(x, t, "literal"@, c.superclass);
        assert(s.contains(f));
        assert(class_gives(s, o.classes[n + j], g));
        assert(follows(s, o, g));
    }
}

/// The document that `ontology_id` names is read from its body.
proof fn lemma_loaded(
    pre: InMemoryStore,
    b: Budget,
    args: JsonModel,
    z: Behind,
    reply: JsonModel,
    id: Seq<char>,
    raw: Seq<char>,
)
    requires
        store_ok(pre@),
        is_behind(pre, b, args, z, reply),
        args.member("ontology_id"@) == Some(JsonModel::String(id)),
        holds_document(pre@, id, raw),
    ensures
        declared(body_of(raw, b)) == Ok::<_, AxiomErrorModel>(z.loaded),
{
    let h = reason_head(args, b)->Ok_0;
    assert(h.ontology_id == Some(id));
    let a = choose|a: Answer<Option<DocViewModel>>| #[trigger]
        pre.get_rel(id, a) && crate::args::Parsed::<OntologyModel>::Ok(z.loaded)
            == crate::inference::loaded_answer(id, a, b);
    lemma_holds(pre@, id, raw);
    let d = a->Ok_0->0;
    assert(got(pre@, id) == Answer::<Option<DocViewModel>>::Ok(Some(d)));
    assert(d.raw == raw);
}

/// An answer of `memory_reason` that was not cut short is closed under every
/// axiom of the document that `ontology_id` names: under each line
/// `keyword: p -> q` of its body.
pub proof fn law_answers_obey_arrow_lines(
    pre: InMemoryStore,
    b: Budget,
    args: JsonModel,
    post: InMemoryStore,
    r: ToolAnswer,
    id: Seq<char>,
    raw: Seq<char>,
    k: int,
    keyword: Seq<char>,
    p: Seq<char>,
    q: Seq<char>,
)
    requires
        store_ok(pre@),
        reason_tool(pre, b, args, post, r),
        r is Ok,
        is_whole(r->Ok_0),
        args.member("ontology_id"@) == Some(JsonModel::String(id)),
        holds_document(pre@, id, raw),
        0 <= k < lines(body_of(raw, b)).len(),
        lines(body_of(raw, b))[k] == keyword + ": "@ + (p + " -> "@ + q),
        is_plain(p),
        is_tight(q),
    ensures
        obeys_line(r->Ok_0, keyword, p, q),
{
    let z = lemma_behind(pre, b, args, post, r);
    lemma_whole(pre, b, args, z, r->Ok_0);
    lemma_loaded(pre, b, args, z, r->Ok_0, id, raw);
    law_arrow_lines_declare(body_of(raw, b), k, keyword, p, q);
    lemma_words();
    if keyword == "sub_property_of"@ {
        let a = AxiomModel::SubPropertyOf { sub: p, sup: q };
        lemma_obeys_axiom(pre, b, args, z, r->Ok_0, a);
    } else if keyword == "inverse_of"@ {
        let a = AxiomModel::InverseOf { property: p, inverse: q };
        lemma_obeys_axiom(pre, b, args, z, r->Ok_0, a);
    } else if keyword == "subclass_of"@ {
        let c = SubClassModel { subclass: p, superclass: q };
        lemma_obeys_subclass(pre, b, args, z, r->Ok_0, c);
    }
}

/// The same for each line `keyword: p`.
pub proof fn law_answers_obey_name_lines(
    pre: InMemoryStore,
    b: Budget,
    args: JsonModel,
    post: InMemoryStore,
    r: ToolAnswer,
    id: Seq<char>,
    raw: Seq<char>,
    k: int,
    keyword: Seq<char>,
    p: Seq<char>,
)
    requires
        store_ok(pre@),
        reason_tool(pre, b, args, post, r),
        r is Ok,
        is_whole(r->Ok_0),
        args.member("ontology_id"@) == Some(JsonModel::String(id)),
        holds_document(pre@, id, raw),
        0 <= k < lines(body_of(raw, b)).len(),
        lines(body_of(raw, b))[k] == keyword + ": "@ + p,
        is_tight(p),
    ensures
        obeys_name(r->Ok_0, keyword, p),
{
    let z = lemma_behind(pre, b, args, post, r);
    lemma_whole(pre, b, args, z, r->Ok_0);
    lemma_loaded(pre, b, args, z, r->Ok_0, id, raw);
    law_name_lines_declare(body_of(raw, b), k, keyword, p);
    lemma_words();
    if keyword == "symmetric"@ {
        lemma_obeys_axiom(pre, b, args, z, r->Ok_0, AxiomModel::Symmetric(p));
    } else if keyword == "transitive"@ {
        lemma_obeys_axiom(pre, b, args, z, r->Ok_0, AxiomModel::Transitive(p));
    }
}

// ---------------------------------------------------------------------
// Counts and what is kept
// ---------------------------------------------------------------------

proof fn lemma_fact_set(facts: Triples, n: int)
    requires
        0 <= n <= facts.len(),
    ensures
        facts_ascend(fact_set(facts, n)),
        forall|x: TripleModel| #[trigger]
            fact_set(facts, n).contains(x) <==> facts.take(n).contains(x),
    decreases n,
{
    if n > 0 {
        lemma_fact_set(facts, n - 1);
        lemma_with_fact(fact_set(facts, n - 1), facts[n - 1]);
        assert(facts.take(n) =~= facts.take(n - 1).push(facts[n - 1]));
        assert forall|x: TripleModel| #[trigger] fact_set(facts, n).contains(x)
            <==> facts.take(n).contains(x) by {
            crate::reason::lemma_push_contains(facts.take(n - 1), facts[n - 1], x);
        }
    } else {
        assert(facts.take(0) =~= Seq::empty());
    }
}

proof fn lemma_distinct(s: Triples)
    requires
        facts_ascend(s),
    ensures
        s.no_duplicates(),
{
    assert forall|i: int, j: int| 0 <= i < s.len() && 0 <= j < s.len() && i != j implies s[i]
        != s[j] by {
        crate::ontology::lemma_fact_order(s[i], s[i], s[i]);
        if i < j {
            assert(fact_before(s[i], s[j]));
        } else {
            assert(fact_before(s[j], s[i]));
        }
    }
}

/// Among distinct things, those of a list of distinct ones are as many as that
/// list holds.
proof fn lemma_count_within(s: Triples, f: Triples)
    requires
        s.no_duplicates(),
        f.no_duplicates(),
        within(f, s),
    ensures
        how_many(s, |x: TripleModel| f.contains(x)) == f.len(),
    decreases s.len(),
{
    let p = |x: TripleModel| f.contains(x);
    reveal(Seq::filter);
    if s.len() == 0 {
        if f.len() > 0 {
            assert(f.contains(f[0]));
        }
    } else {
        let t = s.drop_last();
        let last = s.last();
        assert(t.no_duplicates());
        if f.contains(last) {
            let k = choose|k: int| 0 <= k < f.len() && f[k] == last;
            let g = f.remove(k);
            assert(g.no_duplicates());
            assert forall|x: TripleModel| #[trigger] g.contains(x) implies t.contains(x) by {
                let i = choose|i: int| 0 <= i < g.len() && g[i] == x;
                let i0 = if i < k { i } else { i + 1 };
                assert(f[i0] == x);
                assert(f.contains(x));
                let j = choose|j: int| 0 <= j < s.len() && s[j] == x;
                assert(x != last);
                assert(t[j] == x);
            }
            lemma_count_within(t, g);
            lemma_same_count(t, |x: TripleModel| g.contains(x), p, f, k);
        } else {
            assert forall|x: TripleModel| #[trigger] f.contains(x) implies t.contains(x) by {
                let j = choose|j: int| 0 <= j < s.len() && s[j] == x;
                assert(t[j] == x);
            }
            lemma_count_within(t, f);
        }
    }
}

proof fn lemma_same_count(
    t: Triples,
    q: spec_fn(TripleModel) -> bool,
    p: spec_fn(TripleModel) -> bool,
    f: Triples,
    k: int,
)
    requires
        0 <= k < f.len(),
        f.no_duplicates(),
        q == (|x: TripleModel| f.remove(k).contains(x)),
        p == (|x: TripleModel| f.contains(x)),
        !t.contains(f[k]),
    ensures
        how_many(t, q) == how_many(t, p),
    decreases t.len(),
{
    reveal(Seq::filter);
    if t.len() > 0 {
        let x = t.last();
        assert(t.contains(x));
        assert forall|y: TripleModel| #[trigger] t.drop_last().contains(y) implies t.contains(y) by {
            let i = choose|i: int| 0 <= i < t.drop_last().len() && t.drop_last()[i] == y;
            assert(t[i] == y);
        }
        lemma_same_count(t.drop_last(), q, p, f, k);
        let g = f.remove(k);
        if g.contains(x) {
            let i = choose|i: int| 0 <= i < g.len() && g[i] == x;
            assert(f[if i < k { i } else { i + 1 }] == x);
        }
        if f.contains(x) {
            let i = choose|i: int| 0 <= i < f.len() && f[i] == x;
            assert(g[if i < k { i } else { i - 1 }] == x);
        }
    }
}

/// An entry marked as derived or not.
pub open spec fn is_marked(v: JsonModel, derived: bool) -> bool {
    v.member("derived"@) == Some(JsonModel::Bool(derived))
}

proof fn lemma_marks(s: Triples, facts: Triples, n: int)
    requires
        0 <= n <= s.len(),
    ensures
        ({
            let l = Seq::new(s.len(), |i: int| triple_json(s[i], !facts.contains(s[i])));
            &&& how_many(l.take(n), |v: JsonModel| is_marked(v, false)) == how_many(
                s.take(n),
                |x: TripleModel| facts.contains(x),
            )
            &&& how_many(l.take(n), |v: JsonModel| is_marked(v, false)) + how_many(
                l.take(n),
                |v: JsonModel| is_marked(v, true),
            ) == n
        }),
    decreases n,
{
    let l = Seq::new(s.len(), |i: int| triple_json(s[i], !facts.contains(s[i])));
    if n > 0 {
        lemma_marks(s, facts, n - 1);
        lemma_how_many(l, n, |v: JsonModel| is_marked(v, false));
        lemma_how_many(l, n, |v: JsonModel| is_marked(v, true));
        lemma_how_many(s, n, |x: TripleModel| facts.contains(x));
        lemma_says(s[n - 1], !facts.contains(s[n - 1]), ""@, ""@, "concept"@, ""@);
    } else {
        reveal(Seq::filter);
        assert(l.take(0) =~= Seq::empty());
        assert(s.take(0) =~= Seq::empty());
    }
}

/// The two counts of an answer that was not cut short are those of the entries
/// that are not derived and of those that are, and no entry is listed twice.
pub proof fn law_counts_are_of_the_entries<
    R: MemoryRepository + NeighborSource<Error = StoreError> + TripleStore,
>(pre: R, b: Budget, args: JsonModel, post: R, r: ToolAnswer)
    requires
        reason_tool(pre, b, args, post, r),
        r is Ok,
        is_whole(r->Ok_0),
    ensures
        r->Ok_0.member("asserted_count"@) == Some(
            number(how_many(facts_listed(r->Ok_0), |v: JsonModel| is_marked(v, false))),
        ),
        r->Ok_0.member("derived_count"@) == Some(
            number(how_many(facts_listed(r->Ok_0), |v: JsonModel| is_marked(v, true))),
        ),
        forall|i: int, j: int, x: Seq<char>, p: Seq<char>, k: Seq<char>, y: Seq<char>|
            0 <= i < facts_listed(r->Ok_0).len() && 0 <= j < facts_listed(r->Ok_0).len()
                && is_kind(k) && #[trigger] says(facts_listed(r->Ok_0)[i], x, p, k, y)
                && #[trigger] says(facts_listed(r->Ok_0)[j], x, p, k, y) ==> i == j,
{
    let reply = r->Ok_0;
    let z = lemma_behind(pre, b, args, post, r);
    let h = reason_head(args, b)->Ok_0;
    let m = result_of(z);
    let s = m.triples;
    lemma_reply_members(
        h.root,
        z.facts,
        m,
        z.t,
        h.ontology_id,
        flag_arg(args, "persist"@, true),
    );
    lemma_whole(pre, b, args, z, reply);
    law_closure_is_sound(z.facts, combined(z.inline, z.loaded), z.limits, s);
    lemma_distinct(s);
    let n = z.facts.len() as int;
    let f = fact_set(z.facts, n);
    lemma_fact_set(z.facts, n);
    assert(z.facts.take(n) =~= z.facts);
    lemma_distinct(f);
    lemma_count_within(s, f);
    let p = |x: TripleModel| f.contains(x);
    let q = |x: TripleModel| z.facts.contains(x);
    assert(p =~= q);
    lemma_marks(s, z.facts, s.len() as int);
    let l = facts_listed(reply);
    assert(l.take(s.len() as int) =~= l);
    assert(s.take(s.len() as int) =~= s);
    assert forall|i: int, j: int, x: Seq<char>, p: Seq<char>, k: Seq<char>, y: Seq<char>|
        0 <= i < l.len() && 0 <= j < l.len() && is_kind(k) && #[trigger] says(l[i], x, p, k, y)
            && #[trigger] says(l[j], x, p, k, y) implies i == j by {
        lemma_says(s[i], !z.facts.contains(s[i]), x, p, k, y);
        lemma_says(s[j], !z.facts.contains(s[j]), x, p, k, y);
    }
}

// ---------------------------------------------------------------------
// Keeping
// ---------------------------------------------------------------------

proof fn lemma_run(ts: Triples, i: int, j: int)
    requires
        0 <= i < j <= ts.len(),
        forall|k: int| i <= k < j ==> (#[trigger] ts[k]).subject == ts[i].subject,
    ensures
        j <= run_end(ts, i, j) <= ts.len(),
        forall|k: int|
            i <= k < run_end(ts, i, j) ==> (#[trigger] ts[k]).subject == ts[i].subject,
        run_end(ts, i, j) < ts.len() ==> ts[run_end(ts, i, j)].subject != ts[i].subject,
    decreases ts.len() - j,
{
    if j < ts.len() && ts[j].subject == ts[i].subject {
        lemma_run(ts, i, j + 1);
    }
}

/// After a run, its subject does not come again.
proof fn lemma_after_run(ts: Triples, i: int, j: int, k: int)
    requires
        facts_ascend(ts),
        0 <= i < j <= k < ts.len(),
        ts[j].subject != ts[i].subject,
    ensures
        ts[k].subject != ts[i].subject,
{
    assert(fact_before(ts[i], ts[j]));
    if j < k {
        assert(fact_before(ts[j], ts[k]));
        if ts[k].subject != ts[j].subject {
            lemma_before_transitive(ts[i].subject, ts[j].subject, ts[k].subject);
        }
    }
    lemma_before_irreflexive(ts[i].subject);
    assert(before(ts[i].subject, ts[k].subject));
}

/// The facts on record about the subject of `f` are those of `ts`, and `f` is
/// one of them.
spec fn is_kept(s: StoreModel, ts: Triples, f: TripleModel) -> bool {
    lookup(s.triples, f.subject) matches Some(l) && l.contains(f) && within(l, ts)
}

proof fn lemma_saves(
    pre: InMemoryStore,
    ts: Triples,
    i: int,
    post: InMemoryStore,
    e: Option<StoreErrorModel>,
)
    requires
        facts_ascend(ts),
        0 <= i <= ts.len(),
        saves(pre, ts, i, post, e),
        ascending(pre@.triples),
    ensures
        e is None,
        post@ == (StoreModel { triples: post@.triples, ..pre@ }),
        forall|k: int| i <= k < ts.len() ==> is_kept(post@, ts, #[trigger] ts[k]),
        forall|x: Seq<char>|
            (forall|k: int| i <= k < ts.len() ==> (#[trigger] ts[k]).subject != x)
                ==> #[trigger] lookup(post@.triples, x) == lookup(pre@.triples, x),
    decreases ts.len() - i,
{
    if i < ts.len() {
        lemma_run(ts, i, i + 1);
        let j = run_end(ts, i, i + 1);
        let part = ts.subrange(i, j);
        let a = ts[i].subject;
        let (mid, x) = choose|mid: InMemoryStore, x: Option<StoreErrorModel>| #[trigger]
            InMemoryStore::save_rel(pre, a, part, mid, x) && (match x {
                Some(err) => post == mid && e == Some(err),
                None => saves(mid, ts, j, post, e),
            });
        lemma_put_ascending(pre@.triples, a, part);
        lemma_saves(mid, ts, j, post, e);
        lemma_lookup_put(pre@.triples, a, part, a);
        assert forall|k: int| j <= k < ts.len() implies (#[trigger] ts[k]).subject != a by {
            lemma_after_run(ts, i, j, k);
        }
        assert(lookup(post@.triples, a) == Some(part));
        assert(within(part, ts)) by {
            assert forall|k: int| 0 <= k < part.len() implies ts.contains(#[trigger] part[k]) by {
                assert(part[k] == ts[i + k]);
            }
        }
        assert forall|k: int| i <= k < ts.len() implies is_kept(post@, ts, #[trigger] ts[k]) by {
            if k < j {
                assert(part[k - i] == ts[k]);
                assert(part.contains(ts[k]));
            }
        }
        assert forall|q: Seq<char>|
            (forall|k: int| i <= k < ts.len() ==> (#[trigger] ts[k]).subject != q) implies
            #[trigger] lookup(post@.triples, q) == lookup(pre@.triples, q) by {
            assert(ts[i].subject != q);
            lemma_lookup_put(pre@.triples, a, part, q);
        }
    }
}

/// A store has it on record that `x` has `p`, of a kind and with a value.
pub open spec fn has_on_record(
    s: StoreModel,
    x: Seq<char>,
    p: Seq<char>,
    kind: Seq<char>,
    value: Seq<char>,
) -> bool {
    lookup(s.triples, x) matches Some(l) && exists|i: int|
        0 <= i < l.len() && (#[trigger] l[i]).subject == x && l[i].predicate == p
            && match l[i].object {
            ObjectModel::Concept(y) => kind == "concept"@ && value == y,
            ObjectModel::Literal(y) => kind == "literal"@ && value == y,
        }
}

/// Unless it is told not to, `memory_reason` puts every fact that it lists on
/// record, under its subject, and touches nothing else; with `persist` false it
/// changes nothing at all.
pub proof fn law_listed_facts_are_kept(
    pre: InMemoryStore,
    b: Budget,
    args: JsonModel,
    post: InMemoryStore,
    r: ToolAnswer,
)
    requires
        store_ok(pre@),
        reason_tool(pre, b, args, post, r),
        r is Ok,
    ensures
        args.member("persist"@) == Some(JsonModel::Bool(false)) ==> post@ == pre@,
        post@ == (StoreModel { triples: post@.triples, ..pre@ }),
        args.member("persist"@) is None || args.member("persist"@) == Some(JsonModel::Bool(true))
            ==> forall|x: Seq<char>, p: Seq<char>, k: Seq<char>, y: Seq<char>|
            is_kind(k) && #[trigger] lists_fact(r->Ok_0, x, p, k, y) ==> has_on_record(
                post@,
                x,
                p,
                k,
                y,
            ),
{
    let reply = r->Ok_0;
    let z = lemma_behind(pre, b, args, post, r);
    let o = combined(z.inline, z.loaded);
    let ts = result_of(z).triples;
    lemma_kinds_differ();
    law_closure_is_sound(z.facts, o, z.limits, ts);
    if flag_arg(args, "persist"@, true) {
        let e = choose|e: Option<StoreErrorModel>| #[trigger]
            saves(pre, ts, 0, post, e) && r == crate::inference::kept_answer(reply, e);
        lemma_saves(pre, ts, 0, post, e);
        assert forall|x: Seq<char>, p: Seq<char>, k: Seq<char>, y: Seq<char>|
            is_kind(k) && #[trigger] lists_fact(reply, x, p, k, y) implies has_on_record(
            post@,
            x,
            p,
            k,
            y,
        ) by {
            lemma_listed(pre, b, args, z, reply, x, p, k, y);
            let f = fact_of(x, p, k, y);
            let n = choose|n: int| 0 <= n < ts.len() && ts[n] == f;
            assert(is_kept(post@, ts, ts[n]));
            let l = lookup(post@.triples, x)->0;
            let i = choose|i: int| 0 <= i < l.len() && l[i] == f;
            assert(l[i].subject == x);
        }
    }
}

} // verus!

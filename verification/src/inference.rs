//! The tool that reasons over a neighbourhood.

use vstd::prelude::*;
use vstd::slice::slice_subrange;
use crate::args::{
    arg_flag, arg_list, arg_usize, flag_arg, invalid, list_arg, need_id, need_text, require_id,
    require_str, size_arg, Parsed,
};
use crate::axioms::{declared, parse_ontology_document};
use crate::graph::{NeighborSource, Traversal, TraversalModel, Visited, VisitedModel};
use crate::json::{arr, empty_object, n, number, opt_text, s, Fields, JsonModel, Value};
use crate::mcp::{ToolAnswer, ToolError, ToolErrorModel};
use crate::model::{Budget, ConceptId};
use crate::okf::{parse_document, parsed, split, split_frontmatter};
use crate::ontology::{
    add_fact, document_facts, facts_ascend, facts_of, has_fact, lemma_with_fact, no_axioms,
    with_fact, AxiomModel, Materialized, MaterializedModel, Ontology, OntologyModel, PropertyAxiom,
    ReasoningBudget, SubClassModel, SubClassOf, Triple, Triples,
};
use crate::reading::{limit_depth, walk_from, walks, with_depth, WalkAnswer};
use crate::reason::{closure, materialize};
use crate::replies::{domain, domain_error, flag, not_found, triple_json, triple_to_json, txt};
use crate::repo::{Answer, MemoryRepository, TripleStore};
use crate::store::{DocViewModel, DocumentView, StoreError, StoreErrorModel};
use crate::text::{
    chars_of, debug_text, lemma_views_push, opt_view, part_from, quoted, res_view, str_eq,
    string_of, views,
};
use crate::writing::{arg_id, id_arg, list_result};

verus! {

// ---------------------------------------------------------------------
// Axioms in the arguments
// ---------------------------------------------------------------------

pub open spec fn class_arg(a: JsonModel) -> Parsed<SubClassModel> {
    match need_text(a, "subclass"@) {
        Err(e) => Err(e),
        Ok(subclass) => match need_text(a, "superclass"@) {
            Err(e) => Err(e),
            Ok(superclass) => Ok(SubClassModel { subclass, superclass }),
        },
    }
}

pub open spec fn classes_to(l: Seq<JsonModel>, n: int) -> Parsed<Seq<SubClassModel>>
    decreases n,
{
    if n <= 0 {
        Ok(Seq::empty())
    } else {
        match classes_to(l, n - 1) {
            Err(e) => Err(e),
            Ok(before) => match class_arg(l[n - 1]) {
                Err(e) => Err(e),
                Ok(c) => Ok(before.push(c)),
            },
        }
    }
}

pub open spec fn unknown_axiom(kind: Seq<char>) -> Seq<char> {
    "'kind' de axioma de propiedad desconocido: "@ + debug_text(kind)
        + " (usa transitive | symmetric | sub_property_of | inverse_of)"@
}

pub open spec fn axiom_arg(a: JsonModel) -> Parsed<AxiomModel> {
    match need_text(a, "kind"@) {
        Err(e) => Err(e),
        Ok(kind) => if kind == "transitive"@ {
            match need_text(a, "property"@) {
                Err(e) => Err(e),
                Ok(p) => Ok(AxiomModel::Transitive(p)),
            }
        } else if kind == "symmetric"@ {
            match need_text(a, "property"@) {
                Err(e) => Err(e),
                Ok(p) => Ok(AxiomModel::Symmetric(p)),
            }
        } else if kind == "sub_property_of"@ {
            match need_text(a, "sub"@) {
                Err(e) => Err(e),
                Ok(sub) => match need_text(a, "sup"@) {
                    Err(e) => Err(e),
                    Ok(sup) => Ok(AxiomModel::SubPropertyOf { sub, sup }),
                },
            }
        } else if kind == "inverse_of"@ {
            match need_text(a, "property"@) {
                Err(e) => Err(e),
                Ok(property) => match need_text(a, "inverse"@) {
                    Err(e) => Err(e),
                    Ok(inverse) => Ok(AxiomModel::InverseOf { property, inverse }),
                },
            }
        } else {
            invalid(unknown_axiom(kind))
        },
    }
}

pub open spec fn axioms_to(l: Seq<JsonModel>, n: int) -> Parsed<Seq<AxiomModel>>
    decreases n,
{
    if n <= 0 {
        Ok(Seq::empty())
    } else {
        match axioms_to(l, n - 1) {
            Err(e) => Err(e),
            Ok(before) => match axiom_arg(l[n - 1]) {
                Err(e) => Err(e),
                Ok(x) => Ok(before.push(x)),
            },
        }
    }
}

pub open spec fn classes_arg(a: JsonModel) -> Parsed<Seq<SubClassModel>> {
    match list_arg(a, "classes"@) {
        None => Ok(Seq::empty()),
        Some(l) => classes_to(l, l.len() as int),
    }
}

pub open spec fn axioms_arg(a: JsonModel) -> Parsed<Seq<AxiomModel>> {
    match list_arg(a, "properties"@) {
        None => Ok(Seq::empty()),
        Some(l) => axioms_to(l, l.len() as int),
    }
}

/// The axioms that come with the call; none are needed.
pub open spec fn inline_ontology(a: JsonModel) -> Parsed<OntologyModel> {
    match classes_arg(a) {
        Err(e) => Err(e),
        Ok(classes) => match axioms_arg(a) {
            Err(e) => Err(e),
            Ok(properties) => Ok(OntologyModel { classes, properties }),
        },
    }
}

proof fn lemma_classes_stay_wrong(l: Seq<JsonModel>, i: int, n: int)
    requires
        0 <= i <= n,
        classes_to(l, i) is Err,
    ensures
        classes_to(l, n) == classes_to(l, i),
    decreases n,
{
    if i < n {
        lemma_classes_stay_wrong(l, i, n - 1);
    }
}

proof fn lemma_axioms_stay_wrong(l: Seq<JsonModel>, i: int, n: int)
    requires
        0 <= i <= n,
        axioms_to(l, i) is Err,
    ensures
        axioms_to(l, n) == axioms_to(l, i),
    decreases n,
{
    if i < n {
        lemma_axioms_stay_wrong(l, i, n - 1);
    }
}

fn parse_class(item: &Value) -> (r: Result<SubClassOf, ToolError>)
    ensures
        res_view(r) == class_arg(item@),
{
    let subclass = match require_str(item, "subclass") {
        Ok(x) => x,
        Err(e) => {
            return Err(e);
        },
    };
    match require_str(item, "superclass") {
        Ok(superclass) => Ok(SubClassOf { subclass, superclass }),
        Err(e) => Err(e),
    }
}

fn parse_property_axiom(item: &Value) -> (r: Result<PropertyAxiom, ToolError>)
    ensures
        res_view(r) == axiom_arg(item@),
{
    let kind = match require_str(item, "kind") {
        Ok(x) => x,
        Err(e) => {
            return Err(e);
        },
    };
    if str_eq(kind.as_str(), "transitive") {
        match require_str(item, "property") {
            Ok(p) => Ok(PropertyAxiom::Transitive(p)),
            Err(e) => Err(e),
        }
    } else if str_eq(kind.as_str(), "symmetric") {
        match require_str(item, "property") {
            Ok(p) => Ok(PropertyAxiom::Symmetric(p)),
            Err(e) => Err(e),
        }
    } else if str_eq(kind.as_str(), "sub_property_of") {
        match require_str(item, "sub") {
            Ok(sub) => match require_str(item, "sup") {
                Ok(sup) => Ok(PropertyAxiom::SubPropertyOf { sub, sup }),
                Err(e) => Err(e),
            },
            Err(e) => Err(e),
        }
    } else if str_eq(kind.as_str(), "inverse_of") {
        match require_str(item, "property") {
            Ok(property) => match require_str(item, "inverse") {
                Ok(inverse) => Ok(PropertyAxiom::InverseOf { property, inverse }),
                Err(e) => Err(e),
            },
            Err(e) => Err(e),
        }
    } else {
        let mut m = "'kind' de axioma de propiedad desconocido: ".to_owned();
        m.push_str(quoted(kind.as_str()).as_str());
        m.push_str(" (usa transitive | symmetric | sub_property_of | inverse_of)");
        Err(ToolError::InvalidArguments(m))
    }
}

fn parse_classes(args: &Value) -> (r: Result<Vec<SubClassOf>, ToolError>)
    ensures
        list_result(r) == classes_arg(args@),
{
    let mut out: Vec<SubClassOf> = Vec::new();
    assert(views(out@) =~= Seq::empty());
    let items = match arg_list(args, "classes") {
        None => {
            return Ok(out);
        },
        Some(l) => l,
    };
    let ghost all = views(items@);
    let mut i: usize = 0;
    while i < items.len()
        invariant
            i <= items.len(),
            all == views(items@),
            list_arg(args@, "classes"@) == Some(all),
            classes_to(all, i as int) == Ok::<_, ToolErrorModel>(views(out@)),
        decreases items.len() - i,
    {
        assert(all[i as int] == items@[i as int]@);
        match parse_class(&items[i]) {
            Ok(c) => {
                proof {
                    lemma_views_push(out@, c);
                }
                out.push(c);
            },
            Err(e) => {
                proof {
                    lemma_classes_stay_wrong(all, i + 1, all.len() as int);
                }
                return Err(e);
            },
        }
        i += 1;
    }
    Ok(out)
}

fn parse_axioms(args: &Value) -> (r: Result<Vec<PropertyAxiom>, ToolError>)
    ensures
        list_result(r) == axioms_arg(args@),
{
    let mut out: Vec<PropertyAxiom> = Vec::new();
    assert(views(out@) =~= Seq::empty());
    let items = match arg_list(args, "properties") {
        None => {
            return Ok(out);
        },
        Some(l) => l,
    };
    let ghost all = views(items@);
    let mut i: usize = 0;
    while i < items.len()
        invariant
            i <= items.len(),
            all == views(items@),
            list_arg(args@, "properties"@) == Some(all),
            axioms_to(all, i as int) == Ok::<_, ToolErrorModel>(views(out@)),
        decreases items.len() - i,
    {
        assert(all[i as int] == items@[i as int]@);
        match parse_property_axiom(&items[i]) {
            Ok(c) => {
                proof {
                    lemma_views_push(out@, c);
                }
                out.push(c);
            },
            Err(e) => {
                proof {
                    lemma_axioms_stay_wrong(all, i + 1, all.len() as int);
                }
                return Err(e);
            },
        }
        i += 1;
    }
    Ok(out)
}

/// Reads the axioms that come with a call.
pub fn parse_ontology(args: &Value) -> (r: Result<Ontology, ToolError>)
    ensures
        res_view(r) == inline_ontology(args@),
{
    let classes = match parse_classes(args) {
        Ok(x) => x,
        Err(e) => {
            return Err(e);
        },
    };
    match parse_axioms(args) {
        Ok(properties) => Ok(Ontology { classes, properties }),
        Err(e) => Err(e),
    }
}

// ---------------------------------------------------------------------
// Axioms in a document
// ---------------------------------------------------------------------

pub open spec fn not_an_ontology(id: Seq<char>, doc_type: Seq<char>) -> Seq<char> {
    "ontology_id "@ + id + " no es 'type: ontology' (es 'type: "@ + doc_type + "')"@
}

/// The body of a valid document.
pub open spec fn body_of(raw: Seq<char>, b: Budget) -> Seq<char> {
    raw.skip(split(raw, b.max_frontmatter_bytes as nat)->Ok_0.1)
}

/// The axioms that a document declares.
pub open spec fn doc_ontology(id: Seq<char>, d: DocViewModel, b: Budget) -> Parsed<OntologyModel> {
    if d.doc_type != "ontology"@ {
        invalid(not_an_ontology(id, d.doc_type))
    } else {
        match parsed(d.raw, b) {
            Err(e) => Err(domain(StoreErrorModel::Okf(e))),
            Ok(_) => match declared(body_of(d.raw, b)) {
                Ok(o) => Ok(o),
                Err(e) => invalid("ontology_id "@ + id + ": "@ + e.message()),
            },
        }
    }
}

pub open spec fn loaded_answer(id: Seq<char>, a: Answer<Option<DocViewModel>>, b: Budget) -> Parsed<
    OntologyModel,
> {
    match a {
        Err(e) => Err(domain(e)),
        Ok(None) => Err(domain(StoreErrorModel::NotFound(id))),
        Ok(Some(d)) => doc_ontology(id, d, b),
    }
}

/// `l` is what loading the referenced axioms may give; without a reference
/// there are none.
pub open spec fn loads<R: MemoryRepository>(
    repo: R,
    b: Budget,
    id: Option<Seq<char>>,
    l: Parsed<OntologyModel>,
) -> bool {
    match id {
        None => l == Parsed::<OntologyModel>::Ok(no_axioms()),
        Some(id) => loads_from(repo, b, id, l),
    }
}

pub open spec fn loads_from<R: MemoryRepository>(
    repo: R,
    b: Budget,
    id: Seq<char>,
    l: Parsed<OntologyModel>,
) -> bool {
    exists|a: Answer<Option<DocViewModel>>| #[trigger]
        repo.get_rel(id, a) && l == loaded_answer(id, a, b)
}

fn read_ontology_document(id: &ConceptId, d: &DocumentView, budget: &Budget) -> (r: Result<
    Ontology,
    ToolError,
>)
    ensures
        res_view(r) == doc_ontology(id@, d@, *budget),
{
    if !str_eq(d.doc_type.as_str(), "ontology") {
        let mut m = "ontology_id ".to_owned();
        m.push_str(id.as_str());
        m.push_str(" no es 'type: ontology' (es 'type: ");
        m.push_str(d.doc_type.as_str());
        m.push_str("')");
        return Err(ToolError::InvalidArguments(m));
    }
    match parse_document(d.raw.as_str(), budget) {
        Err(e) => {
            return Err(domain_error(StoreError::Okf(e)));
        },
        Ok(_) => {},
    }
    let chars = chars_of(d.raw.as_str());
    let body = match split_frontmatter(chars.as_slice(), budget.max_frontmatter_bytes) {
        Ok((_, _, at)) => string_of(part_from(chars.as_slice(), at)),
        Err(e) => {
            return Err(domain_error(StoreError::Okf(e)));
        },
    };
    match parse_ontology_document(body.as_str()) {
        Ok(o) => Ok(o),
        Err(e) => {
            let mut m = "ontology_id ".to_owned();
            m.push_str(id.as_str());
            m.push_str(": ");
            m.push_str(e.message().as_str());
            Err(ToolError::InvalidArguments(m))
        },
    }
}

fn load_ontology_document<R: MemoryRepository>(repo: &R, id: &ConceptId, budget: &Budget) -> (r:
    Result<Ontology, ToolError>)
    ensures
        loads_from(*repo, *budget, id@, res_view(r)),
{
    let got = repo.get(id);
    let ghost a = crate::repo::opt_answer(got);
    assert(repo.get_rel(id@, a));
    match got {
        Err(e) => Err(domain_error(e)),
        Ok(None) => Err(not_found(id)),
        Ok(Some(d)) => read_ontology_document(id, &d, budget),
    }
}

fn load_ontology<R: MemoryRepository>(repo: &R, id: &Option<ConceptId>, budget: &Budget) -> (r: Result<
    Ontology,
    ToolError,
>)
    ensures
        loads(*repo, *budget, opt_view(*id), res_view(r)),
{
    match id {
        None => Ok(Ontology::default()),
        Some(id) => load_ontology_document(repo, id, budget),
    }
}

/// Both sets of axioms; neither replaces the other.
pub open spec fn combined(a: OntologyModel, b: OntologyModel) -> OntologyModel {
    OntologyModel { classes: a.classes + b.classes, properties: a.properties + b.properties }
}

fn combine(a: Ontology, b: Ontology) -> (r: Ontology)
    ensures
        r@ == combined(a@, b@),
{
    let Ontology { mut classes, mut properties } = a;
    let Ontology { classes: mut more_classes, properties: mut more_properties } = b;
    let ghost c = views(classes@) + views(more_classes@);
    let ghost p = views(properties@) + views(more_properties@);
    classes.append(&mut more_classes);
    properties.append(&mut more_properties);
    assert(views(classes@) =~= c);
    assert(views(properties@) =~= p);
    Ontology { classes, properties }
}

// ---------------------------------------------------------------------
// Facts of a neighbourhood
// ---------------------------------------------------------------------

/// What the store has of each visited concept.
pub type Gets = Seq<Answer<Option<DocViewModel>>>;

/// The facts of the first `n` visited concepts that have a document.
pub open spec fn gathered(vis: Seq<VisitedModel>, gs: Gets, n: int) -> Answer<Triples>
    decreases n,
{
    if n <= 0 {
        Ok(Seq::empty())
    } else {
        match gathered(vis, gs, n - 1) {
            Err(e) => Err(e),
            Ok(before) => if !vis[n - 1].exists {
                Ok(before)
            } else {
                match gs[n - 1] {
                    Err(e) => Err(e),
                    Ok(None) => Ok(before),
                    Ok(Some(d)) => Ok(
                        before + document_facts(vis[n - 1].id, d.doc_type, d.tags, d.links),
                    ),
                }
            },
        }
    }
}

/// The documents asked for are those of the concepts that exist, in order, up
/// to the first failure.
pub open spec fn asked<R: MemoryRepository>(repo: R, vis: Seq<VisitedModel>, gs: Gets) -> bool {
    &&& gs.len() <= vis.len()
    &&& forall|i: int|
        0 <= i < gs.len() && vis[i].exists ==> repo.get_rel(vis[i].id, #[trigger] gs[i])
    &&& gs.len() < vis.len() ==> gathered(vis, gs, gs.len() as int) is Err
}

proof fn lemma_gathered_prefix(vis: Seq<VisitedModel>, gs: Gets, more: Gets, n: int)
    requires
        0 <= n <= gs.len() <= more.len(),
        forall|i: int| 0 <= i < gs.len() ==> gs[i] == more[i],
    ensures
        gathered(vis, gs, n) == gathered(vis, more, n),
    decreases n,
{
    if n > 0 {
        lemma_gathered_prefix(vis, gs, more, n - 1);
    }
}

/// What was gathered, from the last answer on.
pub open spec fn gathered_all(vis: Seq<VisitedModel>, gs: Gets) -> Answer<Triples> {
    gathered(vis, gs, gs.len() as int)
}

fn gather<R: MemoryRepository>(repo: &R, visited: &Vec<Visited>) -> (r: (
    Result<Vec<Triple>, StoreError>,
    Ghost<Gets>,
))
    ensures
        asked(*repo, views(visited@), r.1@),
        crate::repo::list_answer(r.0) == gathered_all(views(visited@), r.1@),
{
    let ghost vis = views(visited@);
    let ghost mut gs: Gets = Seq::empty();
    let mut facts: Vec<Triple> = Vec::new();
    assert(views(facts@) =~= Seq::empty());
    let mut i: usize = 0;
    while i < visited.len()
        invariant
            i <= visited.len(),
            vis == views(visited@),
            gs.len() == i,
            forall|k: int| 0 <= k < i && vis[k].exists ==> repo.get_rel(vis[k].id, #[trigger] gs[k]),
            gathered(vis, gs, i as int) == Ok::<_, StoreErrorModel>(views(facts@)),
        decreases visited.len() - i,
    {
        assert(vis[i as int] == visited@[i as int]@);
        let ghost gs0 = gs;
        if !visited[i].exists {
            proof {
                gs = gs.push(Ok(None));
                lemma_gathered_prefix(vis, gs0, gs, i as int);
            }
        } else {
            let got = repo.get(&visited[i].id);
            proof {
                gs = gs.push(crate::repo::opt_answer(got));
                lemma_gathered_prefix(vis, gs0, gs, i as int);
            }
            match got {
                Err(e) => {
                    return (Err(e), Ghost(gs));
                },
                Ok(None) => {},
                Ok(Some(d)) => {
                    let mut more = facts_of(&visited[i].id, d.doc_type.as_str(), &d.tags, &d.links);
                    let ghost all = views(facts@) + views(more@);
                    facts.append(&mut more);
                    assert(views(facts@) =~= all);
                },
            }
        }
        i += 1;
    }
    (Ok(facts), Ghost(gs))
}

/// Facts in ascending order, each once.
pub open spec fn fact_set(facts: Triples, n: int) -> Triples
    decreases n,
{
    if n <= 0 {
        Seq::empty()
    } else {
        with_fact(fact_set(facts, n - 1), facts[n - 1])
    }
}

fn count_facts(facts: &Vec<Triple>) -> (r: usize)
    ensures
        r == fact_set(views(facts@), facts@.len() as int).len(),
{
    let ghost all = views(facts@);
    let mut set: Vec<Triple> = Vec::new();
    assert(views(set@) =~= Seq::empty());
    let mut i: usize = 0;
    while i < facts.len()
        invariant
            i <= facts.len(),
            all == views(facts@),
            views(set@) == fact_set(all, i as int),
            facts_ascend(views(set@)),
        decreases facts.len() - i,
    {
        assert(all[i as int] == facts@[i as int]@);
        proof {
            lemma_with_fact(views(set@), all[i as int]);
        }
        add_fact(&mut set, facts[i].clone());
        i += 1;
    }
    set.len()
}

// ---------------------------------------------------------------------
// Keeping what was derived
// ---------------------------------------------------------------------

/// Where the facts about the subject of fact `i` end, from `j` on.
pub open spec fn run_end(ts: Triples, i: int, j: int) -> int
    decreases ts.len() - j,
{
    if 0 <= i < ts.len() && 0 <= j < ts.len() && ts[j].subject == ts[i].subject {
        run_end(ts, i, j + 1)
    } else {
        j
    }
}

proof fn lemma_run_end(ts: Triples, i: int, j: int)
    requires
        0 <= i < j <= ts.len(),
    ensures
        j <= run_end(ts, i, j) <= ts.len(),
    decreases ts.len() - j,
{
    if j < ts.len() && ts[j].subject == ts[i].subject {
        lemma_run_end(ts, i, j + 1);
    }
}

/// The facts are saved subject by subject, up to the first refusal.
pub open spec fn saves<R: TripleStore>(
    pre: R,
    ts: Triples,
    i: int,
    post: R,
    e: Option<StoreErrorModel>,
) -> bool
    decreases ts.len() - i,
{
    if i < 0 || i >= ts.len() {
        post == pre && e is None
    } else {
        let j = run_end(ts, i, i + 1);
        if j <= i || j > ts.len() {
            false
        } else {
            exists|mid: R, x: Option<StoreErrorModel>| #[trigger]
                R::save_rel(pre, ts[i].subject, ts.subrange(i, j), mid, x) && (match x {
                    Some(err) => post == mid && e == Some(err),
                    None => saves(mid, ts, j, post, e),
                })
        }
    }
}

fn end_of_run(ts: &Vec<Triple>, i: usize) -> (r: usize)
    requires
        i < ts@.len(),
    ensures
        r == run_end(views(ts@), i as int, i + 1),
        i < r <= ts@.len(),
{
    let ghost all = views(ts@);
    proof {
        lemma_run_end(all, i as int, i + 1);
        assert(all[i as int] == ts@[i as int]@);
    }
    let count = ts.len();
    let mut j: usize = i + 1;
    while j < ts.len() && ts[j].subject.same(&ts[i].subject)
        invariant
            i < j <= ts.len(),
            all == views(ts@),
            all[i as int] == ts@[i as int]@,
            run_end(all, i as int, i + 1) == run_end(all, i as int, j as int),
        decreases ts.len() - j,
    {
        assert(all[j as int] == ts@[j as int]@);
        j += 1;
    }
    proof {
        if j < ts.len() {
            assert(all[j as int] == ts@[j as int]@);
        }
    }
    j
}

fn save_all<R: TripleStore>(repo: &mut R, ts: &Vec<Triple>) -> (r: Result<(), StoreError>)
    ensures
        saves(*old(repo), views(ts@), 0, *final(repo), crate::repo::refused(r)),
{
    let ghost all = views(ts@);
    let mut i: usize = 0;
    while i < ts.len()
        invariant
            i <= ts.len(),
            all == views(ts@),
            forall|post: R, e: Option<StoreErrorModel>| #[trigger]
                saves(*repo, all, i as int, post, e) ==> saves(*old(repo), all, 0, post, e),
        decreases ts.len() - i,
    {
        let j = end_of_run(ts, i);
        let part = slice_subrange(ts.as_slice(), i, j);
        let ghost before = *repo;
        assert(views(part@) =~= all.subrange(i as int, j as int));
        assert(all[i as int] == ts@[i as int]@);
        let saved = repo.save_triples(&ts[i].subject, part);
        let ghost x = crate::repo::refused(saved);
        assert(R::save_rel(
            before,
            all[i as int].subject,
            all.subrange(i as int, j as int),
            *repo,
            x,
        ));
        match saved {
            Err(e) => {
                assert(saves(before, all, i as int, *repo, Some(e@)));
                return Err(e);
            },
            Ok(_) => {},
        }
        assert forall|post: R, e: Option<StoreErrorModel>| #[trigger]
            saves(*repo, all, j as int, post, e) implies saves(*old(repo), all, 0, post, e) by {
            assert(saves(before, all, i as int, post, e));
        }
        i = j;
    }
    assert(saves(*repo, all, i as int, *repo, None));
    Ok(())
}

// ---------------------------------------------------------------------
// The tool
// ---------------------------------------------------------------------

/// How far the reasoning of a call may go.
pub open spec fn reasoning_limits(a: JsonModel) -> Parsed<ReasoningBudget> {
    match size_arg(a, "max_iterations"@) {
        Err(e) => Err(e),
        Ok(it) => match size_arg(a, "max_triples"@) {
            Err(e) => Err(e),
            Ok(tr) => Ok(
                ReasoningBudget {
                    max_iterations: match it {
                        Some(x) => x,
                        None => 16,
                    },
                    max_triples: match tr {
                        Some(x) => x,
                        None => 10_000,
                    },
                },
            ),
        },
    }
}

fn read_limits(args: &Value) -> (r: Result<ReasoningBudget, ToolError>)
    ensures
        match r {
            Ok(b) => reasoning_limits(args@) == Ok::<_, ToolErrorModel>(b),
            Err(e) => reasoning_limits(args@) == Err::<ReasoningBudget, _>(e@),
        },
{
    let mut b = ReasoningBudget::default();
    match arg_usize(args, "max_iterations") {
        Ok(Some(x)) => {
            b.max_iterations = x;
        },
        Ok(None) => {},
        Err(e) => {
            return Err(e);
        },
    }
    match arg_usize(args, "max_triples") {
        Ok(Some(x)) => {
            b.max_triples = x;
        },
        Ok(None) => {},
        Err(e) => {
            return Err(e);
        },
    }
    Ok(b)
}

/// A visited concept, in brief.
pub open spec fn brief_json(v: VisitedModel) -> JsonModel {
    empty_object().set("concept_id"@, txt(v.id)).set("depth"@, number(v.depth)).set(
        "exists"@,
        flag(v.exists),
    )
}

pub open spec fn reason_cuts(t: TraversalModel, m: MaterializedModel) -> JsonModel {
    empty_object().set("traversal_by_nodes"@, flag(t.by_nodes)).set(
        "traversal_by_depth"@,
        flag(t.by_depth),
    ).set("traversal_by_bytes"@, flag(t.by_bytes)).set(
        "reasoning_by_iterations"@,
        flag(m.by_iterations),
    ).set("reasoning_by_triples"@, flag(m.by_triples))
}

pub open spec fn monus(a: nat, b: nat) -> nat {
    if a >= b {
        (a - b) as nat
    } else {
        0
    }
}

/// Each fact with whether it was derived.
pub open spec fn marked(m: Triples, facts: Triples) -> JsonModel {
    JsonModel::Array(Seq::new(m.len(), |i: int| triple_json(m[i], !facts.contains(m[i]))))
}

pub open spec fn reason_json(
    root: Seq<char>,
    facts: Triples,
    m: MaterializedModel,
    t: TraversalModel,
    ontology_id: Option<Seq<char>>,
    persist: bool,
) -> JsonModel {
    let asserted = fact_set(facts, facts.len() as int).len();
    empty_object().set("root"@, txt(root)).set("asserted_count"@, number(asserted)).set(
        "derived_count"@,
        number(monus(m.triples.len(), asserted)),
    ).set("triples"@, marked(m.triples, facts)).set(
        "neighborhood"@,
        JsonModel::Array(Seq::new(t.visited.len(), |i: int| brief_json(t.visited[i]))),
    ).set("ontology_id"@, opt_text(ontology_id)).set("persisted"@, flag(persist)).set(
        "truncated"@,
        reason_cuts(t, m),
    )
}

fn brief_values(l: &Vec<Visited>) -> (r: Value)
    ensures
        r@ == JsonModel::Array(Seq::new(views(l@).len(), |i: int| brief_json(views(l@)[i]))),
{
    let ghost all = views(l@);
    let mut out: Vec<Value> = Vec::new();
    let mut i: usize = 0;
    while i < l.len()
        invariant
            i <= l.len(),
            all == views(l@),
            out@.len() == i,
            forall|k: int| 0 <= k < i ==> (#[trigger] out@[k])@ == brief_json(all[k]),
        decreases l.len() - i,
    {
        assert(all[i as int] == l@[i as int]@);
        let mut o = Fields::new();
        o.set("concept_id", s(l[i].id.as_str()));
        o.set("depth", n(l[i].depth as u64));
        o.set("exists", Value::Bool(l[i].exists));
        out.push(o.done());
        i += 1;
    }
    assert(views(out@) =~= Seq::new(all.len(), |k: int| brief_json(all[k])));
    arr(out)
}

fn marked_values(ts: &Vec<Triple>, facts: &Vec<Triple>) -> (r: Value)
    ensures
        r@ == marked(views(ts@), views(facts@)),
{
    let ghost all = views(ts@);
    let ghost known = views(facts@);
    let mut out: Vec<Value> = Vec::new();
    let mut i: usize = 0;
    while i < ts.len()
        invariant
            i <= ts.len(),
            all == views(ts@),
            known == views(facts@),
            out@.len() == i,
            forall|k: int|
                0 <= k < i ==> (#[trigger] out@[k])@ == triple_json(all[k], !known.contains(all[k])),
        decreases ts.len() - i,
    {
        assert(all[i as int] == ts@[i as int]@);
        out.push(triple_to_json(&ts[i], !has_fact(facts, &ts[i])));
        i += 1;
    }
    assert(views(out@) =~= Seq::new(
        all.len(),
        |k: int| triple_json(all[k], !known.contains(all[k])),
    ));
    arr(out)
}

fn reason_value(
    root: &ConceptId,
    facts: &Vec<Triple>,
    m: &Materialized,
    t: &Traversal,
    ontology_id: &Option<ConceptId>,
    persist: bool,
) -> (r: Value)
    ensures
        r@ == reason_json(root@, views(facts@), m@, t@, opt_view(*ontology_id), persist),
{
    let asserted = count_facts(facts);
    let derived: usize = if m.triples.len() >= asserted {
        m.triples.len() - asserted
    } else {
        0
    };
    let mut cuts = Fields::new();
    cuts.set("traversal_by_nodes", Value::Bool(t.truncated_by_nodes));
    cuts.set("traversal_by_depth", Value::Bool(t.truncated_by_depth));
    cuts.set("traversal_by_bytes", Value::Bool(t.truncated_by_bytes));
    cuts.set("reasoning_by_iterations", Value::Bool(m.truncated_by_iterations));
    cuts.set("reasoning_by_triples", Value::Bool(m.truncated_by_triples));
    let mut o = Fields::new();
    o.set("root", s(root.as_str()));
    o.set("asserted_count", n(asserted as u64));
    o.set("derived_count", n(derived as u64));
    o.set("triples", marked_values(&m.triples, facts));
    o.set("neighborhood", brief_values(&t.visited));
    let from = match ontology_id {
        Some(id) => s(id.as_str()),
        None => Value::Null,
    };
    o.set("ontology_id", from);
    o.set("persisted", Value::Bool(persist));
    o.set("truncated", cuts.done());
    o.done()
}

pub open spec fn kept_answer(reply: JsonModel, e: Option<StoreErrorModel>) -> ToolAnswer {
    match e {
        None => Ok(reply),
        Some(err) => Err(domain(err)),
    }
}

/// The closure is saved, and then answered.
pub open spec fn kept<R: TripleStore>(
    pre: R,
    ts: Triples,
    reply: JsonModel,
    post: R,
    r: ToolAnswer,
) -> bool {
    exists|e: Option<StoreErrorModel>| #[trigger]
        saves(pre, ts, 0, post, e) && r == kept_answer(reply, e)
}

/// What a call asks: the root, the axioms it refers to, and how deep to go.
pub struct ReasonHead {
    pub root: Seq<char>,
    pub ontology_id: Option<Seq<char>>,
    pub limits: Budget,
}

pub open spec fn reason_head(a: JsonModel, b: Budget) -> Parsed<ReasonHead> {
    match need_id(a, "concept_id"@) {
        Err(e) => Err(e),
        Ok(root) => match id_arg(a, "ontology_id"@) {
            Err(e) => Err(e),
            Ok(ontology_id) => match size_arg(a, "depth"@) {
                Err(e) => Err(e),
                Ok(depth) => Ok(ReasonHead { root, ontology_id, limits: with_depth(b, depth) }),
            },
        },
    }
}

/// Reasoning with facts and axioms at hand.
pub open spec fn reasoned<R: TripleStore>(
    pre: R,
    args: JsonModel,
    h: ReasonHead,
    t: TraversalModel,
    facts: Triples,
    o: OntologyModel,
    post: R,
    r: ToolAnswer,
) -> bool {
    match reasoning_limits(args) {
        Err(e) => r == ToolAnswer::Err(e) && post == pre,
        Ok(limits) => {
            let m = closure(facts, o, limits);
            let persist = flag_arg(args, "persist"@, true);
            let reply = reason_json(h.root, facts, m, t, h.ontology_id, persist);
            if persist {
                kept(pre, m.triples, reply, post, r)
            } else {
                post == pre && r == ToolAnswer::Ok(reply)
            }
        },
    }
}

/// Reasoning once the referenced axioms were asked for.
pub open spec fn reasoned_loaded<R: TripleStore>(
    pre: R,
    args: JsonModel,
    h: ReasonHead,
    t: TraversalModel,
    facts: Triples,
    inline: OntologyModel,
    l: Parsed<OntologyModel>,
    post: R,
    r: ToolAnswer,
) -> bool {
    match l {
        Err(e) => r == ToolAnswer::Err(e) && post == pre,
        Ok(o) => reasoned(pre, args, h, t, facts, combined(inline, o), post, r),
    }
}

pub open spec fn reasoned_on<R: MemoryRepository + TripleStore>(
    pre: R,
    b: Budget,
    args: JsonModel,
    h: ReasonHead,
    t: TraversalModel,
    facts: Triples,
    inline: OntologyModel,
    post: R,
    r: ToolAnswer,
) -> bool {
    exists|l: Parsed<OntologyModel>| #[trigger]
        loads(pre, b, h.ontology_id, l) && reasoned_loaded(
            pre,
            args,
            h,
            t,
            facts,
            inline,
            l,
            post,
            r,
        )
}

/// Reasoning once the facts were gathered.
pub open spec fn reasoned_gathered<R: MemoryRepository + TripleStore>(
    pre: R,
    b: Budget,
    args: JsonModel,
    h: ReasonHead,
    t: TraversalModel,
    facts: Answer<Triples>,
    post: R,
    r: ToolAnswer,
) -> bool {
    match facts {
        Err(e) => r == ToolAnswer::Err(domain(e)) && post == pre,
        Ok(f) => match inline_ontology(args) {
            Err(e) => r == ToolAnswer::Err(e) && post == pre,
            Ok(inline) => reasoned_on(pre, b, args, h, t, f, inline, post, r),
        },
    }
}

pub open spec fn reasoned_over<R: MemoryRepository + TripleStore>(
    pre: R,
    b: Budget,
    args: JsonModel,
    h: ReasonHead,
    t: TraversalModel,
    post: R,
    r: ToolAnswer,
) -> bool {
    exists|gs: Gets| #[trigger]
        asked(pre, t.visited, gs) && reasoned_gathered(
            pre,
            b,
            args,
            h,
            t,
            gathered_all(t.visited, gs),
            post,
            r,
        )
}

/// Reasoning once the neighbourhood was walked.
pub open spec fn reasoned_walked<R: MemoryRepository + TripleStore>(
    pre: R,
    b: Budget,
    args: JsonModel,
    h: ReasonHead,
    w: WalkAnswer,
    post: R,
    r: ToolAnswer,
) -> bool {
    match w {
        Err(e) => r == ToolAnswer::Err(domain(e)) && post == pre,
        Ok(t) => reasoned_over(pre, b, args, h, t, post, r),
    }
}

pub open spec fn reasoned_from<
    R: MemoryRepository + NeighborSource<Error = StoreError> + TripleStore,
>(pre: R, b: Budget, args: JsonModel, h: ReasonHead, post: R, r: ToolAnswer) -> bool {
    exists|w: WalkAnswer| #[trigger]
        walks(pre, h.limits, h.root, w) && reasoned_walked(pre, b, args, h, w, post, r)
}

pub open spec fn reason_tool<
    R: MemoryRepository + NeighborSource<Error = StoreError> + TripleStore,
>(pre: R, b: Budget, args: JsonModel, post: R, r: ToolAnswer) -> bool {
    match reason_head(args, b) {
        Err(e) => r == ToolAnswer::Err(e) && post == pre,
        Ok(h) => reasoned_from(pre, b, args, h, post, r),
    }
}

fn conclude<R: TripleStore>(
    repo: &mut R,
    args: &Value,
    root: &ConceptId,
    ontology_id: &Option<ConceptId>,
    t: &Traversal,
    facts: &Vec<Triple>,
    o: &Ontology,
    Ghost(h): Ghost<ReasonHead>,
) -> (r: Result<Value, ToolError>)
    requires
        h.root == root@,
        h.ontology_id == opt_view(*ontology_id),
    ensures
        reasoned(*old(repo), args@, h, t@, views(facts@), o@, *final(repo), res_view(r)),
{
    let limits = match read_limits(args) {
        Ok(b) => b,
        Err(e) => {
            return Err(e);
        },
    };
    let m = materialize(facts, o, &limits);
    let persist = arg_flag(args, "persist", true);
    let reply = reason_value(root, facts, &m, t, ontology_id, persist);
    let ghost shown = reply@;
    if persist {
        let saved = save_all(repo, &m.triples);
        let ghost e = crate::repo::refused(saved);
        assert(saves(*old(repo), m@.triples, 0, *repo, e));
        let r = match saved {
            Ok(_) => Ok(reply),
            Err(e) => Err(domain_error(e)),
        };
        assert(res_view(r) == kept_answer(shown, e));
        assert(kept(*old(repo), m@.triples, shown, *repo, res_view(r)));
        return r;
    }
    Ok(reply)
}

fn reason_over<R: MemoryRepository + TripleStore>(
    repo: &mut R,
    args: &Value,
    root: &ConceptId,
    ontology_id: &Option<ConceptId>,
    t: &Traversal,
    budget: &Budget,
    Ghost(h): Ghost<ReasonHead>,
) -> (r: Result<Value, ToolError>)
    requires
        h.root == root@,
        h.ontology_id == opt_view(*ontology_id),
    ensures
        reasoned_over(*old(repo), *budget, args@, h, t@, *final(repo), res_view(r)),
{
    let (gathered_facts, Ghost(gs)) = gather(&*repo, &t.visited);
    assert(asked(*old(repo), t@.visited, gs));
    let facts = match gathered_facts {
        Ok(f) => f,
        Err(e) => {
            return Err(domain_error(e));
        },
    };
    let ghost all = views(facts@);
    assert(gathered_all(t@.visited, gs) == Ok::<_, StoreErrorModel>(all));
    let inline = match parse_ontology(args) {
        Ok(o) => o,
        Err(e) => {
            return Err(e);
        },
    };
    let ghost inline_axioms = inline@;
    let loaded = load_ontology(&*repo, ontology_id, budget);
    let ghost l = res_view(loaded);
    assert(loads(*old(repo), *budget, h.ontology_id, l));
    let r = match loaded {
        Err(e) => Err(e),
        Ok(more) => {
            let o = combine(inline, more);
            conclude(repo, args, root, ontology_id, t, &facts, &o, Ghost(h))
        },
    };
    assert(reasoned_loaded(*old(repo), args@, h, t@, all, inline_axioms, l, *repo, res_view(r)));
    assert(reasoned_on(*old(repo), *budget, args@, h, t@, all, inline_axioms, *repo, res_view(r)));
    r
}

pub fn memory_reason<R: MemoryRepository + NeighborSource<Error = StoreError> + TripleStore>(
    repo: &mut R,
    args: &Value,
    budget: &Budget,
) -> (r: Result<Value, ToolError>)
    ensures
        reason_tool(*old(repo), *budget, args@, *final(repo), res_view(r)),
{
    let root = match require_id(args, "concept_id") {
        Ok(x) => x,
        Err(e) => {
            return Err(e);
        },
    };
    let ontology_id = match arg_id(args, "ontology_id") {
        Ok(x) => x,
        Err(e) => {
            return Err(e);
        },
    };
    let depth = match arg_usize(args, "depth") {
        Ok(d) => d,
        Err(e) => {
            return Err(e);
        },
    };
    let limits = limit_depth(budget, depth);
    let ghost h = ReasonHead { root: root@, ontology_id: opt_view(ontology_id), limits };
    assert(reason_head(args@, *budget) == Ok::<_, ToolErrorModel>(h));
    let walk = walk_from(&*repo, &root, &limits);
    let ghost w = res_view(walk);
    assert(walks(*old(repo), h.limits, h.root, w));
    let r = match walk {
        Err(e) => Err(domain_error(e)),
        Ok(t) => reason_over(repo, args, &root, &ontology_id, &t, budget, Ghost(h)),
    };
    assert(reasoned_walked(*old(repo), *budget, args@, h, w, *repo, res_view(r)));
    assert(reasoned_from(*old(repo), *budget, args@, h, *repo, res_view(r)));
    r
}

} // verus!

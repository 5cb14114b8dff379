//! What holds of the tools as a whole.

use vstd::prelude::*;
use crate::args::flag_arg;
use crate::graph::{
    answers, law_walks_fail_only_with_the_source, leads, measures, Graph, NeighborSource,
};
use crate::importing::{
    done_ids, ingest_json, ingest_tool, ingested, trusted, unit_requests, IngestHeadModel,
};
use crate::ingest::{FileModel, PlanModel, SourceFetcher, UnitModel};
use crate::json::{empty_object, lemma_member_lookup, JsonModel};
use crate::mcp::ToolAnswer;
use crate::memory::{batched, default_budget, got, leads_to, size_in, store_ok, InMemoryStore};
use crate::memory_laws::{collision_free, law_plain_batches_settle, law_read_your_write, same_again};
use crate::model::{Budget, PrincipalModel};
use crate::okf::parsed;
use crate::patch_laws::law_patched_tags;
use crate::patching::{bulk_patch_tool, has_evidence, patch_arg, patch_tool, patched_doc};
use crate::plan::{law_plans_are_sound, planned, Setting};
use crate::reading::{resolve_answer, resolve_args, resolve_tool, resolved_at, walks, WalkAnswer};
use crate::replies::{batch_json, doc_json, flag, resolve_json, txt};
use crate::repo::{Answer, MemoryRepository, StoreMaintenance, TripleStore};
use crate::store::{BulkItemModel, DocViewModel, OutcomeModel, StoreError};
use crate::table::{
    ascending, before, lemma_before_irreflexive, lemma_lookup_put, lemma_put_ascending,
};
use crate::tools::{tool_rel, ToolsModel};
use crate::writing::{bulk_tool, commit_args, commit_tool};

verus! {

/// The tools that only read.
pub open spec fn only_reads(name: Seq<char>) -> bool {
    ||| name == "memory_search"@
    ||| name == "memory_resolve"@
    ||| name == "memory_history"@
    ||| name == "memory_list"@
    ||| name == "memory_backlinks"@
    ||| name == "memory_validate"@
    ||| name == "memory_status"@
    ||| name == "memory_stats"@
    ||| name == "spec_status"@
}

pub proof fn lemma_names_differ()
    ensures
        "memory_reason"@.len() == 13,
        "memory_commit"@.len() == 13,
        "memory_delete"@.len() == 13,
        "memory_consolidate"@.len() == 18,
        "memory_embed"@.len() == 12,
        "memory_patch"@.len() == 12,
        "memory_bulk_patch"@.len() == 17,
        "memory_bulk_commit"@.len() == 18,
        "skill_ingest"@.len() == 12,
        "spec_propose"@.len() == 12,
        "spec_tasks"@.len() == 10,
        "memory_search"@.len() == 13 && "memory_search"@[7] == 's',
        "memory_resolve"@.len() == 14,
        "memory_history"@.len() == 14,
        "memory_list"@.len() == 11,
        "memory_backlinks"@.len() == 16,
        "memory_validate"@.len() == 15,
        "memory_status"@.len() == 13 && "memory_status"@[7] == 's',
        "memory_stats"@.len() == 12 && "memory_stats"@[7] == 's',
        "spec_status"@.len() == 11,
        "memory_reason"@[7] == 'r',
        "memory_commit"@[7] == 'c',
        "memory_delete"@[7] == 'd',
        "memory_embed"@[7] == 'e',
        "memory_patch"@[7] == 'p',
        "skill_ingest"@[7] == 'n',
        "spec_propose"@[7] == 'o',
{
    reveal_strlit("memory_reason");
    reveal_strlit("memory_commit");
    reveal_strlit("memory_delete");
    reveal_strlit("memory_consolidate");
    reveal_strlit("memory_embed");
    reveal_strlit("memory_patch");
    reveal_strlit("memory_bulk_patch");
    reveal_strlit("memory_bulk_commit");
    reveal_strlit("skill_ingest");
    reveal_strlit("spec_propose");
    reveal_strlit("spec_tasks");
    reveal_strlit("memory_search");
    reveal_strlit("memory_resolve");
    reveal_strlit("memory_history");
    reveal_strlit("memory_list");
    reveal_strlit("memory_backlinks");
    reveal_strlit("memory_validate");
    reveal_strlit("memory_status");
    reveal_strlit("memory_stats");
    reveal_strlit("spec_status");
}

/// A tool that only reads leaves the store as it was.
pub proof fn law_reading_changes_nothing<
    R: MemoryRepository + StoreMaintenance + NeighborSource<Error = StoreError> + TripleStore,
    F: SourceFetcher,
>(pre: ToolsModel<R, F>, name: Seq<char>, args: JsonModel, post: R, r: ToolAnswer)
    requires
        only_reads(name),
        tool_rel(pre, name, args, post, r),
    ensures
        post == pre.repo,
{
    lemma_names_differ();
}

/// Arguments that are refused change nothing, whatever the tool.
pub proof fn law_refused_arguments_change_nothing<
    R: MemoryRepository + StoreMaintenance + NeighborSource<Error = StoreError> + TripleStore,
    F: SourceFetcher,
>(pre: ToolsModel<R, F>, name: Seq<char>, args: JsonModel, post: R, r: ToolAnswer)
    requires
        tool_rel(pre, name, args, post, r),
        r is Err,
        r->Err_0 is InvalidArguments || r->Err_0 is UnknownTool,
    ensures
        post == pre.repo,
{
    reveal(ingested);
}

/// A dry run writes nothing, whatever it answers.
pub proof fn law_dry_runs_write_nothing<R: MemoryRepository, F: SourceFetcher>(
    pre: R,
    fetcher: Option<F>,
    owners: Seq<Seq<char>>,
    actor: PrincipalModel,
    b: Budget,
    args: JsonModel,
    post: R,
    r: ToolAnswer,
)
    requires
        flag_arg(args, "dry_run"@, false),
        commit_tool(pre, actor, b, args, post, r) || patch_tool(pre, actor, b, args, post, r)
            || ingest_tool(pre, fetcher, owners, actor, b, args, post, r),
    ensures
        post == pre,
{
    reveal(ingested);
}

/// No patch leaves a task marked as done unless the task shows evidence: not
/// by the tags it sets, adds or keeps.
pub proof fn law_done_tasks_show_evidence(args: JsonModel, d: DocViewModel, b: Budget)
    requires
        d.doc_type == "task"@,
        patched_doc(args, d, b) is Ok,
        d.tags == parsed(d.raw, b)->Ok_0.tags,
        parsed(patched_doc(args, d, b)->Ok_0, b)->Ok_0.tags.contains("status-done"@),
    ensures
        parsed(patched_doc(args, d, b)->Ok_0, b) is Ok,
        has_evidence(d.raw),
{
    let p = patch_arg(args)->Ok_0;
    law_patched_tags(d.raw, p, b);
}

// ---------------------------------------------------------------------
// Fields of replies
// ---------------------------------------------------------------------

/// An object whose fields ascend, as every reply is built.
pub open spec fn orderly(o: JsonModel) -> bool {
    o is Object && ascending(o->Object_0)
}

/// A field that was set is there; the others stay.
pub proof fn lemma_set_member(o: JsonModel, k: Seq<char>, v: JsonModel, q: Seq<char>)
    requires
        orderly(o),
    ensures
        orderly(o.set(k, v)),
        o.set(k, v).member(q) == if q == k {
            Some(v)
        } else {
            o.member(q)
        },
{
    let f = o->Object_0;
    lemma_put_ascending(f, k, v);
    lemma_lookup_put(f, k, v, q);
    lemma_member_lookup(f, q);
    lemma_member_lookup(crate::table::put(f, k, v), q);
}

proof fn lemma_applied(applied: bool, items: JsonModel)
    ensures
        batch_json(applied, items).member("applied"@) == Some(flag(applied)),
{
    reveal_strlit("applied");
    reveal_strlit("items");
    let o = empty_object();
    let o1 = o.set("applied"@, flag(applied));
    lemma_set_member(o, "applied"@, flag(applied), "applied"@);
    lemma_set_member(o1, "items"@, items, "applied"@);
}

// ---------------------------------------------------------------------
// Over the store in memory
// ---------------------------------------------------------------------

/// An atomic batch that reports that it was not applied changed nothing,
/// whether it writes documents or patches them.
pub proof fn law_atomic_batches_are_all_or_nothing(
    pre: InMemoryStore,
    actor: PrincipalModel,
    b: Budget,
    args: JsonModel,
    post: InMemoryStore,
    r: ToolAnswer,
)
    requires
        flag_arg(args, "atomic"@, true),
        bulk_tool(pre, actor, b, args, post, r) || bulk_patch_tool(pre, actor, b, args, post, r),
        r is Ok,
        r->Ok_0.member("applied"@) == Some(flag(false)),
    ensures
        post@ == pre@,
{
    assert forall|x: bool, items: JsonModel| r->Ok_0 == #[trigger] batch_json(x, items) implies !x by {
        lemma_applied(x, items);
    }
}

/// The document in the reply of a read.
proof fn lemma_resolved_document(d: DocViewModel, t: crate::graph::TraversalModel)
    ensures
        resolve_json(d, t).member("document"@) == Some(doc_json(d)),
        doc_json(d).member("markdown"@) == Some(txt(d.raw)),
{
    reveal_strlit("document");
    reveal_strlit("neighborhood");
    reveal_strlit("truncated");
    let n = crate::replies::list_json::<crate::graph::Visited>(crate::replies::others(t.visited));
    let o = empty_object();
    let o1 = o.set("document"@, doc_json(d));
    let o2 = o1.set("neighborhood"@, n);
    lemma_set_member(o, "document"@, doc_json(d), "document"@);
    lemma_set_member(o1, "neighborhood"@, n, "document"@);
    lemma_set_member(o2, "truncated"@, crate::replies::cuts_json(t), "document"@);
    let d1 = o.set("concept_id"@, txt(d.concept_id));
    let d2 = d1.set("hash"@, txt(crate::model::hex(d.content_id)));
    let d3 = d2.set("version"@, crate::json::number(d.version));
    let d4 = d3.set("type"@, txt(d.doc_type));
    let d5 = d4.set("title"@, crate::json::opt_text(d.title));
    let d6 = d5.set("tags"@, crate::json::texts(d.tags));
    let q = "markdown"@;
    lemma_set_member(o, "concept_id"@, txt(d.concept_id), q);
    lemma_set_member(d1, "hash"@, txt(crate::model::hex(d.content_id)), q);
    lemma_set_member(d2, "version"@, crate::json::number(d.version), q);
    lemma_set_member(d3, "type"@, txt(d.doc_type), q);
    lemma_set_member(d4, "title"@, crate::json::opt_text(d.title), q);
    lemma_set_member(d5, "tags"@, crate::json::texts(d.tags), q);
    lemma_set_member(d6, q, txt(d.raw), q);
}

/// A walk over the store in memory never fails.
proof fn lemma_walks_succeed(repo: InMemoryStore, b: Budget, id: Seq<char>, w: WalkAnswer)
    requires
        walks(repo, b, id, w),
    ensures
        w is Ok,
{
    let g = choose|g: Graph<StoreError>| #[trigger]
        answers(&repo, g) && w == (match crate::graph::traversal(g, b, id) {
            Ok(t) => Ok(t),
            Err(e) => Err(e@),
        });
    assert forall|k: Seq<char>| (#[trigger] (g.nb)(k)) is Ok by {
        assert(repo.neighbors_rel(k, Ok(leads_to(repo@, k))));
        assert(leads(&repo, k));
    }
    assert forall|k: Seq<char>| (#[trigger] (g.sz)(k)) is Ok by {
        assert(repo.size_rel(k, Ok(size_in(repo@, k))));
        assert(measures(&repo, k));
    }
    law_walks_fail_only_with_the_source(g, b, id);
}

/// What `memory_commit` wrote, `memory_resolve` gives back to the letter.
pub proof fn law_resolve_gives_back_what_commit_wrote(
    pre: InMemoryStore,
    actor: PrincipalModel,
    b: Budget,
    args: JsonModel,
    post: InMemoryStore,
    r: ToolAnswer,
    limits: Budget,
    query: JsonModel,
    reply: ToolAnswer,
)
    requires
        store_ok(pre@),
        commit_tool(pre, actor, b, args, post, r),
        r is Ok,
        !flag_arg(args, "dry_run"@, false),
        commit_args(args) is Ok,
        parsed(commit_args(args)->Ok_0.markdown, default_budget()) is Ok,
        collision_free(pre@, commit_args(args)->Ok_0.markdown),
        resolve_args(query, limits) is Ok,
        resolve_args(query, limits)->Ok_0.0 == commit_args(args)->Ok_0.concept_id,
        resolve_tool(post, limits, query, reply),
    ensures
        reply is Ok,
        reply->Ok_0.member("document"@) is Some,
        reply->Ok_0.member("document"@)->0.member("markdown"@) == Some(
            txt(commit_args(args)->Ok_0.markdown),
        ),
{
    let req = commit_args(args)->Ok_0;
    let id = req.concept_id;
    let a = choose|a: Answer<OutcomeModel>| #[trigger]
        <InMemoryStore as MemoryRepository>::commit_rel(pre, req, actor, b, post, a) && r
            == crate::writing::outcome_answer(id, a);
    law_read_your_write(pre@, req, actor, b);
    let used = resolve_args(query, limits)->Ok_0.1;
    assert(resolved_at(post, used, id, reply));
    let d = got(post@, id)->Ok_0->0;
    assert(crate::reading::resolved_with(post, used, id, d, reply));
    let w = choose|w: WalkAnswer| #[trigger]
        walks(post, used, id, w) && reply == resolve_answer(d, w);
    lemma_walks_succeed(post, used, id, w);
    lemma_resolved_document(d, w->Ok_0);
}

proof fn lemma_same_ids(
    l: Seq<UnitModel>,
    first: Seq<BulkItemModel>,
    second: Seq<BulkItemModel>,
    n: int,
)
    requires
        0 <= n <= first.len(),
        first.len() == second.len(),
        forall|i: int| 0 <= i < first.len() ==> same_again(#[trigger] first[i], second[i]),
    ensures
        done_ids(l, first, n) == done_ids(l, second, n),
    decreases n,
{
    if n > 0 {
        lemma_same_ids(l, first, second, n - 1);
        assert(same_again(first[n - 1], second[n - 1]));
    }
}

/// The two replies of an import done twice: the same units, written under the
/// same ids and hashes.
pub open spec fn imported_again(
    source: Seq<char>,
    license: Option<Seq<char>>,
    p: PlanModel,
    quiet: bool,
    first: Seq<BulkItemModel>,
    second: Seq<BulkItemModel>,
    r: ToolAnswer,
    again: ToolAnswer,
) -> bool {
    &&& r == ToolAnswer::Ok(ingest_json(source, license, p, first, quiet))
    &&& again == ToolAnswer::Ok(ingest_json(source, license, p, second, quiet))
    &&& first.len() == second.len() == p.units.len()
    &&& done_ids(p.units, first, p.units.len() as int) == done_ids(
        p.units,
        second,
        p.units.len() as int,
    )
    &&& forall|i: int| 0 <= i < first.len() ==> same_again(#[trigger] first[i], second[i])
}

/// Importing the same files again adds no revision and answers the same ids
/// and hashes.
pub proof fn law_importing_twice_adds_nothing(
    pre: InMemoryStore,
    owners: Seq<Seq<char>>,
    actor: PrincipalModel,
    b: Budget,
    h: IngestHeadModel,
    files: Seq<FileModel>,
    license: Option<Seq<char>>,
    mid: InMemoryStore,
    r: ToolAnswer,
    post: InMemoryStore,
    again: ToolAnswer,
)
    requires
        store_ok(pre@),
        ingested(pre, owners, actor, b, h, false, files, license, mid, r),
        ingested(mid, owners, actor, b, h, false, files, license, post, again),
    ensures
        post@ == mid@,
        r is Err ==> again == r,
        r is Ok ==> exists|p: PlanModel, first: Seq<BulkItemModel>, second: Seq<BulkItemModel>|
            #[trigger]
            imported_again(
                h.source,
                license,
                p,
                trusted(h.source, owners),
                first,
                second,
                r,
                again,
            ),
{
    reveal(ingested);
    let setting = Setting { source: h.source, prefix: h.prefix, budget: b, license };
    match planned(files, h.format, setting) {
        Err(_) => {},
        Ok(p) => {
            law_plans_are_sound(files, h.format, setting);
            let reqs = unit_requests(p.units, h.source);
            assert forall|i: int, j: int| 0 <= i < j < reqs.len() implies (
            #[trigger] reqs[i]).concept_id != (#[trigger] reqs[j]).concept_id by {
                assert(before(p.units[i].concept_id, p.units[j].concept_id));
                lemma_before_irreflexive(p.units[i].concept_id);
            }
            law_plain_batches_settle(pre@, reqs, actor, b);
            let x = batched(pre@, reqs, false, actor, b).1;
            let y = batched(mid@, reqs, false, actor, b).1;
            let first = x->Ok_0.items;
            let second = y->Ok_0.items;
            lemma_same_ids(p.units, first, second, p.units.len() as int);
            assert(imported_again(
                h.source,
                license,
                p,
                trusted(h.source, owners),
                first,
                second,
                r,
                again,
            ));
        },
    }
}

} // verus!

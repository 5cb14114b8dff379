//! The tools that read: search, listing, neighbourhoods, history and upkeep.

use vstd::prelude::*;
use crate::args::{
    arg_str, arg_usize, need_id, require_id, size_arg, text_arg, Parsed,
};
use crate::graph::{
    answers, bounded_bfs, traversal, traversal_ok, Graph, NeighborSource, TraversalModel,
};
use crate::json::{JsonModel, Value};
use crate::mcp::{ToolAnswer, ToolError, ToolErrorModel};
use crate::model::{Budget, ConceptId, RevisionModel};
use crate::replies::{
    backlinks_json, backlinks_value, domain, domain_error, embed_json, embed_value, history_json,
    history_value, hits_json, hits_value, not_found, report_json, report_value, resolve_json,
    resolve_value, stats_json, stats_value, status_json, status_value,
};
use crate::repo::{Answer, MemoryRepository, StoreMaintenance};
use crate::store::{
    BacklinkModel, DocViewModel, EmbedModel, HitModel, QueryModel, ReportModel, SearchQuery,
    StatsModel, StoreError, StoreErrorModel, StoreStatus,
};
use crate::text::res_view;

verus! {

// ---------------------------------------------------------------------
// Search and listing
// ---------------------------------------------------------------------

/// The query that `memory_search` asks.
pub open spec fn search_query(a: JsonModel) -> Parsed<QueryModel> {
    match size_arg(a, "limit"@) {
        Err(e) => Err(e),
        Ok(limit) => Ok(
            QueryModel {
                text: text_arg(a, "query"@),
                doc_type: text_arg(a, "type"@),
                exclude_type: text_arg(a, "not_type"@),
                tag: text_arg(a, "tag"@),
                path_prefix: text_arg(a, "path_prefix"@),
                limit,
            },
        ),
    }
}

/// The query that `memory_list` asks.
pub open spec fn list_query(a: JsonModel) -> Parsed<QueryModel> {
    match size_arg(a, "limit"@) {
        Err(e) => Err(e),
        Ok(limit) => Ok(
            QueryModel {
                text: None,
                doc_type: None,
                exclude_type: None,
                tag: None,
                path_prefix: text_arg(a, "path_prefix"@),
                limit,
            },
        ),
    }
}

pub open spec fn hits_answer(a: Answer<Seq<HitModel>>) -> ToolAnswer {
    match a {
        Ok(x) => Ok(hits_json(x)),
        Err(e) => Err(domain(e)),
    }
}

/// A search for a query, if there is one.
pub open spec fn searched<R: MemoryRepository>(
    repo: R,
    b: Budget,
    q: Parsed<QueryModel>,
    r: ToolAnswer,
) -> bool {
    match q {
        Err(e) => r == ToolAnswer::Err(e),
        Ok(q) => exists|a: Answer<Seq<HitModel>>| #[trigger]
            repo.search_rel(q, b, a) && r == hits_answer(a),
    }
}

pub open spec fn search_tool<R: MemoryRepository>(
    repo: R,
    b: Budget,
    args: JsonModel,
    r: ToolAnswer,
) -> bool {
    searched(repo, b, search_query(args), r)
}

pub open spec fn list_tool<R: MemoryRepository>(
    repo: R,
    b: Budget,
    args: JsonModel,
    r: ToolAnswer,
) -> bool {
    searched(repo, b, list_query(args), r)
}

pub fn run_search<R: MemoryRepository>(repo: &R, budget: &Budget, query: &SearchQuery) -> (r: Result<
    Value,
    ToolError,
>)
    ensures
        searched(*repo, *budget, Ok(query@), res_view(r)),
{
    let found = repo.search(query, budget);
    let ghost a = crate::repo::list_answer(found);
    assert(repo.search_rel(query@, *budget, a));
    match found {
        Ok(hits) => Ok(hits_value(&hits)),
        Err(e) => Err(domain_error(e)),
    }
}

pub fn memory_search<R: MemoryRepository>(repo: &R, args: &Value, budget: &Budget) -> (r: Result<
    Value,
    ToolError,
>)
    ensures
        search_tool(*repo, *budget, args@, res_view(r)),
{
    let limit = match arg_usize(args, "limit") {
        Ok(l) => l,
        Err(e) => {
            return Err(e);
        },
    };
    let query = SearchQuery {
        text: arg_str(args, "query"),
        doc_type: arg_str(args, "type"),
        exclude_type: arg_str(args, "not_type"),
        tag: arg_str(args, "tag"),
        path_prefix: arg_str(args, "path_prefix"),
        limit,
    };
    run_search(repo, budget, &query)
}

pub fn memory_list<R: MemoryRepository>(repo: &R, args: &Value, budget: &Budget) -> (r: Result<
    Value,
    ToolError,
>)
    ensures
        list_tool(*repo, *budget, args@, res_view(r)),
{
    let limit = match arg_usize(args, "limit") {
        Ok(l) => l,
        Err(e) => {
            return Err(e);
        },
    };
    let query = SearchQuery {
        text: None,
        doc_type: None,
        exclude_type: None,
        tag: None,
        path_prefix: arg_str(args, "path_prefix"),
        limit,
    };
    run_search(repo, budget, &query)
}

// ---------------------------------------------------------------------
// Neighbourhoods
// ---------------------------------------------------------------------

/// No deeper than asked.
pub open spec fn with_depth(b: Budget, depth: Option<usize>) -> Budget {
    match depth {
        Some(d) => Budget {
            max_graph_depth: if d < b.max_graph_depth {
                d as u8
            } else {
                b.max_graph_depth
            },
            ..b
        },
        None => b,
    }
}

/// No larger than asked.
pub open spec fn with_bytes(b: Budget, bytes: Option<usize>) -> Budget {
    match bytes {
        Some(n) => Budget {
            max_response_bytes: if n < b.max_response_bytes {
                n
            } else {
                b.max_response_bytes
            },
            ..b
        },
        None => b,
    }
}

pub fn limit_depth(b: &Budget, depth: Option<usize>) -> (r: Budget)
    ensures
        r == with_depth(*b, depth),
{
    let mut out = *b;
    match depth {
        Some(d) => {
            if d < b.max_graph_depth as usize {
                out.max_graph_depth = d as u8;
            }
        },
        None => {},
    }
    out
}

/// A walk over the links of a store, or its failure.
pub type WalkAnswer = Answer<TraversalModel>;

/// `w` is a possible walk from `id`.
pub open spec fn walks<R: NeighborSource<Error = StoreError>>(
    repo: R,
    b: Budget,
    id: Seq<char>,
    w: WalkAnswer,
) -> bool {
    &&& exists|g: Graph<StoreError>| #[trigger]
        answers(&repo, g) && w == (match traversal(g, b, id) {
            Ok(t) => Ok(t),
            Err(e) => Err(e@),
        })
    &&& w is Ok ==> traversal_ok(w->Ok_0, b, id)
}

pub fn walk_from<R: NeighborSource<Error = StoreError>>(repo: &R, id: &ConceptId, budget: &Budget) -> (r:
    Result<crate::graph::Traversal, StoreError>)
    ensures
        walks(*repo, *budget, id@, res_view(r)),
{
    bounded_bfs(repo, id, budget)
}

pub open spec fn resolve_answer(d: DocViewModel, a: Answer<TraversalModel>) -> ToolAnswer {
    match a {
        Ok(x) => Ok(resolve_json(d, x)),
        Err(e) => Err(domain(e)),
    }
}

/// `memory_resolve` for a document and a walk.
pub open spec fn resolved_with<R: NeighborSource<Error = StoreError>>(
    repo: R,
    b: Budget,
    id: Seq<char>,
    d: DocViewModel,
    r: ToolAnswer,
) -> bool {
    exists|w: WalkAnswer| #[trigger]
        walks(repo, b, id, w) && r == resolve_answer(d, w)
}

/// `memory_resolve` for an id and a budget.
pub open spec fn resolved_at<R: MemoryRepository + NeighborSource<Error = StoreError>>(
    repo: R,
    b: Budget,
    id: Seq<char>,
    r: ToolAnswer,
) -> bool {
    exists|a: Answer<Option<DocViewModel>>| #[trigger]
        repo.get_rel(id, a) && match a {
            Err(e) => r == ToolAnswer::Err(domain(e)),
            Ok(None) => r == ToolAnswer::Err(domain(StoreErrorModel::NotFound(id))),
            Ok(Some(d)) => resolved_with(repo, b, id, d, r),
        }
}

/// The document and the budget that `memory_resolve` asks for.
pub open spec fn resolve_args(a: JsonModel, b: Budget) -> Parsed<(Seq<char>, Budget)> {
    match need_id(a, "concept_id"@) {
        Err(e) => Err(e),
        Ok(id) => match size_arg(a, "depth"@) {
            Err(e) => Err(e),
            Ok(depth) => match size_arg(a, "max_bytes"@) {
                Err(e) => Err(e),
                Ok(bytes) => Ok((id, with_bytes(with_depth(b, depth), bytes))),
            },
        },
    }
}

pub open spec fn resolve_tool<R: MemoryRepository + NeighborSource<Error = StoreError>>(
    repo: R,
    b: Budget,
    args: JsonModel,
    r: ToolAnswer,
) -> bool {
    match resolve_args(args, b) {
        Err(e) => r == ToolAnswer::Err(e),
        Ok((id, limits)) => resolved_at(repo, limits, id, r),
    }
}

/// The view of the arguments of `memory_resolve`.
pub open spec fn resolve_result(r: Result<(ConceptId, Budget), ToolError>) -> Parsed<
    (Seq<char>, Budget),
> {
    match r {
        Ok((id, b)) => Ok((id@, b)),
        Err(e) => Err(e@),
    }
}

pub fn read_resolve(args: &Value, budget: &Budget) -> (r: Result<(ConceptId, Budget), ToolError>)
    ensures
        resolve_result(r) == resolve_args(args@, *budget),
{
    let id = match require_id(args, "concept_id") {
        Ok(id) => id,
        Err(e) => {
            return Err(e);
        },
    };
    let depth = match arg_usize(args, "depth") {
        Ok(d) => d,
        Err(e) => {
            return Err(e);
        },
    };
    let mut limits = limit_depth(budget, depth);
    match arg_usize(args, "max_bytes") {
        Ok(Some(n)) => {
            if n < budget.max_response_bytes {
                limits.max_response_bytes = n;
            }
        },
        Ok(None) => {},
        Err(e) => {
            return Err(e);
        },
    }
    Ok((id, limits))
}

pub fn memory_resolve<R: MemoryRepository + NeighborSource<Error = StoreError>>(
    repo: &R,
    args: &Value,
    budget: &Budget,
) -> (r: Result<Value, ToolError>)
    ensures
        resolve_tool(*repo, *budget, args@, res_view(r)),
{
    let (id, limits) = match read_resolve(args, budget) {
        Ok(x) => x,
        Err(e) => {
            return Err(e);
        },
    };
    let got = repo.get(&id);
    let ghost a = crate::repo::opt_answer(got);
    assert(repo.get_rel(id@, a));
    match got {
        Err(e) => Err(domain_error(e)),
        Ok(None) => Err(not_found(&id)),
        Ok(Some(doc)) => {
            let walk = walk_from(repo, &id, &limits);
            let ghost w = res_view(walk);
            assert(walks(*repo, limits, id@, w));
            let r = match walk {
                Ok(t) => Ok(resolve_value(&doc, &t)),
                Err(e) => Err(domain_error(e)),
            };
            assert(resolved_with(*repo, limits, id@, doc@, res_view(r)));
            r
        },
    }
}

// ---------------------------------------------------------------------
// Links and history
// ---------------------------------------------------------------------

pub open spec fn backlinks_answer(a: Answer<Seq<BacklinkModel>>) -> ToolAnswer {
    match a {
        Ok(x) => Ok(backlinks_json(x)),
        Err(e) => Err(domain(e)),
    }
}

pub open spec fn backlinks_tool<R: MemoryRepository>(repo: R, args: JsonModel, r: ToolAnswer) -> bool {
    match need_id(args, "concept_id"@) {
        Err(e) => r == ToolAnswer::Err(e),
        Ok(id) => exists|a: Answer<Seq<BacklinkModel>>| #[trigger]
            repo.backlinks_rel(id, a) && r == backlinks_answer(a),
    }
}

pub fn memory_backlinks<R: MemoryRepository>(repo: &R, args: &Value) -> (r: Result<Value, ToolError>)
    ensures
        backlinks_tool(*repo, args@, res_view(r)),
{
    let id = match require_id(args, "concept_id") {
        Ok(id) => id,
        Err(e) => {
            return Err(e);
        },
    };
    let found = repo.backlinks(&id);
    let ghost a = crate::repo::list_answer(found);
    assert(repo.backlinks_rel(id@, a));
    match found {
        Ok(l) => Ok(backlinks_value(&l)),
        Err(e) => Err(domain_error(e)),
    }
}

/// The page of revisions that `memory_history` asks for: ten by default,
/// between one and a hundred.
pub open spec fn history_args(a: JsonModel) -> Parsed<(Seq<char>, usize, Option<u64>)> {
    match need_id(a, "concept_id"@) {
        Err(e) => Err(e),
        Ok(id) => match size_arg(a, "limit"@) {
            Err(e) => Err(e),
            Ok(limit) => match size_arg(a, "before_seq"@) {
                Err(e) => Err(e),
                Ok(before) => Ok(
                    (
                        id,
                        match limit {
                            None => 10,
                            Some(l) => if l < 1 {
                                1
                            } else if l > 100 {
                                100
                            } else {
                                l
                            },
                        },
                        match before {
                            Some(s) => Some(s as u64),
                            None => None,
                        },
                    ),
                ),
            },
        },
    }
}

pub open spec fn history_answer(id: Seq<char>, a: Answer<Seq<RevisionModel>>) -> ToolAnswer {
    match a {
        Ok(x) => Ok(history_json(id, x)),
        Err(e) => Err(domain(e)),
    }
}

/// `memory_history` for a page.
pub open spec fn told<R: MemoryRepository>(
    repo: R,
    id: Seq<char>,
    limit: usize,
    before: Option<u64>,
    r: ToolAnswer,
) -> bool {
    exists|a: Answer<Seq<RevisionModel>>| #[trigger]
        repo.history_rel(id, limit, before, a) && r == history_answer(id, a)
}

pub open spec fn history_tool<R: MemoryRepository>(repo: R, args: JsonModel, r: ToolAnswer) -> bool {
    match history_args(args) {
        Err(e) => r == ToolAnswer::Err(e),
        Ok((id, limit, before)) => told(repo, id, limit, before, r),
    }
}

pub fn memory_history<R: MemoryRepository>(repo: &R, args: &Value) -> (r: Result<Value, ToolError>)
    ensures
        history_tool(*repo, args@, res_view(r)),
{
    let id = match require_id(args, "concept_id") {
        Ok(id) => id,
        Err(e) => {
            return Err(e);
        },
    };
    let limit: usize = match arg_usize(args, "limit") {
        Ok(None) => 10,
        Ok(Some(l)) => if l < 1 {
            1
        } else if l > 100 {
            100
        } else {
            l
        },
        Err(e) => {
            return Err(e);
        },
    };
    let before = match arg_usize(args, "before_seq") {
        Ok(None) => None,
        Ok(Some(q)) => Some(q as u64),
        Err(e) => {
            return Err(e);
        },
    };
    assert(history_args(args@) == Ok::<_, ToolErrorModel>((id@, limit, before)));
    let found = repo.history(&id, limit, before);
    let ghost a = crate::repo::list_answer(found);
    assert(repo.history_rel(id@, limit, before, a));
    let r = match found {
        Ok(l) => Ok(history_value(&id, &l)),
        Err(e) => Err(domain_error(e)),
    };
    assert(told(*repo, id@, limit, before, res_view(r)));
    r
}

// ---------------------------------------------------------------------
// Upkeep
// ---------------------------------------------------------------------

pub open spec fn report_answer(a: Answer<ReportModel>) -> ToolAnswer {
    match a {
        Ok(x) => Ok(report_json(x)),
        Err(e) => Err(domain(e)),
    }
}

pub open spec fn validate_tool<R: StoreMaintenance>(
    repo: R,
    b: Budget,
    args: JsonModel,
    r: ToolAnswer,
) -> bool {
    exists|a: Answer<ReportModel>| #[trigger]
        repo.validate_rel(text_arg(args, "path_prefix"@), b, a) && r == report_answer(a)
}

pub fn memory_validate<R: StoreMaintenance>(repo: &R, args: &Value, budget: &Budget) -> (r: Result<
    Value,
    ToolError,
>)
    ensures
        validate_tool(*repo, *budget, args@, res_view(r)),
{
    let prefix = arg_str(args, "path_prefix");
    let under = match &prefix {
        Some(p) => Some(p.as_str()),
        None => None,
    };
    let report = repo.validate(under, budget);
    let ghost a = res_view(report);
    assert(repo.validate_rel(text_arg(args@, "path_prefix"@), *budget, a));
    match report {
        Ok(m) => Ok(report_value(&m)),
        Err(e) => Err(domain_error(e)),
    }
}

pub open spec fn status_answer(a: Answer<StoreStatus>) -> ToolAnswer {
    match a {
        Ok(x) => Ok(status_json(x)),
        Err(e) => Err(domain(e)),
    }
}

pub open spec fn status_tool<R: StoreMaintenance>(repo: R, r: ToolAnswer) -> bool {
    exists|a: Answer<StoreStatus>| #[trigger]
        repo.status_rel(a) && r == status_answer(a)
}

pub fn memory_status<R: StoreMaintenance>(repo: &R) -> (r: Result<Value, ToolError>)
    ensures
        status_tool(*repo, res_view(r)),
{
    let status = repo.status();
    let ghost a = crate::repo::plain_answer(status);
    assert(repo.status_rel(a));
    match status {
        Ok(m) => Ok(status_value(&m)),
        Err(e) => Err(domain_error(e)),
    }
}

pub open spec fn stats_answer(a: Answer<StatsModel>) -> ToolAnswer {
    match a {
        Ok(x) => Ok(stats_json(x)),
        Err(e) => Err(domain(e)),
    }
}

pub open spec fn stats_tool<R: StoreMaintenance>(repo: R, b: Budget, r: ToolAnswer) -> bool {
    exists|a: Answer<StatsModel>| #[trigger]
        repo.stats_rel(b, a) && r == stats_answer(a)
}

pub fn memory_stats<R: StoreMaintenance>(repo: &R, budget: &Budget) -> (r: Result<Value, ToolError>)
    ensures
        stats_tool(*repo, *budget, res_view(r)),
{
    let stats = repo.stats(budget);
    let ghost a = res_view(stats);
    assert(repo.stats_rel(*budget, a));
    match stats {
        Ok(m) => Ok(stats_value(&m)),
        Err(e) => Err(domain_error(e)),
    }
}

/// At most how many documents `memory_embed` takes: ten by default, and at
/// least one.
pub open spec fn embed_max(a: JsonModel) -> Parsed<usize> {
    match size_arg(a, "max"@) {
        Err(e) => Err(e),
        Ok(None) => Ok(10),
        Ok(Some(m)) => Ok(
            if m < 1 {
                1
            } else {
                m
            },
        ),
    }
}

pub open spec fn embed_answer(a: Answer<EmbedModel>) -> ToolAnswer {
    match a {
        Ok(x) => Ok(embed_json(x)),
        Err(e) => Err(domain(e)),
    }
}

/// `memory_embed` under a path, for at most `max` documents.
pub open spec fn embedded<R: StoreMaintenance>(
    pre: R,
    prefix: Option<Seq<char>>,
    max: usize,
    post: R,
    r: ToolAnswer,
) -> bool {
    exists|a: Answer<EmbedModel>| #[trigger]
        R::embed_rel(pre, prefix, max, post, a) && r == embed_answer(a)
}

pub open spec fn embed_tool<R: StoreMaintenance>(
    pre: R,
    args: JsonModel,
    post: R,
    r: ToolAnswer,
) -> bool {
    match embed_max(args) {
        Err(e) => r == ToolAnswer::Err(e) && post == pre,
        Ok(max) => embedded(pre, text_arg(args, "path_prefix"@), max, post, r),
    }
}

pub fn memory_embed<R: StoreMaintenance>(repo: &mut R, args: &Value) -> (r: Result<Value, ToolError>)
    ensures
        embed_tool(*old(repo), args@, *final(repo), res_view(r)),
{
    let prefix = arg_str(args, "path_prefix");
    let max: usize = match arg_usize(args, "max") {
        Ok(None) => 10,
        Ok(Some(m)) => if m < 1 {
            1
        } else {
            m
        },
        Err(e) => {
            return Err(e);
        },
    };
    let under = match &prefix {
        Some(p) => Some(p.as_str()),
        None => None,
    };
    assert(embed_max(args@) == Ok::<_, ToolErrorModel>(max));
    let outcome = repo.embed_pending(under, max);
    let ghost a = res_view(outcome);
    assert(R::embed_rel(*old(repo), text_arg(args@, "path_prefix"@), max, *repo, a));
    let r = match outcome {
        Ok(m) => Ok(embed_value(&m)),
        Err(e) => Err(domain_error(e)),
    };
    assert(embedded(*old(repo), text_arg(args@, "path_prefix"@), max, *repo, res_view(r)));
    r
}

} // verus!

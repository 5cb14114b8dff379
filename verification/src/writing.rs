//! The tools that write whole documents.

use vstd::prelude::*;
use crate::args::{
    arg_flag, arg_hash, arg_list, arg_str, concept_id, flag_arg, hash_arg, invalid, list_arg,
    need_hash, need_id, need_text, read_id, require_hash, require_id, require_str, text_arg,
    Parsed,
};
use crate::conflict::{decide, decision, CommitDecision, DecisionModel};
use crate::consolidate::{
    render_digest, rendered, ConsolidateError, ConsolidateErrorModel, DigestDecision,
    DigestDecisionModel, DigestEntity, DigestModel, EntityModel, SessionDigest,
};
use crate::json::{JsonModel, Value};
use crate::mcp::{ToolAnswer, ToolError, ToolErrorModel};
use crate::model::{unhex, Budget, ConceptId, ContentId, Principal, PrincipalModel};
use crate::names::{slug, slugify};
use crate::okf::{parse_document, parsed};
use crate::replies::{
    all_values, batch_json, batch_value, delete_json, delete_value, domain, domain_error, dry_json,
    dry_value, fail_with, failed, kind_json, kind_value, list_json, outcome_json, outcome_value,
};
use crate::repo::{Answer, MemoryRepository};
use crate::sha256::{content_hash, content_id};
use crate::store::{
    BulkItem, BulkModel, CommitRequest, DeleteModel, DocViewModel, DocumentView, OutcomeModel,
    RequestModel, StoreError, StoreErrorModel,
};
use crate::text::{lemma_views_push, opt_view, res_view, views};

verus! {

// ---------------------------------------------------------------------
// Writing one document
// ---------------------------------------------------------------------

pub open spec fn outcome_answer(id: Seq<char>, a: Answer<OutcomeModel>) -> ToolAnswer {
    match a {
        Ok(x) => Ok(outcome_json(id, x)),
        Err(e) => Err(domain(e)),
    }
}

/// A request goes to the store, and its outcome is what is answered.
pub open spec fn written<R: MemoryRepository>(
    pre: R,
    req: RequestModel,
    actor: PrincipalModel,
    b: Budget,
    post: R,
    r: ToolAnswer,
) -> bool {
    exists|a: Answer<OutcomeModel>| #[trigger]
        R::commit_rel(pre, req, actor, b, post, a) && r == outcome_answer(req.concept_id, a)
}

pub fn write_document<R: MemoryRepository>(
    repo: &mut R,
    request: CommitRequest,
    actor: &Principal,
    budget: &Budget,
) -> (r: Result<Value, ToolError>)
    ensures
        written(*old(repo), request@, actor@, *budget, *final(repo), res_view(r)),
{
    let id = request.concept_id.clone();
    let ghost req = request@;
    let outcome = repo.commit(request, actor, budget);
    let ghost a = res_view(outcome);
    assert(R::commit_rel(*old(repo), req, actor@, *budget, *repo, a));
    match outcome {
        Ok(x) => Ok(outcome_value(&id, &x)),
        Err(e) => Err(domain_error(e)),
    }
}

/// The version after this one, within the range of versions.
pub open spec fn next_version(v: nat) -> nat {
    if v >= u64::MAX {
        v
    } else {
        v + 1
    }
}

/// What a request would change on what is there.
pub open spec fn foreseen(
    id: Seq<char>,
    expected: Option<Seq<u8>>,
    markdown: Seq<char>,
    current: Option<DocViewModel>,
) -> ToolAnswer {
    let head = match current {
        Some(d) => Some(d.content_id),
        None => None,
    };
    let version = match current {
        Some(d) => d.version,
        None => 0,
    };
    match decision(head, expected, content_hash(markdown)) {
        DecisionModel::Conflict(c) => Err(domain(StoreErrorModel::Conflict(c))),
        d => Ok(
            dry_json(
                id,
                content_hash(markdown),
                next_version(version),
                current is None,
                d is NoChange,
            ),
        ),
    }
}

pub fn foresee(
    id: &ConceptId,
    expected: Option<ContentId>,
    markdown: &str,
    current: &Option<DocumentView>,
) -> (r: Result<Value, ToolError>)
    ensures
        res_view(r) == foreseen(id@, opt_view(expected), markdown@, opt_view(*current)),
{
    let incoming = content_id(markdown);
    let mut head: Option<ContentId> = None;
    let mut version: u64 = 0;
    match current {
        Some(d) => {
            head = Some(d.content_id);
            version = d.version;
        },
        None => {},
    }
    if version < u64::MAX {
        version = version + 1;
    }
    let fate = decide(head, expected, incoming);
    match fate {
        CommitDecision::Conflict(c) => Err(domain_error(StoreError::Conflict(c))),
        CommitDecision::NoChange => Ok(dry_value(id, &incoming, version, current.is_none(), true)),
        _ => Ok(dry_value(id, &incoming, version, current.is_none(), false)),
    }
}

/// The request of `memory_commit`.
pub open spec fn commit_args(a: JsonModel) -> Parsed<RequestModel> {
    match need_id(a, "concept_id"@) {
        Err(e) => Err(e),
        Ok(concept_id) => match need_text(a, "markdown"@) {
            Err(e) => Err(e),
            Ok(markdown) => match need_text(a, "reason"@) {
                Err(e) => Err(e),
                Ok(reason) => match hash_arg(a) {
                    Err(e) => Err(e),
                    Ok(expected) => Ok(RequestModel { concept_id, expected, markdown, reason }),
                },
            },
        },
    }
}

pub open spec fn tried_answer(req: RequestModel, a: Answer<Option<DocViewModel>>) -> ToolAnswer {
    match a {
        Err(e) => Err(domain(e)),
        Ok(current) => foreseen(req.concept_id, req.expected, req.markdown, current),
    }
}

/// A request is checked against what is there, and nothing is written.
pub open spec fn tried<R: MemoryRepository>(repo: R, req: RequestModel, r: ToolAnswer) -> bool {
    exists|a: Answer<Option<DocViewModel>>| #[trigger]
        repo.get_rel(req.concept_id, a) && r == tried_answer(req, a)
}

/// A dry run: the document must be valid, and the write must not conflict.
pub open spec fn dry_commit<R: MemoryRepository>(
    repo: R,
    b: Budget,
    req: RequestModel,
    r: ToolAnswer,
) -> bool {
    match parsed(req.markdown, b) {
        Err(e) => r == ToolAnswer::Err(domain(StoreErrorModel::Okf(e))),
        Ok(_) => tried(repo, req, r),
    }
}

pub open spec fn commit_tool<R: MemoryRepository>(
    pre: R,
    actor: PrincipalModel,
    b: Budget,
    args: JsonModel,
    post: R,
    r: ToolAnswer,
) -> bool {
    match commit_args(args) {
        Err(e) => r == ToolAnswer::Err(e) && post == pre,
        Ok(req) => if flag_arg(args, "dry_run"@, false) {
            post == pre && dry_commit(pre, b, req, r)
        } else {
            written(pre, req, actor, b, post, r)
        },
    }
}

pub fn read_commit(args: &Value) -> (r: Result<CommitRequest, ToolError>)
    ensures
        res_view(r) == commit_args(args@),
{
    let concept_id = match require_id(args, "concept_id") {
        Ok(x) => x,
        Err(e) => {
            return Err(e);
        },
    };
    let markdown = match require_str(args, "markdown") {
        Ok(x) => x,
        Err(e) => {
            return Err(e);
        },
    };
    let reason = match require_str(args, "reason") {
        Ok(x) => x,
        Err(e) => {
            return Err(e);
        },
    };
    let expected = match arg_hash(args) {
        Ok(x) => x,
        Err(e) => {
            return Err(e);
        },
    };
    Ok(CommitRequest { concept_id, expected, markdown, reason })
}

fn try_commit<R: MemoryRepository>(repo: &R, budget: &Budget, req: &CommitRequest) -> (r: Result<
    Value,
    ToolError,
>)
    ensures
        dry_commit(*repo, *budget, req@, res_view(r)),
{
    match parse_document(req.markdown.as_str(), budget) {
        Err(e) => {
            return Err(domain_error(StoreError::Okf(e)));
        },
        Ok(_) => {},
    }
    let got = repo.get(&req.concept_id);
    let ghost a = crate::repo::opt_answer(got);
    assert(repo.get_rel(req@.concept_id, a));
    let r = match got {
        Err(e) => Err(domain_error(e)),
        Ok(current) => foresee(&req.concept_id, req.expected, req.markdown.as_str(), &current),
    };
    assert(tried(*repo, req@, res_view(r)));
    r
}

pub fn memory_commit<R: MemoryRepository>(
    repo: &mut R,
    args: &Value,
    actor: &Principal,
    budget: &Budget,
) -> (r: Result<Value, ToolError>)
    ensures
        commit_tool(*old(repo), actor@, *budget, args@, *final(repo), res_view(r)),
{
    let req = match read_commit(args) {
        Ok(q) => q,
        Err(e) => {
            return Err(e);
        },
    };
    if arg_flag(args, "dry_run", false) {
        return try_commit(&*repo, budget, &req);
    }
    write_document(repo, req, actor, budget)
}

// ---------------------------------------------------------------------
// Consolidating a session
// ---------------------------------------------------------------------

/// The concepts named by the first `n` values.
pub open spec fn entities_to(l: Seq<JsonModel>, n: int) -> Parsed<Seq<EntityModel>>
    decreases n,
{
    if n <= 0 {
        Ok(Seq::empty())
    } else {
        match entities_to(l, n - 1) {
            Err(e) => Err(e),
            Ok(before) => match need_id(l[n - 1], "concept_id"@) {
                Err(e) => Err(e),
                Ok(concept_id) => Ok(
                    before.push(
                        EntityModel { concept_id, relation: text_arg(l[n - 1], "relation"@) },
                    ),
                ),
            },
        }
    }
}

pub open spec fn entities_arg(a: JsonModel) -> Parsed<Seq<EntityModel>> {
    match list_arg(a, "entities"@) {
        None => Ok(Seq::empty()),
        Some(l) => entities_to(l, l.len() as int),
    }
}

/// An id that may be there.
pub open spec fn id_arg(a: JsonModel, k: Seq<char>) -> Parsed<Option<Seq<char>>> {
    match text_arg(a, k) {
        None => Ok(None),
        Some(t) => match read_id(t) {
            Err(e) => Err(e),
            Ok(id) => Ok(Some(id)),
        },
    }
}

/// The decisions told by the first `n` values.
pub open spec fn decisions_to(l: Seq<JsonModel>, n: int) -> Parsed<Seq<DigestDecisionModel>>
    decreases n,
{
    if n <= 0 {
        Ok(Seq::empty())
    } else {
        match decisions_to(l, n - 1) {
            Err(e) => Err(e),
            Ok(before) => match need_text(l[n - 1], "text"@) {
                Err(e) => Err(e),
                Ok(text) => match id_arg(l[n - 1], "concept_id"@) {
                    Err(e) => Err(e),
                    Ok(concept_id) => Ok(before.push(DigestDecisionModel { text, concept_id })),
                },
            },
        }
    }
}

pub open spec fn decisions_arg(a: JsonModel) -> Parsed<Seq<DigestDecisionModel>> {
    match list_arg(a, "decisions"@) {
        None => Ok(Seq::empty()),
        Some(l) => decisions_to(l, l.len() as int),
    }
}

proof fn lemma_entities_stay_wrong(l: Seq<JsonModel>, i: int, n: int)
    requires
        0 <= i <= n,
        entities_to(l, i) is Err,
    ensures
        entities_to(l, n) == entities_to(l, i),
    decreases n,
{
    if i < n {
        lemma_entities_stay_wrong(l, i, n - 1);
    }
}

proof fn lemma_decisions_stay_wrong(l: Seq<JsonModel>, i: int, n: int)
    requires
        0 <= i <= n,
        decisions_to(l, i) is Err,
    ensures
        decisions_to(l, n) == decisions_to(l, i),
    decreases n,
{
    if i < n {
        lemma_decisions_stay_wrong(l, i, n - 1);
    }
}

/// The view of a list of entities.
pub open spec fn list_result<T: View>(r: Result<Vec<T>, ToolError>) -> Parsed<Seq<T::V>> {
    match r {
        Ok(v) => Ok(views(v@)),
        Err(e) => Err(e@),
    }
}

fn parse_digest_entities(args: &Value) -> (r: Result<Vec<DigestEntity>, ToolError>)
    ensures
        list_result(r) == entities_arg(args@),
{
    let mut out: Vec<DigestEntity> = Vec::new();
    assert(views(out@) =~= Seq::empty());
    let items = match arg_list(args, "entities") {
        None => {
            return Ok(out);
        },
        Some(l) => l,
    };
    let ghost all = views(items@);
    let mut i: usize = 0;
    while i < items.len()
        invariant
            i <= items.len(),
            all == views(items@),
            list_arg(args@, "entities"@) == Some(all),
            entities_to(all, i as int) == Ok::<_, ToolErrorModel>(views(out@)),
        decreases items.len() - i,
    {
        assert(all[i as int] == items@[i as int]@);
        match require_id(&items[i], "concept_id") {
            Err(e) => {
                proof {
                    lemma_entities_stay_wrong(all, i + 1, all.len() as int);
                }
                return Err(e);
            },
            Ok(concept_id) => {
                let entity = DigestEntity { concept_id, relation: arg_str(&items[i], "relation") };
                proof {
                    lemma_views_push(out@, entity);
                }
                out.push(entity);
            },
        }
        i += 1;
    }
    Ok(out)
}

/// The view of an optional id.
pub open spec fn opt_id_result(r: Result<Option<ConceptId>, ToolError>) -> Parsed<
    Option<Seq<char>>,
> {
    match r {
        Ok(x) => Ok(opt_view(x)),
        Err(e) => Err(e@),
    }
}

pub fn arg_id(args: &Value, key: &str) -> (r: Result<Option<ConceptId>, ToolError>)
    ensures
        opt_id_result(r) == id_arg(args@, key@),
{
    match arg_str(args, key) {
        None => Ok(None),
        Some(t) => match concept_id(t.as_str()) {
            Ok(id) => Ok(Some(id)),
            Err(e) => Err(e),
        },
    }
}

fn parse_digest_decisions(args: &Value) -> (r: Result<Vec<DigestDecision>, ToolError>)
    ensures
        list_result(r) == decisions_arg(args@),
{
    let mut out: Vec<DigestDecision> = Vec::new();
    assert(views(out@) =~= Seq::empty());
    let items = match arg_list(args, "decisions") {
        None => {
            return Ok(out);
        },
        Some(l) => l,
    };
    let ghost all = views(items@);
    let mut i: usize = 0;
    while i < items.len()
        invariant
            i <= items.len(),
            all == views(items@),
            list_arg(args@, "decisions"@) == Some(all),
            decisions_to(all, i as int) == Ok::<_, ToolErrorModel>(views(out@)),
        decreases items.len() - i,
    {
        assert(all[i as int] == items@[i as int]@);
        let text = match require_str(&items[i], "text") {
            Ok(t) => t,
            Err(e) => {
                proof {
                    lemma_decisions_stay_wrong(all, i + 1, all.len() as int);
                }
                return Err(e);
            },
        };
        match arg_id(&items[i], "concept_id") {
            Err(e) => {
                proof {
                    lemma_decisions_stay_wrong(all, i + 1, all.len() as int);
                }
                return Err(e);
            },
            Ok(concept_id) => {
                let decided = DigestDecision { text, concept_id };
                proof {
                    lemma_views_push(out@, decided);
                }
                out.push(decided);
            },
        }
        i += 1;
    }
    Ok(out)
}

/// The kind of a rejected digest.
pub open spec fn digest_kind(e: ConsolidateErrorModel) -> Seq<char> {
    match e {
        ConsolidateErrorModel::EmptyTitle => "empty_title"@,
        ConsolidateErrorModel::EmptySummary => "empty_summary"@,
        ConsolidateErrorModel::Okf(_) => "invalid_okf_document"@,
    }
}

fn consolidate_error(err: ConsolidateError) -> (r: ToolError)
    ensures
        r@ == failed(kind_json(digest_kind(err@), err@.message())),
{
    let kind = match &err {
        ConsolidateError::EmptyTitle => "empty_title",
        ConsolidateError::EmptySummary => "empty_summary",
        ConsolidateError::Okf(_) => "invalid_okf_document",
    };
    fail_with(&kind_value(kind, err.message().as_str()))
}

/// Where a session goes: where it says, else under `sessions`.
pub open spec fn session_id(a: JsonModel, title: Seq<char>) -> Parsed<Seq<char>> {
    match text_arg(a, "concept_id"@) {
        Some(raw) => read_id(raw),
        None => read_id("sessions/"@ + slug(title)),
    }
}

pub open spec fn session_reason(a: JsonModel) -> Seq<char> {
    match text_arg(a, "reason"@) {
        Some(t) => t,
        None => "consolidación de sesión"@,
    }
}

/// The digest that `memory_consolidate` is given.
pub open spec fn digest_arg(a: JsonModel) -> Parsed<DigestModel> {
    match need_text(a, "title"@) {
        Err(e) => Err(e),
        Ok(title) => match need_text(a, "summary"@) {
            Err(e) => Err(e),
            Ok(summary) => match entities_arg(a) {
                Err(e) => Err(e),
                Ok(entities) => match decisions_arg(a) {
                    Err(e) => Err(e),
                    Ok(decisions) => Ok(DigestModel { title, summary, entities, decisions }),
                },
            },
        },
    }
}

/// The request of `memory_consolidate`.
pub open spec fn consolidate_args(a: JsonModel, b: Budget) -> Parsed<RequestModel> {
    match digest_arg(a) {
        Err(e) => Err(e),
        Ok(d) => match session_id(a, d.title) {
            Err(e) => Err(e),
            Ok(concept_id) => match hash_arg(a) {
                Err(e) => Err(e),
                Ok(expected) => match rendered(d, b) {
                    Err(e) => Err(failed(kind_json(digest_kind(e), e.message()))),
                    Ok(markdown) => Ok(
                        RequestModel { concept_id, expected, markdown, reason: session_reason(a) },
                    ),
                },
            },
        },
    }
}

pub open spec fn consolidate_tool<R: MemoryRepository>(
    pre: R,
    actor: PrincipalModel,
    b: Budget,
    args: JsonModel,
    post: R,
    r: ToolAnswer,
) -> bool {
    match consolidate_args(args, b) {
        Err(e) => r == ToolAnswer::Err(e) && post == pre,
        Ok(req) => written(pre, req, actor, b, post, r),
    }
}

fn read_digest(args: &Value) -> (r: Result<SessionDigest, ToolError>)
    ensures
        res_view(r) == digest_arg(args@),
{
    let title = match require_str(args, "title") {
        Ok(x) => x,
        Err(e) => {
            return Err(e);
        },
    };
    let summary = match require_str(args, "summary") {
        Ok(x) => x,
        Err(e) => {
            return Err(e);
        },
    };
    let entities = match parse_digest_entities(args) {
        Ok(x) => x,
        Err(e) => {
            return Err(e);
        },
    };
    let decisions = match parse_digest_decisions(args) {
        Ok(x) => x,
        Err(e) => {
            return Err(e);
        },
    };
    Ok(SessionDigest { title, summary, entities, decisions })
}

fn place_session(args: &Value, title: &str) -> (r: Result<ConceptId, ToolError>)
    ensures
        res_view(r) == session_id(args@, title@),
{
    match arg_str(args, "concept_id") {
        Some(raw) => concept_id(raw.as_str()),
        None => {
            let mut raw = "sessions/".to_owned();
            raw.push_str(slugify(title).as_str());
            concept_id(raw.as_str())
        },
    }
}

fn read_consolidate(args: &Value, budget: &Budget) -> (r: Result<CommitRequest, ToolError>)
    ensures
        res_view(r) == consolidate_args(args@, *budget),
{
    let digest = match read_digest(args) {
        Ok(d) => d,
        Err(e) => {
            return Err(e);
        },
    };
    let concept_id = match place_session(args, digest.title.as_str()) {
        Ok(x) => x,
        Err(e) => {
            return Err(e);
        },
    };
    let reason = match arg_str(args, "reason") {
        Some(t) => t,
        None => "consolidación de sesión".to_owned(),
    };
    let expected = match arg_hash(args) {
        Ok(x) => x,
        Err(e) => {
            return Err(e);
        },
    };
    match render_digest(&digest, budget) {
        Ok(markdown) => Ok(CommitRequest { concept_id, expected, markdown, reason }),
        Err(e) => Err(consolidate_error(e)),
    }
}

pub fn memory_consolidate<R: MemoryRepository>(
    repo: &mut R,
    args: &Value,
    actor: &Principal,
    budget: &Budget,
) -> (r: Result<Value, ToolError>)
    ensures
        consolidate_tool(*old(repo), actor@, *budget, args@, *final(repo), res_view(r)),
{
    match read_consolidate(args, budget) {
        Ok(req) => write_document(repo, req, actor, budget),
        Err(e) => Err(e),
    }
}

// ---------------------------------------------------------------------
// Deleting
// ---------------------------------------------------------------------

pub struct DeleteArgs {
    pub id: Seq<char>,
    pub expected: Seq<u8>,
    pub reason: Seq<char>,
}

pub open spec fn delete_args(a: JsonModel) -> Parsed<DeleteArgs> {
    match need_id(a, "concept_id"@) {
        Err(e) => Err(e),
        Ok(id) => match need_hash(
            a,
            "expected_hash inválido (esperaba hexadecimal de 64 caracteres)"@,
        ) {
            Err(e) => Err(e),
            Ok(expected) => match need_text(a, "reason"@) {
                Err(e) => Err(e),
                Ok(reason) => Ok(DeleteArgs { id, expected, reason }),
            },
        },
    }
}

pub open spec fn delete_answer(id: Seq<char>, a: Answer<DeleteModel>) -> ToolAnswer {
    match a {
        Ok(x) => Ok(delete_json(id, x)),
        Err(e) => Err(domain(e)),
    }
}

pub open spec fn erased<R: MemoryRepository>(
    pre: R,
    d: DeleteArgs,
    actor: PrincipalModel,
    post: R,
    r: ToolAnswer,
) -> bool {
    exists|a: Answer<DeleteModel>| #[trigger]
        R::delete_rel(pre, d.id, d.expected, actor, d.reason, post, a) && r == delete_answer(d.id, a)
}

pub open spec fn delete_tool<R: MemoryRepository>(
    pre: R,
    actor: PrincipalModel,
    args: JsonModel,
    post: R,
    r: ToolAnswer,
) -> bool {
    match delete_args(args) {
        Err(e) => r == ToolAnswer::Err(e) && post == pre,
        Ok(d) => erased(pre, d, actor, post, r),
    }
}

pub fn memory_delete<R: MemoryRepository>(repo: &mut R, args: &Value, actor: &Principal) -> (r: Result<
    Value,
    ToolError,
>)
    ensures
        delete_tool(*old(repo), actor@, args@, *final(repo), res_view(r)),
{
    let id = match require_id(args, "concept_id") {
        Ok(x) => x,
        Err(e) => {
            return Err(e);
        },
    };
    let expected = match require_hash(
        args,
        "expected_hash inválido (esperaba hexadecimal de 64 caracteres)",
    ) {
        Ok(x) => x,
        Err(e) => {
            return Err(e);
        },
    };
    let reason = match require_str(args, "reason") {
        Ok(x) => x,
        Err(e) => {
            return Err(e);
        },
    };
    let ghost d = DeleteArgs { id: id@, expected: expected@, reason: reason@ };
    assert(delete_args(args@) == Ok::<_, ToolErrorModel>(d));
    let outcome = repo.delete(&id, expected, actor, reason);
    let ghost a = res_view(outcome);
    assert(R::delete_rel(*old(repo), d.id, d.expected, actor@, d.reason, *repo, a));
    let r = match outcome {
        Ok(x) => Ok(delete_value(&id, &x)),
        Err(e) => Err(domain_error(e)),
    };
    assert(erased(*old(repo), d, actor@, *repo, res_view(r)));
    r
}

// ---------------------------------------------------------------------
// Batches
// ---------------------------------------------------------------------

/// One request of `memory_bulk_commit`.
pub open spec fn bulk_item_args(a: JsonModel) -> Parsed<RequestModel> {
    match need_id(a, "concept_id"@) {
        Err(e) => Err(e),
        Ok(concept_id) => match need_text(a, "markdown"@) {
            Err(e) => Err(e),
            Ok(markdown) => match need_text(a, "reason"@) {
                Err(e) => Err(e),
                Ok(reason) => match text_arg(a, "expected_hash"@) {
                    None => Ok(RequestModel { concept_id, expected: None, markdown, reason }),
                    Some(t) => match unhex(t) {
                        Some(h) => Ok(
                            RequestModel { concept_id, expected: Some(h), markdown, reason },
                        ),
                        None => invalid("expected_hash inválido para "@ + concept_id),
                    },
                },
            },
        },
    }
}

/// The first `n` requests.
pub open spec fn bulk_to(l: Seq<JsonModel>, n: int) -> Parsed<Seq<RequestModel>>
    decreases n,
{
    if n <= 0 {
        Ok(Seq::empty())
    } else {
        match bulk_to(l, n - 1) {
            Err(e) => Err(e),
            Ok(before) => match bulk_item_args(l[n - 1]) {
                Err(e) => Err(e),
                Ok(q) => Ok(before.push(q)),
            },
        }
    }
}

pub open spec fn bulk_args(a: JsonModel) -> Parsed<Seq<RequestModel>> {
    match list_arg(a, "requests"@) {
        None => invalid("falta el argumento 'requests' (array)"@),
        Some(l) => bulk_to(l, l.len() as int),
    }
}

pub open spec fn bulk_answer(a: Answer<BulkModel>) -> ToolAnswer {
    match a {
        Ok(x) => Ok(batch_json(x.applied, list_json::<BulkItem>(x.items))),
        Err(e) => Err(domain(e)),
    }
}

/// A batch goes to the store, and what became of each is answered.
pub open spec fn batch_written<R: MemoryRepository>(
    pre: R,
    reqs: Seq<RequestModel>,
    atomic: bool,
    actor: PrincipalModel,
    b: Budget,
    post: R,
    r: ToolAnswer,
) -> bool {
    exists|a: Answer<BulkModel>| #[trigger]
        R::bulk_rel(pre, reqs, atomic, actor, b, post, a) && r == bulk_answer(a)
}

/// A batch is atomic unless it says otherwise.
pub open spec fn bulk_tool<R: MemoryRepository>(
    pre: R,
    actor: PrincipalModel,
    b: Budget,
    args: JsonModel,
    post: R,
    r: ToolAnswer,
) -> bool {
    match bulk_args(args) {
        Err(e) => r == ToolAnswer::Err(e) && post == pre,
        Ok(reqs) => batch_written(pre, reqs, flag_arg(args, "atomic"@, true), actor, b, post, r),
    }
}

fn read_bulk_item(val: &Value) -> (r: Result<CommitRequest, ToolError>)
    ensures
        res_view(r) == bulk_item_args(val@),
{
    let concept_id = match require_id(val, "concept_id") {
        Ok(x) => x,
        Err(e) => {
            return Err(e);
        },
    };
    let markdown = match require_str(val, "markdown") {
        Ok(x) => x,
        Err(e) => {
            return Err(e);
        },
    };
    let reason = match require_str(val, "reason") {
        Ok(x) => x,
        Err(e) => {
            return Err(e);
        },
    };
    match arg_str(val, "expected_hash") {
        None => Ok(CommitRequest { concept_id, expected: None, markdown, reason }),
        Some(t) => match ContentId::from_hex(t.as_str()) {
            Some(h) => Ok(CommitRequest { concept_id, expected: Some(h), markdown, reason }),
            None => {
                let mut m = "expected_hash inválido para ".to_owned();
                m.push_str(concept_id.as_str());
                Err(ToolError::InvalidArguments(m))
            },
        },
    }
}

proof fn lemma_bulk_stays_wrong(l: Seq<JsonModel>, i: int, n: int)
    requires
        0 <= i <= n,
        bulk_to(l, i) is Err,
    ensures
        bulk_to(l, n) == bulk_to(l, i),
    decreases n,
{
    if i < n {
        lemma_bulk_stays_wrong(l, i, n - 1);
    }
}

fn read_bulk(args: &Value) -> (r: Result<Vec<CommitRequest>, ToolError>)
    ensures
        list_result(r) == bulk_args(args@),
{
    let items = match arg_list(args, "requests") {
        None => {
            return Err(
                ToolError::InvalidArguments("falta el argumento 'requests' (array)".to_owned()),
            );
        },
        Some(l) => l,
    };
    let mut out: Vec<CommitRequest> = Vec::new();
    assert(views(out@) =~= Seq::empty());
    let ghost all = views(items@);
    let mut i: usize = 0;
    while i < items.len()
        invariant
            i <= items.len(),
            all == views(items@),
            list_arg(args@, "requests"@) == Some(all),
            bulk_to(all, i as int) == Ok::<_, ToolErrorModel>(views(out@)),
        decreases items.len() - i,
    {
        assert(all[i as int] == items@[i as int]@);
        match read_bulk_item(&items[i]) {
            Err(e) => {
                proof {
                    lemma_bulk_stays_wrong(all, i + 1, all.len() as int);
                }
                return Err(e);
            },
            Ok(q) => {
                proof {
                    lemma_views_push(out@, q);
                }
                out.push(q);
            },
        }
        i += 1;
    }
    Ok(out)
}

pub fn memory_bulk_commit<R: MemoryRepository>(
    repo: &mut R,
    args: &Value,
    actor: &Principal,
    budget: &Budget,
) -> (r: Result<Value, ToolError>)
    ensures
        bulk_tool(*old(repo), actor@, *budget, args@, *final(repo), res_view(r)),
{
    let requests = match read_bulk(args) {
        Ok(q) => q,
        Err(e) => {
            return Err(e);
        },
    };
    let atomic = arg_flag(args, "atomic", true);
    let ghost reqs = views(requests@);
    assert(bulk_args(args@) == Ok::<_, ToolErrorModel>(reqs));
    let outcome = repo.commit_bulk(requests, atomic, actor, budget);
    let ghost a = res_view(outcome);
    assert(R::bulk_rel(*old(repo), reqs, atomic, actor@, *budget, *repo, a));
    let r = match outcome {
        Ok(x) => Ok(batch_value(x.applied, all_values(&x.items))),
        Err(e) => Err(domain_error(e)),
    };
    assert(batch_written(*old(repo), reqs, atomic, actor@, *budget, *repo, res_view(r)));
    r
}

} // verus!

//! Work driven by specs: a spec is a document, its tasks are documents that
//! link back to it, and the state of either is a tag.

use vstd::prelude::*;
use crate::args::{
    arg_list, arg_str, arg_texts, invalid, invalid_arguments, list_arg, need_id, need_text,
    require_id, require_str, text_arg, texts_arg, Parsed,
};
use crate::json::{
    arr, empty_object, n, number, opt_s, opt_text, s, strings, texts, Fields, JsonModel, Value,
};
use crate::mcp::{ToolAnswer, ToolError, ToolErrorModel};
use crate::model::{hex, id_error, lemma_valid_id, Budget, ConceptId, Principal, PrincipalModel};
use crate::names::{clean_title, sanitize_title, slug, slugify};
use crate::number::{quotient, Number};
use crate::okf::{Link, LinkModel};
use crate::replies::{domain, domain_error, flag, list_json, not_found, skip_json, skip_value, txt};
use crate::repo::{Answer, MemoryRepository};
use crate::store::{
    Backlink, BacklinkModel, BulkItem, BulkItemModel, BulkModel, CommitRequest, DocViewModel,
    DocumentView, HitModel, OutcomeModel, RequestModel, SearchHit, StoreError, StoreErrorModel,
};
use crate::text::{
    chars_of, debug_text, dec, lemma_views_push, opt_view, push_dec, quoted, res_view, str_eq,
    string_of, strip_prefix, strip_prefix_of, trim, trim_of, views,
};
use crate::writing::list_result;

verus! {

// ---------------------------------------------------------------------
// Proposing a spec
// ---------------------------------------------------------------------

pub open spec fn spec_text(title: Seq<char>, requirements: Seq<char>, design: Seq<char>) -> Seq<char> {
    "---\ntype: spec\ntitle: "@ + clean_title(title)
        + "\ntags:\n  - spec\n  - status-proposed\n---\n\n## Requisitos\n\n"@ + trim(requirements)
        + "\n\n## Diseño\n\n"@ + trim(design) + "\n"@
}

/// The request of `spec_propose`.
pub open spec fn propose_args(a: JsonModel) -> Parsed<RequestModel> {
    match need_id(a, "concept_id"@) {
        Err(e) => Err(e),
        Ok(concept_id) => match need_text(a, "title"@) {
            Err(e) => Err(e),
            Ok(title) => match need_text(a, "requirements"@) {
                Err(e) => Err(e),
                Ok(requirements) => match need_text(a, "design"@) {
                    Err(e) => Err(e),
                    Ok(design) => Ok(
                        RequestModel {
                            concept_id,
                            expected: None,
                            markdown: spec_text(title, requirements, design),
                            reason: match text_arg(a, "reason"@) {
                                Some(t) => t,
                                None => "spec_propose"@,
                            },
                        },
                    ),
                },
            },
        },
    }
}

pub open spec fn propose_answer(id: Seq<char>, a: Answer<OutcomeModel>) -> ToolAnswer {
    match a {
        Err(e) => Err(domain(e)),
        Ok(o) => Ok(
            empty_object().set("concept_id"@, txt(id)).set("hash"@, txt(hex(o.content_id))).set(
                "version"@,
                number(o.version),
            ).set("created"@, flag(o.created)).set("warnings"@, texts(o.warnings)),
        ),
    }
}

pub open spec fn proposed<R: MemoryRepository>(
    pre: R,
    actor: PrincipalModel,
    b: Budget,
    req: RequestModel,
    post: R,
    r: ToolAnswer,
) -> bool {
    exists|a: Answer<OutcomeModel>| #[trigger]
        R::commit_rel(pre, req, actor, b, post, a) && r == propose_answer(req.concept_id, a)
}

pub open spec fn propose_tool<R: MemoryRepository>(
    pre: R,
    actor: PrincipalModel,
    b: Budget,
    args: JsonModel,
    post: R,
    r: ToolAnswer,
) -> bool {
    match propose_args(args) {
        Err(e) => r == ToolAnswer::Err(e) && post == pre,
        Ok(req) => proposed(pre, actor, b, req, post, r),
    }
}

fn push_trimmed(out: &mut String, t: &str)
    ensures
        final(out)@ == old(out)@ + trim(t@),
{
    let chars = chars_of(t);
    let text = string_of(trim_of(chars.as_slice()));
    out.push_str(text.as_str());
}

fn read_propose(args: &Value) -> (r: Result<CommitRequest, ToolError>)
    ensures
        res_view(r) == propose_args(args@),
{
    let concept_id = match require_id(args, "concept_id") {
        Ok(x) => x,
        Err(e) => {
            return Err(e);
        },
    };
    let title = match require_str(args, "title") {
        Ok(x) => x,
        Err(e) => {
            return Err(e);
        },
    };
    let requirements = match require_str(args, "requirements") {
        Ok(x) => x,
        Err(e) => {
            return Err(e);
        },
    };
    let design = match require_str(args, "design") {
        Ok(x) => x,
        Err(e) => {
            return Err(e);
        },
    };
    let reason = match arg_str(args, "reason") {
        Some(t) => t,
        None => "spec_propose".to_owned(),
    };
    let mut markdown = "---\ntype: spec\ntitle: ".to_owned();
    markdown.push_str(sanitize_title(title.as_str()).as_str());
    markdown.push_str("\ntags:\n  - spec\n  - status-proposed\n---\n\n## Requisitos\n\n");
    push_trimmed(&mut markdown, requirements.as_str());
    markdown.push_str("\n\n## Diseño\n\n");
    push_trimmed(&mut markdown, design.as_str());
    markdown.push_str("\n");
    Ok(CommitRequest { concept_id, expected: None, markdown, reason })
}

pub fn spec_propose<R: MemoryRepository>(
    repo: &mut R,
    args: &Value,
    actor: &Principal,
    budget: &Budget,
) -> (r: Result<Value, ToolError>)
    ensures
        propose_tool(*old(repo), actor@, *budget, args@, *final(repo), res_view(r)),
{
    let req = match read_propose(args) {
        Ok(q) => q,
        Err(e) => {
            return Err(e);
        },
    };
    let id = req.concept_id.clone();
    let ghost q = req@;
    let outcome = repo.commit(req, actor, budget);
    let ghost a = res_view(outcome);
    assert(R::commit_rel(*old(repo), q, actor@, *budget, *repo, a));
    let r = match outcome {
        Err(e) => Err(domain_error(e)),
        Ok(out) => {
            let mut o = Fields::new();
            o.set("concept_id", s(id.as_str()));
            o.set("hash", s(out.content_id.to_hex().as_str()));
            o.set("version", n(out.version));
            o.set("created", Value::Bool(out.created));
            o.set("warnings", strings(&out.warnings));
            Ok(o.done())
        },
    };
    assert(proposed(*old(repo), actor@, *budget, q, *repo, res_view(r)));
    r
}

// ---------------------------------------------------------------------
// Breaking a spec into tasks
// ---------------------------------------------------------------------

/// A task as it was asked for.
pub struct TaskDraft {
    pub concept_id: ConceptId,
    pub title: String,
    pub description: String,
    /// Titles of other tasks, or ids.
    pub depends_on: Vec<String>,
}

/// Mathematical counterpart of [`TaskDraft`].
pub struct TaskModel {
    pub concept_id: Seq<char>,
    pub title: Seq<char>,
    pub description: Seq<char>,
    pub depends_on: Seq<Seq<char>>,
}

impl View for TaskDraft {
    type V = TaskModel;

    open spec fn view(&self) -> TaskModel {
        TaskModel {
            concept_id: self.concept_id@,
            title: self.title@,
            description: self.description@,
            depends_on: views(self.depends_on@),
        }
    }
}

/// A number with at least two digits.
pub open spec fn two_digits(x: nat) -> Seq<char> {
    if x < 10 {
        "0"@ + dec(x)
    } else {
        dec(x)
    }
}

/// The id of the task at index `i`.
pub open spec fn task_id(spec_id: Seq<char>, i: int, title: Seq<char>) -> Seq<char> {
    spec_id + "/tasks/"@ + two_digits((i + 1) as nat) + "-"@ + slug(title)
}

/// The task at index `i`.
pub open spec fn task_arg(v: JsonModel, spec_id: Seq<char>, i: int) -> Parsed<TaskModel> {
    match need_text(v, "title"@) {
        Err(e) => Err(e),
        Ok(title) => {
            let concept_id = task_id(spec_id, i, title);
            match id_error(concept_id) {
                Some(e) => invalid("tarea "@ + dec(i as nat) + ": id inválido: "@ + e.message()),
                None => Ok(
                    TaskModel {
                        concept_id,
                        title,
                        description: match text_arg(v, "description"@) {
                            Some(t) => t,
                            None => Seq::empty(),
                        },
                        depends_on: texts_arg(v, "depends_on"@),
                    },
                ),
            }
        },
    }
}

/// The first `n` tasks.
pub open spec fn drafts_to(l: Seq<JsonModel>, spec_id: Seq<char>, n: int) -> Parsed<Seq<TaskModel>>
    decreases n,
{
    if n <= 0 {
        Ok(Seq::empty())
    } else {
        match drafts_to(l, spec_id, n - 1) {
            Err(e) => Err(e),
            Ok(before) => match task_arg(l[n - 1], spec_id, n - 1) {
                Err(e) => Err(e),
                Ok(t) => Ok(before.push(t)),
            },
        }
    }
}

/// The id of the first task with a title, from index `i` on.
pub open spec fn titled(tasks: Seq<TaskModel>, title: Seq<char>, i: int) -> Option<Seq<char>>
    decreases tasks.len() - i,
{
    if i < 0 || i >= tasks.len() {
        None
    } else if tasks[i].title == title {
        Some(tasks[i].concept_id)
    } else {
        titled(tasks, title, i + 1)
    }
}

pub open spec fn bad_dependency(title: Seq<char>, dep: Seq<char>, why: Seq<char>) -> Seq<char> {
    "tarea "@ + debug_text(title) + ": depends_on "@ + debug_text(dep)
        + " no es ni el título de otra tarea del lote ni un concept_id válido: "@ + why
}

/// What a dependency means: a task of the batch by its title, else an id.
pub open spec fn dependency(tasks: Seq<TaskModel>, title: Seq<char>, dep: Seq<char>) -> Parsed<
    Seq<char>,
> {
    match titled(tasks, dep, 0) {
        Some(id) => Ok(id),
        None => match id_error(dep) {
            None => Ok(dep),
            Some(e) => invalid(bad_dependency(title, dep, e.message())),
        },
    }
}

/// The first `n` dependencies of a task.
pub open spec fn dependencies_to(tasks: Seq<TaskModel>, t: TaskModel, n: int) -> Parsed<
    Seq<Seq<char>>,
>
    decreases n,
{
    if n <= 0 {
        Ok(Seq::empty())
    } else {
        match dependencies_to(tasks, t, n - 1) {
            Err(e) => Err(e),
            Ok(before) => match dependency(tasks, t.title, t.depends_on[n - 1]) {
                Err(e) => Err(e),
                Ok(id) => Ok(before.push(id)),
            },
        }
    }
}

/// A link for each of the first `n` dependencies.
pub open spec fn dependency_lines(ids: Seq<Seq<char>>, n: int) -> Seq<char>
    decreases n,
{
    if n <= 0 {
        Seq::empty()
    } else {
        dependency_lines(ids, n - 1) + ("\nDepende de [[depends_on:"@ + ids[n - 1] + "]].\n"@)
    }
}

pub open spec fn task_text(spec_id: Seq<char>, t: TaskModel, deps: Seq<Seq<char>>) -> Seq<char> {
    "---\ntype: task\ntitle: "@ + clean_title(t.title)
        + "\ntags:\n  - task\n  - status-pending\n---\n\n"@ + "Parte de [[implements:"@ + spec_id
        + "]].\n"@ + dependency_lines(deps, deps.len() as int) + "\n"@ + trim(t.description)
        + "\n"@
}

/// The request for a task of a batch.
pub open spec fn task_request(spec_id: Seq<char>, tasks: Seq<TaskModel>, t: TaskModel) -> Parsed<
    RequestModel,
> {
    match dependencies_to(tasks, t, t.depends_on.len() as int) {
        Err(e) => Err(e),
        Ok(deps) => Ok(
            RequestModel {
                concept_id: t.concept_id,
                expected: None,
                markdown: task_text(spec_id, t, deps),
                reason: "spec_tasks desde "@ + spec_id,
            },
        ),
    }
}

/// The requests for the first `n` tasks.
pub open spec fn task_requests(spec_id: Seq<char>, tasks: Seq<TaskModel>, n: int) -> Parsed<
    Seq<RequestModel>,
>
    decreases n,
{
    if n <= 0 {
        Ok(Seq::empty())
    } else {
        match task_requests(spec_id, tasks, n - 1) {
            Err(e) => Err(e),
            Ok(before) => match task_request(spec_id, tasks, tasks[n - 1]) {
                Err(e) => Err(e),
                Ok(q) => Ok(before.push(q)),
            },
        }
    }
}

/// The requests that the tasks of a call turn into.
pub open spec fn tasks_arg(a: JsonModel, spec_id: Seq<char>) -> Parsed<Seq<RequestModel>> {
    match list_arg(a, "tasks"@) {
        None => invalid("falta el argumento 'tasks' (array)"@),
        Some(l) => if l.len() == 0 {
            invalid("'tasks' no puede estar vacío"@)
        } else {
            match drafts_to(l, spec_id, l.len() as int) {
                Err(e) => Err(e),
                Ok(tasks) => task_requests(spec_id, tasks, tasks.len() as int),
            }
        },
    }
}

/// The ids among the first `n` that were written.
pub open spec fn made_ids(reqs: Seq<RequestModel>, items: Seq<BulkItemModel>, n: int) -> Seq<JsonModel>
    decreases n,
{
    if n <= 0 {
        Seq::empty()
    } else if items[n - 1] is Done {
        made_ids(reqs, items, n - 1).push(txt(reqs[n - 1].concept_id))
    } else {
        made_ids(reqs, items, n - 1)
    }
}

/// What was not written among the first `n`.
pub open spec fn unmade(reqs: Seq<RequestModel>, items: Seq<BulkItemModel>, n: int) -> Seq<JsonModel>
    decreases n,
{
    if n <= 0 {
        Seq::empty()
    } else {
        match items[n - 1] {
            BulkItemModel::Done(_) => unmade(reqs, items, n - 1),
            BulkItemModel::Failed(e) => unmade(reqs, items, n - 1).push(
                skip_json(reqs[n - 1].concept_id, e.message()),
            ),
            BulkItemModel::Skipped => unmade(reqs, items, n - 1).push(
                skip_json(reqs[n - 1].concept_id, "omitido por el lote"@),
            ),
        }
    }
}

/// The warnings of what was written among the first `n`.
pub open spec fn made_warnings(items: Seq<BulkItemModel>, n: int) -> Seq<Seq<char>>
    decreases n,
{
    if n <= 0 {
        Seq::empty()
    } else {
        match items[n - 1] {
            BulkItemModel::Done(o) => made_warnings(items, n - 1) + o.warnings,
            _ => made_warnings(items, n - 1),
        }
    }
}

pub open spec fn tasks_json(spec_id: Seq<char>, reqs: Seq<RequestModel>, items: Seq<BulkItemModel>) -> JsonModel {
    let n = if reqs.len() < items.len() {
        reqs.len() as int
    } else {
        items.len() as int
    };
    let ids = made_ids(reqs, items, n);
    empty_object().set("spec_id"@, txt(spec_id)).set("created"@, number(ids.len())).set(
        "task_ids"@,
        JsonModel::Array(ids),
    ).set("skipped"@, JsonModel::Array(unmade(reqs, items, n))).set(
        "warnings"@,
        texts(made_warnings(items, n)),
    )
}

pub open spec fn tasks_answer(spec_id: Seq<char>, reqs: Seq<RequestModel>, a: Answer<BulkModel>) -> ToolAnswer {
    match a {
        Err(e) => Err(domain(e)),
        Ok(x) => Ok(tasks_json(spec_id, reqs, x.items)),
    }
}

/// The tasks are written, each on its own.
pub open spec fn tasks_made<R: MemoryRepository>(
    pre: R,
    actor: PrincipalModel,
    b: Budget,
    spec_id: Seq<char>,
    reqs: Seq<RequestModel>,
    post: R,
    r: ToolAnswer,
) -> bool {
    exists|a: Answer<BulkModel>| #[trigger]
        R::bulk_rel(pre, reqs, false, actor, b, post, a) && r == tasks_answer(spec_id, reqs, a)
}

/// `spec_tasks` for what the store has of the spec, which must be there.
pub open spec fn tasked<R: MemoryRepository>(
    pre: R,
    actor: PrincipalModel,
    b: Budget,
    args: JsonModel,
    spec_id: Seq<char>,
    a: Answer<Option<DocViewModel>>,
    post: R,
    r: ToolAnswer,
) -> bool {
    match a {
        Err(e) => r == ToolAnswer::Err(domain(e)) && post == pre,
        Ok(None) => r == ToolAnswer::Err(domain(StoreErrorModel::NotFound(spec_id))) && post == pre,
        Ok(Some(_)) => match tasks_arg(args, spec_id) {
            Err(e) => r == ToolAnswer::Err(e) && post == pre,
            Ok(reqs) => tasks_made(pre, actor, b, spec_id, reqs, post, r),
        },
    }
}

pub open spec fn tasked_for<R: MemoryRepository>(
    pre: R,
    actor: PrincipalModel,
    b: Budget,
    args: JsonModel,
    spec_id: Seq<char>,
    post: R,
    r: ToolAnswer,
) -> bool {
    exists|a: Answer<Option<DocViewModel>>| #[trigger]
        pre.get_rel(spec_id, a) && tasked(pre, actor, b, args, spec_id, a, post, r)
}

pub open spec fn tasks_tool<R: MemoryRepository>(
    pre: R,
    actor: PrincipalModel,
    b: Budget,
    args: JsonModel,
    post: R,
    r: ToolAnswer,
) -> bool {
    match need_id(args, "spec_id"@) {
        Err(e) => r == ToolAnswer::Err(e) && post == pre,
        Ok(spec_id) => tasked_for(pre, actor, b, args, spec_id, post, r),
    }
}

proof fn lemma_drafts_stay_wrong(l: Seq<JsonModel>, spec_id: Seq<char>, i: int, n: int)
    requires
        0 <= i <= n,
        drafts_to(l, spec_id, i) is Err,
    ensures
        drafts_to(l, spec_id, n) == drafts_to(l, spec_id, i),
    decreases n,
{
    if i < n {
        lemma_drafts_stay_wrong(l, spec_id, i, n - 1);
    }
}

proof fn lemma_dependencies_stay_wrong(tasks: Seq<TaskModel>, t: TaskModel, i: int, n: int)
    requires
        0 <= i <= n,
        dependencies_to(tasks, t, i) is Err,
    ensures
        dependencies_to(tasks, t, n) == dependencies_to(tasks, t, i),
    decreases n,
{
    if i < n {
        lemma_dependencies_stay_wrong(tasks, t, i, n - 1);
    }
}

proof fn lemma_requests_stay_wrong(spec_id: Seq<char>, tasks: Seq<TaskModel>, i: int, n: int)
    requires
        0 <= i <= n,
        task_requests(spec_id, tasks, i) is Err,
    ensures
        task_requests(spec_id, tasks, n) == task_requests(spec_id, tasks, i),
    decreases n,
{
    if i < n {
        lemma_requests_stay_wrong(spec_id, tasks, i, n - 1);
    }
}

fn read_task(v: &Value, spec_id: &ConceptId, i: usize) -> (r: Result<TaskDraft, ToolError>)
    requires
        i < usize::MAX,
    ensures
        res_view(r) == task_arg(v@, spec_id@, i as int),
{
    let title = match require_str(v, "title") {
        Ok(x) => x,
        Err(e) => {
            return Err(e);
        },
    };
    let description = match arg_str(v, "description") {
        Some(t) => t,
        None => String::new(),
    };
    proof {
        if text_arg(v@, "description"@) is None {
            assert(description@ =~= Seq::empty());
        }
    }
    let depends_on = arg_texts(v, "depends_on");
    let mut raw = spec_id.as_str().to_owned();
    raw.push_str("/tasks/");
    if i + 1 < 10 {
        raw.push_str("0");
    }
    push_dec(&mut raw, (i + 1) as u64);
    raw.push_str("-");
    raw.push_str(slugify(title.as_str()).as_str());
    assert(raw@ =~= task_id(spec_id@, i as int, title@));
    proof {
        lemma_valid_id(raw@);
    }
    match ConceptId::parse(raw.as_str()) {
        Ok(concept_id) => Ok(TaskDraft { concept_id, title, description, depends_on }),
        Err(e) => {
            let mut m = "tarea ".to_owned();
            push_dec(&mut m, i as u64);
            m.push_str(": id inválido: ");
            m.push_str(e.message().as_str());
            Err(ToolError::InvalidArguments(m))
        },
    }
}

fn read_drafts(items: &Vec<Value>, spec_id: &ConceptId) -> (r: Result<Vec<TaskDraft>, ToolError>)
    ensures
        list_result(r) == drafts_to(views(items@), spec_id@, items@.len() as int),
{
    let ghost all = views(items@);
    let mut out: Vec<TaskDraft> = Vec::new();
    assert(views(out@) =~= Seq::empty());
    let mut i: usize = 0;
    while i < items.len()
        invariant
            i <= items.len(),
            all == views(items@),
            drafts_to(all, spec_id@, i as int) == Ok::<_, ToolErrorModel>(views(out@)),
        decreases items.len() - i,
    {
        assert(all[i as int] == items@[i as int]@);
        match read_task(&items[i], spec_id, i) {
            Ok(t) => {
                proof {
                    lemma_views_push(out@, t);
                }
                out.push(t);
            },
            Err(e) => {
                proof {
                    lemma_drafts_stay_wrong(all, spec_id@, i + 1, all.len() as int);
                }
                return Err(e);
            },
        }
        i += 1;
    }
    Ok(out)
}

fn resolve_dependency(tasks: &Vec<TaskDraft>, title: &str, dep: &str) -> (r: Result<
    ConceptId,
    ToolError,
>)
    ensures
        res_view(r) == dependency(views(tasks@), title@, dep@),
{
    let ghost all = views(tasks@);
    let mut i: usize = 0;
    while i < tasks.len()
        invariant
            i <= tasks.len(),
            all == views(tasks@),
            titled(all, dep@, 0) == titled(all, dep@, i as int),
        decreases tasks.len() - i,
    {
        assert(all[i as int] == tasks@[i as int]@);
        if str_eq(tasks[i].title.as_str(), dep) {
            return Ok(tasks[i].concept_id.clone());
        }
        i += 1;
    }
    proof {
        lemma_valid_id(dep@);
    }
    match ConceptId::parse(dep) {
        Ok(id) => Ok(id),
        Err(e) => {
            let mut m = "tarea ".to_owned();
            m.push_str(quoted(title).as_str());
            m.push_str(": depends_on ");
            m.push_str(quoted(dep).as_str());
            m.push_str(" no es ni el título de otra tarea del lote ni un concept_id válido: ");
            m.push_str(e.message().as_str());
            Err(ToolError::InvalidArguments(m))
        },
    }
}

fn request_for(spec_id: &ConceptId, tasks: &Vec<TaskDraft>, t: &TaskDraft) -> (r: Result<
    CommitRequest,
    ToolError,
>)
    ensures
        res_view(r) == task_request(spec_id@, views(tasks@), t@),
{
    let ghost all = views(tasks@);
    let ghost wanted = t@.depends_on;
    let mut lines = String::new();
    let ghost mut ids: Seq<Seq<char>> = Seq::empty();
    assert(lines@ =~= dependency_lines(ids, 0));
    let mut i: usize = 0;
    while i < t.depends_on.len()
        invariant
            i <= t.depends_on.len(),
            all == views(tasks@),
            wanted == t@.depends_on,
            wanted == views(t.depends_on@),
            ids.len() == i,
            dependencies_to(all, t@, i as int) == Ok::<_, ToolErrorModel>(ids),
            lines@ == dependency_lines(ids, i as int),
        decreases t.depends_on.len() - i,
    {
        assert(wanted[i as int] == t.depends_on@[i as int]@);
        match resolve_dependency(tasks, t.title.as_str(), t.depends_on[i].as_str()) {
            Ok(id) => {
                lines.push_str("\nDepende de [[depends_on:");
                lines.push_str(id.as_str());
                lines.push_str("]].\n");
                proof {
                    let before = ids;
                    ids = ids.push(id@);
                    lemma_lines_prefix(before, ids, i as int);
                    assert(lines@ =~= dependency_lines(ids, i + 1));
                }
            },
            Err(e) => {
                proof {
                    lemma_dependencies_stay_wrong(all, t@, i + 1, wanted.len() as int);
                }
                return Err(e);
            },
        }
        i += 1;
    }
    let mut markdown = "---\ntype: task\ntitle: ".to_owned();
    markdown.push_str(sanitize_title(t.title.as_str()).as_str());
    markdown.push_str("\ntags:\n  - task\n  - status-pending\n---\n\n");
    markdown.push_str("Parte de [[implements:");
    markdown.push_str(spec_id.as_str());
    markdown.push_str("]].\n");
    markdown.push_str(lines.as_str());
    markdown.push_str("\n");
    push_trimmed(&mut markdown, t.description.as_str());
    markdown.push_str("\n");
    let mut reason = "spec_tasks desde ".to_owned();
    reason.push_str(spec_id.as_str());
    Ok(CommitRequest { concept_id: t.concept_id.clone(), expected: None, markdown, reason })
}

proof fn lemma_lines_prefix(a: Seq<Seq<char>>, b: Seq<Seq<char>>, n: int)
    requires
        0 <= n <= a.len() <= b.len(),
        forall|i: int| 0 <= i < a.len() ==> a[i] == b[i],
    ensures
        dependency_lines(a, n) == dependency_lines(b, n),
    decreases n,
{
    if n > 0 {
        lemma_lines_prefix(a, b, n - 1);
    }
}

fn requests_for(spec_id: &ConceptId, tasks: &Vec<TaskDraft>) -> (r: Result<
    Vec<CommitRequest>,
    ToolError,
>)
    ensures
        list_result(r) == task_requests(spec_id@, views(tasks@), tasks@.len() as int),
{
    let ghost all = views(tasks@);
    let mut out: Vec<CommitRequest> = Vec::new();
    assert(views(out@) =~= Seq::empty());
    let mut i: usize = 0;
    while i < tasks.len()
        invariant
            i <= tasks.len(),
            all == views(tasks@),
            task_requests(spec_id@, all, i as int) == Ok::<_, ToolErrorModel>(views(out@)),
        decreases tasks.len() - i,
    {
        assert(all[i as int] == tasks@[i as int]@);
        match request_for(spec_id, tasks, &tasks[i]) {
            Ok(q) => {
                proof {
                    lemma_views_push(out@, q);
                }
                out.push(q);
            },
            Err(e) => {
                proof {
                    lemma_requests_stay_wrong(spec_id@, all, i + 1, all.len() as int);
                }
                return Err(e);
            },
        }
        i += 1;
    }
    Ok(out)
}

fn read_tasks(args: &Value, spec_id: &ConceptId) -> (r: Result<Vec<CommitRequest>, ToolError>)
    ensures
        list_result(r) == tasks_arg(args@, spec_id@),
{
    let items = match arg_list(args, "tasks") {
        None => {
            return Err(invalid_arguments("falta el argumento 'tasks' (array)"));
        },
        Some(l) => l,
    };
    if items.len() == 0 {
        return Err(invalid_arguments("'tasks' no puede estar vacío"));
    }
    match read_drafts(items, spec_id) {
        Ok(tasks) => requests_for(spec_id, &tasks),
        Err(e) => Err(e),
    }
}

fn ids_of(reqs: &Vec<CommitRequest>) -> (r: Vec<ConceptId>)
    ensures
        r@.len() == reqs@.len(),
        forall|k: int| 0 <= k < r@.len() ==> (#[trigger] r@[k])@ == views(reqs@)[k].concept_id,
{
    let mut out: Vec<ConceptId> = Vec::new();
    let mut i: usize = 0;
    while i < reqs.len()
        invariant
            i <= reqs.len(),
            out@.len() == i,
            forall|k: int| 0 <= k < i ==> (#[trigger] out@[k])@ == views(reqs@)[k].concept_id,
        decreases reqs.len() - i,
    {
        assert(views(reqs@)[i as int] == reqs@[i as int]@);
        out.push(reqs[i].concept_id.clone());
        i += 1;
    }
    out
}

fn tasks_value(
    spec_id: &ConceptId,
    ids: &Vec<ConceptId>,
    items: &Vec<BulkItem>,
    Ghost(reqs): Ghost<Seq<RequestModel>>,
) -> (r: Value)
    requires
        ids@.len() == reqs.len(),
        forall|k: int| 0 <= k < ids@.len() ==> (#[trigger] ids@[k])@ == reqs[k].concept_id,
    ensures
        r@ == tasks_json(spec_id@, reqs, views(items@)),
{
    let ghost all = views(items@);
    let mut made: Vec<Value> = Vec::new();
    let mut skipped: Vec<Value> = Vec::new();
    let mut warnings: Vec<String> = Vec::new();
    assert(views(made@) =~= Seq::empty());
    assert(views(skipped@) =~= Seq::empty());
    assert(views(warnings@) =~= Seq::empty());
    let mut i: usize = 0;
    while i < ids.len() && i < items.len()
        invariant
            i <= ids.len(),
            i <= items.len(),
            ids@.len() == reqs.len(),
            forall|k: int| 0 <= k < ids@.len() ==> (#[trigger] ids@[k])@ == reqs[k].concept_id,
            all == views(items@),
            views(made@) == made_ids(reqs, all, i as int),
            views(skipped@) == unmade(reqs, all, i as int),
            views(warnings@) == made_warnings(all, i as int),
        decreases ids.len() - i,
    {
        assert(all[i as int] == items@[i as int]@);
        assert(ids@[i as int]@ == reqs[i as int].concept_id);
        match &items[i] {
            BulkItem::Done(o) => {
                let v = s(ids[i].as_str());
                proof {
                    lemma_views_push(made@, v);
                }
                made.push(v);
                let mut more = crate::text::clone_strings(&o.warnings);
                let ghost joined = views(warnings@) + views(more@);
                warnings.append(&mut more);
                assert(views(warnings@) =~= joined);
            },
            BulkItem::Failed(e) => {
                let v = skip_value(ids[i].as_str(), e.message().as_str());
                proof {
                    lemma_views_push(skipped@, v);
                }
                skipped.push(v);
            },
            BulkItem::Skipped => {
                let v = skip_value(ids[i].as_str(), "omitido por el lote");
                proof {
                    lemma_views_push(skipped@, v);
                }
                skipped.push(v);
            },
        }
        i += 1;
    }
    let mut o = Fields::new();
    o.set("spec_id", s(spec_id.as_str()));
    o.set("created", n(made.len() as u64));
    o.set("task_ids", arr(made));
    o.set("skipped", arr(skipped));
    o.set("warnings", strings(&warnings));
    o.done()
}

fn make_tasks<R: MemoryRepository>(
    repo: &mut R,
    spec_id: &ConceptId,
    requests: Vec<CommitRequest>,
    actor: &Principal,
    budget: &Budget,
) -> (r: Result<Value, ToolError>)
    ensures
        tasks_made(
            *old(repo),
            actor@,
            *budget,
            spec_id@,
            views(requests@),
            *final(repo),
            res_view(r),
        ),
{
    let ids = ids_of(&requests);
    let ghost reqs = views(requests@);
    let outcome = repo.commit_bulk(requests, false, actor, budget);
    let ghost a = res_view(outcome);
    assert(R::bulk_rel(*old(repo), reqs, false, actor@, *budget, *repo, a));
    match outcome {
        Err(e) => Err(domain_error(e)),
        Ok(x) => Ok(tasks_value(spec_id, &ids, &x.items, Ghost(reqs))),
    }
}

pub fn spec_tasks<R: MemoryRepository>(
    repo: &mut R,
    args: &Value,
    actor: &Principal,
    budget: &Budget,
) -> (r: Result<Value, ToolError>)
    ensures
        tasks_tool(*old(repo), actor@, *budget, args@, *final(repo), res_view(r)),
{
    let spec_id = match require_id(args, "spec_id") {
        Ok(x) => x,
        Err(e) => {
            return Err(e);
        },
    };
    let got = repo.get(&spec_id);
    let ghost a = crate::repo::opt_answer(got);
    assert(old(repo).get_rel(spec_id@, a));
    let r = match got {
        Err(e) => Err(domain_error(e)),
        Ok(None) => Err(not_found(&spec_id)),
        Ok(Some(_)) => match read_tasks(args, &spec_id) {
            Err(e) => Err(e),
            Ok(requests) => make_tasks(repo, &spec_id, requests, actor, budget),
        },
    };
    assert(tasked(*old(repo), actor@, *budget, args@, spec_id@, a, *repo, res_view(r)));
    assert(tasked_for(*old(repo), actor@, *budget, args@, spec_id@, *repo, res_view(r)));
    r
}

// ---------------------------------------------------------------------
// How a spec is getting on
// ---------------------------------------------------------------------

/// The state in the first tag that holds one, from index `i` on.
pub open spec fn status_from(tags: Seq<Seq<char>>, i: int) -> Seq<char>
    decreases tags.len() - i,
{
    if i < 0 || i >= tags.len() {
        "unknown"@
    } else {
        match strip_prefix(tags[i], "status-"@) {
            Some(t) => t,
            None => status_from(tags, i + 1),
        }
    }
}

/// The state that some tags hold.
pub open spec fn status_of(tags: Seq<Seq<char>>) -> Seq<char> {
    status_from(tags, 0)
}

pub fn status_tag(tags: &Vec<String>) -> (r: String)
    ensures
        r@ == status_of(views(tags@)),
{
    let ghost all = views(tags@);
    let mut i: usize = 0;
    while i < tags.len()
        invariant
            i <= tags.len(),
            all == views(tags@),
            status_of(all) == status_from(all, i as int),
        decreases tags.len() - i,
    {
        assert(all[i as int] == tags@[i as int]@);
        let chars = chars_of(tags[i].as_str());
        match strip_prefix_of(chars.as_slice(), "status-") {
            Some(t) => {
                return string_of(t);
            },
            None => {},
        }
        i += 1;
    }
    "unknown".to_owned()
}

pub open spec fn is_task_of(l: BacklinkModel) -> bool {
    l.rel == Some("implements"@) && l.source.doc_type == "task"@
}

/// The tasks among the first `n` documents that link to a spec.
pub open spec fn tasks_in(l: Seq<BacklinkModel>, n: int) -> Seq<HitModel>
    decreases n,
{
    if n <= 0 {
        Seq::empty()
    } else if is_task_of(l[n - 1]) {
        tasks_in(l, n - 1).push(l[n - 1].source)
    } else {
        tasks_in(l, n - 1)
    }
}

/// The state of a task of the spec, among the first `n`; the last one counts.
pub open spec fn known_status(tasks: Seq<HitModel>, id: Seq<char>, n: int) -> Option<Seq<char>>
    decreases n,
{
    if n <= 0 {
        None
    } else if tasks[n - 1].concept_id == id {
        Some(status_of(tasks[n - 1].tags))
    } else {
        known_status(tasks, id, n - 1)
    }
}

/// A document that is there and done.
pub open spec fn is_done(d: Option<DocViewModel>) -> bool {
    d is Some && status_of(d->0.tags) == "done"@
}

/// Whether some dependency from link `i` on is not done. One outside the spec
/// is looked up; one that is not there is not done.
pub open spec fn unmet<R: MemoryRepository>(
    repo: R,
    tasks: Seq<HitModel>,
    links: Seq<LinkModel>,
    i: int,
    u: Answer<bool>,
) -> bool
    decreases links.len() - i,
{
    if i < 0 || i >= links.len() {
        u == Answer::<bool>::Ok(false)
    } else if links[i].rel != Some("depends_on"@) {
        unmet(repo, tasks, links, i + 1, u)
    } else {
        match known_status(tasks, links[i].target, tasks.len() as int) {
            Some(st) => if st == "done"@ {
                unmet(repo, tasks, links, i + 1, u)
            } else {
                u == Answer::<bool>::Ok(true)
            },
            None => exists|a: Answer<Option<DocViewModel>>| #[trigger]
                repo.get_rel(links[i].target, a) && (match a {
                    Err(e) => u == Answer::<bool>::Err(e),
                    Ok(d) => if is_done(d) {
                        unmet(repo, tasks, links, i + 1, u)
                    } else {
                        u == Answer::<bool>::Ok(true)
                    },
                }),
        }
    }
}

pub open spec fn waits_with<R: MemoryRepository>(
    repo: R,
    tasks: Seq<HitModel>,
    a: Answer<Option<DocViewModel>>,
    u: Answer<bool>,
) -> bool {
    match a {
        Err(e) => u == Answer::<bool>::Err(e),
        Ok(None) => u == Answer::<bool>::Ok(false),
        Ok(Some(d)) => unmet(repo, tasks, d.links, 0, u),
    }
}

/// Whether a pending task waits for another.
pub open spec fn waits<R: MemoryRepository>(
    repo: R,
    tasks: Seq<HitModel>,
    id: Seq<char>,
    u: Answer<bool>,
) -> bool {
    exists|a: Answer<Option<DocViewModel>>| #[trigger]
        repo.get_rel(id, a) && waits_with(repo, tasks, a, u)
}

/// The tasks of a spec by state.
pub struct Tally {
    pub pending: nat,
    pub in_progress: nat,
    pub done: nat,
    pub blocked: nat,
    pub unknown: nat,
    /// Pending, but waiting for others.
    pub waiting: nat,
    /// Pending, and free to start.
    pub next: Seq<Seq<char>>,
}

pub open spec fn no_tasks() -> Tally {
    Tally {
        pending: 0,
        in_progress: 0,
        done: 0,
        blocked: 0,
        unknown: 0,
        waiting: 0,
        next: Seq::empty(),
    }
}

/// One more task; `waiting` says whether it waits, where it is pending.
pub open spec fn tallied_one(t: Tally, task: HitModel, waiting: bool) -> Tally {
    let st = status_of(task.tags);
    if st == "pending"@ {
        if waiting {
            Tally { pending: t.pending + 1, waiting: t.waiting + 1, ..t }
        } else {
            Tally { pending: t.pending + 1, next: t.next.push(task.concept_id), ..t }
        }
    } else if st == "in_progress"@ {
        Tally { in_progress: t.in_progress + 1, ..t }
    } else if st == "done"@ {
        Tally { done: t.done + 1, ..t }
    } else if st == "blocked"@ {
        Tally { blocked: t.blocked + 1, ..t }
    } else {
        Tally { unknown: t.unknown + 1, ..t }
    }
}

/// The first `n` tasks; `us` says of each pending one whether it waits.
pub open spec fn tallied(tasks: Seq<HitModel>, us: Seq<Answer<bool>>, n: int) -> Answer<Tally>
    decreases n,
{
    if n <= 0 {
        Ok(no_tasks())
    } else {
        match tallied(tasks, us, n - 1) {
            Err(e) => Err(e),
            Ok(t) => if status_of(tasks[n - 1].tags) == "pending"@ {
                match us[n - 1] {
                    Err(e) => Err(e),
                    Ok(w) => Ok(tallied_one(t, tasks[n - 1], w)),
                }
            } else {
                Ok(tallied_one(t, tasks[n - 1], false))
            },
        }
    }
}

/// Every task is counted once, and a pending one either waits or is free to
/// start.
pub proof fn law_every_task_counts_once(tasks: Seq<HitModel>, us: Seq<Answer<bool>>, n: int)
    requires
        0 <= n <= tasks.len(),
        tallied(tasks, us, n) is Ok,
    ensures
        ({
            let t = tallied(tasks, us, n)->Ok_0;
            &&& t.pending + t.in_progress + t.done + t.blocked + t.unknown == n
            &&& t.waiting + t.next.len() == t.pending
        }),
    decreases n,
{
    if n > 0 {
        law_every_task_counts_once(tasks, us, n - 1);
    }
}

/// The tasks asked about are the pending ones, in order, up to the first
/// failure.
pub open spec fn inquired<R: MemoryRepository>(
    repo: R,
    tasks: Seq<HitModel>,
    us: Seq<Answer<bool>>,
) -> bool {
    &&& us.len() <= tasks.len()
    &&& forall|i: int|
        0 <= i < us.len() && status_of(tasks[i].tags) == "pending"@ ==> waits(
            repo,
            tasks,
            tasks[i].concept_id,
            #[trigger] us[i],
        )
    &&& us.len() < tasks.len() ==> tallied(tasks, us, us.len() as int) is Err
}

pub open spec fn tally_json(t: Tally) -> JsonModel {
    empty_object().set("pending"@, number(t.pending)).set("in_progress"@, number(t.in_progress)).set(
        "done"@,
        number(t.done),
    ).set("blocked"@, number(t.blocked)).set("unknown"@, number(t.unknown))
}

pub open spec fn id_values(ids: Seq<Seq<char>>) -> JsonModel {
    list_json::<ConceptId>(ids)
}

pub open spec fn progress_json(
    spec_id: Seq<char>,
    d: DocViewModel,
    total: nat,
    t: Tally,
) -> JsonModel {
    empty_object().set("spec_id"@, txt(spec_id)).set("spec_status"@, txt(status_of(d.tags))).set(
        "spec_title"@,
        opt_text(d.title),
    ).set("tasks_total"@, number(total)).set("by_status"@, tally_json(t)).set(
        "progress"@,
        JsonModel::Number(quotient(t.done, total)),
    ).set("next_pending"@, id_values(t.next)).set("waiting_on_dependencies"@, number(t.waiting))
}

pub open spec fn tally_answer(spec_id: Seq<char>, d: DocViewModel, total: nat, t: Answer<Tally>) -> ToolAnswer {
    match t {
        Err(e) => Err(domain(e)),
        Ok(x) => Ok(progress_json(spec_id, d, total, x)),
    }
}

pub open spec fn counted<R: MemoryRepository>(
    repo: R,
    spec_id: Seq<char>,
    d: DocViewModel,
    tasks: Seq<HitModel>,
    r: ToolAnswer,
) -> bool {
    exists|us: Seq<Answer<bool>>| #[trigger]
        inquired(repo, tasks, us) && r == tally_answer(
            spec_id,
            d,
            tasks.len(),
            tallied(tasks, us, us.len() as int),
        )
}

pub open spec fn counted_links<R: MemoryRepository>(
    repo: R,
    spec_id: Seq<char>,
    d: DocViewModel,
    l: Answer<Seq<BacklinkModel>>,
    r: ToolAnswer,
) -> bool {
    match l {
        Err(e) => r == ToolAnswer::Err(domain(e)),
        Ok(links) => counted(repo, spec_id, d, tasks_in(links, links.len() as int), r),
    }
}

pub open spec fn surveyed<R: MemoryRepository>(
    repo: R,
    spec_id: Seq<char>,
    d: DocViewModel,
    r: ToolAnswer,
) -> bool {
    exists|l: Answer<Seq<BacklinkModel>>| #[trigger]
        repo.backlinks_rel(spec_id, l) && counted_links(repo, spec_id, d, l, r)
}

pub open spec fn status_with<R: MemoryRepository>(
    repo: R,
    spec_id: Seq<char>,
    a: Answer<Option<DocViewModel>>,
    r: ToolAnswer,
) -> bool {
    match a {
        Err(e) => r == ToolAnswer::Err(domain(e)),
        Ok(None) => r == ToolAnswer::Err(domain(StoreErrorModel::NotFound(spec_id))),
        Ok(Some(d)) => surveyed(repo, spec_id, d, r),
    }
}

pub open spec fn status_for<R: MemoryRepository>(repo: R, spec_id: Seq<char>, r: ToolAnswer) -> bool {
    exists|a: Answer<Option<DocViewModel>>| #[trigger]
        repo.get_rel(spec_id, a) && status_with(repo, spec_id, a, r)
}

pub open spec fn spec_status_tool<R: MemoryRepository>(
    repo: R,
    args: JsonModel,
    r: ToolAnswer,
) -> bool {
    match need_id(args, "spec_id"@) {
        Err(e) => r == ToolAnswer::Err(e),
        Ok(spec_id) => status_for(repo, spec_id, r),
    }
}

fn pick_tasks(l: Vec<Backlink>) -> (r: Vec<SearchHit>)
    ensures
        views(r@) == tasks_in(views(l@), l@.len() as int),
{
    let ghost all = views(l@);
    let mut out: Vec<SearchHit> = Vec::new();
    assert(views(out@) =~= Seq::empty());
    let mut i: usize = 0;
    while i < l.len()
        invariant
            i <= l.len(),
            all == views(l@),
            views(out@) == tasks_in(all, i as int),
        decreases l.len() - i,
    {
        assert(all[i as int] == l@[i as int]@);
        let implements = match &l[i].rel {
            Some(rel) => str_eq(rel.as_str(), "implements"),
            None => false,
        };
        if implements && str_eq(l[i].source.doc_type.as_str(), "task") {
            let src = &l[i].source;
            let hit = SearchHit {
                concept_id: src.concept_id.clone(),
                content_id: src.content_id,
                doc_type: src.doc_type.clone(),
                title: crate::text::clone_opt(&src.title),
                tags: crate::text::clone_strings(&src.tags),
            };
            proof {
                lemma_views_push(out@, hit);
            }
            out.push(hit);
        }
        i += 1;
    }
    out
}

fn status_known(tasks: &Vec<SearchHit>, id: &ConceptId) -> (r: Option<String>)
    ensures
        opt_view(r) == known_status(views(tasks@), id@, tasks@.len() as int),
{
    let ghost all = views(tasks@);
    let mut n: usize = tasks.len();
    while n > 0
        invariant
            n <= tasks.len(),
            all == views(tasks@),
            known_status(all, id@, tasks@.len() as int) == known_status(all, id@, n as int),
        decreases n,
    {
        assert(all[n - 1] == tasks@[n - 1]@);
        if tasks[n - 1].concept_id.same(id) {
            return Some(status_tag(&tasks[n - 1].tags));
        }
        n -= 1;
    }
    None
}

fn has_unmet<R: MemoryRepository>(repo: &R, tasks: &Vec<SearchHit>, links: &Vec<Link>) -> (r: Result<
    bool,
    StoreError,
>)
    ensures
        unmet(*repo, views(tasks@), views(links@), 0, crate::repo::plain_answer(r)),
{
    let ghost ts = views(tasks@);
    let ghost ls = views(links@);
    let mut i: usize = 0;
    while i < links.len()
        invariant
            i <= links.len(),
            ts == views(tasks@),
            ls == views(links@),
            forall|u: Answer<bool>| #[trigger]
                unmet(*repo, ts, ls, i as int, u) ==> unmet(*repo, ts, ls, 0, u),
        decreases links.len() - i,
    {
        assert(ls[i as int] == links@[i as int]@);
        let depends = match &links[i].rel {
            Some(rel) => str_eq(rel.as_str(), "depends_on"),
            None => false,
        };
        if depends {
            match status_known(tasks, &links[i].target) {
                Some(st) => {
                    if !str_eq(st.as_str(), "done") {
                        assert(unmet(*repo, ts, ls, i as int, Ok(true)));
                        return Ok(true);
                    }
                },
                None => {
                    let got = repo.get(&links[i].target);
                    let ghost a = crate::repo::opt_answer(got);
                    assert(repo.get_rel(ls[i as int].target, a));
                    match got {
                        Err(e) => {
                            assert(unmet(*repo, ts, ls, i as int, Err(e@)));
                            return Err(e);
                        },
                        Ok(d) => {
                            let finished = match &d {
                                Some(x) => {
                                    let st = status_tag(&x.tags);
                                    str_eq(st.as_str(), "done")
                                },
                                None => false,
                            };
                            assert(finished == is_done(opt_view(d)));
                            if !finished {
                                assert(unmet(*repo, ts, ls, i as int, Ok(true)));
                                return Ok(true);
                            }
                            assert forall|u: Answer<bool>| #[trigger]
                                unmet(*repo, ts, ls, i + 1, u) implies unmet(
                                *repo,
                                ts,
                                ls,
                                i as int,
                                u,
                            ) by {
                                assert(repo.get_rel(ls[i as int].target, a));
                            }
                        },
                    }
                },
            }
        }
        assert forall|u: Answer<bool>| #[trigger] unmet(*repo, ts, ls, i + 1, u) implies unmet(
            *repo,
            ts,
            ls,
            0,
            u,
        ) by {
            assert(unmet(*repo, ts, ls, i as int, u));
        }
        i += 1;
    }
    assert(unmet(*repo, ts, ls, i as int, Ok(false)));
    Ok(false)
}

fn is_waiting<R: MemoryRepository>(repo: &R, tasks: &Vec<SearchHit>, id: &ConceptId) -> (r: Result<
    bool,
    StoreError,
>)
    ensures
        waits(*repo, views(tasks@), id@, crate::repo::plain_answer(r)),
{
    let got = repo.get(id);
    let ghost a = crate::repo::opt_answer(got);
    assert(repo.get_rel(id@, a));
    let r = match got {
        Err(e) => Err(e),
        Ok(None) => Ok(false),
        Ok(Some(d)) => has_unmet(repo, tasks, &d.links),
    };
    assert(waits_with(*repo, views(tasks@), a, crate::repo::plain_answer(r)));
    r
}

/// Counters of tasks.
struct Counts {
    pending: usize,
    in_progress: usize,
    done: usize,
    blocked: usize,
    unknown: usize,
    waiting: usize,
    next: Vec<ConceptId>,
}

impl View for Counts {
    type V = Tally;

    closed spec fn view(&self) -> Tally {
        Tally {
            pending: self.pending as nat,
            in_progress: self.in_progress as nat,
            done: self.done as nat,
            blocked: self.blocked as nat,
            unknown: self.unknown as nat,
            waiting: self.waiting as nat,
            next: views(self.next@),
        }
    }
}

proof fn lemma_tallied_prefix(
    tasks: Seq<HitModel>,
    us: Seq<Answer<bool>>,
    more: Seq<Answer<bool>>,
    n: int,
)
    requires
        0 <= n <= us.len() <= more.len(),
        forall|i: int| 0 <= i < us.len() ==> us[i] == more[i],
    ensures
        tallied(tasks, us, n) == tallied(tasks, more, n),
    decreases n,
{
    if n > 0 {
        lemma_tallied_prefix(tasks, us, more, n - 1);
    }
}

/// The view of a tally.
spec fn tally_result(r: Result<Counts, StoreError>) -> Answer<Tally> {
    match r {
        Ok(c) => Ok(c@),
        Err(e) => Err(e@),
    }
}

fn tally<R: MemoryRepository>(repo: &R, tasks: &Vec<SearchHit>) -> (r: (
    Result<Counts, StoreError>,
    Ghost<Seq<Answer<bool>>>,
))
    ensures
        inquired(*repo, views(tasks@), r.1@),
        tally_result(r.0) == tallied(views(tasks@), r.1@, r.1@.len() as int),
        r.0 is Ok ==> r.1@.len() == tasks@.len(),
{
    let ghost ts = views(tasks@);
    let ghost mut us: Seq<Answer<bool>> = Seq::empty();
    let mut c = Counts {
        pending: 0,
        in_progress: 0,
        done: 0,
        blocked: 0,
        unknown: 0,
        waiting: 0,
        next: Vec::new(),
    };
    assert(c@.next =~= Seq::empty());
    let mut i: usize = 0;
    while i < tasks.len()
        invariant
            i <= tasks.len(),
            ts == views(tasks@),
            us.len() == i,
            forall|k: int|
                0 <= k < i && status_of(ts[k].tags) == "pending"@ ==> waits(
                    *repo,
                    ts,
                    ts[k].concept_id,
                    #[trigger] us[k],
                ),
            tallied(ts, us, i as int) == Ok::<_, StoreErrorModel>(c@),
        decreases tasks.len() - i,
    {
        assert(ts[i as int] == tasks@[i as int]@);
        proof {
            law_every_task_counts_once(ts, us, i as int);
        }
        let ghost us0 = us;
        let st = status_tag(&tasks[i].tags);
        if str_eq(st.as_str(), "pending") {
            let waiting = is_waiting(repo, tasks, &tasks[i].concept_id);
            proof {
                us = us.push(crate::repo::plain_answer(waiting));
                lemma_tallied_prefix(ts, us0, us, i as int);
            }
            match waiting {
                Err(e) => {
                    return (Err(e), Ghost(us));
                },
                Ok(true) => {
                    c.pending = c.pending + 1;
                    c.waiting = c.waiting + 1;
                },
                Ok(false) => {
                    c.pending = c.pending + 1;
                    let id = tasks[i].concept_id.clone();
                    proof {
                        lemma_views_push(c.next@, id);
                    }
                    c.next.push(id);
                },
            }
        } else {
            proof {
                us = us.push(Ok(false));
                lemma_tallied_prefix(ts, us0, us, i as int);
            }
            if str_eq(st.as_str(), "in_progress") {
                c.in_progress = c.in_progress + 1;
            } else if str_eq(st.as_str(), "done") {
                c.done = c.done + 1;
            } else if str_eq(st.as_str(), "blocked") {
                c.blocked = c.blocked + 1;
            } else {
                c.unknown = c.unknown + 1;
            }
        }
        i += 1;
    }
    (Ok(c), Ghost(us))
}

fn progress_value(spec_id: &ConceptId, d: &DocumentView, total: usize, c: &Counts) -> (r: Value)
    requires
        c@.done <= total,
    ensures
        r@ == progress_json(spec_id@, d@, total as nat, c@),
{
    let mut by = Fields::new();
    by.set("pending", n(c.pending as u64));
    by.set("in_progress", n(c.in_progress as u64));
    by.set("done", n(c.done as u64));
    by.set("blocked", n(c.blocked as u64));
    by.set("unknown", n(c.unknown as u64));
    let status = status_tag(&d.tags);
    let mut o = Fields::new();
    o.set("spec_id", s(spec_id.as_str()));
    o.set("spec_status", s(status.as_str()));
    o.set("spec_title", opt_s(&d.title));
    o.set("tasks_total", n(total as u64));
    o.set("by_status", by.done());
    o.set("progress", Value::Number(Number::from_ratio(c.done, total)));
    o.set("next_pending", crate::replies::all_values(&c.next));
    o.set("waiting_on_dependencies", n(c.waiting as u64));
    o.done()
}

fn survey_spec<R: MemoryRepository>(repo: &R, spec_id: &ConceptId, d: &DocumentView) -> (r: Result<
    Value,
    ToolError,
>)
    ensures
        surveyed(*repo, spec_id@, d@, res_view(r)),
{
    let found = repo.backlinks(spec_id);
    let ghost l = crate::repo::list_answer(found);
    assert(repo.backlinks_rel(spec_id@, l));
    let links = match found {
        Err(e) => {
            return Err(domain_error(e));
        },
        Ok(x) => x,
    };
    let ghost all = views(links@);
    let tasks = pick_tasks(links);
    let ghost ts = views(tasks@);
    assert(ts == tasks_in(all, all.len() as int));
    let (counts, Ghost(us)) = tally(repo, &tasks);
    assert(inquired(*repo, ts, us));
    let r = match counts {
        Err(e) => Err(domain_error(e)),
        Ok(c) => {
            proof {
                law_every_task_counts_once(ts, us, ts.len() as int);
            }
            Ok(progress_value(spec_id, d, tasks.len(), &c))
        },
    };
    assert(counted(*repo, spec_id@, d@, ts, res_view(r)));
    assert(counted_links(*repo, spec_id@, d@, l, res_view(r)));
    r
}

pub fn spec_status<R: MemoryRepository>(repo: &R, args: &Value) -> (r: Result<Value, ToolError>)
    ensures
        spec_status_tool(*repo, args@, res_view(r)),
{
    let spec_id = match require_id(args, "spec_id") {
        Ok(x) => x,
        Err(e) => {
            return Err(e);
        },
    };
    let got = repo.get(&spec_id);
    let ghost a = crate::repo::opt_answer(got);
    assert(repo.get_rel(spec_id@, a));
    let r = match got {
        Err(e) => Err(domain_error(e)),
        Ok(None) => Err(not_found(&spec_id)),
        Ok(Some(d)) => survey_spec(repo, &spec_id, &d),
    };
    assert(status_with(*repo, spec_id@, a, res_view(r)));
    assert(status_for(*repo, spec_id@, res_view(r)));
    r
}

} // verus!

//! What the documents say that tools draft from their arguments.

use vstd::prelude::*;
use crate::batch_laws::{leads, lemma_each, lemma_request, stores};
use crate::consolidate::{
    collapsed, decision_line, decision_lines, digest_text, entity_line, entity_lines, scalar_safe,
    DigestDecisionModel, EntityModel,
};
use crate::json::{number, JsonModel};
use crate::mcp::ToolAnswer;
use crate::member_laws::group_members;
use crate::memory::{each, store_ok, InMemoryStore, StoreModel};
use crate::model::{Budget, PrincipalModel};
use crate::names::{clean_title, slug};
use crate::patching_laws::{lemma_texts_arg, lists_text};
use crate::repo::{Answer, MemoryRepository};
use crate::search_laws::occurs;
use crate::store::{BulkItemModel, BulkModel, DocViewModel, OutcomeModel, RequestModel};
use crate::text::{dec, trim};
use crate::workflow::{
    dependencies_to, dependency_lines, drafts_to, made_ids, propose_tool, task_arg, task_request,
    task_requests, tasks_tool, titled, TaskModel,
};
use crate::writing::{consolidate_tool, decisions_to, entities_to};
use crate::writing_laws::{lemma_wrote, named_hash, says_written, wrote};

verus! {

proof fn lemma_occurs_in(a: Seq<char>, t: Seq<char>, c: Seq<char>)
    ensures
        occurs(t, a + t + c),
{
    let s = a + t + c;
    let i = a.len() as int;
    assert(s.subrange(i, i + t.len()) =~= t);
}

proof fn lemma_occurs_within(t: Seq<char>, s: Seq<char>, a: Seq<char>, c: Seq<char>)
    requires
        occurs(t, s),
    ensures
        occurs(t, a + s + c),
{
    let i = choose|i: int| 0 <= i <= s.len() - t.len() && #[trigger] s.subrange(i, i + t.len()) == t;
    let u = a + s + c;
    let j = a.len() + i;
    assert(u.subrange(j, j + t.len()) =~= s.subrange(i, i + t.len()));
}

// ---------------------------------------------------------------------
// Specs
// ---------------------------------------------------------------------

/// `spec_propose` writes, under the id it is given, a new document of type
/// `spec`, proposed, with its title, then its requirements, then its design.
pub proof fn law_proposals_say_what_they_are_given(
    pre: InMemoryStore,
    actor: PrincipalModel,
    b: Budget,
    args: JsonModel,
    post: InMemoryStore,
    r: ToolAnswer,
    id: Seq<char>,
    title: Seq<char>,
    requirements: Seq<char>,
    design: Seq<char>,
)
    requires
        store_ok(pre@),
        propose_tool(pre, actor, b, args, post, r),
        r is Ok,
        args.member("concept_id"@) == Some(JsonModel::String(id)),
        args.member("title"@) == Some(JsonModel::String(title)),
        args.member("requirements"@) == Some(JsonModel::String(requirements)),
        args.member("design"@) == Some(JsonModel::String(design)),
    ensures
        wrote(
            pre@,
            post@,
            id,
            None,
            "---\ntype: spec\ntitle: "@ + clean_title(title)
                + "\ntags:\n  - spec\n  - status-proposed\n---\n\n## Requisitos\n\n"@ + trim(
                requirements,
            ) + "\n\n## Diseño\n\n"@ + trim(design) + "\n"@,
            match args.member("reason"@) {
                Some(JsonModel::String(t)) => t,
                _ => "spec_propose"@,
            },
            actor,
        ),
        r->Ok_0.member("concept_id"@) == Some(JsonModel::String(id)),
{
    broadcast use group_members;

    reveal_strlit("concept_id");
    reveal_strlit("hash");
    reveal_strlit("version");
    reveal_strlit("created");
    reveal_strlit("warnings");
    let req = crate::workflow::propose_args(args)->Ok_0;
    let a = choose|a: Answer<OutcomeModel>| #[trigger]
        <InMemoryStore as MemoryRepository>::commit_rel(pre, req, actor, b, post, a) && r
            == crate::workflow::propose_answer(req.concept_id, a);
    lemma_wrote(pre@, req, actor, b);
}

// ---------------------------------------------------------------------
// Tasks
// ---------------------------------------------------------------------

/// The title that an object of `tasks` has.
pub open spec fn title_of(v: JsonModel) -> Seq<char> {
    v.member("title"@)->0->String_0
}

/// The id of task `k`: under the spec, its number from one, then its title.
pub open spec fn id_of_task(spec_id: Seq<char>, l: Seq<JsonModel>, k: int) -> Seq<char> {
    spec_id + "/tasks/"@ + (if k + 1 < 10 {
        "0"@ + dec((k + 1) as nat)
    } else {
        dec((k + 1) as nat)
    }) + "-"@ + slug(title_of(l[k]))
}

/// What a text in `depends_on` stands for: the first task of that title, else
/// the document of that id.
pub open spec fn stands_for(
    spec_id: Seq<char>,
    l: Seq<JsonModel>,
    t: Seq<char>,
    id: Seq<char>,
) -> bool {
    ||| exists|m: int|
        0 <= m < l.len() && title_of(#[trigger] l[m]) == t && id == id_of_task(spec_id, l, m)
            && forall|j: int| 0 <= j < m ==> title_of(#[trigger] l[j]) != t
    ||| id == t && forall|j: int| 0 <= j < l.len() ==> title_of(#[trigger] l[j]) != t
}

/// The text has a link by `depends_on` for a text of that list.
pub open spec fn depends_so(
    spec_id: Seq<char>,
    l: Seq<JsonModel>,
    t: Seq<char>,
    links: Seq<char>,
) -> bool {
    exists|id: Seq<char>| #[trigger]
        stands_for(spec_id, l, t, id) && occurs(
            "\nDepende de [[depends_on:"@ + id + "]].\n"@,
            links,
        )
}

/// The document of task `k`: of type `task`, pending, with its title, a link by
/// `implements` to the spec, a link for each dependency, and its description.
pub open spec fn is_task_text(
    spec_id: Seq<char>,
    l: Seq<JsonModel>,
    k: int,
    text: Seq<char>,
    links: Seq<char>,
) -> bool {
    &&& text == "---\ntype: task\ntitle: "@ + clean_title(title_of(l[k]))
        + "\ntags:\n  - task\n  - status-pending\n---\n\nParte de [[implements:"@ + spec_id
        + "]].\n"@ + links + "\n"@ + trim(
        match l[k].member("description"@) {
            Some(JsonModel::String(t)) => t,
            _ => Seq::empty(),
        },
    ) + "\n"@
    &&& forall|t: Seq<char>| #[trigger]
        lists_text(l[k], "depends_on"@, t) ==> depends_so(spec_id, l, t, links)
    &&& (forall|t: Seq<char>| !#[trigger] lists_text(l[k], "depends_on"@, t)) ==> links.len() == 0
}

/// A step by one object of `tasks`: its document is written, and the reply
/// lists its id; or nothing changes.
pub open spec fn drafts_so(
    s: StoreModel,
    t: StoreModel,
    actor: PrincipalModel,
    spec_id: Seq<char>,
    l: Seq<JsonModel>,
    k: int,
    reply: JsonModel,
) -> bool {
    ||| t == s
    ||| {
        &&& reply.member("task_ids"@) is Some
        &&& reply.member("task_ids"@)->0 is Array
        &&& reply.member("task_ids"@)->0->Array_0.contains(
            JsonModel::String(id_of_task(spec_id, l, k)),
        )
        &&& exists|text: Seq<char>, links: Seq<char>| #[trigger]
            is_task_text(spec_id, l, k, text, links) && wrote(
                s,
                t,
                id_of_task(spec_id, l, k),
                None,
                text,
                "spec_tasks desde "@ + spec_id,
                actor,
            )
    }
}

proof fn lemma_drafts_to(l: Seq<JsonModel>, spec_id: Seq<char>, n: int)
    requires
        0 <= n <= l.len(),
        drafts_to(l, spec_id, n) is Ok,
    ensures
        drafts_to(l, spec_id, n)->Ok_0.len() == n,
        forall|k: int|
            0 <= k < n ==> task_arg(#[trigger] l[k], spec_id, k) == Ok::<
                _,
                crate::mcp::ToolErrorModel,
            >(drafts_to(l, spec_id, n)->Ok_0[k]),
    decreases n,
{
    if n > 0 {
        lemma_drafts_to(l, spec_id, n - 1);
    }
}

proof fn lemma_task_requests(spec_id: Seq<char>, tasks: Seq<TaskModel>, n: int)
    requires
        0 <= n <= tasks.len(),
        task_requests(spec_id, tasks, n) is Ok,
    ensures
        task_requests(spec_id, tasks, n)->Ok_0.len() == n,
        forall|k: int|
            0 <= k < n ==> task_request(spec_id, tasks, #[trigger] tasks[k]) == Ok::<
                _,
                crate::mcp::ToolErrorModel,
            >(task_requests(spec_id, tasks, n)->Ok_0[k]),
    decreases n,
{
    if n > 0 {
        lemma_task_requests(spec_id, tasks, n - 1);
    }
}

proof fn lemma_titled(tasks: Seq<TaskModel>, t: Seq<char>, i: int)
    requires
        0 <= i,
        forall|j: int| 0 <= j < i && j < tasks.len() ==> (#[trigger] tasks[j]).title != t,
    ensures
        match titled(tasks, t, i) {
            Some(id) => exists|m: int|
                0 <= m < tasks.len() && (#[trigger] tasks[m]).title == t && tasks[m].concept_id == id
                    && forall|j: int| 0 <= j < m ==> (#[trigger] tasks[j]).title != t,
            None => forall|j: int| 0 <= j < tasks.len() ==> (#[trigger] tasks[j]).title != t,
        },
    decreases tasks.len() - i,
{
    if i < tasks.len() {
        if tasks[i].title == t {
            assert(tasks[i].title == t);
        } else {
            lemma_titled(tasks, t, i + 1);
        }
    }
}

proof fn lemma_dependency_line(ids: Seq<Seq<char>>, n: int, j: int)
    requires
        0 <= j < n <= ids.len(),
    ensures
        occurs("\nDepende de [[depends_on:"@ + ids[j] + "]].\n"@, dependency_lines(ids, n)),
    decreases n,
{
    let none = Seq::<char>::empty();
    let rest = dependency_lines(ids, n - 1);
    let line = "\nDepende de [[depends_on:"@ + ids[n - 1] + "]].\n"@;
    if j == n - 1 {
        assert(rest + line =~= rest + line + none);
        lemma_occurs_in(rest, line, none);
    } else {
        lemma_dependency_line(ids, n - 1, j);
        assert(rest + line =~= none + rest + line);
        lemma_occurs_within(
            "\nDepende de [[depends_on:"@ + ids[j] + "]].\n"@,
            rest,
            none,
            line,
        );
    }
}

proof fn lemma_dependencies_to(tasks: Seq<TaskModel>, t: TaskModel, n: int)
    requires
        0 <= n <= t.depends_on.len(),
        dependencies_to(tasks, t, n) is Ok,
    ensures
        dependencies_to(tasks, t, n)->Ok_0.len() == n,
        forall|j: int|
            0 <= j < n ==> crate::workflow::dependency(tasks, t.title, #[trigger] t.depends_on[j])
                == Ok::<_, crate::mcp::ToolErrorModel>(dependencies_to(tasks, t, n)->Ok_0[j]),
    decreases n,
{
    if n > 0 {
        lemma_dependencies_to(tasks, t, n - 1);
    }
}

/// The request that stands for task `k`.
proof fn lemma_task_text(
    l: Seq<JsonModel>,
    spec_id: Seq<char>,
    tasks: Seq<TaskModel>,
    k: int,
) -> (links: Seq<char>)
    requires
        drafts_to(l, spec_id, l.len() as int) == Ok::<_, crate::mcp::ToolErrorModel>(tasks),
        0 <= k < l.len(),
        task_request(spec_id, tasks, tasks[k]) is Ok,
    ensures
        ({
            let q = task_request(spec_id, tasks, tasks[k])->Ok_0;
            &&& q.concept_id == id_of_task(spec_id, l, k)
            &&& q.expected is None
            &&& q.reason == "spec_tasks desde "@ + spec_id
            &&& is_task_text(spec_id, l, k, q.markdown, links)
        }),
{
    let n = l.len() as int;
    lemma_drafts_to(l, spec_id, n);
    let t = tasks[k];
    assert(task_arg(l[k], spec_id, k) == Ok::<_, crate::mcp::ToolErrorModel>(t));
    let m = t.depends_on.len() as int;
    let deps = dependencies_to(tasks, t, m)->Ok_0;
    lemma_dependencies_to(tasks, t, m);
    let links = dependency_lines(deps, deps.len() as int);
    let q = task_request(spec_id, tasks, t)->Ok_0;
    assert("\ntags:\n  - task\n  - status-pending\n---\n\n"@ + "Parte de [[implements:"@
        =~= "\ntags:\n  - task\n  - status-pending\n---\n\nParte de [[implements:"@) by {
        reveal_strlit("\ntags:\n  - task\n  - status-pending\n---\n\n");
        reveal_strlit("Parte de [[implements:");
        reveal_strlit("\ntags:\n  - task\n  - status-pending\n---\n\nParte de [[implements:");
    }
    let description = match l[k].member("description"@) {
        Some(JsonModel::String(t)) => t,
        _ => Seq::empty(),
    };
    assert(t.description == description);
    assert(q.markdown =~= "---\ntype: task\ntitle: "@ + clean_title(title_of(l[k]))
        + "\ntags:\n  - task\n  - status-pending\n---\n\nParte de [[implements:"@ + spec_id
        + "]].\n"@ + links + "\n"@ + trim(description) + "\n"@);
    assert forall|x: Seq<char>| #[trigger] lists_text(
        l[k],
        "depends_on"@,
        x,
    ) implies depends_so(spec_id, l, x, links) by {
        lemma_texts_arg(l[k], "depends_on"@, x);
        let j = choose|j: int| 0 <= j < t.depends_on.len() && t.depends_on[j] == x;
        lemma_dependency_line(deps, m, j);
        lemma_titled(tasks, x, 0);
        assert(crate::workflow::dependency(tasks, t.title, t.depends_on[j]) == Ok::<
            _,
            crate::mcp::ToolErrorModel,
        >(deps[j]));
        match titled(tasks, x, 0) {
            Some(id) => {
                let i = choose|i: int|
                    0 <= i < tasks.len() && (#[trigger] tasks[i]).title == x && tasks[i].concept_id
                        == id && forall|j: int| 0 <= j < i ==> (#[trigger] tasks[j]).title != x;
                assert(task_arg(l[i], spec_id, i) == Ok::<_, crate::mcp::ToolErrorModel>(
                    tasks[i],
                ));
                assert(title_of(l[i]) == x);
                assert forall|j: int| 0 <= j < i implies title_of(#[trigger] l[j]) != x by {
                    assert(task_arg(l[j], spec_id, j) == Ok::<_, crate::mcp::ToolErrorModel>(
                        tasks[j],
                    ));
                    assert(tasks[j].title != x);
                }
                assert(stands_for(spec_id, l, x, deps[j]));
            },
            None => {
                assert forall|j: int| 0 <= j < l.len() implies title_of(#[trigger] l[j]) != x by {
                    assert(task_arg(l[j], spec_id, j) == Ok::<_, crate::mcp::ToolErrorModel>(
                        tasks[j],
                    ));
                    assert(tasks[j].title != x);
                }
                assert(stands_for(spec_id, l, x, deps[j]));
            },
        }
    }
    if forall|x: Seq<char>| !#[trigger] lists_text(l[k], "depends_on"@, x) {
        if t.depends_on.len() > 0 {
            assert(t.depends_on.contains(t.depends_on[0]));
            lemma_texts_arg(l[k], "depends_on"@, t.depends_on[0]);
        }
    }
    links
}

proof fn lemma_made_ids(reqs: Seq<RequestModel>, items: Seq<BulkItemModel>, n: int, k: int)
    requires
        0 <= k < n,
        items[k] is Done,
    ensures
        made_ids(reqs, items, n).contains(JsonModel::String(reqs[k].concept_id)),
    decreases n,
{
    let x = JsonModel::String(reqs[k].concept_id);
    if k < n - 1 {
        lemma_made_ids(reqs, items, n - 1, k);
        if items[n - 1] is Done {
            crate::reason::lemma_push_contains(
                made_ids(reqs, items, n - 1),
                JsonModel::String(reqs[n - 1].concept_id),
                x,
            );
        }
    } else {
        crate::reason::lemma_push_contains(made_ids(reqs, items, n - 1), x, x);
    }
}

proof fn lemma_tasks_members(spec_id: Seq<char>, reqs: Seq<RequestModel>, items: Seq<BulkItemModel>)
    requires
        reqs.len() == items.len(),
    ensures
        ({
            let v = crate::workflow::tasks_json(spec_id, reqs, items);
            let ids = made_ids(reqs, items, reqs.len() as int);
            &&& v.member("spec_id"@) == Some(JsonModel::String(spec_id))
            &&& v.member("task_ids"@) == Some(JsonModel::Array(ids))
            &&& v.member("created"@) == Some(number(ids.len()))
        }),
{
    broadcast use group_members;

    reveal_strlit("spec_id");
    reveal_strlit("created");
    reveal_strlit("task_ids");
    reveal_strlit("skipped");
    reveal_strlit("warnings");
    assert("spec_id"@[0] != "created"@[0] && "created"@[0] != "skipped"@[0]);
    assert("spec_id"@[1] != "skipped"@[1]);
    assert("task_ids"@[0] != "warnings"@[0]);
}

/// `spec_tasks` writes a document for each object of `tasks`, in order, each on
/// what those before it left. One that cannot be written leaves nothing.
pub proof fn law_tasks_say_what_they_are_given(
    pre: InMemoryStore,
    actor: PrincipalModel,
    b: Budget,
    args: JsonModel,
    post: InMemoryStore,
    r: ToolAnswer,
    spec_id: Seq<char>,
    l: Seq<JsonModel>,
)
    requires
        store_ok(pre@),
        tasks_tool(pre, actor, b, args, post, r),
        r is Ok,
        args.member("spec_id"@) == Some(JsonModel::String(spec_id)),
        args.member("tasks"@) == Some(JsonModel::Array(l)),
    ensures
        r->Ok_0.member("spec_id"@) == Some(JsonModel::String(spec_id)),
        r->Ok_0.member("created"@) == Some(
            number(r->Ok_0.member("task_ids"@)->0->Array_0.len()),
        ),
        exists|between: Seq<StoreModel>| #[trigger]
            leads(between, pre@, post@, l.len()) && forall|k: int|
                0 <= k < l.len() ==> drafts_so(
                    #[trigger] between[k],
                    between[k + 1],
                    actor,
                    spec_id,
                    l,
                    k,
                    r->Ok_0,
                ),
{
    let s = pre@;
    let n = l.len() as int;
    let g = choose|g: Answer<Option<DocViewModel>>| #[trigger]
        pre.get_rel(spec_id, g) && crate::workflow::tasked(
            pre,
            actor,
            b,
            args,
            spec_id,
            g,
            post,
            r,
        );
    let tasks = drafts_to(l, spec_id, n)->Ok_0;
    lemma_drafts_to(l, spec_id, n);
    let reqs = task_requests(spec_id, tasks, n)->Ok_0;
    lemma_task_requests(spec_id, tasks, n);
    let a = choose|a: Answer<BulkModel>| #[trigger]
        <InMemoryStore as MemoryRepository>::bulk_rel(pre, reqs, false, actor, b, post, a) && r
            == crate::workflow::tasks_answer(spec_id, reqs, a);
    let items = a->Ok_0.items;
    lemma_each(s, reqs, n, actor, b);
    lemma_tasks_members(spec_id, reqs, items);
    let between = stores(s, reqs, actor, b);
    assert(leads(between, s, post@, l.len()));
    assert forall|k: int| 0 <= k < n implies drafts_so(
        #[trigger] between[k],
        between[k + 1],
        actor,
        spec_id,
        l,
        k,
        r->Ok_0,
    ) by {
        lemma_request(s, reqs, k, actor, b);
        assert(task_request(spec_id, tasks, tasks[k]) == Ok::<_, crate::mcp::ToolErrorModel>(
            reqs[k],
        ));
        let links = lemma_task_text(l, spec_id, tasks, k);
        if between[k + 1] != between[k] {
            assert(items[k] is Done);
            lemma_made_ids(reqs, items, n, k);
            assert(is_task_text(spec_id, l, k, reqs[k].markdown, links));
        }
    }
}

// ---------------------------------------------------------------------
// Digests
// ---------------------------------------------------------------------

/// The line of an object of `decisions`.
pub open spec fn line_of_decision(v: JsonModel) -> Seq<char> {
    let text = collapsed(v.member("text"@)->0->String_0);
    match v.member("concept_id"@) {
        Some(JsonModel::String(id)) => "- "@ + text + " → [["@ + id + "]]\n"@,
        _ => "- "@ + text + "\n"@,
    }
}

/// The line of an object of `entities`.
pub open spec fn line_of_entity(v: JsonModel) -> Seq<char> {
    let id = v.member("concept_id"@)->0->String_0;
    match v.member("relation"@) {
        Some(JsonModel::String(t)) => "- [["@ + id + "]] ("@ + collapsed(t) + ")\n"@,
        _ => "- [["@ + id + "]]\n"@,
    }
}

/// The document of a digest: its title, its summary, and a line for each
/// decision and for each entity.
pub open spec fn is_digest(args: JsonModel, text: Seq<char>) -> bool {
    &&& exists|rest: Seq<char>|
        text == #[trigger] ("---\ntype: session-summary\ntitle: "@ + scalar_safe(
            args.member("title"@)->0->String_0,
        ) + "\ntags:\n  - consolidation\n---\n"@ + trim(args.member("summary"@)->0->String_0)
            + "\n"@ + rest)
    &&& args.member("decisions"@) matches Some(JsonModel::Array(l)) ==> forall|i: int|
        0 <= i < l.len() ==> occurs(line_of_decision(#[trigger] l[i]), text)
    &&& args.member("entities"@) matches Some(JsonModel::Array(l)) ==> forall|i: int|
        0 <= i < l.len() ==> occurs(line_of_entity(#[trigger] l[i]), text)
}

proof fn lemma_decisions_to(l: Seq<JsonModel>, n: int)
    requires
        0 <= n <= l.len(),
        decisions_to(l, n) is Ok,
    ensures
        decisions_to(l, n)->Ok_0.len() == n,
        forall|i: int|
            0 <= i < n ==> decision_line(#[trigger] decisions_to(l, n)->Ok_0[i])
                == line_of_decision(l[i]),
    decreases n,
{
    if n > 0 {
        lemma_decisions_to(l, n - 1);
        let before = decisions_to(l, n - 1)->Ok_0;
        let all = decisions_to(l, n)->Ok_0;
        assert forall|i: int| 0 <= i < n implies decision_line(#[trigger] all[i])
            == line_of_decision(l[i]) by {
            if i < n - 1 {
                assert(all[i] == before[i]);
            }
        }
    }
}

proof fn lemma_entities_to(l: Seq<JsonModel>, n: int)
    requires
        0 <= n <= l.len(),
        entities_to(l, n) is Ok,
    ensures
        entities_to(l, n)->Ok_0.len() == n,
        forall|i: int|
            0 <= i < n ==> entity_line(#[trigger] entities_to(l, n)->Ok_0[i]) == line_of_entity(
                l[i],
            ),
    decreases n,
{
    if n > 0 {
        lemma_entities_to(l, n - 1);
        let before = entities_to(l, n - 1)->Ok_0;
        let all = entities_to(l, n)->Ok_0;
        assert forall|i: int| 0 <= i < n implies entity_line(#[trigger] all[i]) == line_of_entity(
            l[i],
        ) by {
            if i < n - 1 {
                assert(all[i] == before[i]);
            }
        }
    }
}

proof fn lemma_decision_there(d: Seq<DigestDecisionModel>, n: int, i: int)
    requires
        0 <= i < n <= d.len(),
    ensures
        occurs(decision_line(d[i]), decision_lines(d, n)),
    decreases n,
{
    let none = Seq::<char>::empty();
    let rest = decision_lines(d, n - 1);
    let line = decision_line(d[n - 1]);
    if i == n - 1 {
        assert(rest + line =~= rest + line + none);
        lemma_occurs_in(rest, line, none);
    } else {
        lemma_decision_there(d, n - 1, i);
        assert(rest + line =~= none + rest + line);
        lemma_occurs_within(decision_line(d[i]), rest, none, line);
    }
}

proof fn lemma_entity_there(d: Seq<EntityModel>, n: int, i: int)
    requires
        0 <= i < n <= d.len(),
    ensures
        occurs(entity_line(d[i]), entity_lines(d, n)),
    decreases n,
{
    let none = Seq::<char>::empty();
    let rest = entity_lines(d, n - 1);
    let line = entity_line(d[n - 1]);
    if i == n - 1 {
        assert(rest + line =~= rest + line + none);
        lemma_occurs_in(rest, line, none);
    } else {
        lemma_entity_there(d, n - 1, i);
        assert(rest + line =~= none + rest + line);
        lemma_occurs_within(entity_line(d[i]), rest, none, line);
    }
}

#[verifier::spinoff_prover]
proof fn lemma_is_digest(args: JsonModel, title: Seq<char>, summary: Seq<char>)
    requires
        crate::writing::digest_arg(args) is Ok,
        args.member("title"@) == Some(JsonModel::String(title)),
        args.member("summary"@) == Some(JsonModel::String(summary)),
    ensures
        is_digest(args, digest_text(crate::writing::digest_arg(args)->Ok_0)),
{
    let d = crate::writing::digest_arg(args)->Ok_0;
    let text = digest_text(d);
    let none = Seq::<char>::empty();
    let front = "---\ntype: session-summary\ntitle: "@ + scalar_safe(title)
        + "\ntags:\n  - consolidation\n---\n"@ + trim(summary) + "\n"@;
    let ds = decision_lines(d.decisions, d.decisions.len() as int);
    let es = entity_lines(d.entities, d.entities.len() as int);
    let x = if d.decisions.len() == 0 {
        none
    } else {
        "\n## Decisiones\n"@ + ds
    };
    let y = if d.entities.len() == 0 {
        none
    } else {
        "\n## Entidades relacionadas\n"@ + es
    };
    assert(text =~= front + (x + y));
    if let Some(JsonModel::Array(l)) = args.member("decisions"@) {
        lemma_decisions_to(l, l.len() as int);
        assert forall|i: int| 0 <= i < l.len() implies occurs(
            line_of_decision(#[trigger] l[i]),
            text,
        ) by {
            assert(decision_line(d.decisions[i]) == line_of_decision(l[i]));
            lemma_decision_there(d.decisions, l.len() as int, i);
            assert(text =~= (front + "\n## Decisiones\n"@) + ds + y);
            lemma_occurs_within(line_of_decision(l[i]), ds, front + "\n## Decisiones\n"@, y);
        }
    }
    if let Some(JsonModel::Array(l)) = args.member("entities"@) {
        lemma_entities_to(l, l.len() as int);
        assert forall|i: int| 0 <= i < l.len() implies occurs(
            line_of_entity(#[trigger] l[i]),
            text,
        ) by {
            assert(entity_line(d.entities[i]) == line_of_entity(l[i]));
            lemma_entity_there(d.entities, l.len() as int, i);
            let before = front + x + "\n## Entidades relacionadas\n"@;
            assert(text =~= before + es + none);
            lemma_occurs_within(line_of_entity(l[i]), es, before, none);
        }
    }
}

/// `memory_consolidate` writes, under the id it is given or one of its title, a
/// digest of what it is given.
pub proof fn law_digests_say_what_they_are_given(
    pre: InMemoryStore,
    actor: PrincipalModel,
    b: Budget,
    args: JsonModel,
    post: InMemoryStore,
    r: ToolAnswer,
    title: Seq<char>,
    summary: Seq<char>,
)
    requires
        store_ok(pre@),
        consolidate_tool(pre, actor, b, args, post, r),
        r is Ok,
        args.member("title"@) == Some(JsonModel::String(title)),
        args.member("summary"@) == Some(JsonModel::String(summary)),
    ensures
        ({
            let id = match args.member("concept_id"@) {
                Some(JsonModel::String(t)) => t,
                _ => "sessions/"@ + slug(title),
            };
            let reason = match args.member("reason"@) {
                Some(JsonModel::String(t)) => t,
                _ => "consolidación de sesión"@,
            };
            exists|text: Seq<char>| #[trigger]
                is_digest(args, text) && wrote(
                    pre@,
                    post@,
                    id,
                    named_hash(args.member("expected_hash"@)),
                    text,
                    reason,
                    actor,
                ) && says_written(pre@, post@, id, text, r->Ok_0)
        }),
{
    let req = crate::writing::consolidate_args(args, b)->Ok_0;
    let d = crate::writing::digest_arg(args)->Ok_0;
    let a = choose|a: Answer<OutcomeModel>| #[trigger]
        <InMemoryStore as MemoryRepository>::commit_rel(pre, req, actor, b, post, a) && r
            == crate::writing::outcome_answer(req.concept_id, a);
    lemma_wrote(pre@, req, actor, b);
    lemma_is_digest(args, title, summary);
    assert(is_digest(args, digest_text(d)));
}

} // verus!

//! What the progress of a spec says.

use vstd::prelude::*;
use crate::json::{number, JsonModel};
use crate::mcp::ToolAnswer;
use crate::member_laws::group_members;
use crate::memory::{default_budget, got, store_ok, InMemoryStore, StoreModel};
use crate::number::quotient;
use crate::okf::{parsed, LinkModel};
use crate::repo::{Answer, MemoryRepository};
use crate::search_laws::holds_document;
use crate::store::{BacklinkModel, DocViewModel, HitModel};
use crate::text::starts_with;
use crate::workflow::{
    counted, inquired, is_done, known_status, progress_json, spec_status_tool, status_from,
    status_of, surveyed, tallied, tally_json, tasks_in, unmet, waits, Tally,
};
use crate::writing_laws::lemma_holds;

verus! {

/// How many elements have a property.
pub open spec fn how_many<A>(s: Seq<A>, p: spec_fn(A) -> bool) -> nat {
    s.filter(p).len()
}

pub proof fn lemma_how_many<A>(s: Seq<A>, n: int, p: spec_fn(A) -> bool)
    requires
        0 < n <= s.len(),
    ensures
        how_many(s.take(n), p) == how_many(s.take(n - 1), p) + if p(s[n - 1]) {
            1nat
        } else {
            0
        },
{
    reveal(Seq::filter);
    assert(s.take(n).drop_last() =~= s.take(n - 1));
    assert(s.take(n).last() == s[n - 1]);
}

/// The first tag that starts with `status-` goes on with `state`.
pub open spec fn in_state(tags: Seq<Seq<char>>, state: Seq<char>) -> bool {
    exists|i: int|
        0 <= i < tags.len() && #[trigger] tags[i] == "status-"@ + state && forall|j: int|
            0 <= j < i ==> !("status-"@.is_prefix_of(#[trigger] tags[j]))
}

/// A document of type `task` that links to the spec by `implements`.
pub open spec fn task_of(l: BacklinkModel) -> bool {
    l.rel == Some("implements"@) && l.source.doc_type == "task"@
}

/// A task in a state.
pub open spec fn task_in(l: BacklinkModel, state: Seq<char>) -> bool {
    task_of(l) && in_state(l.source.tags, state)
}

/// A task in none of the states that have a name.
pub open spec fn task_in_none(l: BacklinkModel) -> bool {
    task_of(l) && !in_state(l.source.tags, "pending"@) && !in_state(l.source.tags, "in_progress"@)
        && !in_state(l.source.tags, "done"@) && !in_state(l.source.tags, "blocked"@)
}

/// A reply that gives the number of tasks in each state, of all the documents
/// `l` that link to the spec.
pub open spec fn counts_are_right(l: Seq<BacklinkModel>, reply: JsonModel) -> bool {
    let total = how_many(l, |x: BacklinkModel| task_of(x));
    let done = how_many(l, |x: BacklinkModel| task_in(x, "done"@));
    let states = reply.member("by_status"@)->0;
    &&& reply.member("tasks_total"@) == Some(number(total))
    &&& reply.member("by_status"@) is Some
    &&& states.member("pending"@) == Some(
        number(how_many(l, |x: BacklinkModel| task_in(x, "pending"@))),
    )
    &&& states.member("in_progress"@) == Some(
        number(how_many(l, |x: BacklinkModel| task_in(x, "in_progress"@))),
    )
    &&& states.member("done"@) == Some(number(done))
    &&& states.member("blocked"@) == Some(
        number(how_many(l, |x: BacklinkModel| task_in(x, "blocked"@))),
    )
    &&& states.member("unknown"@) == Some(
        number(how_many(l, |x: BacklinkModel| task_in_none(x))),
    )
    &&& reply.member("progress"@) == Some(JsonModel::Number(quotient(done, total)))
}

proof fn lemma_prefix(s: Seq<char>, p: Seq<char>)
    ensures
        starts_with(s, p) <==> p.is_prefix_of(s),
        starts_with(s, p) ==> s == p + s.skip(p.len() as int),
{
    if starts_with(s, p) {
        assert(s =~= p + s.skip(p.len() as int));
    }
    if p.is_prefix_of(s) {
        assert(s.subrange(0, p.len() as int) =~= p);
    }
}

/// The state that tags hold is the one after the first `status-`.
proof fn lemma_status_from(tags: Seq<Seq<char>>, i: int, state: Seq<char>)
    requires
        0 <= i <= tags.len(),
        state != "unknown"@,
        forall|j: int| 0 <= j < i ==> !("status-"@.is_prefix_of(#[trigger] tags[j])),
    ensures
        status_from(tags, i) == state <==> in_state(tags, state),
    decreases tags.len() - i,
{
    let p = "status-"@;
    if i < tags.len() {
        lemma_prefix(tags[i], p);
        if starts_with(tags[i], p) {
            if status_from(tags, i) == state {
                assert(tags[i] == p + state);
            }
            if in_state(tags, state) {
                let k = choose|k: int|
                    0 <= k < tags.len() && #[trigger] tags[k] == p + state && forall|j: int|
                        0 <= j < k ==> !(p.is_prefix_of(#[trigger] tags[j]));
                assert(p.is_prefix_of(tags[k])) by {
                    assert((p + state).subrange(0, p.len() as int) =~= p);
                }
                assert(k == i) by {
                    if k < i {
                        assert(!p.is_prefix_of(tags[k]));
                    }
                    if i < k {
                        assert(!p.is_prefix_of(tags[i]));
                    }
                }
                assert(tags[i].skip(p.len() as int) =~= state);
            }
        } else {
            lemma_status_from(tags, i + 1, state);
        }
    } else if in_state(tags, state) {
        let k = choose|k: int|
            0 <= k < tags.len() && #[trigger] tags[k] == p + state && forall|j: int|
                0 <= j < k ==> !(p.is_prefix_of(#[trigger] tags[j]));
        assert((p + state).subrange(0, p.len() as int) =~= p);
        assert(!p.is_prefix_of(tags[k]));
    }
}

proof fn lemma_states(tags: Seq<Seq<char>>)
    ensures
        status_of(tags) == "pending"@ <==> in_state(tags, "pending"@),
        status_of(tags) == "in_progress"@ <==> in_state(tags, "in_progress"@),
        status_of(tags) == "done"@ <==> in_state(tags, "done"@),
        status_of(tags) == "blocked"@ <==> in_state(tags, "blocked"@),
        "pending"@ != "in_progress"@,
        "pending"@ != "done"@,
        "pending"@ != "blocked"@,
        "in_progress"@ != "done"@,
        "in_progress"@ != "blocked"@,
        "done"@ != "blocked"@,
{
    reveal_strlit("pending");
    reveal_strlit("in_progress");
    reveal_strlit("done");
    reveal_strlit("blocked");
    reveal_strlit("unknown");
    assert("pending"@[0] != "blocked"@[0] && "pending"@[0] != "unknown"@[0]);
    assert("blocked"@[0] != "unknown"@[0]);
    lemma_status_from(tags, 0, "pending"@);
    lemma_status_from(tags, 0, "in_progress"@);
    lemma_status_from(tags, 0, "done"@);
    lemma_status_from(tags, 0, "blocked"@);
}

/// The tasks picked among the first `n` links, with a property, are as many as
/// the links to tasks with it.
proof fn lemma_tasks_in(
    l: Seq<BacklinkModel>,
    n: int,
    p: spec_fn(HitModel) -> bool,
    q: spec_fn(BacklinkModel) -> bool,
)
    requires
        0 <= n <= l.len(),
        forall|x: BacklinkModel| #[trigger] q(x) == (task_of(x) && p(x.source)),
    ensures
        how_many(tasks_in(l, n), p) == how_many(l.take(n), q),
    decreases n,
{
    if n > 0 {
        lemma_tasks_in(l, n - 1, p, q);
        lemma_how_many(l, n, q);
        let t = tasks_in(l, n);
        let u = tasks_in(l, n - 1);
        assert(q(l[n - 1]) == (task_of(l[n - 1]) && p(l[n - 1].source)));
        if task_of(l[n - 1]) {
            lemma_how_many(t, t.len() as int, p);
            assert(t.take(t.len() as int) =~= t);
            assert(t.take(t.len() - 1) =~= u);
        }
    } else {
        reveal(Seq::filter);
        assert(tasks_in(l, 0) =~= Seq::empty());
        assert(l.take(0) =~= Seq::empty());
    }
}

proof fn lemma_tallied(tasks: Seq<HitModel>, us: Seq<Answer<bool>>, n: int)
    requires
        0 <= n <= tasks.len(),
        tallied(tasks, us, n) is Ok,
    ensures
        ({
            let t = tallied(tasks, us, n)->Ok_0;
            let s = tasks.take(n);
            &&& t.pending == how_many(s, |x: HitModel| in_state(x.tags, "pending"@))
            &&& t.in_progress == how_many(s, |x: HitModel| in_state(x.tags, "in_progress"@))
            &&& t.done == how_many(s, |x: HitModel| in_state(x.tags, "done"@))
            &&& t.blocked == how_many(s, |x: HitModel| in_state(x.tags, "blocked"@))
            &&& t.unknown == how_many(
                s,
                |x: HitModel|
                    !in_state(x.tags, "pending"@) && !in_state(x.tags, "in_progress"@)
                        && !in_state(x.tags, "done"@) && !in_state(x.tags, "blocked"@),
            )
        }),
    decreases n,
{
    if n > 0 {
        lemma_tallied(tasks, us, n - 1);
        lemma_states(tasks[n - 1].tags);
        lemma_how_many(tasks, n, |x: HitModel| in_state(x.tags, "pending"@));
        lemma_how_many(tasks, n, |x: HitModel| in_state(x.tags, "in_progress"@));
        lemma_how_many(tasks, n, |x: HitModel| in_state(x.tags, "done"@));
        lemma_how_many(tasks, n, |x: HitModel| in_state(x.tags, "blocked"@));
        lemma_how_many(
            tasks,
            n,
            |x: HitModel|
                !in_state(x.tags, "pending"@) && !in_state(x.tags, "in_progress"@) && !in_state(
                    x.tags,
                    "done"@,
                ) && !in_state(x.tags, "blocked"@),
        );
    } else {
        reveal(Seq::filter);
        assert(tasks.take(0) =~= Seq::empty());
    }
}

proof fn lemma_progress_members(spec_id: Seq<char>, d: DocViewModel, total: nat, t: Tally)
    ensures
        ({
            let reply = progress_json(spec_id, d, total, t);
            &&& reply.member("tasks_total"@) == Some(number(total))
            &&& reply.member("by_status"@) == Some(tally_json(t))
            &&& reply.member("progress"@) == Some(JsonModel::Number(quotient(t.done, total)))
            &&& reply.member("next_pending"@) == Some(crate::workflow::id_values(t.next))
            &&& reply.member("waiting_on_dependencies"@) == Some(number(t.waiting))
            &&& reply.member("spec_id"@) == Some(JsonModel::String(spec_id))
            &&& reply.member("spec_status"@) == Some(JsonModel::String(status_of(d.tags)))
            &&& reply.member("spec_title"@) == Some(crate::json::opt_text(d.title))
            &&& tally_json(t).member("pending"@) == Some(number(t.pending))
            &&& tally_json(t).member("in_progress"@) == Some(number(t.in_progress))
            &&& tally_json(t).member("done"@) == Some(number(t.done))
            &&& tally_json(t).member("blocked"@) == Some(number(t.blocked))
            &&& tally_json(t).member("unknown"@) == Some(number(t.unknown))
        }),
{
    broadcast use group_members;

    lemma_states(Seq::empty());
    reveal_strlit("unknown");
    reveal_strlit("pending");
    reveal_strlit("blocked");
    reveal_strlit("done");
    reveal_strlit("in_progress");
    reveal_strlit("spec_id");
    reveal_strlit("spec_status");
    reveal_strlit("spec_title");
    reveal_strlit("tasks_total");
    reveal_strlit("by_status");
    reveal_strlit("progress");
    reveal_strlit("next_pending");
    reveal_strlit("waiting_on_dependencies");
    assert("unknown"@[0] != "pending"@[0] && "unknown"@[0] != "blocked"@[0]);
}

/// `spec_status` gives, for each state, how many of the documents of type
/// `task` that link to the spec by `implements` are in it; what is done over
/// all is the progress.
pub proof fn law_each_count_is_of_its_state<R: MemoryRepository>(
    repo: R,
    args: JsonModel,
    id: Seq<char>,
    r: ToolAnswer,
)
    requires
        args.member("spec_id"@) == Some(JsonModel::String(id)),
        spec_status_tool(repo, args, r),
        r is Ok,
    ensures
        r->Ok_0.member("spec_id"@) == Some(JsonModel::String(id)),
        exists|l: Seq<BacklinkModel>| #[trigger]
            repo.backlinks_rel(id, Ok(l)) && counts_are_right(l, r->Ok_0),
{
    let a = choose|a: Answer<Option<DocViewModel>>| #[trigger]
        repo.get_rel(id, a) && crate::workflow::status_with(repo, id, a, r);
    let d = a->Ok_0->0;
    assert(surveyed(repo, id, d, r));
    let x = choose|x: Answer<Seq<BacklinkModel>>| #[trigger]
        repo.backlinks_rel(id, x) && crate::workflow::counted_links(repo, id, d, x, r);
    let l = x->Ok_0;
    assert(x == Answer::<Seq<BacklinkModel>>::Ok(l));
    let n = l.len() as int;
    let tasks = tasks_in(l, n);
    assert(counted(repo, id, d, tasks, r));
    let us = choose|us: Seq<Answer<bool>>| #[trigger]
        inquired(repo, tasks, us) && r == crate::workflow::tally_answer(
            id,
            d,
            tasks.len(),
            tallied(tasks, us, us.len() as int),
        );
    assert(us.len() == tasks.len());
    let t = tallied(tasks, us, tasks.len() as int)->Ok_0;
    lemma_tallied(tasks, us, tasks.len() as int);
    lemma_progress_members(id, d, tasks.len(), t);
    assert(tasks.take(tasks.len() as int) =~= tasks);
    assert(l.take(n) =~= l);
    let all = |x: HitModel| true;
    lemma_tasks_in(l, n, all, |x: BacklinkModel| task_of(x));
    lemma_all_count(tasks);
    lemma_tasks_in(
        l,
        n,
        |x: HitModel| in_state(x.tags, "pending"@),
        |x: BacklinkModel| task_in(x, "pending"@),
    );
    lemma_tasks_in(
        l,
        n,
        |x: HitModel| in_state(x.tags, "in_progress"@),
        |x: BacklinkModel| task_in(x, "in_progress"@),
    );
    lemma_tasks_in(
        l,
        n,
        |x: HitModel| in_state(x.tags, "done"@),
        |x: BacklinkModel| task_in(x, "done"@),
    );
    lemma_tasks_in(
        l,
        n,
        |x: HitModel| in_state(x.tags, "blocked"@),
        |x: BacklinkModel| task_in(x, "blocked"@),
    );
    lemma_tasks_in(
        l,
        n,
        |x: HitModel|
            !in_state(x.tags, "pending"@) && !in_state(x.tags, "in_progress"@) && !in_state(
                x.tags,
                "done"@,
            ) && !in_state(x.tags, "blocked"@),
        |x: BacklinkModel| task_in_none(x),
    );
    assert(counts_are_right(l, r->Ok_0));
}

proof fn lemma_all_count(tasks: Seq<HitModel>)
    ensures
        how_many(tasks, |x: HitModel| true) == tasks.len(),
    decreases tasks.len(),
{
    reveal(Seq::filter);
    if tasks.len() > 0 {
        lemma_all_count(tasks.drop_last());
    }
}

// ---------------------------------------------------------------------
// What comes next
// ---------------------------------------------------------------------

/// A dependency is met: there is a live document of that id, and it is done.
pub open spec fn is_met(s: StoreModel, id: Seq<char>) -> bool {
    exists|raw: Seq<char>| #[trigger]
        holds_document(s, id, raw) && parsed(raw, default_budget()) is Ok && in_state(
            parsed(raw, default_budget())->Ok_0.tags,
            "done"@,
        )
}

/// A link by `depends_on` to a document that is not done.
pub open spec fn waits_on(s: StoreModel, l: LinkModel) -> bool {
    l.rel == Some("depends_on"@) && !is_met(s, l.target)
}

/// Nothing that the document `id` depends on is left to do.
pub open spec fn is_free(s: StoreModel, id: Seq<char>) -> bool {
    forall|raw: Seq<char>, i: int|
        #![trigger holds_document(s, id, raw), parsed(raw, default_budget())->Ok_0.links[i]]
        holds_document(s, id, raw) && 0 <= i < parsed(raw, default_budget())->Ok_0.links.len()
            ==> !waits_on(s, parsed(raw, default_budget())->Ok_0.links[i])
}

proof fn lemma_read(s: StoreModel, id: Seq<char>, d: DocViewModel)
    requires
        store_ok(s),
        got(s, id) == Answer::<Option<DocViewModel>>::Ok(Some(d)),
    ensures
        holds_document(s, id, d.raw),
        forall|raw: Seq<char>| holds_document(s, id, raw) ==> raw == d.raw,
        parsed(d.raw, default_budget()) is Ok,
        d.tags == parsed(d.raw, default_budget())->Ok_0.tags,
        d.links == parsed(d.raw, default_budget())->Ok_0.links,
{
    lemma_holds(s, id, d.raw);
    assert forall|raw: Seq<char>| holds_document(s, id, raw) implies raw == d.raw by {
        lemma_holds(s, id, raw);
    }
}

/// The tasks are live documents, as they are read.
spec fn are_read(s: StoreModel, tasks: Seq<HitModel>) -> bool {
    forall|k: int|
        0 <= k < tasks.len() ==> is_read(s, #[trigger] tasks[k])
}

spec fn is_read(s: StoreModel, m: HitModel) -> bool {
    exists|raw: Seq<char>| #[trigger]
        holds_document(s, m.concept_id, raw) && parsed(raw, default_budget()) is Ok && m.tags
            == parsed(raw, default_budget())->Ok_0.tags
}

proof fn lemma_known_status(s: StoreModel, tasks: Seq<HitModel>, id: Seq<char>, n: int)
    requires
        store_ok(s),
        0 <= n <= tasks.len(),
        are_read(s, tasks),
    ensures
        known_status(tasks, id, n) matches Some(st) ==> (st == "done"@ <==> is_met(s, id)),
    decreases n,
{
    if n > 0 {
        let m = tasks[n - 1];
        if m.concept_id == id {
            assert(is_read(s, m));
            let raw = choose|raw: Seq<char>| #[trigger]
                holds_document(s, m.concept_id, raw) && parsed(raw, default_budget()) is Ok
                    && m.tags == parsed(raw, default_budget())->Ok_0.tags;
            lemma_states(m.tags);
            lemma_holds(s, id, raw);
            if is_met(s, id) {
                let other = choose|other: Seq<char>| #[trigger]
                    holds_document(s, id, other) && parsed(other, default_budget()) is Ok
                        && in_state(parsed(other, default_budget())->Ok_0.tags, "done"@);
                lemma_holds(s, id, other);
            }
        } else {
            lemma_known_status(s, tasks, id, n - 1);
        }
    }
}

proof fn lemma_unmet(
    repo: InMemoryStore,
    tasks: Seq<HitModel>,
    links: Seq<LinkModel>,
    i: int,
    u: Answer<bool>,
)
    requires
        store_ok(repo@),
        are_read(repo@, tasks),
        0 <= i,
        unmet(repo, tasks, links, i, u),
        u is Ok,
    ensures
        u->Ok_0 <==> exists|k: int| i <= k < links.len() && waits_on(repo@, #[trigger] links[k]),
    decreases links.len() - i,
{
    let s = repo@;
    if i < links.len() {
        let t = links[i].target;
        if links[i].rel != Some("depends_on"@) {
            lemma_unmet(repo, tasks, links, i + 1, u);
        } else {
            lemma_known_status(s, tasks, t, tasks.len() as int);
            match known_status(tasks, t, tasks.len() as int) {
                Some(st) => {
                    if st == "done"@ {
                        lemma_unmet(repo, tasks, links, i + 1, u);
                    } else {
                        assert(waits_on(s, links[i]));
                    }
                },
                None => {
                    let a = got(s, t);
                    assert(a is Ok);
                    match a->Ok_0 {
                        Some(d) => {
                            lemma_read(s, t, d);
                            lemma_states(d.tags);
                        },
                        None => {
                            if is_met(s, t) {
                                let raw = choose|raw: Seq<char>| #[trigger]
                                    holds_document(s, t, raw) && parsed(
                                        raw,
                                        default_budget(),
                                    ) is Ok && in_state(
                                        parsed(raw, default_budget())->Ok_0.tags,
                                        "done"@,
                                    );
                                lemma_holds(s, t, raw);
                            }
                        },
                    }
                    assert(is_done(a->Ok_0) <==> is_met(s, t));
                    if is_done(a->Ok_0) {
                        lemma_unmet(repo, tasks, links, i + 1, u);
                    } else {
                        assert(waits_on(s, links[i]));
                    }
                },
            }
        }
    }
}

proof fn lemma_waits(repo: InMemoryStore, tasks: Seq<HitModel>, id: Seq<char>, u: Answer<bool>)
    requires
        store_ok(repo@),
        are_read(repo@, tasks),
        waits(repo, tasks, id, u),
        u is Ok,
    ensures
        u->Ok_0 <==> !is_free(repo@, id),
{
    let s = repo@;
    match got(s, id)->Ok_0 {
        None => {
            assert forall|raw: Seq<char>| !holds_document(s, id, raw) by {
                lemma_holds(s, id, raw);
            }
        },
        Some(d) => {
            lemma_read(s, id, d);
            lemma_unmet(repo, tasks, d.links, 0, u);
            if u->Ok_0 {
                let k = choose|k: int| 0 <= k < d.links.len() && waits_on(s, #[trigger] d.links[k]);
                assert(waits_on(s, parsed(d.raw, default_budget())->Ok_0.links[k]));
            }
        },
    }
}

/// A task that is pending and waits for nothing.
#[verifier::opaque]
spec fn is_next(s: StoreModel, m: HitModel) -> bool {
    in_state(m.tags, "pending"@) && is_free(s, m.concept_id)
}

/// Some task among the first `n`, of that id, that comes next.
spec fn has_next(s: StoreModel, tasks: Seq<HitModel>, n: int, id: Seq<char>) -> bool {
    exists|k: int| 0 <= k < n && (#[trigger] tasks[k]).concept_id == id && is_next(s, tasks[k])
}

proof fn lemma_has_next(s: StoreModel, tasks: Seq<HitModel>, n: int, id: Seq<char>)
    requires
        0 < n <= tasks.len(),
    ensures
        has_next(s, tasks, n, id) <==> has_next(s, tasks, n - 1, id) || (tasks[n - 1].concept_id
            == id && is_next(s, tasks[n - 1])),
{
    if has_next(s, tasks, n - 1, id) {
        let k = choose|k: int|
            0 <= k < n - 1 && (#[trigger] tasks[k]).concept_id == id && is_next(s, tasks[k]);
        assert(0 <= k < n && tasks[k].concept_id == id);
    }
    if tasks[n - 1].concept_id == id && is_next(s, tasks[n - 1]) {
        assert(tasks[n - 1].concept_id == id);
    }
}

/// A task is next where it is pending and was found not to wait.
proof fn lemma_is_next(
    repo: InMemoryStore,
    tasks: Seq<HitModel>,
    us: Seq<Answer<bool>>,
    k: int,
)
    requires
        store_ok(repo@),
        are_read(repo@, tasks),
        inquired(repo, tasks, us),
        0 <= k < tasks.len() == us.len(),
        status_of(tasks[k].tags) == "pending"@ ==> us[k] is Ok,
    ensures
        is_next(repo@, tasks[k]) <==> status_of(tasks[k].tags) == "pending"@ && !us[k]->Ok_0,
{
    reveal(is_next);
    lemma_states(tasks[k].tags);
    if status_of(tasks[k].tags) == "pending"@ {
        assert(waits(repo, tasks, tasks[k].concept_id, us[k]));
        lemma_waits(repo, tasks, tasks[k].concept_id, us[k]);
    }
}

proof fn lemma_next(repo: InMemoryStore, tasks: Seq<HitModel>, us: Seq<Answer<bool>>, n: int)
    requires
        store_ok(repo@),
        are_read(repo@, tasks),
        inquired(repo, tasks, us),
        us.len() == tasks.len(),
        0 <= n <= tasks.len(),
        tallied(tasks, us, n) is Ok,
    ensures
        ({
            let t = tallied(tasks, us, n)->Ok_0;
            &&& t.pending == t.waiting + t.next.len()
            &&& forall|id: Seq<char>| #[trigger]
                t.next.contains(id) <==> has_next(repo@, tasks, n, id)
        }),
    decreases n,
{
    if n > 0 {
        lemma_next(repo, tasks, us, n - 1);
        let m = tasks[n - 1];
        let before = tallied(tasks, us, n - 1)->Ok_0;
        let t = tallied(tasks, us, n)->Ok_0;
        lemma_is_next(repo, tasks, us, n - 1);
        assert forall|id: Seq<char>| #[trigger] t.next.contains(id) <==> has_next(
            repo@,
            tasks,
            n,
            id,
        ) by {
            lemma_has_next(repo@, tasks, n, id);
            if is_next(repo@, m) {
                crate::reason::lemma_push_contains(before.next, m.concept_id, id);
            }
            assert(before.next.contains(id) <==> has_next(repo@, tasks, n - 1, id));
        }
    }
}

proof fn lemma_tasks_from(l: Seq<BacklinkModel>, n: int)
    requires
        0 <= n <= l.len(),
    ensures
        forall|m: HitModel| #[trigger]
            tasks_in(l, n).contains(m) <==> exists|k: int|
                0 <= k < n && task_of(#[trigger] l[k]) && l[k].source == m,
    decreases n,
{
    if n > 0 {
        lemma_tasks_from(l, n - 1);
        let u = tasks_in(l, n - 1);
        assert forall|m: HitModel| #[trigger] tasks_in(l, n).contains(m) <==> exists|k: int|
            0 <= k < n && task_of(#[trigger] l[k]) && l[k].source == m by {
            if task_of(l[n - 1]) {
                crate::reason::lemma_push_contains(u, l[n - 1].source, m);
            }
            if u.contains(m) {
                let k = choose|k: int|
                    0 <= k < n - 1 && task_of(#[trigger] l[k]) && l[k].source == m;
                assert(0 <= k < n);
            }
        }
    }
}

/// A pending task among those that link to the spec, which waits for nothing.
pub open spec fn is_next_task(
    s: StoreModel,
    l: Seq<BacklinkModel>,
    id: Seq<char>,
) -> bool {
    is_free(s, id) && exists|k: int|
        0 <= k < l.len() && task_in(#[trigger] l[k], "pending"@) && l[k].source.concept_id == id
}

/// What `spec_status` says of what comes next: the pending tasks that wait for
/// nothing, and how many of the pending ones are left.
pub open spec fn says_next(s: StoreModel, l: Seq<BacklinkModel>, reply: JsonModel) -> bool {
    &&& reply.member("next_pending"@) matches Some(JsonModel::Array(ids)) && (forall|id: Seq<char>|
        #[trigger] ids.contains(JsonModel::String(id)) <==> is_next_task(s, l, id))
        && reply.member("waiting_on_dependencies"@) == Some(
        number(
            (how_many(l, |x: BacklinkModel| task_in(x, "pending"@)) - ids.len()) as nat,
        ),
    ) && ids.len() <= how_many(l, |x: BacklinkModel| task_in(x, "pending"@))
}

/// Among the tasks picked of some links, an id comes next where it does among
/// the links.
proof fn lemma_next_task(s: StoreModel, l: Seq<BacklinkModel>, id: Seq<char>)
    ensures
        has_next(s, tasks_in(l, l.len() as int), tasks_in(l, l.len() as int).len() as int, id)
            <==> is_next_task(s, l, id),
{
    reveal(is_next);
    let n = l.len() as int;
    let tasks = tasks_in(l, n);
    lemma_tasks_from(l, n);
    if has_next(s, tasks, tasks.len() as int, id) {
        let k = choose|k: int|
            0 <= k < tasks.len() && (#[trigger] tasks[k]).concept_id == id && is_next(s, tasks[k]);
        assert(tasks.contains(tasks[k]));
        let j = choose|j: int| 0 <= j < n && task_of(#[trigger] l[j]) && l[j].source == tasks[k];
        assert(task_in(l[j], "pending"@));
    }
    if is_next_task(s, l, id) {
        let j = choose|j: int|
            0 <= j < l.len() && task_in(#[trigger] l[j], "pending"@) && l[j].source.concept_id
                == id;
        assert(tasks.contains(l[j].source));
        let k = choose|k: int| 0 <= k < tasks.len() && tasks[k] == l[j].source;
        assert(tasks[k].concept_id == id && is_next(s, tasks[k]));
    }
}

proof fn lemma_texts_hold(next: Seq<Seq<char>>, q: Seq<char>)
    ensures
        Seq::new(next.len(), |i: int| JsonModel::String(next[i])).contains(JsonModel::String(q))
            <==> next.contains(q),
{
    let ids = Seq::new(next.len(), |i: int| JsonModel::String(next[i]));
    if ids.contains(JsonModel::String(q)) {
        let i = choose|i: int| 0 <= i < ids.len() && ids[i] == JsonModel::String(q);
        assert(next[i] == q);
    }
    if next.contains(q) {
        let i = choose|i: int| 0 <= i < next.len() && next[i] == q;
        assert(ids[i] == JsonModel::String(q));
    }
}

proof fn lemma_surveyed<R: MemoryRepository>(
    repo: R,
    args: JsonModel,
    id: Seq<char>,
    r: ToolAnswer,
) -> (z: (DocViewModel, Seq<BacklinkModel>, Seq<Answer<bool>>))
    requires
        args.member("spec_id"@) == Some(JsonModel::String(id)),
        spec_status_tool(repo, args, r),
        r is Ok,
    ensures
        repo.backlinks_rel(id, Ok(z.1)),
        ({
            let tasks = tasks_in(z.1, z.1.len() as int);
            let t = tallied(tasks, z.2, tasks.len() as int);
            &&& inquired(repo, tasks, z.2)
            &&& z.2.len() == tasks.len()
            &&& t is Ok
            &&& r->Ok_0 == progress_json(id, z.0, tasks.len(), t->Ok_0)
        }),
{
    let a = choose|a: Answer<Option<DocViewModel>>| #[trigger]
        repo.get_rel(id, a) && crate::workflow::status_with(repo, id, a, r);
    let d = a->Ok_0->0;
    assert(surveyed(repo, id, d, r));
    let x = choose|x: Answer<Seq<BacklinkModel>>| #[trigger]
        repo.backlinks_rel(id, x) && crate::workflow::counted_links(repo, id, d, x, r);
    let l = x->Ok_0;
    assert(x == Answer::<Seq<BacklinkModel>>::Ok(l));
    let tasks = tasks_in(l, l.len() as int);
    assert(counted(repo, id, d, tasks, r));
    let us = choose|us: Seq<Answer<bool>>| #[trigger]
        inquired(repo, tasks, us) && r == crate::workflow::tally_answer(
            id,
            d,
            tasks.len(),
            tallied(tasks, us, us.len() as int),
        );
    (d, l, us)
}

proof fn lemma_tasks_read(repo: InMemoryStore, id: Seq<char>, l: Seq<BacklinkModel>)
    requires
        store_ok(repo@),
        repo.backlinks_rel(id, Ok(l)),
    ensures
        are_read(repo@, tasks_in(l, l.len() as int)),
{
    let n = l.len() as int;
    let tasks = tasks_in(l, n);
    lemma_tasks_from(l, n);
    assert forall|k: int| 0 <= k < tasks.len() implies is_read(repo@, #[trigger] tasks[k]) by {
        assert(tasks.contains(tasks[k]));
        let j = choose|j: int| 0 <= j < n && task_of(#[trigger] l[j]) && l[j].source == tasks[k];
        crate::reading_laws::lemma_back_sources(repo@, id, j);
    }
}

proof fn lemma_pending(l: Seq<BacklinkModel>, us: Seq<Answer<bool>>)
    requires
        us.len() == tasks_in(l, l.len() as int).len(),
        tallied(tasks_in(l, l.len() as int), us, us.len() as int) is Ok,
    ensures
        tallied(tasks_in(l, l.len() as int), us, us.len() as int)->Ok_0.pending == how_many(
            l,
            |x: BacklinkModel| task_in(x, "pending"@),
        ),
{
    let n = l.len() as int;
    let tasks = tasks_in(l, n);
    lemma_tallied(tasks, us, tasks.len() as int);
    assert(tasks.take(tasks.len() as int) =~= tasks);
    assert(l.take(n) =~= l);
    lemma_tasks_in(
        l,
        n,
        |x: HitModel| in_state(x.tags, "pending"@),
        |x: BacklinkModel| task_in(x, "pending"@),
    );
}

proof fn lemma_says_next(s: StoreModel, l: Seq<BacklinkModel>, t: Tally, reply: JsonModel)
    requires
        reply.member("next_pending"@) == Some(crate::workflow::id_values(t.next)),
        reply.member("waiting_on_dependencies"@) == Some(number(t.waiting)),
        t.pending == how_many(l, |x: BacklinkModel| task_in(x, "pending"@)),
        t.pending == t.waiting + t.next.len(),
        forall|id: Seq<char>| #[trigger]
            t.next.contains(id) <==> has_next(
                s,
                tasks_in(l, l.len() as int),
                tasks_in(l, l.len() as int).len() as int,
                id,
            ),
    ensures
        says_next(s, l, reply),
{
    let ids = Seq::new(t.next.len(), |i: int| JsonModel::String(t.next[i]));
    assert(crate::workflow::id_values(t.next) == JsonModel::Array(ids)) by {
        assert(crate::workflow::id_values(t.next)->Array_0 =~= ids);
    }
    assert forall|q: Seq<char>| #[trigger] ids.contains(JsonModel::String(q)) <==> is_next_task(
        s,
        l,
        q,
    ) by {
        lemma_texts_hold(t.next, q);
        lemma_next_task(s, l, q);
    }
}

/// `spec_status` lists as next exactly the pending tasks of the spec of which
/// every dependency is done.
pub proof fn law_next_tasks_wait_for_nothing(
    repo: InMemoryStore,
    args: JsonModel,
    id: Seq<char>,
    r: ToolAnswer,
)
    requires
        store_ok(repo@),
        args.member("spec_id"@) == Some(JsonModel::String(id)),
        spec_status_tool(repo, args, r),
        r is Ok,
    ensures
        exists|l: Seq<BacklinkModel>| #[trigger]
            repo.backlinks_rel(id, Ok(l)) && says_next(repo@, l, r->Ok_0),
{
    let (d, l, us) = lemma_surveyed(repo, args, id, r);
    let tasks = tasks_in(l, l.len() as int);
    let t = tallied(tasks, us, tasks.len() as int)->Ok_0;
    lemma_tasks_read(repo, id, l);
    lemma_next(repo, tasks, us, tasks.len() as int);
    lemma_pending(l, us);
    lemma_progress_members(id, d, tasks.len(), t);
    lemma_says_next(repo@, l, t, r->Ok_0);
}

} // verus!

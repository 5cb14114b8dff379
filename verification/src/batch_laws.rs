//! What batches do, request by request.

use vstd::prelude::*;
use crate::json::{number, JsonModel};
use crate::mcp::ToolAnswer;
use crate::member_laws::group_members;
use crate::memory::{committed, each, first_failure, item_of, store_ok, InMemoryStore, StoreModel};
use crate::model::{hex, Budget, PrincipalModel};
use crate::patching::{
    bulk_patch_tool, head_args, heads_to, looked_up, merged, patch_request, patched_doc, ready_to,
    stage, staged_batch, stages, StageModel,
};
use crate::patching_laws::{law_patched_documents_are_right, patched_so};
use crate::replies::{batch_json, failed_item, skipped_item, Shown};
use crate::repo::{Answer, MemoryRepository};
use crate::search_laws::holds_document;
use crate::sha256::content_hash;
use crate::store::{BulkItem, BulkItemModel, BulkModel, DocViewModel, OutcomeModel, RequestModel};
use crate::writing::{bulk_item_args, bulk_to, bulk_tool};
use crate::writing_laws::{has_hash, is_live, lemma_holds, lemma_wrote, named_hash, wrote};

verus! {

/// The items of the reply to a batch.
pub open spec fn items_of(reply: JsonModel) -> Seq<JsonModel> {
    reply.member("items"@)->0->Array_0
}

/// The status of an item of a reply.
pub open spec fn has_status(item: JsonModel, status: Seq<char>) -> bool {
    item.member("status"@) == Some(JsonModel::String(status))
}

/// Stores one after the other, from `s` to `t`, with a step for each of `n`
/// requests.
pub open spec fn leads(between: Seq<StoreModel>, s: StoreModel, t: StoreModel, n: nat) -> bool {
    between.len() == n + 1 && between[0] == s && between[n as int] == t
}

/// An item that says that a text was written.
pub open spec fn says_done(s: StoreModel, id: Seq<char>, text: Seq<char>, item: JsonModel) -> bool {
    let hash = content_hash(text);
    &&& item.member("hash"@) == Some(JsonModel::String(hex(hash)))
    &&& item.member("no_change"@) == Some(JsonModel::Bool(has_hash(s, id, hash)))
    &&& item.member("created"@) == Some(JsonModel::Bool(!is_live(s, id)))
}

/// A step by one request of `memory_bulk_commit`: what it asks for is written,
/// or the item says that it failed and nothing changes.
pub open spec fn commits_so(
    s: StoreModel,
    t: StoreModel,
    actor: PrincipalModel,
    q: JsonModel,
    item: JsonModel,
) -> bool {
    let id = q.member("concept_id"@)->0->String_0;
    let text = q.member("markdown"@)->0->String_0;
    let reason = q.member("reason"@)->0->String_0;
    ||| has_status(item, "failed"@) && t == s
    ||| {
        &&& has_status(item, "done"@)
        &&& says_done(s, id, text, item)
        &&& wrote(s, t, id, named_hash(q.member("expected_hash"@)), text, reason, actor)
    }
}

proof fn lemma_item_members(o: OutcomeModel)
    ensures
        ({
            let v = <BulkItem as Shown>::json(BulkItemModel::Done(o));
            &&& has_status(v, "done"@)
            &&& v.member("hash"@) == Some(JsonModel::String(hex(o.content_id)))
            &&& v.member("version"@) == Some(number(o.version))
            &&& v.member("created"@) == Some(JsonModel::Bool(o.created))
            &&& v.member("no_change"@) == Some(JsonModel::Bool(o.no_change))
        }),
{
    broadcast use group_members;

    reveal_strlit("status");
    reveal_strlit("hash");
    reveal_strlit("version");
    reveal_strlit("created");
    reveal_strlit("no_change");
    reveal_strlit("warnings");
    assert("version"@[0] != "created"@[0]);
}

proof fn lemma_other_items(e: JsonModel)
    ensures
        has_status(failed_item(e), "failed"@),
        !has_status(failed_item(e), "done"@),
        has_status(skipped_item(), "skipped"@),
        !has_status(skipped_item(), "done"@),
        !has_status(skipped_item(), "failed"@),
{
    broadcast use group_members;

    reveal_strlit("status");
    reveal_strlit("error");
    reveal_strlit("failed");
    reveal_strlit("skipped");
    reveal_strlit("done");
    assert("failed"@.len() == 6 && "skipped"@.len() == 7 && "done"@.len() == 4);
}

proof fn lemma_batch_members(applied: bool, items: Seq<JsonModel>)
    ensures
        batch_json(applied, JsonModel::Array(items)).member("applied"@) == Some(
            JsonModel::Bool(applied),
        ),
        batch_json(applied, JsonModel::Array(items)).member("items"@) == Some(
            JsonModel::Array(items),
        ),
{
    broadcast use group_members;

    reveal_strlit("applied");
    reveal_strlit("items");
}

/// The stores between the requests of a batch.
pub open spec fn stores(s: StoreModel, reqs: Seq<RequestModel>, actor: PrincipalModel, b: Budget) -> Seq<
    StoreModel,
> {
    Seq::new(reqs.len() + 1, |k: int| each(s, reqs, k, actor, b).0)
}

pub proof fn lemma_each(
    s: StoreModel,
    reqs: Seq<RequestModel>,
    n: int,
    actor: PrincipalModel,
    b: Budget,
)
    requires
        store_ok(s),
        0 <= n <= reqs.len(),
    ensures
        store_ok(each(s, reqs, n, actor, b).0),
        each(s, reqs, n, actor, b).1.len() == n,
        forall|k: int|
            0 <= k < n ==> #[trigger] each(s, reqs, n, actor, b).1[k] == item_of(
                committed(each(s, reqs, k, actor, b).0, reqs[k], actor, b).1,
            ),
    decreases n,
{
    if n > 0 {
        lemma_each(s, reqs, n - 1, actor, b);
        let t = each(s, reqs, n - 1, actor, b).0;
        crate::memory::law_commit_keeps_the_store_sound(t, reqs[n - 1], actor, b);
        let items = each(s, reqs, n - 1, actor, b).1;
        assert forall|k: int| 0 <= k < n implies #[trigger] each(s, reqs, n, actor, b).1[k]
            == item_of(committed(each(s, reqs, k, actor, b).0, reqs[k], actor, b).1) by {
            if k < n - 1 {
                assert(each(s, reqs, n, actor, b).1[k] == items[k]);
            }
        }
    }
}

/// One request of a batch, between the stores before and after it.
pub proof fn lemma_request(
    s: StoreModel,
    reqs: Seq<RequestModel>,
    k: int,
    actor: PrincipalModel,
    b: Budget,
)
    requires
        store_ok(s),
        0 <= k < reqs.len(),
    ensures
        ({
            let x = stores(s, reqs, actor, b)[k];
            let y = stores(s, reqs, actor, b)[k + 1];
            let q = reqs[k];
            let v = <BulkItem as Shown>::json(each(s, reqs, reqs.len() as int, actor, b).1[k]);
            ||| has_status(v, "failed"@) && y == x && !has_status(v, "done"@)
            ||| {
                &&& has_status(v, "done"@)
                &&& says_done(x, q.concept_id, q.markdown, v)
                &&& wrote(x, y, q.concept_id, q.expected, q.markdown, q.reason, actor)
            }
        }),
{
    let n = reqs.len() as int;
    lemma_each(s, reqs, n, actor, b);
    lemma_each(s, reqs, k, actor, b);
    let x = each(s, reqs, k, actor, b).0;
    let q = reqs[k];
    let (y, a) = committed(x, q, actor, b);
    assert(each(s, reqs, k + 1, actor, b).0 == y);
    let item = each(s, reqs, n, actor, b).1[k];
    assert(item == item_of(a));
    match a {
        Ok(o) => {
            lemma_item_members(o);
            lemma_wrote(x, q, actor, b);
            crate::writing_laws::lemma_outcome_members(q.concept_id, o);
        },
        Err(e) => {
            lemma_other_items(crate::replies::item_error_json(e));
            crate::memory_laws::law_refused_commit_leaves_no_trace(x, q, actor, b);
        },
    }
}

proof fn lemma_bulk_to(l: Seq<JsonModel>, n: int)
    requires
        0 <= n <= l.len(),
        bulk_to(l, n) is Ok,
    ensures
        bulk_to(l, n)->Ok_0.len() == n,
        forall|k: int|
            0 <= k < n ==> bulk_item_args(#[trigger] l[k]) == Ok::<_, crate::mcp::ToolErrorModel>(
                bulk_to(l, n)->Ok_0[k],
            ),
    decreases n,
{
    if n > 0 {
        lemma_bulk_to(l, n - 1);
    }
}

/// Every item of an applied batch that must be whole is done.
proof fn lemma_whole_batch(
    s: StoreModel,
    reqs: Seq<RequestModel>,
    n: int,
    actor: PrincipalModel,
    b: Budget,
)
    requires
        store_ok(s),
        0 <= n <= reqs.len(),
        first_failure(s, reqs, n, actor, b) is None,
    ensures
        forall|k: int| 0 <= k < n ==> (#[trigger] each(s, reqs, n, actor, b).1[k]) is Done,
    decreases n,
{
    if n > 0 {
        lemma_whole_batch(s, reqs, n - 1, actor, b);
        lemma_each(s, reqs, n, actor, b);
        lemma_each(s, reqs, n - 1, actor, b);
        let before = each(s, reqs, n - 1, actor, b).1;
        let items = each(s, reqs, n, actor, b).1;
        assert forall|k: int| 0 <= k < n implies (#[trigger] items[k]) is Done by {
            if k < n - 1 {
                assert(items[k] == before[k]);
            } else {
                assert(items[k] == items.last());
            }
        }
    }
}

/// `memory_bulk_commit` writes what each object of `requests` asks for, in
/// order, each on what those before it left, and answers each in its place. One
/// that fails leaves nothing; unless `atomic` is false, none does where the
/// batch was applied, and nothing changes where it was not.
pub proof fn law_batches_write_each_request(
    pre: InMemoryStore,
    actor: PrincipalModel,
    b: Budget,
    args: JsonModel,
    post: InMemoryStore,
    r: ToolAnswer,
    l: Seq<JsonModel>,
)
    requires
        store_ok(pre@),
        bulk_tool(pre, actor, b, args, post, r),
        r is Ok,
        args.member("requests"@) == Some(JsonModel::Array(l)),
    ensures
        items_of(r->Ok_0).len() == l.len(),
        r->Ok_0.member("applied"@) == Some(JsonModel::Bool(true)) ==> exists|between: Seq<
            StoreModel,
        >|
            #[trigger] leads(between, pre@, post@, l.len()) && forall|k: int|
                0 <= k < l.len() ==> commits_so(
                    between[k],
                    between[k + 1],
                    actor,
                    l[k],
                    #[trigger] items_of(r->Ok_0)[k],
                ),
        args.member("atomic"@) != Some(JsonModel::Bool(false)) && r->Ok_0.member("applied"@)
            == Some(JsonModel::Bool(true)) ==> forall|k: int|
            0 <= k < l.len() ==> has_status(#[trigger] items_of(r->Ok_0)[k], "done"@),
        r->Ok_0.member("applied"@) != Some(JsonModel::Bool(true)) ==> post@ == pre@
            && args.member("atomic"@) != Some(JsonModel::Bool(false)),
{
    let s = pre@;
    let n = l.len() as int;
    let reqs = bulk_to(l, n)->Ok_0;
    lemma_bulk_to(l, n);
    let atomic = crate::args::flag_arg(args, "atomic"@, true);
    let a = choose|a: Answer<BulkModel>| #[trigger]
        <InMemoryStore as MemoryRepository>::bulk_rel(pre, reqs, atomic, actor, b, post, a) && r
            == crate::writing::bulk_answer(a);
    let x = a->Ok_0;
    let shown = Seq::new(x.items.len(), |i: int| <BulkItem as Shown>::json(x.items[i]));
    assert(r->Ok_0 == batch_json(x.applied, JsonModel::Array(shown)));
    lemma_batch_members(x.applied, shown);
    lemma_each(s, reqs, n, actor, b);
    assert(JsonModel::Bool(true) != JsonModel::Bool(false));
    if x.applied {
        let between = stores(s, reqs, actor, b);
        assert(leads(between, s, post@, l.len()));
        assert forall|k: int| 0 <= k < n implies commits_so(
            between[k],
            between[k + 1],
            actor,
            l[k],
            #[trigger] items_of(r->Ok_0)[k],
        ) by {
            lemma_request(s, reqs, k, actor, b);
            assert(bulk_item_args(l[k]) == Ok::<_, crate::mcp::ToolErrorModel>(reqs[k]));
        }
        if atomic {
            lemma_whole_batch(s, reqs, n, actor, b);
            assert forall|k: int| 0 <= k < n implies has_status(
                #[trigger] items_of(r->Ok_0)[k],
                "done"@,
            ) by {
                let o = x.items[k]->Done_0;
                assert(x.items[k] == each(s, reqs, n, actor, b).1[k]);
                lemma_item_members(o);
            }
        }
    }
}

// ---------------------------------------------------------------------
// Patches
// ---------------------------------------------------------------------

/// A step by one object of `patches`: the document that it names is patched as
/// it says and written, or the item says that it failed and nothing changes.
pub open spec fn patches_so(
    first: StoreModel,
    s: StoreModel,
    t: StoreModel,
    actor: PrincipalModel,
    b: Budget,
    q: JsonModel,
    item: JsonModel,
) -> bool {
    let id = q.member("concept_id"@)->0->String_0;
    let reason = q.member("reason"@)->0->String_0;
    ||| has_status(item, "failed"@) && t == s
    ||| has_status(item, "done"@) && exists|before: Seq<char>, after: Seq<char>|
        #![trigger patched_so(q, b, before, after)]
        holds_document(first, id, before) && patched_so(q, b, before, after) && says_done(
            s,
            id,
            after,
            item,
        ) && wrote(s, t, id, named_hash(q.member("expected_hash"@)), after, reason, actor)
}

proof fn lemma_heads_to(l: Seq<JsonModel>, n: int)
    requires
        0 <= n <= l.len(),
        heads_to(l, n) is Ok,
    ensures
        heads_to(l, n)->Ok_0.len() == n,
        forall|k: int|
            0 <= k < n ==> head_args(#[trigger] l[k]) == Ok::<_, crate::mcp::ToolErrorModel>(
                heads_to(l, n)->Ok_0[k],
            ),
    decreases n,
{
    if n > 0 {
        lemma_heads_to(l, n - 1);
    }
}

proof fn lemma_ready_to(st: Seq<StageModel>, k: int, n: int)
    requires
        0 <= k < n <= st.len(),
        st[k] is Ready,
    ensures
        ready_to(st, k).len() < ready_to(st, n).len(),
        ready_to(st, n)[ready_to(st, k).len() as int] == st[k]->Ready_0,
    decreases n,
{
    if k < n - 1 {
        lemma_ready_to(st, k, n - 1);
    }
}

proof fn lemma_ready_len(st: Seq<StageModel>, k: int, n: int)
    requires
        0 <= k <= n <= st.len(),
    ensures
        ready_to(st, k).len() <= ready_to(st, n).len(),
    decreases n,
{
    if k < n {
        lemma_ready_len(st, k, n - 1);
    }
}

/// The same for `memory_bulk_patch` and each object of `patches`; the documents
/// are read before the first is written.
pub proof fn law_batches_apply_each_patch(
    pre: InMemoryStore,
    actor: PrincipalModel,
    b: Budget,
    args: JsonModel,
    post: InMemoryStore,
    r: ToolAnswer,
    l: Seq<JsonModel>,
)
    requires
        store_ok(pre@),
        bulk_patch_tool(pre, actor, b, args, post, r),
        r is Ok,
        args.member("patches"@) == Some(JsonModel::Array(l)),
    ensures
        items_of(r->Ok_0).len() == l.len(),
        r->Ok_0.member("applied"@) == Some(JsonModel::Bool(true)) ==> exists|between: Seq<
            StoreModel,
        >|
            #[trigger] leads(between, pre@, post@, l.len()) && forall|k: int|
                0 <= k < l.len() ==> patches_so(
                    pre@,
                    between[k],
                    between[k + 1],
                    actor,
                    b,
                    l[k],
                    #[trigger] items_of(r->Ok_0)[k],
                ),
        args.member("atomic"@) != Some(JsonModel::Bool(false)) && r->Ok_0.member("applied"@)
            == Some(JsonModel::Bool(true)) ==> forall|k: int|
            0 <= k < l.len() ==> has_status(#[trigger] items_of(r->Ok_0)[k], "done"@),
        r->Ok_0.member("applied"@) != Some(JsonModel::Bool(true)) ==> post@ == pre@
            && args.member("atomic"@) != Some(JsonModel::Bool(false)),
{
    let s = pre@;
    let n = l.len() as int;
    let hs = heads_to(l, n)->Ok_0;
    lemma_heads_to(l, n);
    let atomic = crate::args::flag_arg(args, "atomic"@, true);
    let gs = choose|gs: Seq<Answer<Option<DocViewModel>>>| #[trigger]
        looked_up(pre, hs, gs) && staged_batch(
            pre,
            actor,
            b,
            atomic,
            stages(l, hs, gs, b),
            post,
            r,
        );
    let st = stages(l, hs, gs, b);
    assert(JsonModel::Bool(true) != JsonModel::Bool(false));
    if atomic && crate::patching::some_refused(st) {
        lemma_batch_members(false, crate::patching::held_back(st));
    } else {
        let reqs = ready_to(st, n);
        let a = choose|a: Answer<BulkModel>| #[trigger]
            <InMemoryStore as MemoryRepository>::bulk_rel(pre, reqs, atomic, actor, b, post, a) && r
                == crate::patching::merged_answer(st, a);
        let x = a->Ok_0;
        let shown = merged(st, x.items);
        lemma_batch_members(x.applied, shown);
        lemma_each(s, reqs, reqs.len() as int, actor, b);
        if x.applied {
            let inner = stores(s, reqs, actor, b);
            let between = Seq::new(
                (n + 1) as nat,
                |k: int| inner[ready_to(st, k).len() as int],
            );
            assert(leads(between, s, post@, l.len()));
            assert forall|k: int| 0 <= k < n implies patches_so(
                s,
                between[k],
                between[k + 1],
                actor,
                b,
                l[k],
                #[trigger] items_of(r->Ok_0)[k],
            ) by {
                lemma_patch_step(pre, actor, b, l, hs, gs, x.items, k);
            }
            if atomic {
                lemma_whole_batch(s, reqs, reqs.len() as int, actor, b);
                assert forall|k: int| 0 <= k < n implies has_status(
                    #[trigger] items_of(r->Ok_0)[k],
                    "done"@,
                ) by {
                    assert(st[k] is Ready);
                    lemma_ready_to(st, k, n);
                    let j = ready_to(st, k).len() as int;
                    assert(x.items[j] == each(s, reqs, reqs.len() as int, actor, b).1[j]);
                    lemma_item_members(x.items[j]->Done_0);
                }
            }
        }
    }
}

proof fn lemma_patch_step(
    pre: InMemoryStore,
    actor: PrincipalModel,
    b: Budget,
    l: Seq<JsonModel>,
    hs: Seq<crate::patching::PatchHeadModel>,
    gs: Seq<Answer<Option<DocViewModel>>>,
    items: Seq<BulkItemModel>,
    k: int,
)
    requires
        store_ok(pre@),
        0 <= k < l.len(),
        hs.len() == l.len(),
        head_args(l[k]) == Ok::<_, crate::mcp::ToolErrorModel>(hs[k]),
        looked_up(pre, hs, gs),
        ({
            let reqs = ready_to(stages(l, hs, gs, b), l.len() as int);
            items == each(pre@, reqs, reqs.len() as int, actor, b).1
        }),
    ensures
        ({
            let st = stages(l, hs, gs, b);
            let inner = stores(pre@, ready_to(st, l.len() as int), actor, b);
            patches_so(
                pre@,
                inner[ready_to(st, k).len() as int],
                inner[ready_to(st, k + 1).len() as int],
                actor,
                b,
                l[k],
                merged(st, items)[k],
            )
        }),
{
    let s = pre@;
    let n = l.len() as int;
    let st = stages(l, hs, gs, b);
    let reqs = ready_to(st, n);
    let j = ready_to(st, k).len() as int;
    assert(st[k] == stage(l[k], hs[k], gs[k], b));
    assert(pre.get_rel(hs[k].id, gs[k]));
    match st[k] {
        StageModel::Refused(e) => {
            lemma_other_items(e);
        },
        StageModel::Ready(q) => {
            lemma_ready_to(st, k, n);
            lemma_each(s, reqs, reqs.len() as int, actor, b);
            lemma_request(s, reqs, j, actor, b);
            let d = gs[k]->Ok_0->0;
            law_patched_documents_are_right(l[k], d, b);
            lemma_holds(s, hs[k].id, d.raw);
            assert(q == patch_request(hs[k], patched_doc(l[k], d, b)->Ok_0));
            assert(patched_so(l[k], b, d.raw, q.markdown));
        },
    }
}

} // verus!

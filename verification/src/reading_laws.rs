//! What reading tools tell of a store.

use vstd::prelude::*;
use crate::json::{number, opt_text, texts, JsonModel};
use crate::mcp::ToolAnswer;
use crate::member_laws::group_members;
use crate::memory::{
    back_from, committed, default_budget, link_to, live, page, served, store_ok, InMemoryStore,
    StoreModel,
};
use crate::model::{hex, Budget, PrincipalModel, Revision, RevisionModel};
use crate::okf::{parsed, LinkModel};
use crate::reading::{backlinks_tool, history_tool, resolve_tool, WalkAnswer};
use crate::replies::{doc_json, list_json, Shown};
use crate::repo::{Answer, MemoryRepository};
use crate::search_laws::{holds_document, lemma_hit_members, lemma_served, shows};
use crate::store::{hit_of, Backlink, BacklinkModel, DocViewModel, RequestModel};
use crate::table::{lemma_has, lemma_lookup_put, lemma_rank, lookup, rank};
use crate::writing_laws::{has_hash, is_live, lemma_live};

verus! {

// ---------------------------------------------------------------------
// History
// ---------------------------------------------------------------------

/// An entry that tells a revision.
pub open spec fn tells(v: JsonModel, x: RevisionModel) -> bool {
    &&& v.member("seq"@) == Some(number(x.seq as nat))
    &&& v.member("base_hash"@) == Some(
        match x.base {
            Some(h) => JsonModel::String(hex(h)),
            None => JsonModel::Null,
        },
    )
    &&& v.member("result_hash"@) == Some(JsonModel::String(hex(x.result)))
    &&& v.member("actor"@) == Some(JsonModel::String(x.actor.subject))
    &&& v.member("client_id"@) == Some(JsonModel::String(x.actor.client_id))
    &&& v.member("reason"@) == Some(JsonModel::String(x.reason))
}

proof fn lemma_revision_members(x: RevisionModel)
    ensures
        tells(<Revision as Shown>::json(x), x),
{
    broadcast use group_members;

    reveal_strlit("seq");
    reveal_strlit("base_hash");
    reveal_strlit("result_hash");
    reveal_strlit("actor");
    reveal_strlit("client_id");
    reveal_strlit("reason");
    assert("base_hash"@[0] != "client_id"@[0]);
}

/// A size that an argument gives.
pub open spec fn given_size(args: JsonModel, k: Seq<char>) -> Option<usize> {
    match args.member(k) {
        Some(v) => match v.whole() {
            Some(u) => Some(u as usize),
            None => None,
        },
        None => None,
    }
}

/// How many revisions may be told: ten, or as many as `limit` says, from one to
/// a hundred.
pub open spec fn most_revisions(args: JsonModel) -> int {
    match given_size(args, "limit"@) {
        None => 10,
        Some(n) => if n < 1 {
            1
        } else if n > 100 {
            100
        } else {
            n as int
        },
    }
}

/// A revision that the arguments ask for.
pub open spec fn is_asked(args: JsonModel, id: Seq<char>, x: RevisionModel) -> bool {
    &&& x.concept_id == id
    &&& match given_size(args, "before_seq"@) {
        Some(n) => x.seq < n,
        None => x.seq < u64::MAX,
    }
}

/// The revisions told, by their places: newest first, all of them asked for,
/// and none left out in between.
pub open spec fn are_newest(
    args: JsonModel,
    id: Seq<char>,
    revisions: Seq<RevisionModel>,
    at: Seq<int>,
) -> bool {
    &&& forall|i: int|
        0 <= i < at.len() ==> 0 <= #[trigger] at[i] < revisions.len() && is_asked(
            args,
            id,
            revisions[at[i]],
        )
    &&& forall|i: int, j: int| 0 <= i < j < at.len() ==> #[trigger] at[i] > #[trigger] at[j]
    &&& forall|k: int|
        0 <= k < revisions.len() && is_asked(args, id, #[trigger] revisions[k]) ==> at.contains(k)
            || (at.len() >= most_revisions(args) && k < at.last())
    &&& at.len() <= most_revisions(args)
}

proof fn lemma_page(
    args: JsonModel,
    id: Seq<char>,
    revs: Seq<RevisionModel>,
    n: int,
    cut: u64,
    limit: nat,
) -> (at: Seq<int>)
    requires
        0 <= n <= revs.len(),
        forall|k: int|
            0 <= k < revs.len() ==> (is_asked(args, id, #[trigger] revs[k]) <==> revs[k].concept_id
                == id && revs[k].seq < cut),
    ensures
        page(revs, n, id, cut, limit).len() == at.len(),
        at.len() <= limit,
        forall|i: int|
            0 <= i < at.len() ==> 0 <= #[trigger] at[i] < n && is_asked(args, id, revs[at[i]])
                && page(revs, n, id, cut, limit)[i] == revs[at[i]],
        forall|i: int, j: int| 0 <= i < j < at.len() ==> #[trigger] at[i] > #[trigger] at[j],
        forall|k: int|
            0 <= k < n && is_asked(args, id, #[trigger] revs[k]) ==> at.contains(k) || (at.len()
                >= limit && (at.len() > 0 ==> k < at.last())),
    decreases n,
{
    if n <= 0 || limit == 0 {
        Seq::empty()
    } else if revs[n - 1].concept_id == id && revs[n - 1].seq < cut {
        let rest = lemma_page(args, id, revs, n - 1, cut, (limit - 1) as nat);
        let p = page(revs, n - 1, id, cut, (limit - 1) as nat);
        let at = seq![n - 1] + rest;
        assert forall|i: int| 0 <= i < at.len() implies 0 <= #[trigger] at[i] < n && is_asked(
            args,
            id,
            revs[at[i]],
        ) && page(revs, n, id, cut, limit)[i] == revs[at[i]] by {
            if i > 0 {
                assert(at[i] == rest[i - 1]);
                assert(page(revs, n, id, cut, limit)[i] == p[i - 1]);
            } else {
                assert(is_asked(args, id, revs[n - 1]));
            }
        }
        assert forall|i: int, j: int| 0 <= i < j < at.len() implies #[trigger] at[i]
            > #[trigger] at[j] by {
            assert(at[j] == rest[j - 1]);
            if i > 0 {
                assert(at[i] == rest[i - 1]);
            }
        }
        assert forall|k: int| 0 <= k < n && is_asked(args, id, #[trigger] revs[k]) implies at.contains(
            k,
        ) || (at.len() >= limit && (at.len() > 0 ==> k < at.last())) by {
            if k == n - 1 {
                assert(at[0] == k);
            } else if rest.contains(k) {
                let i = choose|i: int| 0 <= i < rest.len() && rest[i] == k;
                assert(at[i + 1] == k);
            } else {
                if rest.len() > 0 {
                    assert(at.last() == rest.last());
                } else {
                    assert(at.last() == n - 1);
                }
            }
        }
        at
    } else {
        lemma_page(args, id, revs, n - 1, cut, limit)
    }
}

/// `memory_history` tells the newest revisions of the document that it names,
/// newest first, older than `before_seq` where that is given.
pub proof fn law_histories_tell_the_newest(
    repo: InMemoryStore,
    args: JsonModel,
    r: ToolAnswer,
    id: Seq<char>,
)
    requires
        store_ok(repo@),
        history_tool(repo, args, r),
        r is Ok,
        args.member("concept_id"@) == Some(JsonModel::String(id)),
    ensures
        r->Ok_0.member("concept_id"@) == Some(JsonModel::String(id)),
        r->Ok_0.member("revisions"@) is Some,
        r->Ok_0.member("revisions"@)->0 is Array,
        exists|at: Seq<int>| #[trigger]
            are_newest(args, id, repo@.revisions, at) && at.len()
                == r->Ok_0.member("revisions"@)->0->Array_0.len() && forall|i: int|
                0 <= i < at.len() ==> tells(
                    r->Ok_0.member("revisions"@)->0->Array_0[i],
                    repo@.revisions[#[trigger] at[i]],
                ),
{
    broadcast use group_members;

    reveal_strlit("concept_id");
    reveal_strlit("revisions");
    let (_, limit, before) = crate::reading::history_args(args)->Ok_0;
    let revs = repo@.revisions;
    let cut: u64 = match before {
        Some(c) => c,
        None => u64::MAX,
    };
    let x = page(revs, revs.len() as int, id, cut, limit as nat);
    assert(r == crate::reading::history_answer(id, Ok(x)));
    assert forall|k: int| 0 <= k < revs.len() implies (is_asked(args, id, #[trigger] revs[k])
        <==> revs[k].concept_id == id && revs[k].seq < cut) by {}
    let at = lemma_page(args, id, revs, revs.len() as int, cut, limit as nat);
    let l = r->Ok_0.member("revisions"@)->0->Array_0;
    assert(limit as int == most_revisions(args));
    assert(are_newest(args, id, revs, at));
    assert forall|i: int| 0 <= i < at.len() implies tells(l[i], revs[#[trigger] at[i]]) by {
        lemma_revision_members(x[i]);
        assert(x[i] == revs[at[i]]);
    }
}

// ---------------------------------------------------------------------
// Links
// ---------------------------------------------------------------------

/// The links of the live document `id` on record.
pub open spec fn on_record(s: StoreModel, id: Seq<char>, links: Seq<LinkModel>) -> bool {
    exists|i: int| 0 <= i < s.links.len() && #[trigger] s.links[i] == (id, links)
}

/// Link `i` is the first that leads to `target`.
pub open spec fn is_first_to(links: Seq<LinkModel>, i: int, target: Seq<char>) -> bool {
    &&& 0 <= i < links.len()
    &&& links[i].target == target
    &&& forall|j: int| 0 <= j < i ==> (#[trigger] links[j]).target != target
}

/// An entry that shows the document `source` and how it links to `id`.
pub open spec fn shows_link(
    s: StoreModel,
    v: JsonModel,
    source: Seq<char>,
    raw: Seq<char>,
    links: Seq<LinkModel>,
    i: int,
    id: Seq<char>,
) -> bool {
    &&& holds_document(s, source, raw)
    &&& parsed(raw, default_budget()) is Ok
    &&& on_record(s, source, links)
    &&& is_first_to(links, i, id)
    &&& v.member("source"@) is Some
    &&& shows(v.member("source"@)->0, source, raw, default_budget())
    &&& v.member("rel"@) == Some(
        match links[i].rel {
            Some(t) => JsonModel::String(t),
            None => JsonModel::Null,
        },
    )
}

/// An entry that shows a document on record as linking to `id`.
pub open spec fn is_backlink(s: StoreModel, v: JsonModel, source: Seq<char>, id: Seq<char>) -> bool {
    exists|raw: Seq<char>, links: Seq<LinkModel>, i: int| #[trigger]
        shows_link(s, v, source, raw, links, i, id)
}

pub proof fn lemma_link_to(links: Seq<LinkModel>, i: int, target: Seq<char>)
    requires
        0 <= i,
        forall|j: int| 0 <= j < i && j < links.len() ==> (#[trigger] links[j]).target != target,
    ensures
        match link_to(links, i, target) {
            Some(l) => exists|k: int| #[trigger] is_first_to(links, k, target) && links[k] == l,
            None => forall|k: int| 0 <= k < links.len() ==> (#[trigger] links[k]).target != target,
        },
    decreases links.len() - i,
{
    if i < links.len() {
        if links[i].target == target {
            assert(is_first_to(links, i, target));
        } else {
            lemma_link_to(links, i + 1, target);
        }
    }
}

proof fn lemma_backlink_members(m: BacklinkModel)
    ensures
        <Backlink as Shown>::json(m).member("source"@) == Some(
            <crate::store::SearchHit as Shown>::json(m.source),
        ),
        <Backlink as Shown>::json(m).member("rel"@) == Some(opt_text(m.rel)),
{
    broadcast use group_members;

    reveal_strlit("source");
    reveal_strlit("rel");
}

/// One entry, of entry `i` of the links on record.
#[verifier::opaque]
spec fn is_entry(s: StoreModel, m: BacklinkModel, i: int, id: Seq<char>) -> bool {
    &&& live(s, s.links[i].0) is Some
    &&& served(s, live(s, s.links[i].0)->0, default_budget()) is Ok
    &&& m.source == hit_of(served(s, live(s, s.links[i].0)->0, default_budget())->Ok_0)
    &&& link_to(s.links[i].1, 0, id) is Some
    &&& m.rel == link_to(s.links[i].1, 0, id)->0.rel
}

/// One of the first `n` entries on record.
spec fn is_some_entry(s: StoreModel, m: BacklinkModel, n: int, id: Seq<char>) -> bool {
    exists|j: int| 0 <= j < n && #[trigger] is_entry(s, m, j, id)
}

/// Entry `j` on record is among those listed.
spec fn has_entry(s: StoreModel, l: Seq<BacklinkModel>, j: int, id: Seq<char>) -> bool {
    exists|k: int| 0 <= k < l.len() && is_entry(s, #[trigger] l[k], j, id)
}

/// Entry `j` on record leads to `id`.
spec fn leads_there(s: StoreModel, j: int, id: Seq<char>) -> bool {
    live(s, s.links[j].0) is Some && link_to(s.links[j].1, 0, id) is Some
}

/// The list is right as far as the first `n` entries go.
spec fn is_right_to(s: StoreModel, l: Seq<BacklinkModel>, n: int, id: Seq<char>) -> bool {
    &&& forall|k: int| 0 <= k < l.len() ==> is_some_entry(s, #[trigger] l[k], n, id)
    &&& forall|j: int| 0 <= j < n && #[trigger] leads_there(s, j, id) ==> has_entry(s, l, j, id)
}

proof fn lemma_one_more(
    s: StoreModel,
    id: Seq<char>,
    i: int,
    out: Seq<BacklinkModel>,
    m: BacklinkModel,
)
    requires
        0 <= i,
        is_right_to(s, out, i, id),
        is_entry(s, m, i, id),
    ensures
        is_right_to(s, out.push(m), i + 1, id),
{
    let next = out.push(m);
    assert forall|k: int| 0 <= k < next.len() implies is_some_entry(
        s,
        #[trigger] next[k],
        i + 1,
        id,
    ) by {
        if k < out.len() {
            assert(next[k] == out[k]);
            let j = choose|j: int| 0 <= j < i && #[trigger] is_entry(s, out[k], j, id);
            assert(is_entry(s, next[k], j, id));
        } else {
            assert(is_entry(s, next[k], i, id));
        }
    }
    assert forall|j: int| 0 <= j < i + 1 && #[trigger] leads_there(s, j, id) implies has_entry(
        s,
        next,
        j,
        id,
    ) by {
        if j < i {
            let k = choose|k: int| 0 <= k < out.len() && is_entry(s, #[trigger] out[k], j, id);
            assert(next[k] == out[k]);
        } else {
            assert(next[out.len() as int] == m);
        }
    }
}

proof fn lemma_none_more(s: StoreModel, id: Seq<char>, i: int, out: Seq<BacklinkModel>)
    requires
        0 <= i,
        is_right_to(s, out, i, id),
        !leads_there(s, i, id),
    ensures
        is_right_to(s, out, i + 1, id),
{
    assert forall|k: int| 0 <= k < out.len() implies is_some_entry(
        s,
        #[trigger] out[k],
        i + 1,
        id,
    ) by {
        let j = choose|j: int| 0 <= j < i && #[trigger] is_entry(s, out[k], j, id);
        assert(is_entry(s, out[k], j, id));
    }
}

proof fn lemma_back_from(s: StoreModel, id: Seq<char>, i: int, out: Seq<BacklinkModel>)
    requires
        0 <= i <= s.links.len(),
        back_from(s, id, i, out) is Ok,
        is_right_to(s, out, i, id),
    ensures
        is_right_to(s, back_from(s, id, i, out)->Ok_0, s.links.len() as int, id),
    decreases s.links.len() - i,
{
    if i < s.links.len() {
        match (live(s, s.links[i].0), link_to(s.links[i].1, 0, id)) {
            (Some(h), Some(l)) => {
                let d = served(s, h, default_budget())->Ok_0;
                let m = BacklinkModel { source: hit_of(d), rel: l.rel };
                assert(is_entry(s, m, i, id)) by {
                    reveal(is_entry);
                }
                lemma_one_more(s, id, i, out, m);
                lemma_back_from(s, id, i + 1, out.push(m));
            },
            _ => {
                lemma_none_more(s, id, i, out);
                lemma_back_from(s, id, i + 1, out);
            },
        }
    }
}

/// An entry of the links on record is shown as a backlink.
proof fn lemma_entry(s: StoreModel, m: BacklinkModel, j: int, id: Seq<char>)
    requires
        store_ok(s),
        0 <= j < s.links.len(),
        is_entry(s, m, j, id),
    ensures
        is_backlink(s, <Backlink as Shown>::json(m), s.links[j].0, id),
{
    reveal(is_entry);
    let source = s.links[j].0;
    let links = s.links[j].1;
    let h = live(s, source)->0;
    lemma_link_to(links, 0, id);
    let i = choose|i: int| #[trigger]
        is_first_to(links, i, id) && links[i] == link_to(links, 0, id)->0;
    lemma_backlink_members(m);
    lemma_rank(s.heads, source);
    let k = rank(s.heads, source) as int;
    lemma_served(s, k, default_budget());
    lemma_hit_members(m.source);
    let d = served(s, h, default_budget())->Ok_0;
    lemma_hashes(s, k, d.raw);
    let v = <Backlink as Shown>::json(m);
    assert(on_record(s, source, links)) by {
        assert(s.links[j] == (source, links));
    }
    assert(shows_link(s, v, source, d.raw, links, i, id));
}

proof fn lemma_hashes(s: StoreModel, k: int, raw: Seq<char>)
    requires
        store_ok(s),
        0 <= k < s.heads.len(),
        lookup(s.blobs, hex(s.heads[k].1.content_id)) == Some(raw),
    ensures
        hex(s.heads[k].1.content_id) == hex(crate::sha256::content_hash(raw)),
{
    let key = hex(s.heads[k].1.content_id);
    lemma_rank(s.blobs, key);
    assert(s.blobs[rank(s.blobs, key) as int].0 == key);
}

/// The sources of the backlinks of a store are live documents, as they are read.
pub proof fn lemma_back_sources(s: StoreModel, id: Seq<char>, k: int)
    requires
        store_ok(s),
        back_from(s, id, 0, Seq::empty()) is Ok,
        0 <= k < back_from(s, id, 0, Seq::empty())->Ok_0.len(),
    ensures
        ({
            let m = back_from(s, id, 0, Seq::empty())->Ok_0[k].source;
            exists|raw: Seq<char>| #[trigger]
                holds_document(s, m.concept_id, raw) && parsed(raw, default_budget()) is Ok
                    && m.tags == parsed(raw, default_budget())->Ok_0.tags && m.doc_type == parsed(
                    raw,
                    default_budget(),
                )->Ok_0.doc_type
        }),
{
    lemma_back_from(s, id, 0, Seq::empty());
    let l = back_from(s, id, 0, Seq::empty())->Ok_0;
    assert(is_some_entry(s, l[k], s.links.len() as int, id));
    let j = choose|j: int| 0 <= j < s.links.len() && #[trigger] is_entry(s, l[k], j, id);
    reveal(is_entry);
    let source = s.links[j].0;
    lemma_rank(s.heads, source);
    let i = rank(s.heads, source) as int;
    lemma_served(s, i, default_budget());
    let d = served(s, live(s, source)->0, default_budget())->Ok_0;
    assert(holds_document(s, l[k].source.concept_id, d.raw));
}

/// The entries of the reply to `memory_backlinks`.
pub open spec fn backlinks_in(reply: JsonModel) -> Seq<JsonModel> {
    reply.member("backlinks"@)->0->Array_0
}

/// An entry shows some document on record as linking to `id`.
pub open spec fn is_some_backlink(s: StoreModel, v: JsonModel, id: Seq<char>) -> bool {
    exists|source: Seq<char>| #[trigger] is_backlink(s, v, source, id)
}

/// A list has a document as linking to `id`.
pub open spec fn lists_backlink(
    s: StoreModel,
    l: Seq<JsonModel>,
    source: Seq<char>,
    id: Seq<char>,
) -> bool {
    exists|k: int| 0 <= k < l.len() && is_backlink(s, #[trigger] l[k], source, id)
}

/// `memory_backlinks` lists the live documents on record as linking to the one
/// that it names, each with the relation of its first link there, and no other.
pub proof fn law_backlinks_are_those_on_record(
    repo: InMemoryStore,
    args: JsonModel,
    r: ToolAnswer,
    id: Seq<char>,
)
    requires
        store_ok(repo@),
        backlinks_tool(repo, args, r),
        r is Ok,
        args.member("concept_id"@) == Some(JsonModel::String(id)),
    ensures
        r->Ok_0.member("backlinks"@) is Some,
        r->Ok_0.member("backlinks"@)->0 is Array,
        r->Ok_0.member("count"@) == Some(number(backlinks_in(r->Ok_0).len())),
        forall|k: int|
            0 <= k < backlinks_in(r->Ok_0).len() ==> is_some_backlink(
                repo@,
                #[trigger] backlinks_in(r->Ok_0)[k],
                id,
            ),
        forall|source: Seq<char>, links: Seq<LinkModel>, i: int|
            #![trigger on_record(repo@, source, links), is_first_to(links, i, id)]
            on_record(repo@, source, links) && is_live(repo@, source) && is_first_to(links, i, id)
                ==> lists_backlink(repo@, backlinks_in(r->Ok_0), source, id),
{
    let s = repo@;
    let l = back_from(s, id, 0, Seq::empty())->Ok_0;
    assert(r == crate::reading::backlinks_answer(Ok(l)));
    lemma_backlinks_members(l);
    let shown = backlinks_in(r->Ok_0);
    lemma_back_from(s, id, 0, Seq::empty());
    assert forall|k: int| 0 <= k < shown.len() implies is_some_backlink(
        s,
        #[trigger] shown[k],
        id,
    ) by {
        assert(is_some_entry(s, l[k], s.links.len() as int, id));
        let j = choose|j: int| 0 <= j < s.links.len() && #[trigger] is_entry(s, l[k], j, id);
        lemma_entry(s, l[k], j, id);
        assert(is_backlink(s, shown[k], s.links[j].0, id));
    }
    assert forall|source: Seq<char>, links: Seq<LinkModel>, i: int|
        #![trigger on_record(s, source, links), is_first_to(links, i, id)]
        on_record(s, source, links) && is_live(s, source) && is_first_to(
            links,
            i,
            id,
        ) implies lists_backlink(s, shown, source, id) by {
        let j = choose|j: int| 0 <= j < s.links.len() && #[trigger] s.links[j] == (source, links);
        lemma_live(s, source);
        lemma_link_to(links, 0, id);
        assert(links[i].target == id);
        assert(leads_there(s, j, id));
        let k = choose|k: int| 0 <= k < l.len() && is_entry(s, #[trigger] l[k], j, id);
        lemma_entry(s, l[k], j, id);
        assert(is_backlink(s, shown[k], source, id));
    }
}

proof fn lemma_backlinks_members(l: Seq<BacklinkModel>)
    ensures
        crate::replies::backlinks_json(l).member("backlinks"@) == Some(list_json::<Backlink>(l)),
        crate::replies::backlinks_json(l).member("count"@) == Some(number(l.len())),
{
    broadcast use group_members;

    reveal_strlit("backlinks");
    reveal_strlit("count");
}

/// What is written is on record with the links of its text.
pub proof fn law_writing_records_the_links(
    s: StoreModel,
    req: RequestModel,
    actor: PrincipalModel,
    b: Budget,
)
    requires
        store_ok(s),
        committed(s, req, actor, b).1 is Ok,
        !has_hash(s, req.concept_id, crate::sha256::content_hash(req.markdown)),
    ensures
        on_record(
            committed(s, req, actor, b).0,
            req.concept_id,
            parsed(req.markdown, b)->Ok_0.links,
        ),
        forall|k: Seq<char>, links: Seq<LinkModel>|
            k != req.concept_id ==> (#[trigger] on_record(
                committed(s, req, actor, b).0,
                k,
                links,
            ) <==> on_record(s, k, links)),
{
    let t = committed(s, req, actor, b).0;
    let id = req.concept_id;
    let mine = parsed(req.markdown, b)->Ok_0.links;
    lemma_live(s, id);
    crate::memory::law_commit_keeps_the_store_sound(s, req, actor, b);
    lemma_on_record(t, id, mine);
    lemma_lookup_put(s.links, id, mine, id);
    assert forall|k: Seq<char>, links: Seq<LinkModel>| k != id implies (#[trigger] on_record(
        t,
        k,
        links,
    ) <==> on_record(s, k, links)) by {
        lemma_on_record(s, k, links);
        lemma_on_record(t, k, links);
        lemma_lookup_put(s.links, id, mine, k);
    }
}

pub proof fn lemma_on_record(s: StoreModel, id: Seq<char>, links: Seq<LinkModel>)
    requires
        store_ok(s),
    ensures
        on_record(s, id, links) <==> lookup(s.links, id) == Some(links),
{
    lemma_rank(s.links, id);
    if on_record(s, id, links) {
        let i = choose|i: int| 0 <= i < s.links.len() && #[trigger] s.links[i] == (id, links);
        lemma_has(s.links, i);
    }
    if lookup(s.links, id) == Some(links) {
        let i = rank(s.links, id) as int;
        assert(s.links[i] == (id, links));
    }
}

// ---------------------------------------------------------------------
// Documents
// ---------------------------------------------------------------------

proof fn lemma_doc_members(d: DocViewModel)
    ensures
        ({
            let v = doc_json(d);
            &&& v.member("concept_id"@) == Some(JsonModel::String(d.concept_id))
            &&& v.member("hash"@) == Some(JsonModel::String(hex(d.content_id)))
            &&& v.member("version"@) == Some(number(d.version))
            &&& v.member("type"@) == Some(JsonModel::String(d.doc_type))
            &&& v.member("title"@) == Some(opt_text(d.title))
            &&& v.member("tags"@) == Some(texts(d.tags))
            &&& v.member("markdown"@) == Some(JsonModel::String(d.raw))
        }),
{
    broadcast use group_members;

    reveal_strlit("concept_id");
    reveal_strlit("hash");
    reveal_strlit("version");
    reveal_strlit("type");
    reveal_strlit("title");
    reveal_strlit("tags");
    reveal_strlit("markdown");
    assert("hash"@[0] != "type"@[0] && "hash"@[0] != "tags"@[0] && "type"@[1] != "tags"@[1]);
}

/// A document in a reply: the live document `id`, its text, and what the text
/// says.
pub open spec fn gives_document(s: StoreModel, v: JsonModel, id: Seq<char>, raw: Seq<char>) -> bool {
    let d = parsed(raw, default_budget())->Ok_0;
    &&& holds_document(s, id, raw)
    &&& parsed(raw, default_budget()) is Ok
    &&& v.member("concept_id"@) == Some(JsonModel::String(id))
    &&& v.member("markdown"@) == Some(JsonModel::String(raw))
    &&& v.member("hash"@) == Some(JsonModel::String(hex(crate::sha256::content_hash(raw))))
    &&& v.member("type"@) == Some(JsonModel::String(d.doc_type))
    &&& v.member("title"@) == Some(
        match d.title {
            Some(t) => JsonModel::String(t),
            None => JsonModel::Null,
        },
    )
    &&& v.member("tags"@) == Some(
        JsonModel::Array(Seq::new(d.tags.len(), |i: int| JsonModel::String(d.tags[i]))),
    )
    &&& exists|i: int|
        0 <= i < s.heads.len() && (#[trigger] s.heads[i]).0 == id && v.member("version"@) == Some(
            number(s.heads[i].1.version),
        )
}

/// `memory_resolve` gives the live document that it names.
pub proof fn law_resolving_gives_the_document(
    repo: InMemoryStore,
    b: Budget,
    args: JsonModel,
    r: ToolAnswer,
    id: Seq<char>,
)
    requires
        store_ok(repo@),
        resolve_tool(repo, b, args, r),
        r is Ok,
        args.member("concept_id"@) == Some(JsonModel::String(id)),
    ensures
        r->Ok_0.member("document"@) is Some,
        exists|raw: Seq<char>| #[trigger]
            gives_document(repo@, r->Ok_0.member("document"@)->0, id, raw),
{
    broadcast use group_members;

    reveal_strlit("document");
    reveal_strlit("neighborhood");
    reveal_strlit("truncated");
    let s = repo@;
    let limits = crate::reading::resolve_args(args, b)->Ok_0.1;
    let a = choose|a: Answer<Option<DocViewModel>>| #[trigger]
        repo.get_rel(id, a) && match a {
            Err(e) => r == ToolAnswer::Err(crate::replies::domain(e)),
            Ok(None) => r == ToolAnswer::Err(
                crate::replies::domain(crate::store::StoreErrorModel::NotFound(id)),
            ),
            Ok(Some(d)) => crate::reading::resolved_with(repo, limits, id, d, r),
        };
    let d = a->Ok_0->0;
    let w = choose|w: WalkAnswer| #[trigger]
        crate::reading::walks(repo, limits, id, w) && r == crate::reading::resolve_answer(d, w);
    let v = r->Ok_0.member("document"@)->0;
    assert(v == doc_json(d));
    lemma_doc_members(d);
    lemma_rank(s.heads, id);
    let k = rank(s.heads, id) as int;
    lemma_served(s, k, default_budget());
    assert(s.heads[k].0 == id);
    assert(gives_document(s, v, id, d.raw));
}

} // verus!

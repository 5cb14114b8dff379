//! What search and listing answer.

use vstd::prelude::*;
use crate::json::{number, opt_text, texts, JsonModel};
use crate::mcp::ToolAnswer;
use crate::member_laws::group_members;
use crate::memory::{
    found, found_from, in_scope, live, passes, search_limit, served, store_ok, InMemoryStore,
    StoreModel,
};
use crate::memory_laws::law_search_lists_only_what_matches;
use crate::model::{hex, Budget};
use crate::okf::parsed;
use crate::reading::{list_query, list_tool, search_query, search_tool};
use crate::replies::{list_json, Shown};
use crate::repo::{Answer, MemoryRepository};
use crate::store::{HitModel, QueryModel, SearchHit};
use crate::table::{lemma_has, lookup};
use crate::text::lowercase;

verus! {

/// The store holds a live document `id` with this text.
pub open spec fn holds_document(s: StoreModel, id: Seq<char>, raw: Seq<char>) -> bool {
    exists|i: int, j: int|
        0 <= i < s.heads.len() && 0 <= j < s.blobs.len() && (#[trigger] s.heads[i]).0 == id
            && !s.heads[i].1.deleted && #[trigger] s.blobs[j] == (hex(s.heads[i].1.content_id), raw)
}

/// `part` stands somewhere in `s`.
pub open spec fn occurs(part: Seq<char>, s: Seq<char>) -> bool {
    exists|i: int| 0 <= i <= s.len() - part.len() && #[trigger] s.subrange(i, i + part.len()) == part
}

/// The id is the path or lies under it.
pub open spec fn lies_under(id: Seq<char>, path: Seq<char>) -> bool {
    id == path || (path + "/"@).is_prefix_of(id)
}

/// The text sought stands, without regard to case, in the id, the title, a tag
/// or the document.
pub open spec fn speaks_of(id: Seq<char>, raw: Seq<char>, b: Budget, text: Seq<char>) -> bool {
    let d = parsed(raw, b)->Ok_0;
    let t = lowercase(text);
    ||| occurs(t, id)
    ||| (d.title is Some && occurs(t, lowercase(d.title->0)))
    ||| exists|i: int| 0 <= i < d.tags.len() && occurs(t, lowercase(#[trigger] d.tags[i]))
    ||| occurs(t, lowercase(raw))
}

/// What the arguments of a search ask of a document.
pub open spec fn asked_for(args: JsonModel, b: Budget, id: Seq<char>, raw: Seq<char>) -> bool {
    let d = parsed(raw, b)->Ok_0;
    &&& (args.member("type"@) matches Some(JsonModel::String(t)) ==> d.doc_type == t)
    &&& (args.member("not_type"@) matches Some(JsonModel::String(t)) ==> d.doc_type != t)
    &&& (args.member("tag"@) matches Some(JsonModel::String(t)) ==> d.tags.contains(t))
    &&& (args.member("path_prefix"@) matches Some(JsonModel::String(t)) ==> lies_under(id, t))
    &&& (args.member("query"@) matches Some(JsonModel::String(t)) ==> speaks_of(id, raw, b, t))
}

/// What a listing asks of a document.
pub open spec fn asked_of_list(args: JsonModel, id: Seq<char>) -> bool {
    (args.member("path_prefix"@) matches Some(JsonModel::String(t)) ==> lies_under(id, t))
}

/// One result: the document `id` with its type, title, tags, hash and link.
pub open spec fn shows(v: JsonModel, id: Seq<char>, raw: Seq<char>, b: Budget) -> bool {
    let d = parsed(raw, b)->Ok_0;
    &&& v.member("concept_id"@) == Some(JsonModel::String(id))
    &&& v.member("type"@) == Some(JsonModel::String(d.doc_type))
    &&& v.member("title"@) == Some(
        match d.title {
            Some(t) => JsonModel::String(t),
            None => JsonModel::Null,
        },
    )
    &&& v.member("tags"@) == Some(
        JsonModel::Array(Seq::new(d.tags.len(), |i: int| JsonModel::String(d.tags[i]))),
    )
    &&& v.member("uri"@) == Some(JsonModel::String("okf://"@ + id))
    &&& v.member("hash"@) == Some(JsonModel::String(hex(crate::sha256::content_hash(raw))))
}

/// A result of a search: a live document that has what was asked for.
pub open spec fn is_right(s: StoreModel, args: JsonModel, b: Budget, v: JsonModel) -> bool {
    exists|id: Seq<char>, raw: Seq<char>| #[trigger]
        holds_document(s, id, raw) && parsed(raw, b) is Ok && shows(v, id, raw, b) && asked_for(
            args,
            b,
            id,
            raw,
        )
}

/// An entry of a listing: a live document under the path.
pub open spec fn is_listed_rightly(s: StoreModel, args: JsonModel, b: Budget, v: JsonModel) -> bool {
    exists|id: Seq<char>, raw: Seq<char>| #[trigger]
        holds_document(s, id, raw) && parsed(raw, b) is Ok && shows(v, id, raw, b)
            && asked_of_list(args, id)
}

/// The list of results, and their number.
pub open spec fn results(r: ToolAnswer) -> Seq<JsonModel> {
    r->Ok_0.member("results"@)->0->Array_0
}

/// The reply lists something, and says how much.
pub open spec fn lists(r: ToolAnswer) -> bool {
    &&& r is Ok
    &&& r->Ok_0.member("results"@) is Some
    &&& r->Ok_0.member("results"@)->0 is Array
    &&& r->Ok_0.member("count"@) == Some(number(results(r).len()))
}

/// Fewer results than there may be.
pub open spec fn has_room(args: JsonModel, b: Budget, r: ToolAnswer) -> bool {
    &&& results(r).len() < b.max_search_results
    &&& args.member("limit"@) is Some ==> args.member("limit"@)->0 is Null || (
    args.member("limit"@)->0.whole() is Some && results(r).len()
        < args.member("limit"@)->0.whole()->0 as usize)
}

pub proof fn lemma_hit_members(m: HitModel)
    ensures
        ({
            let v = <SearchHit as Shown>::json(m);
            &&& v.member("concept_id"@) == Some(JsonModel::String(m.concept_id))
            &&& v.member("type"@) == Some(JsonModel::String(m.doc_type))
            &&& v.member("title"@) == Some(opt_text(m.title))
            &&& v.member("tags"@) == Some(texts(m.tags))
            &&& v.member("uri"@) == Some(JsonModel::String("okf://"@ + m.concept_id))
            &&& v.member("hash"@) == Some(JsonModel::String(hex(m.content_id)))
        }),
{
    broadcast use group_members;

    reveal_strlit("concept_id");
    reveal_strlit("hash");
    reveal_strlit("type");
    reveal_strlit("title");
    reveal_strlit("tags");
    reveal_strlit("uri");
    assert("hash"@[0] != "type"@[0] && "hash"@[0] != "tags"@[0] && "type"@[1] != "tags"@[1]);
}

proof fn lemma_hits_members(hits: Seq<HitModel>)
    ensures
        ({
            let v = crate::replies::hits_json(hits);
            &&& v.member("results"@) == Some(list_json::<SearchHit>(hits))
            &&& v.member("count"@) == Some(number(hits.len()))
        }),
{
    broadcast use group_members;

    reveal_strlit("results");
    reveal_strlit("count");
}

pub proof fn lemma_under(id: Seq<char>, path: Seq<char>)
    ensures
        crate::store::under(id, path) <==> lies_under(id, path),
{
    reveal_strlit("/");
    let p = path + "/"@;
    if crate::store::under(id, path) && id != path {
        assert(id.subrange(0, p.len() as int) =~= p);
    }
    if p.is_prefix_of(id) {
        assert(id.subrange(0, p.len() as int) == p);
        assert(id.subrange(0, path.len() as int) =~= path) by {
            assert forall|k: int| 0 <= k < path.len() implies id[k] == path[k] by {
                assert(id.subrange(0, p.len() as int)[k] == p[k]);
            }
        }
        assert(id[path.len() as int] == p[path.len() as int]);
    }
}

pub proof fn lemma_occurs(part: Seq<char>, s: Seq<char>)
    ensures
        crate::text::holds(s, part) <==> occurs(part, s),
{
    if crate::text::holds(s, part) {
        let i = choose|i: int| #[trigger] crate::text::at(s, i, part);
        assert(s.subrange(i, i + part.len()) == part);
    }
    if occurs(part, s) {
        let i = choose|i: int|
            0 <= i <= s.len() - part.len() && #[trigger] s.subrange(i, i + part.len()) == part;
        assert(crate::text::at(s, i, part));
    }
}

/// A head that is live serves the document with its id and text.
pub proof fn lemma_served(s: StoreModel, i: int, b: Budget)
    requires
        store_ok(s),
        0 <= i < s.heads.len(),
        !s.heads[i].1.deleted,
        served(s, s.heads[i].1, b) is Ok,
    ensures
        ({
            let d = served(s, s.heads[i].1, b)->Ok_0;
            &&& holds_document(s, s.heads[i].0, d.raw)
            &&& d.concept_id == s.heads[i].0
            &&& parsed(d.raw, b) is Ok
            &&& d.doc_type == parsed(d.raw, b)->Ok_0.doc_type
            &&& d.title == parsed(d.raw, b)->Ok_0.title
            &&& d.tags == parsed(d.raw, b)->Ok_0.tags
            &&& hex(d.content_id) == hex(crate::sha256::content_hash(d.raw))
        }),
{
    let h = s.heads[i].1;
    let k = hex(h.content_id);
    let j = crate::table::rank(s.blobs, k) as int;
    crate::table::lemma_rank(s.blobs, k);
    assert(s.blobs[j].0 == k);
    assert(s.blobs[j] == (k, s.blobs[j].1));
    assert(s.heads[i].1.id == s.heads[i].0);
}

/// Two texts of one live document are the same.
proof fn lemma_one_text(s: StoreModel, id: Seq<char>, raw: Seq<char>, b: Budget)
    requires
        store_ok(s),
        holds_document(s, id, raw),
    ensures
        exists|i: int|
            0 <= i < s.heads.len() && (#[trigger] s.heads[i]).0 == id && !s.heads[i].1.deleted
                && lookup(s.blobs, hex(s.heads[i].1.content_id)) == Some(raw),
{
    let (i, j) = choose|i: int, j: int|
        0 <= i < s.heads.len() && 0 <= j < s.blobs.len() && (#[trigger] s.heads[i]).0 == id
            && !s.heads[i].1.deleted && #[trigger] s.blobs[j] == (
            hex(s.heads[i].1.content_id),
            raw,
        );
    lemma_has(s.blobs, j);
    assert(s.heads[i].0 == id);
}

/// What passes the query has what the arguments ask for, and the other way
/// round.
proof fn lemma_asked(s: StoreModel, i: int, args: JsonModel, b: Budget)
    requires
        store_ok(s),
        0 <= i < s.heads.len(),
        !s.heads[i].1.deleted,
        served(s, s.heads[i].1, b) is Ok,
        search_query(args) is Ok,
    ensures
        ({
            let q = search_query(args)->Ok_0;
            let d = served(s, s.heads[i].1, b)->Ok_0;
            (in_scope(s.heads[i].1, q.path_prefix) && passes(d, q)) <==> asked_for(
                args,
                b,
                s.heads[i].0,
                d.raw,
            )
        }),
{
    let q = search_query(args)->Ok_0;
    let d = served(s, s.heads[i].1, b)->Ok_0;
    let id = s.heads[i].0;
    lemma_served(s, i, b);
    assert(s.heads[i].1.id == id);
    if q.path_prefix is Some {
        lemma_under(id, q.path_prefix->0);
    }
    if q.text is Some {
        let t = lowercase(q.text->0);
        lemma_occurs(t, id);
        lemma_occurs(t, lowercase(d.raw));
        if d.title is Some {
            lemma_occurs(t, lowercase(d.title->0));
        }
        assert forall|k: int| 0 <= k < d.tags.len() implies crate::text::holds(
            lowercase(#[trigger] d.tags[k]),
            t,
        ) == occurs(t, lowercase(d.tags[k])) by {
            lemma_occurs(t, lowercase(d.tags[k]));
        }
        assert(crate::memory::tag_holds(d.tags, t) <==> exists|k: int|
            0 <= k < d.tags.len() && occurs(t, lowercase(#[trigger] d.tags[k])));
    }
    assert(args.member("type"@) == Some(JsonModel::String(q.doc_type->0)) || q.doc_type is None);
    assert(args.member("not_type"@) == Some(JsonModel::String(q.exclude_type->0))
        || q.exclude_type is None);
    assert(args.member("tag"@) == Some(JsonModel::String(q.tag->0)) || q.tag is None);
    assert(args.member("path_prefix"@) == Some(JsonModel::String(q.path_prefix->0))
        || q.path_prefix is None);
    assert(args.member("query"@) == Some(JsonModel::String(q.text->0)) || q.text is None);
}

/// The same of a listing.
proof fn lemma_asked_of_list(s: StoreModel, i: int, args: JsonModel, b: Budget)
    requires
        store_ok(s),
        0 <= i < s.heads.len(),
        !s.heads[i].1.deleted,
        served(s, s.heads[i].1, b) is Ok,
        list_query(args) is Ok,
    ensures
        ({
            let q = list_query(args)->Ok_0;
            let d = served(s, s.heads[i].1, b)->Ok_0;
            (in_scope(s.heads[i].1, q.path_prefix) && passes(d, q)) <==> asked_of_list(
                args,
                s.heads[i].0,
            )
        }),
{
    let q = list_query(args)->Ok_0;
    assert(s.heads[i].1.id == s.heads[i].0);
    if q.path_prefix is Some {
        lemma_under(s.heads[i].0, q.path_prefix->0);
    }
    assert(args.member("path_prefix"@) == Some(JsonModel::String(q.path_prefix->0))
        || q.path_prefix is None);
}

/// A search that still has room found every head from `i` on that passes, and
/// kept what it had.
proof fn lemma_found_all(
    s: StoreModel,
    q: QueryModel,
    b: Budget,
    i: int,
    hits: Seq<HitModel>,
    k: int,
)
    requires
        0 <= i <= s.heads.len(),
        found_from(s, q, b, i, hits) is Ok,
        found_from(s, q, b, i, hits)->Ok_0.len() < search_limit(q, b),
        0 <= k < s.heads.len(),
        in_scope(s.heads[k].1, q.path_prefix),
    ensures
        forall|x: HitModel|
            hits.contains(x) ==> (#[trigger] found_from(s, q, b, i, hits)->Ok_0.contains(x)),
        i <= k ==> served(s, s.heads[k].1, b) is Ok && (passes(
            served(s, s.heads[k].1, b)->Ok_0,
            q,
        ) ==> found_from(s, q, b, i, hits)->Ok_0.contains(
            crate::store::hit_of(served(s, s.heads[k].1, b)->Ok_0),
        )),
    decreases s.heads.len() - i,
{
    lemma_found_longer(s, q, b, i, hits);
    if i < s.heads.len() {
        let h = s.heads[i].1;
        if !in_scope(h, q.path_prefix) {
            lemma_found_all(s, q, b, i + 1, hits, k);
        } else {
            let d = served(s, h, b)->Ok_0;
            if passes(d, q) {
                let more = hits.push(crate::store::hit_of(d));
                lemma_found_all(s, q, b, i + 1, more, k);
                assert(more[hits.len() as int] == crate::store::hit_of(d));
                assert forall|x: HitModel| hits.contains(x) implies more.contains(x) by {
                    let n = choose|n: int| 0 <= n < hits.len() && hits[n] == x;
                    assert(more[n] == x);
                }
            } else {
                lemma_found_all(s, q, b, i + 1, hits, k);
            }
        }
    }
}

proof fn lemma_found_longer(s: StoreModel, q: QueryModel, b: Budget, i: int, hits: Seq<HitModel>)
    requires
        0 <= i <= s.heads.len(),
        found_from(s, q, b, i, hits) is Ok,
    ensures
        found_from(s, q, b, i, hits)->Ok_0.len() >= hits.len(),
    decreases s.heads.len() - i,
{
    if i < s.heads.len() && hits.len() < search_limit(q, b) {
        let h = s.heads[i].1;
        if !in_scope(h, q.path_prefix) {
            lemma_found_longer(s, q, b, i + 1, hits);
        } else if passes(served(s, h, b)->Ok_0, q) {
            lemma_found_longer(
                s,
                q,
                b,
                i + 1,
                hits.push(crate::store::hit_of(served(s, h, b)->Ok_0)),
            );
        } else {
            lemma_found_longer(s, q, b, i + 1, hits);
        }
    }
}

/// A hit shows the document that it is about.
proof fn lemma_hit_shows(s: StoreModel, q: QueryModel, b: Budget, hits: Seq<HitModel>, k: int) -> (i:
    int)
    requires
        store_ok(s),
        found(s, q, b) == Answer::<Seq<HitModel>>::Ok(hits),
        0 <= k < hits.len(),
    ensures
        0 <= i < s.heads.len(),
        !s.heads[i].1.deleted,
        served(s, s.heads[i].1, b) is Ok,
        in_scope(s.heads[i].1, q.path_prefix),
        passes(served(s, s.heads[i].1, b)->Ok_0, q),
        shows(
            <SearchHit as Shown>::json(hits[k]),
            s.heads[i].0,
            served(s, s.heads[i].1, b)->Ok_0.raw,
            b,
        ),
{
    law_search_lists_only_what_matches(s, q, b);
    let id = hits[k].concept_id;
    let i = crate::table::rank(s.heads, id) as int;
    crate::table::lemma_rank(s.heads, id);
    assert(live(s, id) == Some(s.heads[i].1));
    lemma_served(s, i, b);
    lemma_hit_members(hits[k]);
    let d = served(s, s.heads[i].1, b)->Ok_0;
    assert(texts(d.tags)->Array_0 =~= Seq::new(
        d.tags.len(),
        |n: int| JsonModel::String(d.tags[n]),
    ));
    i
}

proof fn lemma_is_right(
    s: StoreModel,
    args: JsonModel,
    b: Budget,
    hits: Seq<HitModel>,
    k: int,
)
    requires
        store_ok(s),
        search_query(args) is Ok,
        found(s, search_query(args)->Ok_0, b) == Answer::<Seq<HitModel>>::Ok(hits),
        0 <= k < hits.len(),
    ensures
        is_right(s, args, b, <SearchHit as Shown>::json(hits[k])),
{
    let i = lemma_hit_shows(s, search_query(args)->Ok_0, b, hits, k);
    lemma_served(s, i, b);
    lemma_asked(s, i, args, b);
    let raw = served(s, s.heads[i].1, b)->Ok_0.raw;
    assert(holds_document(s, s.heads[i].0, raw));
}

proof fn lemma_is_listed_rightly(
    s: StoreModel,
    args: JsonModel,
    b: Budget,
    hits: Seq<HitModel>,
    k: int,
)
    requires
        store_ok(s),
        list_query(args) is Ok,
        found(s, list_query(args)->Ok_0, b) == Answer::<Seq<HitModel>>::Ok(hits),
        0 <= k < hits.len(),
    ensures
        is_listed_rightly(s, args, b, <SearchHit as Shown>::json(hits[k])),
{
    let i = lemma_hit_shows(s, list_query(args)->Ok_0, b, hits, k);
    lemma_served(s, i, b);
    lemma_asked_of_list(s, i, args, b);
    let raw = served(s, s.heads[i].1, b)->Ok_0.raw;
    assert(holds_document(s, s.heads[i].0, raw));
}

/// Every result of `memory_search` is a live document that has what each
/// argument asks for, shown as it is; and there are no more than the limits
/// allow.
pub proof fn law_searches_give_what_was_asked(
    repo: InMemoryStore,
    b: Budget,
    args: JsonModel,
    r: ToolAnswer,
)
    requires
        store_ok(repo@),
        search_tool(repo, b, args, r),
        r is Ok,
    ensures
        lists(r),
        results(r).len() <= b.max_search_results,
        args.member("limit"@) is Some && args.member("limit"@)->0.whole() is Some ==> results(
            r,
        ).len() <= args.member("limit"@)->0.whole()->0 as usize,
        forall|k: int|
            0 <= k < results(r).len() ==> is_right(repo@, args, b, #[trigger] results(r)[k]),
{
    let s = repo@;
    let q = search_query(args)->Ok_0;
    let hits = found(s, q, b)->Ok_0;
    law_search_lists_only_what_matches(s, q, b);
    lemma_hits_members(hits);
    assert(results(r) =~= list_json::<SearchHit>(hits)->Array_0);
    assert forall|k: int| 0 <= k < results(r).len() implies is_right(
        s,
        args,
        b,
        #[trigger] results(r)[k],
    ) by {
        lemma_is_right(s, args, b, hits, k);
    }
}

/// A search that did not reach its limits lists every live document that has
/// what the arguments ask for.
pub proof fn law_searches_miss_nothing(
    repo: InMemoryStore,
    b: Budget,
    args: JsonModel,
    r: ToolAnswer,
    id: Seq<char>,
    raw: Seq<char>,
)
    requires
        store_ok(repo@),
        search_tool(repo, b, args, r),
        r is Ok,
        has_room(args, b, r),
        holds_document(repo@, id, raw),
        parsed(raw, b) is Ok,
        asked_for(args, b, id, raw),
    ensures
        exists|k: int|
            0 <= k < results(r).len() && shows(#[trigger] results(r)[k], id, raw, b),
{
    let s = repo@;
    let q = search_query(args)->Ok_0;
    let hits = found(s, q, b)->Ok_0;
    lemma_hits_members(hits);
    lemma_one_text(s, id, raw, b);
    let i = choose|i: int|
        0 <= i < s.heads.len() && (#[trigger] s.heads[i]).0 == id && !s.heads[i].1.deleted
            && lookup(s.blobs, hex(s.heads[i].1.content_id)) == Some(raw);
    lemma_asked(s, i, args, b);
    lemma_listed(s, q, b, hits, i);
    let x = crate::store::hit_of(served(s, s.heads[i].1, b)->Ok_0);
    let k = choose|k: int| 0 <= k < hits.len() && hits[k] == x;
    assert(shows(results(r)[k], id, raw, b));
}

proof fn lemma_listed(s: StoreModel, q: QueryModel, b: Budget, hits: Seq<HitModel>, i: int)
    requires
        store_ok(s),
        found(s, q, b) == Answer::<Seq<HitModel>>::Ok(hits),
        hits.len() < search_limit(q, b),
        0 <= i < s.heads.len(),
        in_scope(s.heads[i].1, q.path_prefix),
        served(s, s.heads[i].1, b) is Ok,
        passes(served(s, s.heads[i].1, b)->Ok_0, q),
    ensures
        hits.contains(crate::store::hit_of(served(s, s.heads[i].1, b)->Ok_0)),
        shows(
            <SearchHit as Shown>::json(crate::store::hit_of(served(s, s.heads[i].1, b)->Ok_0)),
            s.heads[i].0,
            served(s, s.heads[i].1, b)->Ok_0.raw,
            b,
        ),
{
    lemma_found_all(s, q, b, 0, Seq::empty(), i);
    let d = served(s, s.heads[i].1, b)->Ok_0;
    lemma_served(s, i, b);
    lemma_hit_members(crate::store::hit_of(d));
    assert(texts(d.tags)->Array_0 =~= Seq::new(
        d.tags.len(),
        |n: int| JsonModel::String(d.tags[n]),
    ));
}

/// Every result of `memory_list` is a live document under the path.
pub proof fn law_listings_give_what_was_asked(
    repo: InMemoryStore,
    b: Budget,
    args: JsonModel,
    r: ToolAnswer,
)
    requires
        store_ok(repo@),
        list_tool(repo, b, args, r),
        r is Ok,
    ensures
        lists(r),
        results(r).len() <= b.max_search_results,
        args.member("limit"@) is Some && args.member("limit"@)->0.whole() is Some ==> results(
            r,
        ).len() <= args.member("limit"@)->0.whole()->0 as usize,
        forall|k: int|
            0 <= k < results(r).len() ==> is_listed_rightly(
                repo@,
                args,
                b,
                #[trigger] results(r)[k],
            ),
{
    let s = repo@;
    let q = list_query(args)->Ok_0;
    let hits = found(s, q, b)->Ok_0;
    law_search_lists_only_what_matches(s, q, b);
    lemma_hits_members(hits);
    assert(results(r) =~= list_json::<SearchHit>(hits)->Array_0);
    assert forall|k: int| 0 <= k < results(r).len() implies is_listed_rightly(
        s,
        args,
        b,
        #[trigger] results(r)[k],
    ) by {
        lemma_is_listed_rightly(s, args, b, hits, k);
    }
}

/// A listing that did not reach its limits lists every live document under the
/// path.
pub proof fn law_listings_miss_nothing(
    repo: InMemoryStore,
    b: Budget,
    args: JsonModel,
    r: ToolAnswer,
    id: Seq<char>,
    raw: Seq<char>,
)
    requires
        store_ok(repo@),
        list_tool(repo, b, args, r),
        r is Ok,
        has_room(args, b, r),
        holds_document(repo@, id, raw),
        parsed(raw, b) is Ok,
        asked_of_list(args, id),
    ensures
        exists|k: int|
            0 <= k < results(r).len() && shows(#[trigger] results(r)[k], id, raw, b),
{
    let s = repo@;
    let q = list_query(args)->Ok_0;
    let hits = found(s, q, b)->Ok_0;
    lemma_hits_members(hits);
    lemma_one_text(s, id, raw, b);
    let i = choose|i: int|
        0 <= i < s.heads.len() && (#[trigger] s.heads[i]).0 == id && !s.heads[i].1.deleted
            && lookup(s.blobs, hex(s.heads[i].1.content_id)) == Some(raw);
    lemma_asked_of_list(s, i, args, b);
    lemma_listed(s, q, b, hits, i);
    let x = crate::store::hit_of(served(s, s.heads[i].1, b)->Ok_0);
    let k = choose|k: int| 0 <= k < hits.len() && hits[k] == x;
    assert(shows(results(r)[k], id, raw, b));
}

} // verus!

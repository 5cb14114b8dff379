//! What writing and deleting leave behind, and what the history tells of it.

use vstd::prelude::*;
use crate::json::{number, JsonModel};
use crate::mcp::ToolAnswer;
use crate::member_laws::group_members;
use crate::memory::{
    buried, committed, hash_of, live, store_ok, HeadModel, InMemoryStore, StoreModel,
};
use crate::memory_laws::{collision_free, lemma_kept};
use crate::model::{hex, unhex, Budget, PrincipalModel, RevisionModel};
use crate::okf::parsed;
use crate::replies::outcome_json;
use crate::repo::{Answer, MemoryRepository};
use crate::search_laws::holds_document;
use crate::sha256::content_hash;
use crate::store::{DeleteModel, OutcomeModel, RequestModel};
use crate::table::{lemma_has, lemma_lookup_put, lemma_rank, lookup, present, rank};
use crate::writing::{commit_tool, delete_tool};

verus! {

/// The live document `id` of a store has this hash.
pub open spec fn has_hash(s: StoreModel, id: Seq<char>, hash: Seq<u8>) -> bool {
    exists|i: int|
        0 <= i < s.heads.len() && (#[trigger] s.heads[i]).0 == id && !s.heads[i].1.deleted
            && s.heads[i].1.content_id == hash
}

/// There is a live document `id`.
pub open spec fn is_live(s: StoreModel, id: Seq<char>) -> bool {
    exists|i: int| 0 <= i < s.heads.len() && (#[trigger] s.heads[i]).0 == id && !s.heads[i].1.deleted
}

/// Every document but `id` is as it was.
pub open spec fn others_stay(s: StoreModel, t: StoreModel, id: Seq<char>) -> bool {
    forall|k: Seq<char>, raw: Seq<char>|
        k != id ==> (#[trigger] holds_document(t, k, raw) <==> holds_document(s, k, raw))
}

pub proof fn lemma_live(s: StoreModel, id: Seq<char>)
    requires
        store_ok(s),
    ensures
        is_live(s, id) <==> live(s, id) is Some,
        forall|h: Seq<u8>| #[trigger] has_hash(s, id, h) <==> hash_of(live(s, id)) == Some(h),
        live(s, id) is Some ==> live(s, id)->0.id == id,
{
    lemma_rank(s.heads, id);
    if present(s.heads, id) {
        let i = rank(s.heads, id) as int;
        assert(s.heads[i].0 == id);
        assert(s.heads[i].1.id == id);
    }
    assert forall|i: int| 0 <= i < s.heads.len() && (#[trigger] s.heads[i]).0 == id implies lookup(
        s.heads,
        id,
    ) == Some(s.heads[i].1) by {
        lemma_has(s.heads, i);
    }
}

pub proof fn lemma_holds(s: StoreModel, id: Seq<char>, raw: Seq<char>)
    requires
        store_ok(s),
    ensures
        holds_document(s, id, raw) <==> live(s, id) is Some && lookup(
            s.blobs,
            hex(live(s, id)->0.content_id),
        ) == Some(raw),
{
    lemma_live(s, id);
    if holds_document(s, id, raw) {
        let (i, j) = choose|i: int, j: int|
            0 <= i < s.heads.len() && 0 <= j < s.blobs.len() && (#[trigger] s.heads[i]).0 == id
                && !s.heads[i].1.deleted && #[trigger] s.blobs[j] == (
                hex(s.heads[i].1.content_id),
                raw,
            );
        lemma_has(s.heads, i);
        lemma_has(s.blobs, j);
    }
    if live(s, id) is Some {
        let k = hex(live(s, id)->0.content_id);
        lemma_rank(s.heads, id);
        lemma_rank(s.blobs, k);
        if lookup(s.blobs, k) == Some(raw) {
            let i = rank(s.heads, id) as int;
            let j = rank(s.blobs, k) as int;
            assert(s.heads[i].0 == id && s.blobs[j] == (k, raw));
        }
    }
}

/// What a write does: nothing where the document has this text already; else
/// one revision more, by a writer that had read the head. The document then
/// has the text, and the others are as they were.
pub open spec fn wrote(
    s: StoreModel,
    t: StoreModel,
    id: Seq<char>,
    expected: Option<Seq<u8>>,
    text: Seq<char>,
    reason: Seq<char>,
    actor: PrincipalModel,
) -> bool {
    let hash = content_hash(text);
    &&& has_hash(t, id, hash)
    &&& collision_free(s, text) ==> holds_document(t, id, text)
    &&& others_stay(s, t, id)
    &&& has_hash(s, id, hash) ==> t == s
    &&& !has_hash(s, id, hash) ==> {
        &&& expected is None ==> !is_live(s, id)
        &&& expected is Some ==> has_hash(s, id, expected->0)
        &&& t.revisions == s.revisions.push(
            RevisionModel {
                seq: s.revisions.len() + 1,
                concept_id: id,
                base: expected,
                result: hash,
                actor,
                reason,
            },
        )
    }
}

/// What a write answers.
pub open spec fn says_written(
    s: StoreModel,
    t: StoreModel,
    id: Seq<char>,
    text: Seq<char>,
    reply: JsonModel,
) -> bool {
    let hash = content_hash(text);
    &&& reply.member("concept_id"@) == Some(JsonModel::String(id))
    &&& reply.member("hash"@) == Some(JsonModel::String(hex(hash)))
    &&& reply.member("no_change"@) == Some(JsonModel::Bool(has_hash(s, id, hash)))
    &&& reply.member("created"@) == Some(JsonModel::Bool(!is_live(s, id)))
    &&& reply.member("revision_seq"@) == Some(
        if has_hash(s, id, hash) {
            JsonModel::Null
        } else {
            number(s.revisions.len() + 1)
        },
    )
    &&& exists|i: int|
        0 <= i < t.heads.len() && (#[trigger] t.heads[i]).0 == id && reply.member("version"@)
            == Some(number(t.heads[i].1.version))
}

pub proof fn lemma_outcome_members(id: Seq<char>, o: OutcomeModel)
    ensures
        ({
            let v = outcome_json(id, o);
            &&& v.member("concept_id"@) == Some(JsonModel::String(id))
            &&& v.member("hash"@) == Some(JsonModel::String(hex(o.content_id)))
            &&& v.member("version"@) == Some(number(o.version))
            &&& v.member("created"@) == Some(JsonModel::Bool(o.created))
            &&& v.member("no_change"@) == Some(JsonModel::Bool(o.no_change))
            &&& v.member("revision_seq"@) == Some(
                match o.revision {
                    Some(x) => number(x.seq as nat),
                    None => JsonModel::Null,
                },
            )
        }),
{
    broadcast use group_members;

    reveal_strlit("concept_id");
    reveal_strlit("hash");
    reveal_strlit("version");
    reveal_strlit("created");
    reveal_strlit("no_change");
    reveal_strlit("revision_seq");
    reveal_strlit("warnings");
    assert("version"@[0] != "created"@[0]);
}

/// A commit that succeeds writes.
pub proof fn lemma_wrote(s: StoreModel, req: RequestModel, actor: PrincipalModel, b: Budget)
    requires
        store_ok(s),
        committed(s, req, actor, b).1 is Ok,
    ensures
        ({
            let (t, r) = committed(s, req, actor, b);
            &&& store_ok(t)
            &&& wrote(s, t, req.concept_id, req.expected, req.markdown, req.reason, actor)
            &&& says_written(
                s,
                t,
                req.concept_id,
                req.markdown,
                outcome_json(req.concept_id, r->Ok_0),
            )
            &&& parsed(req.markdown, b) is Ok
        }),
{
    let (t, r) = committed(s, req, actor, b);
    let id = req.concept_id;
    let hash = content_hash(req.markdown);
    crate::memory::law_commit_keeps_the_store_sound(s, req, actor, b);
    lemma_live(s, id);
    lemma_live(t, id);
    lemma_outcome_members(id, r->Ok_0);
    lemma_rank(t.heads, id);
    if has_hash(s, id, hash) {
        let i = rank(t.heads, id) as int;
        assert(t.heads[i].0 == id);
    } else {
        let version: nat = match lookup(s.heads, id) {
            Some(h) => h.version + 1,
            None => 1,
        };
        let h = HeadModel { id, content_id: hash, version, deleted: false };
        lemma_lookup_put(s.heads, id, h, id);
        let i = rank(t.heads, id) as int;
        assert(t.heads[i].0 == id);
        assert(t.heads[i].1 == h);
        assert forall|k: Seq<char>, raw: Seq<char>| k != id implies (#[trigger] holds_document(
            t,
            k,
            raw,
        ) <==> holds_document(s, k, raw)) by {
            lemma_holds(s, k, raw);
            lemma_holds(t, k, raw);
            lemma_lookup_put(s.heads, id, h, k);
            if live(s, k) is Some {
                lemma_rank(s.heads, k);
                assert(present(s.blobs, hex(s.heads[rank(s.heads, k) as int].1.content_id)));
                lemma_lookup_put(
                    s.blobs,
                    hex(hash),
                    req.markdown,
                    hex(live(s, k)->0.content_id),
                );
            }
        }
    }
    if collision_free(s, req.markdown) {
        lemma_holds(t, id, req.markdown);
        lemma_kept_text(s, t, req.markdown, hash);
    }
}

/// A text under its hash is kept, where no other text has that hash.
proof fn lemma_kept_text(s: StoreModel, t: StoreModel, text: Seq<char>, hash: Seq<u8>)
    requires
        store_ok(s),
        store_ok(t),
        hash == content_hash(text),
        collision_free(s, text),
        t.blobs == s.blobs && present(s.blobs, hex(hash)) || t.blobs == crate::table::put(
            s.blobs,
            hex(hash),
            text,
        ),
    ensures
        lookup(t.blobs, hex(hash)) == Some(text),
{
    lemma_lookup_put(s.blobs, hex(hash), text, hex(hash));
    if present(s.blobs, hex(hash)) {
        lemma_kept(s, text);
    }
}

/// The hash that a member names, if it names one.
pub open spec fn named_hash(v: Option<JsonModel>) -> Option<Seq<u8>> {
    match v {
        Some(JsonModel::String(h)) => unhex(h),
        _ => None,
    }
}

/// `memory_commit` writes the text it is given under the id it is given, for
/// the reason it is given, by a writer that had read the hash it names.
pub proof fn law_commits_write_what_they_are_given(
    pre: InMemoryStore,
    actor: PrincipalModel,
    b: Budget,
    args: JsonModel,
    post: InMemoryStore,
    r: ToolAnswer,
    id: Seq<char>,
    text: Seq<char>,
    reason: Seq<char>,
)
    requires
        store_ok(pre@),
        commit_tool(pre, actor, b, args, post, r),
        r is Ok,
        args.member("concept_id"@) == Some(JsonModel::String(id)),
        args.member("markdown"@) == Some(JsonModel::String(text)),
        args.member("reason"@) == Some(JsonModel::String(reason)),
        args.member("dry_run"@) != Some(JsonModel::Bool(true)),
    ensures
        parsed(text, b) is Ok,
        wrote(pre@, post@, id, named_hash(args.member("expected_hash"@)), text, reason, actor),
        says_written(pre@, post@, id, text, r->Ok_0),
{
    let req = crate::writing::commit_args(args)->Ok_0;
    let a = choose|a: Answer<OutcomeModel>| #[trigger]
        <InMemoryStore as MemoryRepository>::commit_rel(pre, req, actor, b, post, a) && r
            == crate::writing::outcome_answer(id, a);
    lemma_wrote(pre@, req, actor, b);
}

/// A commit goes through where its arguments are of their kinds, the document
/// is valid, and the hash named is that of the live document, or none is named
/// and there is none.
pub proof fn law_commits_go_through(
    pre: InMemoryStore,
    actor: PrincipalModel,
    b: Budget,
    args: JsonModel,
    post: InMemoryStore,
    r: ToolAnswer,
    id: Seq<char>,
    text: Seq<char>,
    reason: Seq<char>,
)
    requires
        store_ok(pre@),
        commit_tool(pre, actor, b, args, post, r),
        args.member("concept_id"@) == Some(JsonModel::String(id)),
        args.member("markdown"@) == Some(JsonModel::String(text)),
        args.member("reason"@) == Some(JsonModel::String(reason)),
        args.member("dry_run"@) != Some(JsonModel::Bool(true)),
        crate::model::id_error(id) is None,
        parsed(text, b) is Ok,
        match args.member("expected_hash"@) {
            Some(JsonModel::String(h)) => unhex(h) is Some && has_hash(pre@, id, unhex(h)->0),
            Some(JsonModel::Null) | None => !is_live(pre@, id),
            _ => false,
        },
    ensures
        r is Ok,
{
    lemma_live(pre@, id);
    let req = crate::writing::commit_args(args)->Ok_0;
    let a = choose|a: Answer<OutcomeModel>| #[trigger]
        <InMemoryStore as MemoryRepository>::commit_rel(pre, req, actor, b, post, a) && r
            == crate::writing::outcome_answer(id, a);
}

/// `memory_delete` takes the document it is given away, and no other, where its
/// hash is the one that is named; and it keeps the history.
pub proof fn law_deletions_take_away_what_they_are_given(
    pre: InMemoryStore,
    actor: PrincipalModel,
    args: JsonModel,
    post: InMemoryStore,
    r: ToolAnswer,
    id: Seq<char>,
    h: Seq<char>,
    reason: Seq<char>,
)
    requires
        store_ok(pre@),
        delete_tool(pre, actor, args, post, r),
        r is Ok,
        args.member("concept_id"@) == Some(JsonModel::String(id)),
        args.member("expected_hash"@) == Some(JsonModel::String(h)),
        args.member("reason"@) == Some(JsonModel::String(reason)),
    ensures
        unhex(h) is Some,
        has_hash(pre@, id, unhex(h)->0),
        !is_live(post@, id),
        others_stay(pre@, post@, id),
        post@.revisions == pre@.revisions.push(
            RevisionModel {
                seq: pre@.revisions.len() + 1,
                concept_id: id,
                base: unhex(h),
                result: unhex(h)->0,
                actor,
                reason,
            },
        ),
        r->Ok_0.member("concept_id"@) == Some(JsonModel::String(id)),
        r->Ok_0.member("revision_seq"@) == Some(number(pre@.revisions.len() + 1)),
{
    broadcast use group_members;

    reveal_strlit("concept_id");
    reveal_strlit("hash");
    reveal_strlit("version");
    reveal_strlit("revision_seq");
    reveal_strlit("warnings");
    let d = crate::writing::delete_args(args)->Ok_0;
    let a = choose|a: Answer<DeleteModel>| #[trigger]
        <InMemoryStore as MemoryRepository>::delete_rel(
            pre,
            d.id,
            d.expected,
            actor,
            d.reason,
            post,
            a,
        ) && r == crate::writing::delete_answer(d.id, a);
    let s = pre@;
    let t = post@;
    let e = unhex(h)->0;
    assert((t, a) == buried(s, id, e, actor, reason));
    crate::memory::law_delete_keeps_the_store_sound(s, id, e, actor, reason);
    lemma_live(s, id);
    lemma_live(t, id);
    let gone = HeadModel { deleted: true, ..live(s, id)->0 };
    lemma_lookup_put(s.heads, id, gone, id);
    assert forall|k: Seq<char>, raw: Seq<char>| k != id implies (#[trigger] holds_document(
        t,
        k,
        raw,
    ) <==> holds_document(s, k, raw)) by {
        lemma_holds(s, k, raw);
        lemma_holds(t, k, raw);
        lemma_lookup_put(s.heads, id, gone, k);
    }
}

/// A dry run of `memory_commit` answers what the commit would, and writes
/// nothing: the hash, whether something changes, whether a document is new. It
/// succeeds only where the commit would go through.
pub proof fn law_dry_commits_foretell(
    pre: InMemoryStore,
    actor: PrincipalModel,
    b: Budget,
    args: JsonModel,
    post: InMemoryStore,
    r: ToolAnswer,
    id: Seq<char>,
    text: Seq<char>,
)
    requires
        store_ok(pre@),
        commit_tool(pre, actor, b, args, post, r),
        args.member("concept_id"@) == Some(JsonModel::String(id)),
        args.member("markdown"@) == Some(JsonModel::String(text)),
        args.member("dry_run"@) == Some(JsonModel::Bool(true)),
    ensures
        post == pre,
        r is Ok ==> ({
            let hash = content_hash(text);
            let expected = named_hash(args.member("expected_hash"@));
            let reply = r->Ok_0;
            &&& parsed(text, b) is Ok
            &&& has_hash(pre@, id, hash) || (match expected {
                Some(h) => has_hash(pre@, id, h),
                None => !is_live(pre@, id),
            })
            &&& reply.member("dry_run"@) == Some(JsonModel::Bool(true))
            &&& reply.member("concept_id"@) == Some(JsonModel::String(id))
            &&& reply.member("hash"@) == Some(JsonModel::String(hex(hash)))
            &&& reply.member("no_change"@) == Some(JsonModel::Bool(has_hash(pre@, id, hash)))
            &&& reply.member("created"@) == Some(JsonModel::Bool(!is_live(pre@, id)))
        }),
{
    if r is Ok {
        lemma_live(pre@, id);
        let req = crate::writing::commit_args(args)->Ok_0;
        let current = crate::memory::got(pre@, id)->Ok_0;
        assert(r == crate::writing::foreseen(id, req.expected, text, current));
        let version: nat = match current {
            Some(d) => d.version,
            None => 0,
        };
        lemma_dry_members(
            id,
            content_hash(text),
            crate::writing::next_version(version),
            current is None,
            has_hash(pre@, id, content_hash(text)),
        );
    }
}

proof fn lemma_dry_members(
    id: Seq<char>,
    hash: Seq<u8>,
    version: nat,
    created: bool,
    no_change: bool,
)
    ensures
        ({
            let v = crate::replies::dry_json(id, hash, version, created, no_change);
            &&& v.member("concept_id"@) == Some(JsonModel::String(id))
            &&& v.member("hash"@) == Some(JsonModel::String(hex(hash)))
            &&& v.member("created"@) == Some(JsonModel::Bool(created))
            &&& v.member("no_change"@) == Some(JsonModel::Bool(no_change))
            &&& v.member("dry_run"@) == Some(JsonModel::Bool(true))
        }),
{
    broadcast use group_members;

    reveal_strlit("concept_id");
    reveal_strlit("hash");
    reveal_strlit("version");
    reveal_strlit("created");
    reveal_strlit("no_change");
    reveal_strlit("revision_seq");
    reveal_strlit("dry_run");
    reveal_strlit("warnings");
    assert("version"@[0] != "created"@[0] && "version"@[0] != "dry_run"@[0]);
    assert("created"@[0] != "dry_run"@[0]);
}

} // verus!

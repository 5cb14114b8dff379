//! Laws of the store in memory: what a read gives back of a write, what a
//! refusal leaves, and what stays unchanged.

use vstd::prelude::*;
use crate::conflict::decision;
use crate::memory::{
    batched, buried, committed, default_budget, each, first_failure, found, found_from, got,
    hash_of, in_scope, item_of, leads_to, lemma_head_ok, live, passes, search_limit, served,
    store_ok, HeadModel, StoreModel,
};
use crate::model::{hex, lemma_hex_round_trip, Budget, PrincipalModel};
use crate::okf::parsed;
use crate::sha256::{content_hash, lemma_digest_len};
use crate::repo::Answer;
use crate::store::{
    hit_of, BulkItemModel, HitModel, OutcomeModel, QueryModel, RequestModel, StoreErrorModel,
};
use crate::table::{
    lemma_has, lemma_lookup_del, lemma_lookup_entry, lemma_lookup_put, lookup, present,
};

verus! {

/// No other text that the store keeps has the hash of this one.
pub open spec fn collision_free(s: StoreModel, text: Seq<char>) -> bool {
    forall|i: int|
        0 <= i < s.blobs.len() && content_hash((#[trigger] s.blobs[i]).1) == content_hash(text)
            ==> s.blobs[i].1 == text
}

proof fn lemma_hex_injective(a: Seq<u8>, b: Seq<u8>)
    requires
        a.len() == 32,
        b.len() == 32,
        hex(a) == hex(b),
    ensures
        a == b,
{
    lemma_hex_round_trip(a);
    lemma_hex_round_trip(b);
}

/// What is kept under the hash of a text is that text.
pub proof fn lemma_kept(s: StoreModel, text: Seq<char>)
    requires
        store_ok(s),
        collision_free(s, text),
        present(s.blobs, hex(content_hash(text))),
    ensures
        lookup(s.blobs, hex(content_hash(text))) == Some(text),
{
    let k = hex(content_hash(text));
    lemma_lookup_entry(s.blobs, k);
    let j = choose|j: int| 0 <= j < s.blobs.len() && s.blobs[j] == (k, lookup(s.blobs, k)->0);
    let t = s.blobs[j].1;
    assert(s.blobs[j].0 == hex(content_hash(t)));
    lemma_digest_len(vstd::utf8::encode_utf8(text));
    lemma_digest_len(vstd::utf8::encode_utf8(t));
    lemma_hex_injective(content_hash(t), content_hash(text));
}

/// A read gives back what a commit wrote: the very text, under its hash and
/// with the version that the commit answered.
pub proof fn law_read_your_write(
    s: StoreModel,
    req: RequestModel,
    actor: PrincipalModel,
    b: Budget,
)
    requires
        store_ok(s),
        committed(s, req, actor, b).1 is Ok,
        parsed(req.markdown, default_budget()) is Ok,
        collision_free(s, req.markdown),
    ensures
        ({
            let (t, r) = committed(s, req, actor, b);
            let d = got(t, req.concept_id);
            &&& d is Ok
            &&& d->Ok_0 is Some
            &&& d->Ok_0->0.concept_id == req.concept_id
            &&& d->Ok_0->0.raw == req.markdown
            &&& d->Ok_0->0.content_id == content_hash(req.markdown)
            &&& d->Ok_0->0.content_id == r->Ok_0.content_id
            &&& d->Ok_0->0.version == r->Ok_0.version
        }),
{
    let (t, r) = committed(s, req, actor, b);
    let id = req.concept_id;
    let incoming = content_hash(req.markdown);
    let head = live(s, id);
    crate::memory::law_commit_keeps_the_store_sound(s, req, actor, b);
    if decision(hash_of(head), req.expected, incoming) is NoChange {
        lemma_head_ok(s, id);
        lemma_kept(s, req.markdown);
    } else {
        let version: nat = match lookup(s.heads, id) {
            Some(h) => h.version + 1,
            None => 1,
        };
        let h = HeadModel { id, content_id: incoming, version, deleted: false };
        lemma_lookup_put(s.heads, id, h, id);
        if present(s.blobs, hex(incoming)) {
            lemma_kept(s, req.markdown);
        } else {
            lemma_lookup_put(s.blobs, hex(incoming), req.markdown, hex(incoming));
        }
    }
}

/// A commit leaves every other document as it was.
pub proof fn law_commit_leaves_others_alone(
    s: StoreModel,
    req: RequestModel,
    actor: PrincipalModel,
    b: Budget,
    q: Seq<char>,
)
    requires
        store_ok(s),
        q != req.concept_id,
    ensures
        got(committed(s, req, actor, b).0, q) == got(s, q),
        leads_to(committed(s, req, actor, b).0, q) == leads_to(s, q),
{
    let t = committed(s, req, actor, b).0;
    if t != s {
        let id = req.concept_id;
        let incoming = content_hash(req.markdown);
        let version: nat = match lookup(s.heads, id) {
            Some(h) => h.version + 1,
            None => 1,
        };
        let h = HeadModel { id, content_id: incoming, version, deleted: false };
        lemma_lookup_put(s.heads, id, h, q);
        lemma_lookup_put(s.links, id, parsed(req.markdown, b)->Ok_0.links, q);
        if present(s.heads, q) {
            lemma_head_ok(s, q);
            lemma_lookup_put(
                s.blobs,
                hex(incoming),
                req.markdown,
                hex(lookup(s.heads, q)->0.content_id),
            );
        }
    }
}

/// A refused commit, or one that changes nothing, leaves no trace.
pub proof fn law_refused_commit_leaves_no_trace(
    s: StoreModel,
    req: RequestModel,
    actor: PrincipalModel,
    b: Budget,
)
    requires
        committed(s, req, actor, b).1 is Err || committed(s, req, actor, b).1->Ok_0.no_change,
    ensures
        committed(s, req, actor, b).0 == s,
{
}

/// A document that is not valid is refused for that, whatever the head is.
pub proof fn law_invalid_documents_are_refused(
    s: StoreModel,
    req: RequestModel,
    actor: PrincipalModel,
    b: Budget,
)
    requires
        parsed(req.markdown, b) is Err,
    ensures
        committed(s, req, actor, b) == (
            s,
            Err::<OutcomeModel, _>(StoreErrorModel::Okf(parsed(req.markdown, b)->Err_0)),
        ),
{
}

/// A writer that did not read the head never overwrites it.
pub proof fn law_stale_base_never_overwrites(
    s: StoreModel,
    req: RequestModel,
    actor: PrincipalModel,
    b: Budget,
)
    requires
        parsed(req.markdown, b) is Ok,
        hash_of(live(s, req.concept_id)) != req.expected,
        hash_of(live(s, req.concept_id)) != Some(content_hash(req.markdown)),
    ensures
        committed(s, req, actor, b).0 == s,
        committed(s, req, actor, b).1 is Err,
        committed(s, req, actor, b).1->Err_0 is Conflict,
        committed(s, req, actor, b).1->Err_0->Conflict_0.current == hash_of(
            live(s, req.concept_id),
        ),
{
}

/// Committing the same text again changes nothing, whatever is expected.
pub proof fn law_commit_is_idempotent(
    s: StoreModel,
    req: RequestModel,
    again: RequestModel,
    actor: PrincipalModel,
    b: Budget,
)
    requires
        store_ok(s),
        committed(s, req, actor, b).1 is Ok,
        again.concept_id == req.concept_id,
        again.markdown == req.markdown,
    ensures
        ({
            let (t, r) = committed(s, req, actor, b);
            let (u, x) = committed(t, again, actor, b);
            &&& u == t
            &&& x is Ok
            &&& x->Ok_0.no_change
            &&& !x->Ok_0.created
            &&& x->Ok_0.revision is None
            &&& x->Ok_0.version == r->Ok_0.version
            &&& x->Ok_0.content_id == r->Ok_0.content_id
        }),
{
    let id = req.concept_id;
    let incoming = content_hash(req.markdown);
    if !(decision(hash_of(live(s, id)), req.expected, incoming) is NoChange) {
        let version: nat = match lookup(s.heads, id) {
            Some(h) => h.version + 1,
            None => 1,
        };
        let h = HeadModel { id, content_id: incoming, version, deleted: false };
        lemma_lookup_put(s.heads, id, h, id);
    }
}

/// The history only grows: a commit that writes adds one revision at the end,
/// numbered one higher than the last.
pub proof fn law_commit_appends_to_the_history(
    s: StoreModel,
    req: RequestModel,
    actor: PrincipalModel,
    b: Budget,
)
    ensures
        ({
            let (t, r) = committed(s, req, actor, b);
            match r {
                Ok(o) => match o.revision {
                    Some(rev) => t.revisions == s.revisions.push(rev) && rev.seq
                        == s.revisions.len() + 1 && rev.base == hash_of(live(s, req.concept_id))
                        && rev.result == content_hash(req.markdown),
                    None => t.revisions == s.revisions,
                },
                Err(_) => t.revisions == s.revisions,
            }
        }),
{
}

/// After a deletion the document cannot be read and leads nowhere, its history
/// has one more revision, and every other document is as it was.
pub proof fn law_deleted_is_gone(
    s: StoreModel,
    id: Seq<char>,
    expected: Seq<u8>,
    actor: PrincipalModel,
    reason: Seq<char>,
    q: Seq<char>,
)
    requires
        store_ok(s),
        buried(s, id, expected, actor, reason).1 is Ok,
    ensures
        ({
            let (t, r) = buried(s, id, expected, actor, reason);
            &&& got(t, id) == Ok::<_, StoreErrorModel>(
                None::<crate::store::DocViewModel>,
            )
            &&& leads_to(t, id) == Seq::<Seq<char>>::empty()
            &&& t.revisions == s.revisions.push(r->Ok_0.revision)
            &&& q != id ==> got(t, q) == got(s, q) && leads_to(t, q) == leads_to(s, q)
        }),
{
    let h = live(s, id)->0;
    let gone = HeadModel { deleted: true, ..h };
    lemma_lookup_put(s.heads, id, gone, id);
    lemma_lookup_put(s.heads, id, gone, q);
    lemma_lookup_del(s.links, id, id);
    lemma_lookup_del(s.links, id, q);
}

/// A deletion succeeds exactly on the head that its author read.
pub proof fn law_delete_needs_the_head(
    s: StoreModel,
    id: Seq<char>,
    expected: Seq<u8>,
    actor: PrincipalModel,
    reason: Seq<char>,
)
    ensures
        buried(s, id, expected, actor, reason).1 is Ok <==> hash_of(live(s, id)) == Some(expected),
        buried(s, id, expected, actor, reason).1 is Err ==> buried(
            s,
            id,
            expected,
            actor,
            reason,
        ).0 == s,
{
}

/// A deleted document can be created anew, and its versions go on.
pub proof fn law_recreating_continues_the_versions(
    s: StoreModel,
    id: Seq<char>,
    expected: Seq<u8>,
    actor: PrincipalModel,
    reason: Seq<char>,
    req: RequestModel,
    b: Budget,
)
    requires
        store_ok(s),
        buried(s, id, expected, actor, reason).1 is Ok,
        req.concept_id == id,
        req.expected is None,
        parsed(req.markdown, b) is Ok,
    ensures
        ({
            let (t, r) = buried(s, id, expected, actor, reason);
            let x = committed(t, req, actor, b).1;
            &&& x is Ok
            &&& x->Ok_0.created
            &&& x->Ok_0.version == r->Ok_0.version + 1
        }),
{
    let h = live(s, id)->0;
    lemma_lookup_put(s.heads, id, HeadModel { deleted: true, ..h }, id);
}

/// Every hit is a live document under the path sought that passes the filters.
pub open spec fn hits_ok(s: StoreModel, q: QueryModel, b: Budget, hits: Seq<HitModel>) -> bool {
    forall|i: int|
        0 <= i < hits.len() ==> ({
            let id = (#[trigger] hits[i]).concept_id;
            let h = live(s, id);
            &&& h is Some
            &&& in_scope(h->0, q.path_prefix)
            &&& served(s, h->0, b) is Ok
            &&& passes(served(s, h->0, b)->Ok_0, q)
            &&& hits[i] == hit_of(served(s, h->0, b)->Ok_0)
        })
}

proof fn lemma_found(s: StoreModel, q: QueryModel, b: Budget, i: int, hits: Seq<HitModel>)
    requires
        store_ok(s),
        0 <= i <= s.heads.len(),
        hits_ok(s, q, b, hits),
        hits.len() <= search_limit(q, b),
    ensures
        match found_from(s, q, b, i, hits) {
            Ok(all) => hits_ok(s, q, b, all) && all.len() <= search_limit(q, b),
            Err(_) => true,
        },
    decreases s.heads.len() - i,
{
    if i < s.heads.len() && hits.len() < search_limit(q, b) {
        let h = s.heads[i].1;
        if !in_scope(h, q.path_prefix) {
            lemma_found(s, q, b, i + 1, hits);
        } else {
            match served(s, h, b) {
                Err(_) => {},
                Ok(d) => if passes(d, q) {
                    lemma_has(s.heads, i);
                    assert(s.heads[i].1.id == s.heads[i].0);
                    let more = hits.push(hit_of(d));
                    assert forall|k: int| 0 <= k < more.len() implies ({
                        let id = (#[trigger] more[k]).concept_id;
                        let h = live(s, id);
                        &&& h is Some
                        &&& in_scope(h->0, q.path_prefix)
                        &&& served(s, h->0, b) is Ok
                        &&& passes(served(s, h->0, b)->Ok_0, q)
                        &&& more[k] == hit_of(served(s, h->0, b)->Ok_0)
                    }) by {
                        if k < hits.len() {
                            assert(more[k] == hits[k]);
                        }
                    }
                    lemma_found(s, q, b, i + 1, more);
                } else {
                    lemma_found(s, q, b, i + 1, hits);
                },
            }
        }
    }
}

/// A search lists only live documents that pass every filter, and no more than
/// the limit; a deleted document is never listed.
pub proof fn law_search_lists_only_what_matches(s: StoreModel, q: QueryModel, b: Budget)
    requires
        store_ok(s),
    ensures
        match found(s, q, b) {
            Ok(hits) => hits_ok(s, q, b, hits) && hits.len() <= search_limit(q, b),
            Err(_) => true,
        },
{
    lemma_found(s, q, b, 0, Seq::empty());
}

proof fn lemma_each(
    s: StoreModel,
    reqs: Seq<RequestModel>,
    n: int,
    actor: PrincipalModel,
    b: Budget,
)
    requires
        0 <= n <= reqs.len(),
    ensures
        each(s, reqs, n, actor, b).1.len() == n,
        forall|i: int|
            0 <= i < n ==> !((#[trigger] each(s, reqs, n, actor, b).1[i]) is Skipped),
        match first_failure(s, reqs, n, actor, b) {
            Some(k) => 0 <= k < n && each(s, reqs, n, actor, b).1[k] is Failed,
            None => forall|i: int|
                0 <= i < n ==> (#[trigger] each(s, reqs, n, actor, b).1[i]) is Done,
        },
    decreases n,
{
    if n > 0 {
        lemma_each(s, reqs, n - 1, actor, b);
        let before = each(s, reqs, n - 1, actor, b).1;
        let now = each(s, reqs, n, actor, b).1;
        assert forall|i: int| 0 <= i < n - 1 implies now[i] == before[i] by {}
    }
}

/// An atomic batch is applied whole or not at all: either every request is
/// done, or the store is as it was, one request is reported as failed and the
/// others as skipped.
pub proof fn law_atomic_batch_is_all_or_nothing(
    s: StoreModel,
    reqs: Seq<RequestModel>,
    actor: PrincipalModel,
    b: Budget,
)
    ensures
        ({
            let (t, r) = batched(s, reqs, true, actor, b);
            let o = r->Ok_0;
            &&& r is Ok
            &&& o.items.len() == reqs.len()
            &&& o.applied ==> forall|i: int|
                0 <= i < o.items.len() ==> (#[trigger] o.items[i]) is Done
            &&& !o.applied ==> t == s && exists|k: int|
                0 <= k < o.items.len() && o.items[k] is Failed && forall|i: int|
                    0 <= i < o.items.len() && i != k ==> (#[trigger] o.items[i]) is Skipped
        }),
{
    let n = reqs.len() as int;
    lemma_each(s, reqs, n, actor, b);
    let (t, r) = batched(s, reqs, true, actor, b);
    let o = r->Ok_0;
    match first_failure(s, reqs, n, actor, b) {
        Some(k) => {
            assert(o.items[k] is Failed);
        },
        None => {},
    }
}

/// A batch that is not atomic answers every request for itself.
pub proof fn law_plain_batch_answers_each(
    s: StoreModel,
    reqs: Seq<RequestModel>,
    actor: PrincipalModel,
    b: Budget,
)
    ensures
        ({
            let r = batched(s, reqs, false, actor, b).1;
            &&& r is Ok
            &&& r->Ok_0.applied
            &&& r->Ok_0.items.len() == reqs.len()
            &&& forall|i: int|
                0 <= i < reqs.len() ==> !((#[trigger] r->Ok_0.items[i]) is Skipped)
        }),
{
    lemma_each(s, reqs, reqs.len() as int, actor, b);
}

/// Committing a request again changes nothing, creates nothing and answers as
/// before: the same hash and version, or the same refusal.
pub open spec fn settled(
    s: StoreModel,
    req: RequestModel,
    item: BulkItemModel,
    actor: PrincipalModel,
    b: Budget,
) -> bool {
    let (t, r) = committed(s, req, actor, b);
    &&& t == s
    &&& match item {
        BulkItemModel::Done(o) => r is Ok && r->Ok_0.no_change && !r->Ok_0.created
            && r->Ok_0.revision is None && r->Ok_0.content_id == o.content_id
            && r->Ok_0.version == o.version,
        BulkItemModel::Failed(e) => r == Answer::<OutcomeModel>::Err(e),
        BulkItemModel::Skipped => false,
    }
}

/// No two requests speak of the same document.
pub open spec fn distinct_ids(reqs: Seq<RequestModel>) -> bool {
    forall|i: int, j: int|
        0 <= i < j < reqs.len() ==> (#[trigger] reqs[i]).concept_id != (
        #[trigger] reqs[j]).concept_id
}

/// A commit of another document does not unsettle a request.
proof fn lemma_stays_settled(
    s: StoreModel,
    req: RequestModel,
    item: BulkItemModel,
    other: RequestModel,
    actor: PrincipalModel,
    b: Budget,
)
    requires
        store_ok(s),
        settled(s, req, item, actor, b),
        other.concept_id != req.concept_id,
    ensures
        settled(committed(s, other, actor, b).0, req, item, actor, b),
{
    let t = committed(s, other, actor, b).0;
    if t != s {
        let id = other.concept_id;
        let version: nat = match lookup(s.heads, id) {
            Some(h) => h.version + 1,
            None => 1,
        };
        let h = HeadModel {
            id,
            content_id: content_hash(other.markdown),
            version,
            deleted: false,
        };
        lemma_lookup_put(s.heads, id, h, req.concept_id);
        assert(live(t, req.concept_id) == live(s, req.concept_id));
    }
}

proof fn lemma_each_settles(
    s: StoreModel,
    reqs: Seq<RequestModel>,
    n: int,
    actor: PrincipalModel,
    b: Budget,
)
    requires
        store_ok(s),
        distinct_ids(reqs),
        0 <= n <= reqs.len(),
    ensures
        ({
            let (t, items) = each(s, reqs, n, actor, b);
            &&& store_ok(t)
            &&& items.len() == n
            &&& forall|i: int| 0 <= i < n ==> settled(t, reqs[i], #[trigger] items[i], actor, b)
        }),
    decreases n,
{
    if n > 0 {
        lemma_each_settles(s, reqs, n - 1, actor, b);
        let (t, items) = each(s, reqs, n - 1, actor, b);
        let req = reqs[n - 1];
        let (u, r) = committed(t, req, actor, b);
        crate::memory::law_commit_keeps_the_store_sound(t, req, actor, b);
        let now = items.push(item_of(r));
        assert forall|i: int| 0 <= i < n implies settled(u, reqs[i], #[trigger] now[i], actor, b) by {
            if i < n - 1 {
                assert(now[i] == items[i]);
                assert(reqs[i].concept_id != reqs[n - 1].concept_id);
                lemma_stays_settled(t, reqs[i], items[i], req, actor, b);
            } else if r is Ok {
                law_commit_is_idempotent(t, req, req, actor, b);
            } else {
                law_refused_commit_leaves_no_trace(t, req, actor, b);
            }
        }
    }
}

proof fn lemma_settled_each(
    s: StoreModel,
    reqs: Seq<RequestModel>,
    items: Seq<BulkItemModel>,
    n: int,
    actor: PrincipalModel,
    b: Budget,
)
    requires
        0 <= n <= reqs.len(),
        items.len() == reqs.len(),
        forall|i: int|
            0 <= i < reqs.len() ==> settled(s, reqs[i], #[trigger] items[i], actor, b),
    ensures
        each(s, reqs, n, actor, b).0 == s,
        each(s, reqs, n, actor, b).1.len() == n,
        forall|i: int|
            0 <= i < n ==> (#[trigger] each(s, reqs, n, actor, b).1[i]) == item_of(
                committed(s, reqs[i], actor, b).1,
            ),
    decreases n,
{
    if n > 0 {
        lemma_settled_each(s, reqs, items, n - 1, actor, b);
        assert(settled(s, reqs[n - 1], items[n - 1], actor, b));
    }
}

/// An answer to a request that was answered before: done again, with nothing
/// created and without a change, under the same hash and version, or refused
/// again for the same reason.
pub open spec fn same_again(first: BulkItemModel, second: BulkItemModel) -> bool {
    match first {
        BulkItemModel::Done(o) => second is Done && second->Done_0.no_change
            && !second->Done_0.created && second->Done_0.revision is None
            && second->Done_0.content_id == o.content_id && second->Done_0.version == o.version,
        BulkItemModel::Failed(_) => second == first,
        BulkItemModel::Skipped => false,
    }
}

/// A batch that is not atomic, committed again, leaves the store as it is and
/// answers each request as before.
pub proof fn law_plain_batches_settle(
    s: StoreModel,
    reqs: Seq<RequestModel>,
    actor: PrincipalModel,
    b: Budget,
)
    requires
        store_ok(s),
        distinct_ids(reqs),
    ensures
        ({
            let (t, r) = batched(s, reqs, false, actor, b);
            let (u, x) = batched(t, reqs, false, actor, b);
            &&& u == t
            &&& x is Ok
            &&& x->Ok_0.items.len() == r->Ok_0.items.len() == reqs.len()
            &&& forall|i: int|
                0 <= i < reqs.len() ==> same_again(
                    #[trigger] r->Ok_0.items[i],
                    x->Ok_0.items[i],
                )
        }),
{
    let n = reqs.len() as int;
    lemma_each_settles(s, reqs, n, actor, b);
    let (t, items) = each(s, reqs, n, actor, b);
    lemma_settled_each(t, reqs, items, n, actor, b);
    let again = each(t, reqs, n, actor, b).1;
    assert forall|i: int| 0 <= i < n implies same_again(#[trigger] items[i], again[i]) by {
        assert(settled(t, reqs[i], items[i], actor, b));
        assert(again[i] == item_of(committed(t, reqs[i], actor, b).1));
    }
}

} // verus!

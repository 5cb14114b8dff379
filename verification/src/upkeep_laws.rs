//! What the state, the health and the figures of a store say.

use vstd::prelude::*;
use crate::json::{number, JsonModel};
use crate::mcp::ToolAnswer;
use crate::member_laws::group_members;
use crate::memory::{served, store_ok, HeadModel, InMemoryStore, StoreModel};
use crate::model::{Budget, ConceptId};
use crate::okf::{parsed, LinkModel};
use crate::reading::{stats_tool, status_tool, validate_tool};
use crate::reading_laws::on_record;
use crate::replies::{counts_json, list_json, report_json, stats_json, Shown};
use crate::search_laws::{holds_document, lemma_served, lemma_under, lies_under};
use crate::store::{ReportModel, StatsModel};
use crate::survey::{
    clip, first, leading_to, most_frequent, pairs, picked, ranking, tally, Standing,
};
use crate::table::{lemma_has, lemma_lookup_put, lemma_rank, lookup, present, rank};
use crate::upkeep::{described, heads_with, measured, standing_fn, stands, validated};
use crate::workflow_laws::{how_many, lemma_how_many};

verus! {

/// How many documents are deleted, or are not.
pub open spec fn documents(s: StoreModel, deleted: bool) -> nat {
    how_many(s.heads, |h: (Seq<char>, HeadModel)| h.1.deleted == deleted)
}

proof fn lemma_heads_with(heads: Seq<(Seq<char>, HeadModel)>, n: int, deleted: bool)
    requires
        0 <= n <= heads.len(),
    ensures
        heads_with(heads, n, deleted) == how_many(
            heads.take(n),
            |h: (Seq<char>, HeadModel)| h.1.deleted == deleted,
        ),
    decreases n,
{
    if n > 0 {
        lemma_heads_with(heads, n - 1, deleted);
        lemma_how_many(heads, n, |h: (Seq<char>, HeadModel)| h.1.deleted == deleted);
    } else {
        reveal(Seq::filter);
        assert(heads.take(0) =~= Seq::empty());
    }
}

proof fn lemma_documents(s: StoreModel, deleted: bool)
    ensures
        heads_with(s.heads, s.heads.len() as int, deleted) == documents(s, deleted),
{
    lemma_heads_with(s.heads, s.heads.len() as int, deleted);
    assert(s.heads.take(s.heads.len() as int) =~= s.heads);
}

// ---------------------------------------------------------------------
// Health
// ---------------------------------------------------------------------

/// There is no document of that id, and never was.
pub open spec fn is_unknown(s: StoreModel, id: Seq<char>) -> bool {
    forall|i: int| 0 <= i < s.heads.len() ==> (#[trigger] s.heads[i]).0 != id
}

/// There was a document of that id, and it is deleted.
pub open spec fn is_deleted(s: StoreModel, id: Seq<char>) -> bool {
    exists|i: int| 0 <= i < s.heads.len() && (#[trigger] s.heads[i]).0 == id && s.heads[i].1.deleted
}

proof fn lemma_stands(s: StoreModel, id: Seq<char>)
    requires
        store_ok(s),
    ensures
        stands(s, id) is Missing <==> is_unknown(s, id),
        stands(s, id) is Gone <==> is_deleted(s, id),
{
    lemma_rank(s.heads, id);
    if present(s.heads, id) {
        let i = rank(s.heads, id) as int;
        assert(s.heads[i].0 == id);
    }
    assert forall|i: int| 0 <= i < s.heads.len() && (#[trigger] s.heads[i]).0 == id implies lookup(
        s.heads,
        id,
    ) == Some(s.heads[i].1) by {
        lemma_has(s.heads, i);
    }
}

/// A link on record, from a document that the arguments ask about.
pub open spec fn is_asked_link(
    s: StoreModel,
    args: JsonModel,
    source: Seq<char>,
    target: Seq<char>,
) -> bool {
    &&& (args.member("path_prefix"@) matches Some(JsonModel::String(t)) ==> lies_under(source, t))
    &&& exists|links: Seq<LinkModel>, i: int|
        #![trigger on_record(s, source, links), links[i]]
        on_record(s, source, links) && 0 <= i < links.len() && links[i].target == target
}

/// An entry that names a link.
pub open spec fn names_link(v: JsonModel, source: Seq<char>, target: Seq<char>) -> bool {
    &&& v.member("source"@) == Some(JsonModel::String(source))
    &&& v.member("target"@) == Some(JsonModel::String(target))
}

spec fn leads_on(
    s: StoreModel,
    n: int,
    prefix: Option<Seq<char>>,
    kind: Standing,
    p: (Seq<char>, Seq<char>),
) -> bool {
    exists|i: int, j: int|
        0 <= i < n && 0 <= j < (#[trigger] s.links[i]).1.len() && s.links[i].0 == p.0 && (
        #[trigger] s.links[i].1[j]).target == p.1 && stands(s, p.1) == kind && (prefix is None
            || crate::store::under(p.0, prefix->0))
}

pub proof fn lemma_picked(
    links: Seq<LinkModel>,
    n: int,
    standing: spec_fn(Seq<char>) -> Standing,
    kind: Standing,
    source: Seq<char>,
    p: (Seq<char>, Seq<char>),
)
    requires
        0 <= n <= links.len(),
    ensures
        pairs(source, picked(links, n, standing, kind)).contains(p) <==> p.0 == source && standing(
            p.1,
        ) == kind && exists|j: int| 0 <= j < n && (#[trigger] links[j]).target == p.1,
    decreases n,
{
    if n > 0 {
        lemma_picked(links, n - 1, standing, kind, source, p);
        let u = pairs(source, picked(links, n - 1, standing, kind));
        let t = pairs(source, picked(links, n, standing, kind));
        if standing(links[n - 1].target) == kind {
            assert(t =~= u.push((source, links[n - 1].target)));
            crate::reason::lemma_push_contains(u, (source, links[n - 1].target), p);
        }
        if exists|j: int| 0 <= j < n && (#[trigger] links[j]).target == p.1 {
            let j = choose|j: int| 0 <= j < n && (#[trigger] links[j]).target == p.1;
            if j < n - 1 {
                assert(links[j].target == p.1);
            }
        }
    } else {
        assert(pairs(source, picked(links, n, standing, kind)) =~= Seq::empty());
    }
}

proof fn lemma_leading_to(
    s: StoreModel,
    n: int,
    prefix: Option<Seq<char>>,
    kind: Standing,
    p: (Seq<char>, Seq<char>),
)
    requires
        0 <= n <= s.links.len(),
    ensures
        leading_to(s.links, n, prefix, standing_fn(s), kind).contains(p) <==> leads_on(
            s,
            n,
            prefix,
            kind,
            p,
        ),
    decreases n,
{
    if n > 0 {
        lemma_leading_to(s, n - 1, prefix, kind, p);
        let rest = leading_to(s.links, n - 1, prefix, standing_fn(s), kind);
        let (id, links) = s.links[n - 1];
        let more = pairs(id, picked(links, links.len() as int, standing_fn(s), kind));
        lemma_picked(links, links.len() as int, standing_fn(s), kind, id, p);
        if prefix is None || crate::store::under(id, prefix->0) {
            crate::reason::lemma_concat_contains(rest, more, p);
        }
        if leads_on(s, n - 1, prefix, kind, p) {
            let (i, j) = choose|i: int, j: int|
                0 <= i < n - 1 && 0 <= j < (#[trigger] s.links[i]).1.len() && s.links[i].0 == p.0
                    && (#[trigger] s.links[i].1[j]).target == p.1 && stands(s, p.1) == kind && (
                prefix is None || crate::store::under(p.0, prefix->0));
            assert(s.links[i].1[j].target == p.1 && s.links[i].0 == p.0);
        }
        if leads_on(s, n, prefix, kind, p) {
            let (i, j) = choose|i: int, j: int|
                0 <= i < n && 0 <= j < (#[trigger] s.links[i]).1.len() && s.links[i].0 == p.0 && (
                #[trigger] s.links[i].1[j]).target == p.1 && stands(s, p.1) == kind && (prefix
                    is None || crate::store::under(p.0, prefix->0));
            if i < n - 1 {
                assert(leads_on(s, n - 1, prefix, kind, p));
            } else {
                assert(links[j].target == p.1);
            }
        }
        if (prefix is None || crate::store::under(id, prefix->0)) && more.contains(p) {
            let j = choose|j: int| 0 <= j < links.len() && (#[trigger] links[j]).target == p.1;
            assert(s.links[n - 1].1[j].target == p.1);
        }
    }
}

proof fn lemma_asked_link(
    s: StoreModel,
    args: JsonModel,
    kind: Standing,
    source: Seq<char>,
    target: Seq<char>,
)
    ensures
        leads_on(
            s,
            s.links.len() as int,
            crate::args::text_arg(args, "path_prefix"@),
            kind,
            (source, target),
        ) <==> is_asked_link(s, args, source, target) && stands(s, target) == kind,
{
    let prefix = crate::args::text_arg(args, "path_prefix"@);
    if let Some(t) = prefix {
        lemma_under(source, t);
    }
    if leads_on(s, s.links.len() as int, prefix, kind, (source, target)) {
        let (i, j) = choose|i: int, j: int|
            0 <= i < s.links.len() && 0 <= j < (#[trigger] s.links[i]).1.len() && s.links[i].0
                == source && (#[trigger] s.links[i].1[j]).target == target && stands(s, target)
                == kind && (prefix is None || crate::store::under(source, prefix->0));
        let links = s.links[i].1;
        assert(s.links[i] == (source, links));
        assert(on_record(s, source, links));
        assert(links[j].target == target);
    }
    if is_asked_link(s, args, source, target) && stands(s, target) == kind {
        let (links, j) = choose|links: Seq<LinkModel>, j: int|
            #![trigger on_record(s, source, links), links[j]]
            on_record(s, source, links) && 0 <= j < links.len() && links[j].target == target;
        let i = choose|i: int| 0 <= i < s.links.len() && #[trigger] s.links[i] == (source, links);
        assert(s.links[i].1[j].target == target && s.links[i].0 == source);
    }
}

/// A list of links in a reply: all of them asked about and leading to targets of
/// one kind; all such links, where the list is shorter than it may be, and then
/// their number is its length.
pub open spec fn lists_links(
    s: StoreModel,
    args: JsonModel,
    b: Budget,
    list: JsonModel,
    total: JsonModel,
    deleted: bool,
) -> bool {
    let l = list->Array_0;
    &&& list is Array
    &&& l.len() <= b.max_search_results
    &&& forall|k: int| 0 <= k < l.len() ==> is_listed_link(s, args, #[trigger] l[k], deleted)
    &&& l.len() < b.max_search_results ==> total == number(l.len()) && forall|
        source: Seq<char>,
        target: Seq<char>,
    |
        #![trigger is_asked_link(s, args, source, target)]
        is_asked_link(s, args, source, target) && (if deleted {
            is_deleted(s, target)
        } else {
            is_unknown(s, target)
        }) ==> has_link(l, source, target)
}

/// An entry names a link of that kind.
pub open spec fn is_listed_link(s: StoreModel, args: JsonModel, v: JsonModel, deleted: bool) -> bool {
    exists|source: Seq<char>, target: Seq<char>| #[trigger]
        names_link(v, source, target) && is_asked_link(s, args, source, target) && (if deleted {
            is_deleted(s, target)
        } else {
            is_unknown(s, target)
        })
}

/// Some entry names a link.
pub open spec fn has_link(l: Seq<JsonModel>, source: Seq<char>, target: Seq<char>) -> bool {
    exists|k: int| 0 <= k < l.len() && names_link(#[trigger] l[k], source, target)
}

proof fn lemma_pair_members(p: (Seq<char>, Seq<char>))
    ensures
        names_link(<(ConceptId, ConceptId) as Shown>::json(p), p.0, p.1),
{
    broadcast use group_members;

    reveal_strlit("source");
    reveal_strlit("target");
    assert("source"@[0] != "target"@[0]);
}

proof fn lemma_lists_links(s: StoreModel, args: JsonModel, b: Budget, deleted: bool)
    requires
        store_ok(s),
        b.max_search_results <= usize::MAX,
    ensures
        ({
            let kind = if deleted {
                Standing::Gone
            } else {
                Standing::Missing
            };
            let all = leading_to(
                s.links,
                s.links.len() as int,
                crate::args::text_arg(args, "path_prefix"@),
                standing_fn(s),
                kind,
            );
            lists_links(
                s,
                args,
                b,
                list_json::<(ConceptId, ConceptId)>(first(all, b.max_search_results)),
                number(clip(all.len()) as nat),
                deleted,
            )
        }),
{
    let kind = if deleted {
        Standing::Gone
    } else {
        Standing::Missing
    };
    let prefix = crate::args::text_arg(args, "path_prefix"@);
    let n = s.links.len() as int;
    let all = leading_to(s.links, n, prefix, standing_fn(s), kind);
    let some = first(all, b.max_search_results);
    let l = list_json::<(ConceptId, ConceptId)>(some)->Array_0;
    assert forall|k: int| 0 <= k < l.len() implies is_listed_link(
        s,
        args,
        #[trigger] l[k],
        deleted,
    ) by {
        let p = some[k];
        assert(all[k] == p);
        assert(all.contains(p));
        lemma_leading_to(s, n, prefix, kind, p);
        lemma_asked_link(s, args, kind, p.0, p.1);
        lemma_stands(s, p.1);
        lemma_pair_members(p);
        assert(names_link(l[k], p.0, p.1));
    }
    if l.len() < b.max_search_results {
        assert(some == all);
        assert forall|source: Seq<char>, target: Seq<char>|
            #![trigger is_asked_link(s, args, source, target)]
            is_asked_link(s, args, source, target) && (if deleted {
                is_deleted(s, target)
            } else {
                is_unknown(s, target)
            }) implies has_link(l, source, target) by {
            lemma_stands(s, target);
            lemma_asked_link(s, args, kind, source, target);
            lemma_leading_to(s, n, prefix, kind, (source, target));
            let k = choose|k: int| 0 <= k < all.len() && all[k] == (source, target);
            lemma_pair_members(all[k]);
            assert(names_link(l[k], source, target));
        }
    }
}

proof fn lemma_report_members(m: ReportModel)
    ensures
        ({
            let v = report_json(m);
            &&& v.member("broken_links"@) == Some(
                list_json::<(ConceptId, ConceptId)>(m.broken_links),
            )
            &&& v.member("broken_links_total"@) == Some(number(m.broken_links_total as nat))
            &&& v.member("deleted_referenced"@) == Some(
                list_json::<(ConceptId, ConceptId)>(m.deleted_referenced),
            )
            &&& v.member("deleted_referenced_total"@) == Some(
                number(m.deleted_referenced_total as nat),
            )
        }),
{
    broadcast use group_members;

    reveal_strlit("broken_links");
    reveal_strlit("broken_links_total");
    reveal_strlit("deleted_referenced");
    reveal_strlit("deleted_referenced_total");
    reveal_strlit("missing_embeddings");
    reveal_strlit("missing_embeddings_total");
    assert("broken_links_total"@[0] != "deleted_referenced"@[0]);
    assert("broken_links_total"@[0] != "missing_embeddings"@[0]);
    assert("deleted_referenced"@[0] != "missing_embeddings"@[0]);
    assert("deleted_referenced_total"@[0] != "missing_embeddings_total"@[0]);
}

/// `memory_validate` lists the links on record to documents that never were, and
/// those to documents that are deleted, from the documents it asks about.
pub proof fn law_validation_lists_bad_links(
    repo: InMemoryStore,
    b: Budget,
    args: JsonModel,
    r: ToolAnswer,
)
    requires
        store_ok(repo@),
        validate_tool(repo, b, args, r),
    ensures
        r is Ok,
        r->Ok_0.member("broken_links"@) is Some,
        r->Ok_0.member("broken_links_total"@) is Some,
        r->Ok_0.member("deleted_referenced"@) is Some,
        r->Ok_0.member("deleted_referenced_total"@) is Some,
        lists_links(
            repo@,
            args,
            b,
            r->Ok_0.member("broken_links"@)->0,
            r->Ok_0.member("broken_links_total"@)->0,
            false,
        ),
        lists_links(
            repo@,
            args,
            b,
            r->Ok_0.member("deleted_referenced"@)->0,
            r->Ok_0.member("deleted_referenced_total"@)->0,
            true,
        ),
{
    let m = validated(repo@, crate::args::text_arg(args, "path_prefix"@), b);
    lemma_report_members(m);
    lemma_lists_links(repo@, args, b, false);
    lemma_lists_links(repo@, args, b, true);
}

/// `memory_status` counts the documents that are there and those that are
/// deleted.
pub proof fn law_statuses_count_documents(repo: InMemoryStore, r: ToolAnswer)
    requires
        status_tool(repo, r),
        repo@.heads.len() <= usize::MAX,
    ensures
        r is Ok,
        r->Ok_0.member("documents"@) == Some(number(documents(repo@, false))),
        r->Ok_0.member("deleted_documents"@) == Some(number(documents(repo@, true))),
{
    broadcast use group_members;

    reveal_strlit("documents");
    reveal_strlit("deleted_documents");
    reveal_strlit("missing_embeddings");
    reveal_strlit("broken_links");
    reveal_strlit("deleted_referenced");
    reveal_strlit("outbox_pending");
    reveal_strlit("outbox_failed");
    assert("missing_embeddings"@[0] != "deleted_referenced"@[0]);
    let s = repo@;
    lemma_documents(s, false);
    lemma_documents(s, true);
    lemma_few(s.heads, s.heads.len() as int, false);
    lemma_few(s.heads, s.heads.len() as int, true);
}

proof fn lemma_few(heads: Seq<(Seq<char>, HeadModel)>, n: int, deleted: bool)
    requires
        0 <= n,
    ensures
        heads_with(heads, n, deleted) <= n,
    decreases n,
{
    if n > 0 {
        lemma_few(heads, n - 1, deleted);
    }
}

// ---------------------------------------------------------------------
// Figures
// ---------------------------------------------------------------------

/// How often a text occurs in a list.
pub open spec fn occurrences(keys: Seq<Seq<char>>, k: Seq<char>) -> nat {
    how_many(keys, |x: Seq<char>| x == k)
}

/// A tally has, for each text, how often it occurs.
pub proof fn law_tallies_count_occurrences(keys: Seq<Seq<char>>, k: Seq<char>)
    ensures
        crate::table::ascending(tally(keys)),
        keys.len() <= usize::MAX ==> lookup(tally(keys), k) == (if occurrences(keys, k) == 0 {
            None
        } else {
            Some(occurrences(keys, k) as usize)
        }),
        occurrences(keys, k) <= keys.len(),
    decreases keys.len(),
{
    reveal(Seq::filter);
    if keys.len() > 0 {
        let rest = keys.drop_last();
        let last = keys.last();
        law_tallies_count_occurrences(rest, k);
        law_tallies_count_occurrences(rest, last);
        let t = tally(rest);
        let n: usize = match lookup(t, last) {
            Some(n) => if n < usize::MAX {
                (n + 1) as usize
            } else {
                n
            },
            None => 1usize,
        };
        crate::table::lemma_put_ascending(t, last, n);
        lemma_lookup_put(t, last, n, k);
    }
}

/// A live document with a type.
pub open spec fn has_type(s: StoreModel, b: Budget, h: (Seq<char>, HeadModel), t: Seq<char>) -> bool {
    !h.1.deleted && exists|raw: Seq<char>| #[trigger]
        holds_document(s, h.0, raw) && parsed(raw, b) is Ok && parsed(raw, b)->Ok_0.doc_type == t
}

/// The tags of the first `n` documents, deleted ones aside, one after the other.
pub open spec fn tags_to(s: StoreModel, b: Budget, n: int) -> Seq<Seq<char>>
    decreases n,
{
    if n <= 0 {
        Seq::empty()
    } else {
        let h = s.heads[n - 1].1;
        tags_to(s, b, n - 1) + if h.deleted {
            Seq::empty()
        } else {
            parsed(lookup(s.blobs, crate::model::hex(h.content_id))->0, b)->Ok_0.tags
        }
    }
}

/// The targets of the links of the first `n` documents on record.
pub open spec fn targets_to(s: StoreModel, n: int) -> Seq<Seq<char>>
    decreases n,
{
    if n <= 0 {
        Seq::empty()
    } else {
        targets_to(s, n - 1) + Seq::new(
            s.links[n - 1].1.len(),
            |i: int| s.links[n - 1].1[i].target,
        )
    }
}

/// A sound store, as one fact.
#[verifier::opaque]
spec fn is_sound(s: StoreModel) -> bool {
    store_ok(s)
}

proof fn lemma_type(s: StoreModel, b: Budget, i: int, t: Seq<char>)
    requires
        is_sound(s),
        0 <= i < s.heads.len(),
        !s.heads[i].1.deleted,
        served(s, s.heads[i].1, b) is Ok,
    ensures
        has_type(s, b, s.heads[i], t) <==> served(s, s.heads[i].1, b)->Ok_0.doc_type == t,
{
    reveal(is_sound);
    let d = served(s, s.heads[i].1, b)->Ok_0;
    lemma_served(s, i, b);
    lemma_has(s.heads, i);
    assert forall|raw: Seq<char>| holds_document(s, s.heads[i].0, raw) implies raw == d.raw by {
        crate::writing_laws::lemma_holds(s, s.heads[i].0, raw);
    }
}

proof fn lemma_described_tags(s: StoreModel, b: Budget, n: int)
    requires
        0 <= n <= s.heads.len(),
        described(s, n, b) is Ok,
    ensures
        described(s, n, b)->Ok_0.1 == tags_to(s, b, n),
        described(s, n, b)->Ok_0.0.len() <= n,
    decreases n,
{
    if n > 0 {
        lemma_described_tags(s, b, n - 1);
        if s.heads[n - 1].1.deleted {
            assert(tags_to(s, b, n) =~= tags_to(s, b, n - 1));
        }
    }
}

proof fn lemma_push_count(before: Seq<Seq<char>>, x: Seq<char>, t: Seq<char>)
    ensures
        occurrences(before.push(x), t) == occurrences(before, t) + if x == t {
            1nat
        } else {
            0
        },
{
    reveal(Seq::filter);
    let all = before.push(x);
    assert(all.drop_last() =~= before);
    assert(all.last() == x);
}

proof fn lemma_described(s: StoreModel, b: Budget, n: int, t: Seq<char>)
    requires
        is_sound(s),
        0 <= n <= s.heads.len(),
        described(s, n, b) is Ok,
    ensures
        occurrences(described(s, n, b)->Ok_0.0, t) == how_many(
            s.heads.take(n),
            |h: (Seq<char>, HeadModel)| has_type(s, b, h, t),
        ),
    decreases n,
{
    if n > 0 {
        lemma_described(s, b, n - 1, t);
        let p = |h: (Seq<char>, HeadModel)| has_type(s, b, h, t);
        lemma_how_many(s.heads, n, p);
        let before = described(s, n - 1, b)->Ok_0.0;
        if !s.heads[n - 1].1.deleted {
            let d = served(s, s.heads[n - 1].1, b)->Ok_0;
            lemma_type(s, b, n - 1, t);
            lemma_push_count(before, d.doc_type, t);
        }
    } else {
        reveal(Seq::filter);
        assert(s.heads.take(0) =~= Seq::empty());
    }
}

proof fn lemma_targets(s: StoreModel, n: int)
    requires
        0 <= n <= s.links.len(),
    ensures
        crate::survey::all_targets(s.links, n) == targets_to(s, n),
    decreases n,
{
    if n > 0 {
        lemma_targets(s, n - 1);
        assert(crate::memory::link_targets(s.links[n - 1].1) =~= Seq::new(
            s.links[n - 1].1.len(),
            |i: int| s.links[n - 1].1[i].target,
        ));
    }
}

/// A ranking in a reply: each entry names a text and how often it occurs.
pub open spec fn ranks(
    list: JsonModel,
    key: Seq<char>,
    count: Seq<char>,
    keys: Seq<Seq<char>>,
) -> bool {
    &&& list is Array
    &&& forall|i: int| 0 <= i < list->Array_0.len() ==> ranks_one(
        #[trigger] list->Array_0[i],
        key,
        count,
        keys,
    )
}

pub open spec fn ranks_one(
    v: JsonModel,
    key: Seq<char>,
    count: Seq<char>,
    keys: Seq<Seq<char>>,
) -> bool {
    exists|k: Seq<char>|
        #[trigger] keys.contains(k) && v.member(key) == Some(JsonModel::String(k)) && v.member(
            count,
        ) == Some(number(occurrences(keys, k)))
}

proof fn lemma_ranks(keys: Seq<Seq<char>>, cap: usize, key: Seq<char>, count: Seq<char>)
    requires
        keys.len() <= usize::MAX,
        key != count,
    ensures
        ranks(counts_json(most_frequent(keys, cap), key, count), key, count, keys),
{
    let m = most_frequent(keys, cap);
    let t = tally(keys);
    let l = counts_json(m, key, count)->Array_0;
    crate::survey::lemma_tally(keys);
    crate::survey::lemma_ranking(t, t.len() as int);
    let r = ranking(t, t.len() as int);
    assert forall|i: int| 0 <= i < l.len() implies ranks_one(
        #[trigger] l[i],
        key,
        count,
        keys,
    ) by {
        assert(m[i] == r[i]);
        assert(r.contains(r[i]));
        let k = choose|k: int| 0 <= k < t.len() && #[trigger] t[k] == r[i];
        lemma_has(t, k);
        law_tallies_count_occurrences(keys, m[i].0);
        lemma_count_members(m[i], key, count);
        assert(keys.contains(m[i].0));
    }
}

proof fn lemma_count_members(e: (Seq<char>, usize), key: Seq<char>, count: Seq<char>)
    requires
        key != count,
    ensures
        ({
            let v = crate::json::empty_object().set(key, JsonModel::String(e.0)).set(
                count,
                number(e.1 as nat),
            );
            &&& v.member(key) == Some(JsonModel::String(e.0))
            &&& v.member(count) == Some(number(e.1 as nat))
        }),
{
    broadcast use group_members;

}

proof fn lemma_stats_members(m: StatsModel)
    ensures
        ({
            let v = stats_json(m);
            &&& v.member("documents"@) == Some(number(m.documents))
            &&& v.member("deleted_documents"@) == Some(number(m.deleted_documents))
            &&& v.member("by_type"@) == Some(counts_json(m.by_type, "type"@, "count"@))
            &&& v.member("by_tag"@) == Some(counts_json(m.by_tag, "tag"@, "count"@))
            &&& v.member("top_linked"@) == Some(
                counts_json(m.top_linked, "concept_id"@, "incoming_links"@),
            )
            &&& v.member("orphans"@) == Some(list_json::<ConceptId>(m.orphans))
        }),
{
    broadcast use group_members;

    reveal_strlit("documents");
    reveal_strlit("deleted_documents");
    reveal_strlit("by_type");
    reveal_strlit("by_tag");
    reveal_strlit("top_linked");
    reveal_strlit("orphans");
    assert("by_type"@[0] != "orphans"@[0]);
}

/// A ranking of the types of the live documents.
pub open spec fn ranks_types(s: StoreModel, b: Budget, list: JsonModel) -> bool {
    list is Array && forall|i: int|
        0 <= i < list->Array_0.len() ==> ranks_type(s, b, #[trigger] list->Array_0[i])
}

pub open spec fn ranks_type(s: StoreModel, b: Budget, v: JsonModel) -> bool {
    match v.member("type"@) {
        Some(JsonModel::String(t)) => v.member("count"@) == Some(
            number(how_many(s.heads, |h: (Seq<char>, HeadModel)| has_type(s, b, h, t))),
        ),
        _ => false,
    }
}

proof fn lemma_alone(s: StoreModel, n: int, linked: Seq<Seq<char>>, cap: usize)
    requires
        is_sound(s),
        0 <= n <= s.heads.len(),
    ensures
        forall|k: int|
            0 <= k < crate::upkeep::alone(s, n, linked, cap).len() ==> is_alone(
                s,
                linked,
                #[trigger] crate::upkeep::alone(s, n, linked, cap)[k],
            ),
    decreases n,
{
    if n > 0 {
        lemma_alone(s, n - 1, linked, cap);
        let rest = crate::upkeep::alone(s, n - 1, linked, cap);
        let all = crate::upkeep::alone(s, n, linked, cap);
        assert forall|k: int| 0 <= k < all.len() implies is_alone(s, linked, #[trigger] all[k]) by {
            if k < rest.len() {
                assert(all[k] == rest[k]);
            } else {
                reveal(is_sound);
                let id = s.heads[n - 1].0;
                assert(s.heads[n - 1].1.id == id);
                assert forall|links: Seq<LinkModel>| #[trigger] on_record(
                    s,
                    id,
                    links,
                ) implies links.len() == 0 by {
                    crate::reading_laws::lemma_on_record(s, id, links);
                }
            }
        }
    }
}

/// A live document without links, to which nothing links.
pub open spec fn is_alone(s: StoreModel, linked: Seq<Seq<char>>, id: Seq<char>) -> bool {
    &&& crate::writing_laws::is_live(s, id)
    &&& forall|links: Seq<LinkModel>| #[trigger] on_record(s, id, links) ==> links.len() == 0
    &&& !linked.contains(id)
}

proof fn lemma_ranks_types(s: StoreModel, b: Budget)
    requires
        is_sound(s),
        s.heads.len() <= usize::MAX,
        described(s, s.heads.len() as int, b) is Ok,
    ensures
        ranks_types(
            s,
            b,
            counts_json(
                most_frequent(
                    described(s, s.heads.len() as int, b)->Ok_0.0,
                    b.max_search_results,
                ),
                "type"@,
                "count"@,
            ),
        ),
{
    let n = s.heads.len() as int;
    let types = described(s, n, b)->Ok_0.0;
    lemma_described_tags(s, b, n);
    reveal_strlit("type");
    reveal_strlit("count");
    assert("type"@.len() != "count"@.len());
    lemma_ranks(types, b.max_search_results, "type"@, "count"@);
    let list = counts_json(most_frequent(types, b.max_search_results), "type"@, "count"@);
    assert forall|i: int| 0 <= i < list->Array_0.len() implies ranks_type(
        s,
        b,
        #[trigger] list->Array_0[i],
    ) by {
        let v = list->Array_0[i];
        assert(ranks_one(v, "type"@, "count"@, types));
        let t = choose|k: Seq<char>| #[trigger]
            types.contains(k) && v.member("type"@) == Some(JsonModel::String(k)) && v.member(
                "count"@,
            ) == Some(number(occurrences(types, k)));
        lemma_described(s, b, n, t);
        assert(s.heads.take(n) =~= s.heads);
    }
}

proof fn lemma_orphans(s: StoreModel, linked: Seq<Seq<char>>, cap: usize)
    requires
        is_sound(s),
    ensures
        ({
            let ids = crate::upkeep::alone(s, s.heads.len() as int, linked, cap);
            let l = list_json::<ConceptId>(ids)->Array_0;
            forall|k: int| 0 <= k < l.len() ==> #[trigger] l[k] is String && is_alone(
                s,
                linked,
                l[k]->String_0,
            )
        }),
{
    let n = s.heads.len() as int;
    let ids = crate::upkeep::alone(s, n, linked, cap);
    lemma_alone(s, n, linked, cap);
    let l = list_json::<ConceptId>(ids)->Array_0;
    assert forall|k: int| 0 <= k < l.len() implies #[trigger] l[k] is String && is_alone(
        s,
        linked,
        l[k]->String_0,
    ) by {
        assert(is_alone(s, linked, ids[k]));
    }
}

/// `memory_stats` counts the documents, ranks their types, their tags and what
/// they link to by how often each occurs, and names documents without links in
/// or out.
pub proof fn law_figures_count_what_is_there(repo: InMemoryStore, b: Budget, r: ToolAnswer)
    requires
        store_ok(repo@),
        stats_tool(repo, b, r),
        r is Ok,
        repo@.heads.len() <= usize::MAX,
        tags_to(repo@, b, repo@.heads.len() as int).len() <= usize::MAX,
        targets_to(repo@, repo@.links.len() as int).len() <= usize::MAX,
    ensures
        r->Ok_0.member("documents"@) == Some(number(documents(repo@, false))),
        r->Ok_0.member("deleted_documents"@) == Some(number(documents(repo@, true))),
        r->Ok_0.member("by_type"@) is Some,
        ranks_types(repo@, b, r->Ok_0.member("by_type"@)->0),
        r->Ok_0.member("by_tag"@) is Some,
        ranks(
            r->Ok_0.member("by_tag"@)->0,
            "tag"@,
            "count"@,
            tags_to(repo@, b, repo@.heads.len() as int),
        ),
        r->Ok_0.member("top_linked"@) is Some,
        ranks(
            r->Ok_0.member("top_linked"@)->0,
            "concept_id"@,
            "incoming_links"@,
            targets_to(repo@, repo@.links.len() as int),
        ),
        r->Ok_0.member("orphans"@) matches Some(JsonModel::Array(l)) && forall|k: int|
            0 <= k < l.len() ==> #[trigger] l[k] is String && is_alone(
                repo@,
                targets_to(repo@, repo@.links.len() as int),
                l[k]->String_0,
            ),
{
    let s = repo@;
    let n = s.heads.len() as int;
    assert(is_sound(s)) by {
        reveal(is_sound);
    }
    let m = measured(s, b)->Ok_0;
    lemma_stats_members(m);
    lemma_documents(s, false);
    lemma_documents(s, true);
    lemma_targets(s, s.links.len() as int);
    lemma_described_tags(s, b, n);
    lemma_ranks_types(s, b);
    reveal_strlit("tag");
    reveal_strlit("count");
    reveal_strlit("concept_id");
    reveal_strlit("incoming_links");
    assert("tag"@.len() != "count"@.len());
    assert("concept_id"@.len() != "incoming_links"@.len());
    lemma_ranks(tags_to(s, b, n), b.max_search_results, "tag"@, "count"@);
    let linked = targets_to(s, s.links.len() as int);
    lemma_ranks(linked, b.max_search_results, "concept_id"@, "incoming_links"@);
    lemma_orphans(s, linked, b.max_search_results);
}

} // verus!

//! What a snapshot finds and decides.

use vstd::prelude::*;
use crate::memory::{committed, hash_of, link_to, live, passes, search_limit, tag_holds, StoreModel};
use crate::model::{Budget, PrincipalModel};
use crate::reading_laws::{is_first_to, lemma_link_to};
use crate::search_laws::{lemma_occurs, lemma_under, lies_under, occurs};
use crate::snapshot::{
    back_to, decided, head_hash, hits_from, last_version, links_of, live_ok, measured, standing_fn,
    stands, types_to, validated, DecidedModel, LiveModel, SnapshotModel,
};
use crate::store::{hit_of, under, BacklinkModel, DocViewModel, HitModel, QueryModel, RequestModel};
use crate::survey::{first, leading_to, pairs, picked, ranking, tally, Standing};
use crate::table::{lemma_has, present};
use crate::text::{holds, lowercase};
use crate::upkeep_laws::{law_tallies_count_occurrences, lemma_picked, occurrences};
use crate::workflow_laws::how_many;

verus! {

/// A document that has what a query asks for.
pub open spec fn answers_query(d: DocViewModel, q: QueryModel) -> bool {
    &&& (q.path_prefix matches Some(p) ==> lies_under(d.concept_id, p))
    &&& (q.doc_type matches Some(t) ==> d.doc_type == t)
    &&& (q.exclude_type matches Some(t) ==> d.doc_type != t)
    &&& (q.tag matches Some(t) ==> d.tags.contains(t))
    &&& (q.text matches Some(t) ==> {
        let needle = lowercase(t);
        ||| occurs(needle, d.concept_id)
        ||| (d.title matches Some(x) && occurs(needle, lowercase(x)))
        ||| exists|i: int| 0 <= i < d.tags.len() && occurs(needle, lowercase(#[trigger] d.tags[i]))
        ||| occurs(needle, lowercase(d.raw))
    })
}

proof fn lemma_answers(d: DocViewModel, q: QueryModel)
    ensures
        answers_query(d, q) <==> (q.path_prefix is Some ==> under(
            d.concept_id,
            q.path_prefix->0,
        )) && passes(d, q),
{
    if let Some(p) = q.path_prefix {
        lemma_under(d.concept_id, p);
    }
    if let Some(t) = q.text {
        let needle = lowercase(t);
        lemma_occurs(needle, d.concept_id);
        if let Some(x) = d.title {
            lemma_occurs(needle, lowercase(x));
        }
        lemma_occurs(needle, lowercase(d.raw));
        assert forall|i: int| 0 <= i < d.tags.len() implies (occurs(
            needle,
            lowercase(#[trigger] d.tags[i]),
        ) <==> holds(lowercase(d.tags[i]), needle)) by {
            lemma_occurs(needle, lowercase(d.tags[i]));
        }
        if tag_holds(d.tags, needle) {
            let i = choose|i: int|
                0 <= i < d.tags.len() && holds(lowercase(#[trigger] d.tags[i]), needle);
            assert(occurs(needle, lowercase(d.tags[i])));
        }
        if exists|i: int| 0 <= i < d.tags.len() && occurs(needle, lowercase(#[trigger] d.tags[i])) {
            let i = choose|i: int|
                0 <= i < d.tags.len() && occurs(needle, lowercase(#[trigger] d.tags[i]));
            assert(holds(lowercase(d.tags[i]), needle));
        }
    }
}

/// The document of entry `i` of a snapshot.
pub open spec fn doc_at(m: SnapshotModel, i: int) -> DocViewModel {
    m.live[i].1.doc
}

/// A hit for one of the first `n` documents, which has what is asked for.
spec fn is_hit(m: SnapshotModel, q: QueryModel, n: int, h: HitModel) -> bool {
    exists|i: int| 0 <= i < n && h == hit_of(#[trigger] doc_at(m, i)) && answers_query(
        doc_at(m, i),
        q,
    )
}

spec fn hits_right(m: SnapshotModel, q: QueryModel, n: int, hits: Seq<HitModel>) -> bool {
    &&& forall|k: int| 0 <= k < hits.len() ==> is_hit(m, q, n, #[trigger] hits[k])
    &&& forall|i: int|
        0 <= i < n && answers_query(#[trigger] doc_at(m, i), q) ==> hits.contains(
            hit_of(doc_at(m, i)),
        )
}

proof fn lemma_more(m: SnapshotModel, q: QueryModel, n: int, hits: Seq<HitModel>, next: Seq<HitModel>)
    requires
        0 <= n < m.live.len(),
        hits_right(m, q, n, hits),
        next == (if answers_query(doc_at(m, n), q) {
            hits.push(hit_of(doc_at(m, n)))
        } else {
            hits
        }),
    ensures
        hits_right(m, q, n + 1, next),
{
    assert forall|k: int| 0 <= k < next.len() implies is_hit(m, q, n + 1, #[trigger] next[k]) by {
        if k < hits.len() {
            assert(next[k] == hits[k]);
            let i = choose|i: int|
                0 <= i < n && hits[k] == hit_of(#[trigger] doc_at(m, i)) && answers_query(
                    doc_at(m, i),
                    q,
                );
            assert(next[k] == hit_of(doc_at(m, i)));
        } else {
            assert(next[k] == hit_of(doc_at(m, n)));
        }
    }
    assert forall|i: int|
        0 <= i < n + 1 && answers_query(#[trigger] doc_at(m, i), q) implies next.contains(
        hit_of(doc_at(m, i)),
    ) by {
        let h = hit_of(doc_at(m, i));
        if answers_query(doc_at(m, n), q) {
            crate::reason::lemma_push_contains(hits, hit_of(doc_at(m, n)), h);
        }
    }
}

proof fn lemma_hits_from(
    m: SnapshotModel,
    q: QueryModel,
    b: Budget,
    i: int,
    hits: Seq<HitModel>,
)
    requires
        0 <= i <= m.live.len(),
        live_ok(m.live),
        hits_right(m, q, i, hits),
        hits.len() <= search_limit(q, b),
    ensures
        ({
            let l = hits_from(m, q, b, i, hits);
            &&& l.len() <= search_limit(q, b)
            &&& forall|k: int|
                0 <= k < l.len() ==> is_hit(m, q, m.live.len() as int, #[trigger] l[k])
            &&& l.len() < search_limit(q, b) ==> hits_right(m, q, m.live.len() as int, l)
        }),
    decreases m.live.len() - i,
{
    if i < m.live.len() && hits.len() < search_limit(q, b) {
        let d = doc_at(m, i);
        assert(m.live[i].1.doc.concept_id == m.live[i].0);
        lemma_answers(d, q);
        let next = if answers_query(d, q) {
            hits.push(hit_of(d))
        } else {
            hits
        };
        lemma_more(m, q, i, hits, next);
        lemma_hits_from(m, q, b, i + 1, next);
    } else {
        assert forall|k: int| 0 <= k < hits.len() implies is_hit(
            m,
            q,
            m.live.len() as int,
            #[trigger] hits[k],
        ) by {
            let j = choose|j: int|
                0 <= j < i && hits[k] == hit_of(#[trigger] doc_at(m, j)) && answers_query(
                    doc_at(m, j),
                    q,
                );
            assert(hits[k] == hit_of(doc_at(m, j)));
        }
    }
}

/// A search of a snapshot finds live documents that have what is asked for, and
/// all of them where there are fewer than it may give.
pub proof fn law_snapshots_find_what_is_asked_for(m: SnapshotModel, q: QueryModel, b: Budget)
    requires
        live_ok(m.live),
    ensures
        ({
            let l = hits_from(m, q, b, 0, Seq::empty());
            &&& l.len() <= search_limit(q, b)
            &&& forall|k: int|
                0 <= k < l.len() ==> exists|i: int|
                    0 <= i < m.live.len() && #[trigger] l[k] == hit_of(#[trigger] doc_at(m, i))
                        && answers_query(doc_at(m, i), q)
            &&& l.len() < search_limit(q, b) ==> forall|i: int|
                0 <= i < m.live.len() && answers_query(#[trigger] doc_at(m, i), q) ==> l.contains(
                    hit_of(doc_at(m, i)),
                )
        }),
{
    lemma_hits_from(m, q, b, 0, Seq::empty());
    let l = hits_from(m, q, b, 0, Seq::empty());
    assert forall|k: int| 0 <= k < l.len() implies exists|i: int|
        0 <= i < m.live.len() && #[trigger] l[k] == hit_of(#[trigger] doc_at(m, i))
            && answers_query(doc_at(m, i), q) by {
        assert(is_hit(m, q, m.live.len() as int, l[k]));
    }
}

/// A document that links to `id`, and how.
pub open spec fn links_so(d: DocViewModel, id: Seq<char>, x: BacklinkModel) -> bool {
    x.source == hit_of(d) && exists|j: int| #[trigger]
        is_first_to(d.links, j, id) && x.rel == d.links[j].rel
}

proof fn lemma_links_so(d: DocViewModel, id: Seq<char>)
    ensures
        match link_to(d.links, 0, id) {
            Some(l) => links_so(d, id, BacklinkModel { source: hit_of(d), rel: l.rel }),
            None => forall|j: int| !#[trigger] is_first_to(d.links, j, id),
        },
{
    lemma_link_to(d.links, 0, id);
    if let Some(l) = link_to(d.links, 0, id) {
        let j = choose|j: int| #[trigger] is_first_to(d.links, j, id) && d.links[j] == l;
        assert(is_first_to(d.links, j, id));
    }
}

/// The backlinks of a snapshot are those of its live documents that link to
/// `id`, each with the relation of its first link there.
pub proof fn law_snapshots_know_who_links(m: SnapshotModel, id: Seq<char>, n: int)
    requires
        0 <= n <= m.live.len(),
    ensures
        forall|k: int|
            0 <= k < back_to(m, id, n).len() ==> exists|i: int|
                0 <= i < n && links_so(#[trigger] doc_at(m, i), id, #[trigger] back_to(m, id, n)[k]),
        forall|i: int, j: int|
            0 <= i < n && #[trigger] is_first_to(doc_at(m, i).links, j, id) ==> back_to(
                m,
                id,
                n,
            ).contains(
                BacklinkModel { source: hit_of(doc_at(m, i)), rel: doc_at(m, i).links[j].rel },
            ),
    decreases n,
{
    if n > 0 {
        law_snapshots_know_who_links(m, id, n - 1);
        let before = back_to(m, id, n - 1);
        let all = back_to(m, id, n);
        let d = doc_at(m, n - 1);
        lemma_links_so(d, id);
        assert forall|k: int| 0 <= k < all.len() implies exists|i: int|
            0 <= i < n && links_so(#[trigger] doc_at(m, i), id, #[trigger] all[k]) by {
            if k < before.len() {
                assert(all[k] == before[k]);
                let i = choose|i: int|
                    0 <= i < n - 1 && links_so(#[trigger] doc_at(m, i), id, before[k]);
                assert(links_so(doc_at(m, i), id, all[k]));
            } else {
                assert(links_so(doc_at(m, n - 1), id, all[k]));
            }
        }
        assert forall|i: int, j: int|
            0 <= i < n && #[trigger] is_first_to(doc_at(m, i).links, j, id) implies all.contains(
            BacklinkModel { source: hit_of(doc_at(m, i)), rel: doc_at(m, i).links[j].rel },
        ) by {
            let x = BacklinkModel { source: hit_of(doc_at(m, i)), rel: doc_at(m, i).links[j].rel };
            match link_to(d.links, 0, id) {
                Some(l) => {
                    let y = BacklinkModel { source: hit_of(d), rel: l.rel };
                    crate::reason::lemma_push_contains(before, y, x);
                    if i == n - 1 {
                        lemma_link_to(d.links, 0, id);
                        let j2 = choose|j2: int| #[trigger]
                            is_first_to(d.links, j2, id) && d.links[j2] == l;
                        if j2 < j {
                            assert(d.links[j2].target != id);
                        }
                        if j < j2 {
                            assert(d.links[j].target != id);
                        }
                    }
                },
                None => {},
            }
        }
    }
}

/// A snapshot decides on a write as a store does that has the same head: the
/// same writes go through, with the same hash, the same word on what is new and
/// the same revision.
pub proof fn law_snapshots_decide_as_stores_do(
    m: SnapshotModel,
    s: StoreModel,
    req: RequestModel,
    actor: PrincipalModel,
    b: Budget,
)
    requires
        head_hash(m, req.concept_id) == hash_of(live(s, req.concept_id)),
        m.next_seq < u64::MAX,
        last_version(m, req.concept_id) < u64::MAX,
    ensures
        decided(m, req, actor, b) is Ok <==> committed(s, req, actor, b).1 is Ok,
        decided(m, req, actor, b) is Err ==> decided(m, req, actor, b)->Err_0 == committed(
            s,
            req,
            actor,
            b,
        ).1->Err_0,
        decided(m, req, actor, b) is Ok ==> ({
            let o = committed(s, req, actor, b).1->Ok_0;
            match decided(m, req, actor, b)->Ok_0 {
                DecidedModel::NoChange(x) => o.no_change && x.no_change && !x.created
                    && x.content_id == o.content_id,
                DecidedModel::Write(w) => {
                    &&& !o.no_change
                    &&& w.created == o.created
                    &&& w.revision.result == o.content_id
                    &&& w.revision.concept_id == req.concept_id
                    &&& w.revision.base == o.revision->0.base
                    &&& w.revision.actor == actor
                    &&& w.revision.reason == req.reason
                },
            }
        }),
{
}

/// One of the first `n` live documents, `p.0`, has a link to `p.1`.
pub open spec fn links_away(m: SnapshotModel, n: int, p: (Seq<char>, Seq<char>)) -> bool {
    exists|i: int| 0 <= i < n && #[trigger] links_from(m, i, p)
}

pub open spec fn links_from(m: SnapshotModel, i: int, p: (Seq<char>, Seq<char>)) -> bool {
    m.live[i].0 == p.0 && exists|j: int|
        0 <= j < doc_at(m, i).links.len() && (#[trigger] doc_at(m, i).links[j]).target == p.1
}

proof fn lemma_leading(m: SnapshotModel, n: int, kind: Standing, p: (Seq<char>, Seq<char>))
    requires
        0 <= n <= m.live.len(),
    ensures
        leading_to(links_of(m), n, None, standing_fn(m), kind).contains(p) <==> links_away(m, n, p)
            && stands(m, p.1) == kind,
    decreases n,
{
    if n > 0 {
        lemma_leading(m, n - 1, kind, p);
        let rest = leading_to(links_of(m), n - 1, None, standing_fn(m), kind);
        let (id, links) = links_of(m)[n - 1];
        let more = pairs(id, picked(links, links.len() as int, standing_fn(m), kind));
        lemma_picked(links, links.len() as int, standing_fn(m), kind, id, p);
        crate::reason::lemma_concat_contains(rest, more, p);
        if links_away(m, n - 1, p) {
            let i = choose|i: int| 0 <= i < n - 1 && #[trigger] links_from(m, i, p);
            assert(links_from(m, i, p));
        }
        if more.contains(p) {
            let j = choose|j: int|
                0 <= j < links.len() && (#[trigger] links[j]).target == p.1 && stands(m, p.1)
                    == kind;
            assert(doc_at(m, n - 1).links[j].target == p.1);
            assert(links_from(m, n - 1, p));
        }
        if links_from(m, n - 1, p) {
            let j = choose|j: int|
                0 <= j < doc_at(m, n - 1).links.len() && (#[trigger] doc_at(
                    m,
                    n - 1,
                ).links[j]).target == p.1;
            assert(links[j].target == p.1);
        }
    }
}

/// A snapshot reports the links of its documents to what never was, and those
/// to what is deleted: no others, and all of them where there is room.
pub proof fn law_snapshots_report_bad_links(
    m: SnapshotModel,
    b: Budget,
    p: (Seq<char>, Seq<char>),
)
    ensures
        ({
            let v = validated(m, None, b);
            let n = m.live.len() as int;
            let unknown = !present(m.live, p.1) && !present(m.gone, p.1);
            let deleted = !present(m.live, p.1) && present(m.gone, p.1);
            &&& v.broken_links.contains(p) ==> links_away(m, n, p) && unknown
            &&& v.broken_links.len() < b.max_search_results && links_away(m, n, p) && unknown
                ==> v.broken_links.contains(p)
            &&& v.deleted_referenced.contains(p) ==> links_away(m, n, p) && deleted
            &&& v.deleted_referenced.len() < b.max_search_results && links_away(m, n, p) && deleted
                ==> v.deleted_referenced.contains(p)
        }),
{
    let n = m.live.len() as int;
    lemma_leading(m, n, Standing::Missing, p);
    lemma_leading(m, n, Standing::Gone, p);
    lemma_first(leading_to(links_of(m), n, None, standing_fn(m), Standing::Missing), b, p);
    lemma_first(leading_to(links_of(m), n, None, standing_fn(m), Standing::Gone), b, p);
}

proof fn lemma_first(
    all: Seq<(Seq<char>, Seq<char>)>,
    b: Budget,
    p: (Seq<char>, Seq<char>),
)
    ensures
        first(all, b.max_search_results).contains(p) ==> all.contains(p),
        first(all, b.max_search_results).len() < b.max_search_results ==> first(
            all,
            b.max_search_results,
        ) == all,
{
    let some = first(all, b.max_search_results);
    if some.contains(p) {
        let k = choose|k: int| 0 <= k < some.len() && some[k] == p;
        assert(all[k] == p);
    }
}

proof fn lemma_types(m: SnapshotModel, t: Seq<char>, n: int)
    requires
        0 <= n <= m.live.len(),
    ensures
        types_to(m, n).len() == n,
        occurrences(types_to(m, n), t) == how_many(
            m.live.take(n),
            |x: (Seq<char>, LiveModel)| x.1.doc.doc_type == t,
        ),
    decreases n,
{
    reveal(Seq::filter);
    if n > 0 {
        lemma_types(m, t, n - 1);
        let some = m.live.take(n);
        assert(some.drop_last() =~= m.live.take(n - 1));
        assert(types_to(m, n).drop_last() =~= types_to(m, n - 1));
        assert(some.last() == m.live[n - 1]);
    }
}

/// The types of a snapshot are counted by how many live documents have each.
pub proof fn law_snapshots_count_types(m: SnapshotModel, b: Budget, k: int)
    requires
        m.live.len() <= usize::MAX,
        0 <= k < measured(m, b).by_type.len(),
    ensures
        measured(m, b).documents == m.live.len(),
        measured(m, b).deleted_documents == m.gone.len(),
        ({
            let (t, c) = measured(m, b).by_type[k];
            c > 0 && c == how_many(
                m.live,
                |x: (Seq<char>, LiveModel)| x.1.doc.doc_type == t,
            )
        }),
{
    let n = m.live.len() as int;
    let keys = types_to(m, n);
    let list = measured(m, b).by_type;
    let t = list[k].0;
    lemma_types(m, t, n);
    assert(m.live.take(n) =~= m.live);
    let counts = tally(keys);
    crate::survey::lemma_tally(keys);
    crate::survey::lemma_ranking(counts, counts.len() as int);
    let r = ranking(counts, counts.len() as int);
    assert(list[k] == r[k]);
    assert(r.contains(r[k]));
    let i = choose|i: int| 0 <= i < counts.len() && #[trigger] counts[i] == r[k];
    lemma_has(counts, i);
    law_tallies_count_occurrences(keys, t);
}

} // verus!

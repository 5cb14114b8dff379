//! A state that was brought up to date in place is the state that reading the
//! repository anew would give.

use vstd::prelude::*;
use crate::github::{
    built, folded, gone_to, next_after, refined, refined_all, said_of, with_file, with_revision,
    DraftModel, Standings,
};
use crate::memory::default_budget;
use crate::model::{valid_id, PrincipalModel, RevisionModel};
use crate::okf::parsed;
use crate::plan::{in_order, lemma_sorted_len, sorted_in, sorted_to};
use crate::snapshot::{
    decided, doomed, live_model, with_deletion, with_write, LiveModel, SnapshotModel, WriteModel,
};
use crate::store::{DeleteModel, RequestModel};
use crate::table::{
    ascending, del, lemma_del_ascending, lemma_has, lemma_lookup_del, lemma_lookup_put,
    lemma_put_ascending, lemma_same_answers, lookup, present, put,
};
use crate::text::{find_char_from, lemma_find_char_from, lines, lines_from, strip_cr};
use crate::trailer::{
    flattened, flattened_to, law_trailer_round_trip, message_text, trailer_in, trailer_text,
    trailers, trailers_to, RevOp, Trailer, TrailerModel,
};

verus! {

// ---------------------------------------------------------------------
// The order of revisions
// ---------------------------------------------------------------------

/// Numbers do not go down.
spec fn by_number(s: Seq<TrailerModel>) -> bool {
    forall|i: int, j: int|
        0 <= i <= j < s.len() ==> (#[trigger] s[i]).revision.seq <= (#[trigger] s[j]).revision.seq
}

proof fn lemma_sorted_in(s: Seq<TrailerModel>, e: TrailerModel)
    requires
        by_number(s),
    ensures
        by_number(sorted_in::<Trailer>(s, e)),
        forall|x: TrailerModel| #[trigger]
            sorted_in::<Trailer>(s, e).contains(x) <==> s.contains(x) || x == e,
    decreases s.len(),
{
    let t = sorted_in::<Trailer>(s, e);
    if s.len() == 0 || e.revision.seq < s[0].revision.seq {
        assert(t =~= seq![e] + s);
        assert forall|i: int, j: int| 0 <= i <= j < t.len() implies (#[trigger] t[i]).revision.seq
            <= (#[trigger] t[j]).revision.seq by {
            if i > 0 {
                assert(t[i] == s[i - 1] && t[j] == s[j - 1]);
            } else if j > 0 {
                assert(t[j] == s[j - 1]);
                assert(s[0].revision.seq <= s[j - 1].revision.seq);
            }
        }
        assert forall|x: TrailerModel| #[trigger] t.contains(x) <==> s.contains(x) || x == e by {
            if s.contains(x) {
                let k = choose|k: int| 0 <= k < s.len() && s[k] == x;
                assert(t[k + 1] == x);
            }
            if x == e {
                assert(t[0] == x);
            }
            if t.contains(x) && x != e {
                let k = choose|k: int| 0 <= k < t.len() && t[k] == x;
                assert(s[k - 1] == x);
            }
        }
    } else {
        let rest = s.skip(1);
        assert forall|i: int, j: int| 0 <= i <= j < rest.len() implies (
        #[trigger] rest[i]).revision.seq <= (#[trigger] rest[j]).revision.seq by {
            assert(rest[i] == s[i + 1] && rest[j] == s[j + 1]);
        }
        lemma_sorted_in(rest, e);
        let u = sorted_in::<Trailer>(rest, e);
        assert(t =~= seq![s[0]] + u);
        assert forall|i: int, j: int| 0 <= i <= j < t.len() implies (#[trigger] t[i]).revision.seq
            <= (#[trigger] t[j]).revision.seq by {
            if i > 0 {
                assert(t[i] == u[i - 1] && t[j] == u[j - 1]);
            } else if j > 0 {
                assert(t[j] == u[j - 1]);
                assert(u.contains(u[j - 1]));
                if u[j - 1] != e {
                    let k = choose|k: int| 0 <= k < rest.len() && rest[k] == u[j - 1];
                    assert(rest[k] == s[k + 1]);
                    assert(s[0].revision.seq <= s[k + 1].revision.seq);
                }
            }
        }
        assert forall|x: TrailerModel| #[trigger] t.contains(x) <==> s.contains(x) || x == e by {
            if t.contains(x) {
                let k = choose|k: int| 0 <= k < t.len() && t[k] == x;
                if k == 0 {
                    assert(s[0] == x);
                } else {
                    assert(u[k - 1] == x);
                    assert(u.contains(x));
                    if x != e {
                        let m = choose|m: int| 0 <= m < rest.len() && rest[m] == x;
                        assert(s[m + 1] == x);
                    }
                }
            }
            if s.contains(x) {
                let k = choose|k: int| 0 <= k < s.len() && s[k] == x;
                if k == 0 {
                    assert(t[0] == x);
                } else {
                    assert(rest[k - 1] == x);
                    assert(rest.contains(x));
                }
            }
            if rest.contains(x) || x == e {
                assert(u.contains(x));
                let m = choose|m: int| 0 <= m < u.len() && u[m] == x;
                assert(t[m + 1] == x);
            }
        }
    }
}

proof fn lemma_sorted(e: Seq<TrailerModel>, n: int)
    requires
        0 <= n <= e.len(),
    ensures
        by_number(sorted_to::<Trailer>(e, n)),
        forall|i: int| 0 <= i < n ==> sorted_to::<Trailer>(e, n).contains(#[trigger] e[i]),
        forall|i: int|
            0 <= i < sorted_to::<Trailer>(e, n).len() ==> e.contains(
                #[trigger] sorted_to::<Trailer>(e, n)[i],
            ),
    decreases n,
{
    let s = sorted_to::<Trailer>(e, n);
    if n > 0 {
        lemma_sorted(e, n - 1);
        let p = sorted_to::<Trailer>(e, n - 1);
        lemma_sorted_in(p, e[n - 1]);
        assert forall|i: int| 0 <= i < n implies s.contains(#[trigger] e[i]) by {
            if i < n - 1 {
                assert(p.contains(e[i]));
            }
        }
        assert forall|i: int| 0 <= i < s.len() implies e.contains(#[trigger] s[i]) by {
            assert(s.contains(s[i]));
            if s[i] == e[n - 1] {
                assert(e.contains(e[n - 1]));
            } else {
                let k = choose|k: int| 0 <= k < p.len() && p[k] == s[i];
                assert(e.contains(p[k]));
            }
        }
    }
}

/// Every number so far is below the next one.
proof fn lemma_next_is_new(e: Seq<TrailerModel>)
    requires
        next_after(in_order::<Trailer>(e)) < u64::MAX,
    ensures
        forall|i: int|
            0 <= i < e.len() ==> (#[trigger] e[i]).revision.seq < next_after(in_order::<Trailer>(e)),
{
    let s = in_order::<Trailer>(e);
    lemma_sorted(e, e.len() as int);
    lemma_sorted_len::<Trailer>(e, e.len() as int);
    assert forall|i: int| 0 <= i < e.len() implies (#[trigger] e[i]).revision.seq < next_after(s) by {
        assert(s.contains(e[i]));
        let k = choose|k: int| 0 <= k < s.len() && s[k] == e[i];
        assert(s[k].revision.seq <= s[s.len() - 1].revision.seq);
    }
}

proof fn lemma_insert_below(s: Seq<TrailerModel>, t: TrailerModel, x: TrailerModel)
    requires
        x.revision.seq < t.revision.seq,
    ensures
        sorted_in::<Trailer>(s.push(t), x) == sorted_in::<Trailer>(s, x).push(t),
    decreases s.len(),
{
    let st = s.push(t);
    if s.len() == 0 {
        assert(sorted_in::<Trailer>(st, x) =~= seq![x].push(t));
        assert(sorted_in::<Trailer>(s, x) =~= seq![x]);
    } else if x.revision.seq < s[0].revision.seq {
        assert(st[0] == s[0]);
        assert(seq![x] + st =~= (seq![x] + s).push(t));
    } else {
        assert(st[0] == s[0]);
        assert(st.skip(1) =~= s.skip(1).push(t));
        lemma_insert_below(s.skip(1), t, x);
        assert(seq![s[0]] + sorted_in::<Trailer>(s.skip(1), x).push(t) =~= (seq![s[0]]
            + sorted_in::<Trailer>(s.skip(1), x)).push(t));
    }
}

/// The latest revision, though it is read first, comes last.
proof fn lemma_latest_last(e: Seq<TrailerModel>, t: TrailerModel, n: int)
    requires
        0 <= n <= e.len(),
        forall|i: int| 0 <= i < e.len() ==> (#[trigger] e[i]).revision.seq < t.revision.seq,
    ensures
        sorted_to::<Trailer>(seq![t] + e, n + 1) == sorted_to::<Trailer>(e, n).push(t),
    decreases n,
{
    let te = seq![t] + e;
    if n == 0 {
        assert(sorted_to::<Trailer>(te, 0) =~= Seq::empty());
        assert(te[0] == t);
        assert(sorted_to::<Trailer>(te, 1) =~= seq![t]);
        assert(sorted_to::<Trailer>(e, 0).push(t) =~= seq![t]);
    } else {
        lemma_latest_last(e, t, n - 1);
        assert(te[n] == e[n - 1]);
        lemma_insert_below(sorted_to::<Trailer>(e, n - 1), t, e[n - 1]);
    }
}

// ---------------------------------------------------------------------
// What the history says
// ---------------------------------------------------------------------

proof fn lemma_said(e: Seq<TrailerModel>, t: TrailerModel, q: nat, n: int)
    requires
        0 <= n <= e.len(),
    ensures
        said_of(seq![t] + e, q, n + 1) == (match said_of(e, q, n) {
            Some(x) => Some(x),
            None => if t.revision.seq == q {
                Some(t)
            } else {
                None
            },
        }),
    decreases n,
{
    let te = seq![t] + e;
    if n > 0 {
        lemma_said(e, t, q, n - 1);
        assert(te[n] == e[n - 1]);
    } else {
        assert(te[0] == t);
        assert(said_of(te, q, 0) is None);
    }
}

proof fn lemma_not_said(e: Seq<TrailerModel>, q: nat, n: int)
    requires
        0 <= n <= e.len(),
        forall|i: int| 0 <= i < e.len() ==> (#[trigger] e[i]).revision.seq != q,
    ensures
        said_of(e, q, n) is None,
    decreases n,
{
    if n > 0 {
        lemma_not_said(e, q, n - 1);
    }
}

/// What earlier revisions lead to is the same after a later one.
proof fn lemma_folded_before(
    sorted: Seq<TrailerModel>,
    e: Seq<TrailerModel>,
    t: TrailerModel,
    n: int,
)
    requires
        0 <= n <= sorted.len(),
        forall|i: int| 0 <= i < sorted.len() ==> (#[trigger] sorted[i]).revision.seq != t.revision.seq,
    ensures
        folded(sorted.push(t), seq![t] + e, n) == folded(sorted, e, n),
    decreases n,
{
    if n > 0 {
        lemma_folded_before(sorted, e, t, n - 1);
        assert(sorted.push(t)[n - 1] == sorted[n - 1]);
        lemma_said(e, t, sorted[n - 1].revision.seq, e.len() as int);
        assert((seq![t] + e).len() == e.len() + 1);
    }
}

/// The state that a history with one more revision leads to.
proof fn lemma_folded_latest(e: Seq<TrailerModel>, t: TrailerModel)
    requires
        forall|i: int| 0 <= i < e.len() ==> (#[trigger] e[i]).revision.seq < t.revision.seq,
    ensures
        ({
            let te = seq![t] + e;
            let old_sorted = in_order::<Trailer>(e);
            let sorted = in_order::<Trailer>(te);
            &&& sorted == old_sorted.push(t)
            &&& folded(sorted, te, sorted.len() as int) == with_revision(
                folded(old_sorted, e, old_sorted.len() as int),
                t.revision.concept_id,
                Some(t),
            )
        }),
{
    let te = seq![t] + e;
    let s = in_order::<Trailer>(e);
    lemma_latest_last(e, t, e.len() as int);
    assert(te.len() == e.len() + 1);
    lemma_sorted(e, e.len() as int);
    assert forall|i: int| 0 <= i < s.len() implies (#[trigger] s[i]).revision.seq != t.revision.seq by {
        assert(e.contains(s[i]));
        let k = choose|k: int| 0 <= k < e.len() && e[k] == s[i];
        assert(e[k].revision.seq < t.revision.seq);
    }
    lemma_folded_before(s, e, t, s.len() as int);
    assert forall|i: int| 0 <= i < e.len() implies (#[trigger] e[i]).revision.seq != t.revision.seq by {}
    lemma_not_said(e, t.revision.seq, e.len() as int);
    lemma_said(e, t, t.revision.seq, e.len() as int);
    assert(s.push(t)[s.len() as int] == t);
}

proof fn lemma_folded_ascends(sorted: Seq<TrailerModel>, e: Seq<TrailerModel>, n: int)
    ensures
        ascending(folded(sorted, e, n).versions),
        ascending(folded(sorted, e, n).deleted),
    decreases n,
{
    if n > 0 {
        lemma_folded_ascends(sorted, e, n - 1);
        let before = folded(sorted, e, n - 1);
        let rev = sorted[n - 1].revision;
        match said_of(e, rev.seq, e.len() as int) {
            Some(t) => {
                lemma_put_ascending(before.versions, rev.concept_id, t.version);
                lemma_del_ascending(before.deleted, rev.concept_id);
                lemma_put_ascending(before.deleted, rev.concept_id, 0);
            },
            None => {},
        }
    }
}

// ---------------------------------------------------------------------
// Documents
// ---------------------------------------------------------------------

type Live = Seq<(Seq<char>, LiveModel)>;

type Versions = Seq<(Seq<char>, u64)>;

proof fn lemma_refined(live: Live, v: Versions, k: Seq<char>)
    requires
        ascending(live),
    ensures
        ascending(refined_all(live, v)),
        lookup(refined_all(live, v), k) == (match lookup(live, k) {
            Some(d) => Some(refined(d, lookup(v, k))),
            None => None,
        }),
{
    let r = refined_all(live, v);
    assert forall|i: int, j: int| 0 <= i < j < r.len() implies crate::table::before(
        #[trigger] r[i].0,
        #[trigger] r[j].0,
    ) by {
        assert(crate::table::before(live[i].0, live[j].0));
    }
    if present(live, k) {
        let i = crate::table::rank(live, k) as int;
        assert(live[i].0 == k);
        assert(r[i].0 == k);
        lemma_has(r, i);
        lemma_has(live, i);
    } else if present(r, k) {
        let i = crate::table::rank(r, k) as int;
        assert(live[i].0 == k);
        lemma_has(live, i);
    }
}

proof fn lemma_live_after_write(live: Live, v: Versions, id: Seq<char>, d: LiveModel, version: u64)
    requires
        ascending(live),
        ascending(v),
    ensures
        refined_all(put(live, id, d), put(v, id, version)) == put(
            refined_all(live, v),
            id,
            refined(d, Some(version)),
        ),
{
    let d2 = refined(d, Some(version));
    let a = refined_all(put(live, id, d), put(v, id, version));
    let b = put(refined_all(live, v), id, d2);
    lemma_put_ascending(live, id, d);
    lemma_refined(live, v, id);
    lemma_refined(put(live, id, d), put(v, id, version), id);
    lemma_put_ascending(refined_all(live, v), id, d2);
    assert forall|k: Seq<char>| #[trigger] lookup(a, k) == lookup(b, k) by {
        lemma_refined(put(live, id, d), put(v, id, version), k);
        lemma_lookup_put(live, id, d, k);
        lemma_lookup_put(v, id, version, k);
        lemma_refined(live, v, k);
        lemma_lookup_put(refined_all(live, v), id, d2, k);
    }
    lemma_same_answers(a, b);
}

proof fn lemma_live_after_delete(live: Live, v: Versions, id: Seq<char>)
    requires
        ascending(live),
    ensures
        refined_all(del(live, id), v) == del(refined_all(live, v), id),
{
    let a = refined_all(del(live, id), v);
    let b = del(refined_all(live, v), id);
    lemma_del_ascending(live, id);
    lemma_refined(live, v, id);
    lemma_refined(del(live, id), v, id);
    lemma_del_ascending(refined_all(live, v), id);
    assert forall|k: Seq<char>| #[trigger] lookup(a, k) == lookup(b, k) by {
        lemma_refined(del(live, id), v, k);
        lemma_lookup_del(live, id, k);
        lemma_refined(live, v, k);
        lemma_lookup_del(refined_all(live, v), id, k);
    }
    lemma_same_answers(a, b);
}

/// The version under which a deleted document is kept.
spec fn kept_version(v: Versions, k: Seq<char>) -> u64 {
    match lookup(v, k) {
        Some(x) => x,
        None => 0,
    }
}

/// Some of the first `n` entries carries the key.
spec fn carried(d: Versions, k: Seq<char>, n: int) -> bool {
    exists|i: int| 0 <= i < n && (#[trigger] d[i]).0 == k
}

proof fn lemma_gone(live: Live, s: Standings, n: int, k: Seq<char>)
    requires
        0 <= n <= s.deleted.len(),
    ensures
        ascending(gone_to(live, s, n)),
        lookup(gone_to(live, s, n), k) == (if carried(s.deleted, k, n) && !present(live, k) {
            Some(kept_version(s.versions, k))
        } else {
            None
        }),
    decreases n,
{
    if n > 0 {
        lemma_gone(live, s, n - 1, k);
        let id = s.deleted[n - 1].0;
        let before = gone_to(live, s, n - 1);
        if !present(live, id) {
            lemma_put_ascending(before, id, kept_version(s.versions, id));
            lemma_lookup_put(before, id, kept_version(s.versions, id), k);
        }
        if carried(s.deleted, k, n - 1) {
            let i = choose|i: int| 0 <= i < n - 1 && (#[trigger] s.deleted[i]).0 == k;
            assert(s.deleted[i].0 == k);
        }
    }
}

proof fn lemma_carried(d: Versions, k: Seq<char>)
    requires
        ascending(d),
    ensures
        carried(d, k, d.len() as int) == present(d, k),
{
    if carried(d, k, d.len() as int) {
        let i = choose|i: int| 0 <= i < d.len() && (#[trigger] d[i]).0 == k;
        lemma_has(d, i);
    }
    if present(d, k) {
        assert(d[crate::table::rank(d, k) as int].0 == k);
    }
}

proof fn lemma_gone_after_write(live: Live, s: Standings, id: Seq<char>, d: LiveModel, version: u64)
    requires
        ascending(live),
        ascending(s.versions),
        ascending(s.deleted),
    ensures
        ({
            let t = Standings { versions: put(s.versions, id, version), deleted: del(s.deleted, id) };
            gone_to(put(live, id, d), t, t.deleted.len() as int) == del(
                gone_to(live, s, s.deleted.len() as int),
                id,
            )
        }),
{
    let t = Standings { versions: put(s.versions, id, version), deleted: del(s.deleted, id) };
    let a = gone_to(put(live, id, d), t, t.deleted.len() as int);
    let g = gone_to(live, s, s.deleted.len() as int);
    let b = del(g, id);
    lemma_del_ascending(s.deleted, id);
    lemma_gone(put(live, id, d), t, t.deleted.len() as int, id);
    lemma_gone(live, s, s.deleted.len() as int, id);
    lemma_del_ascending(g, id);
    assert forall|k: Seq<char>| #[trigger] lookup(a, k) == lookup(b, k) by {
        lemma_gone(put(live, id, d), t, t.deleted.len() as int, k);
        lemma_gone(live, s, s.deleted.len() as int, k);
        lemma_carried(t.deleted, k);
        lemma_carried(s.deleted, k);
        lemma_lookup_del(s.deleted, id, k);
        lemma_lookup_put(live, id, d, k);
        lemma_lookup_put(s.versions, id, version, k);
        lemma_lookup_del(g, id, k);
    }
    lemma_same_answers(a, b);
}

proof fn lemma_gone_after_delete(live: Live, s: Standings, id: Seq<char>, version: u64)
    requires
        ascending(live),
        ascending(s.deleted),
        lookup(s.versions, id) == Some(version),
    ensures
        ({
            let t = Standings { versions: s.versions, deleted: put(s.deleted, id, 0) };
            gone_to(del(live, id), t, t.deleted.len() as int) == put(
                gone_to(live, s, s.deleted.len() as int),
                id,
                version,
            )
        }),
{
    let t = Standings { versions: s.versions, deleted: put(s.deleted, id, 0) };
    let a = gone_to(del(live, id), t, t.deleted.len() as int);
    let g = gone_to(live, s, s.deleted.len() as int);
    let b = put(g, id, version);
    lemma_put_ascending(s.deleted, id, 0);
    lemma_gone(del(live, id), t, t.deleted.len() as int, id);
    lemma_gone(live, s, s.deleted.len() as int, id);
    lemma_put_ascending(g, id, version);
    assert forall|k: Seq<char>| #[trigger] lookup(a, k) == lookup(b, k) by {
        lemma_gone(del(live, id), t, t.deleted.len() as int, k);
        lemma_gone(live, s, s.deleted.len() as int, k);
        lemma_carried(t.deleted, k);
        lemma_carried(s.deleted, k);
        lemma_lookup_put(s.deleted, id, 0, k);
        lemma_lookup_del(live, id, k);
        lemma_lookup_put(g, id, version, k);
    }
    lemma_same_answers(a, b);
}

// ---------------------------------------------------------------------
// The laws
// ---------------------------------------------------------------------

/// The repository after a commit: its file is there, and its revision is the
/// first to be read.
pub open spec fn repository_after_write(
    d: DraftModel,
    req: RequestModel,
    w: WriteModel,
    file_sha: Seq<char>,
) -> DraftModel {
    DraftModel {
        live: with_file(d, req.concept_id, req.markdown, file_sha).live,
        entries: seq![
            TrailerModel { op: RevOp::Commit, revision: w.revision, version: w.version },
        ] + d.entries,
    }
}

/// Updating the state in place after a commit gives what reading the
/// repository anew would give.
pub proof fn law_in_place_equals_read_anew(
    d: DraftModel,
    head: Seq<char>,
    req: RequestModel,
    actor: PrincipalModel,
    file_sha: Seq<char>,
    new_head: Seq<char>,
)
    requires
        ascending(d.live),
        decided(built(d, head), req, actor, default_budget()) is Ok,
        decided(built(d, head), req, actor, default_budget())->Ok_0 is Write,
    ensures
        ({
            let w = decided(built(d, head), req, actor, default_budget())->Ok_0->Write_0;
            built(repository_after_write(d, req, w, file_sha), new_head) == (SnapshotModel {
                head_sha: new_head,
                ..with_write(built(d, head), req.markdown, w, file_sha)
            })
        }),
{
    let m = built(d, head);
    let w = decided(m, req, actor, default_budget())->Ok_0->Write_0;
    let id = req.concept_id;
    let e = d.entries;
    let t = TrailerModel { op: RevOp::Commit, revision: w.revision, version: w.version };
    let sorted = in_order::<Trailer>(e);
    let s = folded(sorted, e, sorted.len() as int);
    lemma_next_is_new(e);
    lemma_folded_latest(e, t);
    lemma_folded_ascends(sorted, e, sorted.len() as int);
    let doc = parsed(req.markdown, default_budget())->Ok_0;
    let d1 = live_model(id, req.markdown, doc, 1, file_sha);
    lemma_live_after_write(d.live, s.versions, id, d1, w.version);
    lemma_gone_after_write(d.live, s, id, d1, w.version);
    let anew = built(repository_after_write(d, req, w, file_sha), new_head);
    let placed = with_write(m, req.markdown, w, file_sha);
    assert(anew.revisions =~= placed.revisions);
    assert(anew.live == placed.live);
    assert(anew.gone == placed.gone);
}

/// The repository after a deletion.
pub open spec fn repository_after_delete(d: DraftModel, id: Seq<char>, out: DeleteModel) -> DraftModel {
    DraftModel {
        live: del(d.live, id),
        entries: seq![
            TrailerModel {
                op: RevOp::Delete,
                revision: out.revision,
                version: out.version as u64,
            },
        ] + d.entries,
    }
}

/// The version that the history gives a document.
pub open spec fn told_version(d: DraftModel, id: Seq<char>) -> Option<u64> {
    let sorted = in_order::<Trailer>(d.entries);
    lookup(folded(sorted, d.entries, sorted.len() as int).versions, id)
}

/// Updating the state in place after a deletion gives what reading the
/// repository anew would give, for a document that the history knows.
pub proof fn law_in_place_deletion_equals_read_anew(
    d: DraftModel,
    head: Seq<char>,
    id: Seq<char>,
    expected: Seq<u8>,
    actor: PrincipalModel,
    reason: Seq<char>,
    new_head: Seq<char>,
)
    requires
        ascending(d.live),
        told_version(d, id) is Some,
        doomed(built(d, head), id, expected, actor, reason) is Ok,
    ensures
        ({
            let out = doomed(built(d, head), id, expected, actor, reason)->Ok_0;
            built(repository_after_delete(d, id, out), new_head) == (SnapshotModel {
                head_sha: new_head,
                ..with_deletion(built(d, head), out)
            })
        }),
{
    let m = built(d, head);
    let out = doomed(m, id, expected, actor, reason)->Ok_0;
    let e = d.entries;
    let t = TrailerModel {
        op: RevOp::Delete,
        revision: out.revision,
        version: out.version as u64,
    };
    let sorted = in_order::<Trailer>(e);
    let s = folded(sorted, e, sorted.len() as int);
    let version = told_version(d, id)->0;
    lemma_next_is_new(e);
    lemma_folded_latest(e, t);
    lemma_folded_ascends(sorted, e, sorted.len() as int);
    lemma_refined(d.live, s.versions, id);
    assert(out.version == version);
    lemma_live_after_delete(d.live, s.versions, id);
    lemma_gone_after_delete(d.live, s, id, version);
    let anew = built(repository_after_delete(d, id, out), new_head);
    let placed = with_deletion(m, out);
    assert(anew.revisions =~= placed.revisions);
    assert(anew.live == placed.live);
    assert(anew.gone == placed.gone);
}

// ---------------------------------------------------------------------
// Messages
// ---------------------------------------------------------------------

proof fn lemma_flattened(s: Seq<char>, n: int)
    requires
        0 <= n <= s.len(),
    ensures
        flattened_to(s, n).len() == n,
        !flattened_to(s, n).contains('\n'),
        !flattened_to(s, n).contains('\r'),
    decreases n,
{
    if n > 0 {
        lemma_flattened(s, n - 1);
        let p = flattened_to(s, n - 1);
        let f = flattened_to(s, n);
        assert forall|i: int| 0 <= i < f.len() implies f[i] != '\n' && f[i] != '\r' by {
            if i < p.len() {
                assert(f[i] == p[i]);
                assert(p.contains(p[i]));
            }
        }
    }
}

proof fn lemma_digits_on_one_line(n: nat)
    ensures
        !crate::text::dec(n).contains('\n'),
{
    crate::number::lemma_dec_digits(n);
    let d = crate::text::dec(n);
    assert forall|i: int| 0 <= i < d.len() implies d[i] != '\n' by {
        assert(crate::number::is_digit(d[i]));
    }
}

proof fn lemma_hex_on_one_line(b: Seq<u8>)
    ensures
        !crate::model::hex(b).contains('\n'),
{
    let h = crate::model::hex(b);
    assert forall|i: int| 0 <= i < h.len() implies h[i] != '\n' by {
        assert(0 <= b[i / 2] as int / 16 < 16);
    }
}

proof fn lemma_concat_on_one_line(a: Seq<char>, b: Seq<char>)
    requires
        !a.contains('\n'),
        !b.contains('\n'),
    ensures
        !(a + b).contains('\n'),
{
    let c = a + b;
    assert forall|i: int| 0 <= i < c.len() implies c[i] != '\n' by {
        if i < a.len() {
            assert(c[i] == a[i]);
            assert(a.contains(a[i]));
        } else {
            assert(c[i] == b[i - a.len()]);
            assert(b.contains(b[i - a.len()]));
        }
    }
}

/// The line of a revision is a line.
proof fn lemma_trailer_on_one_line(op: RevOp, rev: RevisionModel, version: u64)
    requires
        valid_id(rev.concept_id),
        !rev.actor.subject.contains('\n'),
        !rev.actor.client_id.contains('\n'),
    ensures
        !trailer_text(op, rev, version).contains('\n'),
{
    reveal_strlit("Memory-Rev: ");
    reveal_strlit("|");
    reveal_strlit("-");
    reveal_strlit("commit");
    reveal_strlit("delete");
    let bar = "|"@;
    assert(!bar.contains('\n'));
    lemma_digits_on_one_line(rev.seq);
    lemma_digits_on_one_line(version as nat);
    lemma_hex_on_one_line(rev.result);
    let base = crate::trailer::base_text(rev.base);
    match rev.base {
        Some(b) => lemma_hex_on_one_line(b),
        None => {
            assert(!base.contains('\n'));
        },
    }
    let name = crate::trailer::op_name(op);
    assert(!name.contains('\n'));
    assert(!rev.concept_id.contains('\n')) by {
        if rev.concept_id.contains('\n') {
            let k = choose|k: int| 0 <= k < rev.concept_id.len() && rev.concept_id[k] == '\n';
            assert(crate::model::is_id_char(rev.concept_id[k]));
        }
    }
    lemma_flattened(rev.reason, rev.reason.len() as int);
    let p0 = crate::trailer::REV_TRAILER@;
    assert(!p0.contains('\n'));
    let p1 = p0 + crate::text::dec(rev.seq);
    lemma_concat_on_one_line(p0, crate::text::dec(rev.seq));
    lemma_concat_on_one_line(p1, bar);
    let p2 = p1 + bar + name;
    lemma_concat_on_one_line(p1 + bar, name);
    lemma_concat_on_one_line(p2, bar);
    let p3 = p2 + bar + rev.concept_id;
    lemma_concat_on_one_line(p2 + bar, rev.concept_id);
    lemma_concat_on_one_line(p3, bar);
    let p4 = p3 + bar + crate::text::dec(version as nat);
    lemma_concat_on_one_line(p3 + bar, crate::text::dec(version as nat));
    lemma_concat_on_one_line(p4, bar);
    let p5 = p4 + bar + base;
    lemma_concat_on_one_line(p4 + bar, base);
    lemma_concat_on_one_line(p5, bar);
    let p6 = p5 + bar + crate::model::hex(rev.result);
    lemma_concat_on_one_line(p5 + bar, crate::model::hex(rev.result));
    lemma_concat_on_one_line(p6, bar);
    let p7 = p6 + bar + rev.actor.subject;
    lemma_concat_on_one_line(p6 + bar, rev.actor.subject);
    lemma_concat_on_one_line(p7, bar);
    let p8 = p7 + bar + rev.actor.client_id;
    lemma_concat_on_one_line(p7 + bar, rev.actor.client_id);
    lemma_concat_on_one_line(p8, bar);
    lemma_concat_on_one_line(p8 + bar, flattened(rev.reason));
}

proof fn lemma_next_newline(s: Seq<char>, i: int, k: int)
    requires
        0 <= i <= k < s.len(),
        s[k] == '\n',
        forall|j: int| i <= j < k ==> s[j] != '\n',
    ensures
        find_char_from(s, i, '\n') == Some(k),
{
    lemma_find_char_from(s, i, '\n');
}

/// The message of a commit gives back exactly the revision that it was written
/// for, with its reason on one line, unless the reason looks like a revision
/// itself.
pub proof fn law_messages_carry_their_revision(op: RevOp, rev: RevisionModel, version: u64)
    requires
        rev.seq <= u64::MAX,
        valid_id(rev.concept_id),
        rev.base is Some ==> rev.base->0.len() == 32,
        rev.result.len() == 32,
        !rev.actor.subject.contains('|') && !rev.actor.subject.contains('\n'),
        !rev.actor.client_id.contains('|') && !rev.actor.client_id.contains('\n'),
        trailer_in(flattened(rev.reason)) is None,
    ensures
        trailers(message_text(op, rev, version)) == seq![
            TrailerModel {
                op,
                revision: RevisionModel { reason: flattened(rev.reason), ..rev },
                version,
            },
        ],
{
    reveal_strlit("\n\n");
    reveal_strlit("Memory-Rev: ");
    let head = flattened(rev.reason);
    let line = trailer_text(op, rev, version);
    let all = message_text(op, rev, version);
    let n = head.len() as int;
    lemma_flattened(rev.reason, rev.reason.len() as int);
    lemma_trailer_on_one_line(op, rev, version);
    law_trailer_round_trip(op, rev, version);
    assert(all[n] == '\n' && all[n + 1] == '\n');
    assert(all.len() == n + 2 + line.len());
    assert(line.len() > 0);
    assert forall|j: int| 0 <= j < n implies all[j] != '\n' by {
        assert(all[j] == head[j]);
        assert(head.contains(head[j]));
    }
    assert forall|j: int| n + 2 <= j < all.len() implies all[j] != '\n' by {
        assert(all[j] == line[j - n - 2]);
        assert(line.contains(line[j - n - 2]));
    }
    lemma_next_newline(all, 0, n);
    lemma_next_newline(all, n + 1, n + 1);
    lemma_find_char_from(all, n + 2, '\n');
    let empty = Seq::<char>::empty();
    assert(lines_from(all, n + 2) =~= seq![line]) by {
        assert(all.skip(n + 2) =~= line);
    }
    assert(all.subrange(n + 1, n + 1) =~= empty);
    assert(all.subrange(0, n) =~= head);
    if n > 0 {
        assert(head.contains(head[n - 1]));
        assert(head.last() != '\r');
    }
    assert(strip_cr(head) == head);
    assert(lines_from(all, n + 1) =~= seq![empty] + seq![line]) by {
        assert(strip_cr(empty) == empty);
    }
    assert(lines(all) == seq![head] + lines_from(all, n + 1));
    assert(lines(all) =~= seq![head, empty, line]);
    assert(trailer_in(empty) is None);
    let ls = lines(all);
    assert(ls[0] == head && ls[1] == empty && ls[2] == line);
    assert(trailers_to(ls, 0) =~= Seq::empty());
    assert(trailers_to(ls, 1) =~= Seq::empty());
    assert(trailers_to(ls, 2) =~= Seq::empty());
    assert(trailers_to(ls, 3) =~= seq![trailer_in(line)->0]);
}

} // verus!

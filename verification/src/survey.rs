//! Measures and findings over a graph of documents, whatever store holds it.

use vstd::prelude::*;
use crate::memory::LinkList;
use crate::model::{valid_id, ConceptId};
use crate::okf::{Link, LinkModel};
use crate::store::{matches_prefix, under, HealthModel, LinkHealth, ReportModel, ValidationReport};
use crate::table::{
    before, lemma_before_irreflexive, lemma_before_total, lemma_put_entries, lookup, present, put,
    str_before, Table,
};
use crate::text::{lemma_views_push, opt_view, views};

verus! {

/// How a concept stands.
#[derive(Clone, Copy, PartialEq, Eq, Structural)]
pub enum Standing {
    /// A live document.
    Alive,
    /// A deleted document.
    Gone,
    /// There never was one.
    Missing,
}

/// Whoever knows how concepts stand.
pub trait Register {
    spec fn standing(&self, id: Seq<char>) -> Standing;

    fn standing_of(&self, id: &ConceptId) -> (r: Standing)
        ensures
            r == self.standing(id@),
    ;
}

/// Documents with their links, by id.
pub type Sources = Seq<(Seq<char>, Seq<LinkModel>)>;

/// The first `cap` elements.
pub open spec fn first<A>(s: Seq<A>, cap: usize) -> Seq<A> {
    if s.len() <= cap {
        s
    } else {
        s.take(cap as int)
    }
}

/// A count, held at the largest machine number.
pub open spec fn clip(n: nat) -> usize {
    if n <= usize::MAX {
        n as usize
    } else {
        usize::MAX
    }
}

// ---------------------------------------------------------------------
// Links and where they lead
// ---------------------------------------------------------------------

/// Those of the first `n` links whose targets stand as `kind`.
pub open spec fn picked(
    links: Seq<LinkModel>,
    n: int,
    standing: spec_fn(Seq<char>) -> Standing,
    kind: Standing,
) -> Seq<LinkModel>
    decreases n,
{
    if n <= 0 {
        Seq::empty()
    } else if standing(links[n - 1].target) == kind {
        picked(links, n - 1, standing, kind).push(links[n - 1])
    } else {
        picked(links, n - 1, standing, kind)
    }
}

/// The links of a document by the state of their targets.
pub open spec fn health(
    links: Seq<LinkModel>,
    standing: spec_fn(Seq<char>) -> Standing,
) -> HealthModel {
    let n = links.len() as int;
    HealthModel {
        ok: picked(links, n, standing, Standing::Alive),
        broken: picked(links, n, standing, Standing::Missing),
        deleted: picked(links, n, standing, Standing::Gone),
    }
}

/// `source` paired with each of some links' targets.
pub open spec fn pairs(source: Seq<char>, links: Seq<LinkModel>) -> Seq<(Seq<char>, Seq<char>)> {
    Seq::new(links.len(), |i: int| (source, links[i].target))
}

/// The links of the first `n` documents under a path whose targets stand as
/// `kind`, as pairs of source and target.
pub open spec fn leading_to(
    sources: Sources,
    n: int,
    prefix: Option<Seq<char>>,
    standing: spec_fn(Seq<char>) -> Standing,
    kind: Standing,
) -> Seq<(Seq<char>, Seq<char>)>
    decreases n,
{
    if n <= 0 {
        Seq::empty()
    } else {
        let rest = leading_to(sources, n - 1, prefix, standing, kind);
        let (id, links) = sources[n - 1];
        if prefix is None || under(id, prefix->0) {
            rest + pairs(id, picked(links, links.len() as int, standing, kind))
        } else {
            rest
        }
    }
}

/// The findings over some documents.
pub open spec fn report(
    sources: Sources,
    prefix: Option<Seq<char>>,
    standing: spec_fn(Seq<char>) -> Standing,
    cap: usize,
) -> ReportModel {
    let n = sources.len() as int;
    let broken = leading_to(sources, n, prefix, standing, Standing::Missing);
    let deleted = leading_to(sources, n, prefix, standing, Standing::Gone);
    ReportModel {
        broken_links: first(broken, cap),
        broken_links_total: clip(broken.len()),
        deleted_referenced: first(deleted, cap),
        deleted_referenced_total: clip(deleted.len()),
        missing_embeddings: Seq::empty(),
        missing_embeddings_total: 0,
    }
}

/// The standing of concepts as a function.
pub open spec fn standing_in<R: Register>(reg: &R) -> spec_fn(Seq<char>) -> Standing {
    |id: Seq<char>| reg.standing(id)
}

/// Sorts links by the state of their targets.
pub(crate) fn check_links<R: Register>(links: &Vec<Link>, reg: &R) -> (r: LinkHealth)
    ensures
        r@ == health(views(links@), standing_in(reg)),
{
    let mut ok: Vec<Link> = Vec::new();
    let mut broken: Vec<Link> = Vec::new();
    let mut deleted: Vec<Link> = Vec::new();
    let mut i: usize = 0;
    let ghost f = standing_in(reg);
    assert(views(ok@) =~= Seq::empty());
    assert(views(broken@) =~= Seq::empty());
    assert(views(deleted@) =~= Seq::empty());
    while i < links.len()
        invariant
            i <= links.len(),
            f == standing_in(reg),
            views(ok@) == picked(views(links@), i as int, f, Standing::Alive),
            views(broken@) == picked(views(links@), i as int, f, Standing::Missing),
            views(deleted@) == picked(views(links@), i as int, f, Standing::Gone),
        decreases links.len() - i,
    {
        assert(views(links@)[i as int] == links@[i as int]@);
        let l = links[i].clone();
        match reg.standing_of(&links[i].target) {
            Standing::Alive => {
                proof {
                    lemma_views_push(ok@, l);
                }
                ok.push(l);
            },
            Standing::Missing => {
                proof {
                    lemma_views_push(broken@, l);
                }
                broken.push(l);
            },
            Standing::Gone => {
                proof {
                    lemma_views_push(deleted@, l);
                }
                deleted.push(l);
            },
        }
        i += 1;
    }
    LinkHealth { ok, broken, deleted }
}

/// A list of pairs that keeps the first ones and counts them all.
struct Capped {
    list: Vec<(ConceptId, ConceptId)>,
    total: usize,
}

impl Capped {
    spec fn holds(&self, all: Seq<(Seq<char>, Seq<char>)>, cap: usize) -> bool {
        views(self.list@) == first(all, cap) && self.total == clip(all.len())
    }

    fn new(cap: usize) -> (r: Capped)
        ensures
            r.holds(Seq::empty(), cap),
    {
        let r = Capped { list: Vec::new(), total: 0 };
        assert(views(r.list@) =~= Seq::empty());
        r
    }

    fn add(&mut self, source: &ConceptId, target: &ConceptId, cap: usize, Ghost(all): Ghost<
        Seq<(Seq<char>, Seq<char>)>,
    >)
        requires
            old(self).holds(all, cap),
        ensures
            final(self).holds(all.push((source@, target@)), cap),
    {
        let ghost more = all.push((source@, target@));
        if self.total < usize::MAX {
            self.total = self.total + 1;
        }
        if self.list.len() < cap {
            let p = (source.clone(), target.clone());
            proof {
                lemma_views_push(self.list@, p);
            }
            self.list.push(p);
            assert(first(more, cap) =~= first(all, cap).push((source@, target@)));
        } else {
            assert(first(more, cap) =~= first(all, cap));
        }
    }
}

/// Collects the links that lead nowhere.
pub(crate) fn check_sources<R: Register>(
    sources: &Vec<(&ConceptId, &LinkList)>,
    prefix: Option<&str>,
    reg: &R,
    cap: usize,
) -> (r: ValidationReport)
    ensures
        r@ == report(views(sources@), opt_view(prefix), standing_in(reg), cap),
{
    let mut broken = Capped::new(cap);
    let mut deleted = Capped::new(cap);
    let ghost f = standing_in(reg);
    let ghost p = opt_view(prefix);
    let ghost all = views(sources@);
    let mut i: usize = 0;
    while i < sources.len()
        invariant
            i <= sources.len(),
            f == standing_in(reg),
            p == opt_view(prefix),
            all == views(sources@),
            broken.holds(leading_to(all, i as int, p, f, Standing::Missing), cap),
            deleted.holds(leading_to(all, i as int, p, f, Standing::Gone), cap),
        decreases sources.len() - i,
    {
        let (id, list) = sources[i];
        assert(all[i as int] == (id@, list@));
        let here = match prefix {
            Some(t) => matches_prefix(id.as_str(), t),
            None => true,
        };
        i += 1;
        if !here {
            continue;
        }
        let ghost b0 = leading_to(all, i - 1, p, f, Standing::Missing);
        let ghost d0 = leading_to(all, i - 1, p, f, Standing::Gone);
        let ghost links = list@;
        let mut j: usize = 0;
        assert(b0 + pairs(id@, picked(links, 0, f, Standing::Missing)) =~= b0);
        assert(d0 + pairs(id@, picked(links, 0, f, Standing::Gone)) =~= d0);
        while j < list.links.len()
            invariant
                j <= list.links.len(),
                links == views(list.links@),
                f == standing_in(reg),
                broken.holds(
                    b0 + pairs(id@, picked(links, j as int, f, Standing::Missing)),
                    cap,
                ),
                deleted.holds(d0 + pairs(id@, picked(links, j as int, f, Standing::Gone)), cap),
            decreases list.links.len() - j,
        {
            let target = &list.links[j].target;
            assert(links[j as int].target == target@);
            let ghost pb = picked(links, j as int, f, Standing::Missing);
            let ghost pd = picked(links, j as int, f, Standing::Gone);
            match reg.standing_of(target) {
                Standing::Alive => {},
                Standing::Missing => {
                    broken.add(id, target, cap, Ghost(b0 + pairs(id@, pb)));
                    assert(pairs(id@, pb.push(links[j as int])) =~= pairs(id@, pb).push(
                        (id@, target@),
                    ));
                    assert(b0 + pairs(id@, pb.push(links[j as int])) =~= (b0 + pairs(
                        id@,
                        pb,
                    )).push((id@, target@)));
                },
                Standing::Gone => {
                    deleted.add(id, target, cap, Ghost(d0 + pairs(id@, pd)));
                    assert(pairs(id@, pd.push(links[j as int])) =~= pairs(id@, pd).push(
                        (id@, target@),
                    ));
                    assert(d0 + pairs(id@, pd.push(links[j as int])) =~= (d0 + pairs(
                        id@,
                        pd,
                    )).push((id@, target@)));
                },
            }
            j += 1;
        }
    }
    let none: Vec<ConceptId> = Vec::new();
    assert(views(none@) =~= Seq::<Seq<char>>::empty());
    ValidationReport {
        broken_links: broken.list,
        broken_links_total: broken.total,
        deleted_referenced: deleted.list,
        deleted_referenced_total: deleted.total,
        missing_embeddings: none,
        missing_embeddings_total: 0,
    }
}

// ---------------------------------------------------------------------
// Counting
// ---------------------------------------------------------------------

/// Counts per key, in ascending key order.
pub type Counts = Seq<(Seq<char>, usize)>;

/// One more of `k`.
pub open spec fn bump(t: Counts, k: Seq<char>) -> Counts {
    put(
        t,
        k,
        match lookup(t, k) {
            Some(n) => if n < usize::MAX {
                (n + 1) as usize
            } else {
                n
            },
            None => 1usize,
        },
    )
}

/// How often each key occurs.
pub open spec fn tally(keys: Seq<Seq<char>>) -> Counts
    decreases keys.len(),
{
    if keys.len() == 0 {
        Seq::empty()
    } else {
        bump(tally(keys.drop_last()), keys.last())
    }
}

/// `a` ranks before `b`: more frequent, or as frequent and first by key.
pub open spec fn outranks(a: (Seq<char>, usize), b: (Seq<char>, usize)) -> bool {
    a.1 > b.1 || (a.1 == b.1 && before(a.0, b.0))
}

/// `e` put before the first entry that it outranks.
pub open spec fn ranked_in(s: Counts, e: (Seq<char>, usize)) -> Counts
    decreases s.len(),
{
    if s.len() == 0 || outranks(e, s[0]) {
        seq![e] + s
    } else {
        seq![s[0]] + ranked_in(s.skip(1), e)
    }
}

/// The first `n` counts, most frequent first.
pub open spec fn ranking(t: Counts, n: int) -> Counts
    decreases n,
{
    if n <= 0 {
        Seq::empty()
    } else {
        ranked_in(ranking(t, n - 1), t[n - 1])
    }
}

/// The `cap` most frequent keys.
pub open spec fn most_frequent(keys: Seq<Seq<char>>, cap: usize) -> Counts {
    let t = tally(keys);
    first(ranking(t, t.len() as int), cap)
}

pub open spec fn in_rank_order(s: Counts) -> bool {
    forall|i: int, j: int| 0 <= i < j < s.len() ==> outranks(#[trigger] s[i], #[trigger] s[j])
}

proof fn lemma_outranks(
    a: (Seq<char>, usize),
    b: (Seq<char>, usize),
    c: (Seq<char>, usize),
)
    ensures
        outranks(a, b) && outranks(b, c) ==> outranks(a, c),
        a.0 != b.0 && !outranks(a, b) ==> outranks(b, a),
{
    if before(a.0, b.0) && before(b.0, c.0) {
        crate::table::lemma_before_transitive(a.0, b.0, c.0);
    }
    lemma_before_total(a.0, b.0);
}

proof fn lemma_ranked_in(s: Counts, e: (Seq<char>, usize))
    ensures
        ranked_in(s, e).len() == s.len() + 1,
        forall|x: (Seq<char>, usize)| #[trigger]
            ranked_in(s, e).contains(x) <==> s.contains(x) || x == e,
        in_rank_order(s) && (forall|i: int| 0 <= i < s.len() ==> (#[trigger] s[i]).0 != e.0)
            ==> in_rank_order(ranked_in(s, e)),
    decreases s.len(),
{
    let t = ranked_in(s, e);
    if s.len() == 0 || outranks(e, s[0]) {
        assert(t[0] == e);
        assert forall|x: (Seq<char>, usize)| #[trigger] t.contains(x) <==> s.contains(x) || x == e by {
            if s.contains(x) {
                let k = choose|k: int| 0 <= k < s.len() && s[k] == x;
                assert(t[k + 1] == x);
            }
            if t.contains(x) && x != e {
                let k = choose|k: int| 0 <= k < t.len() && t[k] == x;
                assert(s[k - 1] == x);
            }
        }
        if in_rank_order(s) && (forall|i: int| 0 <= i < s.len() ==> (#[trigger] s[i]).0 != e.0) {
            assert forall|i: int, j: int| 0 <= i < j < t.len() implies outranks(
                #[trigger] t[i],
                #[trigger] t[j],
            ) by {
                assert(t[j] == s[j - 1]);
                if i > 0 {
                    assert(t[i] == s[i - 1]);
                } else if j > 1 {
                    lemma_outranks(e, s[0], s[j - 1]);
                }
            }
        }
    } else {
        let rest = s.skip(1);
        let u = ranked_in(rest, e);
        lemma_ranked_in(rest, e);
        assert(t[0] == s[0]);
        assert forall|x: (Seq<char>, usize)| #[trigger] t.contains(x) <==> s.contains(x) || x == e by {
            if s.contains(x) || x == e {
                if s.contains(x) {
                    let k = choose|k: int| 0 <= k < s.len() && s[k] == x;
                    if k > 0 {
                        assert(rest[k - 1] == x);
                        assert(rest.contains(x));
                    }
                }
                if u.contains(x) {
                    let k = choose|k: int| 0 <= k < u.len() && u[k] == x;
                    assert(t[k + 1] == x);
                }
            }
            if t.contains(x) {
                let k = choose|k: int| 0 <= k < t.len() && t[k] == x;
                if k > 0 {
                    assert(u[k - 1] == x);
                    assert(u.contains(x));
                    if rest.contains(x) {
                        let m = choose|m: int| 0 <= m < rest.len() && rest[m] == x;
                        assert(s[m + 1] == x);
                    }
                } else {
                    assert(s[0] == x);
                }
            }
        }
        if in_rank_order(s) && (forall|i: int| 0 <= i < s.len() ==> (#[trigger] s[i]).0 != e.0) {
            assert(in_rank_order(rest));
            assert forall|i: int| 0 <= i < rest.len() implies (#[trigger] rest[i]).0 != e.0 by {
                assert(rest[i] == s[i + 1]);
            }
            assert forall|i: int, j: int| 0 <= i < j < t.len() implies outranks(
                #[trigger] t[i],
                #[trigger] t[j],
            ) by {
                assert(t[j] == u[j - 1]);
                if i > 0 {
                    assert(t[i] == u[i - 1]);
                } else {
                    assert(u.contains(t[j]));
                    if t[j] == e {
                        lemma_outranks(e, s[0], e);
                    } else {
                        assert(rest.contains(t[j]));
                        let m = choose|m: int| 0 <= m < rest.len() && rest[m] == t[j];
                        assert(s[m + 1] == t[j]);
                    }
                }
            }
        }
    }
}

pub proof fn lemma_ranking(t: Counts, n: int)
    requires
        0 <= n <= t.len(),
    ensures
        ranking(t, n).len() == n,
        forall|x: (Seq<char>, usize)| #[trigger]
            ranking(t, n).contains(x) ==> exists|k: int| 0 <= k < n && #[trigger] t[k] == x,
        crate::table::ascending(t) ==> in_rank_order(ranking(t, n)),
    decreases n,
{
    if n > 0 {
        lemma_ranking(t, n - 1);
        let s = ranking(t, n - 1);
        lemma_ranked_in(s, t[n - 1]);
        assert forall|x: (Seq<char>, usize)| #[trigger] ranking(t, n).contains(x) implies exists|
            k: int,
        |
            0 <= k < n && #[trigger] t[k] == x by {
            if s.contains(x) {
                let k = choose|k: int| 0 <= k < n - 1 && #[trigger] t[k] == x;
                assert(t[k] == x);
            } else {
                assert(t[n - 1] == x);
            }
        }
        if crate::table::ascending(t) {
            assert forall|i: int| 0 <= i < s.len() implies (#[trigger] s[i]).0 != t[n - 1].0 by {
                assert(s.contains(s[i]));
                let k = choose|k: int| 0 <= k < n - 1 && #[trigger] t[k] == s[i];
                assert(before(t[k].0, t[n - 1].0));
                lemma_before_irreflexive(t[k].0);
            }
        }
    }
}

pub proof fn lemma_tally(keys: Seq<Seq<char>>)
    ensures
        crate::table::ascending(tally(keys)),
        forall|i: int|
            0 <= i < tally(keys).len() ==> keys.contains((#[trigger] tally(keys)[i]).0),
        forall|k: Seq<char>| keys.contains(k) <==> #[trigger] present(tally(keys), k),
    decreases keys.len(),
{
    if keys.len() > 0 {
        let rest = keys.drop_last();
        lemma_tally(rest);
        let t = tally(rest);
        let k = keys.last();
        let n = match lookup(t, k) {
            Some(n) => if n < usize::MAX {
                (n + 1) as usize
            } else {
                n
            },
            None => 1usize,
        };
        crate::table::lemma_put_ascending(t, k, n);
        assert forall|i: int| 0 <= i < tally(keys).len() implies keys.contains(
            (#[trigger] tally(keys)[i]).0,
        ) by {
            lemma_put_entries(t, k, n, i);
            if tally(keys)[i] == (k, n) {
                assert(keys[keys.len() - 1] == k);
            } else {
                let j = choose|j: int| 0 <= j < t.len() && t[j] == tally(keys)[i];
                assert(rest.contains(t[j].0));
                let m = choose|m: int| 0 <= m < rest.len() && rest[m] == t[j].0;
                assert(keys[m] == t[j].0);
            }
        }
        assert forall|q: Seq<char>| keys.contains(q) <==> #[trigger] present(tally(keys), q) by {
            crate::table::lemma_lookup_put(t, k, n, q);
            assert(rest.contains(q) <==> present(t, q));
            if keys.contains(q) && q != k {
                let m = choose|m: int| 0 <= m < keys.len() && keys[m] == q;
                assert(rest[m] == q);
            }
            if rest.contains(q) {
                let m = choose|m: int| 0 <= m < rest.len() && rest[m] == q;
                assert(keys[m] == q);
            }
            assert(keys[keys.len() - 1] == k);
        }
    }
}

/// The most frequent keys come in order of frequency, ties by key, at most
/// `cap` of them.
pub proof fn law_most_frequent_is_ranked(keys: Seq<Seq<char>>, cap: usize)
    ensures
        in_rank_order(most_frequent(keys, cap)),
        most_frequent(keys, cap).len() <= cap,
        forall|i: int|
            0 <= i < most_frequent(keys, cap).len() ==> keys.contains(
                (#[trigger] most_frequent(keys, cap)[i]).0,
            ),
{
    lemma_tally(keys);
    let t = tally(keys);
    lemma_ranking(t, t.len() as int);
    let r = ranking(t, t.len() as int);
    let m = most_frequent(keys, cap);
    assert forall|i: int| 0 <= i < m.len() implies keys.contains((#[trigger] m[i]).0) by {
        assert(m[i] == r[i]);
        assert(r.contains(r[i]));
        let k = choose|k: int| 0 <= k < t.len() && #[trigger] t[k] == r[i];
        assert(keys.contains(t[k].0));
    }
    assert forall|i: int, j: int| 0 <= i < j < m.len() implies outranks(
        #[trigger] m[i],
        #[trigger] m[j],
    ) by {
        assert(m[i] == r[i] && m[j] == r[j]);
    }
}

/// A key is counted exactly when it occurs.
pub proof fn law_tally_counts_what_occurs(keys: Seq<Seq<char>>, k: Seq<char>)
    ensures
        present(tally(keys), k) <==> keys.contains(k),
{
    lemma_tally(keys);
}

/// Counts one more of a key.
pub(crate) fn count(t: &mut Table<usize>, k: &str, Ghost(keys): Ghost<Seq<Seq<char>>>)
    requires
        old(t)@ == tally(keys),
    ensures
        final(t)@ == tally(keys.push(k@)),
{
    let n: usize = match t.get(k) {
        Some(n) => {
            if *n < usize::MAX {
                *n + 1
            } else {
                *n
            }
        },
        None => 1,
    };
    t.insert(k.to_owned(), n);
    assert(keys.push(k@).drop_last() =~= keys);
}

fn rank_in(s: &mut Vec<(String, usize)>, e: (String, usize))
    ensures
        views(final(s)@) == ranked_in(views(old(s)@), e@),
{
    let mut i: usize = 0;
    let ghost all = views(s@);
    assert(all.skip(0) =~= all);
    assert(all.take(0) + ranked_in(all.skip(0), e@) =~= ranked_in(all, e@));
    while i < s.len() && !(e.1 > s[i].1 || (e.1 == s[i].1 && str_before(
        e.0.as_str(),
        s[i].0.as_str(),
    )))
        invariant
            i <= s.len(),
            *s == *old(s),
            all == views(s@),
            all.take(i as int) + ranked_in(all.skip(i as int), e@) == ranked_in(all, e@),
        decreases s.len() - i,
    {
        proof {
            let rest = all.skip(i as int);
            assert(rest[0] == s@[i as int]@);
            assert(rest.skip(1) =~= all.skip(i + 1));
            assert(all.take(i as int) + (seq![rest[0]] + ranked_in(rest.skip(1), e@)) =~= all.take(
                i + 1,
            ) + ranked_in(all.skip(i + 1), e@));
        }
        i += 1;
    }
    proof {
        let rest = all.skip(i as int);
        if i < s.len() {
            assert(rest[0] == s@[i as int]@);
        }
        assert(ranked_in(rest, e@) == seq![e@] + rest);
        assert(all.insert(i as int, e@) =~= all.take(i as int) + (seq![e@] + rest));
    }
    let ghost ev = e@;
    s.insert(i, e);
    assert(views(s@) =~= all.insert(i as int, ev));
}

/// The most frequent of the keys counted.
pub(crate) fn rank_counts(t: &Table<usize>, cap: usize, Ghost(keys): Ghost<Seq<Seq<char>>>) -> (r:
    Vec<(String, usize)>)
    requires
        t@ == tally(keys),
    ensures
        views(r@) == most_frequent(keys, cap),
{
    let mut out: Vec<(String, usize)> = Vec::new();
    let mut i: usize = 0;
    let n = t.len();
    assert(views(out@) =~= Seq::empty());
    while i < n
        invariant
            i <= n,
            n == t@.len(),
            views(out@) == ranking(t@, i as int),
        decreases n - i,
    {
        rank_in(&mut out, (t.key(i).to_owned(), *t.value(i)));
        i += 1;
    }
    let ghost full = out@;
    if out.len() > cap {
        out.truncate(cap);
        assert(views(out@) =~= views(full).take(cap as int));
    }
    out
}

/// The same counts, with the keys as concept ids.
pub(crate) fn as_ids(v: &Vec<(String, usize)>) -> (r: Vec<(ConceptId, usize)>)
    requires
        forall|i: int| 0 <= i < v@.len() ==> valid_id((#[trigger] v@[i]).0@),
    ensures
        views(r@) == views(v@),
{
    let mut out: Vec<(ConceptId, usize)> = Vec::new();
    let mut i: usize = 0;
    while i < v.len()
        invariant
            i <= v.len(),
            forall|i: int| 0 <= i < v@.len() ==> valid_id((#[trigger] v@[i]).0@),
            out@.len() == i,
            forall|k: int| 0 <= k < i ==> (#[trigger] out@[k])@ == v@[k]@,
        decreases v.len() - i,
    {
        match ConceptId::parse(v[i].0.as_str()) {
            Ok(id) => {
                out.push((id, v[i].1));
            },
            Err(_) => {
                assert(false);
            },
        }
        i += 1;
    }
    assert(views(out@) =~= views(v@));
    out
}

/// The targets of the links of the first `n` documents.
pub open spec fn all_targets(sources: Sources, n: int) -> Seq<Seq<char>>
    decreases n,
{
    if n <= 0 {
        Seq::empty()
    } else {
        all_targets(sources, n - 1) + crate::memory::link_targets(sources[n - 1].1)
    }
}

/// Counts the links that lead to each concept.
pub(crate) fn count_targets(sources: &Vec<(&ConceptId, &LinkList)>) -> (r: Table<usize>)
    ensures
        r@ == tally(all_targets(views(sources@), sources@.len() as int)),
        forall|k: Seq<char>|
            all_targets(views(sources@), sources@.len() as int).contains(k) ==> #[trigger] valid_id(
                k,
            ),
{
    let mut t: Table<usize> = Table::new();
    let ghost all = views(sources@);
    let mut i: usize = 0;
    while i < sources.len()
        invariant
            i <= sources.len(),
            all == views(sources@),
            t@ == tally(all_targets(all, i as int)),
            forall|k: Seq<char>|
                all_targets(all, i as int).contains(k) ==> #[trigger] valid_id(k),
        decreases sources.len() - i,
    {
        let (id, list) = sources[i];
        assert(all[i as int] == (id@, list@));
        let ghost so_far = all_targets(all, i as int);
        let ghost ts = crate::memory::link_targets(list@);
        let mut j: usize = 0;
        assert(so_far + ts.take(0) =~= so_far);
        while j < list.links.len()
            invariant
                j <= list.links.len(),
                ts == crate::memory::link_targets(views(list.links@)),
                t@ == tally(so_far + ts.take(j as int)),
                forall|k: Seq<char>|
                    (so_far + ts.take(j as int)).contains(k) ==> #[trigger] valid_id(k),
            decreases list.links.len() - j,
        {
            let k = list.links[j].target.as_str();
            assert(ts[j as int] == k@);
            let ghost now = so_far + ts.take(j as int);
            count(&mut t, k, Ghost(now));
            proof {
                assert(so_far + ts.take(j + 1) =~= now.push(k@));
                assert forall|q: Seq<char>| now.push(k@).contains(q) implies #[trigger] valid_id(
                    q,
                ) by {
                    let m = choose|m: int| 0 <= m < now.push(k@).len() && now.push(k@)[m] == q;
                    if m < now.len() {
                        assert(now[m] == q);
                        assert(now.contains(q));
                    }
                }
            }
            j += 1;
        }
        assert(ts.take(j as int) =~= ts);
        i += 1;
    }
    t
}

} // verus!

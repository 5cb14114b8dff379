//! Maintenance of the store in memory.

use vstd::prelude::*;
use crate::memory::{
    default_budget, lemma_head_ok, live, served, store_ok, Core, HeadModel, InMemoryStore,
    LinkList, StoreModel,
};
use crate::model::{Budget, ConceptId};
use crate::repo::{Answer, StoreMaintenance};
use crate::store::{
    EmbedModel, EmbedOutcome, GraphStats, HealthModel, LinkHealth, ReportModel, StatsModel,
    StoreError, StoreErrorModel, StoreStatus, ValidationReport,
};
use crate::survey::{
    all_targets, as_ids, check_links, check_sources, count, count_targets, health, most_frequent,
    rank_counts, report, standing_in, tally, Register, Standing,
};
use crate::table::{lemma_has, lookup, present, Table};
use crate::text::{lemma_views_push, res_view, views};

verus! {

/// How a concept stands in a store.
pub open spec fn stands(s: StoreModel, id: Seq<char>) -> Standing {
    match lookup(s.heads, id) {
        Some(h) => if h.deleted {
            Standing::Gone
        } else {
            Standing::Alive
        },
        None => Standing::Missing,
    }
}

pub open spec fn standing_fn(s: StoreModel) -> spec_fn(Seq<char>) -> Standing {
    |id: Seq<char>| stands(s, id)
}

impl Register for Core {
    open(crate) spec fn standing(&self, id: Seq<char>) -> Standing {
        stands(self@, id)
    }

    fn standing_of(&self, id: &ConceptId) -> (r: Standing) {
        match self.heads.get(id.as_str()) {
            Some(h) => {
                if h.deleted {
                    Standing::Gone
                } else {
                    Standing::Alive
                }
            },
            None => Standing::Missing,
        }
    }
}

/// The links of `id` by the state of their targets.
pub open spec fn examined(s: StoreModel, id: Seq<char>) -> Answer<HealthModel> {
    match lookup(s.links, id) {
        Some(links) if live(s, id) is Some => Ok(health(links, standing_fn(s))),
        _ => Err(StoreErrorModel::NotFound(id)),
    }
}

/// The links that lead nowhere.
pub open spec fn validated(s: StoreModel, prefix: Option<Seq<char>>, b: Budget) -> ReportModel {
    report(s.links, prefix, standing_fn(s), b.max_search_results)
}

/// How many of the first `n` heads are buried, or not.
pub open spec fn heads_with(heads: Seq<(Seq<char>, HeadModel)>, n: int, deleted: bool) -> nat
    decreases n,
{
    if n <= 0 {
        0
    } else {
        heads_with(heads, n - 1, deleted) + if heads[n - 1].1.deleted == deleted {
            1nat
        } else {
            0nat
        }
    }
}

/// The types and the tags of the documents that the first `n` heads serve.
pub open spec fn described(s: StoreModel, n: int, b: Budget) -> Answer<
    (Seq<Seq<char>>, Seq<Seq<char>>),
>
    decreases n,
{
    if n <= 0 {
        Ok((Seq::empty(), Seq::empty()))
    } else {
        match described(s, n - 1, b) {
            Err(e) => Err(e),
            Ok((types, tags)) => if s.heads[n - 1].1.deleted {
                Ok((types, tags))
            } else {
                match served(s, s.heads[n - 1].1, b) {
                    Err(e) => Err(e),
                    Ok(d) => Ok((types.push(d.doc_type), tags + d.tags)),
                }
            },
        }
    }
}

/// The first `cap` live documents, among the first `n` heads, without links
/// either way.
pub open spec fn alone(s: StoreModel, n: int, linked: Seq<Seq<char>>, cap: usize) -> Seq<Seq<char>>
    decreases n,
{
    if n <= 0 {
        Seq::empty()
    } else {
        let rest = alone(s, n - 1, linked, cap);
        let h = s.heads[n - 1].1;
        if rest.len() < cap && !h.deleted && no_links(s, h.id) && !linked.contains(h.id) {
            rest.push(h.id)
        } else {
            rest
        }
    }
}

pub open spec fn no_links(s: StoreModel, id: Seq<char>) -> bool {
    match lookup(s.links, id) {
        Some(l) => l.len() == 0,
        None => true,
    }
}

/// The measures of a store.
pub open spec fn measured(s: StoreModel, b: Budget) -> Answer<StatsModel> {
    let n = s.heads.len() as int;
    let cap = b.max_search_results;
    match described(s, n, b) {
        Err(e) => Err(e),
        Ok((types, tags)) => {
            let linked = all_targets(s.links, s.links.len() as int);
            Ok(
                StatsModel {
                    documents: heads_with(s.heads, n, false),
                    deleted_documents: heads_with(s.heads, n, true),
                    by_type: most_frequent(types, cap),
                    by_tag: most_frequent(tags, cap),
                    top_linked: most_frequent(linked, cap),
                    orphans: alone(s, n, linked, cap),
                },
            )
        },
    }
}

/// The state of a store at a glance.
pub open spec fn glanced(s: StoreModel) -> StoreStatus {
    let n = s.heads.len() as int;
    let found = validated(s, None, default_budget());
    StoreStatus {
        documents: heads_with(s.heads, n, false) as usize,
        deleted_documents: heads_with(s.heads, n, true) as usize,
        missing_embeddings: 0,
        broken_links: found.broken_links_total,
        deleted_referenced: found.deleted_referenced_total,
        outbox_pending: 0,
        outbox_failed: 0,
    }
}

/// The error of a document of some head among the first `m` decides.
proof fn lemma_described_error(s: StoreModel, m: int, n: int, b: Budget)
    requires
        0 <= m <= n,
        described(s, m, b) is Err,
    ensures
        described(s, n, b) == described(s, m, b),
    decreases n,
{
    if n > m {
        lemma_described_error(s, m, n - 1, b);
    }
}

impl Core {
    /// The live documents with their links, by id.
    fn sources(&self) -> (r: Vec<(&ConceptId, &LinkList)>)
        requires
            store_ok(self@),
        ensures
            views(r@) == self@.links,
    {
        let mut out: Vec<(&ConceptId, &LinkList)> = Vec::new();
        let n = self.links.len();
        let mut i: usize = 0;
        assert(views(out@) =~= self@.links.take(0));
        while i < n
            invariant
                i <= n,
                n == self.links@.len(),
                store_ok(self@),
                views(out@) == self@.links.take(i as int),
            decreases n - i,
        {
            let key = self.links.key(i);
            proof {
                lemma_has(self@.links, i as int);
                assert(present(self@.links, key@));
            }
            match self.live_head(key) {
                Some(h) => {
                    proof {
                        lemma_head_ok(self@, key@);
                    }
                    let e = (&h.id, self.links.value(i));
                    proof {
                        lemma_views_push(out@, e);
                        assert(e@ == self@.links[i as int]);
                    }
                    out.push(e);
                },
                None => {
                    assert(false);
                },
            }
            i += 1;
            assert(self@.links.take(i as int) =~= self@.links.take(i - 1).push(self@.links[i - 1]));
        }
        assert(self@.links.take(n as int) =~= self@.links);
        out
    }

    fn count_heads(&self, deleted: bool) -> (r: usize)
        ensures
            r == heads_with(self@.heads, self@.heads.len() as int, deleted),
    {
        let mut c: usize = 0;
        let mut i: usize = 0;
        let n = self.heads.len();
        while i < n
            invariant
                i <= n,
                n == self.heads@.len(),
                c == heads_with(self@.heads, i as int, deleted),
                c <= i,
            decreases n - i,
        {
            if self.heads.value(i).deleted == deleted {
                c += 1;
            }
            i += 1;
        }
        c
    }

    fn orphans(&self, incoming: &Table<usize>, cap: usize, Ghost(linked): Ghost<
        Seq<Seq<char>>,
    >) -> (r: Vec<ConceptId>)
        requires
            incoming@ == tally(linked),
        ensures
            views(r@) == alone(self@, self@.heads.len() as int, linked, cap),
    {
        let mut out: Vec<ConceptId> = Vec::new();
        let mut i: usize = 0;
        let n = self.heads.len();
        assert(views(out@) =~= Seq::<Seq<char>>::empty());
        while i < n
            invariant
                i <= n,
                n == self.heads@.len(),
                incoming@ == tally(linked),
                views(out@) == alone(self@, i as int, linked, cap),
            decreases n - i,
        {
            let h = self.heads.value(i);
            let quiet = match self.links.get(h.id.as_str()) {
                Some(l) => l.links.len() == 0,
                None => true,
            };
            proof {
                crate::survey::law_tally_counts_what_occurs(linked, h.id@);
            }
            if out.len() < cap && !h.deleted && quiet && !incoming.contains(h.id.as_str()) {
                let id = h.id.clone();
                proof {
                    lemma_views_push(out@, id);
                }
                out.push(id);
            }
            i += 1;
        }
        out
    }

    fn stats(&self, budget: &Budget) -> (r: Result<GraphStats, StoreError>)
        requires
            store_ok(self@),
        ensures
            res_view(r) == measured(self@, *budget),
    {
        let cap = budget.max_search_results;
        let mut by_type: Table<usize> = Table::new();
        let mut by_tag: Table<usize> = Table::new();
        let ghost mut types: Seq<Seq<char>> = Seq::empty();
        let ghost mut tags: Seq<Seq<char>> = Seq::empty();
        let mut i: usize = 0;
        let n = self.heads.len();
        while i < n
            invariant
                i <= n,
                n == self.heads@.len(),
                by_type@ == tally(types),
                by_tag@ == tally(tags),
                described(self@, i as int, *budget) == Ok::<_, StoreErrorModel>((types, tags)),
            decreases n - i,
        {
            let h = self.heads.value(i);
            i += 1;
            if h.deleted {
                continue;
            }
            match self.serve(h, budget) {
                Err(e) => {
                    proof {
                        lemma_described_error(self@, i as int, n as int, *budget);
                    }
                    return Err(e);
                },
                Ok(d) => {
                    count(&mut by_type, d.doc_type.as_str(), Ghost(types));
                    let ghost t0 = tags;
                    let ghost more = views(d.tags@);
                    let mut j: usize = 0;
                    assert(t0 + more.take(0) =~= t0);
                    while j < d.tags.len()
                        invariant
                            j <= d.tags.len(),
                            more == views(d.tags@),
                            tags == t0 + more.take(j as int),
                            by_tag@ == tally(tags),
                        decreases d.tags.len() - j,
                    {
                        assert(more[j as int] == d.tags@[j as int]@);
                        count(&mut by_tag, d.tags[j].as_str(), Ghost(tags));
                        proof {
                            assert(t0 + more.take(j + 1) =~= tags.push(more[j as int]));
                            tags = tags.push(more[j as int]);
                        }
                        j += 1;
                    }
                    assert(more.take(j as int) =~= more);
                    proof {
                        types = types.push(d.doc_type@);
                    }
                },
            }
        }
        let sources = self.sources();
        let incoming = count_targets(&sources);
        let ghost linked = all_targets(self@.links, self@.links.len() as int);
        let top = rank_counts(&incoming, cap, Ghost(linked));
        proof {
            crate::survey::law_most_frequent_is_ranked(linked, cap);
            assert forall|k: int| 0 <= k < top@.len() implies crate::model::valid_id(
                (#[trigger] top@[k]).0@,
            ) by {
                assert(views(top@)[k].0 == top@[k].0@);
                assert(linked.contains(views(top@)[k].0));
            }
        }
        Ok(
            GraphStats {
                documents: self.count_heads(false),
                deleted_documents: self.count_heads(true),
                by_type: rank_counts(&by_type, cap, Ghost(types)),
                by_tag: rank_counts(&by_tag, cap, Ghost(tags)),
                top_linked: as_ids(&top),
                orphans: self.orphans(&incoming, cap, Ghost(linked)),
            },
        )
    }
}

/// What indexing gives where there is no semantic index.
pub open spec fn nothing_embedded() -> EmbedModel {
    EmbedModel { embedded: Seq::empty(), failed: Seq::empty(), remaining: 0 }
}

/// What indexing gives where there is no semantic index.
pub fn no_embeddings() -> (r: EmbedOutcome)
    ensures
        r@ == nothing_embedded(),
{
    let r = EmbedOutcome { embedded: Vec::new(), failed: Vec::new(), remaining: 0 };
    assert(r@.embedded =~= Seq::empty());
    assert(r@.failed =~= Seq::empty());
    r
}

impl StoreMaintenance for InMemoryStore {
    open spec fn link_health_rel(&self, id: Seq<char>, r: Answer<HealthModel>) -> bool {
        r == examined(self@, id)
    }

    open spec fn validate_rel(
        &self,
        prefix: Option<Seq<char>>,
        b: Budget,
        r: Answer<ReportModel>,
    ) -> bool {
        r == Ok::<_, StoreErrorModel>(validated(self@, prefix, b))
    }

    open spec fn stats_rel(&self, b: Budget, r: Answer<StatsModel>) -> bool {
        r == measured(self@, b)
    }

    open spec fn status_rel(&self, r: Answer<StoreStatus>) -> bool {
        r == Ok::<_, StoreErrorModel>(glanced(self@))
    }

    open spec fn embed_rel(
        pre: Self,
        prefix: Option<Seq<char>>,
        max: usize,
        post: Self,
        r: Answer<EmbedModel>,
    ) -> bool {
        post@ == pre@ && r == Ok::<_, StoreErrorModel>(nothing_embedded())
    }

    fn link_health(&self, id: &ConceptId) -> (r: Result<LinkHealth, StoreError>) {
        let data = self.state();
        match (data.live_head(id.as_str()), data.links.get(id.as_str())) {
            (Some(_), Some(l)) => {
                let r = check_links(&l.links, data);
                assert(standing_in(data) =~= standing_fn(self@));
                Ok(r)
            },
            _ => Err(StoreError::NotFound(id.clone())),
        }
    }

    fn validate(&self, path_prefix: Option<&str>, budget: &Budget) -> (r: Result<
        ValidationReport,
        StoreError,
    >) {
        let data = self.state();
        let sources = data.sources();
        let r = check_sources(&sources, path_prefix, data, budget.max_search_results);
        assert(standing_in(data) =~= standing_fn(self@));
        Ok(r)
    }

    fn stats(&self, budget: &Budget) -> (r: Result<GraphStats, StoreError>) {
        self.state().stats(budget)
    }

    fn status(&self) -> (r: Result<StoreStatus, StoreError>) {
        let budget = Budget::default();
        let found = match self.validate(None, &budget) {
            Ok(f) => f,
            Err(e) => {
                return Err(e);
            },
        };
        let data = self.state();
        Ok(
            StoreStatus {
                documents: data.count_heads(false),
                deleted_documents: data.count_heads(true),
                missing_embeddings: 0,
                broken_links: found.broken_links_total,
                deleted_referenced: found.deleted_referenced_total,
                outbox_pending: 0,
                outbox_failed: 0,
            },
        )
    }

    /// Search in memory is textual: there is never anything to index.
    fn embed_pending(&mut self, path_prefix: Option<&str>, max: usize) -> (r: Result<
        EmbedOutcome,
        StoreError,
    >) {
        Ok(no_embeddings())
    }
}

} // verus!

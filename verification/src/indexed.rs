//! A store of truth with a read index beside it.
//!
//! Writes go to the truth first and decide the answer; the index follows as
//! best it can, with one retry, and what it misses is a warning. Reads go to
//! the index, except the history.

use vstd::prelude::*;
use crate::graph::NeighborSource;
use crate::memory::{committed, InMemoryStore, StoreModel};
use crate::model::{
    Budget, ConceptId, ContentId, Principal, PrincipalModel, Revision, RevisionModel,
};
use crate::ontology::{Triple, Triples};
use crate::repo::{
    hinted_answer, opt_answer, plain_answer, Answer, HeadHintSource, HintedRepository,
    MemoryRepository, StoreMaintenance, TripleStore,
};
use crate::store::{
    clone_requests, Backlink, BacklinkModel, BulkModel, BulkOutcome, CommitOutcome, CommitRequest,
    DeleteModel, DeleteOutcome, DocViewModel, DocumentView, EmbedModel, EmbedOutcome, GraphStats,
    HealthModel, HintModel, HitModel, LinkHealth, OutcomeModel, QueryModel, ReportModel,
    RequestModel, SearchHit, SearchQuery, StatsModel, StoreError, StoreErrorModel, StoreStatus,
    ValidationReport,
};
use crate::text::{lemma_views_push, opt_view, res_view, views};

verus! {

/// A store of truth `G` and a read index `S`.
pub struct IndexedStore<G, S> {
    github: G,
    supabase: S,
}

impl<G, S> IndexedStore<G, S> {
    /// The store of truth.
    pub closed spec fn truth(self) -> G {
        self.github
    }

    /// The read index.
    pub closed spec fn index(self) -> S {
        self.supabase
    }

    pub fn new(github: G, supabase: S) -> (r: Self)
        ensures
            r.truth() == github,
            r.index() == supabase,
    {
        IndexedStore { github, supabase }
    }

    /// The store of truth.
    pub fn github(&self) -> (r: &G)
        ensures
            *r == self.truth(),
    {
        &self.github
    }

    /// The read index.
    pub fn supabase(&self) -> (r: &S)
        ensures
            *r == self.index(),
    {
        &self.supabase
    }
}

// ---------------------------------------------------------------------
// Warnings
// ---------------------------------------------------------------------

pub open spec fn commit_warning(e: StoreErrorModel) -> Seq<char> {
    "IndexedStore: Best-effort commit to Supabase failed (reconciler will repair): "@ + e.message()
}

pub open spec fn delete_warning(e: StoreErrorModel) -> Seq<char> {
    "IndexedStore: Best-effort delete from Supabase failed (reconciler will repair): "@
        + e.message()
}

pub open spec fn token_warning(e: StoreErrorModel) -> Seq<char> {
    "IndexedStore: no se pudo guardar el token CAS en Supabase (el reconciler lo reparará): "@
        + e.message()
}

/// The outcome with one more warning.
pub open spec fn warned(o: OutcomeModel, w: Seq<char>) -> OutcomeModel {
    OutcomeModel { warnings: o.warnings.push(w), ..o }
}

pub open spec fn delete_warned(o: DeleteModel, w: Seq<char>) -> DeleteModel {
    DeleteModel { warnings: o.warnings.push(w), ..o }
}

fn warning(text: &str, e: &StoreError) -> (r: String)
    ensures
        r@ == text@ + e@.message(),
{
    let mut w = text.to_owned();
    w.push_str(e.message().as_str());
    w
}

// ---------------------------------------------------------------------
// Steps of a write
// ---------------------------------------------------------------------

/// A hint that could not be had is no hint.
pub open spec fn hint_or_none(h: Answer<Option<HintModel>>) -> Option<HintModel> {
    match h {
        Ok(x) => x,
        Err(_) => None,
    }
}

/// A plain write gives no token.
pub open spec fn tokenless(r: Answer<OutcomeModel>) -> Answer<(OutcomeModel, Option<Seq<char>>)> {
    match r {
        Ok(o) => Ok((o, None)),
        Err(e) => Err(e),
    }
}

/// What a refused answer says.
pub open spec fn refusal<T>(r: Answer<T>) -> Option<StoreErrorModel> {
    match r {
        Ok(_) => None,
        Err(e) => Some(e),
    }
}

/// The write to the truth: by the cheap path where the index reserves a number
/// and hints at the head, else by the plain path. `s1` is the index after the
/// reservation.
pub open spec fn truth_commit<G, S>(
    pre: IndexedStore<G, S>,
    req: RequestModel,
    actor: PrincipalModel,
    b: Budget,
    g1: G,
    s1: S,
    w: Answer<(OutcomeModel, Option<Seq<char>>)>,
) -> bool where G: MemoryRepository + HintedRepository, S: MemoryRepository + HeadHintSource {
    exists|n: Answer<u64>| #[trigger]
        S::reserve_rel(pre.index(), s1, n) && match n {
            Ok(k) => exists|h: Answer<Option<HintModel>>| #[trigger]
                s1.head_hint_rel(req.concept_id, h) && G::commit_hinted_rel(
                    pre.truth(),
                    req,
                    actor,
                    b,
                    hint_or_none(h),
                    k,
                    g1,
                    w,
                ),
            Err(_) => exists|r: Answer<OutcomeModel>| #[trigger]
                G::commit_rel(pre.truth(), req, actor, b, g1, r) && w == tokenless(r),
        }
}

/// The write to the index, tried twice; `e` is what the last try said if both
/// failed.
pub open spec fn index_commit<S: MemoryRepository>(
    s1: S,
    req: RequestModel,
    actor: PrincipalModel,
    b: Budget,
    s2: S,
    e: Option<StoreErrorModel>,
) -> bool {
    exists|m: S, r1: Answer<OutcomeModel>| #[trigger]
        S::commit_rel(s1, req, actor, b, m, r1) && match r1 {
            Ok(_) => s2 == m && e is None,
            Err(_) => exists|r2: Answer<OutcomeModel>| #[trigger]
                S::commit_rel(m, req, actor, b, s2, r2) && e == refusal(r2),
        }
}

/// The index keeps the token of the write, if there is one.
pub open spec fn index_token<S: HeadHintSource>(
    s2: S,
    id: Seq<char>,
    token: Option<Seq<char>>,
    s3: S,
    e: Option<StoreErrorModel>,
) -> bool {
    match token {
        None => s3 == s2 && e is None,
        Some(t) => S::set_token_rel(s2, id, t, s3, e),
    }
}

/// A whole commit.
pub open spec fn commit_steps<G, S>(
    pre: IndexedStore<G, S>,
    req: RequestModel,
    actor: PrincipalModel,
    b: Budget,
    post: IndexedStore<G, S>,
    r: Answer<OutcomeModel>,
) -> bool where G: MemoryRepository + HintedRepository, S: MemoryRepository + HeadHintSource {
    exists|s1: S, w: Answer<(OutcomeModel, Option<Seq<char>>)>| #[trigger]
        truth_commit(pre, req, actor, b, post.truth(), s1, w) && match w {
            Err(x) => post.index() == s1 && r == Err::<OutcomeModel, _>(x),
            Ok((o, token)) => exists|s2: S, e: Option<StoreErrorModel>| #[trigger]
                index_commit(s1, req, actor, b, s2, e) && match e {
                    Some(x) => post.index() == s2 && r == Ok::<_, StoreErrorModel>(
                        warned(o, commit_warning(x)),
                    ),
                    None => exists|f: Option<StoreErrorModel>| #[trigger]
                        index_token(s2, req.concept_id, token, post.index(), f) && r == Ok::<
                            _,
                            StoreErrorModel,
                        >(
                            match f {
                                Some(x) => warned(o, token_warning(x)),
                                None => o,
                            },
                        ),
                },
        }
}

/// The deletion from the truth, like [`truth_commit`].
pub open spec fn truth_delete<G, S>(
    pre: IndexedStore<G, S>,
    id: Seq<char>,
    expected: Seq<u8>,
    actor: PrincipalModel,
    reason: Seq<char>,
    g1: G,
    s1: S,
    w: Answer<DeleteModel>,
) -> bool where G: MemoryRepository + HintedRepository, S: MemoryRepository + HeadHintSource {
    exists|n: Answer<u64>| #[trigger]
        S::reserve_rel(pre.index(), s1, n) && match n {
            Ok(k) => exists|h: Answer<Option<HintModel>>| #[trigger]
                s1.head_hint_rel(id, h) && G::delete_hinted_rel(
                    pre.truth(),
                    id,
                    expected,
                    actor,
                    reason,
                    hint_or_none(h),
                    k,
                    g1,
                    w,
                ),
            Err(_) => G::delete_rel(pre.truth(), id, expected, actor, reason, g1, w),
        }
}

/// The deletion from the index, tried twice.
pub open spec fn index_delete<S: MemoryRepository>(
    s1: S,
    id: Seq<char>,
    expected: Seq<u8>,
    actor: PrincipalModel,
    reason: Seq<char>,
    s2: S,
    e: Option<StoreErrorModel>,
) -> bool {
    exists|m: S, r1: Answer<DeleteModel>| #[trigger]
        S::delete_rel(s1, id, expected, actor, reason, m, r1) && match r1 {
            Ok(_) => s2 == m && e is None,
            Err(_) => exists|r2: Answer<DeleteModel>| #[trigger]
                S::delete_rel(m, id, expected, actor, reason, s2, r2) && e == refusal(r2),
        }
}

/// A whole deletion.
pub open spec fn delete_steps<G, S>(
    pre: IndexedStore<G, S>,
    id: Seq<char>,
    expected: Seq<u8>,
    actor: PrincipalModel,
    reason: Seq<char>,
    post: IndexedStore<G, S>,
    r: Answer<DeleteModel>,
) -> bool where G: MemoryRepository + HintedRepository, S: MemoryRepository + HeadHintSource {
    exists|s1: S, w: Answer<DeleteModel>| #[trigger]
        truth_delete(pre, id, expected, actor, reason, post.truth(), s1, w) && match w {
            Err(x) => post.index() == s1 && r == Err::<DeleteModel, _>(x),
            Ok(o) => exists|e: Option<StoreErrorModel>| #[trigger]
                index_delete(s1, id, expected, actor, reason, post.index(), e) && r == Ok::<
                    _,
                    StoreErrorModel,
                >(
                    match e {
                        Some(x) => delete_warned(o, delete_warning(x)),
                        None => o,
                    },
                ),
        }
}

/// A whole batch: the index follows only a batch that was applied.
pub open spec fn bulk_steps<G, S>(
    pre: IndexedStore<G, S>,
    reqs: Seq<RequestModel>,
    atomic: bool,
    actor: PrincipalModel,
    b: Budget,
    post: IndexedStore<G, S>,
    r: Answer<BulkModel>,
) -> bool where G: MemoryRepository, S: MemoryRepository {
    &&& G::bulk_rel(pre.truth(), reqs, atomic, actor, b, post.truth(), r)
    &&& match r {
        Ok(o) if o.applied => exists|x: Answer<BulkModel>| #[trigger]
            S::bulk_rel(pre.index(), reqs, atomic, actor, b, post.index(), x),
        _ => post.index() == pre.index(),
    }
}

impl<G, S> IndexedStore<G, S> where
    G: MemoryRepository + HintedRepository,
    S: MemoryRepository + HeadHintSource,
 {
    fn commit_truth(&mut self, request: CommitRequest, actor: &Principal, budget: &Budget) -> (r:
        Result<(CommitOutcome, Option<String>), StoreError>)
        ensures
            truth_commit(
                *old(self),
                request@,
                actor@,
                *budget,
                final(self).truth(),
                final(self).index(),
                hinted_answer(r),
            ),
    {
        let n = self.supabase.reserve_seq();
        let ghost na = plain_answer(n);
        let ghost s1 = self.supabase;
        assert(S::reserve_rel(old(self).index(), s1, na));
        match n {
            Ok(k) => {
                let h = self.supabase.head_hint(&request.concept_id);
                let ghost ha = opt_answer(h);
                assert(s1.head_hint_rel(request@.concept_id, ha));
                let hint = match h {
                    Ok(x) => x,
                    Err(_) => None,
                };
                self.github.commit_hinted(request, actor, budget, hint, k)
            },
            Err(_) => {
                let ghost rq = request@;
                let r = self.github.commit(request, actor, budget);
                assert(G::commit_rel(
                    old(self).truth(),
                    rq,
                    actor@,
                    *budget,
                    self.truth(),
                    res_view(r),
                ));
                match r {
                    Ok(o) => Ok((o, None)),
                    Err(e) => Err(e),
                }
            },
        }
    }

    fn commit_index(&mut self, request: CommitRequest, actor: &Principal, budget: &Budget) -> (r:
        Option<StoreError>)
        ensures
            index_commit(
                old(self).index(),
                request@,
                actor@,
                *budget,
                final(self).index(),
                opt_view(r),
            ),
            final(self).truth() == old(self).truth(),
    {
        let again = request.clone();
        let ghost rq = request@;
        let r1 = self.supabase.commit(request, actor, budget);
        let ghost m = self.supabase;
        assert(S::commit_rel(old(self).index(), rq, actor@, *budget, m, res_view(r1)));
        match r1 {
            Ok(_) => None,
            Err(_) => {
                let r2 = self.supabase.commit(again, actor, budget);
                assert(S::commit_rel(m, rq, actor@, *budget, self.index(), res_view(r2)));
                match r2 {
                    Ok(_) => None,
                    Err(e) => Some(e),
                }
            },
        }
    }

    fn keep_token(&mut self, id: &ConceptId, token: &Option<String>) -> (r: Option<StoreError>)
        ensures
            index_token(
                old(self).index(),
                id@,
                opt_view(*token),
                final(self).index(),
                opt_view(r),
            ),
            final(self).truth() == old(self).truth(),
    {
        let t = match token {
            None => {
                return None;
            },
            Some(t) => t,
        };
        let r = self.supabase.set_write_token(id, t.as_str());
        match r {
            Ok(_) => None,
            Err(e) => Some(e),
        }
    }

    fn delete_truth(
        &mut self,
        id: &ConceptId,
        expected: ContentId,
        actor: &Principal,
        reason: String,
    ) -> (r: Result<DeleteOutcome, StoreError>)
        ensures
            truth_delete(
                *old(self),
                id@,
                expected@,
                actor@,
                reason@,
                final(self).truth(),
                final(self).index(),
                res_view(r),
            ),
    {
        let n = self.supabase.reserve_seq();
        let ghost na = plain_answer(n);
        let ghost s1 = self.supabase;
        assert(S::reserve_rel(old(self).index(), s1, na));
        match n {
            Ok(k) => {
                let h = self.supabase.head_hint(id);
                let ghost ha = opt_answer(h);
                assert(s1.head_hint_rel(id@, ha));
                let hint = match h {
                    Ok(x) => x,
                    Err(_) => None,
                };
                self.github.delete_hinted(id, expected, actor, reason, hint, k)
            },
            Err(_) => self.github.delete(id, expected, actor, reason),
        }
    }

    fn delete_index(
        &mut self,
        id: &ConceptId,
        expected: ContentId,
        actor: &Principal,
        reason: String,
    ) -> (r: Option<StoreError>)
        ensures
            index_delete(
                old(self).index(),
                id@,
                expected@,
                actor@,
                reason@,
                final(self).index(),
                opt_view(r),
            ),
            final(self).truth() == old(self).truth(),
    {
        let again = reason.clone();
        let ghost rv = reason@;
        let r1 = self.supabase.delete(id, expected, actor, reason);
        let ghost m = self.supabase;
        assert(S::delete_rel(old(self).index(), id@, expected@, actor@, rv, m, res_view(r1)));
        match r1 {
            Ok(_) => None,
            Err(_) => {
                let r2 = self.supabase.delete(id, expected, actor, again);
                assert(S::delete_rel(m, id@, expected@, actor@, rv, self.index(), res_view(r2)));
                match r2 {
                    Ok(_) => None,
                    Err(e) => Some(e),
                }
            },
        }
    }
}

impl<G, S> MemoryRepository for IndexedStore<G, S> where
    G: MemoryRepository + HintedRepository,
    S: MemoryRepository + HeadHintSource,
 {
    open spec fn get_rel(&self, id: Seq<char>, r: Answer<Option<DocViewModel>>) -> bool {
        self.index().get_rel(id, r)
    }

    open spec fn search_rel(&self, q: QueryModel, b: Budget, r: Answer<Seq<HitModel>>) -> bool {
        self.index().search_rel(q, b, r)
    }

    open spec fn commit_rel(
        pre: Self,
        req: RequestModel,
        actor: PrincipalModel,
        b: Budget,
        post: Self,
        r: Answer<OutcomeModel>,
    ) -> bool {
        commit_steps(pre, req, actor, b, post, r)
    }

    open spec fn history_rel(
        &self,
        id: Seq<char>,
        limit: usize,
        before_seq: Option<u64>,
        r: Answer<Seq<RevisionModel>>,
    ) -> bool {
        self.truth().history_rel(id, limit, before_seq, r)
    }

    open spec fn delete_rel(
        pre: Self,
        id: Seq<char>,
        expected: Seq<u8>,
        actor: PrincipalModel,
        reason: Seq<char>,
        post: Self,
        r: Answer<DeleteModel>,
    ) -> bool {
        delete_steps(pre, id, expected, actor, reason, post, r)
    }

    open spec fn backlinks_rel(&self, id: Seq<char>, r: Answer<Seq<BacklinkModel>>) -> bool {
        self.index().backlinks_rel(id, r)
    }

    open spec fn bulk_rel(
        pre: Self,
        reqs: Seq<RequestModel>,
        atomic: bool,
        actor: PrincipalModel,
        b: Budget,
        post: Self,
        r: Answer<BulkModel>,
    ) -> bool {
        bulk_steps(pre, reqs, atomic, actor, b, post, r)
    }

    fn get(&self, id: &ConceptId) -> (r: Result<Option<DocumentView>, StoreError>) {
        self.supabase.get(id)
    }

    fn search(&self, query: &SearchQuery, budget: &Budget) -> (r: Result<
        Vec<SearchHit>,
        StoreError,
    >) {
        self.supabase.search(query, budget)
    }

    fn commit(
        &mut self,
        request: CommitRequest,
        actor: &Principal,
        budget: &Budget,
    ) -> (r: Result<CommitOutcome, StoreError>) {
        let id = request.concept_id.clone();
        let for_index = request.clone();
        let ghost rq = request@;
        let w = self.commit_truth(request, actor, budget);
        let ghost s1 = self.index();
        let ghost wa = hinted_answer(w);
        let ghost g1 = self.truth();
        assert(truth_commit(*old(self), rq, actor@, *budget, g1, s1, wa));
        let (mut outcome, token) = match w {
            Err(e) => {
                return Err(e);
            },
            Ok(x) => x,
        };
        let ghost o = outcome@;
        let e = self.commit_index(for_index, actor, budget);
        let ghost s2 = self.index();
        assert(index_commit(s1, rq, actor@, *budget, s2, opt_view(e)));
        match e {
            Some(e) => {
                let text = warning(
                    "IndexedStore: Best-effort commit to Supabase failed (reconciler will repair): ",
                    &e,
                );
                proof {
                    lemma_views_push(outcome.warnings@, text);
                }
                outcome.warnings.push(text);
                assert(outcome@ == warned(o, commit_warning(e@)));
            },
            None => {
                let f = self.keep_token(&id, &token);
                assert(index_token(s2, id@, opt_view(token), self.index(), opt_view(f)));
                match f {
                    Some(f) => {
                        let text = warning(
                            "IndexedStore: no se pudo guardar el token CAS en Supabase (el reconciler lo reparará): ",
                            &f,
                        );
                        proof {
                            lemma_views_push(outcome.warnings@, text);
                        }
                        outcome.warnings.push(text);
                        assert(outcome@ == warned(o, token_warning(f@)));
                    },
                    None => {},
                }
            },
        }
        Ok(outcome)
    }

    fn history(&self, id: &ConceptId, limit: usize, before_seq: Option<u64>) -> (r: Result<
        Vec<Revision>,
        StoreError,
    >) {
        self.github.history(id, limit, before_seq)
    }

    fn delete(
        &mut self,
        id: &ConceptId,
        expected: ContentId,
        actor: &Principal,
        reason: String,
    ) -> (r: Result<DeleteOutcome, StoreError>) {
        let for_index = reason.clone();
        let ghost rv = reason@;
        let w = self.delete_truth(id, expected, actor, reason);
        let ghost s1 = self.index();
        let ghost wa = res_view(w);
        let ghost g1 = self.truth();
        assert(truth_delete(*old(self), id@, expected@, actor@, rv, g1, s1, wa));
        let mut outcome = match w {
            Err(e) => {
                return Err(e);
            },
            Ok(x) => x,
        };
        let ghost o = outcome@;
        let e = self.delete_index(id, expected, actor, for_index);
        assert(index_delete(s1, id@, expected@, actor@, rv, self.index(), opt_view(e)));
        match e {
            Some(e) => {
                let text = warning(
                    "IndexedStore: Best-effort delete from Supabase failed (reconciler will repair): ",
                    &e,
                );
                proof {
                    lemma_views_push(outcome.warnings@, text);
                }
                outcome.warnings.push(text);
                assert(outcome@ == delete_warned(o, delete_warning(e@)));
            },
            None => {},
        }
        Ok(outcome)
    }

    fn backlinks(&self, id: &ConceptId) -> (r: Result<Vec<Backlink>, StoreError>) {
        self.supabase.backlinks(id)
    }

    fn commit_bulk(
        &mut self,
        requests: Vec<CommitRequest>,
        atomic: bool,
        actor: &Principal,
        budget: &Budget,
    ) -> (r: Result<BulkOutcome, StoreError>) {
        let for_index = clone_requests(&requests);
        let ghost reqs = views(requests@);
        let outcome = match self.github.commit_bulk(requests, atomic, actor, budget) {
            Err(e) => {
                return Err(e);
            },
            Ok(o) => o,
        };
        if outcome.applied {
            let x = self.supabase.commit_bulk(for_index, atomic, actor, budget);
            assert(S::bulk_rel(
                old(self).index(),
                reqs,
                atomic,
                actor@,
                *budget,
                self.index(),
                res_view(x),
            ));
        }
        Ok(outcome)
    }
}

impl<G, S: StoreMaintenance> StoreMaintenance for IndexedStore<G, S> {
    open spec fn link_health_rel(&self, id: Seq<char>, r: Answer<HealthModel>) -> bool {
        self.index().link_health_rel(id, r)
    }

    open spec fn validate_rel(
        &self,
        prefix: Option<Seq<char>>,
        b: Budget,
        r: Answer<ReportModel>,
    ) -> bool {
        self.index().validate_rel(prefix, b, r)
    }

    open spec fn stats_rel(&self, b: Budget, r: Answer<StatsModel>) -> bool {
        self.index().stats_rel(b, r)
    }

    open spec fn status_rel(&self, r: Answer<StoreStatus>) -> bool {
        self.index().status_rel(r)
    }

    open spec fn embed_rel(
        pre: Self,
        prefix: Option<Seq<char>>,
        max: usize,
        post: Self,
        r: Answer<EmbedModel>,
    ) -> bool {
        post.truth() == pre.truth() && S::embed_rel(pre.index(), prefix, max, post.index(), r)
    }

    fn link_health(&self, id: &ConceptId) -> (r: Result<LinkHealth, StoreError>) {
        self.supabase.link_health(id)
    }

    fn validate(&self, path_prefix: Option<&str>, budget: &Budget) -> (r: Result<
        ValidationReport,
        StoreError,
    >) {
        self.supabase.validate(path_prefix, budget)
    }

    fn stats(&self, budget: &Budget) -> (r: Result<GraphStats, StoreError>) {
        self.supabase.stats(budget)
    }

    fn status(&self) -> (r: Result<StoreStatus, StoreError>) {
        self.supabase.status()
    }

    fn embed_pending(&mut self, path_prefix: Option<&str>, max: usize) -> (r: Result<
        EmbedOutcome,
        StoreError,
    >) {
        self.supabase.embed_pending(path_prefix, max)
    }
}

impl<G, S: NeighborSource> NeighborSource for IndexedStore<G, S> {
    type Error = S::Error;

    open spec fn neighbors_rel(&self, id: Seq<char>, r: Result<Seq<Seq<char>>, S::Error>) -> bool {
        self.index().neighbors_rel(id, r)
    }

    open spec fn size_rel(&self, id: Seq<char>, r: Result<Option<usize>, S::Error>) -> bool {
        self.index().size_rel(id, r)
    }

    fn neighbors(&self, id: &ConceptId) -> (r: Result<Vec<ConceptId>, S::Error>) {
        self.supabase.neighbors(id)
    }

    fn document_size(&self, id: &ConceptId) -> (r: Result<Option<usize>, S::Error>) {
        self.supabase.document_size(id)
    }
}

impl<G, S: TripleStore> TripleStore for IndexedStore<G, S> {
    open spec fn save_rel(
        pre: Self,
        subject: Seq<char>,
        triples: Triples,
        post: Self,
        e: Option<StoreErrorModel>,
    ) -> bool {
        post.truth() == pre.truth() && S::save_rel(pre.index(), subject, triples, post.index(), e)
    }

    open spec fn load_rel(&self, subject: Seq<char>, r: Answer<Triples>) -> bool {
        self.index().load_rel(subject, r)
    }

    fn save_triples(&mut self, subject: &ConceptId, triples: &[Triple]) -> (r: Result<
        (),
        StoreError,
    >) {
        self.supabase.save_triples(subject, triples)
    }

    fn load_triples(&self, subject: &ConceptId) -> (r: Result<Vec<Triple>, StoreError>) {
        self.supabase.load_triples(subject)
    }
}

// ---------------------------------------------------------------------
// Laws
// ---------------------------------------------------------------------

/// The truth decides: a commit that the truth refused is refused as the truth
/// said and never reaches the index, and one that it accepted is answered as
/// the truth answered, with at most a warning more, whatever the index does.
pub proof fn law_the_truth_decides<G, S>(
    pre: IndexedStore<G, S>,
    req: RequestModel,
    actor: PrincipalModel,
    b: Budget,
    post: IndexedStore<G, S>,
    r: Answer<OutcomeModel>,
) where G: MemoryRepository + HintedRepository, S: MemoryRepository + HeadHintSource
    requires
        commit_steps(pre, req, actor, b, post, r),
    ensures
        exists|s1: S, w: Answer<(OutcomeModel, Option<Seq<char>>)>| #[trigger]
            truth_commit(pre, req, actor, b, post.truth(), s1, w) && match w {
                Err(e) => r == Err::<OutcomeModel, _>(e) && post.index() == s1,
                Ok((o, _)) => r is Ok && r->Ok_0 == (OutcomeModel {
                    warnings: r->Ok_0.warnings,
                    ..o
                }) && o.warnings.len() <= r->Ok_0.warnings.len() <= o.warnings.len() + 1,
            },
{
}

/// Two states that differ at most in the numbers they reserved.
pub open spec fn alike(a: StoreModel, b: StoreModel) -> bool {
    a == StoreModel { reserved: a.reserved, ..b }
}

/// Over two stores in memory that are alike, a commit answers as either of them
/// alone would, without a warning, and leaves them alike.
pub proof fn law_stores_in_step_stay_in_step(
    pre: IndexedStore<InMemoryStore, InMemoryStore>,
    req: RequestModel,
    actor: PrincipalModel,
    b: Budget,
    post: IndexedStore<InMemoryStore, InMemoryStore>,
    r: Answer<OutcomeModel>,
)
    requires
        alike(pre.truth()@, pre.index()@),
        commit_steps(pre, req, actor, b, post, r),
    ensures
        alike(post.truth()@, post.index()@),
        (post.truth()@, r) == committed(pre.truth()@, req, actor, b),
{
    let (s1, w) = choose|s1: InMemoryStore, w: Answer<(OutcomeModel, Option<Seq<char>>)>| #[trigger]
        truth_commit(pre, req, actor, b, post.truth(), s1, w) && match w {
            Err(x) => post.index() == s1 && r == Err::<OutcomeModel, _>(x),
            Ok((o, token)) => exists|s2: InMemoryStore, e: Option<StoreErrorModel>| #[trigger]
                index_commit(s1, req, actor, b, s2, e) && match e {
                    Some(x) => post.index() == s2 && r == Ok::<_, StoreErrorModel>(
                        warned(o, commit_warning(x)),
                    ),
                    None => exists|f: Option<StoreErrorModel>| #[trigger]
                        index_token(s2, req.concept_id, token, post.index(), f) && r == Ok::<
                            _,
                            StoreErrorModel,
                        >(
                            match f {
                                Some(x) => warned(o, token_warning(x)),
                                None => o,
                            },
                        ),
                },
        };
    assert(alike(pre.truth()@, s1@));
    let a = committed(pre.truth()@, req, actor, b);
    let c = committed(s1@, req, actor, b);
    assert(c.1 == a.1);
    assert(alike(a.0, c.0));
    assert(w == tokenless(a.1));
}

} // verus!

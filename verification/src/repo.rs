//! The faces of a store: documents, hints, maintenance and facts.
//!
//! What an operation may do is a relation between the state before, the
//! arguments, the answer and the state after. A store in memory has one
//! possible answer; one over a network may fail at any call. A store that says
//! nothing of an operation may answer anything to it.

use vstd::prelude::*;
use crate::model::{
    Budget, ConceptId, ContentId, Principal, PrincipalModel, Revision, RevisionModel,
};
use crate::ontology::{Triple, Triples};
use crate::store::{
    Backlink, BacklinkModel, BulkModel, BulkOutcome, CommitOutcome, CommitRequest, DeleteModel,
    DeleteOutcome, DocHint, DocViewModel, DocumentView, EmbedModel, EmbedOutcome, GraphStats,
    HealthModel, HintModel, HitModel, LinkHealth, OutcomeModel, QueryModel, ReportModel,
    RequestModel, SearchHit, SearchQuery, StatsModel, StoreError, StoreErrorModel, StoreStatus,
    ValidationReport,
};
use crate::text::{opt_view, res_view, views};

verus! {

/// The answer of a store, or its refusal.
pub type Answer<T> = Result<T, StoreErrorModel>;

/// The view of an optional answer.
pub open spec fn opt_answer<T: View>(r: Result<Option<T>, StoreError>) -> Answer<Option<T::V>> {
    match r {
        Ok(x) => Ok(opt_view(x)),
        Err(e) => Err(e@),
    }
}

/// The view of a list of answers.
pub open spec fn list_answer<T: View>(r: Result<Vec<T>, StoreError>) -> Answer<Seq<T::V>> {
    match r {
        Ok(x) => Ok(views(x@)),
        Err(e) => Err(e@),
    }
}

/// The view of an answer that is its own view.
pub open spec fn plain_answer<T>(r: Result<T, StoreError>) -> Answer<T> {
    match r {
        Ok(x) => Ok(x),
        Err(e) => Err(e@),
    }
}

/// The refusal of an operation that answers nothing else.
pub open spec fn refused(r: Result<(), StoreError>) -> Option<StoreErrorModel> {
    match r {
        Ok(_) => None,
        Err(e) => Some(e@),
    }
}

/// The view of a hinted write.
pub open spec fn hinted_answer(r: Result<(CommitOutcome, Option<String>), StoreError>) -> Answer<
    (OutcomeModel, Option<Seq<char>>),
> {
    match r {
        Ok((o, t)) => Ok((o@, opt_view(t))),
        Err(e) => Err(e@),
    }
}

/// Reading and writing documents.
pub trait MemoryRepository: Sized {
    open spec fn get_rel(&self, id: Seq<char>, r: Answer<Option<DocViewModel>>) -> bool {
        true
    }

    open spec fn search_rel(&self, q: QueryModel, b: Budget, r: Answer<Seq<HitModel>>) -> bool {
        true
    }

    open spec fn commit_rel(
        pre: Self,
        req: RequestModel,
        actor: PrincipalModel,
        b: Budget,
        post: Self,
        r: Answer<OutcomeModel>,
    ) -> bool {
        true
    }

    open spec fn history_rel(
        &self,
        id: Seq<char>,
        limit: usize,
        before_seq: Option<u64>,
        r: Answer<Seq<RevisionModel>>,
    ) -> bool {
        true
    }

    open spec fn delete_rel(
        pre: Self,
        id: Seq<char>,
        expected: Seq<u8>,
        actor: PrincipalModel,
        reason: Seq<char>,
        post: Self,
        r: Answer<DeleteModel>,
    ) -> bool {
        true
    }

    open spec fn backlinks_rel(&self, id: Seq<char>, r: Answer<Seq<BacklinkModel>>) -> bool {
        true
    }

    open spec fn bulk_rel(
        pre: Self,
        reqs: Seq<RequestModel>,
        atomic: bool,
        actor: PrincipalModel,
        b: Budget,
        post: Self,
        r: Answer<BulkModel>,
    ) -> bool {
        true
    }

    /// The live document `id`; `None` where there is none or it was deleted.
    fn get(&self, id: &ConceptId) -> (r: Result<Option<DocumentView>, StoreError>)
        ensures
            self.get_rel(id@, opt_answer(r)),
    ;

    /// Live documents that pass every filter, by id, within the limits.
    fn search(&self, query: &SearchQuery, budget: &Budget) -> (r: Result<
        Vec<SearchHit>,
        StoreError,
    >)
        ensures
            self.search_rel(query@, *budget, list_answer(r)),
    ;

    /// Writes a document by compare-and-swap.
    fn commit(
        &mut self,
        request: CommitRequest,
        actor: &Principal,
        budget: &Budget,
    ) -> (r: Result<CommitOutcome, StoreError>)
        ensures
            Self::commit_rel(*old(self), request@, actor@, *budget, *final(self), res_view(r)),
    ;

    /// Revisions of `id`, latest first, a page at a time.
    fn history(&self, id: &ConceptId, limit: usize, before_seq: Option<u64>) -> (r: Result<
        Vec<Revision>,
        StoreError,
    >)
        ensures
            self.history_rel(id@, limit, before_seq, list_answer(r)),
    ;

    /// Deletes a document by compare-and-swap; its history stays.
    fn delete(
        &mut self,
        id: &ConceptId,
        expected: ContentId,
        actor: &Principal,
        reason: String,
    ) -> (r: Result<DeleteOutcome, StoreError>)
        ensures
            Self::delete_rel(
                *old(self),
                id@,
                expected@,
                actor@,
                reason@,
                *final(self),
                res_view(r),
            ),
    ;

    /// Live documents that link to `id`, by their ids.
    fn backlinks(&self, id: &ConceptId) -> (r: Result<Vec<Backlink>, StoreError>)
        ensures
            self.backlinks_rel(id@, list_answer(r)),
    ;

    /// Writes several documents in order; with `atomic`, all or none.
    fn commit_bulk(
        &mut self,
        requests: Vec<CommitRequest>,
        atomic: bool,
        actor: &Principal,
        budget: &Budget,
    ) -> (r: Result<BulkOutcome, StoreError>)
        ensures
            Self::bulk_rel(
                *old(self),
                views(requests@),
                atomic,
                actor@,
                *budget,
                *final(self),
                res_view(r),
            ),
    ;
}

/// Writes that a read index can make cheap.
pub trait HintedRepository: Sized {
    open spec fn commit_hinted_rel(
        pre: Self,
        req: RequestModel,
        actor: PrincipalModel,
        b: Budget,
        hint: Option<HintModel>,
        next_seq: u64,
        post: Self,
        r: Answer<(OutcomeModel, Option<Seq<char>>)>,
    ) -> bool {
        true
    }

    open spec fn delete_hinted_rel(
        pre: Self,
        id: Seq<char>,
        expected: Seq<u8>,
        actor: PrincipalModel,
        reason: Seq<char>,
        hint: Option<HintModel>,
        next_seq: u64,
        post: Self,
        r: Answer<DeleteModel>,
    ) -> bool {
        true
    }

    /// A commit that also gives the new write token, if the file changed.
    fn commit_hinted(
        &mut self,
        request: CommitRequest,
        actor: &Principal,
        budget: &Budget,
        hint: Option<DocHint>,
        next_seq: u64,
    ) -> (r: Result<(CommitOutcome, Option<String>), StoreError>)
        ensures
            Self::commit_hinted_rel(
                *old(self),
                request@,
                actor@,
                *budget,
                opt_view(hint),
                next_seq,
                *final(self),
                hinted_answer(r),
            ),
    ;

    fn delete_hinted(
        &mut self,
        id: &ConceptId,
        expected: ContentId,
        actor: &Principal,
        reason: String,
        hint: Option<DocHint>,
        next_seq: u64,
    ) -> (r: Result<DeleteOutcome, StoreError>)
        ensures
            Self::delete_hinted_rel(
                *old(self),
                id@,
                expected@,
                actor@,
                reason@,
                opt_view(hint),
                next_seq,
                *final(self),
                res_view(r),
            ),
    ;
}

/// A read index that knows the heads.
pub trait HeadHintSource: Sized {
    open spec fn head_hint_rel(&self, id: Seq<char>, r: Answer<Option<HintModel>>) -> bool {
        true
    }

    open spec fn set_token_rel(
        pre: Self,
        id: Seq<char>,
        token: Seq<char>,
        post: Self,
        e: Option<StoreErrorModel>,
    ) -> bool {
        true
    }

    open spec fn reserve_rel(pre: Self, post: Self, r: Answer<u64>) -> bool {
        true
    }

    /// What the index knows of `id`; `None` where it knows nothing.
    fn head_hint(&self, id: &ConceptId) -> (r: Result<Option<DocHint>, StoreError>)
        ensures
            self.head_hint_rel(id@, opt_answer(r)),
    ;

    /// Keeps the token of a confirmed write.
    fn set_write_token(&mut self, id: &ConceptId, token: &str) -> (r: Result<(), StoreError>)
        ensures
            Self::set_token_rel(*old(self), id@, token@, *final(self), refused(r)),
    ;

    /// Reserves the next number of a shared sequence.
    fn reserve_seq(&mut self) -> (r: Result<u64, StoreError>)
        ensures
            Self::reserve_rel(*old(self), *final(self), plain_answer(r)),
    ;
}

/// Validation, measures, state and semantic indexing.
pub trait StoreMaintenance: Sized {
    open spec fn link_health_rel(&self, id: Seq<char>, r: Answer<HealthModel>) -> bool {
        true
    }

    open spec fn validate_rel(&self, prefix: Option<Seq<char>>, b: Budget, r: Answer<ReportModel>) -> bool {
        true
    }

    open spec fn stats_rel(&self, b: Budget, r: Answer<StatsModel>) -> bool {
        true
    }

    open spec fn status_rel(&self, r: Answer<StoreStatus>) -> bool {
        true
    }

    open spec fn embed_rel(
        pre: Self,
        prefix: Option<Seq<char>>,
        max: usize,
        post: Self,
        r: Answer<EmbedModel>,
    ) -> bool {
        true
    }

    /// The links of `id` by the state of their targets.
    fn link_health(&self, id: &ConceptId) -> (r: Result<LinkHealth, StoreError>)
        ensures
            self.link_health_rel(id@, res_view(r)),
    ;

    /// Links that lead nowhere, under a path or everywhere.
    fn validate(&self, path_prefix: Option<&str>, budget: &Budget) -> (r: Result<
        ValidationReport,
        StoreError,
    >)
        ensures
            self.validate_rel(opt_view(path_prefix), *budget, res_view(r)),
    ;

    fn stats(&self, budget: &Budget) -> (r: Result<GraphStats, StoreError>)
        ensures
            self.stats_rel(*budget, res_view(r)),
    ;

    fn status(&self) -> (r: Result<StoreStatus, StoreError>)
        ensures
            self.status_rel(plain_answer(r)),
    ;

    /// Indexes up to `max` documents whose embedding is missing or stale.
    fn embed_pending(&mut self, path_prefix: Option<&str>, max: usize) -> (r: Result<
        EmbedOutcome,
        StoreError,
    >)
        ensures
            Self::embed_rel(*old(self), opt_view(path_prefix), max, *final(self), res_view(r)),
    ;
}

/// Facts kept per subject.
pub trait TripleStore: Sized {
    open spec fn save_rel(
        pre: Self,
        subject: Seq<char>,
        triples: Triples,
        post: Self,
        e: Option<StoreErrorModel>,
    ) -> bool {
        true
    }

    open spec fn load_rel(&self, subject: Seq<char>, r: Answer<Triples>) -> bool {
        true
    }

    /// Replaces the facts of `subject`.
    fn save_triples(&mut self, subject: &ConceptId, triples: &[Triple]) -> (r: Result<
        (),
        StoreError,
    >)
        ensures
            Self::save_rel(*old(self), subject@, views(triples@), *final(self), refused(r)),
    ;

    /// The facts of `subject`; none if it was never reasoned about.
    fn load_triples(&self, subject: &ConceptId) -> (r: Result<Vec<Triple>, StoreError>)
        ensures
            self.load_rel(subject@, list_answer(r)),
    ;
}

} // verus!

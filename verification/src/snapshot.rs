//! The documents and the history of a repository, held in memory.

use vstd::prelude::*;
use crate::conflict::{decide, decision, CommitDecision, Conflict, ConflictModel, DecisionModel};
use crate::memory::{
    default_budget, does_pass, find_link, has_revision, is_revised, limit_of, link_targets,
    link_to, page, page_of, passes, search_limit, targets_of, LinkList,
};
use crate::model::{
    Budget, ConceptId, ContentId, Principal, PrincipalModel, Revision, RevisionModel,
};
use crate::okf::{clone_links, parse_document, parsed, DocModel, LinkModel, OkfDocument};
use crate::repo::Answer;
use crate::sha256::{content_hash, content_id};
use crate::store::{
    hit_of, into_hit, matches_prefix, under, Backlink, BacklinkModel, CommitOutcome, CommitRequest,
    DeleteModel, DeleteOutcome, DocViewModel, DocumentView, GraphStats, HealthModel, HitModel,
    LinkHealth, OutcomeModel, QueryModel, ReportModel, RequestModel, SearchHit, SearchQuery,
    StatsModel, StoreError, StoreErrorModel, StoreStatus, ValidationReport,
};
use crate::survey::{
    all_targets, as_ids, check_links, check_sources, count, count_targets, health,
    law_most_frequent_is_ranked, law_tally_counts_what_occurs, most_frequent, rank_counts, report,
    standing_in, tally, Register, Sources, Standing,
};
use crate::table::{
    ascending, del, lemma_lookup_del, lemma_lookup_put, lemma_put_entries, lookup, present, put,
    Dup, Table,
};
use crate::text::{clone_opt, clone_strings, lemma_views_push, opt_view, res_view, utf8_len, views};

verus! {

// ---------------------------------------------------------------------
// State
// ---------------------------------------------------------------------

/// A live document, and the token under which its file can be changed.
pub struct LiveDoc {
    id: ConceptId,
    content_id: ContentId,
    version: u64,
    raw: String,
    doc_type: String,
    title: Option<String>,
    tags: Vec<String>,
    list: LinkList,
    file_sha: String,
}

/// Mathematical counterpart of [`LiveDoc`].
pub struct LiveModel {
    pub doc: DocViewModel,
    pub file_sha: Seq<char>,
}

impl View for LiveDoc {
    type V = LiveModel;

    closed spec fn view(&self) -> LiveModel {
        LiveModel {
            doc: DocViewModel {
                concept_id: self.id@,
                content_id: self.content_id@,
                version: self.version as nat,
                raw: self.raw@,
                doc_type: self.doc_type@,
                title: opt_view(self.title),
                tags: views(self.tags@),
                links: self.list@,
            },
            file_sha: self.file_sha@,
        }
    }
}

impl Dup for LiveDoc {
    fn dup(&self) -> (r: LiveDoc) {
        LiveDoc {
            id: self.id.clone(),
            content_id: self.content_id,
            version: self.version,
            raw: self.raw.clone(),
            doc_type: self.doc_type.clone(),
            title: clone_opt(&self.title),
            tags: clone_strings(&self.tags),
            list: self.list.dup(),
            file_sha: self.file_sha.clone(),
        }
    }
}

impl Dup for u64 {
    fn dup(&self) -> (r: u64) {
        *self
    }
}

/// A document as it is read from a file.
pub open spec fn live_model(
    id: Seq<char>,
    raw: Seq<char>,
    d: DocModel,
    version: nat,
    file_sha: Seq<char>,
) -> LiveModel {
    LiveModel {
        doc: DocViewModel {
            concept_id: id,
            content_id: content_hash(raw),
            version,
            raw,
            doc_type: d.doc_type,
            title: d.title,
            tags: d.tags,
            links: d.links,
        },
        file_sha,
    }
}

impl LiveDoc {
    /// A document that was read from a file.
    pub fn new(id: ConceptId, raw: String, d: OkfDocument, version: u64, file_sha: String) -> (r:
        LiveDoc)
        ensures
            r@ == live_model(id@, raw@, d@, version as nat, file_sha@),
    {
        let content_id = content_id(raw.as_str());
        LiveDoc {
            id,
            content_id,
            version,
            raw,
            doc_type: d.doc_type,
            title: d.title,
            tags: d.tags,
            list: LinkList { links: d.links },
            file_sha,
        }
    }

    /// The same document under another version.
    pub fn with_version(self, version: u64) -> (r: LiveDoc)
        ensures
            r@ == (LiveModel {
                doc: DocViewModel { version: version as nat, ..self@.doc },
                ..self@
            }),
    {
        LiveDoc {
            id: self.id,
            content_id: self.content_id,
            version,
            raw: self.raw,
            doc_type: self.doc_type,
            title: self.title,
            tags: self.tags,
            list: self.list,
            file_sha: self.file_sha,
        }
    }

    /// The document as it is handed out.
    pub fn to_view(&self) -> (r: DocumentView)
        ensures
            r@ == self@.doc,
    {
        DocumentView {
            concept_id: self.id.clone(),
            content_id: self.content_id,
            version: self.version,
            raw: self.raw.clone(),
            doc_type: self.doc_type.clone(),
            title: clone_opt(&self.title),
            tags: clone_strings(&self.tags),
            links: clone_links(&self.list.links),
        }
    }
}

/// The state of a repository at a commit, as mathematics.
pub struct SnapshotModel {
    /// The commit.
    pub head_sha: Seq<char>,
    /// Live documents, by id.
    pub live: Seq<(Seq<char>, LiveModel)>,
    /// Last versions of deleted documents, by id.
    pub gone: Seq<(Seq<char>, u64)>,
    /// Every revision, by number.
    pub revisions: Seq<RevisionModel>,
    /// The number of the next revision.
    pub next_seq: u64,
}

/// The state of a repository at a commit.
pub struct Snapshot {
    head_sha: String,
    live: Table<LiveDoc>,
    gone: Table<u64>,
    revisions: Vec<Revision>,
    next_seq: u64,
}

impl View for Snapshot {
    type V = SnapshotModel;

    closed spec fn view(&self) -> SnapshotModel {
        SnapshotModel {
            head_sha: self.head_sha@,
            live: self.live@,
            gone: self.gone@,
            revisions: views(self.revisions@),
            next_seq: self.next_seq,
        }
    }
}

/// Documents are held under their ids.
pub open spec fn live_ok(live: Seq<(Seq<char>, LiveModel)>) -> bool {
    forall|i: int| 0 <= i < live.len() ==> (#[trigger] live[i]).1.doc.concept_id == live[i].0
}

pub proof fn lemma_live_put(live: Seq<(Seq<char>, LiveModel)>, id: Seq<char>, d: LiveModel)
    requires
        ascending(live),
        live_ok(live),
        d.doc.concept_id == id,
    ensures
        live_ok(put(live, id, d)),
{
    let t = put(live, id, d);
    assert forall|i: int| 0 <= i < t.len() implies (#[trigger] t[i]).1.doc.concept_id == t[i].0 by {
        lemma_put_entries(live, id, d, i);
    }
}

pub proof fn lemma_live_del(live: Seq<(Seq<char>, LiveModel)>, id: Seq<char>)
    requires
        live_ok(live),
    ensures
        live_ok(del(live, id)),
{
    let r = crate::table::rank(live, id) as int;
    let t = del(live, id);
    assert forall|i: int| 0 <= i < t.len() implies (#[trigger] t[i]).1.doc.concept_id == t[i].0 by {
        if t != live {
            assert(t[i] == if i < r { live[i] } else { live[i + 1] });
        }
    }
}

impl Snapshot {
    #[verifier::type_invariant]
    closed spec fn inv(self) -> bool {
        live_ok(self.live@)
    }

    /// A snapshot of the given parts.
    pub(crate) fn assemble(
        head_sha: String,
        live: Table<LiveDoc>,
        gone: Table<u64>,
        revisions: Vec<Revision>,
        next_seq: u64,
    ) -> (r: Snapshot)
        requires
            live_ok(live@),
        ensures
            r@ == (SnapshotModel {
                head_sha: head_sha@,
                live: live@,
                gone: gone@,
                revisions: views(revisions@),
                next_seq,
            }),
    {
        Snapshot { head_sha, live, gone, revisions, next_seq }
    }

    /// A copy.
    pub fn dup(&self) -> (r: Snapshot)
        ensures
            r@ == self@,
    {
        proof {
            use_type_invariant(self);
        }
        let mut revisions: Vec<Revision> = Vec::new();
        let mut i: usize = 0;
        while i < self.revisions.len()
            invariant
                i <= self.revisions.len(),
                revisions@.len() == i,
                forall|k: int|
                    0 <= k < i ==> (#[trigger] revisions@[k])@ == self.revisions@[k]@,
            decreases self.revisions.len() - i,
        {
            revisions.push(self.revisions[i].clone());
            i += 1;
        }
        assert(views(revisions@) =~= views(self.revisions@));
        Snapshot {
            head_sha: self.head_sha.clone(),
            live: self.live.dup(),
            gone: self.gone.dup(),
            revisions,
            next_seq: self.next_seq,
        }
    }

    /// Whether the snapshot shows the given commit.
    pub fn shows(&self, head_sha: &str) -> (r: bool)
        ensures
            r == (self@.head_sha == head_sha@),
    {
        crate::text::str_eq(self.head_sha.as_str(), head_sha)
    }

    /// The commit that the snapshot shows.
    pub fn head_sha(&self) -> (r: &str)
        ensures
            r@ == self@.head_sha,
    {
        self.head_sha.as_str()
    }
}

// ---------------------------------------------------------------------
// Reading
// ---------------------------------------------------------------------

/// The live document `id`.
pub open spec fn shown(m: SnapshotModel, id: Seq<char>) -> Option<DocViewModel> {
    match lookup(m.live, id) {
        Some(d) => Some(d.doc),
        None => None,
    }
}

/// The token under which the file of `id` can be changed.
pub open spec fn token(m: SnapshotModel, id: Seq<char>) -> Option<Seq<char>> {
    match lookup(m.live, id) {
        Some(d) => Some(d.file_sha),
        None => None,
    }
}

/// The hits among the documents from entry `i` on, after those already found.
pub open spec fn hits_from(
    m: SnapshotModel,
    q: QueryModel,
    b: Budget,
    i: int,
    hits: Seq<HitModel>,
) -> Seq<HitModel>
    decreases m.live.len() - i,
{
    if i < 0 || i >= m.live.len() || hits.len() >= search_limit(q, b) {
        hits
    } else {
        let d = m.live[i].1.doc;
        if (q.path_prefix is Some ==> under(m.live[i].0, q.path_prefix->0)) && passes(d, q) {
            hits_from(m, q, b, i + 1, hits.push(hit_of(d)))
        } else {
            hits_from(m, q, b, i + 1, hits)
        }
    }
}

/// A page of the history of `id`.
pub open spec fn told(
    m: SnapshotModel,
    id: Seq<char>,
    limit: usize,
    before_seq: Option<u64>,
) -> Answer<Seq<RevisionModel>> {
    if !present(m.live, id) && !present(m.gone, id) && !has_revision(m.revisions, id) {
        Err(StoreErrorModel::NotFound(id))
    } else {
        let cut = match before_seq {
            Some(c) => c,
            None => u64::MAX,
        };
        Ok(page(m.revisions, m.revisions.len() as int, id, cut, limit as nat))
    }
}

/// The documents among the first `n` that lead to `id`.
pub open spec fn back_to(m: SnapshotModel, id: Seq<char>, n: int) -> Seq<BacklinkModel>
    decreases n,
{
    if n <= 0 {
        Seq::empty()
    } else {
        let d = m.live[n - 1].1.doc;
        match link_to(d.links, 0, id) {
            Some(l) => back_to(m, id, n - 1).push(BacklinkModel { source: hit_of(d), rel: l.rel }),
            None => back_to(m, id, n - 1),
        }
    }
}

/// How a concept stands in a snapshot.
pub open spec fn stands(m: SnapshotModel, id: Seq<char>) -> Standing {
    if present(m.live, id) {
        Standing::Alive
    } else if present(m.gone, id) {
        Standing::Gone
    } else {
        Standing::Missing
    }
}

pub open spec fn standing_fn(m: SnapshotModel) -> spec_fn(Seq<char>) -> Standing {
    |id: Seq<char>| stands(m, id)
}

impl Register for Snapshot {
    open spec fn standing(&self, id: Seq<char>) -> Standing {
        stands(self@, id)
    }

    fn standing_of(&self, id: &ConceptId) -> (r: Standing) {
        if self.live.contains(id.as_str()) {
            Standing::Alive
        } else if self.gone.contains(id.as_str()) {
            Standing::Gone
        } else {
            Standing::Missing
        }
    }
}

/// The links of `id` by the state of their targets.
pub open spec fn examined(m: SnapshotModel, id: Seq<char>) -> Answer<HealthModel> {
    match shown(m, id) {
        Some(d) => Ok(health(d.links, standing_fn(m))),
        None => Err(StoreErrorModel::NotFound(id)),
    }
}

/// The documents with their links.
pub open spec fn links_of(m: SnapshotModel) -> Sources {
    Seq::<(Seq<char>, Seq<LinkModel>)>::new(
        m.live.len(),
        |i: int| (m.live[i].0, m.live[i].1.doc.links),
    )
}

/// The links that lead nowhere.
pub open spec fn validated(m: SnapshotModel, prefix: Option<Seq<char>>, b: Budget) -> ReportModel {
    report(links_of(m), prefix, standing_fn(m), b.max_search_results)
}

/// The types of the first `n` documents.
pub open spec fn types_to(m: SnapshotModel, n: int) -> Seq<Seq<char>>
    decreases n,
{
    if n <= 0 {
        Seq::empty()
    } else {
        types_to(m, n - 1).push(m.live[n - 1].1.doc.doc_type)
    }
}

/// The tags of the first `n` documents.
pub open spec fn tags_to(m: SnapshotModel, n: int) -> Seq<Seq<char>>
    decreases n,
{
    if n <= 0 {
        Seq::empty()
    } else {
        tags_to(m, n - 1) + m.live[n - 1].1.doc.tags
    }
}

/// The first `cap` documents, among the first `n`, without links either way.
pub open spec fn alone(m: SnapshotModel, n: int, linked: Seq<Seq<char>>, cap: usize) -> Seq<Seq<char>>
    decreases n,
{
    if n <= 0 {
        Seq::empty()
    } else {
        let rest = alone(m, n - 1, linked, cap);
        let d = m.live[n - 1].1.doc;
        if rest.len() < cap && d.links.len() == 0 && !linked.contains(d.concept_id) {
            rest.push(d.concept_id)
        } else {
            rest
        }
    }
}

/// The measures of a snapshot.
pub open spec fn measured(m: SnapshotModel, b: Budget) -> StatsModel {
    let n = m.live.len() as int;
    let cap = b.max_search_results;
    let linked = all_targets(links_of(m), n);
    StatsModel {
        documents: m.live.len(),
        deleted_documents: m.gone.len(),
        by_type: most_frequent(types_to(m, n), cap),
        by_tag: most_frequent(tags_to(m, n), cap),
        top_linked: most_frequent(linked, cap),
        orphans: alone(m, n, linked, cap),
    }
}

/// The state of a snapshot at a glance.
pub open spec fn glanced(m: SnapshotModel) -> StoreStatus {
    let found = validated(m, None, default_budget());
    StoreStatus {
        documents: m.live.len() as usize,
        deleted_documents: m.gone.len() as usize,
        missing_embeddings: 0,
        broken_links: found.broken_links_total,
        deleted_referenced: found.deleted_referenced_total,
        outbox_pending: 0,
        outbox_failed: 0,
    }
}

/// Where a document leads.
pub open spec fn leads_to(m: SnapshotModel, id: Seq<char>) -> Seq<Seq<char>> {
    match shown(m, id) {
        Some(d) => link_targets(d.links),
        None => Seq::empty(),
    }
}

/// The size of a document in bytes.
pub open spec fn size_in(m: SnapshotModel, id: Seq<char>) -> Option<usize> {
    match shown(m, id) {
        Some(d) => Some(utf8_len(d.raw) as usize),
        None => None,
    }
}

impl Snapshot {
    /// The live document `id`.
    pub fn get(&self, id: &ConceptId) -> (r: Option<DocumentView>)
        ensures
            opt_view(r) == shown(self@, id@),
    {
        match self.live.get(id.as_str()) {
            Some(d) => Some(d.to_view()),
            None => None,
        }
    }

    /// The token under which the file of `id` can be changed.
    pub fn file_sha(&self, id: &ConceptId) -> (r: Option<String>)
        ensures
            opt_view(r) == token(self@, id@),
    {
        match self.live.get(id.as_str()) {
            Some(d) => Some(d.file_sha.clone()),
            None => None,
        }
    }

    /// The documents that pass every filter, by id, within the limits.
    pub fn search(&self, query: &SearchQuery, budget: &Budget) -> (r: Vec<SearchHit>)
        ensures
            views(r@) == hits_from(self@, query@, *budget, 0, Seq::empty()),
    {
        let limit = limit_of(query, budget);
        let mut hits: Vec<SearchHit> = Vec::new();
        assert(views(hits@) =~= Seq::empty());
        let mut i: usize = 0;
        while i < self.live.len() && hits.len() < limit
            invariant
                i <= self.live@.len(),
                limit == search_limit(query@, *budget),
                hits_from(self@, query@, *budget, 0, Seq::empty()) == hits_from(
                    self@,
                    query@,
                    *budget,
                    i as int,
                    views(hits@),
                ),
            decreases self.live@.len() - i,
        {
            let key = self.live.key(i);
            let here = match &query.path_prefix {
                Some(p) => matches_prefix(key, p.as_str()),
                None => true,
            };
            if here {
                let d = self.live.value(i).to_view();
                if does_pass(&d, query) {
                    let hit = into_hit(d);
                    proof {
                        lemma_views_push(hits@, hit);
                    }
                    hits.push(hit);
                }
            }
            i += 1;
        }
        hits
    }

    /// A page of the history of `id`, latest first.
    pub fn history(&self, id: &ConceptId, limit: usize, before_seq: Option<u64>) -> (r: Result<
        Vec<Revision>,
        StoreError,
    >)
        ensures
            crate::repo::list_answer(r) == told(self@, id@, limit, before_seq),
    {
        if !self.live.contains(id.as_str()) && !self.gone.contains(id.as_str()) && !is_revised(
            &self.revisions,
            id,
        ) {
            return Err(StoreError::NotFound(id.clone()));
        }
        let cut: u64 = match before_seq {
            Some(c) => c,
            None => u64::MAX,
        };
        Ok(page_of(&self.revisions, id, cut, limit))
    }

    /// The documents that lead to `id`, by their ids.
    pub fn backlinks(&self, id: &ConceptId) -> (r: Vec<Backlink>)
        ensures
            views(r@) == back_to(self@, id@, self@.live.len() as int),
    {
        let mut out: Vec<Backlink> = Vec::new();
        assert(views(out@) =~= Seq::empty());
        let mut i: usize = 0;
        let n = self.live.len();
        while i < n
            invariant
                i <= n,
                n == self.live@.len(),
                views(out@) == back_to(self@, id@, i as int),
            decreases n - i,
        {
            let d = self.live.value(i);
            match find_link(&d.list.links, id) {
                Some(l) => {
                    let b = Backlink { source: into_hit(d.to_view()), rel: l.rel };
                    proof {
                        lemma_views_push(out@, b);
                    }
                    out.push(b);
                },
                None => {},
            }
            i += 1;
        }
        out
    }

    /// The links of `id` by the state of their targets.
    pub fn link_health(&self, id: &ConceptId) -> (r: Result<LinkHealth, StoreError>)
        ensures
            res_view(r) == examined(self@, id@),
    {
        match self.live.get(id.as_str()) {
            Some(d) => {
                let r = check_links(&d.list.links, self);
                assert(standing_in(self) =~= standing_fn(self@));
                Ok(r)
            },
            None => Err(StoreError::NotFound(id.clone())),
        }
    }

    fn sources(&self) -> (r: Vec<(&ConceptId, &LinkList)>)
        ensures
            views(r@) == links_of(self@),
    {
        proof {
            use_type_invariant(self);
        }
        let mut out: Vec<(&ConceptId, &LinkList)> = Vec::new();
        let n = self.live.len();
        let mut i: usize = 0;
        while i < n
            invariant
                i <= n,
                n == self.live@.len(),
                live_ok(self.live@),
                out@.len() == i,
                forall|k: int| 0 <= k < i ==> (#[trigger] out@[k])@ == links_of(self@)[k],
            decreases n - i,
        {
            let d = self.live.value(i);
            let e = (&d.id, &d.list);
            assert(self.live@[i as int].1.doc.concept_id == self.live@[i as int].0);
            assert(e@ == links_of(self@)[i as int]);
            out.push(e);
            i += 1;
        }
        assert(views(out@) =~= links_of(self@));
        out
    }

    /// The links that lead nowhere, under a path or everywhere.
    pub fn validate(&self, path_prefix: Option<&str>, budget: &Budget) -> (r: ValidationReport)
        ensures
            r@ == validated(self@, opt_view(path_prefix), *budget),
    {
        let sources = self.sources();
        let r = check_sources(&sources, path_prefix, self, budget.max_search_results);
        assert(standing_in(self) =~= standing_fn(self@));
        r
    }

    fn orphans(&self, incoming: &Table<usize>, cap: usize, Ghost(linked): Ghost<
        Seq<Seq<char>>,
    >) -> (r: Vec<ConceptId>)
        requires
            incoming@ == tally(linked),
        ensures
            views(r@) == alone(self@, self@.live.len() as int, linked, cap),
    {
        let mut out: Vec<ConceptId> = Vec::new();
        let mut i: usize = 0;
        let n = self.live.len();
        assert(views(out@) =~= Seq::<Seq<char>>::empty());
        while i < n
            invariant
                i <= n,
                n == self.live@.len(),
                incoming@ == tally(linked),
                views(out@) == alone(self@, i as int, linked, cap),
            decreases n - i,
        {
            let d = self.live.value(i);
            proof {
                law_tally_counts_what_occurs(linked, d.id@);
            }
            if out.len() < cap && d.list.links.len() == 0 && !incoming.contains(d.id.as_str()) {
                let id = d.id.clone();
                proof {
                    lemma_views_push(out@, id);
                }
                out.push(id);
            }
            i += 1;
        }
        out
    }

    fn count_types(&self) -> (r: Table<usize>)
        ensures
            r@ == tally(types_to(self@, self@.live.len() as int)),
    {
        let mut t: Table<usize> = Table::new();
        let n = self.live.len();
        let mut i: usize = 0;
        while i < n
            invariant
                i <= n,
                n == self.live@.len(),
                t@ == tally(types_to(self@, i as int)),
            decreases n - i,
        {
            let d = self.live.value(i);
            count(&mut t, d.doc_type.as_str(), Ghost(types_to(self@, i as int)));
            i += 1;
        }
        t
    }

    fn count_tags(&self) -> (r: Table<usize>)
        ensures
            r@ == tally(tags_to(self@, self@.live.len() as int)),
    {
        let mut t: Table<usize> = Table::new();
        let n = self.live.len();
        let mut i: usize = 0;
        while i < n
            invariant
                i <= n,
                n == self.live@.len(),
                t@ == tally(tags_to(self@, i as int)),
            decreases n - i,
        {
            let d = self.live.value(i);
            let ghost before = tags_to(self@, i as int);
            let ghost more = views(d.tags@);
            let mut j: usize = 0;
            assert(before + more.take(0) =~= before);
            while j < d.tags.len()
                invariant
                    j <= d.tags.len(),
                    more == views(d.tags@),
                    t@ == tally(before + more.take(j as int)),
                decreases d.tags.len() - j,
            {
                let ghost now = before + more.take(j as int);
                assert(more[j as int] == d.tags@[j as int]@);
                count(&mut t, d.tags[j].as_str(), Ghost(now));
                assert(before + more.take(j + 1) =~= now.push(more[j as int]));
                j += 1;
            }
            assert(more.take(j as int) =~= more);
            i += 1;
        }
        t
    }

    /// Counts of types, tags and links, and the documents without links.
    pub fn stats(&self, budget: &Budget) -> (r: GraphStats)
        ensures
            r@ == measured(self@, *budget),
    {
        let cap = budget.max_search_results;
        let n = self.live.len();
        let types = self.count_types();
        let tags = self.count_tags();
        let sources = self.sources();
        assert(sources@.len() == views(sources@).len());
        let incoming = count_targets(&sources);
        let ghost linked = all_targets(links_of(self@), n as int);
        let top = rank_counts(&incoming, cap, Ghost(linked));
        proof {
            law_most_frequent_is_ranked(linked, cap);
            assert forall|k: int| 0 <= k < top@.len() implies crate::model::valid_id(
                (#[trigger] top@[k]).0@,
            ) by {
                assert(views(top@)[k].0 == top@[k].0@);
                assert(linked.contains(views(top@)[k].0));
            }
        }
        GraphStats {
            documents: n,
            deleted_documents: self.gone.len(),
            by_type: rank_counts(&types, cap, Ghost(types_to(self@, n as int))),
            by_tag: rank_counts(&tags, cap, Ghost(tags_to(self@, n as int))),
            top_linked: as_ids(&top),
            orphans: self.orphans(&incoming, cap, Ghost(linked)),
        }
    }

    pub fn status(&self) -> (r: StoreStatus)
        ensures
            r == glanced(self@),
    {
        let found = self.validate(None, &Budget::default());
        StoreStatus {
            documents: self.live.len(),
            deleted_documents: self.gone.len(),
            missing_embeddings: 0,
            broken_links: found.broken_links_total,
            deleted_referenced: found.deleted_referenced_total,
            outbox_pending: 0,
            outbox_failed: 0,
        }
    }

    /// Where a document leads; an unknown one leads nowhere.
    pub fn neighbors(&self, id: &ConceptId) -> (r: Vec<ConceptId>)
        ensures
            views(r@) == leads_to(self@, id@),
    {
        match self.live.get(id.as_str()) {
            Some(d) => targets_of(&d.list.links),
            None => {
                let none: Vec<ConceptId> = Vec::new();
                assert(views(none@) =~= Seq::<Seq<char>>::empty());
                none
            },
        }
    }

    /// The size of a document in bytes.
    pub fn document_size(&self, id: &ConceptId) -> (r: Option<usize>)
        ensures
            r == size_in(self@, id@),
    {
        match self.live.get(id.as_str()) {
            Some(d) => Some(d.raw.as_str().as_bytes().len()),
            None => None,
        }
    }
}

// ---------------------------------------------------------------------
// Writing
// ---------------------------------------------------------------------

/// A write that was decided and is still to be made.
pub struct PlannedWrite {
    pub created: bool,
    pub version: u64,
    pub revision: Revision,
    pub doc: OkfDocument,
}

/// Mathematical counterpart of [`PlannedWrite`].
pub struct WriteModel {
    pub created: bool,
    pub version: u64,
    pub revision: RevisionModel,
    pub doc: DocModel,
}

impl View for PlannedWrite {
    type V = WriteModel;

    open spec fn view(&self) -> WriteModel {
        WriteModel {
            created: self.created,
            version: self.version,
            revision: self.revision@,
            doc: self.doc@,
        }
    }
}

/// What becomes of a commit.
pub enum DecidedCommit {
    /// The document is there already, as it is.
    NoChange(CommitOutcome),
    Write(PlannedWrite),
}

/// Mathematical counterpart of [`DecidedCommit`].
pub enum DecidedModel {
    NoChange(OutcomeModel),
    Write(WriteModel),
}

impl View for DecidedCommit {
    type V = DecidedModel;

    open spec fn view(&self) -> DecidedModel {
        match *self {
            DecidedCommit::NoChange(o) => DecidedModel::NoChange(o@),
            DecidedCommit::Write(w) => DecidedModel::Write(w@),
        }
    }
}

/// The last version of a document, live or deleted; zero if there was none.
pub open spec fn last_version(m: SnapshotModel, id: Seq<char>) -> nat {
    match shown(m, id) {
        Some(d) => d.version,
        None => match lookup(m.gone, id) {
            Some(v) => v as nat,
            None => 0,
        },
    }
}

pub open spec fn head_hash(m: SnapshotModel, id: Seq<char>) -> Option<Seq<u8>> {
    match shown(m, id) {
        Some(d) => Some(d.content_id),
        None => None,
    }
}

/// What becomes of a commit on a snapshot. The document is judged before the
/// head; versions go on where a deleted document left off.
pub open spec fn decided(
    m: SnapshotModel,
    req: RequestModel,
    actor: PrincipalModel,
    b: Budget,
) -> Answer<DecidedModel> {
    match parsed(req.markdown, b) {
        Err(e) => Err(StoreErrorModel::Okf(e)),
        Ok(doc) => {
            let id = req.concept_id;
            let incoming = content_hash(req.markdown);
            match decision(head_hash(m, id), req.expected, incoming) {
                DecisionModel::Conflict(c) => Err(StoreErrorModel::Conflict(c)),
                DecisionModel::NoChange => Ok(
                    DecidedModel::NoChange(
                        OutcomeModel {
                            revision: None,
                            content_id: incoming,
                            version: last_version(m, id),
                            created: false,
                            no_change: true,
                            warnings: Seq::empty(),
                        },
                    ),
                ),
                verdict => if m.next_seq == u64::MAX {
                    Err(StoreErrorModel::Backend("secuencia agotada"@))
                } else if last_version(m, id) >= u64::MAX {
                    Err(StoreErrorModel::Backend("versión agotada"@))
                } else {
                    Ok(
                        DecidedModel::Write(
                            WriteModel {
                                created: verdict is Create,
                                version: (last_version(m, id) + 1) as u64,
                                revision: RevisionModel {
                                    seq: m.next_seq as nat,
                                    concept_id: id,
                                    base: head_hash(m, id),
                                    result: incoming,
                                    actor,
                                    reason: req.reason,
                                },
                                doc,
                            },
                        ),
                    )
                },
            }
        },
    }
}

/// What is answered once a write was made.
pub open spec fn write_outcome(w: WriteModel) -> OutcomeModel {
    OutcomeModel {
        revision: Some(w.revision),
        content_id: w.revision.result,
        version: w.version as nat,
        created: w.created,
        no_change: false,
        warnings: Seq::empty(),
    }
}

pub open spec fn after(seq: nat) -> u64 {
    if seq >= u64::MAX {
        u64::MAX
    } else {
        (seq + 1) as u64
    }
}

/// The snapshot after a write.
pub open spec fn with_write(
    m: SnapshotModel,
    markdown: Seq<char>,
    w: WriteModel,
    file_sha: Seq<char>,
) -> SnapshotModel {
    let id = w.revision.concept_id;
    SnapshotModel {
        live: put(m.live, id, live_model(id, markdown, w.doc, w.version as nat, file_sha)),
        gone: del(m.gone, id),
        revisions: m.revisions.push(w.revision),
        next_seq: after(w.revision.seq),
        ..m
    }
}

/// What becomes of a deletion on a snapshot.
pub open spec fn doomed(
    m: SnapshotModel,
    id: Seq<char>,
    expected: Seq<u8>,
    actor: PrincipalModel,
    reason: Seq<char>,
) -> Answer<DeleteModel> {
    match shown(m, id) {
        None => Err(StoreErrorModel::NotFound(id)),
        Some(d) => if d.content_id != expected {
            Err(
                StoreErrorModel::Conflict(
                    ConflictModel {
                        expected: Some(expected),
                        current: Some(d.content_id),
                        incoming: expected,
                    },
                ),
            )
        } else if m.next_seq == u64::MAX {
            Err(StoreErrorModel::Backend("secuencia agotada"@))
        } else {
            Ok(
                DeleteModel {
                    content_id: d.content_id,
                    version: d.version,
                    revision: RevisionModel {
                        seq: m.next_seq as nat,
                        concept_id: id,
                        base: Some(d.content_id),
                        result: d.content_id,
                        actor,
                        reason,
                    },
                    warnings: Seq::empty(),
                },
            )
        },
    }
}

/// The snapshot after a deletion.
pub open spec fn with_deletion(m: SnapshotModel, d: DeleteModel) -> SnapshotModel {
    let id = d.revision.concept_id;
    SnapshotModel {
        live: del(m.live, id),
        gone: put(m.gone, id, d.version as u64),
        revisions: m.revisions.push(d.revision),
        next_seq: after(d.revision.seq),
        ..m
    }
}

impl PlannedWrite {
    /// What is answered once the write was made.
    pub fn outcome(&self) -> (r: CommitOutcome)
        ensures
            r@ == write_outcome(self@),
    {
        let warnings: Vec<String> = Vec::new();
        assert(views(warnings@) =~= Seq::empty());
        CommitOutcome {
            revision: Some(self.revision.clone()),
            content_id: self.revision.result,
            version: self.version,
            created: self.created,
            no_change: false,
            warnings,
        }
    }
}

impl Snapshot {
    fn version_of(&self, id: &ConceptId) -> (r: u64)
        ensures
            r == last_version(self@, id@),
    {
        match self.live.get(id.as_str()) {
            Some(d) => d.version,
            None => match self.gone.get(id.as_str()) {
                Some(v) => *v,
                None => 0,
            },
        }
    }

    fn hash_of(&self, id: &ConceptId) -> (r: Option<ContentId>)
        ensures
            opt_view(r) == head_hash(self@, id@),
    {
        match self.live.get(id.as_str()) {
            Some(d) => Some(d.content_id),
            None => None,
        }
    }

    /// Decides a commit without making it.
    pub fn decide_commit(&self, request: &CommitRequest, actor: &Principal, budget: &Budget) -> (r:
        Result<DecidedCommit, StoreError>)
        ensures
            res_view(r) == decided(self@, request@, actor@, *budget),
    {
        let doc = match parse_document(request.markdown.as_str(), budget) {
            Ok(d) => d,
            Err(e) => {
                return Err(StoreError::Okf(e));
            },
        };
        let incoming = content_id(request.markdown.as_str());
        let base = self.hash_of(&request.concept_id);
        let prev = self.version_of(&request.concept_id);
        let verdict = decide(base, request.expected, incoming);
        match verdict {
            CommitDecision::Conflict(c) => {
                return Err(StoreError::Conflict(c));
            },
            CommitDecision::NoChange => {
                let warnings: Vec<String> = Vec::new();
                assert(views(warnings@) =~= Seq::empty());
                return Ok(
                    DecidedCommit::NoChange(
                        CommitOutcome {
                            revision: None,
                            content_id: incoming,
                            version: prev,
                            created: false,
                            no_change: true,
                            warnings,
                        },
                    ),
                );
            },
            _ => {},
        }
        let created = match verdict {
            CommitDecision::Create => true,
            _ => false,
        };
        if self.next_seq == u64::MAX {
            return Err(StoreError::Backend("secuencia agotada".to_owned()));
        }
        if prev == u64::MAX {
            return Err(StoreError::Backend("versión agotada".to_owned()));
        }
        let revision = Revision {
            seq: self.next_seq,
            concept_id: request.concept_id.clone(),
            base,
            result: incoming,
            actor: actor.clone(),
            reason: request.reason.clone(),
        };
        Ok(DecidedCommit::Write(PlannedWrite { created, version: prev + 1, revision, doc }))
    }

    /// The snapshot after a write that was made.
    pub fn apply_write(self, markdown: &str, w: PlannedWrite, file_sha: String) -> (r: Snapshot)
        ensures
            r@ == with_write(self@, markdown@, w@, file_sha@),
    {
        proof {
            use_type_invariant(&self);
        }
        let Snapshot { head_sha, mut live, mut gone, mut revisions, next_seq } = self;
        let ghost m = self@;
        let count = live.len();
        let id = w.revision.concept_id.clone();
        let PlannedWrite { created, version, revision, doc } = w;
        let entry = LiveDoc::new(id.clone(), markdown.to_owned(), doc, version, file_sha);
        proof {
            lemma_live_put(live@, id@, entry@);
        }
        gone.remove(id.as_str());
        live.insert(id.as_str().to_owned(), entry);
        let next_seq = if revision.seq == u64::MAX {
            u64::MAX
        } else {
            revision.seq + 1
        };
        proof {
            lemma_views_push(revisions@, revision);
        }
        revisions.push(revision);
        Snapshot { head_sha, live, gone, revisions, next_seq }
    }

    /// Decides a deletion without making it.
    pub fn decide_delete(
        &self,
        id: &ConceptId,
        expected: ContentId,
        actor: &Principal,
        reason: String,
    ) -> (r: Result<DeleteOutcome, StoreError>)
        ensures
            res_view(r) == doomed(self@, id@, expected@, actor@, reason@),
    {
        let d = match self.live.get(id.as_str()) {
            Some(d) => d,
            None => {
                return Err(StoreError::NotFound(id.clone()));
            },
        };
        if !d.content_id.same(&expected) {
            return Err(
                StoreError::Conflict(
                    Conflict {
                        expected: Some(expected),
                        current: Some(d.content_id),
                        incoming: expected,
                    },
                ),
            );
        }
        if self.next_seq == u64::MAX {
            return Err(StoreError::Backend("secuencia agotada".to_owned()));
        }
        let revision = Revision {
            seq: self.next_seq,
            concept_id: id.clone(),
            base: Some(d.content_id),
            result: d.content_id,
            actor: actor.clone(),
            reason,
        };
        let warnings: Vec<String> = Vec::new();
        assert(views(warnings@) =~= Seq::empty());
        Ok(DeleteOutcome { content_id: d.content_id, version: d.version, revision, warnings })
    }

    /// The snapshot after a deletion that was made.
    pub fn apply_delete(self, d: &DeleteOutcome) -> (r: Snapshot)
        ensures
            r@ == with_deletion(self@, d@),
    {
        proof {
            use_type_invariant(&self);
            lemma_live_del(self.live@, d.revision.concept_id@);
        }
        let Snapshot { head_sha, mut live, mut gone, mut revisions, next_seq } = self;
        live.remove(d.revision.concept_id.as_str());
        gone.insert(d.revision.concept_id.as_str().to_owned(), d.version);
        let revision = d.revision.clone();
        let next_seq = if revision.seq == u64::MAX {
            u64::MAX
        } else {
            revision.seq + 1
        };
        proof {
            lemma_views_push(revisions@, revision);
        }
        revisions.push(revision);
        Snapshot { head_sha, live, gone, revisions, next_seq }
    }

    /// The same state at another commit.
    pub fn at_head(self, head_sha: String) -> (r: Snapshot)
        ensures
            r@ == (SnapshotModel { head_sha: head_sha@, ..self@ }),
    {
        proof {
            use_type_invariant(&self);
        }
        Snapshot {
            head_sha,
            live: self.live,
            gone: self.gone,
            revisions: self.revisions,
            next_seq: self.next_seq,
        }
    }
}

// ---------------------------------------------------------------------
// Laws
// ---------------------------------------------------------------------

/// A write is read back as it was written, one version up, and no other
/// document is touched.
pub proof fn law_snapshot_reads_its_writes(
    m: SnapshotModel,
    req: RequestModel,
    actor: PrincipalModel,
    b: Budget,
    file_sha: Seq<char>,
    other: Seq<char>,
)
    requires
        ascending(m.live),
        decided(m, req, actor, b) is Ok,
        decided(m, req, actor, b)->Ok_0 is Write,
        other != req.concept_id,
    ensures
        ({
            let w = decided(m, req, actor, b)->Ok_0->Write_0;
            let after_write = with_write(m, req.markdown, w, file_sha);
            &&& shown(after_write, req.concept_id) is Some
            &&& shown(after_write, req.concept_id)->0.raw == req.markdown
            &&& shown(after_write, req.concept_id)->0.content_id == content_hash(req.markdown)
            &&& shown(after_write, req.concept_id)->0.version == last_version(m, req.concept_id) + 1
            &&& shown(after_write, other) == shown(m, other)
        }),
{
    let w = decided(m, req, actor, b)->Ok_0->Write_0;
    let d = live_model(req.concept_id, req.markdown, w.doc, w.version as nat, file_sha);
    lemma_lookup_put(m.live, req.concept_id, d, req.concept_id);
    lemma_lookup_put(m.live, req.concept_id, d, other);
}

/// A deleted document is not read any more, its version lives on, and no other
/// document is touched.
pub proof fn law_snapshot_forgets_what_is_deleted(
    m: SnapshotModel,
    id: Seq<char>,
    expected: Seq<u8>,
    actor: PrincipalModel,
    reason: Seq<char>,
    other: Seq<char>,
)
    requires
        ascending(m.live),
        ascending(m.gone),
        last_version(m, id) <= u64::MAX,
        doomed(m, id, expected, actor, reason) is Ok,
        other != id,
    ensures
        ({
            let d = doomed(m, id, expected, actor, reason)->Ok_0;
            let after_delete = with_deletion(m, d);
            &&& shown(after_delete, id) is None
            &&& last_version(after_delete, id) == last_version(m, id)
            &&& shown(after_delete, other) == shown(m, other)
        }),
{
    let d = doomed(m, id, expected, actor, reason)->Ok_0;
    lemma_lookup_del(m.live, id, id);
    lemma_lookup_del(m.live, id, other);
    lemma_lookup_put(m.gone, id, d.version as u64, id);
}

} // verus!

//! What a store takes and gives: requests, outcomes, reports and errors.

use vstd::prelude::*;
use crate::conflict::{Conflict, ConflictModel};
use crate::model::{hex, ConceptId, ContentId, Revision, RevisionModel};
use crate::okf::{Link, LinkModel, OkfError, OkfErrorModel};
use crate::text::{at, chars_of, clone_strings, opt_view, starts_with, views};

verus! {

/// A document as a store serves it.
#[derive(Debug, PartialEq, Eq)]
pub struct DocumentView {
    pub concept_id: ConceptId,
    pub content_id: ContentId,
    pub version: u64,
    /// The exact text.
    pub raw: String,
    pub doc_type: String,
    pub title: Option<String>,
    pub tags: Vec<String>,
    pub links: Vec<Link>,
}

/// Mathematical counterpart of [`DocumentView`].
pub struct DocViewModel {
    pub concept_id: Seq<char>,
    pub content_id: Seq<u8>,
    pub version: nat,
    pub raw: Seq<char>,
    pub doc_type: Seq<char>,
    pub title: Option<Seq<char>>,
    pub tags: Seq<Seq<char>>,
    pub links: Seq<LinkModel>,
}

impl View for DocumentView {
    type V = DocViewModel;

    open spec fn view(&self) -> DocViewModel {
        DocViewModel {
            concept_id: self.concept_id@,
            content_id: self.content_id@,
            version: self.version as nat,
            raw: self.raw@,
            doc_type: self.doc_type@,
            title: opt_view(self.title),
            tags: views(self.tags@),
            links: views(self.links@),
        }
    }
}

/// A write that someone asks for.
#[derive(Debug)]
pub struct CommitRequest {
    pub concept_id: ConceptId,
    /// Hash the writer read; `None` to create.
    pub expected: Option<ContentId>,
    /// The whole document.
    pub markdown: String,
    pub reason: String,
}

/// Mathematical counterpart of [`CommitRequest`].
pub struct RequestModel {
    pub concept_id: Seq<char>,
    pub expected: Option<Seq<u8>>,
    pub markdown: Seq<char>,
    pub reason: Seq<char>,
}

impl View for CommitRequest {
    type V = RequestModel;

    open spec fn view(&self) -> RequestModel {
        RequestModel {
            concept_id: self.concept_id@,
            expected: opt_view(self.expected),
            markdown: self.markdown@,
            reason: self.reason@,
        }
    }
}

impl Clone for CommitRequest {
    fn clone(&self) -> (r: Self)
        ensures
            r@ == self@,
    {
        CommitRequest {
            concept_id: self.concept_id.clone(),
            expected: self.expected,
            markdown: self.markdown.clone(),
            reason: self.reason.clone(),
        }
    }
}

/// A copy of a list of requests.
pub fn clone_requests(v: &Vec<CommitRequest>) -> (r: Vec<CommitRequest>)
    ensures
        views(r@) == views(v@),
{
    let mut out: Vec<CommitRequest> = Vec::new();
    let mut i: usize = 0;
    while i < v.len()
        invariant
            i <= v.len(),
            out@.len() == i,
            forall|k: int| 0 <= k < i ==> (#[trigger] out@[k])@ == v@[k]@,
        decreases v.len() - i,
    {
        out.push(v[i].clone());
        i += 1;
    }
    assert(views(out@) =~= views(v@));
    out
}

/// What became of a write.
#[derive(Debug, PartialEq, Eq)]
pub struct CommitOutcome {
    /// The new revision; `None` when nothing changed.
    pub revision: Option<Revision>,
    pub content_id: ContentId,
    pub version: u64,
    pub created: bool,
    pub no_change: bool,
    /// What went wrong beside the write itself.
    pub warnings: Vec<String>,
}

/// Mathematical counterpart of [`CommitOutcome`].
pub struct OutcomeModel {
    pub revision: Option<RevisionModel>,
    pub content_id: Seq<u8>,
    pub version: nat,
    pub created: bool,
    pub no_change: bool,
    pub warnings: Seq<Seq<char>>,
}

impl View for CommitOutcome {
    type V = OutcomeModel;

    open spec fn view(&self) -> OutcomeModel {
        OutcomeModel {
            revision: opt_view(self.revision),
            content_id: self.content_id@,
            version: self.version as nat,
            created: self.created,
            no_change: self.no_change,
            warnings: views(self.warnings@),
        }
    }
}

impl Clone for CommitOutcome {
    fn clone(&self) -> (r: Self)
        ensures
            r@ == self@,
    {
        CommitOutcome {
            revision: match &self.revision {
                Some(x) => Some(x.clone()),
                None => None,
            },
            content_id: self.content_id,
            version: self.version,
            created: self.created,
            no_change: self.no_change,
            warnings: clone_strings(&self.warnings),
        }
    }
}

/// What to look for. Every filter that is set must hold.
#[derive(Debug)]
pub struct SearchQuery {
    /// A substring of id, title, tags or text, in any case.
    pub text: Option<String>,
    pub doc_type: Option<String>,
    /// A type to leave out.
    pub exclude_type: Option<String>,
    pub tag: Option<String>,
    /// A path, whole segments.
    pub path_prefix: Option<String>,
    pub limit: Option<usize>,
}

/// Mathematical counterpart of [`SearchQuery`].
pub struct QueryModel {
    pub text: Option<Seq<char>>,
    pub doc_type: Option<Seq<char>>,
    pub exclude_type: Option<Seq<char>>,
    pub tag: Option<Seq<char>>,
    pub path_prefix: Option<Seq<char>>,
    pub limit: Option<usize>,
}

impl View for SearchQuery {
    type V = QueryModel;

    open spec fn view(&self) -> QueryModel {
        QueryModel {
            text: opt_view(self.text),
            doc_type: opt_view(self.doc_type),
            exclude_type: opt_view(self.exclude_type),
            tag: opt_view(self.tag),
            path_prefix: opt_view(self.path_prefix),
            limit: self.limit,
        }
    }
}

impl Default for SearchQuery {
    fn default() -> (r: SearchQuery)
        ensures
            r@ == (QueryModel {
                text: None,
                doc_type: None,
                exclude_type: None,
                tag: None,
                path_prefix: None,
                limit: None,
            }),
    {
        SearchQuery {
            text: None,
            doc_type: None,
            exclude_type: None,
            tag: None,
            path_prefix: None,
            limit: None,
        }
    }
}

/// Whether `id` is `prefix` or lies under it, by whole segments.
pub open spec fn under(id: Seq<char>, prefix: Seq<char>) -> bool {
    id == prefix || (starts_with(id, prefix) && prefix.len() < id.len() && id[prefix.len() as int]
        == '/')
}

/// Whether `id` is `prefix` or lies under it, by whole segments.
pub fn matches_prefix(id: &str, prefix: &str) -> (r: bool)
    ensures
        r == under(id@, prefix@),
{
    let a = chars_of(id);
    let p = chars_of(prefix);
    if !crate::text::at_of(a.as_slice(), 0, p.as_slice()) {
        assert(id@ == prefix@ ==> at(id@, 0, prefix@)) by {
            if id@ == prefix@ {
                assert(id@.subrange(0, id@.len() as int) =~= id@);
            }
        }
        return false;
    }
    if a.len() == p.len() {
        assert(id@.subrange(0, id@.len() as int) =~= id@);
        return true;
    }
    a[p.len()] == '/'
}

/// A document found by a search.
#[derive(Debug, PartialEq, Eq)]
pub struct SearchHit {
    pub concept_id: ConceptId,
    pub content_id: ContentId,
    pub doc_type: String,
    pub title: Option<String>,
    pub tags: Vec<String>,
}

/// Mathematical counterpart of [`SearchHit`].
pub struct HitModel {
    pub concept_id: Seq<char>,
    pub content_id: Seq<u8>,
    pub doc_type: Seq<char>,
    pub title: Option<Seq<char>>,
    pub tags: Seq<Seq<char>>,
}

impl View for SearchHit {
    type V = HitModel;

    open spec fn view(&self) -> HitModel {
        HitModel {
            concept_id: self.concept_id@,
            content_id: self.content_id@,
            doc_type: self.doc_type@,
            title: opt_view(self.title),
            tags: views(self.tags@),
        }
    }
}

/// The compact form of a served document.
pub open spec fn hit_of(d: DocViewModel) -> HitModel {
    HitModel {
        concept_id: d.concept_id,
        content_id: d.content_id,
        doc_type: d.doc_type,
        title: d.title,
        tags: d.tags,
    }
}

/// The compact form of a served document.
pub fn into_hit(d: DocumentView) -> (r: SearchHit)
    ensures
        r@ == hit_of(d@),
{
    SearchHit {
        concept_id: d.concept_id,
        content_id: d.content_id,
        doc_type: d.doc_type,
        title: d.title,
        tags: d.tags,
    }
}

/// What became of a deletion.
#[derive(Debug, PartialEq, Eq)]
pub struct DeleteOutcome {
    pub content_id: ContentId,
    pub version: u64,
    pub revision: Revision,
    /// What went wrong beside the deletion itself.
    pub warnings: Vec<String>,
}

/// Mathematical counterpart of [`DeleteOutcome`].
pub struct DeleteModel {
    pub content_id: Seq<u8>,
    pub version: nat,
    pub revision: RevisionModel,
    pub warnings: Seq<Seq<char>>,
}

impl View for DeleteOutcome {
    type V = DeleteModel;

    open spec fn view(&self) -> DeleteModel {
        DeleteModel {
            content_id: self.content_id@,
            version: self.version as nat,
            revision: self.revision@,
            warnings: views(self.warnings@),
        }
    }
}

/// A document that links to another one.
#[derive(Debug, PartialEq, Eq)]
pub struct Backlink {
    pub source: SearchHit,
    pub rel: Option<String>,
}

/// Mathematical counterpart of [`Backlink`].
pub struct BacklinkModel {
    pub source: HitModel,
    pub rel: Option<Seq<char>>,
}

impl View for Backlink {
    type V = BacklinkModel;

    open spec fn view(&self) -> BacklinkModel {
        BacklinkModel { source: self.source@, rel: opt_view(self.rel) }
    }
}

/// Why a store refused.
#[derive(Debug, PartialEq, Eq)]
pub enum StoreError {
    /// The document is not valid.
    Okf(OkfError),
    /// The head is not what the writer read.
    Conflict(Conflict),
    NotFound(ConceptId),
    /// The backend failed.
    Backend(String),
}

/// Mathematical counterpart of [`StoreError`].
pub enum StoreErrorModel {
    Okf(OkfErrorModel),
    Conflict(ConflictModel),
    NotFound(Seq<char>),
    Backend(Seq<char>),
}

impl View for StoreError {
    type V = StoreErrorModel;

    open spec fn view(&self) -> StoreErrorModel {
        match *self {
            StoreError::Okf(e) => StoreErrorModel::Okf(e@),
            StoreError::Conflict(c) => StoreErrorModel::Conflict(c@),
            StoreError::NotFound(id) => StoreErrorModel::NotFound(id@),
            StoreError::Backend(m) => StoreErrorModel::Backend(m@),
        }
    }
}

impl Clone for StoreError {
    fn clone(&self) -> (r: Self)
        ensures
            r@ == self@,
    {
        match self {
            StoreError::Okf(e) => StoreError::Okf(e.clone()),
            StoreError::Conflict(c) => StoreError::Conflict(*c),
            StoreError::NotFound(id) => StoreError::NotFound(id.clone()),
            StoreError::Backend(m) => StoreError::Backend(m.clone()),
        }
    }
}

/// An optional hash as a message shows it.
pub open spec fn shown_hash(h: Option<Seq<u8>>) -> Seq<char> {
    match h {
        Some(b) => "Some(\""@ + hex(b) + "\")"@,
        None => "None"@,
    }
}

impl StoreErrorModel {
    /// The text shown to a person.
    pub open spec fn message(self) -> Seq<char> {
        match self {
            StoreErrorModel::Okf(e) => "documento OKF inválido: "@ + e.message(),
            StoreErrorModel::Conflict(c) => "conflicto de revisión: se esperaba "@ + shown_hash(
                c.expected,
            ) + ", hay "@ + shown_hash(c.current),
            StoreErrorModel::NotFound(id) => "no existe el concepto "@ + id,
            StoreErrorModel::Backend(m) => "error del backend: "@ + m,
        }
    }
}

fn push_hash(out: &mut String, h: &Option<ContentId>)
    ensures
        final(out)@ == old(out)@ + shown_hash(opt_view(*h)),
{
    match h {
        Some(b) => {
            out.push_str("Some(\"");
            out.push_str(b.to_hex().as_str());
            out.push_str("\")");
        },
        None => {
            out.push_str("None");
        },
    }
    assert(out@ =~= old(out)@ + shown_hash(opt_view(*h)));
}

impl StoreError {
    /// The text shown to a person.
    pub fn message(&self) -> (r: String)
        ensures
            r@ == self@.message(),
    {
        let mut out = String::new();
        match self {
            StoreError::Okf(e) => {
                out.push_str("documento OKF inválido: ");
                out.push_str(e.message().as_str());
            },
            StoreError::Conflict(c) => {
                out.push_str("conflicto de revisión: se esperaba ");
                push_hash(&mut out, &c.expected);
                out.push_str(", hay ");
                push_hash(&mut out, &c.current);
            },
            StoreError::NotFound(id) => {
                out.push_str("no existe el concepto ");
                out.push_str(id.as_str());
            },
            StoreError::Backend(m) => {
                out.push_str("error del backend: ");
                out.push_str(m.as_str());
            },
        }
        assert(out@ =~= self@.message());
        out
    }
}

/// What became of one request of a batch.
#[derive(Debug, PartialEq, Eq)]
pub enum BulkItem {
    Done(CommitOutcome),
    Failed(StoreError),
    /// Not applied because another one failed.
    Skipped,
}

/// Mathematical counterpart of [`BulkItem`].
pub enum BulkItemModel {
    Done(OutcomeModel),
    Failed(StoreErrorModel),
    Skipped,
}

impl View for BulkItem {
    type V = BulkItemModel;

    open spec fn view(&self) -> BulkItemModel {
        match *self {
            BulkItem::Done(o) => BulkItemModel::Done(o@),
            BulkItem::Failed(e) => BulkItemModel::Failed(e@),
            BulkItem::Skipped => BulkItemModel::Skipped,
        }
    }
}

/// What became of a batch.
#[derive(Debug, PartialEq, Eq)]
pub struct BulkOutcome {
    /// `false` when an atomic batch was rolled back.
    pub applied: bool,
    /// One item per request, in order.
    pub items: Vec<BulkItem>,
}

/// Mathematical counterpart of [`BulkOutcome`].
pub struct BulkModel {
    pub applied: bool,
    pub items: Seq<BulkItemModel>,
}

impl View for BulkOutcome {
    type V = BulkModel;

    open spec fn view(&self) -> BulkModel {
        BulkModel { applied: self.applied, items: views(self.items@) }
    }
}

/// The links of a document by the state of their targets.
#[derive(Debug, PartialEq, Eq)]
pub struct LinkHealth {
    pub ok: Vec<Link>,
    /// The target never existed.
    pub broken: Vec<Link>,
    /// The target was deleted.
    pub deleted: Vec<Link>,
}

/// Mathematical counterpart of [`LinkHealth`].
pub struct HealthModel {
    pub ok: Seq<LinkModel>,
    pub broken: Seq<LinkModel>,
    pub deleted: Seq<LinkModel>,
}

impl View for LinkHealth {
    type V = HealthModel;

    open spec fn view(&self) -> HealthModel {
        HealthModel {
            ok: views(self.ok@),
            broken: views(self.broken@),
            deleted: views(self.deleted@),
        }
    }
}

/// Findings over the whole graph. Lists are capped; totals are not.
#[derive(Debug, PartialEq, Eq)]
pub struct ValidationReport {
    pub broken_links: Vec<(ConceptId, ConceptId)>,
    pub broken_links_total: usize,
    pub deleted_referenced: Vec<(ConceptId, ConceptId)>,
    pub deleted_referenced_total: usize,
    pub missing_embeddings: Vec<ConceptId>,
    pub missing_embeddings_total: usize,
}

/// Mathematical counterpart of [`ValidationReport`].
pub struct ReportModel {
    pub broken_links: Seq<(Seq<char>, Seq<char>)>,
    pub broken_links_total: usize,
    pub deleted_referenced: Seq<(Seq<char>, Seq<char>)>,
    pub deleted_referenced_total: usize,
    pub missing_embeddings: Seq<Seq<char>>,
    pub missing_embeddings_total: usize,
}

impl View for ValidationReport {
    type V = ReportModel;

    open spec fn view(&self) -> ReportModel {
        ReportModel {
            broken_links: views(self.broken_links@),
            broken_links_total: self.broken_links_total,
            deleted_referenced: views(self.deleted_referenced@),
            deleted_referenced_total: self.deleted_referenced_total,
            missing_embeddings: views(self.missing_embeddings@),
            missing_embeddings_total: self.missing_embeddings_total,
        }
    }
}

/// Measures of the graph.
#[derive(Debug, PartialEq, Eq)]
pub struct GraphStats {
    pub documents: usize,
    pub deleted_documents: usize,
    /// Documents per type, most frequent first.
    pub by_type: Vec<(String, usize)>,
    /// Documents per tag, most frequent first.
    pub by_tag: Vec<(String, usize)>,
    /// Most linked concepts first.
    pub top_linked: Vec<(ConceptId, usize)>,
    /// Documents without links either way.
    pub orphans: Vec<ConceptId>,
}

/// Mathematical counterpart of [`GraphStats`].
pub struct StatsModel {
    pub documents: nat,
    pub deleted_documents: nat,
    pub by_type: Seq<(Seq<char>, usize)>,
    pub by_tag: Seq<(Seq<char>, usize)>,
    pub top_linked: Seq<(Seq<char>, usize)>,
    pub orphans: Seq<Seq<char>>,
}

impl View for GraphStats {
    type V = StatsModel;

    open spec fn view(&self) -> StatsModel {
        StatsModel {
            documents: self.documents as nat,
            deleted_documents: self.deleted_documents as nat,
            by_type: views(self.by_type@),
            by_tag: views(self.by_tag@),
            top_linked: views(self.top_linked@),
            orphans: views(self.orphans@),
        }
    }
}

/// State of a store at a glance.
#[derive(Debug, Clone, Copy, PartialEq, Eq)]
pub struct StoreStatus {
    pub documents: usize,
    pub deleted_documents: usize,
    pub missing_embeddings: usize,
    pub broken_links: usize,
    pub deleted_referenced: usize,
    pub outbox_pending: usize,
    pub outbox_failed: usize,
}

/// What came of indexing documents semantically.
#[derive(Debug, PartialEq, Eq)]
pub struct EmbedOutcome {
    pub embedded: Vec<ConceptId>,
    /// Those that failed, with the reason.
    pub failed: Vec<(ConceptId, String)>,
    pub remaining: usize,
}

/// Mathematical counterpart of [`EmbedOutcome`].
pub struct EmbedModel {
    pub embedded: Seq<Seq<char>>,
    pub failed: Seq<(Seq<char>, Seq<char>)>,
    pub remaining: usize,
}

impl View for EmbedOutcome {
    type V = EmbedModel;

    open spec fn view(&self) -> EmbedModel {
        EmbedModel {
            embedded: views(self.embedded@),
            failed: views(self.failed@),
            remaining: self.remaining,
        }
    }
}

/// What a read index knows of the head of a document.
#[derive(Debug, PartialEq, Eq)]
pub struct DocHint {
    /// Hash of the live head; `None` when there is none.
    pub live_content_id: Option<ContentId>,
    /// Last known version, zero if there never was one.
    pub version: u64,
    /// Token the write backend compares and swaps on.
    pub file_sha: Option<String>,
}

/// Mathematical counterpart of [`DocHint`].
pub struct HintModel {
    pub live_content_id: Option<Seq<u8>>,
    pub version: nat,
    pub file_sha: Option<Seq<char>>,
}

impl View for DocHint {
    type V = HintModel;

    open spec fn view(&self) -> HintModel {
        HintModel {
            live_content_id: opt_view(self.live_content_id),
            version: self.version as nat,
            file_sha: opt_view(self.file_sha),
        }
    }
}

} // verus!

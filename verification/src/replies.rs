//! What tools answer, as JSON.

use vstd::prelude::*;
use crate::conflict::Conflict;
use crate::graph::{Traversal, TraversalModel, Visited, VisitedModel};
use crate::json::{
    arr, empty_object, json_text, n, number, opt_s, opt_text, s, strings, texts, to_string, Fields,
    JsonModel, Value,
};
use crate::mcp::{ToolError, ToolErrorModel};
use crate::model::{hex, ConceptId, ContentId, Revision, RevisionModel};
use crate::ontology::{Object, ObjectModel, Triple, TripleModel};
use crate::store::{
    Backlink, BacklinkModel, BulkItem, BulkItemModel, CommitOutcome, DeleteModel, DeleteOutcome,
    DocViewModel, DocumentView, EmbedModel, EmbedOutcome, GraphStats, HitModel, OutcomeModel,
    ReportModel, SearchHit, StatsModel, StoreError, StoreErrorModel, StoreStatus, ValidationReport,
};
use crate::text::{opt_view, views};

verus! {

/// A text as a value.
pub open spec fn txt(t: Seq<char>) -> JsonModel {
    JsonModel::String(t)
}

/// A flag as a value.
pub open spec fn flag(b: bool) -> JsonModel {
    JsonModel::Bool(b)
}

/// Whatever has a form as JSON.
pub trait Shown: View + Sized {
    spec fn json(m: Self::V) -> JsonModel;

    fn to_value(&self) -> (r: Value)
        ensures
            r@ == Self::json(self@),
    ;
}

/// A list of such things.
pub open spec fn list_json<T: Shown>(l: Seq<T::V>) -> JsonModel {
    JsonModel::Array(Seq::new(l.len(), |i: int| T::json(l[i])))
}

/// A list from index `from` on.
pub fn list_value<T: Shown>(l: &Vec<T>, from: usize) -> (r: Value)
    requires
        from <= l@.len(),
    ensures
        r@ == list_json::<T>(views(l@).skip(from as int)),
{
    let ghost all = views(l@).skip(from as int);
    let mut out: Vec<Value> = Vec::new();
    let mut i: usize = from;
    while i < l.len()
        invariant
            from <= i <= l.len(),
            all == views(l@).skip(from as int),
            out@.len() == i - from,
            forall|k: int| 0 <= k < out@.len() ==> (#[trigger] out@[k])@ == T::json(all[k]),
        decreases l.len() - i,
    {
        let v = l[i].to_value();
        assert(all[i - from] == l@[i as int]@);
        out.push(v);
        i += 1;
    }
    assert(views(out@) =~= Seq::new(all.len(), |k: int| T::json(all[k])));
    arr(out)
}

/// A whole list.
pub fn all_values<T: Shown>(l: &Vec<T>) -> (r: Value)
    ensures
        r@ == list_json::<T>(views(l@)),
{
    assert(views(l@).skip(0) =~= views(l@));
    list_value(l, 0)
}

// ---------------------------------------------------------------------
// Errors
// ---------------------------------------------------------------------

pub open spec fn opt_hash_json(h: Option<Seq<u8>>) -> JsonModel {
    match h {
        Some(b) => txt(hex(b)),
        None => JsonModel::Null,
    }
}

pub fn opt_hash(h: &Option<ContentId>) -> (r: Value)
    ensures
        r@ == opt_hash_json(opt_view(*h)),
{
    match h {
        Some(c) => s(c.to_hex().as_str()),
        None => Value::Null,
    }
}

/// A failure with a kind and a detail.
pub open spec fn kind_json(kind: Seq<char>, detail: Seq<char>) -> JsonModel {
    empty_object().set("kind"@, txt(kind)).set("detail"@, txt(detail))
}

pub fn kind_value(kind: &str, detail: &str) -> (r: Value)
    ensures
        r@ == kind_json(kind@, detail@),
{
    let mut o = Fields::new();
    o.set("kind", s(kind));
    o.set("detail", s(detail));
    o.done()
}

/// A refusal of the store, for the model to read. A conflict carries the
/// hashes to read again and retry.
pub open spec fn domain_json(e: StoreErrorModel) -> JsonModel {
    match e {
        StoreErrorModel::Conflict(c) => empty_object().set("kind"@, txt("revision_conflict"@)).set(
            "expected_hash"@,
            opt_hash_json(c.expected),
        ).set("current_hash"@, opt_hash_json(c.current)).set(
            "incoming_hash"@,
            txt(hex(c.incoming)),
        ).set(
            "hint"@,
            txt("relee el documento, re-aplica tu cambio sobre current_hash y reintenta"@),
        ),
        StoreErrorModel::Okf(x) => kind_json("invalid_okf_document"@, x.message()),
        StoreErrorModel::NotFound(id) => empty_object().set("kind"@, txt("not_found"@)).set(
            "concept_id"@,
            txt(id),
        ),
        StoreErrorModel::Backend(m) => kind_json("backend_error"@, m),
    }
}

/// A failed call.
pub open spec fn failed(v: JsonModel) -> ToolErrorModel {
    ToolErrorModel::Failed(json_text(v))
}

pub open spec fn domain(e: StoreErrorModel) -> ToolErrorModel {
    failed(domain_json(e))
}

pub fn domain_value(err: &StoreError) -> (r: Value)
    ensures
        r@ == domain_json(err@),
{
    match err {
        StoreError::Conflict(c) => {
            let mut o = Fields::new();
            o.set("kind", s("revision_conflict"));
            o.set("expected_hash", opt_hash(&c.expected));
            o.set("current_hash", opt_hash(&c.current));
            o.set("incoming_hash", s(c.incoming.to_hex().as_str()));
            o.set(
                "hint",
                s("relee el documento, re-aplica tu cambio sobre current_hash y reintenta"),
            );
            o.done()
        },
        StoreError::Okf(e) => kind_value("invalid_okf_document", e.message().as_str()),
        StoreError::NotFound(id) => {
            let mut o = Fields::new();
            o.set("kind", s("not_found"));
            o.set("concept_id", s(id.as_str()));
            o.done()
        },
        StoreError::Backend(m) => kind_value("backend_error", m.as_str()),
    }
}

pub fn fail_with(v: &Value) -> (r: ToolError)
    ensures
        r@ == failed(v@),
{
    ToolError::Failed(to_string(v))
}

pub fn domain_error(err: StoreError) -> (r: ToolError)
    ensures
        r@ == domain(err@),
{
    fail_with(&domain_value(&err))
}

pub fn not_found(id: &ConceptId) -> (r: ToolError)
    ensures
        r@ == domain(StoreErrorModel::NotFound(id@)),
{
    domain_error(StoreError::NotFound(id.clone()))
}

// ---------------------------------------------------------------------
// Documents
// ---------------------------------------------------------------------

/// The address of a concept.
pub open spec fn uri(id: Seq<char>) -> Seq<char> {
    "okf://"@ + id
}

pub fn uri_of(id: &ConceptId) -> (r: Value)
    ensures
        r@ == txt(uri(id@)),
{
    let mut u = "okf://".to_owned();
    u.push_str(id.as_str());
    s(u.as_str())
}

impl Shown for ConceptId {
    open spec fn json(m: Seq<char>) -> JsonModel {
        txt(m)
    }

    fn to_value(&self) -> (r: Value) {
        s(self.as_str())
    }
}

impl Shown for SearchHit {
    open spec fn json(m: HitModel) -> JsonModel {
        empty_object().set("concept_id"@, txt(m.concept_id)).set(
            "hash"@,
            txt(hex(m.content_id)),
        ).set("type"@, txt(m.doc_type)).set("title"@, opt_text(m.title)).set(
            "tags"@,
            texts(m.tags),
        ).set("uri"@, txt(uri(m.concept_id)))
    }

    fn to_value(&self) -> (r: Value) {
        let mut o = Fields::new();
        o.set("concept_id", s(self.concept_id.as_str()));
        o.set("hash", s(self.content_id.to_hex().as_str()));
        o.set("type", s(self.doc_type.as_str()));
        o.set("title", opt_s(&self.title));
        o.set("tags", strings(&self.tags));
        o.set("uri", uri_of(&self.concept_id));
        o.done()
    }
}

/// The hits of a search.
pub open spec fn hits_json(hits: Seq<HitModel>) -> JsonModel {
    empty_object().set("results"@, list_json::<SearchHit>(hits)).set("count"@, number(hits.len()))
}

pub fn hits_value(hits: &Vec<SearchHit>) -> (r: Value)
    ensures
        r@ == hits_json(views(hits@)),
{
    let mut o = Fields::new();
    o.set("results", all_values(hits));
    o.set("count", n(hits.len() as u64));
    o.done()
}

impl Shown for Backlink {
    open spec fn json(m: BacklinkModel) -> JsonModel {
        empty_object().set("source"@, SearchHit::json(m.source)).set("rel"@, opt_text(m.rel))
    }

    fn to_value(&self) -> (r: Value) {
        let mut o = Fields::new();
        o.set("source", self.source.to_value());
        o.set("rel", opt_s(&self.rel));
        o.done()
    }
}

pub open spec fn backlinks_json(l: Seq<BacklinkModel>) -> JsonModel {
    empty_object().set("backlinks"@, list_json::<Backlink>(l)).set("count"@, number(l.len()))
}

pub fn backlinks_value(l: &Vec<Backlink>) -> (r: Value)
    ensures
        r@ == backlinks_json(views(l@)),
{
    let mut o = Fields::new();
    o.set("backlinks", all_values(l));
    o.set("count", n(l.len() as u64));
    o.done()
}

pub open spec fn doc_json(d: DocViewModel) -> JsonModel {
    empty_object().set("concept_id"@, txt(d.concept_id)).set("hash"@, txt(hex(d.content_id))).set(
        "version"@,
        number(d.version),
    ).set("type"@, txt(d.doc_type)).set("title"@, opt_text(d.title)).set("tags"@, texts(d.tags)).set(
        "markdown"@,
        txt(d.raw),
    )
}

pub fn doc_value(d: &DocumentView) -> (r: Value)
    ensures
        r@ == doc_json(d@),
{
    let mut o = Fields::new();
    o.set("concept_id", s(d.concept_id.as_str()));
    o.set("hash", s(d.content_id.to_hex().as_str()));
    o.set("version", n(d.version));
    o.set("type", s(d.doc_type.as_str()));
    o.set("title", opt_s(&d.title));
    o.set("tags", strings(&d.tags));
    o.set("markdown", s(d.raw.as_str()));
    o.done()
}

// ---------------------------------------------------------------------
// Neighbourhoods
// ---------------------------------------------------------------------

impl Shown for Visited {
    open spec fn json(m: VisitedModel) -> JsonModel {
        empty_object().set("concept_id"@, txt(m.id)).set("depth"@, number(m.depth as nat)).set(
            "exists"@,
            flag(m.exists),
        ).set("uri"@, txt(uri(m.id))).set("parent"@, opt_text(m.parent))
    }

    fn to_value(&self) -> (r: Value) {
        let mut o = Fields::new();
        o.set("concept_id", s(self.id.as_str()));
        o.set("depth", n(self.depth as u64));
        o.set("exists", Value::Bool(self.exists));
        o.set("uri", uri_of(&self.id));
        let parent = match &self.parent {
            Some(p) => s(p.as_str()),
            None => Value::Null,
        };
        o.set("parent", parent);
        o.done()
    }
}

pub open spec fn cuts_json(t: TraversalModel) -> JsonModel {
    empty_object().set("by_nodes"@, flag(t.by_nodes)).set(
        "by_depth"@,
        flag(t.by_depth),
    ).set("by_bytes"@, flag(t.by_bytes))
}

/// Everything but the first.
pub open spec fn others<T>(l: Seq<T>) -> Seq<T> {
    if l.len() == 0 {
        l
    } else {
        l.skip(1)
    }
}

/// A document and its neighbourhood, without the document itself.
pub open spec fn resolve_json(d: DocViewModel, t: TraversalModel) -> JsonModel {
    empty_object().set("document"@, doc_json(d)).set(
        "neighborhood"@,
        list_json::<Visited>(others(t.visited)),
    ).set("truncated"@, cuts_json(t))
}

pub fn resolve_value(d: &DocumentView, t: &Traversal) -> (r: Value)
    ensures
        r@ == resolve_json(d@, t@),
{
    let mut cuts = Fields::new();
    cuts.set("by_nodes", Value::Bool(t.truncated_by_nodes));
    cuts.set("by_depth", Value::Bool(t.truncated_by_depth));
    cuts.set("by_bytes", Value::Bool(t.truncated_by_bytes));
    let mut o = Fields::new();
    o.set("document", doc_value(d));
    if t.visited.len() > 0 {
        o.set("neighborhood", list_value(&t.visited, 1));
    } else {
        o.set("neighborhood", all_values(&t.visited));
    }
    o.set("truncated", cuts.done());
    o.done()
}

// ---------------------------------------------------------------------
// Writes
// ---------------------------------------------------------------------

pub open spec fn seq_json(r: Option<RevisionModel>) -> JsonModel {
    match r {
        Some(x) => number(x.seq as nat),
        None => JsonModel::Null,
    }
}

/// What a write changed.
pub open spec fn outcome_json(id: Seq<char>, o: OutcomeModel) -> JsonModel {
    empty_object().set("concept_id"@, txt(id)).set("hash"@, txt(hex(o.content_id))).set(
        "version"@,
        number(o.version),
    ).set("created"@, flag(o.created)).set("no_change"@, flag(o.no_change)).set(
        "revision_seq"@,
        seq_json(o.revision),
    ).set("warnings"@, texts(o.warnings))
}

pub fn outcome_value(id: &ConceptId, out: &CommitOutcome) -> (r: Value)
    ensures
        r@ == outcome_json(id@, out@),
{
    let mut o = Fields::new();
    o.set("concept_id", s(id.as_str()));
    o.set("hash", s(out.content_id.to_hex().as_str()));
    o.set("version", n(out.version));
    o.set("created", Value::Bool(out.created));
    o.set("no_change", Value::Bool(out.no_change));
    let number = match &out.revision {
        Some(rev) => n(rev.seq),
        None => Value::Null,
    };
    o.set("revision_seq", number);
    o.set("warnings", strings(&out.warnings));
    o.done()
}

/// What a write would change.
pub open spec fn dry_json(
    id: Seq<char>,
    hash: Seq<u8>,
    version: nat,
    created: bool,
    no_change: bool,
) -> JsonModel {
    empty_object().set("concept_id"@, txt(id)).set("hash"@, txt(hex(hash))).set(
        "version"@,
        number(version),
    ).set("created"@, flag(created)).set("no_change"@, flag(no_change)).set(
        "revision_seq"@,
        JsonModel::Null,
    ).set("dry_run"@, flag(true)).set("warnings"@, JsonModel::Array(Seq::empty()))
}

pub fn dry_value(id: &ConceptId, hash: &ContentId, version: u64, created: bool, no_change: bool) -> (r:
    Value)
    ensures
        r@ == dry_json(id@, hash@, version as nat, created, no_change),
{
    let mut o = Fields::new();
    o.set("concept_id", s(id.as_str()));
    o.set("hash", s(hash.to_hex().as_str()));
    o.set("version", n(version));
    o.set("created", Value::Bool(created));
    o.set("no_change", Value::Bool(no_change));
    o.set("revision_seq", Value::Null);
    o.set("dry_run", Value::Bool(true));
    let none: Vec<Value> = Vec::new();
    assert(views(none@) =~= Seq::empty());
    o.set("warnings", arr(none));
    o.done()
}

pub open spec fn delete_json(id: Seq<char>, d: DeleteModel) -> JsonModel {
    empty_object().set("concept_id"@, txt(id)).set("hash"@, txt(hex(d.content_id))).set(
        "version"@,
        number(d.version),
    ).set("revision_seq"@, number(d.revision.seq as nat)).set("warnings"@, texts(d.warnings))
}

pub fn delete_value(id: &ConceptId, d: &DeleteOutcome) -> (r: Value)
    ensures
        r@ == delete_json(id@, d@),
{
    let mut o = Fields::new();
    o.set("concept_id", s(id.as_str()));
    o.set("hash", s(d.content_id.to_hex().as_str()));
    o.set("version", n(d.version));
    o.set("revision_seq", n(d.revision.seq));
    o.set("warnings", strings(&d.warnings));
    o.done()
}

/// Why one document of a batch was refused.
pub open spec fn item_error_json(e: StoreErrorModel) -> JsonModel {
    match e {
        StoreErrorModel::Conflict(c) => empty_object().set("kind"@, txt("revision_conflict"@)).set(
            "expected_hash"@,
            opt_hash_json(c.expected),
        ).set("current_hash"@, opt_hash_json(c.current)),
        _ => kind_json("error"@, e.message()),
    }
}

pub fn item_error_value(e: &StoreError) -> (r: Value)
    ensures
        r@ == item_error_json(e@),
{
    match e {
        StoreError::Conflict(c) => {
            let mut o = Fields::new();
            o.set("kind", s("revision_conflict"));
            o.set("expected_hash", opt_hash(&c.expected));
            o.set("current_hash", opt_hash(&c.current));
            o.done()
        },
        _ => kind_value("error", e.message().as_str()),
    }
}

pub open spec fn failed_item(error: JsonModel) -> JsonModel {
    empty_object().set("status"@, txt("failed"@)).set("error"@, error)
}

pub fn failed_item_value(error: Value) -> (r: Value)
    ensures
        r@ == failed_item(error@),
{
    let mut o = Fields::new();
    o.set("status", s("failed"));
    o.set("error", error);
    o.done()
}

pub open spec fn skipped_item() -> JsonModel {
    empty_object().set("status"@, txt("skipped"@))
}

pub fn skipped_item_value() -> (r: Value)
    ensures
        r@ == skipped_item(),
{
    let mut o = Fields::new();
    o.set("status", s("skipped"));
    o.done()
}

impl Shown for BulkItem {
    open spec fn json(m: BulkItemModel) -> JsonModel {
        match m {
            BulkItemModel::Done(x) => empty_object().set("status"@, txt("done"@)).set(
                "hash"@,
                txt(hex(x.content_id)),
            ).set("version"@, number(x.version)).set("created"@, flag(x.created)).set(
                "no_change"@,
                flag(x.no_change),
            ).set("warnings"@, texts(x.warnings)),
            BulkItemModel::Failed(e) => failed_item(item_error_json(e)),
            BulkItemModel::Skipped => skipped_item(),
        }
    }

    fn to_value(&self) -> (r: Value) {
        match self {
            BulkItem::Done(x) => {
                let mut o = Fields::new();
                o.set("status", s("done"));
                o.set("hash", s(x.content_id.to_hex().as_str()));
                o.set("version", n(x.version));
                o.set("created", Value::Bool(x.created));
                o.set("no_change", Value::Bool(x.no_change));
                o.set("warnings", strings(&x.warnings));
                o.done()
            },
            BulkItem::Failed(e) => failed_item_value(item_error_value(e)),
            BulkItem::Skipped => skipped_item_value(),
        }
    }
}

/// What became of a batch.
pub open spec fn batch_json(applied: bool, items: JsonModel) -> JsonModel {
    empty_object().set("applied"@, flag(applied)).set("items"@, items)
}

pub fn batch_value(applied: bool, items: Value) -> (r: Value)
    ensures
        r@ == batch_json(applied, items@),
{
    let mut o = Fields::new();
    o.set("applied", Value::Bool(applied));
    o.set("items", items);
    o.done()
}

/// Something left out, and why.
pub open spec fn skip_json(item: Seq<char>, reason: Seq<char>) -> JsonModel {
    empty_object().set("item"@, txt(item)).set("reason"@, txt(reason))
}

pub fn skip_value(item: &str, reason: &str) -> (r: Value)
    ensures
        r@ == skip_json(item@, reason@),
{
    let mut o = Fields::new();
    o.set("item", s(item));
    o.set("reason", s(reason));
    o.done()
}

// ---------------------------------------------------------------------
// History, maintenance and facts
// ---------------------------------------------------------------------

impl Shown for Revision {
    open spec fn json(m: RevisionModel) -> JsonModel {
        empty_object().set("seq"@, number(m.seq as nat)).set("base_hash"@, opt_hash_json(m.base)).set(
            "result_hash"@,
            txt(hex(m.result)),
        ).set("actor"@, txt(m.actor.subject)).set("client_id"@, txt(m.actor.client_id)).set(
            "reason"@,
            txt(m.reason),
        )
    }

    fn to_value(&self) -> (r: Value) {
        let mut o = Fields::new();
        o.set("seq", n(self.seq));
        o.set("base_hash", opt_hash(&self.base));
        o.set("result_hash", s(self.result.to_hex().as_str()));
        o.set("actor", s(self.actor.subject.as_str()));
        o.set("client_id", s(self.actor.client_id.as_str()));
        o.set("reason", s(self.reason.as_str()));
        o.done()
    }
}

pub open spec fn history_json(id: Seq<char>, l: Seq<RevisionModel>) -> JsonModel {
    empty_object().set("concept_id"@, txt(id)).set("revisions"@, list_json::<Revision>(l))
}

pub fn history_value(id: &ConceptId, l: &Vec<Revision>) -> (r: Value)
    ensures
        r@ == history_json(id@, views(l@)),
{
    let mut o = Fields::new();
    o.set("concept_id", s(id.as_str()));
    o.set("revisions", all_values(l));
    o.done()
}

impl Shown for (ConceptId, ConceptId) {
    open spec fn json(m: (Seq<char>, Seq<char>)) -> JsonModel {
        empty_object().set("source"@, txt(m.0)).set("target"@, txt(m.1))
    }

    fn to_value(&self) -> (r: Value) {
        let mut o = Fields::new();
        o.set("source", s(self.0.as_str()));
        o.set("target", s(self.1.as_str()));
        o.done()
    }
}

pub open spec fn report_json(m: ReportModel) -> JsonModel {
    empty_object().set(
        "broken_links"@,
        list_json::<(ConceptId, ConceptId)>(m.broken_links),
    ).set("broken_links_total"@, number(m.broken_links_total as nat)).set(
        "deleted_referenced"@,
        list_json::<(ConceptId, ConceptId)>(m.deleted_referenced),
    ).set("deleted_referenced_total"@, number(m.deleted_referenced_total as nat)).set(
        "missing_embeddings"@,
        list_json::<ConceptId>(m.missing_embeddings),
    ).set("missing_embeddings_total"@, number(m.missing_embeddings_total as nat))
}

pub fn report_value(m: &ValidationReport) -> (r: Value)
    ensures
        r@ == report_json(m@),
{
    let mut o = Fields::new();
    o.set("broken_links", all_values(&m.broken_links));
    o.set("broken_links_total", n(m.broken_links_total as u64));
    o.set("deleted_referenced", all_values(&m.deleted_referenced));
    o.set("deleted_referenced_total", n(m.deleted_referenced_total as u64));
    o.set("missing_embeddings", all_values(&m.missing_embeddings));
    o.set("missing_embeddings_total", n(m.missing_embeddings_total as u64));
    o.done()
}

pub open spec fn status_json(m: StoreStatus) -> JsonModel {
    empty_object().set("documents"@, number(m.documents as nat)).set(
        "deleted_documents"@,
        number(m.deleted_documents as nat),
    ).set("missing_embeddings"@, number(m.missing_embeddings as nat)).set(
        "broken_links"@,
        number(m.broken_links as nat),
    ).set("deleted_referenced"@, number(m.deleted_referenced as nat)).set(
        "outbox_pending"@,
        number(m.outbox_pending as nat),
    ).set("outbox_failed"@, number(m.outbox_failed as nat))
}

pub fn status_value(m: &StoreStatus) -> (r: Value)
    ensures
        r@ == status_json(*m),
{
    let mut o = Fields::new();
    o.set("documents", n(m.documents as u64));
    o.set("deleted_documents", n(m.deleted_documents as u64));
    o.set("missing_embeddings", n(m.missing_embeddings as u64));
    o.set("broken_links", n(m.broken_links as u64));
    o.set("deleted_referenced", n(m.deleted_referenced as u64));
    o.set("outbox_pending", n(m.outbox_pending as u64));
    o.set("outbox_failed", n(m.outbox_failed as u64));
    o.done()
}

/// Names with counts, under the names of their two fields.
pub open spec fn counts_json(l: Seq<(Seq<char>, usize)>, key: Seq<char>, count: Seq<char>) -> JsonModel {
    JsonModel::Array(
        Seq::new(
            l.len(),
            |i: int| empty_object().set(key, txt(l[i].0)).set(count, number(l[i].1 as nat)),
        ),
    )
}

fn count_value(name: &str, count: usize, key: &str, count_key: &str) -> (r: Value)
    ensures
        r@ == empty_object().set(key@, txt(name@)).set(count_key@, number(count as nat)),
{
    let mut o = Fields::new();
    o.set(key, s(name));
    o.set(count_key, n(count as u64));
    o.done()
}

fn counts_value(l: &Vec<(String, usize)>, key: &str, count: &str) -> (r: Value)
    ensures
        r@ == counts_json(views(l@), key@, count@),
{
    let ghost all = views(l@);
    let mut out: Vec<Value> = Vec::new();
    let mut i: usize = 0;
    while i < l.len()
        invariant
            i <= l.len(),
            all == views(l@),
            out@.len() == i,
            forall|k: int|
                0 <= k < i ==> (#[trigger] out@[k])@ == empty_object().set(key@, txt(all[k].0)).set(
                    count@,
                    number(all[k].1 as nat),
                ),
        decreases l.len() - i,
    {
        assert(all[i as int] == l@[i as int]@);
        out.push(count_value(l[i].0.as_str(), l[i].1, key, count));
        i += 1;
    }
    assert(views(out@) =~= counts_json(all, key@, count@)->Array_0);
    arr(out)
}

fn ranked_value(l: &Vec<(ConceptId, usize)>, key: &str, count: &str) -> (r: Value)
    ensures
        r@ == counts_json(views(l@), key@, count@),
{
    let ghost all = views(l@);
    let mut out: Vec<Value> = Vec::new();
    let mut i: usize = 0;
    while i < l.len()
        invariant
            i <= l.len(),
            all == views(l@),
            out@.len() == i,
            forall|k: int|
                0 <= k < i ==> (#[trigger] out@[k])@ == empty_object().set(key@, txt(all[k].0)).set(
                    count@,
                    number(all[k].1 as nat),
                ),
        decreases l.len() - i,
    {
        assert(all[i as int] == l@[i as int]@);
        out.push(count_value(l[i].0.as_str(), l[i].1, key, count));
        i += 1;
    }
    assert(views(out@) =~= counts_json(all, key@, count@)->Array_0);
    arr(out)
}

pub open spec fn stats_json(m: StatsModel) -> JsonModel {
    empty_object().set("documents"@, number(m.documents)).set(
        "deleted_documents"@,
        number(m.deleted_documents),
    ).set("by_type"@, counts_json(m.by_type, "type"@, "count"@)).set(
        "by_tag"@,
        counts_json(m.by_tag, "tag"@, "count"@),
    ).set("top_linked"@, counts_json(m.top_linked, "concept_id"@, "incoming_links"@)).set(
        "orphans"@,
        list_json::<ConceptId>(m.orphans),
    )
}

pub fn stats_value(m: &GraphStats) -> (r: Value)
    ensures
        r@ == stats_json(m@),
{
    let mut o = Fields::new();
    o.set("documents", n(m.documents as u64));
    o.set("deleted_documents", n(m.deleted_documents as u64));
    o.set("by_type", counts_value(&m.by_type, "type", "count"));
    o.set("by_tag", counts_value(&m.by_tag, "tag", "count"));
    o.set("top_linked", ranked_value(&m.top_linked, "concept_id", "incoming_links"));
    o.set("orphans", all_values(&m.orphans));
    o.done()
}

impl Shown for (ConceptId, String) {
    open spec fn json(m: (Seq<char>, Seq<char>)) -> JsonModel {
        empty_object().set("concept_id"@, txt(m.0)).set("error"@, txt(m.1))
    }

    fn to_value(&self) -> (r: Value) {
        let mut o = Fields::new();
        o.set("concept_id", s(self.0.as_str()));
        o.set("error", s(self.1.as_str()));
        o.done()
    }
}

pub open spec fn embed_json(m: EmbedModel) -> JsonModel {
    empty_object().set("embedded"@, list_json::<ConceptId>(m.embedded)).set(
        "failed"@,
        list_json::<(ConceptId, String)>(m.failed),
    ).set("remaining"@, number(m.remaining as nat))
}

pub fn embed_value(m: &EmbedOutcome) -> (r: Value)
    ensures
        r@ == embed_json(m@),
{
    let mut o = Fields::new();
    o.set("embedded", all_values(&m.embedded));
    o.set("failed", all_values(&m.failed));
    o.set("remaining", n(m.remaining as u64));
    o.done()
}

pub open spec fn object_json(m: ObjectModel) -> JsonModel {
    match m {
        ObjectModel::Concept(id) => empty_object().set("kind"@, txt("concept"@)).set(
            "value"@,
            txt(id),
        ),
        ObjectModel::Literal(t) => empty_object().set("kind"@, txt("literal"@)).set(
            "value"@,
            txt(t),
        ),
    }
}

pub fn object_to_json(object: &Object) -> (r: Value)
    ensures
        r@ == object_json(object@),
{
    let mut o = Fields::new();
    match object {
        Object::Concept(id) => {
            o.set("kind", s("concept"));
            o.set("value", s(id.as_str()));
        },
        Object::Literal(t) => {
            o.set("kind", s("literal"));
            o.set("value", s(t.as_str()));
        },
    }
    o.done()
}

/// A fact, and whether it was derived.
pub open spec fn triple_json(m: TripleModel, derived: bool) -> JsonModel {
    empty_object().set("subject"@, txt(m.subject)).set("predicate"@, txt(m.predicate)).set(
        "object"@,
        object_json(m.object),
    ).set("derived"@, flag(derived))
}

pub fn triple_to_json(triple: &Triple, derived: bool) -> (r: Value)
    ensures
        r@ == triple_json(triple@, derived),
{
    let mut o = Fields::new();
    o.set("subject", s(triple.subject.as_str()));
    o.set("predicate", s(triple.predicate.as_str()));
    o.set("object", object_to_json(&triple.object));
    o.set("derived", Value::Bool(derived));
    o.done()
}

} // verus!

//! A store in memory: immutable contents, moving heads, one history.

use vstd::prelude::*;
use crate::conflict::{decide, decision, CommitDecision, Conflict, ConflictModel, DecisionModel};
use crate::graph::NeighborSource;
use crate::model::{
    hex, Budget, ConceptId, ContentId, Principal, PrincipalModel, Revision, RevisionModel,
};
use crate::okf::{clone_links, parse_document, parsed, Link, LinkModel};
use crate::ontology::{Triple, Triples};
use crate::repo::{
    list_answer, Answer, HeadHintSource, HintedRepository, MemoryRepository, TripleStore,
};
use crate::sha256::{content_hash, content_id};
use crate::store::{
    hit_of, into_hit, matches_prefix, under, Backlink, BacklinkModel, BulkItem, BulkItemModel,
    BulkModel, BulkOutcome, CommitOutcome, CommitRequest, DeleteModel, DeleteOutcome, DocHint,
    DocViewModel, DocumentView, HintModel, HitModel, OutcomeModel, QueryModel, RequestModel,
    SearchHit, SearchQuery, StoreError, StoreErrorModel,
};
use crate::table::{
    ascending, del, lemma_del_ascending, lemma_lookup_del, lemma_lookup_entry, lemma_lookup_put,
    lemma_put_ascending, lemma_put_entries, lookup, present, put, Dup, Table,
};
use crate::text::{
    chars_of, has_string, holds, holds_of, lemma_views_push, lowercase, lowercase_of, opt_view,
    res_view, str_eq, utf8_len, views,
};

verus! {

// ---------------------------------------------------------------------
// State
// ---------------------------------------------------------------------

/// The head of a document.
#[derive(Debug, PartialEq, Eq)]
pub struct Head {
    pub id: ConceptId,
    /// The content it points to.
    pub content_id: ContentId,
    /// How many times it moved; one when just created.
    pub version: u64,
    /// Buried: invisible, but its history and version live on.
    pub deleted: bool,
}

/// Mathematical counterpart of [`Head`].
pub struct HeadModel {
    pub id: Seq<char>,
    pub content_id: Seq<u8>,
    pub version: nat,
    pub deleted: bool,
}

impl View for Head {
    type V = HeadModel;

    open spec fn view(&self) -> HeadModel {
        HeadModel {
            id: self.id@,
            content_id: self.content_id@,
            version: self.version as nat,
            deleted: self.deleted,
        }
    }
}

impl Dup for Head {
    fn dup(&self) -> (r: Head) {
        Head {
            id: self.id.clone(),
            content_id: self.content_id,
            version: self.version,
            deleted: self.deleted,
        }
    }
}

/// The links of one document.
#[derive(Debug, PartialEq, Eq)]
pub(crate) struct LinkList {
    pub(crate) links: Vec<Link>,
}

impl View for LinkList {
    type V = Seq<LinkModel>;

    open(crate) spec fn view(&self) -> Seq<LinkModel> {
        views(self.links@)
    }
}

impl Dup for LinkList {
    fn dup(&self) -> (r: LinkList) {
        LinkList { links: clone_links(&self.links) }
    }
}

/// The facts of one subject.
#[derive(Debug, PartialEq, Eq)]
pub(crate) struct FactList {
    pub(crate) facts: Vec<Triple>,
}

impl View for FactList {
    type V = Triples;

    open(crate) spec fn view(&self) -> Triples {
        views(self.facts@)
    }
}

impl Dup for FactList {
    fn dup(&self) -> (r: FactList) {
        FactList { facts: crate::ontology::clone_triples(&self.facts) }
    }
}

/// The state of a store, as mathematics. Tables are in ascending key order.
pub struct StoreModel {
    /// Contents by their hash in hexadecimal.
    pub blobs: Seq<(Seq<char>, Seq<char>)>,
    pub heads: Seq<(Seq<char>, HeadModel)>,
    /// Every revision, in order; the first has number one.
    pub revisions: Seq<RevisionModel>,
    /// The links of live documents.
    pub links: Seq<(Seq<char>, Seq<LinkModel>)>,
    pub triples: Seq<(Seq<char>, Triples)>,
    /// Last number reserved.
    pub reserved: u64,
}

pub(crate) struct Core {
    pub(crate) blobs: Table<String>,
    pub(crate) heads: Table<Head>,
    pub(crate) revisions: Vec<Revision>,
    pub(crate) links: Table<LinkList>,
    pub(crate) triples: Table<FactList>,
    pub(crate) reserved: u64,
}

impl View for Core {
    type V = StoreModel;

    open(crate) spec fn view(&self) -> StoreModel {
        StoreModel {
            blobs: self.blobs@,
            heads: self.heads@,
            revisions: views(self.revisions@),
            links: self.links@,
            triples: self.triples@,
            reserved: self.reserved,
        }
    }
}

pub open spec fn live(s: StoreModel, id: Seq<char>) -> Option<HeadModel> {
    match lookup(s.heads, id) {
        Some(h) => if h.deleted {
            None
        } else {
            Some(h)
        },
        None => None,
    }
}

/// What holds of every state of a store.
pub open spec fn store_ok(s: StoreModel) -> bool {
    &&& ascending(s.blobs)
    &&& ascending(s.heads)
    &&& ascending(s.links)
    &&& ascending(s.triples)
    // A head carries its id, its content is kept, and it moved at most once
    // per revision.
    &&& forall|i: int|
        0 <= i < s.heads.len() ==> ({
            let h = (#[trigger] s.heads[i]).1;
            &&& h.id == s.heads[i].0
            &&& present(s.blobs, hex(h.content_id))
            &&& h.version <= s.revisions.len()
        })
    // Contents are kept under their hashes.
    &&& forall|i: int|
        0 <= i < s.blobs.len() ==> (#[trigger] s.blobs[i]).0 == hex(content_hash(s.blobs[i].1))
    // Revisions are numbered from one without gaps.
    &&& forall|i: int|
        0 <= i < s.revisions.len() ==> (#[trigger] s.revisions[i]).seq == i + 1
    // Exactly the live documents have links on record.
    &&& forall|id: Seq<char>| #[trigger] present(s.links, id) <==> live(s, id) is Some
}

pub open spec fn empty_store() -> StoreModel {
    StoreModel {
        blobs: Seq::empty(),
        heads: Seq::empty(),
        revisions: Seq::empty(),
        links: Seq::empty(),
        triples: Seq::empty(),
        reserved: 0,
    }
}

/// A store in memory.
pub struct InMemoryStore {
    data: Core,
}

impl View for InMemoryStore {
    type V = StoreModel;

    closed spec fn view(&self) -> StoreModel {
        self.data@
    }
}

// ---------------------------------------------------------------------
// Reading
// ---------------------------------------------------------------------

/// The document that a head serves, analysed under a budget.
pub open spec fn served(s: StoreModel, h: HeadModel, b: Budget) -> Answer<DocViewModel> {
    match lookup(s.blobs, hex(h.content_id)) {
        None => Err(StoreErrorModel::Backend("blob perdido para "@ + h.id)),
        Some(raw) => match parsed(raw, b) {
            Err(e) => Err(StoreErrorModel::Okf(e)),
            Ok(d) => Ok(
                DocViewModel {
                    concept_id: h.id,
                    content_id: h.content_id,
                    version: h.version,
                    raw,
                    doc_type: d.doc_type,
                    title: d.title,
                    tags: d.tags,
                    links: d.links,
                },
            ),
        },
    }
}

/// The limits under which single documents are read.
pub open spec fn default_budget() -> Budget {
    Budget {
        max_request_bytes: 1048576,
        max_response_bytes: 2097152,
        max_document_bytes: 262144,
        max_frontmatter_bytes: 16384,
        max_graph_nodes: 128,
        max_graph_depth: 4,
        max_links_per_document: 512,
        max_search_results: 50,
        max_bulk_commits: 50,
    }
}

/// The live document `id`.
pub open spec fn got(s: StoreModel, id: Seq<char>) -> Answer<Option<DocViewModel>> {
    match live(s, id) {
        None => Ok(None),
        Some(h) => match served(s, h, default_budget()) {
            Err(e) => Err(e),
            Ok(d) => Ok(Some(d)),
        },
    }
}

/// Some tag, in lower case, holds `needle`.
pub open spec fn tag_holds(tags: Seq<Seq<char>>, needle: Seq<char>) -> bool {
    exists|i: int| 0 <= i < tags.len() && holds(lowercase(#[trigger] tags[i]), needle)
}

/// The text sought stands in the id, the title, a tag or the document, without
/// regard to case.
pub open spec fn mentions(
    id: Seq<char>,
    title: Option<Seq<char>>,
    tags: Seq<Seq<char>>,
    raw: Seq<char>,
    text: Seq<char>,
) -> bool {
    let needle = lowercase(text);
    ||| holds(id, needle)
    ||| (title is Some && holds(lowercase(title->0), needle))
    ||| tag_holds(tags, needle)
    ||| holds(lowercase(raw), needle)
}

/// The document passes the filters on its contents.
pub open spec fn passes(d: DocViewModel, q: QueryModel) -> bool {
    &&& (q.doc_type is Some ==> d.doc_type == q.doc_type->0)
    &&& (q.exclude_type is Some ==> d.doc_type != q.exclude_type->0)
    &&& (q.tag is Some ==> d.tags.contains(q.tag->0))
    &&& (q.text is Some ==> mentions(d.concept_id, d.title, d.tags, d.raw, q.text->0))
}

/// How many results a search may give.
pub open spec fn search_limit(q: QueryModel, b: Budget) -> usize {
    match q.limit {
        Some(n) => if n < b.max_search_results {
            n
        } else {
            b.max_search_results
        },
        None => b.max_search_results,
    }
}

/// Whether a head is live and under the path sought.
pub open spec fn in_scope(h: HeadModel, prefix: Option<Seq<char>>) -> bool {
    !h.deleted && (prefix is Some ==> under(h.id, prefix->0))
}

/// The hits among the heads from index `i` on, after those already found.
pub open spec fn found_from(
    s: StoreModel,
    q: QueryModel,
    b: Budget,
    i: int,
    hits: Seq<HitModel>,
) -> Answer<Seq<HitModel>>
    decreases s.heads.len() - i,
{
    if i < 0 || i >= s.heads.len() || hits.len() >= search_limit(q, b) {
        Ok(hits)
    } else if !in_scope(s.heads[i].1, q.path_prefix) {
        found_from(s, q, b, i + 1, hits)
    } else {
        match served(s, s.heads[i].1, b) {
            Err(e) => Err(e),
            Ok(d) => if passes(d, q) {
                found_from(s, q, b, i + 1, hits.push(hit_of(d)))
            } else {
                found_from(s, q, b, i + 1, hits)
            },
        }
    }
}

/// The hits of a query, by id.
pub open spec fn found(s: StoreModel, q: QueryModel, b: Budget) -> Answer<Seq<HitModel>> {
    found_from(s, q, b, 0, Seq::empty())
}

/// Up to `limit` of the first `n` revisions that are about `id` and older than
/// `cut`, latest first.
pub open spec fn page(
    revs: Seq<RevisionModel>,
    n: int,
    id: Seq<char>,
    cut: u64,
    limit: nat,
) -> Seq<RevisionModel>
    decreases n,
{
    if n <= 0 || limit == 0 {
        Seq::empty()
    } else if revs[n - 1].concept_id == id && revs[n - 1].seq < cut {
        seq![revs[n - 1]] + page(revs, n - 1, id, cut, (limit - 1) as nat)
    } else {
        page(revs, n - 1, id, cut, limit)
    }
}

pub open spec fn has_revision(revs: Seq<RevisionModel>, id: Seq<char>) -> bool {
    exists|i: int| 0 <= i < revs.len() && (#[trigger] revs[i]).concept_id == id
}

/// A page of the history of `id`.
pub open spec fn recalled(
    s: StoreModel,
    id: Seq<char>,
    limit: usize,
    before_seq: Option<u64>,
) -> Answer<Seq<RevisionModel>> {
    if !present(s.heads, id) && !has_revision(s.revisions, id) {
        Err(StoreErrorModel::NotFound(id))
    } else {
        let cut = match before_seq {
            Some(c) => c,
            None => u64::MAX,
        };
        Ok(page(s.revisions, s.revisions.len() as int, id, cut, limit as nat))
    }
}

/// The first link, from index `i` on, that leads to `target`.
pub open spec fn link_to(links: Seq<LinkModel>, i: int, target: Seq<char>) -> Option<LinkModel>
    decreases links.len() - i,
{
    if i < 0 || i >= links.len() {
        None
    } else if links[i].target == target {
        Some(links[i])
    } else {
        link_to(links, i + 1, target)
    }
}

/// The documents, from entry `i` of the links on, that lead to `id`.
pub open spec fn back_from(
    s: StoreModel,
    id: Seq<char>,
    i: int,
    out: Seq<BacklinkModel>,
) -> Answer<Seq<BacklinkModel>>
    decreases s.links.len() - i,
{
    if i < 0 || i >= s.links.len() {
        Ok(out)
    } else {
        match (live(s, s.links[i].0), link_to(s.links[i].1, 0, id)) {
            (Some(h), Some(l)) => match served(s, h, default_budget()) {
                Err(e) => Err(e),
                Ok(d) => back_from(
                    s,
                    id,
                    i + 1,
                    out.push(BacklinkModel { source: hit_of(d), rel: l.rel }),
                ),
            },
            _ => back_from(s, id, i + 1, out),
        }
    }
}

// ---------------------------------------------------------------------
// Writing
// ---------------------------------------------------------------------

pub open spec fn unchanged(h: HeadModel) -> OutcomeModel {
    OutcomeModel {
        revision: None,
        content_id: h.content_id,
        version: h.version,
        created: false,
        no_change: true,
        warnings: Seq::empty(),
    }
}

/// The hash of a head, if there is one.
pub open spec fn hash_of(h: Option<HeadModel>) -> Option<Seq<u8>> {
    match h {
        Some(h) => Some(h.content_id),
        None => None,
    }
}

/// What a commit does and answers. The document is judged before the head.
pub open spec fn committed(
    s: StoreModel,
    req: RequestModel,
    actor: PrincipalModel,
    b: Budget,
) -> (StoreModel, Answer<OutcomeModel>) {
    match parsed(req.markdown, b) {
        Err(e) => (s, Err(StoreErrorModel::Okf(e))),
        Ok(doc) => {
            let incoming = content_hash(req.markdown);
            let head = live(s, req.concept_id);
            match decision(hash_of(head), req.expected, incoming) {
                DecisionModel::Conflict(c) => (s, Err(StoreErrorModel::Conflict(c))),
                DecisionModel::NoChange => (s, Ok(unchanged(head->0))),
                verdict => {
                    let version = match lookup(s.heads, req.concept_id) {
                        Some(h) => h.version + 1,
                        None => 1,
                    };
                    let revision = RevisionModel {
                        seq: s.revisions.len() + 1,
                        concept_id: req.concept_id,
                        base: hash_of(head),
                        result: incoming,
                        actor,
                        reason: req.reason,
                    };
                    let next = StoreModel {
                        blobs: if present(s.blobs, hex(incoming)) {
                            s.blobs
                        } else {
                            put(s.blobs, hex(incoming), req.markdown)
                        },
                        heads: put(
                            s.heads,
                            req.concept_id,
                            HeadModel {
                                id: req.concept_id,
                                content_id: incoming,
                                version,
                                deleted: false,
                            },
                        ),
                        revisions: s.revisions.push(revision),
                        links: put(s.links, req.concept_id, doc.links),
                        ..s
                    };
                    (
                        next,
                        Ok(
                            OutcomeModel {
                                revision: Some(revision),
                                content_id: incoming,
                                version,
                                created: verdict is Create,
                                no_change: false,
                                warnings: Seq::empty(),
                            },
                        ),
                    )
                },
            }
        },
    }
}

/// What a deletion does and answers.
pub open spec fn buried(
    s: StoreModel,
    id: Seq<char>,
    expected: Seq<u8>,
    actor: PrincipalModel,
    reason: Seq<char>,
) -> (StoreModel, Answer<DeleteModel>) {
    match live(s, id) {
        None => (s, Err(StoreErrorModel::NotFound(id))),
        Some(h) => if h.content_id != expected {
            (
                s,
                Err(
                    StoreErrorModel::Conflict(
                        ConflictModel {
                            expected: Some(expected),
                            current: Some(h.content_id),
                            incoming: expected,
                        },
                    ),
                ),
            )
        } else {
            let revision = RevisionModel {
                seq: s.revisions.len() + 1,
                concept_id: id,
                base: Some(h.content_id),
                result: h.content_id,
                actor,
                reason,
            };
            (
                StoreModel {
                    heads: put(s.heads, id, HeadModel { deleted: true, ..h }),
                    links: del(s.links, id),
                    revisions: s.revisions.push(revision),
                    ..s
                },
                Ok(
                    DeleteModel {
                        content_id: h.content_id,
                        version: h.version,
                        revision,
                        warnings: Seq::empty(),
                    },
                ),
            )
        },
    }
}

pub open spec fn item_of(r: Answer<OutcomeModel>) -> BulkItemModel {
    match r {
        Ok(o) => BulkItemModel::Done(o),
        Err(e) => BulkItemModel::Failed(e),
    }
}

/// The first `n` requests, each for itself.
pub open spec fn each(
    s: StoreModel,
    reqs: Seq<RequestModel>,
    n: int,
    actor: PrincipalModel,
    b: Budget,
) -> (StoreModel, Seq<BulkItemModel>)
    decreases n,
{
    if n <= 0 {
        (s, Seq::empty())
    } else {
        let (t, items) = each(s, reqs, n - 1, actor, b);
        let (u, r) = committed(t, reqs[n - 1], actor, b);
        (u, items.push(item_of(r)))
    }
}

/// The first of the first `n` requests, applied in order, that fails.
pub open spec fn first_failure(
    s: StoreModel,
    reqs: Seq<RequestModel>,
    n: int,
    actor: PrincipalModel,
    b: Budget,
) -> Option<int>
    decreases n,
{
    if n <= 0 {
        None
    } else {
        match first_failure(s, reqs, n - 1, actor, b) {
            Some(k) => Some(k),
            None => match each(s, reqs, n, actor, b).1.last() {
                BulkItemModel::Failed(_) => Some(n - 1),
                _ => None,
            },
        }
    }
}

/// What a batch does and answers. An atomic batch with a failure changes
/// nothing, and only the culprit is reported as failed.
pub open spec fn batched(
    s: StoreModel,
    reqs: Seq<RequestModel>,
    atomic: bool,
    actor: PrincipalModel,
    b: Budget,
) -> (StoreModel, Answer<BulkModel>) {
    let n = reqs.len() as int;
    let (t, items) = each(s, reqs, n, actor, b);
    if !atomic {
        (t, Ok(BulkModel { applied: true, items }))
    } else {
        match first_failure(s, reqs, n, actor, b) {
            None => (t, Ok(BulkModel { applied: true, items })),
            Some(k) => (
                s,
                Ok(
                    BulkModel {
                        applied: false,
                        items: Seq::new(
                            reqs.len(),
                            |i: int|
                                if i == k {
                                    items[k]
                                } else {
                                    BulkItemModel::Skipped
                                },
                        ),
                    },
                ),
            ),
        }
    }
}

// ---------------------------------------------------------------------
// What every operation keeps
// ---------------------------------------------------------------------

pub proof fn lemma_head_ok(s: StoreModel, id: Seq<char>)
    requires
        store_ok(s),
        lookup(s.heads, id) is Some,
    ensures
        ({
            let h = lookup(s.heads, id)->0;
            &&& h.id == id
            &&& present(s.blobs, hex(h.content_id))
            &&& h.version <= s.revisions.len()
        }),
{
    lemma_lookup_entry(s.heads, id);
    let j = choose|j: int|
        0 <= j < s.heads.len() && s.heads[j] == (id, lookup(s.heads, id)->0);
    assert(s.heads[j].1.id == s.heads[j].0);
}

/// A commit keeps a store sound.
pub proof fn law_commit_keeps_the_store_sound(
    s: StoreModel,
    req: RequestModel,
    actor: PrincipalModel,
    b: Budget,
)
    requires
        store_ok(s),
    ensures
        store_ok(committed(s, req, actor, b).0),
{
    let t = committed(s, req, actor, b).0;
    if t != s {
        let id = req.concept_id;
        let incoming = content_hash(req.markdown);
        let h = lookup(t.heads, id);
        lemma_put_ascending(s.blobs, hex(incoming), req.markdown);
        let version: nat = match lookup(s.heads, id) {
            Some(h) => h.version + 1,
            None => 1,
        };
        let new_head = HeadModel { id, content_id: incoming, version, deleted: false };
        lemma_put_ascending(s.heads, id, new_head);
        let doc = parsed(req.markdown, b)->Ok_0;
        lemma_put_ascending(s.links, id, doc.links);
        if present(s.heads, id) {
            lemma_head_ok(s, id);
        }
        lemma_lookup_put(s.blobs, hex(incoming), req.markdown, hex(incoming));
        assert(present(t.blobs, hex(incoming)));
        assert forall|i: int| 0 <= i < t.heads.len() implies ({
            let h = (#[trigger] t.heads[i]).1;
            &&& h.id == t.heads[i].0
            &&& present(t.blobs, hex(h.content_id))
            &&& h.version <= t.revisions.len()
        }) by {
            lemma_put_entries(s.heads, id, new_head, i);
            if t.heads[i] != (id, new_head) {
                let j = choose|j: int| 0 <= j < s.heads.len() && s.heads[j] == t.heads[i];
                let old_head = s.heads[j].1;
                assert(present(s.blobs, hex(old_head.content_id)));
                lemma_lookup_put(
                    s.blobs,
                    hex(incoming),
                    req.markdown,
                    hex(old_head.content_id),
                );
            }
        }
        assert forall|i: int| 0 <= i < t.blobs.len() implies (#[trigger] t.blobs[i]).0 == hex(
            content_hash(t.blobs[i].1),
        ) by {
            if !present(s.blobs, hex(incoming)) {
                lemma_put_entries(s.blobs, hex(incoming), req.markdown, i);
                if t.blobs[i] != (hex(incoming), req.markdown) {
                    let j = choose|j: int| 0 <= j < s.blobs.len() && s.blobs[j] == t.blobs[i];
                    assert(s.blobs[j].0 == hex(content_hash(s.blobs[j].1)));
                }
            }
        }
        assert forall|q: Seq<char>| #[trigger] present(t.links, q) <==> live(t, q) is Some by {
            lemma_lookup_put(s.links, id, doc.links, q);
            lemma_lookup_put(s.heads, id, new_head, q);
            assert(present(s.links, q) <==> live(s, q) is Some);
        }
    }
}

/// A deletion keeps a store sound.
pub proof fn law_delete_keeps_the_store_sound(
    s: StoreModel,
    id: Seq<char>,
    expected: Seq<u8>,
    actor: PrincipalModel,
    reason: Seq<char>,
)
    requires
        store_ok(s),
    ensures
        store_ok(buried(s, id, expected, actor, reason).0),
{
    let t = buried(s, id, expected, actor, reason).0;
    if live(s, id) is Some && live(s, id)->0.content_id == expected {
        let h = live(s, id)->0;
        lemma_head_ok(s, id);
        let new_head = HeadModel { deleted: true, ..h };
        lemma_put_ascending(s.heads, id, new_head);
        lemma_del_ascending(s.links, id);
        assert forall|i: int| 0 <= i < t.heads.len() implies ({
            let h = (#[trigger] t.heads[i]).1;
            &&& h.id == t.heads[i].0
            &&& present(t.blobs, hex(h.content_id))
            &&& h.version <= t.revisions.len()
        }) by {
            lemma_put_entries(s.heads, id, new_head, i);
            if t.heads[i] != (id, new_head) {
                let j = choose|j: int| 0 <= j < s.heads.len() && s.heads[j] == t.heads[i];
                assert(s.heads[j].1.id == s.heads[j].0);
            }
        }
        assert forall|q: Seq<char>| #[trigger] present(t.links, q) <==> live(t, q) is Some by {
            lemma_lookup_del(s.links, id, q);
            lemma_lookup_put(s.heads, id, new_head, q);
            assert(present(s.links, q) <==> live(s, q) is Some);
        }
    }
}

proof fn lemma_each_ok(
    s: StoreModel,
    reqs: Seq<RequestModel>,
    n: int,
    actor: PrincipalModel,
    b: Budget,
)
    requires
        store_ok(s),
    ensures
        store_ok(each(s, reqs, n, actor, b).0),
    decreases n,
{
    if n > 0 {
        lemma_each_ok(s, reqs, n - 1, actor, b);
        law_commit_keeps_the_store_sound(each(s, reqs, n - 1, actor, b).0, reqs[n - 1], actor, b);
    }
}

/// A batch keeps a store sound.
pub proof fn law_batch_keeps_the_store_sound(
    s: StoreModel,
    reqs: Seq<RequestModel>,
    atomic: bool,
    actor: PrincipalModel,
    b: Budget,
)
    requires
        store_ok(s),
    ensures
        store_ok(batched(s, reqs, atomic, actor, b).0),
{
    lemma_each_ok(s, reqs, reqs.len() as int, actor, b);
}

// ---------------------------------------------------------------------
// The store itself
// ---------------------------------------------------------------------

impl Core {
    pub(crate) fn empty() -> (r: Core)
        ensures
            r@ == empty_store(),
            store_ok(r@),
    {
        let r = Core {
            blobs: Table::new(),
            heads: Table::new(),
            revisions: Vec::new(),
            links: Table::new(),
            triples: Table::new(),
            reserved: 0,
        };
        assert(r@.revisions =~= Seq::empty());
        r
    }

    fn dup(&self) -> (r: Core)
        ensures
            r@ == self@,
    {
        let mut revisions: Vec<Revision> = Vec::new();
        let mut i: usize = 0;
        while i < self.revisions.len()
            invariant
                i <= self.revisions.len(),
                revisions@.len() == i,
                forall|k: int|
                    0 <= k < i ==> (#[trigger] revisions@[k])@ == self.revisions@[k]@,
            decreases self.revisions.len() - i,
        {
            revisions.push(self.revisions[i].clone());
            i += 1;
        }
        assert(views(revisions@) =~= views(self.revisions@));
        Core {
            blobs: self.blobs.dup(),
            heads: self.heads.dup(),
            revisions,
            links: self.links.dup(),
            triples: self.triples.dup(),
            reserved: self.reserved,
        }
    }

    /// The live head of `id`.
    pub(crate) fn live_head(&self, id: &str) -> (r: Option<&Head>)
        ensures
            match r {
                Some(h) => live(self@, id@) == Some(h@),
                None => live(self@, id@) is None,
            },
    {
        match self.heads.get(id) {
            Some(h) => {
                if h.deleted {
                    None
                } else {
                    Some(h)
                }
            },
            None => None,
        }
    }

    /// The document that a head serves.
    pub(crate) fn serve(&self, h: &Head, budget: &Budget) -> (r: Result<DocumentView, StoreError>)
        ensures
            res_view(r) == served(self@, h@, *budget),
    {
        let key = h.content_id.to_hex();
        match self.blobs.get(key.as_str()) {
            None => {
                let mut m = "blob perdido para ".to_owned();
                m.push_str(h.id.as_str());
                Err(StoreError::Backend(m))
            },
            Some(raw) => match parse_document(raw.as_str(), budget) {
                Err(e) => Err(StoreError::Okf(e)),
                Ok(d) => Ok(
                    DocumentView {
                        concept_id: h.id.clone(),
                        content_id: h.content_id,
                        version: h.version,
                        raw: raw.clone(),
                        doc_type: d.doc_type,
                        title: d.title,
                        tags: d.tags,
                        links: d.links,
                    },
                ),
            },
        }
    }

    fn add_revision(&mut self, r: Revision) -> (out: Revision)
        requires
            r.seq == 0,
        ensures
            out@ == (RevisionModel { seq: old(self)@.revisions.len() + 1, ..r@ }),
            final(self)@ == (StoreModel {
                revisions: old(self)@.revisions.push(out@),
                ..old(self)@
            }),
            out@.seq <= u64::MAX,
    {
        let mut numbered = r.clone();
        let ghost was = self.revisions@;
        self.revisions.push(r);
        let n = self.revisions.len();
        numbered.seq = n as u64;
        let _ = self.revisions.pop();
        assert(self.revisions@ =~= was);
        let out = numbered.clone();
        proof {
            lemma_views_push(self.revisions@, numbered);
        }
        self.revisions.push(numbered);
        out
    }

    fn commit(&mut self, request: CommitRequest, actor: &Principal, budget: &Budget) -> (r: Result<
        CommitOutcome,
        StoreError,
    >)
        requires
            store_ok(old(self)@),
        ensures
            (final(self)@, res_view(r)) == committed(old(self)@, request@, actor@, *budget),
            store_ok(final(self)@),
    {
        proof {
            law_commit_keeps_the_store_sound(self@, request@, actor@, *budget);
        }
        let doc = match parse_document(request.markdown.as_str(), budget) {
            Err(e) => {
                return Err(StoreError::Okf(e));
            },
            Ok(d) => d,
        };
        let incoming = content_id(request.markdown.as_str());
        let head: Option<ContentId> = match self.live_head(request.concept_id.as_str()) {
            Some(h) => Some(h.content_id),
            None => None,
        };
        assert(opt_view(head) == hash_of(live(self@, request@.concept_id)));
        let created = match decide(head, request.expected, incoming) {
            CommitDecision::Conflict(c) => {
                return Err(StoreError::Conflict(c));
            },
            CommitDecision::NoChange => {
                let none: Vec<String> = Vec::new();
                assert(views(none@) =~= Seq::<Seq<char>>::empty());
                match self.live_head(request.concept_id.as_str()) {
                    Some(h) => {
                        return Ok(
                            CommitOutcome {
                                revision: None,
                                content_id: h.content_id,
                                version: h.version,
                                created: false,
                                no_change: true,
                                warnings: none,
                            },
                        );
                    },
                    None => {
                        assert(false);
                        return Err(StoreError::NotFound(request.concept_id));
                    },
                }
            },
            CommitDecision::Create => true,
            CommitDecision::Update => false,
        };
        let ghost s0 = self@;
        let revision = self.add_revision(
            Revision {
                seq: 0,
                concept_id: request.concept_id.clone(),
                base: head,
                result: incoming,
                actor: actor.clone(),
                reason: request.reason,
            },
        );
        proof {
            if present(s0.heads, request@.concept_id) {
                lemma_head_ok(s0, request@.concept_id);
            }
        }
        let version: u64 = match self.heads.get(request.concept_id.as_str()) {
            Some(h) => h.version + 1,
            None => 1,
        };
        let key = incoming.to_hex();
        if !self.blobs.contains(key.as_str()) {
            self.blobs.insert(key, request.markdown);
        }
        let id_text = request.concept_id.as_str().to_owned();
        self.heads.insert(
            id_text,
            Head { id: request.concept_id.clone(), content_id: incoming, version, deleted: false },
        );
        let id_text = request.concept_id.as_str().to_owned();
        self.links.insert(id_text, LinkList { links: doc.links });
        let none: Vec<String> = Vec::new();
        assert(views(none@) =~= Seq::<Seq<char>>::empty());
        Ok(
            CommitOutcome {
                revision: Some(revision),
                content_id: incoming,
                version,
                created,
                no_change: false,
                warnings: none,
            },
        )
    }

    fn delete(
        &mut self,
        id: &ConceptId,
        expected: ContentId,
        actor: &Principal,
        reason: String,
    ) -> (r: Result<DeleteOutcome, StoreError>)
        requires
            store_ok(old(self)@),
        ensures
            (final(self)@, res_view(r)) == buried(old(self)@, id@, expected@, actor@, reason@),
            store_ok(final(self)@),
    {
        proof {
            law_delete_keeps_the_store_sound(self@, id@, expected@, actor@, reason@);
        }
        let head = match self.live_head(id.as_str()) {
            None => {
                return Err(StoreError::NotFound(id.clone()));
            },
            Some(h) => h.dup(),
        };
        if !head.content_id.same(&expected) {
            return Err(
                StoreError::Conflict(
                    Conflict {
                        expected: Some(expected),
                        current: Some(head.content_id),
                        incoming: expected,
                    },
                ),
            );
        }
        let revision = self.add_revision(
            Revision {
                seq: 0,
                concept_id: id.clone(),
                base: Some(head.content_id),
                result: head.content_id,
                actor: actor.clone(),
                reason,
            },
        );
        let content_id = head.content_id;
        let version: u64 = head.version;
        self.heads.insert(
            id.as_str().to_owned(),
            Head { id: head.id, content_id, version, deleted: true },
        );
        self.links.remove(id.as_str());
        let none: Vec<String> = Vec::new();
        assert(views(none@) =~= Seq::<Seq<char>>::empty());
        Ok(DeleteOutcome { content_id, version, revision, warnings: none })
    }
}

// ---------------------------------------------------------------------
// Searching, remembering, batching
// ---------------------------------------------------------------------

fn tag_mentions(tags: &Vec<String>, needle: &str) -> (r: bool)
    ensures
        r == tag_holds(views(tags@), needle@),
{
    let mut i: usize = 0;
    while i < tags.len()
        invariant
            i <= tags.len(),
            forall|k: int|
                0 <= k < i ==> !holds(lowercase(#[trigger] views(tags@)[k]), needle@),
        decreases tags.len() - i,
    {
        let low = lowercase_of(tags[i].as_str());
        let chars = chars_of(low.as_str());
        if holds_of(chars.as_slice(), needle) {
            assert(holds(lowercase(views(tags@)[i as int]), needle@));
            return true;
        }
        i += 1;
    }
    false
}

/// Whether a text sought stands in the id, the title, a tag or the document.
pub fn is_mentioned(
    id: &str,
    title: &Option<String>,
    tags: &Vec<String>,
    raw: &str,
    text: &str,
) -> (r: bool)
    ensures
        r == mentions(id@, opt_view(*title), views(tags@), raw@, text@),
{
    let needle = lowercase_of(text);
    let id_chars = chars_of(id);
    if holds_of(id_chars.as_slice(), needle.as_str()) {
        return true;
    }
    match title {
        Some(t) => {
            let low = lowercase_of(t.as_str());
            let chars = chars_of(low.as_str());
            if holds_of(chars.as_slice(), needle.as_str()) {
                return true;
            }
        },
        None => {},
    }
    if tag_mentions(tags, needle.as_str()) {
        return true;
    }
    let low = lowercase_of(raw);
    let chars = chars_of(low.as_str());
    holds_of(chars.as_slice(), needle.as_str())
}

/// Whether a document passes the filters on its contents.
pub fn does_pass(d: &DocumentView, q: &SearchQuery) -> (r: bool)
    ensures
        r == passes(d@, q@),
{
    match &q.doc_type {
        Some(t) => {
            if !str_eq(d.doc_type.as_str(), t.as_str()) {
                return false;
            }
        },
        None => {},
    }
    match &q.exclude_type {
        Some(t) => {
            if str_eq(d.doc_type.as_str(), t.as_str()) {
                return false;
            }
        },
        None => {},
    }
    match &q.tag {
        Some(t) => {
            if !has_string(&d.tags, t.as_str()) {
                return false;
            }
        },
        None => {},
    }
    match &q.text {
        Some(t) => is_mentioned(
            d.concept_id.as_str(),
            &d.title,
            &d.tags,
            d.raw.as_str(),
            t.as_str(),
        ),
        None => true,
    }
}

/// How many results a search may give.
pub fn limit_of(q: &SearchQuery, budget: &Budget) -> (r: usize)
    ensures
        r == search_limit(q@, *budget),
{
    match q.limit {
        Some(n) => {
            if n < budget.max_search_results {
                n
            } else {
                budget.max_search_results
            }
        },
        None => budget.max_search_results,
    }
}

/// A copy of the first link that leads to `target`.
pub fn find_link(links: &Vec<Link>, target: &ConceptId) -> (r: Option<Link>)
    ensures
        opt_view(r) == link_to(views(links@), 0, target@),
{
    let mut i: usize = 0;
    while i < links.len()
        invariant
            i <= links.len(),
            link_to(views(links@), 0, target@) == link_to(views(links@), i as int, target@),
        decreases links.len() - i,
    {
        assert(views(links@)[i as int] == links@[i as int]@);
        if links[i].target.same(target) {
            return Some(links[i].clone());
        }
        i += 1;
    }
    None
}

/// Whether some revision is about `id`.
pub fn is_revised(revs: &Vec<Revision>, id: &ConceptId) -> (r: bool)
    ensures
        r == has_revision(views(revs@), id@),
{
    let ghost all = views(revs@);
    let mut i: usize = 0;
    while i < revs.len()
        invariant
            i <= revs.len(),
            all == views(revs@),
            forall|k: int| 0 <= k < i ==> (#[trigger] all[k]).concept_id != id@,
        decreases revs.len() - i,
    {
        assert(all[i as int] == revs@[i as int]@);
        if revs[i].concept_id.same(id) {
            return true;
        }
        i += 1;
    }
    false
}

/// Up to `limit` revisions about `id` that are older than `cut`, latest first.
pub fn page_of(revs: &Vec<Revision>, id: &ConceptId, cut: u64, limit: usize) -> (r: Vec<Revision>)
    ensures
        views(r@) == page(views(revs@), revs@.len() as int, id@, cut, limit as nat),
{
    let ghost rs = views(revs@);
    let mut out: Vec<Revision> = Vec::new();
    let mut n: usize = revs.len();
    let ghost all = page(rs, n as int, id@, cut, limit as nat);
    assert(views(out@) + all =~= all);
    while n > 0 && out.len() < limit
        invariant
            n <= revs.len(),
            out.len() <= limit,
            rs == views(revs@),
            all == page(rs, revs@.len() as int, id@, cut, limit as nat),
            views(out@) + page(rs, n as int, id@, cut, (limit - out.len()) as nat) == all,
        decreases n,
    {
        n -= 1;
        let rev = &revs[n];
        assert(rs[n as int] == rev@);
        if rev.concept_id.same(id) && rev.seq < cut {
            let ghost before = views(out@);
            let copy = rev.clone();
            proof {
                lemma_views_push(out@, copy);
            }
            out.push(copy);
            proof {
                let tail = page(rs, n as int, id@, cut, (limit - out.len()) as nat);
                assert(before + (seq![rev@] + tail) =~= views(out@) + tail);
            }
        }
    }
    assert(views(out@) + Seq::<RevisionModel>::empty() =~= views(out@));
    out
}

impl Core {
    fn search(&self, query: &SearchQuery, budget: &Budget) -> (r: Result<
        Vec<SearchHit>,
        StoreError,
    >)
        ensures
            list_answer(r) == found(self@, query@, *budget),
    {
        let limit = limit_of(query, budget);
        let mut hits: Vec<SearchHit> = Vec::new();
        let mut i: usize = 0;
        assert(views(hits@) =~= Seq::empty());
        while i < self.heads.len() && hits.len() < limit
            invariant
                i <= self.heads@.len(),
                limit == search_limit(query@, *budget),
                found(self@, query@, *budget) == found_from(
                    self@,
                    query@,
                    *budget,
                    i as int,
                    views(hits@),
                ),
            decreases self.heads@.len() - i,
        {
            let h = self.heads.value(i);
            i += 1;
            let here = match &query.path_prefix {
                Some(p) => matches_prefix(h.id.as_str(), p.as_str()),
                None => true,
            };
            if h.deleted || !here {
                continue;
            }
            match self.serve(h, budget) {
                Err(e) => {
                    return Err(e);
                },
                Ok(d) => {
                    if does_pass(&d, query) {
                        let hit = into_hit(d);
                        proof {
                            lemma_views_push(hits@, hit);
                        }
                        hits.push(hit);
                    }
                },
            }
        }
        Ok(hits)
    }

    fn history(&self, id: &ConceptId, limit: usize, before_seq: Option<u64>) -> (r: Result<
        Vec<Revision>,
        StoreError,
    >)
        ensures
            list_answer(r) == recalled(self@, id@, limit, before_seq),
    {
        if !self.heads.contains(id.as_str()) && !is_revised(&self.revisions, id) {
            return Err(StoreError::NotFound(id.clone()));
        }
        let cut: u64 = match before_seq {
            Some(c) => c,
            None => u64::MAX,
        };
        Ok(page_of(&self.revisions, id, cut, limit))
    }

    fn backlinks(&self, id: &ConceptId) -> (r: Result<Vec<Backlink>, StoreError>)
        ensures
            list_answer(r) == back_from(self@, id@, 0, Seq::empty()),
    {
        let mut out: Vec<Backlink> = Vec::new();
        let budget = Budget::default();
        let mut i: usize = 0;
        assert(views(out@) =~= Seq::empty());
        while i < self.links.len()
            invariant
                i <= self.links@.len(),
                budget == default_budget(),
                back_from(self@, id@, 0, Seq::empty()) == back_from(
                    self@,
                    id@,
                    i as int,
                    views(out@),
                ),
            decreases self.links@.len() - i,
        {
            let source = self.links.key(i);
            let list = self.links.value(i);
            i += 1;
            match (self.live_head(source), find_link(&list.links, id)) {
                (Some(h), Some(l)) => match self.serve(h, &budget) {
                    Err(e) => {
                        return Err(e);
                    },
                    Ok(d) => {
                        let b = Backlink { source: into_hit(d), rel: l.rel };
                        proof {
                            lemma_views_push(out@, b);
                        }
                        out.push(b);
                    },
                },
                _ => {},
            }
        }
        Ok(out)
    }

    /// Each request for itself; also the index of the first that failed.
    fn commit_each(
        &mut self,
        requests: &Vec<CommitRequest>,
        actor: &Principal,
        budget: &Budget,
    ) -> (r: (Vec<BulkItem>, Option<usize>))
        requires
            store_ok(old(self)@),
        ensures
            (final(self)@, views(r.0@)) == each(
                old(self)@,
                views(requests@),
                requests@.len() as int,
                actor@,
                *budget,
            ),
            match r.1 {
                Some(k) => first_failure(
                    old(self)@,
                    views(requests@),
                    requests@.len() as int,
                    actor@,
                    *budget,
                ) == Some(k as int) && k < requests@.len(),
                None => first_failure(
                    old(self)@,
                    views(requests@),
                    requests@.len() as int,
                    actor@,
                    *budget,
                ) is None,
            },
            r.0@.len() == requests@.len(),
            store_ok(final(self)@),
    {
        let mut items: Vec<BulkItem> = Vec::new();
        let mut failed: Option<usize> = None;
        let mut i: usize = 0;
        let ghost reqs = views(requests@);
        assert(views(items@) =~= Seq::empty());
        while i < requests.len()
            invariant
                i <= requests.len(),
                reqs == views(requests@),
                items@.len() == i,
                store_ok(self@),
                (self@, views(items@)) == each(old(self)@, reqs, i as int, actor@, *budget),
                match failed {
                    Some(k) => first_failure(old(self)@, reqs, i as int, actor@, *budget) == Some(
                        k as int,
                    ) && k < i,
                    None => first_failure(old(self)@, reqs, i as int, actor@, *budget) is None,
                },
            decreases requests.len() - i,
        {
            assert(reqs[i as int] == requests@[i as int]@);
            let item = match self.commit(requests[i].clone(), actor, budget) {
                Ok(o) => BulkItem::Done(o),
                Err(e) => {
                    if failed.is_none() {
                        failed = Some(i);
                    }
                    BulkItem::Failed(e)
                },
            };
            proof {
                lemma_views_push(items@, item);
            }
            items.push(item);
            i += 1;
            assert(each(old(self)@, reqs, i as int, actor@, *budget).1.last() == item@);
        }
        (items, failed)
    }
}

impl InMemoryStore {
    /// Every store in existence is sound.
    #[verifier::type_invariant]
    spec fn inv(self) -> bool {
        store_ok(self.data@)
    }

    /// An empty store, whose first revision will have number one.
    pub fn new() -> (r: InMemoryStore)
        ensures
            r@ == empty_store(),
    {
        InMemoryStore { data: Core::empty() }
    }

    /// How many contents are kept; equal contents count once.
    pub fn blob_count(&self) -> (r: usize)
        ensures
            r == self@.blobs.len(),
    {
        self.data.blobs.len()
    }

    /// How many heads there are, buried ones too.
    pub fn head_count(&self) -> (r: usize)
        ensures
            r == self@.heads.len(),
    {
        self.data.heads.len()
    }

    pub(crate) fn state(&self) -> (r: &Core)
        ensures
            r@ == self@,
            store_ok(self@),
    {
        proof {
            use_type_invariant(self);
        }
        &self.data
    }

    /// Takes the state out.
    fn take(&mut self) -> (r: Core)
        ensures
            r@ == old(self)@,
            store_ok(r@),
    {
        proof {
            use_type_invariant(&*self);
        }
        let mut data = Core::empty();
        core::mem::swap(&mut self.data, &mut data);
        data
    }
}

impl MemoryRepository for InMemoryStore {
    open spec fn get_rel(&self, id: Seq<char>, r: Answer<Option<DocViewModel>>) -> bool {
        r == got(self@, id)
    }

    open spec fn search_rel(&self, q: QueryModel, b: Budget, r: Answer<Seq<HitModel>>) -> bool {
        r == found(self@, q, b)
    }

    open spec fn commit_rel(
        pre: Self,
        req: RequestModel,
        actor: PrincipalModel,
        b: Budget,
        post: Self,
        r: Answer<OutcomeModel>,
    ) -> bool {
        (post@, r) == committed(pre@, req, actor, b)
    }

    open spec fn history_rel(
        &self,
        id: Seq<char>,
        limit: usize,
        before_seq: Option<u64>,
        r: Answer<Seq<RevisionModel>>,
    ) -> bool {
        r == recalled(self@, id, limit, before_seq)
    }

    open spec fn delete_rel(
        pre: Self,
        id: Seq<char>,
        expected: Seq<u8>,
        actor: PrincipalModel,
        reason: Seq<char>,
        post: Self,
        r: Answer<DeleteModel>,
    ) -> bool {
        (post@, r) == buried(pre@, id, expected, actor, reason)
    }

    open spec fn backlinks_rel(&self, id: Seq<char>, r: Answer<Seq<BacklinkModel>>) -> bool {
        r == back_from(self@, id, 0, Seq::empty())
    }

    open spec fn bulk_rel(
        pre: Self,
        reqs: Seq<RequestModel>,
        atomic: bool,
        actor: PrincipalModel,
        b: Budget,
        post: Self,
        r: Answer<BulkModel>,
    ) -> bool {
        (post@, r) == batched(pre@, reqs, atomic, actor, b)
    }

    fn get(&self, id: &ConceptId) -> (r: Result<Option<DocumentView>, StoreError>) {
        match self.data.live_head(id.as_str()) {
            None => Ok(None),
            Some(h) => match self.data.serve(h, &Budget::default()) {
                Err(e) => Err(e),
                Ok(d) => Ok(Some(d)),
            },
        }
    }

    fn search(&self, query: &SearchQuery, budget: &Budget) -> (r: Result<
        Vec<SearchHit>,
        StoreError,
    >) {
        self.data.search(query, budget)
    }

    fn commit(
        &mut self,
        request: CommitRequest,
        actor: &Principal,
        budget: &Budget,
    ) -> (r: Result<CommitOutcome, StoreError>) {
        let mut data = self.take();
        let r = data.commit(request, actor, budget);
        self.data = data;
        r
    }

    fn history(&self, id: &ConceptId, limit: usize, before_seq: Option<u64>) -> (r: Result<
        Vec<Revision>,
        StoreError,
    >) {
        self.data.history(id, limit, before_seq)
    }

    fn delete(
        &mut self,
        id: &ConceptId,
        expected: ContentId,
        actor: &Principal,
        reason: String,
    ) -> (r: Result<DeleteOutcome, StoreError>) {
        let mut data = self.take();
        let r = data.delete(id, expected, actor, reason);
        self.data = data;
        r
    }

    fn backlinks(&self, id: &ConceptId) -> (r: Result<Vec<Backlink>, StoreError>) {
        self.data.backlinks(id)
    }

    fn commit_bulk(
        &mut self,
        requests: Vec<CommitRequest>,
        atomic: bool,
        actor: &Principal,
        budget: &Budget,
    ) -> (r: Result<BulkOutcome, StoreError>) {
        if !atomic {
            let mut data = self.take();
            let (items, _) = data.commit_each(&requests, actor, budget);
            self.data = data;
            return Ok(BulkOutcome { applied: true, items });
        }
        proof {
            use_type_invariant(&*self);
        }
        let mut trial = self.data.dup();
        let (items, failed) = trial.commit_each(&requests, actor, budget);
        match failed {
            None => {
                self.data = trial;
                Ok(BulkOutcome { applied: true, items })
            },
            Some(k) => {
                let ghost all = views(items@);
                let ghost want = Seq::new(
                    requests@.len(),
                    |i: int|
                        if i == k {
                            all[k as int]
                        } else {
                            BulkItemModel::Skipped
                        },
                );
                let n = items.len();
                let mut items = items;
                let mut out: Vec<BulkItem> = Vec::new();
                items.truncate(k + 1);
                let culprit = match items.pop() {
                    Some(x) => x,
                    None => BulkItem::Skipped,
                };
                assert(culprit@ == all[k as int]);
                let mut i: usize = 0;
                while i < k
                    invariant
                        i <= k,
                        k < n,
                        want.len() == n,
                        forall|j: int| 0 <= j < n && j != k ==> #[trigger] want[j]
                            == BulkItemModel::Skipped,
                        views(out@) == want.take(i as int),
                    decreases k - i,
                {
                    proof {
                        lemma_views_push(out@, BulkItem::Skipped);
                    }
                    out.push(BulkItem::Skipped);
                    i += 1;
                    assert(want.take(i as int) =~= want.take(i - 1).push(want[i - 1]));
                }
                proof {
                    lemma_views_push(out@, culprit);
                }
                out.push(culprit);
                i += 1;
                assert(want.take(i as int) =~= want.take(i - 1).push(want[i - 1]));
                while i < n
                    invariant
                        k < i <= n,
                        want.len() == n,
                        forall|j: int| 0 <= j < n && j != k ==> #[trigger] want[j]
                            == BulkItemModel::Skipped,
                        views(out@) == want.take(i as int),
                    decreases n - i,
                {
                    proof {
                        lemma_views_push(out@, BulkItem::Skipped);
                    }
                    out.push(BulkItem::Skipped);
                    i += 1;
                    assert(want.take(i as int) =~= want.take(i - 1).push(want[i - 1]));
                }
                assert(want.take(i as int) =~= want);
                Ok(BulkOutcome { applied: false, items: out })
            },
        }
    }
}

impl HeadHintSource for InMemoryStore {
    open spec fn head_hint_rel(&self, id: Seq<char>, r: Answer<Option<HintModel>>) -> bool {
        r == Ok::<Option<HintModel>, StoreErrorModel>(None)
    }

    open spec fn set_token_rel(
        pre: Self,
        id: Seq<char>,
        token: Seq<char>,
        post: Self,
        e: Option<StoreErrorModel>,
    ) -> bool {
        post@ == pre@ && e is None
    }

    open spec fn reserve_rel(pre: Self, post: Self, r: Answer<u64>) -> bool {
        if pre@.reserved == u64::MAX {
            post@ == pre@ && r == Err::<u64, _>(StoreErrorModel::Backend("secuencia agotada"@))
        } else {
            let n = (pre@.reserved + 1) as u64;
            post@ == (StoreModel { reserved: n, ..pre@ }) && r == Ok::<u64, StoreErrorModel>(n)
        }
    }

    /// This store keeps no hints.
    fn head_hint(&self, id: &ConceptId) -> (r: Result<Option<DocHint>, StoreError>) {
        Ok(None)
    }

    /// This store has no use for write tokens.
    fn set_write_token(&mut self, id: &ConceptId, token: &str) -> (r: Result<(), StoreError>) {
        Ok(())
    }

    fn reserve_seq(&mut self) -> (r: Result<u64, StoreError>) {
        if self.data.reserved == u64::MAX {
            return Err(StoreError::Backend("secuencia agotada".to_owned()));
        }
        let mut data = self.take();
        let next: u64 = data.reserved + 1;
        data.reserved = next;
        self.data = data;
        Ok(next)
    }
}

impl HintedRepository for InMemoryStore {
    open spec fn commit_hinted_rel(
        pre: Self,
        req: RequestModel,
        actor: PrincipalModel,
        b: Budget,
        hint: Option<HintModel>,
        next_seq: u64,
        post: Self,
        r: Answer<(OutcomeModel, Option<Seq<char>>)>,
    ) -> bool {
        let (s, a) = committed(pre@, req, actor, b);
        post@ == s && match a {
            Ok(o) => r == Ok::<_, StoreErrorModel>((o, None::<Seq<char>>)),
            Err(e) => r == Err::<(OutcomeModel, Option<Seq<char>>), _>(e),
        }
    }

    open spec fn delete_hinted_rel(
        pre: Self,
        id: Seq<char>,
        expected: Seq<u8>,
        actor: PrincipalModel,
        reason: Seq<char>,
        hint: Option<HintModel>,
        next_seq: u64,
        post: Self,
        r: Answer<DeleteModel>,
    ) -> bool {
        (post@, r) == buried(pre@, id, expected, actor, reason)
    }

    /// Hints make nothing cheaper here: a plain commit, without a token.
    fn commit_hinted(
        &mut self,
        request: CommitRequest,
        actor: &Principal,
        budget: &Budget,
        hint: Option<DocHint>,
        next_seq: u64,
    ) -> (r: Result<(CommitOutcome, Option<String>), StoreError>) {
        match self.commit(request, actor, budget) {
            Ok(o) => Ok((o, None)),
            Err(e) => Err(e),
        }
    }

    fn delete_hinted(
        &mut self,
        id: &ConceptId,
        expected: ContentId,
        actor: &Principal,
        reason: String,
        hint: Option<DocHint>,
        next_seq: u64,
    ) -> (r: Result<DeleteOutcome, StoreError>) {
        self.delete(id, expected, actor, reason)
    }
}

/// The targets of some links.
pub open spec fn link_targets(links: Seq<LinkModel>) -> Seq<Seq<char>> {
    Seq::new(links.len(), |i: int| links[i].target)
}

/// Where a document leads.
pub open spec fn leads_to(s: StoreModel, id: Seq<char>) -> Seq<Seq<char>> {
    match lookup(s.links, id) {
        Some(l) => link_targets(l),
        None => Seq::empty(),
    }
}

/// The size of a live document in bytes.
pub open spec fn size_in(s: StoreModel, id: Seq<char>) -> Option<usize> {
    match live(s, id) {
        Some(h) => match lookup(s.blobs, hex(h.content_id)) {
            Some(raw) => Some(utf8_len(raw) as usize),
            None => None,
        },
        None => None,
    }
}

/// Copies of the targets of some links.
pub fn targets_of(links: &Vec<Link>) -> (r: Vec<ConceptId>)
    ensures
        views(r@) == link_targets(views(links@)),
{
    let mut out: Vec<ConceptId> = Vec::new();
    let mut i: usize = 0;
    while i < links.len()
        invariant
            i <= links.len(),
            out@.len() == i,
            forall|k: int| 0 <= k < i ==> (#[trigger] out@[k])@ == links@[k].target@,
        decreases links.len() - i,
    {
        out.push(links[i].target.clone());
        i += 1;
    }
    assert(views(out@) =~= link_targets(views(links@)));
    out
}

impl NeighborSource for InMemoryStore {
    type Error = StoreError;

    open spec fn neighbors_rel(&self, id: Seq<char>, r: Result<Seq<Seq<char>>, StoreError>) -> bool {
        r == Ok::<Seq<Seq<char>>, StoreError>(leads_to(self@, id))
    }

    open spec fn size_rel(&self, id: Seq<char>, r: Result<Option<usize>, StoreError>) -> bool {
        r == Ok::<Option<usize>, StoreError>(size_in(self@, id))
    }

    fn neighbors(&self, id: &ConceptId) -> (r: Result<Vec<ConceptId>, StoreError>) {
        match self.data.links.get(id.as_str()) {
            Some(l) => Ok(targets_of(&l.links)),
            None => {
                let none: Vec<ConceptId> = Vec::new();
                assert(views(none@) =~= Seq::<Seq<char>>::empty());
                Ok(none)
            },
        }
    }

    fn document_size(&self, id: &ConceptId) -> (r: Result<Option<usize>, StoreError>) {
        match self.data.live_head(id.as_str()) {
            Some(h) => {
                let key = h.content_id.to_hex();
                match self.data.blobs.get(key.as_str()) {
                    Some(raw) => Ok(Some(raw.as_str().as_bytes().len())),
                    None => Ok(None),
                }
            },
            None => Ok(None),
        }
    }
}

impl TripleStore for InMemoryStore {
    open spec fn save_rel(
        pre: Self,
        subject: Seq<char>,
        triples: Triples,
        post: Self,
        e: Option<StoreErrorModel>,
    ) -> bool {
        post@ == (StoreModel { triples: put(pre@.triples, subject, triples), ..pre@ }) && e is None
    }

    open spec fn load_rel(&self, subject: Seq<char>, r: Answer<Triples>) -> bool {
        r == Ok::<Triples, StoreErrorModel>(
            match lookup(self@.triples, subject) {
                Some(t) => t,
                None => Seq::empty(),
            },
        )
    }

    fn save_triples(&mut self, subject: &ConceptId, triples: &[Triple]) -> (r: Result<
        (),
        StoreError,
    >) {
        let mut facts: Vec<Triple> = Vec::new();
        let mut i: usize = 0;
        while i < triples.len()
            invariant
                i <= triples.len(),
                facts@.len() == i,
                forall|k: int| 0 <= k < i ==> (#[trigger] facts@[k])@ == triples@[k]@,
            decreases triples.len() - i,
        {
            facts.push(triples[i].clone());
            i += 1;
        }
        assert(views(facts@) =~= views(triples@));
        let mut data = self.take();
        proof {
            lemma_put_ascending(data@.triples, subject@, views(facts@));
        }
        data.triples.insert(subject.as_str().to_owned(), FactList { facts });
        self.data = data;
        Ok(())
    }

    fn load_triples(&self, subject: &ConceptId) -> (r: Result<Vec<Triple>, StoreError>) {
        match self.data.triples.get(subject.as_str()) {
            Some(l) => Ok(crate::ontology::clone_triples(&l.facts)),
            None => {
                let none: Vec<Triple> = Vec::new();
                assert(views(none@) =~= Seq::empty());
                Ok(none)
            },
        }
    }
}

} // verus!

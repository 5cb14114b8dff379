//! What is done with events that wait to be mirrored, and how a read index is
//! brought in line with the truth.

use vstd::prelude::*;
use crate::args::{arg_str, text_arg};
use crate::json::{JsonModel, Value};
use crate::memory::default_budget;
use crate::model::{
    hex, id_error, lemma_valid_id, unhex, Budget, ConceptId, ContentId,
};
use crate::repo::{Answer, MemoryRepository};
use crate::store::{
    DocViewModel, DocumentView, HitModel, QueryModel, SearchHit, SearchQuery, StoreError,
    StoreErrorModel,
};
use crate::text::{lemma_views_push, opt_view, res_view, str_eq, views};

verus! {

// ---------------------------------------------------------------------
// Events
// ---------------------------------------------------------------------

/// Most events taken at a time.
pub const BATCH: usize = 10;

/// The attempt at which a failing event is given up.
pub const LAST_ATTEMPT: u64 = 5;

/// Most times that a file is written over a stale token.
pub const MAX_TRIES: u32 = 3;

/// Something to do for an event.
#[derive(Debug, Clone, Copy, PartialEq, Eq, Structural)]
pub enum Step {
    /// Write the file of the document.
    WriteFile,
    /// Index the document.
    Index,
    /// Delete the file of the document.
    DeleteFile,
    /// Take the document out of the index.
    Unindex,
}

/// What to do for an event, in order, up to the first failure. `mirrored` says
/// whether there is a repository of files, `indexed` whether documents can be
/// indexed.
pub open spec fn steps(event: Seq<char>, mirrored: bool, indexed: bool) -> Seq<Step> {
    if event == "commit"@ {
        (if mirrored {
            seq![Step::WriteFile]
        } else {
            Seq::empty()
        }) + (if indexed {
            seq![Step::Index]
        } else {
            Seq::empty()
        })
    } else if event == "delete"@ {
        (if mirrored {
            seq![Step::DeleteFile]
        } else {
            Seq::empty()
        }) + seq![Step::Unindex]
    } else {
        Seq::empty()
    }
}

/// How many rounds of the worker go by between two reconciliations.
pub const RECONCILE_EVERY: u64 = 60;

/// Whether a round of the worker, counted from zero, starts by bringing the
/// index in line with the store.
pub fn reconciles(ticks: u64) -> (r: bool)
    ensures
        r == (ticks % RECONCILE_EVERY == 0),
{
    ticks % RECONCILE_EVERY == 0
}

/// Lists what to do for an event.
pub fn plan_event(event: &str, mirrored: bool, indexed: bool) -> (r: Vec<Step>)
    ensures
        r@ == steps(event@, mirrored, indexed),
{
    let mut out: Vec<Step> = Vec::new();
    if str_eq(event, "commit") {
        if mirrored {
            out.push(Step::WriteFile);
        }
        if indexed {
            out.push(Step::Index);
        }
    } else if str_eq(event, "delete") {
        if mirrored {
            out.push(Step::DeleteFile);
        }
        out.push(Step::Unindex);
    }
    assert(out@ =~= steps(event@, mirrored, indexed));
    out
}

impl Step {
    pub open spec fn label(self) -> Seq<char> {
        match self {
            Step::WriteFile => "GitHub sync failed: "@,
            Step::Index => "Embedding generation failed: "@,
            Step::DeleteFile => "GitHub delete failed: "@,
            Step::Unindex => "Embedding deletion failed: "@,
        }
    }

    /// What is said where the step failed.
    pub fn failure(&self, why: &str) -> (r: String)
        ensures
            r@ == self.label() + why@,
    {
        let mut m = match self {
            Step::WriteFile => "GitHub sync failed: ".to_owned(),
            Step::Index => "Embedding generation failed: ".to_owned(),
            Step::DeleteFile => "GitHub delete failed: ".to_owned(),
            Step::Unindex => "Embedding deletion failed: ".to_owned(),
        };
        m.push_str(why);
        m
    }
}

/// The document that an event carries; empty if it carries none.
pub open spec fn carried_text(payload: JsonModel) -> Seq<char> {
    match text_arg(payload, "markdown"@) {
        Some(t) => t,
        None => Seq::empty(),
    }
}

pub fn event_markdown(payload: &Value) -> (r: String)
    ensures
        r@ == carried_text(payload@),
{
    match arg_str(payload, "markdown") {
        Some(t) => t,
        None => {
            let none = String::new();
            assert(none@ =~= Seq::empty());
            none
        },
    }
}

/// The reason that an event carries, or one by its kind.
pub open spec fn carried_reason(event: Seq<char>, payload: JsonModel) -> Seq<char> {
    match text_arg(payload, "reason"@) {
        Some(t) => t,
        None => if event == "delete"@ {
            "okf-mcp delete"@
        } else {
            "okf-mcp commit"@
        },
    }
}

pub fn event_reason(event: &str, payload: &Value) -> (r: String)
    ensures
        r@ == carried_reason(event@, payload@),
{
    match arg_str(payload, "reason") {
        Some(t) => t,
        None => {
            if str_eq(event, "delete") {
                "okf-mcp delete".to_owned()
            } else {
                "okf-mcp commit".to_owned()
            }
        },
    }
}

/// The state of an event that failed after `attempts` failures before: it
/// waits again, until the last attempt.
pub open spec fn state_after_failure(attempts: u64) -> Seq<char> {
    if attempts + 1 >= LAST_ATTEMPT {
        "failed"@
    } else {
        "pending"@
    }
}

pub fn status_after_failure(attempts: u64) -> (r: &'static str)
    ensures
        r@ == state_after_failure(attempts),
{
    if attempts >= LAST_ATTEMPT - 1 {
        "failed"
    } else {
        "pending"
    }
}

/// Whether the files are written here: not where the repository is already the
/// store.
pub open spec fn credentials(
    store: Option<Seq<char>>,
    token: Option<Seq<char>>,
    repo: Option<Seq<char>>,
) -> (Option<Seq<char>>, Option<Seq<char>>) {
    if store == Some("github"@) {
        (None, None)
    } else {
        (token, repo)
    }
}

/// The credentials for writing files, from the settings.
pub fn sync_credentials(store: Option<&str>, token: Option<String>, repo: Option<String>) -> (r: (
    Option<String>,
    Option<String>,
))
    ensures
        (opt_view(r.0), opt_view(r.1)) == credentials(
            opt_view(store),
            opt_view(token),
            opt_view(repo),
        ),
{
    match store {
        Some(name) => {
            if str_eq(name, "github") {
                return (None, None);
            }
        },
        None => {},
    }
    (token, repo)
}

/// The address of the file of a document.
pub open spec fn file_address(repo: Seq<char>, id: Seq<char>) -> Seq<char> {
    "https://api.github.com/repos/"@ + repo + "/contents/docs/"@ + id + ".md"@
}

pub fn file_url(repo: &str, id: &str) -> (r: String)
    ensures
        r@ == file_address(repo@, id@),
{
    let mut out = "https://api.github.com/repos/".to_owned();
    out.push_str(repo);
    out.push_str("/contents/docs/");
    out.push_str(id);
    out.push_str(".md");
    out
}

/// What to do after an answer of the service.
#[derive(Debug, Clone, Copy, PartialEq, Eq, Structural)]
pub enum Retry {
    Done,
    /// Read the token again and try once more.
    Again,
    GiveUp,
}

/// A success is a success, and so is deleting what is not there; a stale token
/// is worth another try, up to the last.
pub open spec fn verdict(status: u16, attempt: u32, deleting: bool) -> Retry {
    if 200 <= status < 300 || (deleting && status == 404) {
        Retry::Done
    } else if status == 409 && attempt < MAX_TRIES {
        Retry::Again
    } else {
        Retry::GiveUp
    }
}

/// What to do after an answer to a given attempt, counted from one.
pub fn judge(status: u16, attempt: u32, deleting: bool) -> (r: Retry)
    ensures
        r == verdict(status, attempt, deleting),
{
    if (200 <= status && status < 300) || (deleting && status == 404) {
        Retry::Done
    } else if status == 409 && attempt < MAX_TRIES {
        Retry::Again
    } else {
        Retry::GiveUp
    }
}

/// There is an end to trying: the last attempt is never followed by another.
pub proof fn law_trying_ends(status: u16, attempt: u32, deleting: bool)
    requires
        attempt >= MAX_TRIES,
    ensures
        verdict(status, attempt, deleting) != Retry::Again,
{
}

// ---------------------------------------------------------------------
// The truth as a whole
// ---------------------------------------------------------------------

/// A search for everything.
pub open spec fn everything() -> QueryModel {
    QueryModel {
        text: None,
        doc_type: None,
        exclude_type: None,
        tag: None,
        path_prefix: None,
        limit: None,
    }
}

/// No limit on results.
pub open spec fn unlimited() -> Budget {
    Budget { max_search_results: usize::MAX, ..default_budget() }
}

/// What the store has of each hit.
pub type Gets = Seq<Answer<Option<DocViewModel>>>;

/// The documents of the first `n` hits that are there.
pub open spec fn gathered(gs: Gets, n: int) -> Answer<Seq<DocViewModel>>
    decreases n,
{
    if n <= 0 {
        Ok(Seq::empty())
    } else {
        match gathered(gs, n - 1) {
            Err(e) => Err(e),
            Ok(before) => match gs[n - 1] {
                Err(e) => Err(e),
                Ok(None) => Ok(before),
                Ok(Some(d)) => Ok(before.push(d)),
            },
        }
    }
}

/// The hits are asked for in order, up to the first failure.
pub open spec fn asked<R: MemoryRepository>(repo: R, hits: Seq<HitModel>, gs: Gets) -> bool {
    &&& gs.len() <= hits.len()
    &&& forall|i: int|
        0 <= i < gs.len() ==> repo.get_rel(hits[i].concept_id, #[trigger] gs[i])
    &&& gs.len() < hits.len() ==> gathered(gs, gs.len() as int) is Err
}

pub open spec fn gathered_from<R: MemoryRepository>(
    repo: R,
    hits: Seq<HitModel>,
    r: Answer<Seq<DocViewModel>>,
) -> bool {
    exists|gs: Gets| #[trigger] asked(repo, hits, gs) && r == gathered(gs, gs.len() as int)
}

pub open spec fn gathered_hits<R: MemoryRepository>(
    repo: R,
    a: Answer<Seq<HitModel>>,
    r: Answer<Seq<DocViewModel>>,
) -> bool {
    match a {
        Err(e) => r == Answer::<Seq<DocViewModel>>::Err(e),
        Ok(hits) => gathered_from(repo, hits, r),
    }
}

/// Every live document of a store: the search has no limit.
pub open spec fn all_live<R: MemoryRepository>(repo: R, r: Answer<Seq<DocViewModel>>) -> bool {
    exists|a: Answer<Seq<HitModel>>| #[trigger]
        repo.search_rel(everything(), unlimited(), a) && gathered_hits(repo, a, r)
}

proof fn lemma_gathered_prefix(gs: Gets, more: Gets, n: int)
    requires
        0 <= n <= gs.len() <= more.len(),
        forall|i: int| 0 <= i < gs.len() ==> gs[i] == more[i],
    ensures
        gathered(gs, n) == gathered(more, n),
    decreases n,
{
    if n > 0 {
        lemma_gathered_prefix(gs, more, n - 1);
    }
}

fn gather<R: MemoryRepository>(repo: &R, hits: &Vec<SearchHit>) -> (r: Result<
    Vec<DocumentView>,
    StoreError,
>)
    ensures
        gathered_from(*repo, views(hits@), crate::repo::list_answer(r)),
{
    let ghost all = views(hits@);
    let ghost mut gs: Gets = Seq::empty();
    let mut out: Vec<DocumentView> = Vec::new();
    assert(views(out@) =~= Seq::empty());
    let mut i: usize = 0;
    while i < hits.len()
        invariant
            i <= hits.len(),
            all == views(hits@),
            gs.len() == i,
            forall|k: int| 0 <= k < i ==> repo.get_rel(all[k].concept_id, #[trigger] gs[k]),
            gathered(gs, i as int) == Ok::<_, StoreErrorModel>(views(out@)),
        decreases hits.len() - i,
    {
        assert(all[i as int] == hits@[i as int]@);
        let got = repo.get(&hits[i].concept_id);
        let ghost gs0 = gs;
        proof {
            gs = gs.push(crate::repo::opt_answer(got));
            lemma_gathered_prefix(gs0, gs, i as int);
        }
        match got {
            Err(e) => {
                assert(asked(*repo, all, gs));
                return Err(e);
            },
            Ok(None) => {},
            Ok(Some(d)) => {
                proof {
                    lemma_views_push(out@, d);
                }
                out.push(d);
            },
        }
        i += 1;
    }
    assert(asked(*repo, all, gs));
    Ok(out)
}

/// Reads every live document of a store.
pub fn live_documents<R: MemoryRepository>(repo: &R) -> (r: Result<Vec<DocumentView>, StoreError>)
    ensures
        all_live(*repo, crate::repo::list_answer(r)),
{
    let mut budget = Budget::default();
    budget.max_search_results = usize::MAX;
    let query = SearchQuery::default();
    let found = repo.search(&query, &budget);
    let ghost a = crate::repo::list_answer(found);
    assert(repo.search_rel(everything(), unlimited(), a));
    let r = match found {
        Err(e) => Err(e),
        Ok(hits) => gather(repo, &hits),
    };
    assert(gathered_hits(*repo, a, crate::repo::list_answer(r)));
    r
}

// ---------------------------------------------------------------------
// Bringing the index in line
// ---------------------------------------------------------------------

/// A head as the index has it.
#[derive(Debug, PartialEq, Eq)]
pub struct IndexRow {
    pub concept_id: ConceptId,
    pub content_id: ContentId,
    pub version: i64,
    pub deleted: bool,
}

/// Mathematical counterpart of [`IndexRow`].
pub struct RowModel {
    pub concept_id: Seq<char>,
    pub content_id: Seq<u8>,
    pub version: i64,
    pub deleted: bool,
}

impl View for IndexRow {
    type V = RowModel;

    open spec fn view(&self) -> RowModel {
        RowModel {
            concept_id: self.concept_id@,
            content_id: self.content_id@,
            version: self.version,
            deleted: self.deleted,
        }
    }
}

/// A row from its columns, or what is wrong with them.
pub open spec fn row_of(id: Seq<char>, hash: Seq<char>, version: i64, deleted: bool) -> Result<
    RowModel,
    Seq<char>,
> {
    match id_error(id) {
        Some(e) => Err(e.message()),
        None => match unhex(hash) {
            None => Err("invalid hex hash in database for concept "@ + id),
            Some(content_id) => Ok(RowModel { concept_id: id, content_id, version, deleted }),
        },
    }
}

pub fn read_row(id: &str, hash: &str, version: i64, deleted: bool) -> (r: Result<IndexRow, String>)
    ensures
        res_view(r) == row_of(id@, hash@, version, deleted),
{
    proof {
        lemma_valid_id(id@);
    }
    let concept_id = match ConceptId::parse(id) {
        Ok(x) => x,
        Err(e) => {
            return Err(e.message());
        },
    };
    match ContentId::from_hex(hash) {
        Some(content_id) => Ok(IndexRow { concept_id, content_id, version, deleted }),
        None => {
            let mut m = "invalid hex hash in database for concept ".to_owned();
            m.push_str(id);
            Err(m)
        },
    }
}

/// The row of a document among the first `n`; the last one counts.
pub open spec fn row_for(rows: Seq<RowModel>, id: Seq<char>, n: int) -> Option<RowModel>
    decreases n,
{
    if n <= 0 {
        None
    } else if rows[n - 1].concept_id == id {
        Some(rows[n - 1])
    } else {
        row_for(rows, id, n - 1)
    }
}

/// The index is behind: it has no row, another content, or a deleted one.
pub open spec fn is_behind(d: DocViewModel, row: Option<RowModel>) -> bool {
    match row {
        None => true,
        Some(x) => x.content_id != d.content_id || x.deleted,
    }
}

/// The version under which a document goes to the index: never below its own,
/// and above the one that the index has.
pub open spec fn version_for(version: u64, row: Option<RowModel>) -> u64 {
    match row {
        None => version,
        Some(x) => if x.version as int + 1 > version as i64 {
            (x.version + 1) as u64
        } else {
            (version as i64) as u64
        },
    }
}

/// A document to be written to the index.
#[derive(Debug, PartialEq, Eq)]
pub struct Catchup {
    /// Which of the live documents.
    pub index: usize,
    pub version: u64,
    /// The content that the index had.
    pub base: Option<ContentId>,
}

/// Mathematical counterpart of [`Catchup`].
pub struct CatchupModel {
    pub index: nat,
    pub version: u64,
    pub base: Option<Seq<u8>>,
}

impl View for Catchup {
    type V = CatchupModel;

    open spec fn view(&self) -> CatchupModel {
        CatchupModel {
            index: self.index as nat,
            version: self.version,
            base: opt_view(self.base),
        }
    }
}

pub open spec fn base_of(row: Option<RowModel>) -> Option<Seq<u8>> {
    match row {
        Some(x) => Some(x.content_id),
        None => None,
    }
}

/// The first `n` documents on which the index is behind.
pub open spec fn catchups(docs: Seq<DocViewModel>, rows: Seq<RowModel>, n: int) -> Seq<CatchupModel>
    decreases n,
{
    if n <= 0 {
        Seq::empty()
    } else {
        let d = docs[n - 1];
        let row = row_for(rows, d.concept_id, rows.len() as int);
        if is_behind(d, row) {
            catchups(docs, rows, n - 1).push(
                CatchupModel {
                    index: (n - 1) as nat,
                    version: version_for(d.version as u64, row),
                    base: base_of(row),
                },
            )
        } else {
            catchups(docs, rows, n - 1)
        }
    }
}

pub open spec fn is_live(docs: Seq<DocViewModel>, id: Seq<char>) -> bool {
    exists|i: int| 0 <= i < docs.len() && (#[trigger] docs[i]).concept_id == id
}

/// A row of the first `n` that the rows after it do not replace.
pub open spec fn is_last(rows: Seq<RowModel>, i: int) -> bool {
    forall|j: int| i < j < rows.len() ==> (#[trigger] rows[j]).concept_id != rows[i].concept_id
}

/// Which of the first `n` rows stand for documents that are gone.
pub open spec fn leftovers(docs: Seq<DocViewModel>, rows: Seq<RowModel>, n: int) -> Seq<int>
    decreases n,
{
    if n <= 0 {
        Seq::empty()
    } else if is_last(rows, n - 1) && !rows[n - 1].deleted && !is_live(
        docs,
        rows[n - 1].concept_id,
    ) {
        leftovers(docs, rows, n - 1).push(n - 1)
    } else {
        leftovers(docs, rows, n - 1)
    }
}

fn find_row(rows: &Vec<IndexRow>, id: &ConceptId) -> (r: Option<usize>)
    ensures
        match r {
            Some(k) => k < rows@.len() && row_for(views(rows@), id@, rows@.len() as int) == Some(
                rows@[k as int]@,
            ),
            None => row_for(views(rows@), id@, rows@.len() as int) is None,
        },
{
    let ghost all = views(rows@);
    let mut n: usize = rows.len();
    while n > 0
        invariant
            n <= rows.len(),
            all == views(rows@),
            row_for(all, id@, rows@.len() as int) == row_for(all, id@, n as int),
        decreases n,
    {
        assert(all[n - 1] == rows@[n - 1]@);
        if rows[n - 1].concept_id.same(id) {
            return Some(n - 1);
        }
        n -= 1;
    }
    None
}

#[verifier::truncate]
fn target_version(version: u64, row: &IndexRow) -> (r: u64)
    requires
        row.version < i64::MAX,
    ensures
        r == version_for(version, Some(row@)),
{
    let ours = version as i64;
    let next = row.version + 1;
    if next > ours {
        next as u64
    } else {
        ours as u64
    }
}

/// Lists the documents to be written to the index.
pub fn plan_catchup(docs: &Vec<DocumentView>, rows: &Vec<IndexRow>) -> (r: Vec<Catchup>)
    requires
        forall|i: int| 0 <= i < rows@.len() ==> (#[trigger] rows@[i]).version < i64::MAX,
    ensures
        views(r@) == catchups(views(docs@), views(rows@), docs@.len() as int),
{
    let ghost ds = views(docs@);
    let ghost rs = views(rows@);
    let mut out: Vec<Catchup> = Vec::new();
    assert(views(out@) =~= Seq::empty());
    let mut i: usize = 0;
    while i < docs.len()
        invariant
            i <= docs.len(),
            ds == views(docs@),
            rs == views(rows@),
            forall|i: int| 0 <= i < rows@.len() ==> (#[trigger] rows@[i]).version < i64::MAX,
            views(out@) == catchups(ds, rs, i as int),
        decreases docs.len() - i,
    {
        assert(ds[i as int] == docs@[i as int]@);
        let d = &docs[i];
        match find_row(rows, &d.concept_id) {
            None => {
                let c = Catchup { index: i, version: d.version, base: None };
                proof {
                    lemma_views_push(out@, c);
                }
                out.push(c);
            },
            Some(k) => {
                let row = &rows[k];
                if !row.content_id.same(&d.content_id) || row.deleted {
                    let c = Catchup {
                        index: i,
                        version: target_version(d.version, row),
                        base: Some(row.content_id),
                    };
                    proof {
                        lemma_views_push(out@, c);
                    }
                    out.push(c);
                }
            },
        }
        i += 1;
    }
    out
}

fn lives(docs: &Vec<DocumentView>, id: &ConceptId) -> (r: bool)
    ensures
        r == is_live(views(docs@), id@),
{
    let ghost all = views(docs@);
    let mut i: usize = 0;
    while i < docs.len()
        invariant
            i <= docs.len(),
            all == views(docs@),
            forall|k: int| 0 <= k < i ==> (#[trigger] all[k]).concept_id != id@,
        decreases docs.len() - i,
    {
        assert(all[i as int] == docs@[i as int]@);
        if docs[i].concept_id.same(id) {
            return true;
        }
        i += 1;
    }
    false
}

fn last_of_its_id(rows: &Vec<IndexRow>, i: usize) -> (r: bool)
    requires
        i < rows@.len(),
    ensures
        r == is_last(views(rows@), i as int),
{
    let ghost all = views(rows@);
    assert(all[i as int] == rows@[i as int]@);
    let count = rows.len();
    let mut j: usize = i + 1;
    while j < count
        invariant
            i < j <= count,
            count == rows@.len(),
            all == views(rows@),
            all[i as int] == rows@[i as int]@,
            forall|k: int| i < k < j ==> (#[trigger] all[k]).concept_id != all[i as int].concept_id,
        decreases count - j,
    {
        assert(all[j as int] == rows@[j as int]@);
        if rows[j].concept_id.same(&rows[i].concept_id) {
            return false;
        }
        j += 1;
    }
    true
}

/// Indices as mathematical numbers.
pub open spec fn as_ints(v: Seq<usize>) -> Seq<int> {
    Seq::new(v.len(), |i: int| v[i] as int)
}

/// Lists the rows whose documents are gone.
pub fn plan_deletions(docs: &Vec<DocumentView>, rows: &Vec<IndexRow>) -> (r: Vec<usize>)
    ensures
        as_ints(r@) == leftovers(views(docs@), views(rows@), rows@.len() as int),
        forall|i: int| 0 <= i < r@.len() ==> (#[trigger] r@[i]) < rows@.len(),
{
    let ghost ds = views(docs@);
    let ghost rs = views(rows@);
    let mut out: Vec<usize> = Vec::new();
    assert(as_ints(out@) =~= Seq::empty());
    let mut i: usize = 0;
    while i < rows.len()
        invariant
            i <= rows.len(),
            ds == views(docs@),
            rs == views(rows@),
            as_ints(out@) == leftovers(ds, rs, i as int),
            forall|k: int| 0 <= k < out@.len() ==> (#[trigger] out@[k]) < rows@.len(),
        decreases rows.len() - i,
    {
        assert(rs[i as int] == rows@[i as int]@);
        if last_of_its_id(rows, i) && !rows[i].deleted && !lives(docs, &rows[i].concept_id) {
            let ghost was = as_ints(out@);
            out.push(i);
            assert(as_ints(out@) =~= was.push(i as int));
        }
        i += 1;
    }
    out
}

/// The row of a document once the index was brought in line.
pub open spec fn caught_up(d: Option<DocViewModel>, row: Option<RowModel>) -> Option<RowModel> {
    match (d, row) {
        (Some(x), _) => if is_behind(x, row) {
            Some(
                RowModel {
                    concept_id: x.concept_id,
                    content_id: x.content_id,
                    version: version_for(x.version as u64, row) as i64,
                    deleted: false,
                },
            )
        } else {
            row
        },
        (None, Some(x)) => Some(RowModel { deleted: true, ..x }),
        (None, None) => None,
    }
}

/// Where the row of a document stands among the first `n`; the last one counts.
pub open spec fn row_at(rows: Seq<RowModel>, id: Seq<char>, n: int) -> Option<int>
    decreases n,
{
    if n <= 0 {
        None
    } else if rows[n - 1].concept_id == id {
        Some(n - 1)
    } else {
        row_at(rows, id, n - 1)
    }
}

/// The rows with `row` in place of the one of its document, or added.
pub open spec fn with_row(rows: Seq<RowModel>, row: RowModel) -> Seq<RowModel> {
    match row_at(rows, row.concept_id, rows.len() as int) {
        Some(k) => rows.update(k, row),
        None => rows.push(row),
    }
}

/// The rows once the first `n` listed documents were written.
pub open spec fn rows_written(
    docs: Seq<DocViewModel>,
    rows: Seq<RowModel>,
    cs: Seq<CatchupModel>,
    n: int,
) -> Seq<RowModel>
    decreases n,
{
    if n <= 0 {
        rows
    } else {
        let d = docs[cs[n - 1].index as int];
        with_row(
            rows_written(docs, rows, cs, n - 1),
            RowModel {
                concept_id: d.concept_id,
                content_id: d.content_id,
                version: cs[n - 1].version as i64,
                deleted: false,
            },
        )
    }
}

/// `now` once the first `n` listed rows of `rows` were marked as deleted.
pub open spec fn rows_buried(
    rows: Seq<RowModel>,
    now: Seq<RowModel>,
    ls: Seq<int>,
    n: int,
) -> Seq<RowModel>
    decreases n,
{
    if n <= 0 {
        now
    } else {
        with_row(
            rows_buried(rows, now, ls, n - 1),
            RowModel { deleted: true, ..rows[ls[n - 1]] },
        )
    }
}

/// The index once both lists were carried out.
pub open spec fn index_after(docs: Seq<DocViewModel>, rows: Seq<RowModel>) -> Seq<RowModel> {
    let cs = catchups(docs, rows, docs.len() as int);
    let ls = leftovers(docs, rows, rows.len() as int);
    rows_buried(rows, rows_written(docs, rows, cs, cs.len() as int), ls, ls.len() as int)
}

/// The live document `id` among the first `n`.
pub open spec fn live_doc(docs: Seq<DocViewModel>, id: Seq<char>, n: int) -> Option<DocViewModel>
    decreases n,
{
    if n <= 0 {
        None
    } else if docs[n - 1].concept_id == id {
        Some(docs[n - 1])
    } else {
        live_doc(docs, id, n - 1)
    }
}

/// No document is listed twice.
pub open spec fn distinct_docs(docs: Seq<DocViewModel>) -> bool {
    forall|i: int, j: int|
        0 <= i < j < docs.len() ==> (#[trigger] docs[i]).concept_id != (
        #[trigger] docs[j]).concept_id
}

proof fn lemma_row_at(rows: Seq<RowModel>, id: Seq<char>, n: int)
    requires
        0 <= n <= rows.len(),
    ensures
        match row_at(rows, id, n) {
            Some(k) => 0 <= k < n && rows[k].concept_id == id && row_for(rows, id, n) == Some(
                rows[k],
            ) && forall|j: int| k < j < n ==> (#[trigger] rows[j]).concept_id != id,
            None => row_for(rows, id, n) is None && forall|j: int|
                0 <= j < n ==> (#[trigger] rows[j]).concept_id != id,
        },
    decreases n,
{
    if n > 0 {
        lemma_row_at(rows, id, n - 1);
    }
}

/// A row that was put is there; those of other documents stay.
proof fn lemma_with_row(rows: Seq<RowModel>, row: RowModel, id: Seq<char>)
    ensures
        row_for(with_row(rows, row), id, with_row(rows, row).len() as int) == if id
            == row.concept_id {
            Some(row)
        } else {
            row_for(rows, id, rows.len() as int)
        },
{
    let new = with_row(rows, row);
    lemma_row_at(rows, row.concept_id, rows.len() as int);
    lemma_row_at(rows, id, rows.len() as int);
    lemma_row_at(new, id, new.len() as int);
    match row_at(rows, row.concept_id, rows.len() as int) {
        Some(k) => {
            assert(new[k] == row);
            match row_at(new, id, new.len() as int) {
                Some(j) => {
                    if id == row.concept_id {
                        if j != k {
                            assert(new[j] == rows[j]);
                        }
                    } else {
                        assert(new[j] == rows[j]);
                        let j0 = row_at(rows, id, rows.len() as int)->0;
                        if j < j0 {
                            assert(new[j0] == rows[j0]);
                        }
                    }
                },
                None => {
                    if id != row.concept_id {
                        match row_at(rows, id, rows.len() as int) {
                            Some(j0) => {
                                assert(new[j0] == rows[j0]);
                            },
                            None => {},
                        }
                    }
                },
            }
        },
        None => {
            assert(new.drop_last() =~= rows);
            lemma_row_prefix(rows, new, id, rows.len() as int);
        },
    }
}

proof fn lemma_row_prefix(rows: Seq<RowModel>, more: Seq<RowModel>, id: Seq<char>, n: int)
    requires
        0 <= n <= rows.len() <= more.len(),
        forall|i: int| 0 <= i < rows.len() ==> #[trigger] more[i] == rows[i],
    ensures
        row_for(more, id, n) == row_for(rows, id, n),
    decreases n,
{
    if n > 0 {
        lemma_row_prefix(rows, more, id, n - 1);
        assert(more[n - 1] == rows[n - 1]);
    }
}

proof fn lemma_written_prefix(
    docs: Seq<DocViewModel>,
    rows: Seq<RowModel>,
    cs: Seq<CatchupModel>,
    c: CatchupModel,
    n: int,
)
    requires
        0 <= n <= cs.len(),
    ensures
        rows_written(docs, rows, cs.push(c), n) == rows_written(docs, rows, cs, n),
    decreases n,
{
    if n > 0 {
        lemma_written_prefix(docs, rows, cs, c, n - 1);
        assert(cs.push(c)[n - 1] == cs[n - 1]);
    }
}

proof fn lemma_buried_prefix(
    rows: Seq<RowModel>,
    now: Seq<RowModel>,
    ls: Seq<int>,
    l: int,
    n: int,
)
    requires
        0 <= n <= ls.len(),
    ensures
        rows_buried(rows, now, ls.push(l), n) == rows_buried(rows, now, ls, n),
    decreases n,
{
    if n > 0 {
        lemma_buried_prefix(rows, now, ls, l, n - 1);
        assert(ls.push(l)[n - 1] == ls[n - 1]);
    }
}

proof fn lemma_live_doc(docs: Seq<DocViewModel>, id: Seq<char>, n: int)
    requires
        0 <= n <= docs.len(),
    ensures
        match live_doc(docs, id, n) {
            Some(d) => d.concept_id == id && exists|i: int|
                0 <= i < n && #[trigger] docs[i] == d,
            None => forall|i: int| 0 <= i < n ==> (#[trigger] docs[i]).concept_id != id,
        },
    decreases n,
{
    if n > 0 {
        lemma_live_doc(docs, id, n - 1);
    }
}

/// Writing the first `n` documents on which the index is behind.
proof fn lemma_rows_written(
    docs: Seq<DocViewModel>,
    rows: Seq<RowModel>,
    n: int,
    id: Seq<char>,
)
    requires
        0 <= n <= docs.len(),
        distinct_docs(docs),
    ensures
        ({
            let cs = catchups(docs, rows, n);
            let now = rows_written(docs, rows, cs, cs.len() as int);
            let row = row_for(rows, id, rows.len() as int);
            let d = live_doc(docs, id, n);
            row_for(now, id, now.len() as int) == if d is Some {
                caught_up(d, row)
            } else {
                row
            }
        }),
    decreases n,
{
    if n > 0 {
        lemma_rows_written(docs, rows, n - 1, id);
        lemma_live_doc(docs, id, n - 1);
        let x = docs[n - 1];
        let was = row_for(rows, x.concept_id, rows.len() as int);
        let cs = catchups(docs, rows, n - 1);
        let now = rows_written(docs, rows, cs, cs.len() as int);
        if is_behind(x, was) {
            let c = CatchupModel {
                index: (n - 1) as nat,
                version: version_for(x.version as u64, was),
                base: base_of(was),
            };
            lemma_written_prefix(docs, rows, cs, c, cs.len() as int);
            assert(cs.push(c)[cs.len() as int] == c);
            lemma_with_row(
                now,
                RowModel {
                    concept_id: x.concept_id,
                    content_id: x.content_id,
                    version: c.version as i64,
                    deleted: false,
                },
                id,
            );
        }
        if x.concept_id == id && live_doc(docs, id, n - 1) is Some {
            let i = choose|i: int|
                0 <= i < n - 1 && #[trigger] docs[i] == live_doc(docs, id, n - 1)->0;
            assert(docs[i].concept_id != docs[n - 1].concept_id);
        }
    }
}

/// Marking those of the first `n` rows that stand for documents that are gone.
proof fn lemma_rows_buried(
    docs: Seq<DocViewModel>,
    rows: Seq<RowModel>,
    now: Seq<RowModel>,
    n: int,
    id: Seq<char>,
)
    requires
        0 <= n <= rows.len(),
    ensures
        ({
            let ls = leftovers(docs, rows, n);
            let end = rows_buried(rows, now, ls, ls.len() as int);
            let k = row_at(rows, id, rows.len() as int);
            row_for(end, id, end.len() as int) == if k is Some && k->0 < n && !rows[k->0].deleted
                && !is_live(docs, id) {
                Some(RowModel { deleted: true, ..rows[k->0] })
            } else {
                row_for(now, id, now.len() as int)
            }
        }),
    decreases n,
{
    lemma_row_at(rows, id, rows.len() as int);
    if n > 0 {
        lemma_rows_buried(docs, rows, now, n - 1, id);
        let ls = leftovers(docs, rows, n - 1);
        let end = rows_buried(rows, now, ls, ls.len() as int);
        let x = rows[n - 1];
        let k = row_at(rows, id, rows.len() as int);
        if is_last(rows, n - 1) && !x.deleted && !is_live(docs, x.concept_id) {
            lemma_buried_prefix(rows, now, ls, n - 1, ls.len() as int);
            assert(ls.push(n - 1)[ls.len() as int] == n - 1);
            lemma_with_row(end, RowModel { deleted: true, ..x }, id);
            if x.concept_id == id {
                if k->0 > n - 1 {
                    assert(rows[k->0].concept_id != rows[n - 1].concept_id);
                }
                assert(k == Some(n - 1));
            }
        } else if k == Some(n - 1) {
            assert(is_last(rows, n - 1)) by {
                assert forall|j: int| n - 1 < j < rows.len() implies (
                #[trigger] rows[j]).concept_id != rows[n - 1].concept_id by {}
            }
        }
    }
}

/// Carrying out both lists leaves each document the row that it should have.
pub proof fn law_lists_bring_the_index_in_line(
    docs: Seq<DocViewModel>,
    rows: Seq<RowModel>,
    id: Seq<char>,
)
    requires
        distinct_docs(docs),
    ensures
        row_for(index_after(docs, rows), id, index_after(docs, rows).len() as int) == caught_up(
            live_doc(docs, id, docs.len() as int),
            row_for(rows, id, rows.len() as int),
        ),
{
    let cs = catchups(docs, rows, docs.len() as int);
    let now = rows_written(docs, rows, cs, cs.len() as int);
    lemma_rows_written(docs, rows, docs.len() as int, id);
    lemma_rows_buried(docs, rows, now, rows.len() as int, id);
    lemma_live_doc(docs, id, docs.len() as int);
    lemma_row_at(rows, id, rows.len() as int);
    match live_doc(docs, id, docs.len() as int) {
        Some(d) => {
            let i = choose|i: int| 0 <= i < docs.len() && #[trigger] docs[i] == d;
            assert(is_live(docs, id));
        },
        None => {
            match row_at(rows, id, rows.len() as int) {
                Some(k) => {
                    if rows[k].deleted {
                        assert(rows[k] == (RowModel { deleted: true, ..rows[k] }));
                    }
                },
                None => {},
            }
        },
    }
}

proof fn lemma_no_catchups(docs: Seq<DocViewModel>, rows: Seq<RowModel>, n: int)
    requires
        0 <= n <= docs.len(),
        forall|i: int|
            0 <= i < docs.len() ==> !is_behind(
                #[trigger] docs[i],
                row_for(rows, docs[i].concept_id, rows.len() as int),
            ),
    ensures
        catchups(docs, rows, n) == Seq::<CatchupModel>::empty(),
    decreases n,
{
    if n > 0 {
        lemma_no_catchups(docs, rows, n - 1);
        assert(!is_behind(
            docs[n - 1],
            row_for(rows, docs[n - 1].concept_id, rows.len() as int),
        ));
    }
}

proof fn lemma_no_leftovers(docs: Seq<DocViewModel>, rows: Seq<RowModel>, n: int)
    requires
        0 <= n <= rows.len(),
        forall|i: int|
            0 <= i < rows.len() && !is_live(docs, (#[trigger] rows[i]).concept_id) && is_last(
                rows,
                i,
            ) ==> rows[i].deleted,
    ensures
        leftovers(docs, rows, n) == Seq::<int>::empty(),
    decreases n,
{
    if n > 0 {
        lemma_no_leftovers(docs, rows, n - 1);
        assert(rows[n - 1] == rows[n - 1]);
    }
}

/// Once in line, the index is behind on nothing and has no live row without a
/// document: both lists are empty.
pub proof fn law_catching_up_settles(docs: Seq<DocViewModel>, rows: Seq<RowModel>)
    requires
        distinct_docs(docs),
    ensures
        ({
            let after = index_after(docs, rows);
            &&& catchups(docs, after, docs.len() as int) == Seq::<CatchupModel>::empty()
            &&& leftovers(docs, after, after.len() as int) == Seq::<int>::empty()
        }),
{
    let after = index_after(docs, rows);
    assert forall|i: int| 0 <= i < docs.len() implies !is_behind(
        #[trigger] docs[i],
        row_for(after, docs[i].concept_id, after.len() as int),
    ) by {
        let id = docs[i].concept_id;
        law_lists_bring_the_index_in_line(docs, rows, id);
        lemma_live_doc(docs, id, docs.len() as int);
        let d = live_doc(docs, id, docs.len() as int)->0;
        let j = choose|j: int| 0 <= j < docs.len() && #[trigger] docs[j] == d;
        if i < j {
            assert(docs[i].concept_id != docs[j].concept_id);
        } else if j < i {
            assert(docs[j].concept_id != docs[i].concept_id);
        }
    }
    lemma_no_catchups(docs, after, docs.len() as int);
    assert forall|i: int|
        0 <= i < after.len() && !is_live(docs, (#[trigger] after[i]).concept_id) && is_last(
            after,
            i,
        ) implies after[i].deleted by {
        let id = after[i].concept_id;
        law_lists_bring_the_index_in_line(docs, rows, id);
        lemma_live_doc(docs, id, docs.len() as int);
        lemma_row_at(after, id, after.len() as int);
        let k = row_at(after, id, after.len() as int)->0;
        if k > i {
            assert(after[k].concept_id != after[i].concept_id);
        }
    }
    lemma_no_leftovers(docs, after, after.len() as int);
}

/// No live document is ever taken for a deleted one, however many there are.
pub proof fn law_live_documents_are_not_deleted(
    docs: Seq<DocViewModel>,
    rows: Seq<RowModel>,
    n: int,
    k: int,
)
    requires
        0 <= n <= rows.len(),
        0 <= k < leftovers(docs, rows, n).len(),
    ensures
        0 <= leftovers(docs, rows, n)[k] < n,
        !is_live(docs, rows[leftovers(docs, rows, n)[k]].concept_id),
        !rows[leftovers(docs, rows, n)[k]].deleted,
    decreases n,
{
    if n > 0 {
        let before = leftovers(docs, rows, n - 1);
        if k < before.len() {
            law_live_documents_are_not_deleted(docs, rows, n - 1, k);
        }
    }
}

} // verus!

//! A repository of files as the place of documents: paths, contents, and how
//! the state is read from files and commit messages.

use base64::Engine;
use vstd::prelude::*;
use vstd::utf8::{decode_utf8, encode_utf8, valid_utf8};
use crate::memory::default_budget;
use crate::model::{
    id_error, lemma_valid_id, valid_id, Budget, ConceptId, Principal, PrincipalModel, Revision,
    RevisionModel,
};
use crate::okf::{parse_document, parsed};
use crate::plan::{in_order, insert_sorted, sorted_to, Ranked};
use crate::repo::Answer;
use crate::snapshot::{
    after, decided, lemma_live_put, live_model, live_ok, with_write, write_outcome, DecidedCommit,
    DecidedModel, LiveDoc, LiveModel, Snapshot, SnapshotModel,
};
use crate::store::{
    BulkItem, BulkItemModel, BulkModel, BulkOutcome, CommitRequest, DocViewModel, OutcomeModel,
    RequestModel, StoreError, StoreErrorModel,
};
use crate::table::{del, lookup, present, put, Dup, Table};
use crate::text::{
    at, chars_of, find_char, find_char_of, is_white, joined, lemma_views_push, opt_view, part_from,
    part_to, push_dec, dec, res_view, string_of, strip_prefix, strip_prefix_of, strip_suffix,
    strip_suffix_of, trim_char, trim_char_of, utf8_complaint, utf8_len, utf8_text, views, white,
};
use crate::trailer::{
    encode_rev, read_trailers, trailer_text, trailers, RevOp, Trailer, TrailerModel,
};

verus! {

// ---------------------------------------------------------------------
// Contents
// ---------------------------------------------------------------------

/// Bytes in the standard base64 alphabet, with padding.
pub uninterp spec fn b64_text(bytes: Seq<u8>) -> Seq<char>;

/// The bytes that a base64 text stands for, or what is wrong with it.
pub uninterp spec fn b64_bytes(text: Seq<char>) -> Result<Seq<u8>, Seq<char>>;

/// A character of the standard base64 alphabet, or padding.
pub open spec fn is_b64_char(c: char) -> bool {
    ('A' <= c && c <= 'Z') || ('a' <= c && c <= 'z') || ('0' <= c && c <= '9') || c == '+' || c
        == '/' || c == '='
}

/// `Engine::encode` of `base64::engine::general_purpose::STANDARD`. Its result
/// depends on the bytes alone, holds only characters of the alphabet and
/// padding, and decodes to the bytes. Which text it is beyond that is left
/// unsaid. It panics where the length of the text does not fit the machine.
#[verifier::external_body]
fn encode64(bytes: &[u8]) -> (r: String)
    requires
        bytes@.len() < usize::MAX / 2,
    ensures
        r@ == b64_text(bytes@),
        b64_bytes(r@) is Ok && b64_bytes(r@)->Ok_0 == bytes@,
        forall|i: int| 0 <= i < r@.len() ==> is_b64_char(#[trigger] r@[i]),
{
    base64::engine::general_purpose::STANDARD.encode(bytes)
}

/// `Engine::decode` of `base64::engine::general_purpose::STANDARD`, with its
/// error as text. Its result depends on the text alone; which bytes it gives,
/// beyond what is said of encoding, is left unsaid.
#[verifier::external_body]
fn decode64(text: &str) -> (r: Result<Vec<u8>, String>)
    ensures
        res_view(r) == b64_bytes(text@),
{
    base64::engine::general_purpose::STANDARD.decode(text).map_err(|e| e.to_string())
}

/// The first `n` characters without white space.
pub open spec fn compact_to(s: Seq<char>, n: int) -> Seq<char>
    decreases n,
{
    if n <= 0 {
        Seq::empty()
    } else if is_white(s[n - 1]) {
        compact_to(s, n - 1)
    } else {
        compact_to(s, n - 1).push(s[n - 1])
    }
}

/// The text of a file from what the service sends.
pub open spec fn content_in(s: Seq<char>) -> Answer<Seq<char>> {
    match b64_bytes(compact_to(s, s.len() as int)) {
        Err(m) => Err(StoreErrorModel::Backend("base64 inválido de la API: "@ + m)),
        Ok(b) => if valid_utf8(b) {
            Ok(decode_utf8(b))
        } else {
            Err(StoreErrorModel::Backend("contenido no UTF-8: "@ + utf8_complaint(b)))
        },
    }
}

proof fn lemma_nothing_to_compact(s: Seq<char>, n: int)
    requires
        0 <= n <= s.len(),
        forall|i: int| 0 <= i < s.len() ==> is_b64_char(#[trigger] s[i]),
    ensures
        compact_to(s, n) == s.take(n),
    decreases n,
{
    if n > 0 {
        lemma_nothing_to_compact(s, n - 1);
        assert(is_b64_char(s[n - 1]));
        assert(!is_white(s[n - 1]));
        assert(s.take(n) =~= s.take(n - 1).push(s[n - 1]));
    } else {
        assert(s.take(0) =~= Seq::empty());
    }
}

/// A text as it is sent to the service. What comes back of it is the text.
pub fn b64(s: &str) -> (r: String)
    requires
        utf8_len(s@) < usize::MAX / 2,
    ensures
        r@ == b64_text(encode_utf8(s@)),
        content_in(r@) == Ok::<Seq<char>, StoreErrorModel>(s@),
{
    broadcast use {vstd::utf8::encode_utf8_valid_utf8, vstd::utf8::encode_utf8_decode_utf8};

    let r = encode64(s.as_bytes());
    proof {
        lemma_nothing_to_compact(r@, r@.len() as int);
        assert(r@.take(r@.len() as int) =~= r@);
    }
    r
}

/// A text as it comes from the service, in lines or not.
pub fn from_b64(s: &str) -> (r: Result<String, StoreError>)
    ensures
        res_view(r) == content_in(s@),
{
    let chars = chars_of(s);
    let mut kept: Vec<char> = Vec::new();
    let mut i: usize = 0;
    while i < chars.len()
        invariant
            i <= chars.len(),
            chars@ == s@,
            kept@ == compact_to(s@, i as int),
        decreases chars.len() - i,
    {
        if !white(chars[i]) {
            kept.push(chars[i]);
        }
        i += 1;
    }
    let compact = string_of(kept.as_slice());
    let bytes = match decode64(compact.as_str()) {
        Ok(b) => b,
        Err(e) => {
            let mut m = "base64 inválido de la API: ".to_owned();
            m.push_str(e.as_str());
            return Err(StoreError::Backend(m));
        },
    };
    match utf8_text(bytes) {
        Ok(t) => Ok(t),
        Err(e) => {
            let mut m = "contenido no UTF-8: ".to_owned();
            m.push_str(e.as_str());
            Err(StoreError::Backend(m))
        },
    }
}

// ---------------------------------------------------------------------
// Places
// ---------------------------------------------------------------------

/// Where the documents are.
#[derive(Debug, PartialEq, Eq)]
pub struct Layout {
    api_base: String,
    owner: String,
    repo: String,
    branch: String,
    base_path: String,
}

/// Mathematical counterpart of [`Layout`].
pub struct LayoutModel {
    pub api_base: Seq<char>,
    pub owner: Seq<char>,
    pub repo: Seq<char>,
    pub branch: Seq<char>,
    /// The directory of the documents, without slashes around it; empty for
    /// the root.
    pub base_path: Seq<char>,
}

impl View for Layout {
    type V = LayoutModel;

    closed spec fn view(&self) -> LayoutModel {
        LayoutModel {
            api_base: self.api_base@,
            owner: self.owner@,
            repo: self.repo@,
            branch: self.branch@,
            base_path: self.base_path@,
        }
    }
}

/// The owner and the name in `owner/name`.
pub open spec fn owner_and_repo(full: Seq<char>) -> Answer<(Seq<char>, Seq<char>)> {
    match find_char(full, '/') {
        Some(k) => Ok((full.take(k), full.skip(k + 1))),
        None => Err(
            StoreErrorModel::Backend(
                "GITHUB_REPO debe tener formato owner/repo, recibido: "@ + full,
            ),
        ),
    }
}

pub fn split_repo(full: &str) -> (r: Result<(String, String), StoreError>)
    ensures
        match r {
            Ok((o, n)) => owner_and_repo(full@) == Ok::<_, StoreErrorModel>((o@, n@)),
            Err(e) => owner_and_repo(full@) == Err::<(Seq<char>, Seq<char>), _>(e@),
        },
{
    let chars = chars_of(full);
    let count = chars.len();
    match find_char_of(chars.as_slice(), '/') {
        Some(k) => Ok(
            (
                string_of(part_to(chars.as_slice(), k)),
                string_of(part_from(chars.as_slice(), k + 1)),
            ),
        ),
        None => {
            let mut m = "GITHUB_REPO debe tener formato owner/repo, recibido: ".to_owned();
            m.push_str(full);
            Err(StoreError::Backend(m))
        },
    }
}

/// The file of a document.
pub open spec fn file_of(base: Seq<char>, id: Seq<char>) -> Seq<char> {
    if base.len() == 0 {
        id + ".md"@
    } else {
        base + "/"@ + id + ".md"@
    }
}

/// What stands in a path below a directory.
pub open spec fn below(base: Seq<char>, path: Seq<char>) -> Option<Seq<char>> {
    if base.len() == 0 {
        Some(path)
    } else {
        match strip_prefix(path, base) {
            None => None,
            Some(t) => strip_prefix(t, "/"@),
        }
    }
}

/// The document that a file holds, by its path.
pub open spec fn concept_at(base: Seq<char>, path: Seq<char>) -> Option<Seq<char>> {
    match below(base, path) {
        None => None,
        Some(rel) => match strip_suffix(rel, ".md"@) {
            None => None,
            Some(id) => if id_error(id) is None {
                Some(id)
            } else {
                None
            },
        },
    }
}

/// The file of a document is a file of that document.
pub proof fn law_files_lead_back(base: Seq<char>, id: Seq<char>)
    requires
        valid_id(id),
    ensures
        concept_at(base, file_of(base, id)) == Some(id),
{
    let path = file_of(base, id);
    let name = id + ".md"@;
    lemma_valid_id(id);
    if base.len() > 0 {
        assert(path.subrange(0, base.len() as int) =~= base);
        let rest = path.skip(base.len() as int);
        assert(rest =~= "/"@ + name);
        assert(rest.subrange(0, "/"@.len() as int) =~= "/"@);
        assert(rest.skip("/"@.len() as int) =~= name);
    } else {
        assert(path =~= name);
    }
    assert(below(base, path) == Some(name));
    assert(name.subrange(name.len() - ".md"@.len(), name.len() as int) =~= ".md"@);
    assert(name.take(name.len() - ".md"@.len()) =~= id);
}

impl Layout {
    /// Documents of a branch of a repository under a directory.
    pub fn new(
        api_base: String,
        owner: String,
        repo: String,
        branch: String,
        base_path: &str,
    ) -> (r: Layout)
        ensures
            r@ == (LayoutModel {
                api_base: api_base@,
                owner: owner@,
                repo: repo@,
                branch: branch@,
                base_path: trim_char(base_path@, '/'),
            }),
    {
        let chars = chars_of(base_path);
        let base_path = string_of(trim_char_of(chars.as_slice(), '/'));
        Layout { api_base, owner, repo, branch, base_path }
    }

    pub fn branch(&self) -> (r: &str)
        ensures
            r@ == self@.branch,
    {
        self.branch.as_str()
    }

    /// An address of the service.
    pub fn url(&self, rest: &str) -> (r: String)
        ensures
            r@ == self@.api_base + "/repos/"@ + self@.owner + "/"@ + self@.repo + "/"@ + rest@,
    {
        let mut out = self.api_base.clone();
        out.push_str("/repos/");
        out.push_str(self.owner.as_str());
        out.push_str("/");
        out.push_str(self.repo.as_str());
        out.push_str("/");
        out.push_str(rest);
        out
    }

    /// The file of a document.
    pub fn doc_path(&self, id: &ConceptId) -> (r: String)
        ensures
            r@ == file_of(self@.base_path, id@),
    {
        let mut out = String::new();
        if !self.base_path.as_str().is_empty() {
            out.push_str(self.base_path.as_str());
            out.push_str("/");
        }
        out.push_str(id.as_str());
        out.push_str(".md");
        assert(out@ =~= file_of(self@.base_path, id@));
        out
    }

    /// The document that a file holds, by its path.
    pub fn path_to_concept(&self, path: &str) -> (r: Option<ConceptId>)
        ensures
            opt_view(r) == concept_at(self@.base_path, path@),
    {
        let chars = chars_of(path);
        let rel = if self.base_path.as_str().is_empty() {
            chars.as_slice()
        } else {
            match strip_prefix_of(chars.as_slice(), self.base_path.as_str()) {
                None => {
                    return None;
                },
                Some(t) => match strip_prefix_of(t, "/") {
                    None => {
                        return None;
                    },
                    Some(t) => t,
                },
            }
        };
        match strip_suffix_of(rel, ".md") {
            None => None,
            Some(t) => {
                let name = string_of(t);
                proof {
                    lemma_valid_id(name@);
                }
                match ConceptId::parse(name.as_str()) {
                    Ok(id) => Some(id),
                    Err(_) => None,
                }
            },
        }
    }
}

// ---------------------------------------------------------------------
// Reading the state
// ---------------------------------------------------------------------

impl Ranked for Trailer {
    open spec fn goes_before(a: TrailerModel, b: TrailerModel) -> bool {
        a.revision.seq < b.revision.seq
    }

    fn is_before(&self, other: &Trailer) -> (r: bool) {
        self.revision.seq < other.revision.seq
    }
}

/// What was read of a repository so far: documents and revisions.
pub struct Draft {
    live: Table<LiveDoc>,
    entries: Vec<Trailer>,
}

/// Mathematical counterpart of [`Draft`].
pub struct DraftModel {
    pub live: Seq<(Seq<char>, LiveModel)>,
    /// In the order in which they were read.
    pub entries: Seq<TrailerModel>,
}

impl View for Draft {
    type V = DraftModel;

    closed spec fn view(&self) -> DraftModel {
        DraftModel { live: self.live@, entries: views(self.entries@) }
    }
}

/// A file is read; one that is no document is left out.
pub open spec fn with_file(
    d: DraftModel,
    id: Seq<char>,
    raw: Seq<char>,
    file_sha: Seq<char>,
) -> DraftModel {
    match parsed(raw, default_budget()) {
        Err(_) => d,
        Ok(doc) => DraftModel {
            live: put(d.live, id, live_model(id, raw, doc, 1, file_sha)),
            ..d
        },
    }
}

/// The last of the first `n` entries with a number, which says what the
/// revision did.
pub open spec fn said_of(entries: Seq<TrailerModel>, seq: nat, n: int) -> Option<TrailerModel>
    decreases n,
{
    if n <= 0 {
        None
    } else if entries[n - 1].revision.seq == seq {
        Some(entries[n - 1])
    } else {
        said_of(entries, seq, n - 1)
    }
}

/// Versions and deletions that a history leads to.
pub struct Standings {
    pub versions: Seq<(Seq<char>, u64)>,
    pub deleted: Seq<(Seq<char>, u64)>,
}

pub open spec fn with_revision(s: Standings, id: Seq<char>, said: Option<TrailerModel>) -> Standings {
    match said {
        None => s,
        Some(t) => match t.op {
            RevOp::Commit => Standings {
                versions: put(s.versions, id, t.version),
                deleted: del(s.deleted, id),
            },
            RevOp::Delete => Standings { deleted: put(s.deleted, id, 0), ..s },
        },
    }
}

/// The first `n` revisions, in order.
pub open spec fn folded(sorted: Seq<TrailerModel>, entries: Seq<TrailerModel>, n: int) -> Standings
    decreases n,
{
    if n <= 0 {
        Standings { versions: Seq::empty(), deleted: Seq::empty() }
    } else {
        let rev = sorted[n - 1].revision;
        with_revision(
            folded(sorted, entries, n - 1),
            rev.concept_id,
            said_of(entries, rev.seq, entries.len() as int),
        )
    }
}

/// A document under the version that the history gives it, if any.
pub open spec fn refined(d: LiveModel, version: Option<u64>) -> LiveModel {
    match version {
        Some(v) => LiveModel { doc: DocViewModel { version: v as nat, ..d.doc }, ..d },
        None => d,
    }
}

pub open spec fn refined_all(
    live: Seq<(Seq<char>, LiveModel)>,
    versions: Seq<(Seq<char>, u64)>,
) -> Seq<(Seq<char>, LiveModel)> {
    Seq::<(Seq<char>, LiveModel)>::new(
        live.len(),
        |i: int| (live[i].0, refined(live[i].1, lookup(versions, live[i].0))),
    )
}

/// The last versions of the first `n` deleted documents; a file that is there
/// counts for more.
pub open spec fn gone_to(
    live: Seq<(Seq<char>, LiveModel)>,
    s: Standings,
    n: int,
) -> Seq<(Seq<char>, u64)>
    decreases n,
{
    if n <= 0 {
        Seq::empty()
    } else {
        let id = s.deleted[n - 1].0;
        if present(live, id) {
            gone_to(live, s, n - 1)
        } else {
            put(
                gone_to(live, s, n - 1),
                id,
                match lookup(s.versions, id) {
                    Some(v) => v,
                    None => 0,
                },
            )
        }
    }
}

/// The revisions of some entries.
pub open spec fn revisions_of(sorted: Seq<TrailerModel>) -> Seq<RevisionModel> {
    Seq::new(sorted.len(), |i: int| sorted[i].revision)
}

pub open spec fn next_after(sorted: Seq<TrailerModel>) -> u64 {
    if sorted.len() == 0 {
        1
    } else {
        after(sorted.last().revision.seq)
    }
}

/// The state that files and messages make up.
pub open spec fn built(d: DraftModel, head_sha: Seq<char>) -> SnapshotModel {
    let sorted = in_order::<Trailer>(d.entries);
    let s = folded(sorted, d.entries, sorted.len() as int);
    SnapshotModel {
        head_sha,
        live: refined_all(d.live, s.versions),
        gone: gone_to(d.live, s, s.deleted.len() as int),
        revisions: revisions_of(sorted),
        next_seq: next_after(sorted),
    }
}

struct Tables {
    versions: Table<u64>,
    deleted: Table<u64>,
}

impl View for Tables {
    type V = Standings;

    closed spec fn view(&self) -> Standings {
        Standings { versions: self.versions@, deleted: self.deleted@ }
    }
}

fn find_said(entries: &Vec<Trailer>, seq: u64) -> (r: Option<(RevOp, u64)>)
    ensures
        match said_of(views(entries@), seq as nat, entries@.len() as int) {
            Some(t) => r == Some((t.op, t.version)),
            None => r is None,
        },
{
    let ghost all = views(entries@);
    let mut n: usize = entries.len();
    while n > 0
        invariant
            n <= entries.len(),
            all == views(entries@),
            said_of(all, seq as nat, entries@.len() as int) == said_of(all, seq as nat, n as int),
        decreases n,
    {
        assert(all[n - 1] == entries@[n - 1]@);
        if entries[n - 1].revision.seq == seq {
            return Some((entries[n - 1].op, entries[n - 1].version));
        }
        n -= 1;
    }
    None
}

fn fold_history(sorted: &Vec<Trailer>, entries: &Vec<Trailer>) -> (r: Tables)
    ensures
        r@ == folded(views(sorted@), views(entries@), sorted@.len() as int),
{
    let ghost all = views(sorted@);
    let ghost said = views(entries@);
    let mut t = Tables { versions: Table::new(), deleted: Table::new() };
    let mut i: usize = 0;
    while i < sorted.len()
        invariant
            i <= sorted.len(),
            all == views(sorted@),
            said == views(entries@),
            t@ == folded(all, said, i as int),
        decreases sorted.len() - i,
    {
        assert(all[i as int] == sorted@[i as int]@);
        let rev = &sorted[i].revision;
        match find_said(entries, rev.seq) {
            Some((RevOp::Commit, version)) => {
                t.versions.insert(rev.concept_id.as_str().to_owned(), version);
                t.deleted.remove(rev.concept_id.as_str());
            },
            Some((RevOp::Delete, _)) => {
                t.deleted.insert(rev.concept_id.as_str().to_owned(), 0);
            },
            None => {},
        }
        i += 1;
    }
    t
}

fn refine(live: &mut Table<LiveDoc>, versions: &Table<u64>)
    ensures
        final(live)@ == refined_all(old(live)@, versions@),
{
    let ghost before = live@;
    let n = live.len();
    let mut i: usize = 0;
    while i < n
        invariant
            i <= n,
            n == before.len(),
            live@.len() == n,
            forall|k: int| 0 <= k < i ==> #[trigger] live@[k] == refined_all(before, versions@)[k],
            forall|k: int| i <= k < n ==> #[trigger] live@[k] == before[k],
        decreases n - i,
    {
        let found = versions.get(live.key(i));
        match found {
            Some(v) => {
                let d = live.value(i).dup().with_version(*v);
                live.set_value(i, d);
            },
            None => {},
        }
        i += 1;
    }
    assert(live@ =~= refined_all(before, versions@));
}

fn bury(live: &Table<LiveDoc>, t: &Tables) -> (r: Table<u64>)
    ensures
        r@ == gone_to(live@, t@, t@.deleted.len() as int),
{
    let mut out: Table<u64> = Table::new();
    let n = t.deleted.len();
    let mut i: usize = 0;
    while i < n
        invariant
            i <= n,
            n == t.deleted@.len(),
            out@ == gone_to(live@, t@, i as int),
        decreases n - i,
    {
        let id = t.deleted.key(i);
        if !live.contains(id) {
            let version: u64 = match t.versions.get(id) {
                Some(v) => *v,
                None => 0,
            };
            out.insert(id.to_owned(), version);
        }
        i += 1;
    }
    out
}

fn sort_entries(entries: &Vec<Trailer>) -> (r: Vec<Trailer>)
    ensures
        views(r@) == in_order::<Trailer>(views(entries@)),
{
    let ghost all = views(entries@);
    let mut out: Vec<Trailer> = Vec::new();
    assert(views(out@) =~= Seq::empty());
    let mut i: usize = 0;
    while i < entries.len()
        invariant
            i <= entries.len(),
            all == views(entries@),
            views(out@) == sorted_to::<Trailer>(all, i as int),
        decreases entries.len() - i,
    {
        assert(all[i as int] == entries@[i as int]@);
        let e = Trailer {
            op: entries[i].op,
            revision: entries[i].revision.clone(),
            version: entries[i].version,
        };
        insert_sorted(&mut out, e);
        i += 1;
    }
    out
}

impl Draft {
    #[verifier::type_invariant]
    closed spec fn inv(self) -> bool {
        live_ok(self.live@)
    }

    /// Before anything was read.
    pub fn new() -> (r: Draft)
        ensures
            r@ == (DraftModel { live: Seq::empty(), entries: Seq::empty() }),
    {
        let entries: Vec<Trailer> = Vec::new();
        assert(views(entries@) =~= Seq::empty());
        Draft { live: Table::new(), entries }
    }

    /// Reads a file; one that is no document is left out.
    pub fn add_file(self, id: ConceptId, raw: String, file_sha: String) -> (r: Draft)
        ensures
            r@ == with_file(self@, id@, raw@, file_sha@),
    {
        proof {
            use_type_invariant(&self);
        }
        let doc = match parse_document(raw.as_str(), &Budget::default()) {
            Ok(d) => d,
            Err(_) => {
                return self;
            },
        };
        let Draft { mut live, entries } = self;
        let count = live.len();
        let key = id.as_str().to_owned();
        let entry = LiveDoc::new(id, raw, doc, 1, file_sha);
        proof {
            lemma_live_put(live@, key@, entry@);
        }
        live.insert(key, entry);
        Draft { live, entries }
    }

    /// Reads the revisions in a commit message.
    pub fn add_message(self, message: &str) -> (r: Draft)
        ensures
            r@ == (DraftModel { entries: self@.entries + trailers(message@), ..self@ }),
    {
        proof {
            use_type_invariant(&self);
        }
        let Draft { live, mut entries } = self;
        let mut more = read_trailers(message);
        let ghost all = views(entries@) + views(more@);
        entries.append(&mut more);
        assert(views(entries@) =~= all);
        Draft { live, entries }
    }

    /// The state that files and messages make up.
    pub fn finish(self, head_sha: String) -> (r: Snapshot)
        ensures
            r@ == built(self@, head_sha@),
    {
        proof {
            use_type_invariant(&self);
        }
        let Draft { mut live, entries } = self;
        let sorted = sort_entries(&entries);
        let t = fold_history(&sorted, &entries);
        let gone = bury(&live, &t);
        let ghost before = live@;
        refine(&mut live, &t.versions);
        assert(live_ok(live@)) by {
            assert forall|i: int| 0 <= i < live@.len() implies (#[trigger] live@[i]).1.doc.concept_id
                == live@[i].0 by {
                assert(before[i].1.doc.concept_id == before[i].0);
            }
        }
        let ghost all = views(sorted@);
        let mut revisions: Vec<Revision> = Vec::new();
        let mut i: usize = 0;
        while i < sorted.len()
            invariant
                i <= sorted.len(),
                all == views(sorted@),
                revisions@.len() == i,
                forall|k: int| 0 <= k < i ==> (#[trigger] revisions@[k])@ == all[k].revision,
            decreases sorted.len() - i,
        {
            assert(all[i as int] == sorted@[i as int]@);
            revisions.push(sorted[i].revision.clone());
            i += 1;
        }
        assert(views(revisions@) =~= revisions_of(all));
        let count = sorted.len();
        let next_seq: u64 = if count == 0 {
            1
        } else {
            assert(all.last() == sorted@[count - 1]@);
            let last = sorted[count - 1].revision.seq;
            if last == u64::MAX {
                u64::MAX
            } else {
                last + 1
            }
        };
        Snapshot::assemble(head_sha, live, gone, revisions, next_seq)
    }
}

// ---------------------------------------------------------------------
// Atomic batches
// ---------------------------------------------------------------------

/// A file to be written as part of a batch.
#[derive(Debug, PartialEq, Eq)]
pub struct PendingFile {
    pub path: String,
    pub content: String,
    /// The line of its revision.
    pub trailer: String,
}

/// Mathematical counterpart of [`PendingFile`].
pub struct PendingModel {
    pub path: Seq<char>,
    pub content: Seq<char>,
    pub trailer: Seq<char>,
}

impl View for PendingFile {
    type V = PendingModel;

    open spec fn view(&self) -> PendingModel {
        PendingModel { path: self.path@, content: self.content@, trailer: self.trailer@ }
    }
}

/// A batch so far, on a copy of the state.
pub struct Trial {
    pub state: SnapshotModel,
    pub outcomes: Seq<OutcomeModel>,
    pub files: Seq<PendingModel>,
}

/// One more request of a batch, which sees what those before it did.
pub open spec fn tried_one(
    t: Trial,
    base: Seq<char>,
    req: RequestModel,
    actor: PrincipalModel,
    b: Budget,
) -> Answer<Trial> {
    match decided(t.state, req, actor, b) {
        Err(e) => Err(e),
        Ok(DecidedModel::NoChange(o)) => Ok(Trial { outcomes: t.outcomes.push(o), ..t }),
        Ok(DecidedModel::Write(w)) => Ok(
            Trial {
                state: with_write(t.state, req.markdown, w, Seq::empty()),
                outcomes: t.outcomes.push(write_outcome(w)),
                files: t.files.push(
                    PendingModel {
                        path: file_of(base, req.concept_id),
                        content: req.markdown,
                        trailer: trailer_text(RevOp::Commit, w.revision, w.version),
                    },
                ),
            },
        ),
    }
}

/// The first `n` requests, or the index and the failure of the first that
/// fails.
pub open spec fn tried(
    m: SnapshotModel,
    base: Seq<char>,
    reqs: Seq<RequestModel>,
    n: int,
    actor: PrincipalModel,
    b: Budget,
) -> Result<Trial, (int, StoreErrorModel)>
    decreases n,
{
    if n <= 0 {
        Ok(Trial { state: m, outcomes: Seq::empty(), files: Seq::empty() })
    } else {
        match tried(m, base, reqs, n - 1, actor, b) {
            Err(e) => Err(e),
            Ok(t) => match tried_one(t, base, reqs[n - 1], actor, b) {
                Err(e) => Err((n - 1, e)),
                Ok(next) => Ok(next),
            },
        }
    }
}

/// What is answered to an atomic batch, and the files to be written first.
/// Where a request fails, only it is reported as failed, and there is nothing
/// to write.
pub open spec fn batch_plan(
    m: SnapshotModel,
    base: Seq<char>,
    reqs: Seq<RequestModel>,
    actor: PrincipalModel,
    b: Budget,
) -> (BulkModel, Seq<PendingModel>) {
    match tried(m, base, reqs, reqs.len() as int, actor, b) {
        Ok(t) => (
            BulkModel {
                applied: true,
                items: Seq::new(t.outcomes.len(), |i: int| BulkItemModel::Done(t.outcomes[i])),
            },
            t.files,
        ),
        Err((k, e)) => (
            BulkModel {
                applied: false,
                items: Seq::new(
                    reqs.len(),
                    |i: int|
                        if i == k {
                            BulkItemModel::Failed(e)
                        } else {
                            BulkItemModel::Skipped
                        },
                ),
            },
            Seq::empty(),
        ),
    }
}

proof fn lemma_tried_stays_wrong(
    m: SnapshotModel,
    base: Seq<char>,
    reqs: Seq<RequestModel>,
    i: int,
    n: int,
    actor: PrincipalModel,
    b: Budget,
)
    requires
        0 <= i <= n,
        tried(m, base, reqs, i, actor, b) is Err,
    ensures
        tried(m, base, reqs, n, actor, b) == tried(m, base, reqs, i, actor, b),
    decreases n,
{
    if i < n {
        lemma_tried_stays_wrong(m, base, reqs, i, n - 1, actor, b);
    }
}

fn refuse_batch(total: usize, at: usize, e: StoreError) -> (r: BulkOutcome)
    requires
        at < total,
    ensures
        r@ == (BulkModel {
            applied: false,
            items: Seq::new(
                total as nat,
                |i: int|
                    if i == at {
                        BulkItemModel::Failed(e@)
                    } else {
                        BulkItemModel::Skipped
                    },
            ),
        }),
{
    let mut items: Vec<BulkItem> = Vec::new();
    let mut i: usize = 0;
    while i < total
        invariant
            i <= total,
            items@.len() == i,
            forall|k: int|
                0 <= k < i ==> (#[trigger] items@[k])@ == if k == at {
                    BulkItemModel::Failed(e@)
                } else {
                    BulkItemModel::Skipped
                },
        decreases total - i,
    {
        if i == at {
            items.push(BulkItem::Failed(e.clone()));
        } else {
            items.push(BulkItem::Skipped);
        }
        i += 1;
    }
    let r = BulkOutcome { applied: false, items };
    assert(r@.items =~= Seq::new(
        total as nat,
        |k: int|
            if k == at {
                BulkItemModel::Failed(e@)
            } else {
                BulkItemModel::Skipped
            },
    ));
    r
}

/// Plans an atomic batch on a copy of the state, without writing anything.
pub fn plan_batch(
    snap: &Snapshot,
    layout: &Layout,
    requests: &Vec<CommitRequest>,
    actor: &Principal,
    budget: &Budget,
) -> (r: (BulkOutcome, Vec<PendingFile>))
    ensures
        (r.0@, views(r.1@)) == batch_plan(
            snap@,
            layout@.base_path,
            views(requests@),
            actor@,
            *budget,
        ),
{
    let ghost m = snap@;
    let ghost base = layout@.base_path;
    let ghost reqs = views(requests@);
    let ghost who = actor@;
    let mut cur = snap.dup();
    let mut items: Vec<BulkItem> = Vec::new();
    let mut files: Vec<PendingFile> = Vec::new();
    let ghost mut outs: Seq<OutcomeModel> = Seq::empty();
    assert(views(files@) =~= Seq::empty());
    let mut i: usize = 0;
    while i < requests.len()
        invariant
            i <= requests.len(),
            m == snap@,
            base == layout@.base_path,
            reqs == views(requests@),
            who == actor@,
            items@.len() == outs.len(),
            forall|k: int|
                0 <= k < outs.len() ==> (#[trigger] items@[k])@ == BulkItemModel::Done(outs[k]),
            tried(m, base, reqs, i as int, who, *budget) == Ok::<_, (int, StoreErrorModel)>(
                Trial { state: cur@, outcomes: outs, files: views(files@) },
            ),
        decreases requests.len() - i,
    {
        assert(reqs[i as int] == requests@[i as int]@);
        match cur.decide_commit(&requests[i], actor, budget) {
            Err(e) => {
                proof {
                    lemma_tried_stays_wrong(m, base, reqs, i + 1, reqs.len() as int, who, *budget);
                }
                let none: Vec<PendingFile> = Vec::new();
                assert(views(none@) =~= Seq::empty());
                let out = refuse_batch(requests.len(), i, e);
                assert(out@.items =~= batch_plan(m, base, reqs, who, *budget).0.items);
                return (out, none);
            },
            Ok(DecidedCommit::NoChange(o)) => {
                proof {
                    outs = outs.push(o@);
                }
                items.push(BulkItem::Done(o));
            },
            Ok(DecidedCommit::Write(w)) => {
                let file = PendingFile {
                    path: layout.doc_path(&requests[i].concept_id),
                    content: requests[i].markdown.clone(),
                    trailer: encode_rev(&RevOp::Commit, &w.revision, w.version),
                };
                proof {
                    lemma_views_push(files@, file);
                    outs = outs.push(write_outcome(w@));
                }
                files.push(file);
                items.push(BulkItem::Done(w.outcome()));
                let none = String::new();
                assert(none@ =~= Seq::empty());
                cur = cur.apply_write(requests[i].markdown.as_str(), w, none);
            },
        }
        i += 1;
    }
    let out = BulkOutcome { applied: true, items };
    assert(out@.items =~= Seq::new(outs.len(), |k: int| BulkItemModel::Done(outs[k])));
    (out, files)
}

/// The lines of the revisions of some files.
pub open spec fn trailer_lines(files: Seq<PendingModel>) -> Seq<Seq<char>> {
    Seq::new(files.len(), |i: int| files[i].trailer)
}

/// The message of the commit of a batch.
pub open spec fn batch_text(files: Seq<PendingModel>) -> Seq<char> {
    "lote atómico ("@ + dec(files.len()) + " cambios)\n\n"@ + joined(
        trailer_lines(files),
        files.len() as int,
        "\n"@,
    )
}

pub fn batch_message(files: &Vec<PendingFile>) -> (r: String)
    ensures
        r@ == batch_text(views(files@)),
{
    let mut lines: Vec<String> = Vec::new();
    let mut i: usize = 0;
    while i < files.len()
        invariant
            i <= files.len(),
            lines@.len() == i,
            forall|k: int| 0 <= k < i ==> (#[trigger] lines@[k])@ == files@[k].trailer@,
        decreases files.len() - i,
    {
        lines.push(files[i].trailer.clone());
        i += 1;
    }
    assert(views(lines@) =~= trailer_lines(views(files@)));
    let mut out = "lote atómico (".to_owned();
    push_dec(&mut out, files.len() as u64);
    out.push_str(" cambios)\n\n");
    out.push_str(crate::text::join_of(&lines, "\n").as_str());
    out
}

} // verus!

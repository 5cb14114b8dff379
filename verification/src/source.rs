//! Where skills come from, which of its files are worth having, and how text
//! is had from one of several providers.

use vstd::prelude::*;
use crate::http::{ascii_lower_to, lower};
use crate::ingest::{IngestError, IngestErrorModel};
use crate::plan::{in_order, insert_sorted, sorted_in, sorted_to, Ranked};
use crate::table::{before, lemma_before_irreflexive, lemma_before_transitive, str_before};
use crate::text::{
    chars_are, chars_of, ends_with, ends_with_of, holds, holds_of, join_of, joined,
    lemma_views_push, opt_view, part_from, part_to, res_view, rfind, rfind_of, split, split_of,
    starts_with, starts_with_of, str_eq, string_of, strip_prefix, strip_prefix_of, strip_suffix_of,
    trim, trim_end_char, trim_end_char_of, trim_of, views,
};

verus! {

/// Most files taken from a source.
pub const MAX_FILES: usize = 40;

/// Longest file taken, in bytes.
pub const MAX_FILE_BYTES: u64 = 131072;

/// Extensions of files with text.
pub const TEXT_EXTENSIONS: [&'static str; 25] = [
    "md", "markdown", "mdx", "txt", "rs", "py", "ts", "tsx", "js", "jsx", "json", "toml", "yaml",
    "yml", "sh", "css", "html", "sql", "go", "rb", "java", "c", "h", "cpp", "hpp",
];

// ---------------------------------------------------------------------
// What a source points to
// ---------------------------------------------------------------------

/// What a source points to.
#[derive(Debug, PartialEq, Eq)]
pub enum Source {
    /// A repository, or a directory in it.
    GithubTree { owner: String, repo: String, reference: Option<String>, path: String },
    /// A single file.
    SingleFile { url: String, name: String },
}

/// Mathematical counterpart of [`Source`].
pub enum SourceModel {
    GithubTree {
        owner: Seq<char>,
        repo: Seq<char>,
        reference: Option<Seq<char>>,
        path: Seq<char>,
    },
    SingleFile { url: Seq<char>, name: Seq<char> },
}

impl View for Source {
    type V = SourceModel;

    open spec fn view(&self) -> SourceModel {
        match *self {
            Source::GithubTree { owner, repo, reference, path } => SourceModel::GithubTree {
                owner: owner@,
                repo: repo@,
                reference: opt_view(reference),
                path: path@,
            },
            Source::SingleFile { url, name } => SourceModel::SingleFile { url: url@, name: name@ },
        }
    }
}

pub open spec fn bad_source(why: Seq<char>, source: Seq<char>) -> Result<
    SourceModel,
    IngestErrorModel,
> {
    Err(IngestErrorModel::InvalidSource(why + ": "@ + source))
}

/// Without the suffix, however often it stands at the end.
pub open spec fn without_suffix(s: Seq<char>, p: Seq<char>) -> Seq<char>
    decreases s.len(),
{
    if p.len() > 0 && ends_with(s, p) {
        without_suffix(s.take(s.len() - p.len()), p)
    } else {
        s
    }
}

/// `owner/repo`.
pub open spec fn short_source(s: Seq<char>, source: Seq<char>) -> Result<
    SourceModel,
    IngestErrorModel,
> {
    let parts = split(s, '/');
    if parts.len() != 2 || parts[0].len() == 0 || parts[1].len() == 0 {
        bad_source("esperaba 'owner/repo' o una URL https"@, source)
    } else {
        Ok(
            SourceModel::GithubTree {
                owner: parts[0],
                repo: parts[1],
                reference: None,
                path: Seq::empty(),
            },
        )
    }
}

/// What follows the last slash.
pub open spec fn base_name(path: Seq<char>) -> Seq<char> {
    match rfind(path, '/') {
        Some(k) => path.skip(k + 1),
        None => path,
    }
}

pub open spec fn raw_url(
    owner: Seq<char>,
    repo: Seq<char>,
    reference: Seq<char>,
    path: Seq<char>,
) -> Seq<char> {
    "https://raw.githubusercontent.com/"@ + owner + "/"@ + repo + "/"@ + reference + "/"@ + path
}

/// An address at the site of repositories; `segs` are the segments of the
/// address, the host first.
pub open spec fn site_source(segs: Seq<Seq<char>>, source: Seq<char>) -> Result<
    SourceModel,
    IngestErrorModel,
> {
    if segs.len() < 3 {
        bad_source("URL de GitHub sin owner/repo"@, source)
    } else {
        let owner = segs[1];
        let repo = without_suffix(segs[2], ".git"@);
        if segs.len() == 3 {
            Ok(SourceModel::GithubTree { owner, repo, reference: None, path: Seq::empty() })
        } else if (segs[3] == "tree"@ || segs[3] == "blob"@) && segs.len() >= 5 {
            let rest = segs.skip(5);
            let path = joined(rest, rest.len() as int, "/"@);
            if segs[3] == "blob"@ && path.len() > 0 {
                Ok(
                    SourceModel::SingleFile {
                        url: raw_url(owner, repo, segs[4], path),
                        name: base_name(path),
                    },
                )
            } else {
                Ok(SourceModel::GithubTree { owner, repo, reference: Some(segs[4]), path })
            }
        } else {
            bad_source("URL de GitHub no reconocida (esperaba /tree/ o /blob/)"@, source)
        }
    }
}

/// An address.
pub open spec fn url_source(s: Seq<char>, rest: Seq<char>, source: Seq<char>) -> Result<
    SourceModel,
    IngestErrorModel,
> {
    let segs = split(rest, '/');
    if segs[0] == "github.com"@ || segs[0] == "www.github.com"@ {
        site_source(segs, source)
    } else if segs[0] == "raw.githubusercontent.com"@ {
        if segs.len() < 5 {
            bad_source("URL raw de GitHub incompleta"@, source)
        } else {
            Ok(SourceModel::SingleFile { url: s, name: segs.last() })
        }
    } else {
        Ok(
            SourceModel::SingleFile {
                url: s,
                name: if segs.last().len() > 0 {
                    segs.last()
                } else {
                    segs[0]
                },
            },
        )
    }
}

/// What a source points to: `owner/repo`, the address of a repository, of a
/// directory or a file in it, or any other address of a file.
pub open spec fn source_of(source: Seq<char>) -> Result<SourceModel, IngestErrorModel> {
    let s = trim_end_char(trim(source), '/');
    if !holds(s, "://"@) {
        short_source(s, source)
    } else {
        match strip_prefix(s, "https://"@) {
            Some(rest) => url_source(s, rest, source),
            None => match strip_prefix(s, "http://"@) {
                Some(rest) => url_source(s, rest, source),
                None => bad_source("solo se aceptan URLs http(s)"@, source),
            },
        }
    }
}

fn bad(why: &str, source: &str) -> (r: IngestError)
    ensures
        r@ == IngestErrorModel::InvalidSource(why@ + ": "@ + source@),
{
    let mut m = why.to_owned();
    m.push_str(": ");
    m.push_str(source);
    IngestError::InvalidSource(m)
}

fn drop_suffix<'a>(s: &'a [char], p: &str) -> (r: &'a [char])
    ensures
        r@ == without_suffix(s@, p@),
    decreases s@.len(),
{
    if p.is_empty() {
        return s;
    }
    match strip_suffix_of(s, p) {
        Some(t) => drop_suffix(t, p),
        None => s,
    }
}

fn parse_short(s: &[char], source: &str) -> (r: Result<Source, IngestError>)
    ensures
        res_view(r) == short_source(s@, source@),
{
    let parts = split_of(s, '/');
    let ghost p = views(parts@);
    if parts.len() != 2 {
        return Err(bad("esperaba 'owner/repo' o una URL https", source));
    }
    assert(p[0] == parts@[0]@);
    assert(p[1] == parts@[1]@);
    if parts[0].len() == 0 || parts[1].len() == 0 {
        return Err(bad("esperaba 'owner/repo' o una URL https", source));
    }
    let path = String::new();
    assert(path@ =~= Seq::empty());
    Ok(
        Source::GithubTree {
            owner: string_of(parts[0].as_slice()),
            repo: string_of(parts[1].as_slice()),
            reference: None,
            path,
        },
    )
}

fn name_of(path: &str) -> (r: String)
    ensures
        r@ == base_name(path@),
{
    let chars = chars_of(path);
    let count = chars.len();
    match rfind_of(chars.as_slice(), '/') {
        Some(k) => string_of(part_from(chars.as_slice(), k + 1)),
        None => path.to_owned(),
    }
}

/// The address of a file in a repository.
pub fn raw_address(owner: &str, repo: &str, reference: &str, path: &str) -> (r: String)
    ensures
        r@ == raw_url(owner@, repo@, reference@, path@),
{
    let mut url = "https://raw.githubusercontent.com/".to_owned();
    url.push_str(owner);
    url.push_str("/");
    url.push_str(repo);
    url.push_str("/");
    url.push_str(reference);
    url.push_str("/");
    url.push_str(path);
    url
}

fn parse_site(segs: &Vec<Vec<char>>, source: &str) -> (r: Result<Source, IngestError>)
    ensures
        res_view(r) == site_source(views(segs@), source@),
{
    let ghost p = views(segs@);
    let n = segs.len();
    if n < 3 {
        return Err(bad("URL de GitHub sin owner/repo", source));
    }
    assert(p[1] == segs@[1]@ && p[2] == segs@[2]@);
    let owner = string_of(segs[1].as_slice());
    let repo = string_of(drop_suffix(segs[2].as_slice(), ".git"));
    let none = String::new();
    assert(none@ =~= Seq::empty());
    if n == 3 {
        return Ok(Source::GithubTree { owner, repo, reference: None, path: none });
    }
    assert(p[3] == segs@[3]@);
    let blob = chars_are(segs[3].as_slice(), "blob");
    if !(blob || chars_are(segs[3].as_slice(), "tree")) || n < 5 {
        return Err(bad("URL de GitHub no reconocida (esperaba /tree/ o /blob/)", source));
    }
    assert(p[4] == segs@[4]@);
    let reference = string_of(segs[4].as_slice());
    let mut rest: Vec<String> = Vec::new();
    let mut i: usize = 5;
    while i < n
        invariant
            5 <= i <= n,
            n == segs@.len(),
            rest@.len() == i - 5,
            forall|k: int| 0 <= k < rest@.len() ==> (#[trigger] rest@[k])@ == segs@[k + 5]@,
        decreases n - i,
    {
        rest.push(string_of(segs[i].as_slice()));
        i += 1;
    }
    assert(views(rest@) =~= p.skip(5));
    let path = join_of(&rest, "/");
    if blob && !path.as_str().is_empty() {
        let url = raw_address(owner.as_str(), repo.as_str(), reference.as_str(), path.as_str());
        let name = name_of(path.as_str());
        Ok(Source::SingleFile { url, name })
    } else {
        Ok(Source::GithubTree { owner, repo, reference: Some(reference), path })
    }
}

fn parse_url(s: &[char], rest: &[char], source: &str) -> (r: Result<Source, IngestError>)
    ensures
        res_view(r) == url_source(s@, rest@, source@),
{
    let segs = split_of(rest, '/');
    let ghost p = views(segs@);
    let n = segs.len();
    assert(p[0] == segs@[0]@);
    assert(p.last() == segs@[n - 1]@);
    let host = segs[0].as_slice();
    if chars_are(host, "github.com") || chars_are(host, "www.github.com") {
        return parse_site(&segs, source);
    }
    let last = segs[n - 1].as_slice();
    if chars_are(host, "raw.githubusercontent.com") {
        if n < 5 {
            return Err(bad("URL raw de GitHub incompleta", source));
        }
        return Ok(Source::SingleFile { url: string_of(s), name: string_of(last) });
    }
    let name = if last.len() > 0 {
        string_of(last)
    } else {
        string_of(host)
    };
    Ok(Source::SingleFile { url: string_of(s), name })
}

/// Makes out what a source points to.
pub fn parse_source(source: &str) -> (r: Result<Source, IngestError>)
    ensures
        res_view(r) == source_of(source@),
{
    let chars = chars_of(source);
    let s = trim_end_char_of(trim_of(chars.as_slice()), '/');
    if !holds_of(s, "://") {
        return parse_short(s, source);
    }
    match strip_prefix_of(s, "https://") {
        Some(rest) => parse_url(s, rest, source),
        None => match strip_prefix_of(s, "http://") {
            Some(rest) => parse_url(s, rest, source),
            None => Err(bad("solo se aceptan URLs http(s)", source)),
        },
    }
}

// ---------------------------------------------------------------------
// Which files to take
// ---------------------------------------------------------------------

/// `ext` is one of the first `n` extensions of files with text.
pub open spec fn is_text_extension(ext: Seq<char>, n: int) -> bool {
    exists|i: int| 0 <= i < n && (#[trigger] TEXT_EXTENSIONS@[i])@ == ext
}

/// The path is that of a file with text, by its extension.
pub open spec fn is_text(path: Seq<char>) -> bool {
    match rfind(path, '.') {
        Some(k) => {
            let ext = path.skip(k + 1);
            is_text_extension(ascii_lower_to(ext, ext.len() as int), TEXT_EXTENSIONS@.len() as int)
        },
        None => false,
    }
}

/// Whether a path is that of a file with text.
pub fn is_text_path(path: &str) -> (r: bool)
    ensures
        r == is_text(path@),
{
    let chars = chars_of(path);
    let count = chars.len();
    match rfind_of(chars.as_slice(), '.') {
        None => false,
        Some(k) => {
            let ext = lower(part_from(chars.as_slice(), k + 1));
            let total: usize = TEXT_EXTENSIONS.len();
            let mut i: usize = 0;
            while i < total
                invariant
                    i <= total,
                    total == TEXT_EXTENSIONS@.len(),
                    is_text(path@) == is_text_extension(ext@, total as int),
                    forall|j: int| 0 <= j < i ==> (#[trigger] TEXT_EXTENSIONS@[j])@ != ext@,
                decreases total - i,
            {
                if chars_are(ext.as_slice(), TEXT_EXTENSIONS[i]) {
                    return true;
                }
                i += 1;
            }
            false
        },
    }
}

/// An entry of the tree of a repository.
#[derive(Debug, PartialEq, Eq)]
pub struct TreeFile {
    pub path: String,
    pub kind: String,
    pub size: Option<u64>,
}

/// Mathematical counterpart of [`TreeFile`].
pub struct TreeFileModel {
    pub path: Seq<char>,
    pub kind: Seq<char>,
    pub size: Option<u64>,
}

impl View for TreeFile {
    type V = TreeFileModel;

    open spec fn view(&self) -> TreeFileModel {
        TreeFileModel { path: self.path@, kind: self.kind@, size: self.size }
    }
}

/// The directory that all the files taken are in, with its slash; empty for
/// the whole repository.
pub open spec fn directory(path: Seq<char>) -> Seq<char> {
    if path.len() == 0 {
        path
    } else {
        path + "/"@
    }
}

/// The entry is a file with text, in the directory, and not too long.
pub open spec fn is_wanted(e: TreeFileModel, path: Seq<char>, max_bytes: u64) -> bool {
    &&& e.kind == "blob"@
    &&& (path.len() == 0 || starts_with(e.path, directory(path)))
    &&& is_text(e.path)
    &&& (e.size is Some ==> e.size->0 <= max_bytes)
}

/// Definitions of skills first, then other Markdown, then the rest.
pub open spec fn group(path: Seq<char>) -> int {
    if ends_with(path, "SKILL.md"@) {
        0
    } else if ends_with(path, ".md"@) || ends_with(path, ".mdx"@) || ends_with(path, ".markdown"@) {
        1
    } else {
        2
    }
}

/// A path to be taken.
pub struct Candidate {
    path: String,
}

impl View for Candidate {
    type V = Seq<char>;

    closed spec fn view(&self) -> Seq<char> {
        self.path@
    }
}

pub open spec fn sooner(a: Seq<char>, b: Seq<char>) -> bool {
    group(a) < group(b) || (group(a) == group(b) && before(a, b))
}

fn group_of(path: &str) -> (r: u8)
    ensures
        r == group(path@),
{
    let chars = chars_of(path);
    let v = chars.as_slice();
    if ends_with_of(v, "SKILL.md") {
        0
    } else if ends_with_of(v, ".md") || ends_with_of(v, ".mdx") || ends_with_of(v, ".markdown") {
        1
    } else {
        2
    }
}

impl Ranked for Candidate {
    open spec fn goes_before(a: Seq<char>, b: Seq<char>) -> bool {
        sooner(a, b)
    }

    fn is_before(&self, other: &Candidate) -> (r: bool) {
        let a = group_of(self.path.as_str());
        let b = group_of(other.path.as_str());
        a < b || (a == b && str_before(self.path.as_str(), other.path.as_str()))
    }
}

/// The paths of the first `n` entries that are wanted.
pub open spec fn wanted_to(tree: Seq<TreeFileModel>, path: Seq<char>, max_bytes: u64, n: int) -> Seq<
    Seq<char>,
>
    decreases n,
{
    if n <= 0 {
        Seq::empty()
    } else if is_wanted(tree[n - 1], path, max_bytes) {
        wanted_to(tree, path, max_bytes, n - 1).push(tree[n - 1].path)
    } else {
        wanted_to(tree, path, max_bytes, n - 1)
    }
}

/// The paths to take, the most wanted first, up to a limit.
pub open spec fn chosen(
    tree: Seq<TreeFileModel>,
    path: Seq<char>,
    max_bytes: u64,
    max_files: usize,
) -> Seq<Seq<char>> {
    let all = in_order::<Candidate>(wanted_to(tree, path, max_bytes, tree.len() as int));
    if all.len() > max_files {
        all.take(max_files as int)
    } else {
        all
    }
}

proof fn lemma_sooner(a: Seq<char>, b: Seq<char>, c: Seq<char>)
    ensures
        !sooner(a, a),
        sooner(a, b) && sooner(b, c) ==> sooner(a, c),
{
    lemma_before_irreflexive(a);
    if before(a, b) && before(b, c) {
        lemma_before_transitive(a, b, c);
    }
}

/// Nothing stands behind what goes sooner.
pub open spec fn in_turn(s: Seq<Seq<char>>) -> bool {
    forall|i: int, j: int| 0 <= i < j < s.len() ==> !sooner(#[trigger] s[j], #[trigger] s[i])
}

proof fn lemma_sorted_in(s: Seq<Seq<char>>, e: Seq<char>)
    requires
        in_turn(s),
    ensures
        in_turn(sorted_in::<Candidate>(s, e)),
        forall|x: Seq<char>| #[trigger]
            sorted_in::<Candidate>(s, e).contains(x) <==> s.contains(x) || x == e,
    decreases s.len(),
{
    let t = sorted_in::<Candidate>(s, e);
    if s.len() == 0 || sooner(e, s[0]) {
        assert(t =~= seq![e] + s);
        assert forall|i: int, j: int| 0 <= i < j < t.len() implies !sooner(
            #[trigger] t[j],
            #[trigger] t[i],
        ) by {
            assert(t[j] == s[j - 1]);
            if i == 0 {
                lemma_sooner(s[j - 1], e, s[0]);
                lemma_sooner(s[0], s[0], s[0]);
                if j - 1 > 0 {
                    assert(!sooner(s[j - 1], s[0]));
                }
            } else {
                assert(t[i] == s[i - 1]);
            }
        }
        assert forall|x: Seq<char>| #[trigger] t.contains(x) <==> s.contains(x) || x == e by {
            if s.contains(x) {
                let k = choose|k: int| 0 <= k < s.len() && s[k] == x;
                assert(t[k + 1] == x);
            }
            if x == e {
                assert(t[0] == x);
            }
            if t.contains(x) && x != e {
                let k = choose|k: int| 0 <= k < t.len() && t[k] == x;
                assert(s[k - 1] == x);
            }
        }
    } else {
        let rest = s.skip(1);
        assert(in_turn(rest)) by {
            assert forall|i: int, j: int| 0 <= i < j < rest.len() implies !sooner(
                #[trigger] rest[j],
                #[trigger] rest[i],
            ) by {
                assert(rest[j] == s[j + 1] && rest[i] == s[i + 1]);
            }
        }
        lemma_sorted_in(rest, e);
        let u = sorted_in::<Candidate>(rest, e);
        assert(t =~= seq![s[0]] + u);
        assert forall|i: int, j: int| 0 <= i < j < t.len() implies !sooner(
            #[trigger] t[j],
            #[trigger] t[i],
        ) by {
            assert(t[j] == u[j - 1]);
            if i == 0 {
                assert(u.contains(u[j - 1]));
                if u[j - 1] != e {
                    let k = choose|k: int| 0 <= k < rest.len() && rest[k] == u[j - 1];
                    assert(rest[k] == s[k + 1]);
                    assert(!sooner(s[k + 1], s[0]));
                }
            } else {
                assert(t[i] == u[i - 1]);
            }
        }
        assert forall|x: Seq<char>| #[trigger] t.contains(x) <==> s.contains(x) || x == e by {
            if t.contains(x) {
                let k = choose|k: int| 0 <= k < t.len() && t[k] == x;
                if k == 0 {
                    assert(s[0] == x);
                } else {
                    assert(u[k - 1] == x);
                    assert(u.contains(x));
                    if x != e {
                        let m = choose|m: int| 0 <= m < rest.len() && rest[m] == x;
                        assert(s[m + 1] == x);
                    }
                }
            }
            if s.contains(x) || x == e {
                if s.contains(x) {
                    let k = choose|k: int| 0 <= k < s.len() && s[k] == x;
                    if k == 0 {
                        assert(t[0] == x);
                    } else {
                        assert(rest[k - 1] == x);
                        assert(rest.contains(x));
                    }
                }
                if rest.contains(x) || x == e {
                    assert(u.contains(x));
                    let m = choose|m: int| 0 <= m < u.len() && u[m] == x;
                    assert(t[m + 1] == x);
                }
            }
        }
    }
}

proof fn lemma_sorted_to(s: Seq<Seq<char>>, n: int)
    requires
        0 <= n <= s.len(),
    ensures
        in_turn(sorted_to::<Candidate>(s, n)),
        forall|x: Seq<char>| #[trigger]
            sorted_to::<Candidate>(s, n).contains(x) <==> s.take(n).contains(x),
    decreases n,
{
    if n > 0 {
        lemma_sorted_to(s, n - 1);
        lemma_sorted_in(sorted_to::<Candidate>(s, n - 1), s[n - 1]);
        assert forall|x: Seq<char>| #[trigger]
            sorted_to::<Candidate>(s, n).contains(x) <==> s.take(n).contains(x) by {
            let now = s.take(n);
            let was = s.take(n - 1);
            if now.contains(x) {
                let k = choose|k: int| 0 <= k < now.len() && now[k] == x;
                if k < n - 1 {
                    assert(was[k] == x);
                }
            }
            if was.contains(x) {
                let k = choose|k: int| 0 <= k < was.len() && was[k] == x;
                assert(now[k] == x);
            }
            if x == s[n - 1] {
                assert(now[n - 1] == x);
            }
        }
    }
}

/// The path of some wanted entry.
pub open spec fn wanted_path(tree: Seq<TreeFileModel>, path: Seq<char>, max_bytes: u64, x: Seq<char>) -> bool {
    exists|i: int|
        0 <= i < tree.len() && is_wanted(#[trigger] tree[i], path, max_bytes) && tree[i].path == x
}

proof fn lemma_wanted_to(tree: Seq<TreeFileModel>, path: Seq<char>, max_bytes: u64, n: int, x: Seq<char>)
    requires
        0 <= n <= tree.len(),
    ensures
        wanted_to(tree, path, max_bytes, n).contains(x) <==> wanted_path(
            tree.take(n),
            path,
            max_bytes,
            x,
        ),
    decreases n,
{
    let w = wanted_to(tree, path, max_bytes, n);
    if n > 0 {
        lemma_wanted_to(tree, path, max_bytes, n - 1, x);
        let p = wanted_to(tree, path, max_bytes, n - 1);
        if w.contains(x) {
            let k = choose|k: int| 0 <= k < w.len() && w[k] == x;
            if k < p.len() {
                assert(p[k] == x);
                assert(p.contains(x));
            } else {
                assert(tree.take(n)[n - 1] == tree[n - 1]);
            }
        }
        if wanted_path(tree.take(n - 1), path, max_bytes, x) {
            let i = choose|i: int|
                0 <= i < n - 1 && is_wanted(#[trigger] tree.take(n - 1)[i], path, max_bytes)
                    && tree.take(n - 1)[i].path == x;
            assert(tree.take(n)[i] == tree.take(n - 1)[i]);
            let k = choose|k: int| 0 <= k < p.len() && p[k] == x;
            assert(w[k] == x);
        }
        if wanted_path(tree.take(n), path, max_bytes, x) {
            let i = choose|i: int|
                0 <= i < n && is_wanted(#[trigger] tree.take(n)[i], path, max_bytes)
                    && tree.take(n)[i].path == x;
            if i < n - 1 {
                assert(tree.take(n - 1)[i] == tree.take(n)[i]);
                let k = choose|k: int| 0 <= k < p.len() && p[k] == x;
                assert(w[k] == x);
            } else {
                assert(w.last() == x);
            }
        }
    }
}

/// No more files are taken than the limit allows, each of them is wanted, and
/// a wanted one is left out only where the limit is reached by files that do
/// not come after it: auxiliary files never push out the definition of a skill.
pub proof fn law_definitions_come_first(
    tree: Seq<TreeFileModel>,
    path: Seq<char>,
    max_bytes: u64,
    max_files: usize,
    x: Seq<char>,
)
    ensures
        ({
            let c = chosen(tree, path, max_bytes, max_files);
            &&& c.len() <= max_files
            &&& in_turn(c)
            &&& (c.contains(x) ==> wanted_path(tree, path, max_bytes, x))
            &&& (wanted_path(tree, path, max_bytes, x) && !c.contains(x) ==> c.len() == max_files
                && forall|i: int| 0 <= i < c.len() ==> !sooner(x, #[trigger] c[i]))
        }),
{
    let w = wanted_to(tree, path, max_bytes, tree.len() as int);
    let all = in_order::<Candidate>(w);
    let c = chosen(tree, path, max_bytes, max_files);
    lemma_sorted_to(w, w.len() as int);
    assert(w.take(w.len() as int) =~= w);
    assert(tree.take(tree.len() as int) =~= tree);
    lemma_wanted_to(tree, path, max_bytes, tree.len() as int, x);
    assert forall|i: int| 0 <= i < c.len() implies c[i] == all[i] by {}
    if c.contains(x) {
        let k = choose|k: int| 0 <= k < c.len() && c[k] == x;
        assert(all[k] == x);
        assert(all.contains(x));
    }
    if wanted_path(tree, path, max_bytes, x) && !c.contains(x) {
        assert(all.contains(x));
        let k = choose|k: int| 0 <= k < all.len() && all[k] == x;
        if k < c.len() {
            assert(c[k] == x);
        }
        assert forall|i: int| 0 <= i < c.len() implies !sooner(x, #[trigger] c[i]) by {
            assert(!sooner(all[k], all[i]));
        }
    }
}

fn wanted(e: &TreeFile, path: &str, dir: &str, max_bytes: u64) -> (r: bool)
    requires
        dir@ == directory(path@),
    ensures
        r == is_wanted(e@, path@, max_bytes),
{
    if !str_eq(e.kind.as_str(), "blob") {
        return false;
    }
    let chars = chars_of(e.path.as_str());
    if !path.is_empty() && !starts_with_of(chars.as_slice(), dir) {
        return false;
    }
    if !is_text_path(e.path.as_str()) {
        return false;
    }
    match e.size {
        Some(n) => n <= max_bytes,
        None => true,
    }
}

fn directory_of(path: &str) -> (r: String)
    ensures
        r@ == directory(path@),
{
    let mut dir = path.to_owned();
    if !path.is_empty() {
        dir.push_str("/");
    }
    dir
}

/// Chooses the files of a tree to take.
pub fn choose_files(tree: &Vec<TreeFile>, path: &str, max_bytes: u64, max_files: usize) -> (r: Vec<
    String,
>)
    ensures
        views(r@) == chosen(views(tree@), path@, max_bytes, max_files),
{
    let ghost all = views(tree@);
    let dir = directory_of(path);
    let mut found: Vec<Candidate> = Vec::new();
    assert(views(found@) =~= Seq::empty());
    let mut i: usize = 0;
    while i < tree.len()
        invariant
            i <= tree.len(),
            all == views(tree@),
            dir@ == directory(path@),
            views(found@) == wanted_to(all, path@, max_bytes, i as int),
        decreases tree.len() - i,
    {
        assert(all[i as int] == tree@[i as int]@);
        if wanted(&tree[i], path, dir.as_str(), max_bytes) {
            let c = Candidate { path: tree[i].path.clone() };
            proof {
                lemma_views_push(found@, c);
            }
            found.push(c);
        }
        i += 1;
    }
    let ghost picked = views(found@);
    let mut sorted: Vec<Candidate> = Vec::new();
    assert(views(sorted@) =~= Seq::empty());
    let mut j: usize = 0;
    while j < found.len()
        invariant
            j <= found.len(),
            picked == views(found@),
            views(sorted@) == sorted_to::<Candidate>(picked, j as int),
        decreases found.len() - j,
    {
        assert(picked[j as int] == found@[j as int]@);
        insert_sorted(&mut sorted, Candidate { path: found[j].path.clone() });
        j += 1;
    }
    let ghost ordered = views(sorted@);
    let mut out: Vec<String> = Vec::new();
    let mut k: usize = 0;
    while k < sorted.len() && k < max_files
        invariant
            k <= sorted.len(),
            k <= max_files,
            ordered == views(sorted@),
            out@.len() == k,
            forall|m: int| 0 <= m < k ==> (#[trigger] out@[m])@ == ordered[m],
        decreases sorted.len() - k,
    {
        assert(ordered[k as int] == sorted@[k as int]@);
        out.push(sorted[k].path.clone());
        k += 1;
    }
    assert(views(out@) =~= chosen(all, path@, max_bytes, max_files));
    out
}

/// A path as it stands in the directory.
pub open spec fn relative(path: Seq<char>, file: Seq<char>) -> Seq<char> {
    match strip_prefix(file, directory(path)) {
        Some(t) => t,
        None => file,
    }
}

pub fn relative_path(path: &str, file: &str) -> (r: String)
    ensures
        r@ == relative(path@, file@),
{
    let dir = directory_of(path);
    let chars = chars_of(file);
    match strip_prefix_of(chars.as_slice(), dir.as_str()) {
        Some(t) => string_of(t),
        None => file.to_owned(),
    }
}

// ---------------------------------------------------------------------
// Text from providers
// ---------------------------------------------------------------------

/// What a provider gave.
pub type TextAnswer = Result<Seq<char>, IngestErrorModel>;

/// Whoever turns a prompt into text. What it may answer is a relation.
pub trait Synthesizer {
    open spec fn text_rel(&self, prompt: Seq<char>, r: TextAnswer) -> bool {
        true
    }

    fn synthesize(&self, prompt: &str) -> (r: Result<String, IngestError>)
        ensures
            self.text_rel(prompt@, res_view(r)),
    ;
}

/// Several providers, the preferred one first; each of the others stands in
/// for those before it.
pub struct FallbackSynthesizer<P> {
    providers: Vec<Box<P>>,
}

impl<P> View for FallbackSynthesizer<P> {
    type V = Seq<P>;

    closed spec fn view(&self) -> Seq<P> {
        Seq::new(self.providers@.len(), |i: int| *self.providers@[i])
    }
}

/// The providers are asked in order, up to the first that gives text.
pub open spec fn attempted<P: Synthesizer>(
    providers: Seq<P>,
    prompt: Seq<char>,
    rs: Seq<TextAnswer>,
) -> bool {
    &&& rs.len() <= providers.len()
    &&& forall|i: int| 0 <= i < rs.len() ==> providers[i].text_rel(prompt, #[trigger] rs[i])
    &&& forall|i: int| 0 <= i < rs.len() - 1 ==> (#[trigger] rs[i]) is Err
    &&& rs.len() < providers.len() ==> rs.len() > 0 && rs.last() is Ok
}

/// What a failure says.
pub open spec fn complaint(e: IngestErrorModel) -> Seq<char> {
    match e {
        IngestErrorModel::Synthesis(m) => m,
        _ => e.message(),
    }
}

pub open spec fn complaints(rs: Seq<TextAnswer>) -> Seq<Seq<char>> {
    Seq::new(rs.len(), |i: int| complaint(rs[i]->Err_0))
}

/// The text that was given, or why there is none.
pub open spec fn settled(rs: Seq<TextAnswer>) -> TextAnswer {
    if rs.len() == 0 {
        Err(IngestErrorModel::Synthesis("no hay proveedores de síntesis configurados"@))
    } else if rs.last() is Ok {
        rs.last()
    } else {
        Err(
            IngestErrorModel::Synthesis(
                "todos los proveedores de síntesis fallaron: "@ + joined(
                    complaints(rs),
                    rs.len() as int,
                    " | "@,
                ),
            ),
        )
    }
}

impl<P> FallbackSynthesizer<P> {
    pub fn new(providers: Vec<Box<P>>) -> (r: FallbackSynthesizer<P>)
        ensures
            r@ == Seq::new(providers@.len(), |i: int| *providers@[i]),
    {
        FallbackSynthesizer { providers }
    }
}

fn complaint_of(e: IngestError) -> (r: String)
    ensures
        r@ == complaint(e@),
{
    match e {
        IngestError::Synthesis(m) => m,
        other => other.message(),
    }
}

impl<P: Synthesizer> Synthesizer for FallbackSynthesizer<P> {
    /// The first text that a provider gives; where all fail, what each of
    /// them says. No provider is asked after one that gave text.
    open spec fn text_rel(&self, prompt: Seq<char>, r: TextAnswer) -> bool {
        exists|rs: Seq<TextAnswer>| #[trigger] attempted(self@, prompt, rs) && r == settled(rs)
    }

    fn synthesize(&self, prompt: &str) -> (r: Result<String, IngestError>) {
        let ghost mut rs: Seq<TextAnswer> = Seq::empty();
        let mut errors: Vec<String> = Vec::new();
        let mut i: usize = 0;
        while i < self.providers.len()
            invariant
                i <= self.providers.len(),
                rs.len() == i,
                errors@.len() == i,
                forall|k: int| 0 <= k < i ==> self@[k].text_rel(prompt@, #[trigger] rs[k]),
                forall|k: int| 0 <= k < i ==> (#[trigger] rs[k]) is Err,
                forall|k: int|
                    0 <= k < i ==> (#[trigger] errors@[k])@ == complaint(rs[k]->Err_0),
            decreases self.providers.len() - i,
        {
            let answer = self.providers[i].synthesize(prompt);
            proof {
                rs = rs.push(res_view(answer));
                assert(self@[i as int].text_rel(prompt@, rs[i as int]));
            }
            match answer {
                Ok(text) => {
                    assert(attempted(self@, prompt@, rs));
                    assert(settled(rs) == rs.last());
                    return Ok(text);
                },
                Err(e) => {
                    errors.push(complaint_of(e));
                },
            }
            i += 1;
        }
        assert(attempted(self@, prompt@, rs));
        if errors.len() == 0 {
            return Err(
                IngestError::Synthesis("no hay proveedores de síntesis configurados".to_owned()),
            );
        }
        assert(views(errors@) =~= complaints(rs));
        let mut m = "todos los proveedores de síntesis fallaron: ".to_owned();
        m.push_str(join_of(&errors, " | ").as_str());
        Err(IngestError::Synthesis(m))
    }
}

/// The texts among the first `n`, one after the other.
pub open spec fn run_of(parts: Seq<Option<Seq<char>>>, n: int) -> Seq<char>
    decreases n,
{
    if n <= 0 {
        Seq::empty()
    } else {
        match parts[n - 1] {
            Some(t) => run_of(parts, n - 1) + t,
            None => run_of(parts, n - 1),
        }
    }
}

/// The texts of optional parts.
pub open spec fn part_texts(parts: Seq<Option<String>>) -> Seq<Option<Seq<char>>> {
    Seq::new(parts.len(), |i: int| opt_view(parts[i]))
}

/// The text of an answer in parts; there must be some.
pub fn whole_text(parts: &Vec<Option<String>>) -> (r: Result<String, IngestError>)
    ensures
        ({
            let t = run_of(part_texts(parts@), parts@.len() as int);
            match r {
                Ok(x) => t.len() > 0 && x@ == t,
                Err(e) => t.len() == 0 && e@ == IngestErrorModel::Synthesis(
                    "gemini: la respuesta de generateContent no trae texto"@,
                ),
            }
        }),
{
    let ghost all = part_texts(parts@);
    let mut out = String::new();
    assert(out@ =~= Seq::empty());
    let mut i: usize = 0;
    while i < parts.len()
        invariant
            i <= parts.len(),
            all == part_texts(parts@),
            out@ == run_of(all, i as int),
        decreases parts.len() - i,
    {
        assert(all[i as int] == opt_view(parts@[i as int]));
        match &parts[i] {
            Some(t) => {
                out.push_str(t.as_str());
            },
            None => {},
        }
        i += 1;
    }
    if out.as_str().is_empty() {
        return Err(
            IngestError::Synthesis(
                "gemini: la respuesta de generateContent no trae texto".to_owned(),
            ),
        );
    }
    Ok(out)
}

/// The first text, from index `i` on; empty if there is none.
pub open spec fn first_from(parts: Seq<Option<Seq<char>>>, i: int) -> Seq<char>
    decreases parts.len() - i,
{
    if i < 0 || i >= parts.len() {
        Seq::empty()
    } else {
        match parts[i] {
            Some(t) => t,
            None => first_from(parts, i + 1),
        }
    }
}

/// The first text among several choices; there must be one.
pub fn first_text(provider: &str, choices: &Vec<Option<String>>) -> (r: Result<String, IngestError>)
    ensures
        ({
            let t = first_from(part_texts(choices@), 0);
            match r {
                Ok(x) => t.len() > 0 && x@ == t,
                Err(e) => t.len() == 0 && e@ == IngestErrorModel::Synthesis(
                    provider@ + ": la respuesta no trae texto"@,
                ),
            }
        }),
{
    let ghost all = part_texts(choices@);
    let mut m = provider.to_owned();
    m.push_str(": la respuesta no trae texto");
    let mut i: usize = 0;
    while i < choices.len()
        invariant
            i <= choices.len(),
            all == part_texts(choices@),
            m@ == provider@ + ": la respuesta no trae texto"@,
            first_from(all, 0) == first_from(all, i as int),
        decreases choices.len() - i,
    {
        assert(all[i as int] == opt_view(choices@[i as int]));
        match &choices[i] {
            Some(t) => {
                if t.as_str().is_empty() {
                    return Err(IngestError::Synthesis(m));
                }
                return Ok(t.clone());
            },
            None => {},
        }
        i += 1;
    }
    Err(IngestError::Synthesis(m))
}

/// The first `max` characters of a text.
pub open spec fn shortened(s: Seq<char>, max: nat) -> Seq<char> {
    if s.len() > max {
        s.take(max as int)
    } else {
        s
    }
}

/// The beginning of a text, to be shown.
pub fn shorten(s: &str, max: usize) -> (r: String)
    ensures
        r@ == shortened(s@, max as nat),
{
    let chars = chars_of(s);
    if chars.len() > max {
        string_of(part_to(chars.as_slice(), max))
    } else {
        s.to_owned()
    }
}

} // verus!

//! OKF documents: a frontmatter in a small subset of YAML, then Markdown with
//! `[[concept]]` links.
//!
//! The original text is the truth. This module only derives metadata from it;
//! a patch rewrites the frontmatter lines it touches and copies the rest.

use vstd::prelude::*;
use crate::model::{valid_id, Budget, ConceptId};
use crate::table::{put, Table};
use crate::text::{
    alnum, bytes_of, chars_are, chars_of, clone_opt, clone_strings, debug_text, dec, find_char,
    find_char_from, find_char_of, find_from, find_from_of, find_of, has_char, is_alnum, lines,
    lines_of, opt_view, part, part_from, part_to, push_dec, quoted, res_view, starts_with,
    starts_with_of, str_eq, string_of, strip_prefix, strip_prefix_of, trim, trim_end, trim_end_of,
    trim_of, trim_start, trim_start_of, utf8_len, views, at, at_of,
};

verus! {

/// Longest relation of a typed link, in bytes.
pub const MAX_LINK_REL_LEN: usize = 32;

/// Value of a frontmatter field.
#[derive(Debug, PartialEq, Eq)]
pub enum FmValue {
    /// One line of text.
    Scalar(String),
    /// A block list.
    List(Vec<String>),
}

/// Mathematical counterpart of [`FmValue`].
pub enum FmModel {
    Scalar(Seq<char>),
    List(Seq<Seq<char>>),
}

impl View for FmValue {
    type V = FmModel;

    open spec fn view(&self) -> FmModel {
        match *self {
            FmValue::Scalar(s) => FmModel::Scalar(s@),
            FmValue::List(l) => FmModel::List(views(l@)),
        }
    }
}

impl Clone for FmValue {
    fn clone(&self) -> (r: Self)
        ensures
            r@ == self@,
    {
        match self {
            FmValue::Scalar(s) => FmValue::Scalar(s.clone()),
            FmValue::List(l) => FmValue::List(clone_strings(l)),
        }
    }
}

/// An outgoing link: a valid target and an optional relation.
#[derive(Debug, PartialEq, Eq)]
pub struct Link {
    pub target: ConceptId,
    /// `depends_on` in `[[depends_on:a/b]]`; `None` in `[[a/b]]`.
    pub rel: Option<String>,
}

/// Mathematical counterpart of [`Link`].
pub struct LinkModel {
    pub target: Seq<char>,
    pub rel: Option<Seq<char>>,
}

impl View for Link {
    type V = LinkModel;

    open spec fn view(&self) -> LinkModel {
        LinkModel { target: self.target@, rel: opt_view(self.rel) }
    }
}

impl Clone for Link {
    fn clone(&self) -> (r: Self)
        ensures
            r@ == self@,
    {
        Link { target: self.target.clone(), rel: clone_opt(&self.rel) }
    }
}

/// A copy of a list of links.
pub fn clone_links(v: &Vec<Link>) -> (r: Vec<Link>)
    ensures
        views(r@) == views(v@),
{
    let mut out: Vec<Link> = Vec::new();
    let mut i: usize = 0;
    while i < v.len()
        invariant
            i <= v.len(),
            out@.len() == i,
            forall|k: int| 0 <= k < i ==> (#[trigger] out@[k])@ == v@[k]@,
        decreases v.len() - i,
    {
        out.push(v[i].clone());
        i += 1;
    }
    assert(views(out@) =~= views(v@));
    out
}

/// What a document's text says about itself.
#[derive(Debug, PartialEq, Eq)]
pub struct OkfDocument {
    /// The mandatory `type` field.
    pub doc_type: String,
    pub title: Option<String>,
    pub tags: Vec<String>,
    /// Every other field, in ascending key order.
    pub extra: Table<FmValue>,
    /// Byte offset at which the Markdown body starts.
    pub body_offset: usize,
    /// Outgoing links, each target once.
    pub links: Vec<Link>,
}

/// Mathematical counterpart of [`OkfDocument`].
pub struct DocModel {
    pub doc_type: Seq<char>,
    pub title: Option<Seq<char>>,
    pub tags: Seq<Seq<char>>,
    pub extra: Seq<(Seq<char>, FmModel)>,
    pub body_offset: nat,
    pub links: Seq<LinkModel>,
}

impl View for OkfDocument {
    type V = DocModel;

    open spec fn view(&self) -> DocModel {
        DocModel {
            doc_type: self.doc_type@,
            title: opt_view(self.title),
            tags: views(self.tags@),
            extra: self.extra@,
            body_offset: self.body_offset as nat,
            links: views(self.links@),
        }
    }
}

/// Why a text is not a valid document.
#[derive(Debug, PartialEq, Eq)]
pub enum OkfError {
    /// The first line is not `---`.
    MissingFrontmatter,
    /// There is no closing `---`.
    UnterminatedFrontmatter,
    FrontmatterTooLarge { len: usize, max: usize },
    DocumentTooLarge { len: usize, max: usize },
    /// Syntax outside the subset, with the line of the document (from one).
    Unsupported { line: usize, reason: String },
    DuplicateKey { line: usize, key: String },
    /// There is no `type` field.
    MissingType,
    /// A `[[...]]` that is no link, with its byte offset in the document.
    InvalidLink { offset: usize, target: String },
    TooManyLinks { max: usize },
}

/// Mathematical counterpart of [`OkfError`].
pub enum OkfErrorModel {
    MissingFrontmatter,
    UnterminatedFrontmatter,
    FrontmatterTooLarge { len: nat, max: nat },
    DocumentTooLarge { len: nat, max: nat },
    Unsupported { line: nat, reason: Seq<char> },
    DuplicateKey { line: nat, key: Seq<char> },
    MissingType,
    InvalidLink { offset: nat, target: Seq<char> },
    TooManyLinks { max: nat },
}

impl View for OkfError {
    type V = OkfErrorModel;

    open spec fn view(&self) -> OkfErrorModel {
        match *self {
            OkfError::MissingFrontmatter => OkfErrorModel::MissingFrontmatter,
            OkfError::UnterminatedFrontmatter => OkfErrorModel::UnterminatedFrontmatter,
            OkfError::FrontmatterTooLarge { len, max } => OkfErrorModel::FrontmatterTooLarge {
                len: len as nat,
                max: max as nat,
            },
            OkfError::DocumentTooLarge { len, max } => OkfErrorModel::DocumentTooLarge {
                len: len as nat,
                max: max as nat,
            },
            OkfError::Unsupported { line, reason } => OkfErrorModel::Unsupported {
                line: line as nat,
                reason: reason@,
            },
            OkfError::DuplicateKey { line, key } => OkfErrorModel::DuplicateKey {
                line: line as nat,
                key: key@,
            },
            OkfError::MissingType => OkfErrorModel::MissingType,
            OkfError::InvalidLink { offset, target } => OkfErrorModel::InvalidLink {
                offset: offset as nat,
                target: target@,
            },
            OkfError::TooManyLinks { max } => OkfErrorModel::TooManyLinks { max: max as nat },
        }
    }
}

impl OkfErrorModel {
    /// The text shown to a person.
    pub open spec fn message(self) -> Seq<char> {
        match self {
            OkfErrorModel::MissingFrontmatter =>
                "el documento debe empezar con '---' en la primera línea"@,
            OkfErrorModel::UnterminatedFrontmatter => "frontmatter sin '---' de cierre"@,
            OkfErrorModel::FrontmatterTooLarge { len, max } => "frontmatter de "@ + dec(len)
                + " bytes; máximo "@ + dec(max),
            OkfErrorModel::DocumentTooLarge { len, max } => "documento de "@ + dec(len)
                + " bytes; máximo "@ + dec(max),
            OkfErrorModel::Unsupported { line, reason } => "línea "@ + dec(line) + ": "@ + reason,
            OkfErrorModel::DuplicateKey { line, key } => "línea "@ + dec(line)
                + ": clave duplicada "@ + debug_text(key),
            OkfErrorModel::MissingType => "falta el campo obligatorio 'type'"@,
            OkfErrorModel::InvalidLink { offset, target } => "enlace inválido "@ + debug_text(
                target,
            ) + " en el byte "@ + dec(offset),
            OkfErrorModel::TooManyLinks { max } => "el documento supera el máximo de "@ + dec(max)
                + " enlaces"@,
        }
    }
}

impl Clone for OkfError {
    fn clone(&self) -> (r: Self)
        ensures
            r@ == self@,
    {
        match self {
            OkfError::MissingFrontmatter => OkfError::MissingFrontmatter,
            OkfError::UnterminatedFrontmatter => OkfError::UnterminatedFrontmatter,
            OkfError::FrontmatterTooLarge { len, max } => OkfError::FrontmatterTooLarge {
                len: *len,
                max: *max,
            },
            OkfError::DocumentTooLarge { len, max } => OkfError::DocumentTooLarge {
                len: *len,
                max: *max,
            },
            OkfError::Unsupported { line, reason } => OkfError::Unsupported {
                line: *line,
                reason: reason.clone(),
            },
            OkfError::DuplicateKey { line, key } => OkfError::DuplicateKey {
                line: *line,
                key: key.clone(),
            },
            OkfError::MissingType => OkfError::MissingType,
            OkfError::InvalidLink { offset, target } => OkfError::InvalidLink {
                offset: *offset,
                target: target.clone(),
            },
            OkfError::TooManyLinks { max } => OkfError::TooManyLinks { max: *max },
        }
    }
}

impl OkfError {
    /// The text shown to a person.
    pub fn message(&self) -> (r: String)
        ensures
            r@ == self@.message(),
    {
        let mut out = String::new();
        match self {
            OkfError::MissingFrontmatter => {
                out.push_str("el documento debe empezar con '---' en la primera línea");
            },
            OkfError::UnterminatedFrontmatter => {
                out.push_str("frontmatter sin '---' de cierre");
            },
            OkfError::FrontmatterTooLarge { len, max } => {
                out.push_str("frontmatter de ");
                push_dec(&mut out, *len as u64);
                out.push_str(" bytes; máximo ");
                push_dec(&mut out, *max as u64);
            },
            OkfError::DocumentTooLarge { len, max } => {
                out.push_str("documento de ");
                push_dec(&mut out, *len as u64);
                out.push_str(" bytes; máximo ");
                push_dec(&mut out, *max as u64);
            },
            OkfError::Unsupported { line, reason } => {
                out.push_str("línea ");
                push_dec(&mut out, *line as u64);
                out.push_str(": ");
                out.push_str(reason.as_str());
            },
            OkfError::DuplicateKey { line, key } => {
                out.push_str("línea ");
                push_dec(&mut out, *line as u64);
                out.push_str(": clave duplicada ");
                out.push_str(quoted(key.as_str()).as_str());
            },
            OkfError::MissingType => {
                out.push_str("falta el campo obligatorio 'type'");
            },
            OkfError::InvalidLink { offset, target } => {
                out.push_str("enlace inválido ");
                out.push_str(quoted(target.as_str()).as_str());
                out.push_str(" en el byte ");
                push_dec(&mut out, *offset as u64);
            },
            OkfError::TooManyLinks { max } => {
                out.push_str("el documento supera el máximo de ");
                push_dec(&mut out, *max as u64);
                out.push_str(" enlaces");
            },
        }
        assert(out@ =~= self@.message());
        out
    }
}

pub open spec fn unsupported(line: nat, reason: Seq<char>) -> OkfErrorModel {
    OkfErrorModel::Unsupported { line, reason }
}

// ---------------------------------------------------------------------
// The frontmatter and the body
// ---------------------------------------------------------------------

/// Without line feeds and carriage returns at the end.
pub open spec fn trim_eol(s: Seq<char>) -> Seq<char>
    decreases s.len(),
{
    if s.len() > 0 && (s.last() == '\n' || s.last() == '\r') {
        trim_eol(s.drop_last())
    } else {
        s
    }
}

/// Index just past the line that starts at `i`.
pub open spec fn line_end(t: Seq<char>, i: int) -> int {
    match find_char_from(t, i, '\n') {
        Some(k) => k + 1,
        None => t.len() as int,
    }
}

/// Where the first line from `i` on that reads `---` starts, and where it
/// ends, as long as what precedes it takes at most `max` bytes.
pub open spec fn closing(t: Seq<char>, i: int, max: nat) -> Result<(int, int), OkfErrorModel>
    decreases t.len() - i,
{
    let e = line_end(t, i);
    if i < 0 || !(i < e <= t.len()) {
        Err(OkfErrorModel::UnterminatedFrontmatter)
    } else if trim_eol(t.subrange(i, e)) == "---"@ {
        if utf8_len(t.take(i)) > max {
            Err(OkfErrorModel::FrontmatterTooLarge { len: utf8_len(t.take(i)), max })
        } else {
            Ok((i, e))
        }
    } else if utf8_len(t.take(e)) > max {
        Err(OkfErrorModel::FrontmatterTooLarge { len: utf8_len(t.take(e)), max })
    } else {
        closing(t, e, max)
    }
}

/// Characters of the opening delimiter.
pub open spec fn open_len(raw: Seq<char>) -> Option<nat> {
    if starts_with(raw, "---\n"@) {
        Some("---\n"@.len())
    } else if starts_with(raw, "---\r\n"@) {
        Some("---\r\n"@.len())
    } else {
        None
    }
}

/// The frontmatter text between the delimiters, and the index at which the
/// body starts.
pub open spec fn split(raw: Seq<char>, max: nat) -> Result<(Seq<char>, int), OkfErrorModel> {
    match open_len(raw) {
        None => Err(OkfErrorModel::MissingFrontmatter),
        Some(o) => {
            let t = raw.skip(o as int);
            match closing(t, 0, max) {
                Err(e) => Err(e),
                Ok((i, e)) => Ok((t.take(i), o + e)),
            }
        },
    }
}

proof fn lemma_closing(t: Seq<char>, i: int, max: nat)
    requires
        0 <= i,
    ensures
        match closing(t, i, max) {
            Ok((a, e)) => i <= a < e <= t.len(),
            Err(_) => true,
        },
    decreases t.len() - i,
{
    let e = line_end(t, i);
    if i < e <= t.len() && trim_eol(t.subrange(i, e)) != "---"@ && utf8_len(t.take(e)) <= max {
        lemma_closing(t, e, max);
    }
}

/// What `split` gives are parts of the text: after the opening delimiter the
/// frontmatter, then the closing delimiter, then the body.
pub proof fn lemma_split_parts(raw: Seq<char>, max: nat)
    ensures
        match split(raw, max) {
            Ok((fm, b)) => ({
                let o = open_len(raw)->0 as int;
                &&& open_len(raw) is Some
                &&& 0 < o
                &&& o + fm.len() < b <= raw.len()
                &&& fm == raw.subrange(o, o + fm.len())
            }),
            Err(_) => true,
        },
{
    reveal_strlit("---\n");
    reveal_strlit("---\r\n");
    match open_len(raw) {
        Some(o) => {
            lemma_closing(raw.skip(o as int), 0, max);
            match closing(raw.skip(o as int), 0, max) {
                Ok((i, e)) => {
                    assert(raw.skip(o as int).take(i) =~= raw.subrange(o as int, o + i));
                },
                Err(_) => {},
            }
        },
        None => {},
    }
}

pub(crate) fn trim_eol_of(v: &[char]) -> (r: &[char])
    ensures
        r@ == trim_eol(v@),
{
    let mut n: usize = v.len();
    assert(v@.take(n as int) =~= v@);
    while n > 0 && (v[n - 1] == '\n' || v[n - 1] == '\r')
        invariant
            n <= v.len(),
            trim_eol(v@) == trim_eol(v@.take(n as int)),
        decreases n,
    {
        assert(v@.take(n as int).drop_last() =~= v@.take(n - 1));
        n -= 1;
    }
    part_to(v, n)
}

pub(crate) fn line_end_of(v: &[char], i: usize) -> (r: usize)
    requires
        i < v.len(),
    ensures
        r == line_end(v@, i as int),
        i < r <= v.len(),
{
    let mut k: usize = i;
    while k < v.len() && v[k] != '\n'
        invariant
            i <= k <= v.len(),
            find_char_from(v@, i as int, '\n') == find_char_from(v@, k as int, '\n'),
        decreases v.len() - k,
    {
        k += 1;
    }
    if k < v.len() {
        k + 1
    } else {
        v.len()
    }
}

/// Where the frontmatter text starts and ends, and where the body starts.
pub(crate) fn split_frontmatter(raw: &[char], max: usize) -> (r: Result<(usize, usize, usize), OkfError>)
    requires
        utf8_len(raw@) <= usize::MAX,
    ensures
        match r {
            Err(e) => split(raw@, max as nat) == Err::<(Seq<char>, int), _>(e@),
            Ok((a, b, c)) => a <= b <= c <= raw@.len() && open_len(raw@) == Some(a as nat) && split(
                raw@,
                max as nat,
            ) == Ok::<_, OkfErrorModel>((raw@.subrange(a as int, b as int), c as int)),
        },
{
    let (t, o) = match strip_prefix_of(raw, "---\n") {
        Some(t) => (t, raw.len() - t.len()),
        None => match strip_prefix_of(raw, "---\r\n") {
            Some(t) => (t, raw.len() - t.len()),
            None => {
                return Err(OkfError::MissingFrontmatter);
            },
        },
    };
    assert(t@ == raw@.skip(o as int));
    assert(open_len(raw@) == Some(o as nat));
    proof {
        crate::text::lemma_utf8_len_take(raw@, o as int, o as int);
    }
    let mut i: usize = 0;
    let mut bytes: usize = 0;
    assert(t@.take(0) =~= Seq::<char>::empty());
    while i < t.len()
        invariant
            i <= t.len(),
            o + t.len() == raw.len(),
            t@ == raw@.skip(o as int),
            open_len(raw@) == Some(o as nat),
            utf8_len(t@) <= usize::MAX,
            bytes == utf8_len(t@.take(i as int)),
            closing(t@, 0, max as nat) == closing(t@, i as int, max as nat),
        decreases t.len() - i,
    {
        let e = line_end_of(t, i);
        let line = part(t, i, e);
        proof {
            crate::text::lemma_utf8_len_take(t@, i as int, e as int);
        }
        if chars_are(trim_eol_of(line), "---") {
            if bytes > max {
                return Err(OkfError::FrontmatterTooLarge { len: bytes, max });
            }
            assert(t@.take(i as int) =~= raw@.subrange(o as int, o + i));
            return Ok((o, o + i, o + e));
        }
        bytes = bytes + bytes_of(line);
        if bytes > max {
            return Err(OkfError::FrontmatterTooLarge { len: bytes, max });
        }
        i = e;
    }
    assert(line_end(t@, i as int) <= t@.len());
    Err(OkfError::UnterminatedFrontmatter)
}

// ---------------------------------------------------------------------
// Fields
// ---------------------------------------------------------------------

/// What is wrong with a scalar that starts with YAML syntax outside the
/// subset.
pub open spec fn marker_error(c: char) -> Option<Seq<char>> {
    if c == '|' {
        Some("sintaxis YAML \"|\" fuera del subconjunto"@)
    } else if c == '>' {
        Some("sintaxis YAML \">\" fuera del subconjunto"@)
    } else if c == '&' {
        Some("sintaxis YAML \"&\" fuera del subconjunto"@)
    } else if c == '*' {
        Some("sintaxis YAML \"*\" fuera del subconjunto"@)
    } else if c == '{' {
        Some("sintaxis YAML \"{\" fuera del subconjunto"@)
    } else if c == '[' {
        Some(
            "sintaxis YAML \"[\" fuera del subconjunto — usa lista en bloque: la clave sola en su línea, luego '  - item' en líneas propias"@,
        )
    } else {
        None
    }
}

/// The value of a scalar: what stands between double quotes, or plain text
/// up to a comment.
pub open spec fn scalar(s: Seq<char>, line: nat) -> Result<Seq<char>, OkfErrorModel> {
    if s.len() > 0 && s[0] == '"' {
        if s.len() < 2 || s.last() != '"' {
            Err(unsupported(line, "comillas sin cerrar"@))
        } else {
            let inner = s.subrange(1, s.len() - 1);
            if inner.contains('\\') || inner.contains('"') {
                Err(unsupported(line, "escapes dentro de comillas no soportados"@))
            } else {
                Ok(inner)
            }
        }
    } else if s.len() > 0 && marker_error(s[0]) is Some {
        Err(unsupported(line, marker_error(s[0])->0))
    } else {
        match find_from(s, 0, " #"@) {
            Some(i) => Ok(trim_end(s.take(i))),
            None => Ok(s),
        }
    }
}

fn marker_error_of(c: char) -> (r: Option<&'static str>)
    ensures
        match r {
            Some(m) => marker_error(c) == Some(m@),
            None => marker_error(c) is None,
        },
{
    if c == '|' {
        Some("sintaxis YAML \"|\" fuera del subconjunto")
    } else if c == '>' {
        Some("sintaxis YAML \">\" fuera del subconjunto")
    } else if c == '&' {
        Some("sintaxis YAML \"&\" fuera del subconjunto")
    } else if c == '*' {
        Some("sintaxis YAML \"*\" fuera del subconjunto")
    } else if c == '{' {
        Some("sintaxis YAML \"{\" fuera del subconjunto")
    } else if c == '[' {
        Some(
            "sintaxis YAML \"[\" fuera del subconjunto — usa lista en bloque: la clave sola en su línea, luego '  - item' en líneas propias",
        )
    } else {
        None
    }
}

fn parse_scalar(s: &[char], line: usize) -> (r: Result<String, OkfError>)
    ensures
        res_view(r) == scalar(s@, line as nat),
{
    if s.len() > 0 && s[0] == '"' {
        if s.len() < 2 || s[s.len() - 1] != '"' {
            return Err(
                OkfError::Unsupported { line, reason: "comillas sin cerrar".to_owned() },
            );
        }
        let inner = part(s, 1, s.len() - 1);
        if has_char(inner, '\\') || has_char(inner, '"') {
            return Err(
                OkfError::Unsupported {
                    line,
                    reason: "escapes dentro de comillas no soportados".to_owned(),
                },
            );
        }
        return Ok(string_of(inner));
    }
    if s.len() > 0 {
        match marker_error_of(s[0]) {
            Some(m) => {
                return Err(OkfError::Unsupported { line, reason: m.to_owned() });
            },
            None => {},
        }
    }
    match find_of(s, " #") {
        Some(i) => Ok(string_of(trim_end_of(part_to(s, i)))),
        None => Ok(string_of(s)),
    }
}

/// Characters of a field's key.
pub open spec fn key_ok(k: Seq<char>) -> bool {
    &&& k.len() > 0
    &&& forall|i: int| 0 <= i < k.len() ==> is_alnum(#[trigger] k[i]) || k[i] == '_' || k[i] == '-'
}

pub(crate) fn key_ok_of(k: &[char]) -> (r: bool)
    ensures
        r == key_ok(k@),
{
    let mut i: usize = 0;
    while i < k.len()
        invariant
            i <= k.len(),
            forall|j: int| 0 <= j < i ==> is_alnum(#[trigger] k@[j]) || k@[j] == '_' || k@[j] == '-',
        decreases k.len() - i,
    {
        if !(alnum(k[i]) || k[i] == '_' || k[i] == '-') {
            assert(!(is_alnum(k@[i as int]) || k@[i as int] == '_' || k@[i as int] == '-'));
            return false;
        }
        i += 1;
    }
    k.len() > 0
}

pub type Fields = Seq<(Seq<char>, FmModel)>;

/// The first field called `k`, from index `i` on.
pub open spec fn field_from(f: Fields, i: int, k: Seq<char>) -> Option<FmModel>
    decreases f.len() - i,
{
    if i < 0 || i >= f.len() {
        None
    } else if f[i].0 == k {
        Some(f[i].1)
    } else {
        field_from(f, i + 1, k)
    }
}

pub open spec fn field(f: Fields, k: Seq<char>) -> Option<FmModel> {
    field_from(f, 0, k)
}

pub(crate) fn field_of<'a>(f: &'a Vec<(String, FmValue)>, k: &str) -> (r: Option<&'a FmValue>)
    ensures
        match r {
            Some(v) => field(views(f@), k@) == Some(v@),
            None => field(views(f@), k@) is None,
        },
{
    let mut i: usize = 0;
    while i < f.len()
        invariant
            i <= f.len(),
            field(views(f@), k@) == field_from(views(f@), i as int, k@),
        decreases f.len() - i,
    {
        assert(views(f@)[i as int] == f@[i as int]@);
        if str_eq(f[i].0.as_str(), k) {
            return Some(&f[i].1);
        }
        i += 1;
    }
    None
}

/// Progress through the frontmatter: the fields so far, and whether the last
/// one is a list that still takes items.
pub struct Reading {
    pub fields: Fields,
    pub open: bool,
}

/// `v` added to the list that is the last field.
pub open spec fn with_item(f: Fields, v: Seq<char>) -> Fields {
    match f.last().1 {
        FmModel::List(items) => f.drop_last().push((f.last().0, FmModel::List(items.push(v)))),
        FmModel::Scalar(_) => f,
    }
}

/// A blank line or a comment.
pub open spec fn is_filler(line: Seq<char>) -> bool {
    line.len() == 0 || starts_with(trim_start(line), "#"@)
}

/// One line of frontmatter, read in the state `st`.
pub open spec fn step(raw_line: Seq<char>, no: nat, st: Reading) -> Result<Reading, OkfErrorModel> {
    let line = trim_end(raw_line);
    if is_filler(line) {
        Ok(st)
    } else {
        match strip_prefix(trim_start(line), "- "@) {
            Some(item) => if !st.open {
                Err(unsupported(no, "elemento de lista sin clave previa"@))
            } else {
                match scalar(item, no) {
                    Err(e) => Err(e),
                    Ok(v) => Ok(Reading { fields: with_item(st.fields, v), open: true }),
                }
            },
            None => if line[0] == ' ' || line[0] == '\t' {
                Err(unsupported(no, "anidamiento no soportado por el subconjunto"@))
            } else {
                match find_char(line, ':') {
                    None => Err(unsupported(no, "se esperaba 'clave: valor'"@)),
                    Some(c) => {
                        let key = trim(line.take(c));
                        let rest = trim(line.skip(c + 1));
                        if !key_ok(key) {
                            Err(unsupported(no, "clave inválida "@ + debug_text(key)))
                        } else if field(st.fields, key) is Some {
                            Err(OkfErrorModel::DuplicateKey { line: no, key })
                        } else if rest.len() == 0 {
                            Ok(
                                Reading {
                                    fields: st.fields.push((key, FmModel::List(Seq::empty()))),
                                    open: true,
                                },
                            )
                        } else {
                            match scalar(rest, no) {
                                Err(e) => Err(e),
                                Ok(v) => Ok(
                                    Reading {
                                        fields: st.fields.push((key, FmModel::Scalar(v))),
                                        open: false,
                                    },
                                ),
                            }
                        }
                    },
                }
            },
        }
    }
}

/// The fields that the lines from `i` on add to what was read.
pub open spec fn read_lines(ls: Seq<Seq<char>>, i: int, st: Reading) -> Result<
    Fields,
    OkfErrorModel,
>
    decreases ls.len() - i,
{
    if i < 0 || i >= ls.len() {
        Ok(st.fields)
    } else {
        match step(ls[i], (i + 2) as nat, st) {
            Err(e) => Err(e),
            Ok(next) => read_lines(ls, i + 1, next),
        }
    }
}

/// The fields of a frontmatter text, in order of appearance.
pub open spec fn frontmatter(text: Seq<char>) -> Result<Fields, OkfErrorModel> {
    read_lines(lines(text), 0, Reading { fields: Seq::empty(), open: false })
}

pub open spec fn last_is_list(f: Fields) -> bool {
    f.len() > 0 && f.last().1 is List
}

/// The fields of a frontmatter, which is the text between its two fences.
pub fn parse_frontmatter(text: &[char]) -> (r: Result<Vec<(String, FmValue)>, OkfError>)
    requires
        text@.len() < usize::MAX - 2,
    ensures
        match r {
            Ok(f) => frontmatter(text@) == Ok::<Fields, OkfErrorModel>(views(f@)),
            Err(e) => frontmatter(text@) == Err::<Fields, OkfErrorModel>(e@),
        },
{
    let ls = lines_of(text);
    proof {
        crate::text::lemma_lines_len(text@, 0);
    }
    let mut fields: Vec<(String, FmValue)> = Vec::new();
    let mut open: bool = false;
    let mut i: usize = 0;
    assert(views(fields@) =~= Seq::empty());
    while i < ls.len()
        invariant
            i <= ls.len(),
            ls.len() < usize::MAX - 2,
            views(ls@) == lines(text@),
            open ==> last_is_list(views(fields@)),
            frontmatter(text@) == read_lines(
                lines(text@),
                i as int,
                Reading { fields: views(fields@), open },
            ),
        decreases ls.len() - i,
    {
        let no: usize = i + 2;
        let ghost st = Reading { fields: views(fields@), open };
        assert(views(ls@)[i as int] == ls@[i as int]@);
        let line = trim_end_of(ls[i].as_slice());
        let lead = trim_start_of(line);
        i += 1;
        if line.len() == 0 || starts_with_of(lead, "#") {
            continue;
        }
        match strip_prefix_of(lead, "- ") {
            Some(item) => {
                if !open {
                    return Err(
                        OkfError::Unsupported {
                            line: no,
                            reason: "elemento de lista sin clave previa".to_owned(),
                        },
                    );
                }
                let v = match parse_scalar(item, no) {
                    Err(e) => {
                        return Err(e);
                    },
                    Ok(v) => v,
                };
                let ghost vv = v@;
                assert(fields@.last()@ == views(fields@).last());
                match fields.pop() {
                    Some((k, FmValue::List(mut items))) => {
                        let ghost old_items = views(items@);
                        proof {
                            crate::text::lemma_views_push(items@, v);
                        }
                        items.push(v);
                        let ghost entry = (k, FmValue::List(items));
                        proof {
                            crate::text::lemma_views_push(fields@, entry);
                            assert(views(fields@) =~= st.fields.drop_last());
                        }
                        fields.push((k, FmValue::List(items)));
                        assert(views(fields@) == with_item(st.fields, vv));
                    },
                    _ => {
                        assert(false);
                    },
                }
            },
            None => {
                open = false;
                if line[0] == ' ' || line[0] == '\t' {
                    return Err(
                        OkfError::Unsupported {
                            line: no,
                            reason: "anidamiento no soportado por el subconjunto".to_owned(),
                        },
                    );
                }
                let c = match find_char_of(line, ':') {
                    None => {
                        return Err(
                            OkfError::Unsupported {
                                line: no,
                                reason: "se esperaba 'clave: valor'".to_owned(),
                            },
                        );
                    },
                    Some(c) => c,
                };
                let key_chars = trim_of(part_to(line, c));
                let key = string_of(key_chars);
                if !key_ok_of(key_chars) {
                    let mut reason = "clave inválida ".to_owned();
                    reason.push_str(quoted(key.as_str()).as_str());
                    return Err(OkfError::Unsupported { line: no, reason });
                }
                if field_of(&fields, key.as_str()).is_some() {
                    return Err(OkfError::DuplicateKey { line: no, key });
                }
                let rest = trim_of(part_from(line, c + 1));
                if rest.len() == 0 {
                    let items: Vec<String> = Vec::new();
                    assert(views(items@) =~= Seq::<Seq<char>>::empty());
                    let entry = (key, FmValue::List(items));
                    proof {
                        crate::text::lemma_views_push(fields@, entry);
                    }
                    fields.push(entry);
                    open = true;
                } else {
                    match parse_scalar(rest, no) {
                        Err(e) => {
                            return Err(e);
                        },
                        Ok(v) => {
                            let entry = (key, FmValue::Scalar(v));
                            proof {
                                crate::text::lemma_views_push(fields@, entry);
                            }
                            fields.push(entry);
                        },
                    }
                }
            },
        }
    }
    Ok(fields)
}

// ---------------------------------------------------------------------
// Links
// ---------------------------------------------------------------------

pub open spec fn is_rel_char(c: char) -> bool {
    ('a' <= c && c <= 'z') || ('0' <= c && c <= '9') || c == '-' || c == '_'
}

/// A relation: one to [`MAX_LINK_REL_LEN`] characters of a small alphabet.
pub open spec fn rel_ok(s: Seq<char>) -> bool {
    &&& 0 < s.len() <= MAX_LINK_REL_LEN
    &&& forall|i: int| 0 <= i < s.len() ==> is_rel_char(#[trigger] s[i])
}

/// What stands between `[[` and `]]`, read as `target` or `rel:target`.
pub open spec fn link(raw: Seq<char>) -> Option<LinkModel> {
    match find_char(raw, ':') {
        None => if valid_id(raw) {
            Some(LinkModel { target: raw, rel: None })
        } else {
            None
        },
        Some(c) => if rel_ok(raw.take(c)) && valid_id(raw.skip(c + 1)) {
            Some(LinkModel { target: raw.skip(c + 1), rel: Some(raw.take(c)) })
        } else {
            None
        },
    }
}

/// Whether some link leads to `target`.
pub open spec fn targets(links: Seq<LinkModel>, target: Seq<char>) -> bool {
    exists|i: int| 0 <= i < links.len() && (#[trigger] links[i]).target == target
}

/// Whether a code fence opens or closes at `i`.
pub open spec fn fence_at(s: Seq<char>, i: int, fence: bool, line_start: bool) -> bool {
    if line_start && at(s, i, "```"@) {
        !fence
    } else {
        fence
    }
}

/// The links from index `i` on, added to those already found. Text inside
/// code fences does not count; a target counts once, where it comes first.
pub open spec fn scan(
    s: Seq<char>,
    i: int,
    fence: bool,
    line_start: bool,
    found: Seq<LinkModel>,
    base: nat,
    max: nat,
) -> Result<Seq<LinkModel>, OkfErrorModel>
    decreases s.len() - i,
{
    if i < 0 || i >= s.len() {
        Ok(found)
    } else {
        let inside = fence_at(s, i, fence, line_start);
        if !inside && at(s, i, "[["@) {
            match find_from(s, i + "[["@.len(), "]]"@) {
                None => Ok(found),
                Some(j) => {
                    let raw = s.subrange(i + "[["@.len(), j);
                    match link(raw) {
                        None => Err(
                            OkfErrorModel::InvalidLink {
                                offset: base + utf8_len(s.take(i)),
                                target: raw,
                            },
                        ),
                        Some(l) => if !(i < j + "]]"@.len() <= s.len()) {
                            Ok(found)
                        } else if targets(found, l.target) {
                            scan(s, j + "]]"@.len(), inside, false, found, base, max)
                        } else if found.len() >= max {
                            Err(OkfErrorModel::TooManyLinks { max })
                        } else {
                            scan(s, j + "]]"@.len(), inside, false, found.push(l), base, max)
                        },
                    }
                },
            }
        } else {
            scan(s, i + 1, inside, s[i] == '\n', found, base, max)
        }
    }
}

/// The links of a body that starts `base` bytes into its document.
pub open spec fn links_in(body: Seq<char>, base: nat, max: nat) -> Result<
    Seq<LinkModel>,
    OkfErrorModel,
> {
    scan(body, 0, false, true, Seq::empty(), base, max)
}

/// Links lead to valid ids, no two to the same one, and there are at most
/// `max` of them.
pub open spec fn links_ok(links: Seq<LinkModel>, max: nat) -> bool {
    &&& links.len() <= max
    &&& forall|i: int| 0 <= i < links.len() ==> valid_id((#[trigger] links[i]).target)
    &&& forall|i: int, j: int|
        0 <= i < j < links.len() ==> (#[trigger] links[i]).target != (#[trigger] links[j]).target
}

proof fn lemma_scan_ok(
    s: Seq<char>,
    i: int,
    fence: bool,
    line_start: bool,
    found: Seq<LinkModel>,
    base: nat,
    max: nat,
)
    requires
        links_ok(found, max),
    ensures
        match scan(s, i, fence, line_start, found, base, max) {
            Ok(l) => links_ok(l, max),
            Err(_) => true,
        },
    decreases s.len() - i,
{
    if 0 <= i < s.len() {
        let inside = fence_at(s, i, fence, line_start);
        if !inside && at(s, i, "[["@) {
            match find_from(s, i + "[["@.len(), "]]"@) {
                None => {},
                Some(j) => match link(s.subrange(i + "[["@.len(), j)) {
                    None => {},
                    Some(l) => if i < j + "]]"@.len() <= s.len() {
                        if targets(found, l.target) {
                            lemma_scan_ok(s, j + "]]"@.len(), inside, false, found, base, max);
                        } else if found.len() < max {
                            let more = found.push(l);
                            assert forall|a: int, b: int| 0 <= a < b < more.len() implies (
                            #[trigger] more[a]).target != (#[trigger] more[b]).target by {
                                if b == found.len() {
                                    assert(more[a] == found[a]);
                                }
                            }
                            lemma_scan_ok(s, j + "]]"@.len(), inside, false, more, base, max);
                        }
                    },
                },
            }
        } else {
            lemma_scan_ok(s, i + 1, inside, s[i] == '\n', found, base, max);
        }
    }
}

/// The links of any body lead to valid ids, each to a different one, within
/// the budget.
pub proof fn law_links_are_distinct_and_bounded(body: Seq<char>, base: nat, max: nat)
    ensures
        match links_in(body, base, max) {
            Ok(l) => links_ok(l, max),
            Err(_) => true,
        },
{
    lemma_scan_ok(body, 0, false, true, Seq::empty(), base, max);
}

fn rel_ok_of(s: &[char]) -> (r: bool)
    ensures
        r == rel_ok(s@),
{
    if s.len() == 0 || s.len() > MAX_LINK_REL_LEN {
        return false;
    }
    let mut i: usize = 0;
    while i < s.len()
        invariant
            i <= s.len(),
            forall|j: int| 0 <= j < i ==> is_rel_char(#[trigger] s@[j]),
        decreases s.len() - i,
    {
        let c = s[i];
        if !(('a' <= c && c <= 'z') || ('0' <= c && c <= '9') || c == '-' || c == '_') {
            assert(!is_rel_char(s@[i as int]));
            return false;
        }
        i += 1;
    }
    true
}

fn parse_link(raw: &[char]) -> (r: Option<Link>)
    ensures
        opt_view(r) == link(raw@),
{
    match find_char_of(raw, ':') {
        None => match ConceptId::parse(string_of(raw).as_str()) {
            Ok(target) => Some(Link { target, rel: None }),
            Err(_) => None,
        },
        Some(c) => {
            let rel = part_to(raw, c);
            if !rel_ok_of(rel) {
                return None;
            }
            match ConceptId::parse(string_of(part_from(raw, c + 1)).as_str()) {
                Ok(target) => Some(Link { target, rel: Some(string_of(rel)) }),
                Err(_) => None,
            }
        },
    }
}

fn has_target(links: &Vec<Link>, target: &ConceptId) -> (r: bool)
    ensures
        r == targets(views(links@), target@),
{
    let mut i: usize = 0;
    while i < links.len()
        invariant
            i <= links.len(),
            forall|k: int| 0 <= k < i ==> (#[trigger] views(links@)[k]).target != target@,
        decreases links.len() - i,
    {
        if links[i].target.same(target) {
            assert(views(links@)[i as int].target == target@);
            return true;
        }
        i += 1;
    }
    false
}

/// The place of a bad link, if there is one, can be counted.
pub open spec fn place_fits(r: Result<Seq<LinkModel>, OkfErrorModel>) -> bool {
    match r {
        Err(OkfErrorModel::InvalidLink { offset, target: _ }) => offset <= usize::MAX,
        _ => true,
    }
}

fn scan_chars(s: &[char], base: usize, max: usize) -> (r: Result<Vec<Link>, OkfError>)
    requires
        base + utf8_len(s@) <= usize::MAX || place_fits(links_in(s@, base as nat, max as nat)),
    ensures
        match r {
            Ok(l) => links_in(s@, base as nat, max as nat) == Ok::<_, OkfErrorModel>(views(l@)),
            Err(e) => links_in(s@, base as nat, max as nat) == Err::<Seq<LinkModel>, _>(e@),
        },
{
    proof {
        reveal_strlit("[[");
        reveal_strlit("]]");
    }
    let fence_mark = chars_of("```");
    let open_mark = chars_of("[[");
    let mut found: Vec<Link> = Vec::new();
    let mut i: usize = 0;
    let mut fence: bool = false;
    let mut line_start: bool = true;
    assert(views(found@) =~= Seq::empty());
    while i < s.len()
        invariant
            i <= s.len(),
            base + utf8_len(s@) <= usize::MAX || place_fits(
                links_in(s@, base as nat, max as nat),
            ),
            fence_mark@ == "```"@,
            open_mark@ == "[["@,
            "[["@.len() == 2,
            "]]"@.len() == 2,
            links_in(s@, base as nat, max as nat) == scan(
                s@,
                i as int,
                fence,
                line_start,
                views(found@),
                base as nat,
                max as nat,
            ),
        decreases s.len() - i,
    {
        if line_start && at_of(s, i, fence_mark.as_slice()) {
            fence = !fence;
        }
        if !fence && at_of(s, i, open_mark.as_slice()) {
            match find_from_of(s, i + 2, "]]") {
                None => {
                    return Ok(found);
                },
                Some(j) => {
                    let raw = part(s, i + 2, j);
                    match parse_link(raw) {
                        None => {
                            proof {
                                crate::text::lemma_utf8_len_take(s@, i as int, s@.len() as int);
                                assert(s@.take(s@.len() as int) =~= s@);
                            }
                            let before = bytes_of(part_to(s, i));
                            return Err(
                                OkfError::InvalidLink {
                                    offset: base + before,
                                    target: string_of(raw),
                                },
                            );
                        },
                        Some(l) => {
                            if !has_target(&found, &l.target) {
                                if found.len() >= max {
                                    return Err(OkfError::TooManyLinks { max });
                                }
                                proof {
                                    crate::text::lemma_views_push(found@, l);
                                }
                                found.push(l);
                            }
                        },
                    }
                    i = j + 2;
                    line_start = false;
                },
            }
        } else {
            line_start = s[i] == '\n';
            i += 1;
        }
    }
    Ok(found)
}

/// The links of `body`, which starts `base_offset` bytes into its document.
pub fn scan_links(body: &str, base_offset: usize, budget: &Budget) -> (r: Result<
    Vec<Link>,
    OkfError,
>)
    requires
        place_fits(
            links_in(body@, base_offset as nat, budget.max_links_per_document as nat),
        ),
    ensures
        match r {
            Ok(l) => links_in(
                body@,
                base_offset as nat,
                budget.max_links_per_document as nat,
            ) == Ok::<_, OkfErrorModel>(views(l@)) && links_ok(
                views(l@),
                budget.max_links_per_document as nat,
            ),
            Err(e) => links_in(
                body@,
                base_offset as nat,
                budget.max_links_per_document as nat,
            ) == Err::<Seq<LinkModel>, _>(e@),
        },
{
    let chars = chars_of(body);
    proof {
        law_links_are_distinct_and_bounded(
            body@,
            base_offset as nat,
            budget.max_links_per_document as nat,
        );
    }
    scan_chars(chars.as_slice(), base_offset, budget.max_links_per_document)
}

// ---------------------------------------------------------------------
// Documents
// ---------------------------------------------------------------------

/// The key that a line of frontmatter starts.
pub open spec fn line_key(line: Seq<char>) -> Seq<char> {
    match find_char(line, ':') {
        Some(c) => trim(line.take(c)),
        None => trim(line),
    }
}

/// Whether a line starts a field: it is neither filler nor an item of a list.
pub open spec fn starts_field(line: Seq<char>) -> bool {
    !is_filler(trim_end(line)) && !starts_with(trim_start(trim_end(line)), "- "@)
}

/// The number, within the document, of the first line from `i` on that starts
/// the field `k`; without one, that of the closing delimiter.
pub open spec fn place_from(ls: Seq<Seq<char>>, i: int, k: Seq<char>) -> nat
    decreases ls.len() - i,
{
    if i < 0 || i >= ls.len() {
        ls.len() + 2
    } else if starts_field(ls[i]) && line_key(trim_end(ls[i])) == k {
        (i + 2) as nat
    } else {
        place_from(ls, i + 1, k)
    }
}

/// The line of a document on which the field `k` of its frontmatter stands, or
/// would be added.
pub open spec fn place(fm: Seq<char>, k: Seq<char>) -> nat {
    place_from(lines(fm), 0, k)
}

pub(crate) fn place_of(fm: &[char], k: &str) -> (r: usize)
    requires
        fm@.len() < usize::MAX - 2,
    ensures
        r == place(fm@, k@),
{
    let ls = lines_of(fm);
    proof {
        crate::text::lemma_lines_len(fm@, 0);
    }
    let mut i: usize = 0;
    while i < ls.len()
        invariant
            i <= ls.len(),
            ls.len() < usize::MAX - 2,
            views(ls@) == lines(fm@),
            place(fm@, k@) == place_from(lines(fm@), i as int, k@),
        decreases ls.len() - i,
    {
        assert(views(ls@)[i as int] == ls@[i as int]@);
        let line = trim_end_of(ls[i].as_slice());
        let lead = trim_start_of(line);
        if !(line.len() == 0 || starts_with_of(lead, "#")) && !starts_with_of(lead, "- ") {
            let key = match find_char_of(line, ':') {
                Some(c) => trim_of(part_to(line, c)),
                None => trim_of(line),
            };
            if chars_are(key, k) {
                return i + 2;
            }
        }
        i += 1;
    }
    ls.len() + 2
}

/// The first field, from index `i` on, whose value has the wrong shape, with
/// the line on which it stands.
pub open spec fn shape_error(fm: Seq<char>, f: Fields, i: int) -> Option<OkfErrorModel>
    decreases f.len() - i,
{
    if i < 0 || i >= f.len() {
        None
    } else if f[i].0 == "type"@ && f[i].1 is List {
        Some(unsupported(place(fm, f[i].0), "'type' debe ser un escalar"@))
    } else if f[i].0 == "tags"@ && f[i].1 is Scalar {
        Some(unsupported(place(fm, f[i].0), "'tags' debe ser una lista"@))
    } else {
        shape_error(fm, f, i + 1)
    }
}

pub open spec fn scalar_field(f: Fields, k: Seq<char>) -> Option<Seq<char>> {
    match field(f, k) {
        Some(FmModel::Scalar(s)) => Some(s),
        _ => None,
    }
}

pub open spec fn tags_field(f: Fields) -> Seq<Seq<char>> {
    match field(f, "tags"@) {
        Some(FmModel::List(l)) => l,
        _ => Seq::empty(),
    }
}

/// A field that is not kept apart as type, title or tags.
pub open spec fn is_extra(k: Seq<char>, v: FmModel) -> bool {
    k != "type"@ && k != "tags"@ && !(k == "title"@ && v is Scalar)
}

/// The extra fields among the first `n`, in ascending key order.
pub open spec fn extras(f: Fields, n: int) -> Fields
    decreases n,
{
    if n <= 0 {
        Seq::empty()
    } else if is_extra(f[n - 1].0, f[n - 1].1) {
        put(extras(f, n - 1), f[n - 1].0, f[n - 1].1)
    } else {
        extras(f, n - 1)
    }
}

/// What a text says about itself as a document, or what is wrong with it.
pub open spec fn parsed(raw: Seq<char>, budget: Budget) -> Result<DocModel, OkfErrorModel> {
    if utf8_len(raw) > budget.max_document_bytes {
        Err(
            OkfErrorModel::DocumentTooLarge {
                len: utf8_len(raw),
                max: budget.max_document_bytes as nat,
            },
        )
    } else {
        match split(raw, budget.max_frontmatter_bytes as nat) {
            Err(e) => Err(e),
            Ok((fm, b)) => match frontmatter(fm) {
                Err(e) => Err(e),
                Ok(f) => match shape_error(fm, f, 0) {
                    Some(e) => Err(e),
                    None => match scalar_field(f, "type"@) {
                        None => Err(OkfErrorModel::MissingType),
                        Some(doc_type) => match links_in(
                            raw.skip(b),
                            utf8_len(raw.take(b)),
                            budget.max_links_per_document as nat,
                        ) {
                            Err(e) => Err(e),
                            Ok(links) => Ok(
                                DocModel {
                                    doc_type,
                                    title: scalar_field(f, "title"@),
                                    tags: tags_field(f),
                                    extra: extras(f, f.len() as int),
                                    body_offset: utf8_len(raw.take(b)),
                                    links,
                                },
                            ),
                        },
                    },
                },
            },
        }
    }
}

fn shape_error_of(fm: &[char], f: &Vec<(String, FmValue)>) -> (r: Option<OkfError>)
    requires
        fm@.len() < usize::MAX - 2,
    ensures
        opt_view(r) == shape_error(fm@, views(f@), 0),
{
    let mut i: usize = 0;
    while i < f.len()
        invariant
            i <= f.len(),
            fm@.len() < usize::MAX - 2,
            shape_error(fm@, views(f@), 0) == shape_error(fm@, views(f@), i as int),
        decreases f.len() - i,
    {
        assert(views(f@)[i as int] == f@[i as int]@);
        match &f[i].1 {
            FmValue::List(_) => {
                if str_eq(f[i].0.as_str(), "type") {
                    return Some(
                        OkfError::Unsupported {
                            line: place_of(fm, "type"),
                            reason: "'type' debe ser un escalar".to_owned(),
                        },
                    );
                }
            },
            FmValue::Scalar(_) => {
                if str_eq(f[i].0.as_str(), "tags") {
                    return Some(
                        OkfError::Unsupported {
                            line: place_of(fm, "tags"),
                            reason: "'tags' debe ser una lista".to_owned(),
                        },
                    );
                }
            },
        }
        i += 1;
    }
    None
}

fn scalar_field_of(f: &Vec<(String, FmValue)>, k: &str) -> (r: Option<String>)
    ensures
        opt_view(r) == scalar_field(views(f@), k@),
{
    match field_of(f, k) {
        Some(FmValue::Scalar(s)) => Some(s.clone()),
        _ => None,
    }
}

fn extras_of(f: &Vec<(String, FmValue)>) -> (r: Table<FmValue>)
    ensures
        r@ == extras(views(f@), f@.len() as int),
{
    let mut out: Table<FmValue> = Table::new();
    let mut i: usize = 0;
    while i < f.len()
        invariant
            i <= f.len(),
            out@ == extras(views(f@), i as int),
        decreases f.len() - i,
    {
        assert(views(f@)[i as int] == f@[i as int]@);
        let k = f[i].0.as_str();
        let is_scalar = match &f[i].1 {
            FmValue::Scalar(_) => true,
            FmValue::List(_) => false,
        };
        let extra = !str_eq(k, "type") && !str_eq(k, "tags") && !(str_eq(k, "title") && is_scalar);
        if extra {
            out.insert(f[i].0.clone(), f[i].1.clone());
        }
        i += 1;
    }
    out
}

fn document_of(raw: &[char], budget: &Budget) -> (r: Result<(OkfDocument, usize), OkfError>)
    requires
        utf8_len(raw@) <= usize::MAX,
    ensures
        match r {
            Ok((d, b)) => parsed(raw@, *budget) == Ok::<_, OkfErrorModel>(d@) && b
                <= raw@.len() && d.body_offset == utf8_len(raw@.take(b as int)) && split(
                raw@,
                budget.max_frontmatter_bytes as nat,
            )->Ok_0.1 == b,
            Err(e) => parsed(raw@, *budget) == Err::<DocModel, _>(e@),
        },
{
    let total = bytes_of(raw);
    if total > budget.max_document_bytes {
        return Err(
            OkfError::DocumentTooLarge { len: total, max: budget.max_document_bytes },
        );
    }
    let (a, z, b) = match split_frontmatter(raw, budget.max_frontmatter_bytes) {
        Err(e) => {
            return Err(e);
        },
        Ok(x) => x,
    };
    proof {
        crate::text::lemma_utf8_len_at_least(raw@);
        crate::text::lemma_utf8_len_take(raw@, b as int, b as int);
        lemma_split_room(raw@, budget.max_frontmatter_bytes as nat);
    }
    let fm = part(raw, a, z);
    let fields = match parse_frontmatter(fm) {
        Err(e) => {
            return Err(e);
        },
        Ok(f) => f,
    };
    match shape_error_of(fm, &fields) {
        Some(e) => {
            return Err(e);
        },
        None => {},
    }
    let doc_type = match scalar_field_of(&fields, "type") {
        None => {
            return Err(OkfError::MissingType);
        },
        Some(t) => t,
    };
    let body_offset = bytes_of(part_to(raw, b));
    let links = match scan_chars(part_from(raw, b), body_offset, budget.max_links_per_document) {
        Err(e) => {
            return Err(e);
        },
        Ok(l) => l,
    };
    let tags: Vec<String> = match field_of(&fields, "tags") {
        Some(FmValue::List(l)) => clone_strings(l),
        _ => {
            let none: Vec<String> = Vec::new();
            assert(views(none@) =~= Seq::<Seq<char>>::empty());
            none
        },
    };
    let title = scalar_field_of(&fields, "title");
    let extra = extras_of(&fields);
    Ok((OkfDocument { doc_type, title, tags, extra, body_offset, links }, b))
}

/// The delimiters leave the frontmatter at least three characters short of the
/// whole text.
pub(crate) proof fn lemma_split_room(raw: Seq<char>, max: nat)
    ensures
        match split(raw, max) {
            Ok((fm, b)) => fm.len() + 4 <= raw.len(),
            Err(_) => true,
        },
{
    reveal_strlit("---\n");
    reveal_strlit("---\r\n");
    match open_len(raw) {
        Some(o) => {
            lemma_closing(raw.skip(o as int), 0, max);
        },
        None => {},
    }
}

/// Analyses a whole document under a budget.
pub fn parse_document(raw: &str, budget: &Budget) -> (r: Result<OkfDocument, OkfError>)
    ensures
        res_view(r) == parsed(raw@, *budget),
        r is Ok ==> links_ok(
            r->Ok_0@.links,
            budget.max_links_per_document as nat,
        ),
{
    let bytes = raw.as_bytes().len();
    let chars = chars_of(raw);
    proof {
        lemma_parsed_links(raw@, *budget);
    }
    match document_of(chars.as_slice(), budget) {
        Ok((d, _)) => Ok(d),
        Err(e) => Err(e),
    }
}

/// The links of a document lead to valid ids, each to a different one.
pub proof fn lemma_parsed_links(raw: Seq<char>, budget: Budget)
    ensures
        match parsed(raw, budget) {
            Ok(d) => links_ok(d.links, budget.max_links_per_document as nat),
            Err(_) => true,
        },
{
    match split(raw, budget.max_frontmatter_bytes as nat) {
        Ok((fm, b)) => law_links_are_distinct_and_bounded(
            raw.skip(b),
            utf8_len(raw.take(b)),
            budget.max_links_per_document as nat,
        ),
        Err(_) => {},
    }
}

} // verus!

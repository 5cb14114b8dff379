//! The protocol over HTTP, without sockets: how a request is read byte by
//! byte, what is answered, and how the answer is headed.

use vstd::prelude::*;
use vstd::utf8::{decode_utf8, valid_utf8};
use crate::mcp::{McpServer, ToolHandler};
use crate::model::Budget;
use crate::names::{ascii_lower, ascii_lower_of};
use crate::number::{parse_whole, read_whole};
use crate::text::{
    chars_are, chars_of, dec, find_char, find_char_of, lemma_views_push, opt_view, part_from,
    part_to, push_dec, split, split_of, str_eq, string_of, trim, trim_of, utf8_len, utf8_text,
    views,
};

verus! {

/// Longest request line and header line, in bytes.
pub const MAX_LINE_BYTES: usize = 8192;

/// Longest header block, in bytes.
pub const MAX_HEADER_BYTES: usize = 16384;

/// A request, however it came.
#[derive(Debug)]
pub struct HttpRequest {
    pub method: String,
    pub path: String,
    pub origin: Option<String>,
    pub content_type: Option<String>,
    pub body: Vec<u8>,
}

/// Mathematical counterpart of [`HttpRequest`].
pub struct HttpRequestModel {
    pub method: Seq<char>,
    pub path: Seq<char>,
    pub origin: Option<Seq<char>>,
    pub content_type: Option<Seq<char>>,
    pub body: Seq<u8>,
}

impl View for HttpRequest {
    type V = HttpRequestModel;

    open spec fn view(&self) -> HttpRequestModel {
        HttpRequestModel {
            method: self.method@,
            path: self.path@,
            origin: opt_view(self.origin),
            content_type: opt_view(self.content_type),
            body: self.body@,
        }
    }
}

/// An answer, however it goes out.
#[derive(Debug, PartialEq, Eq)]
pub struct HttpResponse {
    pub status: u16,
    pub content_type: &'static str,
    pub body: String,
}

/// Mathematical counterpart of [`HttpResponse`].
pub struct HttpResponseModel {
    pub status: u16,
    pub content_type: Seq<char>,
    pub body: Seq<char>,
}

impl View for HttpResponse {
    type V = HttpResponseModel;

    open spec fn view(&self) -> HttpResponseModel {
        HttpResponseModel {
            status: self.status,
            content_type: self.content_type@,
            body: self.body@,
        }
    }
}

/// A plain-text answer.
pub open spec fn plain(status: u16, body: Seq<char>) -> HttpResponseModel {
    HttpResponseModel { status, content_type: "text/plain"@, body }
}

fn plain_text(status: u16, body: &str) -> (r: HttpResponse)
    ensures
        r@ == plain(status, body@),
{
    HttpResponse { status, content_type: "text/plain", body: body.to_owned() }
}

// ---------------------------------------------------------------------
// Routing
// ---------------------------------------------------------------------

/// What stands before the first `;`.
pub open spec fn media_type(content_type: Seq<char>) -> Seq<char> {
    trim(
        match find_char(content_type, ';') {
            Some(k) => content_type.take(k),
            None => content_type,
        },
    )
}

pub open spec fn is_json(content_type: Option<Seq<char>>) -> bool {
    match content_type {
        Some(t) => media_type(t) == "application/json"@,
        None => false,
    }
}

pub open spec fn too_large(max: nat) -> Seq<char> {
    "el cuerpo supera el máximo de "@ + dec(max) + " bytes"@
}

/// The answer to a request that never reaches the protocol. The rules apply in
/// this order: the path, the origin, the method, the size, the type, the
/// encoding.
pub open spec fn turned_away(
    req: HttpRequestModel,
    budget: Budget,
    allowed: Seq<Seq<char>>,
) -> Option<HttpResponseModel> {
    if req.path != "/mcp"@ {
        Some(plain(404, "ruta desconocida: solo existe /mcp"@))
    } else if req.origin is Some && allowed.len() > 0 && !allowed.contains(req.origin->0) {
        Some(plain(403, "origin no permitido"@))
    } else if req.method == "GET"@ || req.method == "DELETE"@ {
        Some(
            plain(
                405,
                "este servidor no ofrece stream servidor->cliente ni sesiones: usa POST"@,
            ),
        )
    } else if req.method != "POST"@ {
        Some(plain(405, "método no soportado"@))
    } else if req.body.len() > budget.max_request_bytes {
        Some(plain(413, too_large(budget.max_request_bytes as nat)))
    } else if !is_json(req.content_type) {
        Some(plain(415, "Content-Type debe ser application/json"@))
    } else if !valid_utf8(req.body) {
        Some(plain(400, "el cuerpo no es UTF-8 válido"@))
    } else {
        None
    }
}

/// The answer that carries what the protocol said; a notification is accepted
/// without content.
pub open spec fn delivered(out: Option<Seq<char>>) -> HttpResponseModel {
    match out {
        Some(t) => HttpResponseModel { status: 200, content_type: "application/json"@, body: t },
        None => plain(202, Seq::empty()),
    }
}

/// The entries among the first `n` that are not blank, without the white space
/// around them.
pub open spec fn origins_to(parts: Seq<Seq<char>>, n: int) -> Seq<Seq<char>>
    decreases n,
{
    if n <= 0 {
        Seq::empty()
    } else if trim(parts[n - 1]).len() == 0 {
        origins_to(parts, n - 1)
    } else {
        origins_to(parts, n - 1).push(trim(parts[n - 1]))
    }
}

/// The origins in a list with commas.
pub fn origin_list(text: &str) -> (r: Vec<String>)
    ensures
        views(r@) == origins_to(split(text@, ','), split(text@, ',').len() as int),
{
    let chars = chars_of(text);
    let parts = split_of(chars.as_slice(), ',');
    let ghost all = views(parts@);
    let mut out: Vec<String> = Vec::new();
    assert(views(out@) =~= Seq::empty());
    let mut i: usize = 0;
    while i < parts.len()
        invariant
            i <= parts.len(),
            all == views(parts@),
            views(out@) == origins_to(all, i as int),
        decreases parts.len() - i,
    {
        assert(all[i as int] == parts@[i as int]@);
        let part = trim_of(parts[i].as_slice());
        if part.len() > 0 {
            let origin = string_of(part);
            proof {
                lemma_views_push(out@, origin);
            }
            out.push(origin);
        }
        i += 1;
    }
    out
}

fn is_listed(v: &[String], x: &str) -> (r: bool)
    ensures
        r == views(v@).contains(x@),
{
    let mut i: usize = 0;
    while i < v.len()
        invariant
            i <= v.len(),
            forall|k: int| 0 <= k < i ==> (#[trigger] views(v@)[k]) != x@,
        decreases v.len() - i,
    {
        assert(views(v@)[i as int] == v@[i as int]@);
        if str_eq(v[i].as_str(), x) {
            return true;
        }
        i += 1;
    }
    false
}

fn json_type(content_type: &Option<String>) -> (r: bool)
    ensures
        r == is_json(opt_view(*content_type)),
{
    match content_type {
        Some(t) => {
            let chars = chars_of(t.as_str());
            let head = match find_char_of(chars.as_slice(), ';') {
                Some(k) => part_to(chars.as_slice(), k),
                None => chars.as_slice(),
            };
            chars_are(trim_of(head), "application/json")
        },
        None => false,
    }
}

/// The answer to a request that never reaches the protocol, and otherwise the
/// text that does.
pub fn accept(req: &HttpRequest, budget: &Budget, allowed_origins: &[String]) -> (r: Result<
    String,
    HttpResponse,
>)
    ensures
        match r {
            Ok(t) => turned_away(req@, *budget, views(allowed_origins@)) is None && t@
                == decode_utf8(req@.body),
            Err(resp) => turned_away(req@, *budget, views(allowed_origins@)) == Some(resp@),
        },
{
    if !str_eq(req.path.as_str(), "/mcp") {
        return Err(plain_text(404, "ruta desconocida: solo existe /mcp"));
    }
    match &req.origin {
        Some(o) => {
            if allowed_origins.len() > 0 && !is_listed(allowed_origins, o.as_str()) {
                return Err(plain_text(403, "origin no permitido"));
            }
        },
        None => {},
    }
    if str_eq(req.method.as_str(), "GET") || str_eq(req.method.as_str(), "DELETE") {
        return Err(
            plain_text(
                405,
                "este servidor no ofrece stream servidor->cliente ni sesiones: usa POST",
            ),
        );
    }
    if !str_eq(req.method.as_str(), "POST") {
        return Err(plain_text(405, "método no soportado"));
    }
    if req.body.len() > budget.max_request_bytes {
        let mut m = "el cuerpo supera el máximo de ".to_owned();
        push_dec(&mut m, budget.max_request_bytes as u64);
        m.push_str(" bytes");
        return Err(plain_text(413, m.as_str()));
    }
    if !json_type(&req.content_type) {
        return Err(plain_text(415, "Content-Type debe ser application/json"));
    }
    match utf8_text(vstd::slice::slice_to_vec(req.body.as_slice())) {
        Ok(t) => Ok(t),
        Err(_) => Err(plain_text(400, "el cuerpo no es UTF-8 válido")),
    }
}

/// Decides the answer to a request. Only a proper request reaches the
/// protocol; any other leaves the server as it was.
pub fn route<H: ToolHandler>(
    req: &HttpRequest,
    budget: &Budget,
    allowed_origins: &[String],
    server: &mut McpServer<H>,
) -> (r: HttpResponse)
    ensures
        match turned_away(req@, *budget, views(allowed_origins@)) {
            Some(resp) => r@ == resp && *final(server) == *old(server),
            None => exists|out: Option<Seq<char>>| #[trigger]
                old(server).responds(decode_utf8(req@.body), *final(server), out) && r@
                    == delivered(out),
        },
{
    let text = match accept(req, budget, allowed_origins) {
        Err(resp) => {
            return resp;
        },
        Ok(t) => t,
    };
    let answer = server.handle_message(text.as_str());
    let ghost out = opt_view(answer);
    assert(old(server).responds(decode_utf8(req@.body), *server, out));
    let r = match answer {
        Some(t) => HttpResponse { status: 200, content_type: "application/json", body: t },
        None => HttpResponse { status: 202, content_type: "text/plain", body: String::new() },
    };
    assert(r@.body =~= delivered(out).body);
    assert(r@ == delivered(out));
    r
}

// ---------------------------------------------------------------------
// Reading a request
// ---------------------------------------------------------------------

/// A request line and headers that were read.
#[derive(Debug, PartialEq, Eq)]
pub struct RequestHead {
    pub method: String,
    pub path: String,
    pub origin: Option<String>,
    pub content_type: Option<String>,
    /// Bytes of body to read.
    pub content_length: usize,
}

/// Mathematical counterpart of [`RequestHead`].
pub struct HeadModel {
    pub method: Seq<char>,
    pub path: Seq<char>,
    pub origin: Option<Seq<char>>,
    pub content_type: Option<Seq<char>>,
    pub content_length: nat,
}

impl View for RequestHead {
    type V = HeadModel;

    open spec fn view(&self) -> HeadModel {
        HeadModel {
            method: self.method@,
            path: self.path@,
            origin: opt_view(self.origin),
            content_type: opt_view(self.content_type),
            content_length: self.content_length as nat,
        }
    }
}

/// A request head under way.
pub struct HeadReader {
    /// The request line was read.
    started: bool,
    /// Bytes of the line under way.
    line: Vec<u8>,
    /// Bytes of header lines so far.
    used: usize,
    head: RequestHead,
}

/// Mathematical counterpart of [`HeadReader`].
pub struct HeadReaderModel {
    pub started: bool,
    pub line: Seq<u8>,
    pub used: nat,
    pub head: HeadModel,
}

impl View for HeadReader {
    type V = HeadReaderModel;

    closed spec fn view(&self) -> HeadReaderModel {
        HeadReaderModel {
            started: self.started,
            line: self.line@,
            used: self.used as nat,
            head: self.head@,
        }
    }
}

/// What one more byte brought.
pub enum Progress {
    /// More bytes are needed.
    More(HeadReader),
    /// The headers are complete.
    Done(RequestHead),
    /// The request is answered right away, without reading its body.
    Refused(HttpResponse),
}

/// Mathematical counterpart of [`Progress`].
pub enum ProgressModel {
    More(HeadReaderModel),
    Done(HeadModel),
    Refused(HttpResponseModel),
}

impl View for Progress {
    type V = ProgressModel;

    open spec fn view(&self) -> ProgressModel {
        match *self {
            Progress::More(m) => ProgressModel::More(m@),
            Progress::Done(h) => ProgressModel::Done(h@),
            Progress::Refused(r) => ProgressModel::Refused(r@),
        }
    }
}

pub open spec fn empty_head() -> HeadModel {
    HeadModel {
        method: Seq::empty(),
        path: Seq::empty(),
        origin: None,
        content_type: None,
        content_length: 0,
    }
}

/// How long the line under way may be: the header block as a whole is bounded
/// too.
pub open spec fn line_limit(m: HeadReaderModel) -> nat {
    if !m.started {
        MAX_LINE_BYTES as nat
    } else if m.used >= MAX_HEADER_BYTES {
        0
    } else if MAX_HEADER_BYTES - m.used < MAX_LINE_BYTES {
        (MAX_HEADER_BYTES - m.used) as nat
    } else {
        MAX_LINE_BYTES as nat
    }
}

/// The answer to a line that is too long, not text, or cut short.
pub open spec fn bad_line(started: bool) -> HttpResponseModel {
    if started {
        plain(431, "cabeceras demasiado grandes o inválidas"@)
    } else {
        plain(400, "línea de petición inválida o demasiado larga"@)
    }
}

/// Without a carriage return at the end.
pub open spec fn without_cr(line: Seq<u8>) -> Seq<u8> {
    if line.len() > 0 && line.last() == 13 {
        line.drop_last()
    } else {
        line
    }
}

/// What stands before the first `c`.
pub open spec fn up_to(s: Seq<char>, c: char) -> Seq<char> {
    match find_char(s, c) {
        Some(k) => s.take(k),
        None => s,
    }
}

/// The first `n` characters with ASCII letters in lower case.
pub open spec fn ascii_lower_to(s: Seq<char>, n: int) -> Seq<char>
    decreases n,
{
    if n <= 0 {
        Seq::empty()
    } else {
        ascii_lower_to(s, n - 1).push(ascii_lower(s[n - 1]))
    }
}

/// A whole number in decimal that the machine can hold.
pub open spec fn size_value(s: Seq<char>) -> Option<nat> {
    match read_whole(s) {
        Some(n) => if n <= usize::MAX {
            Some(n as nat)
        } else {
            None
        },
        None => None,
    }
}

/// The request line.
pub open spec fn with_request_line(text: Seq<char>) -> ProgressModel {
    let parts = split(text, ' ');
    if parts.len() < 2 {
        ProgressModel::Refused(plain(400, "falta la ruta"@))
    } else {
        ProgressModel::More(
            HeadReaderModel {
                started: true,
                line: Seq::empty(),
                used: 0,
                head: HeadModel { method: parts[0], path: up_to(parts[1], '?'), ..empty_head() },
            },
        )
    }
}

/// A header line that is not blank.
pub open spec fn with_header(h: HeadModel, text: Seq<char>) -> Result<HeadModel, HttpResponseModel> {
    match find_char(text, ':') {
        None => Ok(h),
        Some(k) => {
            let raw = trim(text.take(k));
            let name = ascii_lower_to(raw, raw.len() as int);
            let value = trim(text.skip(k + 1));
            if name == "content-type"@ {
                Ok(HeadModel { content_type: Some(value), ..h })
            } else if name == "origin"@ {
                Ok(HeadModel { origin: Some(value), ..h })
            } else if name == "content-length"@ {
                match size_value(value) {
                    Some(n) => Ok(HeadModel { content_length: n, ..h }),
                    None => Err(plain(400, "Content-Length no es un entero válido"@)),
                }
            } else {
                Ok(h)
            }
        },
    }
}

pub open spec fn declared_too_large(max: nat) -> HttpResponseModel {
    plain(413, "el cuerpo declarado supera el máximo de "@ + dec(max) + " bytes"@)
}

/// The blank line that ends the headers: a body that would not fit is refused
/// before any of it is read.
pub open spec fn with_blank_line(h: HeadModel, max: nat) -> ProgressModel {
    if h.content_length > max {
        ProgressModel::Refused(declared_too_large(max))
    } else {
        ProgressModel::Done(h)
    }
}

/// One more byte, under a budget of `max` bytes for the body.
pub open spec fn fed(m: HeadReaderModel, byte: u8, max: nat) -> ProgressModel {
    if byte != 10 {
        let line = m.line.push(byte);
        if line.len() > line_limit(m) {
            ProgressModel::Refused(bad_line(m.started))
        } else {
            ProgressModel::More(HeadReaderModel { line, ..m })
        }
    } else {
        let line = without_cr(m.line);
        if !valid_utf8(line) {
            ProgressModel::Refused(bad_line(m.started))
        } else if !m.started {
            with_request_line(decode_utf8(line))
        } else if line.len() == 0 {
            with_blank_line(m.head, max)
        } else {
            match with_header(m.head, decode_utf8(line)) {
                Err(r) => ProgressModel::Refused(r),
                Ok(head) => ProgressModel::More(
                    HeadReaderModel {
                        started: true,
                        line: Seq::empty(),
                        used: m.used + line.len() + 2,
                        head,
                    },
                ),
            }
        }
    }
}

/// Feeding bytes one after the other, until the head is complete or refused.
pub open spec fn fed_all(m: HeadReaderModel, bytes: Seq<u8>, max: nat) -> ProgressModel
    decreases bytes.len(),
{
    if bytes.len() == 0 {
        ProgressModel::More(m)
    } else {
        match fed(m, bytes[0], max) {
            ProgressModel::More(next) => fed_all(next, bytes.skip(1), max),
            end => end,
        }
    }
}

/// A reader that keeps its bounds.
pub open spec fn reader_ok(m: HeadReaderModel) -> bool {
    &&& m.line.len() <= line_limit(m)
    &&& m.used <= MAX_HEADER_BYTES + 2
    &&& !m.started ==> m.head == empty_head() && m.used == 0
}

/// However many bytes come, and whatever they are, a reader holds no more than
/// one line and never counts past the bound on headers; and it hands on only a
/// head whose body fits.
pub proof fn law_reading_is_bounded(m: HeadReaderModel, bytes: Seq<u8>, max: nat)
    requires
        reader_ok(m),
    ensures
        match fed_all(m, bytes, max) {
            ProgressModel::More(next) => reader_ok(next) && next.line.len() <= MAX_LINE_BYTES,
            ProgressModel::Done(h) => h.content_length <= max,
            ProgressModel::Refused(r) => r.status == 400 || r.status == 413 || r.status == 431,
        },
    decreases bytes.len(),
{
    if bytes.len() > 0 {
        match fed(m, bytes[0], max) {
            ProgressModel::More(next) => {
                law_reading_is_bounded(next, bytes.skip(1), max);
            },
            _ => {},
        }
    }
}

fn request_line(text: &str) -> (r: Progress)
    ensures
        r@ == with_request_line(text@),
{
    let chars = chars_of(text);
    let parts = split_of(chars.as_slice(), ' ');
    if parts.len() < 2 {
        return Progress::Refused(plain_text(400, "falta la ruta"));
    }
    assert(views(parts@)[0] == parts@[0]@);
    assert(views(parts@)[1] == parts@[1]@);
    let target = parts[1].as_slice();
    let path = match find_char_of(target, '?') {
        Some(k) => part_to(target, k),
        None => target,
    };
    Progress::More(
        HeadReader {
            started: true,
            line: Vec::new(),
            used: 0,
            head: RequestHead {
                method: string_of(parts[0].as_slice()),
                path: string_of(path),
                origin: None,
                content_type: None,
                content_length: 0,
            },
        },
    )
}

fn header_line(head: RequestHead, text: &str) -> (r: Result<RequestHead, HttpResponse>)
    ensures
        match r {
            Ok(h) => with_header(head@, text@) == Ok::<HeadModel, HttpResponseModel>(h@),
            Err(e) => with_header(head@, text@) == Err::<HeadModel, HttpResponseModel>(e@),
        },
{
    let chars = chars_of(text);
    let n = chars.len();
    let k: usize = match find_char_of(chars.as_slice(), ':') {
        None => {
            return Ok(head);
        },
        Some(k) => k,
    };
    let name = lower(trim_of(part_to(chars.as_slice(), k)));
    let value = trim_of(part_from(chars.as_slice(), k + 1));
    let mut next = head;
    if chars_are(name.as_slice(), "content-type") {
        next.content_type = Some(string_of(value));
        Ok(next)
    } else if chars_are(name.as_slice(), "origin") {
        next.origin = Some(string_of(value));
        Ok(next)
    } else if chars_are(name.as_slice(), "content-length") {
        match parse_size(value) {
            Some(size) => {
                next.content_length = size;
                Ok(next)
            },
            None => Err(plain_text(400, "Content-Length no es un entero válido")),
        }
    } else {
        Ok(next)
    }
}

fn blank_line(head: RequestHead, max: usize) -> (r: Progress)
    ensures
        r@ == with_blank_line(head@, max as nat),
{
    if head.content_length > max {
        let mut m = "el cuerpo declarado supera el máximo de ".to_owned();
        push_dec(&mut m, max as u64);
        m.push_str(" bytes");
        Progress::Refused(plain_text(413, m.as_str()))
    } else {
        Progress::Done(head)
    }
}

fn parse_size(s: &[char]) -> (r: Option<usize>)
    ensures
        match r {
            Some(n) => size_value(s@) == Some(n as nat),
            None => size_value(s@) is None,
        },
{
    match parse_whole(s) {
        Some(n) => {
            if n <= usize::MAX as u64 {
                Some(n as usize)
            } else {
                None
            }
        },
        None => None,
    }
}

pub fn lower(s: &[char]) -> (r: Vec<char>)
    ensures
        r@ == ascii_lower_to(s@, s@.len() as int),
{
    let mut out: Vec<char> = Vec::new();
    let mut i: usize = 0;
    while i < s.len()
        invariant
            i <= s.len(),
            out@ == ascii_lower_to(s@, i as int),
        decreases s.len() - i,
    {
        out.push(ascii_lower_of(s[i]));
        i += 1;
    }
    out
}

fn bad_line_response(started: bool) -> (r: HttpResponse)
    ensures
        r@ == bad_line(started),
{
    if started {
        plain_text(431, "cabeceras demasiado grandes o inválidas")
    } else {
        plain_text(400, "línea de petición inválida o demasiado larga")
    }
}

impl HeadReader {
    #[verifier::type_invariant]
    closed spec fn inv(self) -> bool {
        reader_ok(self@)
    }

    /// Before the first byte.
    pub fn new() -> (r: HeadReader)
        ensures
            r@ == (HeadReaderModel {
                started: false,
                line: Seq::empty(),
                used: 0,
                head: empty_head(),
            }),
    {
        let head = RequestHead {
            method: String::new(),
            path: String::new(),
            origin: None,
            content_type: None,
            content_length: 0,
        };
        HeadReader { started: false, line: Vec::new(), used: 0, head }
    }

    /// Takes one more byte, under a budget of `max` bytes for the body.
    pub fn feed(self, byte: u8, max: usize) -> (r: Progress)
        ensures
            reader_ok(self@),
            r@ == fed(self@, byte, max as nat),
    {
        proof {
            use_type_invariant(&self);
        }
        let HeadReader { started, line, used, head } = self;
        let mut line = line;
        if byte != 10 {
            let limit: usize = if !started {
                MAX_LINE_BYTES
            } else if used >= MAX_HEADER_BYTES {
                0
            } else if MAX_HEADER_BYTES - used < MAX_LINE_BYTES {
                MAX_HEADER_BYTES - used
            } else {
                MAX_LINE_BYTES
            };
            line.push(byte);
            if line.len() > limit {
                return Progress::Refused(bad_line_response(started));
            }
            return Progress::More(HeadReader { started, line, used, head });
        }
        let count = line.len();
        if count > 0 && line[count - 1] == 13 {
            let _ = line.pop();
        }
        assert(line@ =~= without_cr(self@.line));
        let size = line.len();
        match utf8_text(line) {
            Err(_) => Progress::Refused(bad_line_response(started)),
            Ok(text) => {
                if !started {
                    request_line(text.as_str())
                } else if size == 0 {
                    blank_line(head, max)
                } else {
                    match header_line(head, text.as_str()) {
                        Err(e) => Progress::Refused(e),
                        Ok(next) => Progress::More(
                            HeadReader {
                                started: true,
                                line: Vec::new(),
                                used: used + size + 2,
                                head: next,
                            },
                        ),
                    }
                }
            },
        }
    }

    /// The answer where no more bytes came.
    pub fn cut_short(&self) -> (r: HttpResponse)
        ensures
            r@ == bad_line(self@.started),
    {
        bad_line_response(self.started)
    }
}

/// Puts a head and a body together.
pub fn assemble(head: &RequestHead, body: Vec<u8>) -> (r: HttpRequest)
    ensures
        r@ == (HttpRequestModel {
            method: head@.method,
            path: head@.path,
            origin: head@.origin,
            content_type: head@.content_type,
            body: body@,
        }),
{
    HttpRequest {
        method: head.method.clone(),
        path: head.path.clone(),
        origin: crate::text::clone_opt(&head.origin),
        content_type: crate::text::clone_opt(&head.content_type),
        body,
    }
}

// ---------------------------------------------------------------------
// Writing an answer
// ---------------------------------------------------------------------

/// The words that go with a status.
pub open spec fn reason(status: u16) -> Seq<char> {
    if status == 200 {
        "OK"@
    } else if status == 202 {
        "Accepted"@
    } else if status == 400 {
        "Bad Request"@
    } else if status == 403 {
        "Forbidden"@
    } else if status == 404 {
        "Not Found"@
    } else if status == 405 {
        "Method Not Allowed"@
    } else if status == 413 {
        "Payload Too Large"@
    } else if status == 415 {
        "Unsupported Media Type"@
    } else if status == 431 {
        "Request Header Fields Too Large"@
    } else {
        "Error"@
    }
}

pub fn reason_phrase(status: u16) -> (r: &'static str)
    ensures
        r@ == reason(status),
{
    if status == 200 {
        "OK"
    } else if status == 202 {
        "Accepted"
    } else if status == 400 {
        "Bad Request"
    } else if status == 403 {
        "Forbidden"
    } else if status == 404 {
        "Not Found"
    } else if status == 405 {
        "Method Not Allowed"
    } else if status == 413 {
        "Payload Too Large"
    } else if status == 415 {
        "Unsupported Media Type"
    } else if status == 431 {
        "Request Header Fields Too Large"
    } else {
        "Error"
    }
}

/// The status line and headers of an answer.
pub open spec fn response_head(r: HttpResponseModel) -> Seq<char> {
    "HTTP/1.1 "@ + dec(r.status as nat) + " "@ + reason(r.status) + "\r\nContent-Type: "@
        + r.content_type + "\r\nContent-Length: "@ + dec(utf8_len(r.body))
        + "\r\nConnection: close\r\n\r\n"@
}

/// The status line and headers of an answer.
pub fn write_head(resp: &HttpResponse) -> (r: String)
    ensures
        r@ == response_head(resp@),
{
    let mut out = "HTTP/1.1 ".to_owned();
    push_dec(&mut out, resp.status as u64);
    out.push_str(" ");
    out.push_str(reason_phrase(resp.status));
    out.push_str("\r\nContent-Type: ");
    out.push_str(resp.content_type);
    out.push_str("\r\nContent-Length: ");
    push_dec(&mut out, resp.body.as_str().as_bytes().len() as u64);
    out.push_str("\r\nConnection: close\r\n\r\n");
    assert(out@ =~= response_head(resp@));
    out
}

} // verus!

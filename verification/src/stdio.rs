//! The protocol over standard input and output: one message per line, and the
//! four tools that a local memory offers.

use vstd::prelude::*;
use vstd::slice::slice_subrange;
use vstd::utf8::{decode_utf8, valid_utf8};
use crate::args::{arg_str, arg_usize, size_arg, text_arg, Parsed};
use crate::catalogue::{schema, schema_json, ArgumentRow};
use crate::graph::{NeighborSource, Traversal, TraversalModel, Visited, VisitedModel};
use crate::json::{arr, empty_object, n, number, s, Fields, JsonModel, Value};
use crate::mcp::{
    McpServer, ToolAnswer, ToolError, ToolErrorModel, ToolHandler, ToolModel, ToolSpec,
};
use crate::model::{hex, Budget, Principal, PrincipalModel};
use crate::reading::{
    history_tool, memory_history, resolve_args, searched, walk_from, walks, WalkAnswer,
};
use crate::replies::{
    cuts_json, doc_json, doc_value, domain, domain_error, flag, not_found, others, seq_json, txt,
    uri, uri_of,
};
use crate::repo::{Answer, MemoryRepository};
use crate::store::{
    DocViewModel, DocumentView, OutcomeModel, QueryModel, RequestModel, SearchQuery, StoreError,
    StoreErrorModel,
};
use crate::text::{
    chars_of, dec, opt_view, push_dec, res_view, str_eq, string_of, trim, trim_of, utf8_text,
    views,
};
use crate::writing::commit_args;

verus! {

// ---------------------------------------------------------------------
// Lines
// ---------------------------------------------------------------------

/// A line under way, of at most `max` bytes.
pub struct LineBuffer {
    bytes: Vec<u8>,
    overflowed: bool,
    max: usize,
}

/// Mathematical counterpart of [`LineBuffer`].
pub struct LineModel {
    pub bytes: Seq<u8>,
    pub overflowed: bool,
    pub max: nat,
}

impl View for LineBuffer {
    type V = LineModel;

    closed spec fn view(&self) -> LineModel {
        LineModel { bytes: self.bytes@, overflowed: self.overflowed, max: self.max as nat }
    }
}

/// What a chunk of input brought.
pub enum LineStep {
    /// The line goes on.
    More(LineBuffer),
    /// A line, with its end; no bytes at all stand for the end of input.
    Line(String, usize),
    /// A line that is too long or not text. It was read to its end.
    TooLong,
}

/// Mathematical counterpart of [`LineStep`].
pub enum LineStepModel {
    More(LineModel),
    Line(Seq<char>, nat),
    TooLong,
}

impl View for LineStep {
    type V = LineStepModel;

    open spec fn view(&self) -> LineStepModel {
        match *self {
            LineStep::More(b) => LineStepModel::More(b@),
            LineStep::Line(t, k) => LineStepModel::Line(t@, k as nat),
            LineStep::TooLong => LineStepModel::TooLong,
        }
    }
}

/// Where the line ends in a chunk, from `i` on.
pub open spec fn newline_from(chunk: Seq<u8>, i: int) -> Option<int>
    decreases chunk.len() - i,
{
    if i < 0 || i >= chunk.len() {
        None
    } else if chunk[i] == 10 {
        Some(i)
    } else {
        newline_from(chunk, i + 1)
    }
}

/// How much of a chunk belongs to the line.
pub open spec fn taken(chunk: Seq<u8>) -> int {
    match newline_from(chunk, 0) {
        Some(p) => p + 1,
        None => chunk.len() as int,
    }
}

/// The line with a part of a chunk; one that would be too long keeps nothing.
pub open spec fn extended(m: LineModel, part: Seq<u8>) -> LineModel {
    if m.overflowed {
        m
    } else if m.bytes.len() + part.len() > m.max {
        LineModel { bytes: Seq::empty(), overflowed: true, ..m }
    } else {
        LineModel { bytes: m.bytes + part, ..m }
    }
}

/// One more chunk; an empty one is the end of input.
pub open spec fn line_step(m: LineModel, chunk: Seq<u8>) -> LineStepModel {
    let next = extended(m, chunk.take(taken(chunk)));
    if newline_from(chunk, 0) is None && chunk.len() > 0 {
        LineStepModel::More(next)
    } else if next.overflowed || !valid_utf8(next.bytes) {
        LineStepModel::TooLong
    } else {
        LineStepModel::Line(decode_utf8(next.bytes), next.bytes.len())
    }
}

proof fn lemma_newline_after(a: Seq<u8>, b: Seq<u8>, i: int)
    requires
        0 <= i <= a.len(),
        newline_from(a, i) is None,
    ensures
        newline_from(a + b, i) == (match newline_from(b, 0) {
            Some(p) => Some(p + a.len()),
            None => None,
        }),
    decreases a.len() - i,
{
    if i < a.len() {
        assert((a + b)[i] == a[i]);
        lemma_newline_after(a, b, i + 1);
    } else {
        lemma_newline_shift(a, b, 0);
    }
}

proof fn lemma_newline_shift(a: Seq<u8>, b: Seq<u8>, j: int)
    requires
        0 <= j <= b.len(),
    ensures
        newline_from(a + b, a.len() + j) == (match newline_from(b, j) {
            Some(p) => Some(p + a.len()),
            None => None,
        }),
    decreases b.len() - j,
{
    if j < b.len() {
        assert((a + b)[a.len() + j] == b[j]);
        lemma_newline_shift(a, b, j + 1);
    }
}

proof fn lemma_newline_in(chunk: Seq<u8>, i: int)
    requires
        0 <= i,
    ensures
        newline_from(chunk, i) is Some ==> i <= newline_from(chunk, i)->0 < chunk.len(),
    decreases chunk.len() - i,
{
    if i < chunk.len() && chunk[i] != 10 {
        lemma_newline_in(chunk, i + 1);
    }
}

/// Where the input is cut into chunks makes no difference: two chunks, the
/// first of which does not end the line, are as good as one.
pub proof fn law_chunks_make_no_difference(m: LineModel, a: Seq<u8>, b: Seq<u8>)
    requires
        a.len() > 0,
        b.len() > 0,
        newline_from(a, 0) is None,
    ensures
        line_step(m, a) == LineStepModel::More(extended(m, a)),
        line_step(extended(m, a), b) == line_step(m, a + b),
{
    lemma_newline_after(a, b, 0);
    lemma_newline_in(b, 0);
    let part = b.take(taken(b));
    assert(a.take(taken(a)) =~= a);
    assert((a + b).take(taken(a + b)) =~= a + part);
    assert(extended(extended(m, a), part) == extended(m, a + part)) by {
        if !m.overflowed && m.bytes.len() + a.len() + part.len() <= m.max {
            assert(m.bytes + a + part =~= m.bytes + (a + part));
        }
    }
}

fn newline_of(chunk: &[u8]) -> (r: Option<usize>)
    ensures
        match r {
            Some(p) => newline_from(chunk@, 0) == Some(p as int) && p < chunk@.len(),
            None => newline_from(chunk@, 0) is None,
        },
{
    let mut i: usize = 0;
    while i < chunk.len()
        invariant
            i <= chunk.len(),
            newline_from(chunk@, 0) == newline_from(chunk@, i as int),
        decreases chunk.len() - i,
    {
        if chunk[i] == 10 {
            return Some(i);
        }
        i += 1;
    }
    None
}

impl LineBuffer {
    #[verifier::type_invariant]
    closed spec fn inv(self) -> bool {
        self.bytes@.len() <= self.max
    }

    /// Before the first chunk of a line of at most `max` bytes.
    pub fn new(max: usize) -> (r: LineBuffer)
        ensures
            r@ == (LineModel { bytes: Seq::empty(), overflowed: false, max: max as nat }),
    {
        LineBuffer { bytes: Vec::new(), overflowed: false, max }
    }

    /// Takes the part of a chunk that belongs to the line, and tells how much
    /// that is. An empty chunk is the end of input. Never holds more than the
    /// maximum.
    pub fn feed(self, chunk: &[u8]) -> (r: (usize, LineStep))
        ensures
            self@.bytes.len() <= self@.max,
            r.0 == taken(chunk@),
            r.0 <= chunk@.len(),
            r.1@ == line_step(self@, chunk@),
    {
        proof {
            use_type_invariant(&self);
        }
        let count = chunk.len();
        let end = newline_of(chunk);
        let take: usize = match end {
            Some(p) => p + 1,
            None => count,
        };
        let LineBuffer { bytes, overflowed, max } = self;
        let mut bytes = bytes;
        let mut overflowed = overflowed;
        let ghost part = chunk@.take(take as int);
        if !overflowed {
            if take > max - bytes.len() {
                overflowed = true;
                bytes = Vec::new();
            } else {
                let piece = slice_subrange(chunk, 0, take);
                bytes.extend_from_slice(piece);
                assert(piece@ =~= part);
                assert(bytes@ =~= self@.bytes + part);
            }
        }
        assert(bytes@ =~= extended(self@, part).bytes);
        if end.is_none() && count > 0 {
            return (take, LineStep::More(LineBuffer { bytes, overflowed, max }));
        }
        if overflowed {
            return (take, LineStep::TooLong);
        }
        let total = bytes.len();
        match utf8_text(bytes) {
            Ok(text) => (take, LineStep::Line(text, total)),
            Err(_) => (take, LineStep::TooLong),
        }
    }
}

/// The answer to a line that is too long.
pub open spec fn too_long_reply(max: nat) -> Seq<char> {
    "{\"jsonrpc\":\"2.0\",\"id\":null,\"error\":{\"code\":-32600,\"message\":\"petición mayor que "@
        + dec(max) + " bytes\"}}"@
}

pub fn too_long(max: usize) -> (r: String)
    ensures
        r@ == too_long_reply(max as nat),
{
    let mut out =
        "{\"jsonrpc\":\"2.0\",\"id\":null,\"error\":{\"code\":-32600,\"message\":\"petición mayor que ".to_owned();
    push_dec(&mut out, max as u64);
    out.push_str(" bytes\"}}");
    out
}

/// Answers a line; a blank one is passed over.
pub fn answer_line<H: ToolHandler>(server: &mut McpServer<H>, line: &str) -> (r: Option<String>)
    ensures
        if trim(line@).len() == 0 {
            r is None && *final(server) == *old(server)
        } else {
            old(server).responds(trim(line@), *final(server), opt_view(r))
        },
{
    let chars = chars_of(line);
    let inner = trim_of(chars.as_slice());
    if inner.len() == 0 {
        return None;
    }
    let text = string_of(inner);
    server.handle_message(text.as_str())
}

// ---------------------------------------------------------------------
// The four tools
// ---------------------------------------------------------------------

pub const ARGUMENTS: [ArgumentRow; 14] = [
    ("memory_search", "query", "string", "subcadena a buscar en id, título, tags y cuerpo", false),
    ("memory_search", "type", "string", "filtra por el campo 'type' del frontmatter", false),
    ("memory_search", "tag", "string", "filtra por tag exacto", false),
    ("memory_search", "limit", "integer", "máximo de resultados", false),
    ("memory_resolve", "concept_id", "string", "id lógico, p. ej. people/alice", true),
    ("memory_resolve", "depth", "integer", "profundidad máxima del vecindario", false),
    ("memory_resolve", "max_bytes", "integer", "presupuesto de bytes de la respuesta", false),
    ("memory_commit", "concept_id", "string", "id lógico del concepto", true),
    ("memory_commit", "markdown", "string", "documento completo, con frontmatter '---'", true),
    ("memory_commit", "reason", "string", "por qué se hace este cambio", true),
    ("memory_commit", "expected_hash", "string", "hash SHA-256 hex del contenido leído", false),
    ("memory_history", "concept_id", "string", "id lógico del concepto", true),
    ("memory_history", "limit", "integer", "máximo de revisiones (1-100)", false),
    ("memory_history", "before_seq", "integer", "solo revisiones anteriores a este seq", false),
];

/// The tools: name and what it is for.
pub const TOOLS: [(&'static str, &'static str); 4] = [
    (
        "memory_search",
        "Busca conceptos en la memoria. Devuelve candidatos compactos con su hash y URI; usa memory_resolve para leer el contenido.",
    ),
    (
        "memory_resolve",
        "Devuelve un concepto completo (Markdown exacto) más su vecindario acotado en el grafo de enlaces [[...]]. Indica si el resultado fue truncado por presupuesto.",
    ),
    (
        "memory_commit",
        "Escribe un documento OKF (frontmatter YAML + Markdown) con concurrencia optimista: pasa el expected_hash que leíste; si la memoria cambió en medio recibirás un revision_conflict con los hashes para reintentar. Omite expected_hash solo al crear.",
    ),
    (
        "memory_history",
        "Historia de revisiones de un concepto, de más reciente a más antigua. Pagina con before_seq.",
    ),
];

pub open spec fn tool_model(row: (&'static str, &'static str)) -> ToolModel {
    ToolModel {
        name: row.0@,
        description: row.1@,
        input_schema: schema_json(ARGUMENTS@, row.0@),
        ui_resource_uri: None,
        title: None,
        output_schema: None,
        annotations: None,
    }
}

pub open spec fn local_catalogue() -> Seq<ToolModel> {
    Seq::new(TOOLS@.len(), |i: int| tool_model(TOOLS@[i]))
}

fn list_tools() -> (r: Vec<ToolSpec>)
    ensures
        views(r@) == local_catalogue(),
{
    let mut out: Vec<ToolSpec> = Vec::new();
    let mut i: usize = 0;
    while i < TOOLS.len()
        invariant
            i <= TOOLS@.len(),
            out@.len() == i,
            forall|k: int| 0 <= k < i ==> (#[trigger] out@[k])@ == tool_model(TOOLS@[k]),
        decreases TOOLS@.len() - i,
    {
        let row = TOOLS[i];
        out.push(
            ToolSpec {
                name: row.0,
                description: row.1,
                input_schema: schema(ARGUMENTS.as_slice(), row.0),
                ui_resource_uri: None,
                title: None,
                output_schema: None,
                annotations: None,
            },
        );
        i += 1;
    }
    assert(views(out@) =~= local_catalogue());
    out
}

/// The query that `memory_search` asks.
pub open spec fn local_query(a: JsonModel) -> Parsed<QueryModel> {
    match size_arg(a, "limit"@) {
        Err(e) => Err(e),
        Ok(limit) => Ok(
            QueryModel {
                text: text_arg(a, "query"@),
                doc_type: text_arg(a, "type"@),
                exclude_type: None,
                tag: text_arg(a, "tag"@),
                path_prefix: None,
                limit,
            },
        ),
    }
}

fn local_search<R: MemoryRepository>(repo: &R, args: &Value, budget: &Budget) -> (r: Result<
    Value,
    ToolError,
>)
    ensures
        searched(*repo, *budget, local_query(args@), res_view(r)),
{
    let limit = match arg_usize(args, "limit") {
        Ok(l) => l,
        Err(e) => {
            return Err(e);
        },
    };
    let query = SearchQuery {
        text: arg_str(args, "query"),
        doc_type: arg_str(args, "type"),
        exclude_type: None,
        tag: arg_str(args, "tag"),
        path_prefix: None,
        limit,
    };
    crate::reading::run_search(repo, budget, &query)
}

/// A visited concept.
pub open spec fn near_json(v: VisitedModel) -> JsonModel {
    empty_object().set("concept_id"@, txt(v.id)).set("depth"@, number(v.depth)).set(
        "exists"@,
        flag(v.exists),
    ).set("uri"@, txt(uri(v.id)))
}

pub open spec fn near_values(l: Seq<VisitedModel>) -> JsonModel {
    JsonModel::Array(Seq::new(l.len(), |i: int| near_json(l[i])))
}

pub open spec fn local_resolve_json(d: DocViewModel, t: TraversalModel) -> JsonModel {
    empty_object().set("document"@, doc_json(d)).set(
        "neighborhood"@,
        near_values(others(t.visited)),
    ).set("truncated"@, cuts_json(t))
}

pub open spec fn local_resolve_answer(d: DocViewModel, w: WalkAnswer) -> ToolAnswer {
    match w {
        Ok(t) => Ok(local_resolve_json(d, t)),
        Err(e) => Err(domain(e)),
    }
}

pub open spec fn local_resolved_with<R: NeighborSource<Error = StoreError>>(
    repo: R,
    b: Budget,
    id: Seq<char>,
    d: DocViewModel,
    r: ToolAnswer,
) -> bool {
    exists|w: WalkAnswer| #[trigger]
        walks(repo, b, id, w) && r == local_resolve_answer(d, w)
}

pub open spec fn local_resolved<R: MemoryRepository + NeighborSource<Error = StoreError>>(
    repo: R,
    b: Budget,
    id: Seq<char>,
    r: ToolAnswer,
) -> bool {
    exists|a: Answer<Option<DocViewModel>>| #[trigger]
        repo.get_rel(id, a) && match a {
            Err(e) => r == ToolAnswer::Err(domain(e)),
            Ok(None) => r == ToolAnswer::Err(domain(StoreErrorModel::NotFound(id))),
            Ok(Some(d)) => local_resolved_with(repo, b, id, d, r),
        }
}

pub open spec fn local_resolve_tool<R: MemoryRepository + NeighborSource<Error = StoreError>>(
    repo: R,
    b: Budget,
    args: JsonModel,
    r: ToolAnswer,
) -> bool {
    match resolve_args(args, b) {
        Err(e) => r == ToolAnswer::Err(e),
        Ok((id, limits)) => local_resolved(repo, limits, id, r),
    }
}

fn near_list(l: &Vec<Visited>) -> (r: Value)
    ensures
        r@ == near_values(others(views(l@))),
{
    let ghost all = others(views(l@));
    let mut out: Vec<Value> = Vec::new();
    let mut i: usize = 1;
    while i < l.len()
        invariant
            1 <= i,
            i <= l.len() || i == 1,
            all == others(views(l@)),
            out@.len() == i - 1,
            forall|k: int| 0 <= k < out@.len() ==> (#[trigger] out@[k])@ == near_json(all[k]),
        decreases l.len() - i,
    {
        assert(all[i - 1] == l@[i as int]@);
        let mut o = Fields::new();
        o.set("concept_id", s(l[i].id.as_str()));
        o.set("depth", n(l[i].depth as u64));
        o.set("exists", Value::Bool(l[i].exists));
        o.set("uri", uri_of(&l[i].id));
        out.push(o.done());
        i += 1;
    }
    assert(views(out@) =~= Seq::new(all.len(), |k: int| near_json(all[k])));
    arr(out)
}

fn local_resolve_value(d: &DocumentView, t: &Traversal) -> (r: Value)
    ensures
        r@ == local_resolve_json(d@, t@),
{
    let mut cuts = Fields::new();
    cuts.set("by_nodes", Value::Bool(t.truncated_by_nodes));
    cuts.set("by_depth", Value::Bool(t.truncated_by_depth));
    cuts.set("by_bytes", Value::Bool(t.truncated_by_bytes));
    let mut o = Fields::new();
    o.set("document", doc_value(d));
    o.set("neighborhood", near_list(&t.visited));
    o.set("truncated", cuts.done());
    o.done()
}

fn local_resolve<R: MemoryRepository + NeighborSource<Error = StoreError>>(
    repo: &R,
    args: &Value,
    budget: &Budget,
) -> (r: Result<Value, ToolError>)
    ensures
        local_resolve_tool(*repo, *budget, args@, res_view(r)),
{
    let (id, limits) = match crate::reading::read_resolve(args, budget) {
        Ok(x) => x,
        Err(e) => {
            return Err(e);
        },
    };
    let got = repo.get(&id);
    let ghost a = crate::repo::opt_answer(got);
    assert(repo.get_rel(id@, a));
    match got {
        Err(e) => Err(domain_error(e)),
        Ok(None) => Err(not_found(&id)),
        Ok(Some(doc)) => {
            let walk = walk_from(repo, &id, &limits);
            let ghost w = res_view(walk);
            assert(walks(*repo, limits, id@, w));
            let r = match walk {
                Ok(t) => Ok(local_resolve_value(&doc, &t)),
                Err(e) => Err(domain_error(e)),
            };
            assert(local_resolved_with(*repo, limits, id@, doc@, res_view(r)));
            r
        },
    }
}

pub open spec fn local_outcome_answer(id: Seq<char>, a: Answer<OutcomeModel>) -> ToolAnswer {
    match a {
        Err(e) => Err(domain(e)),
        Ok(o) => Ok(
            empty_object().set("concept_id"@, txt(id)).set("hash"@, txt(hex(o.content_id))).set(
                "version"@,
                number(o.version),
            ).set("created"@, flag(o.created)).set("no_change"@, flag(o.no_change)).set(
                "revision_seq"@,
                seq_json(o.revision),
            ),
        ),
    }
}

pub open spec fn local_written<R: MemoryRepository>(
    pre: R,
    req: RequestModel,
    actor: PrincipalModel,
    b: Budget,
    post: R,
    r: ToolAnswer,
) -> bool {
    exists|a: Answer<OutcomeModel>| #[trigger]
        R::commit_rel(pre, req, actor, b, post, a) && r == local_outcome_answer(req.concept_id, a)
}

pub open spec fn local_commit_tool<R: MemoryRepository>(
    pre: R,
    actor: PrincipalModel,
    b: Budget,
    args: JsonModel,
    post: R,
    r: ToolAnswer,
) -> bool {
    match commit_args(args) {
        Err(e) => r == ToolAnswer::Err(e) && post == pre,
        Ok(req) => local_written(pre, req, actor, b, post, r),
    }
}

fn local_commit<R: MemoryRepository>(
    repo: &mut R,
    args: &Value,
    actor: &Principal,
    budget: &Budget,
) -> (r: Result<Value, ToolError>)
    ensures
        local_commit_tool(*old(repo), actor@, *budget, args@, *final(repo), res_view(r)),
{
    let req = match crate::writing::read_commit(args) {
        Ok(q) => q,
        Err(e) => {
            return Err(e);
        },
    };
    let id = req.concept_id.clone();
    let ghost q = req@;
    let outcome = repo.commit(req, actor, budget);
    let ghost a = res_view(outcome);
    assert(R::commit_rel(*old(repo), q, actor@, *budget, *repo, a));
    let r = match outcome {
        Err(e) => Err(domain_error(e)),
        Ok(out) => {
            let mut o = Fields::new();
            o.set("concept_id", s(id.as_str()));
            o.set("hash", s(out.content_id.to_hex().as_str()));
            o.set("version", n(out.version));
            o.set("created", Value::Bool(out.created));
            o.set("no_change", Value::Bool(out.no_change));
            let number = match &out.revision {
                Some(rev) => n(rev.seq),
                None => Value::Null,
            };
            o.set("revision_seq", number);
            Ok(o.done())
        },
    };
    assert(local_written(*old(repo), q, actor@, *budget, *repo, res_view(r)));
    r
}

/// The four tools of a local memory.
pub struct MemoryTools<R> {
    repo: R,
    actor: Principal,
    budget: Budget,
}

/// Mathematical counterpart of [`MemoryTools`].
pub struct LocalModel<R> {
    pub repo: R,
    pub actor: PrincipalModel,
    pub budget: Budget,
}

impl<R> View for MemoryTools<R> {
    type V = LocalModel<R>;

    closed spec fn view(&self) -> LocalModel<R> {
        LocalModel { repo: self.repo, actor: self.actor@, budget: self.budget }
    }
}

impl<R> MemoryTools<R> {
    /// Tools over a store, with the actor and the budget of every call.
    pub fn new(repo: R, actor: Principal, budget: Budget) -> (r: MemoryTools<R>)
        ensures
            r@ == (LocalModel { repo, actor: actor@, budget }),
    {
        MemoryTools { repo, actor, budget }
    }
}

/// What a tool does to a store and what it answers.
pub open spec fn local_tool<R: MemoryRepository + NeighborSource<Error = StoreError>>(
    pre: LocalModel<R>,
    name: Seq<char>,
    args: JsonModel,
    post: R,
    r: ToolAnswer,
) -> bool {
    let b = pre.budget;
    if name == "memory_search"@ {
        post == pre.repo && searched(pre.repo, b, local_query(args), r)
    } else if name == "memory_resolve"@ {
        post == pre.repo && local_resolve_tool(pre.repo, b, args, r)
    } else if name == "memory_commit"@ {
        local_commit_tool(pre.repo, pre.actor, b, args, post, r)
    } else if name == "memory_history"@ {
        post == pre.repo && history_tool(pre.repo, args, r)
    } else {
        post == pre.repo && r == ToolAnswer::Err(ToolErrorModel::UnknownTool)
    }
}

impl<R> ToolHandler for MemoryTools<R> where
    R: MemoryRepository + NeighborSource<Error = StoreError>,
 {
    open spec fn tools_rel(&self, r: Seq<ToolModel>) -> bool {
        r == local_catalogue()
    }

    open spec fn call_rel(
        pre: Self,
        name: Seq<char>,
        arguments: JsonModel,
        post: Self,
        r: ToolAnswer,
    ) -> bool {
        &&& post@ == (LocalModel { repo: post@.repo, ..pre@ })
        &&& local_tool(pre@, name, arguments, post@.repo, r)
    }

    fn tools(&self) -> (r: Vec<ToolSpec>) {
        list_tools()
    }

    fn call(&mut self, name: &str, arguments: &Value) -> (r: Result<Value, ToolError>) {
        if str_eq(name, "memory_search") {
            local_search(&self.repo, arguments, &self.budget)
        } else if str_eq(name, "memory_resolve") {
            local_resolve(&self.repo, arguments, &self.budget)
        } else if str_eq(name, "memory_commit") {
            local_commit(&mut self.repo, arguments, &self.actor, &self.budget)
        } else if str_eq(name, "memory_history") {
            memory_history(&self.repo, arguments)
        } else {
            Err(ToolError::UnknownTool)
        }
    }
}

} // verus!

//! The Model Context Protocol: JSON-RPC 2.0, its life cycle, and the dispatch
//! of tools. Everything here is a function on texts; transports live outside.

use vstd::prelude::*;
use crate::json::{arr, empty_object, s, to_string, with, Fields, JsonModel, Value, json_text};
use crate::json_parse::{parse, read_json};
use crate::number::{integer, Number};
use crate::text::{opt_view, res_view, str_eq, views};

verus! {

/// Version of the protocol spoken here.
pub const PROTOCOL_VERSION: &'static str = "2025-06-18";

/// The message was not JSON.
pub const PARSE_ERROR: i64 = -32700;

/// JSON, but not a request.
pub const INVALID_REQUEST: i64 = -32600;

pub const METHOD_NOT_FOUND: i64 = -32601;

pub const INVALID_PARAMS: i64 = -32602;

/// Media type of user-interface resources.
pub const UI_APPS_MIME_TYPE: &'static str = "text/html;profile=mcp-app";

/// Hints about how a tool behaves. What is not declared is left out.
#[derive(Debug, Clone, Copy, PartialEq, Eq)]
pub struct ToolAnnotations {
    /// The tool changes nothing.
    pub read_only_hint: Option<bool>,
    /// The tool may destroy.
    pub destructive_hint: Option<bool>,
    /// The same call again has no further effect.
    pub idempotent_hint: Option<bool>,
    /// The tool deals with the outside world.
    pub open_world_hint: Option<bool>,
}

impl Default for ToolAnnotations {
    fn default() -> (r: ToolAnnotations)
        ensures
            r == (ToolAnnotations {
                read_only_hint: None,
                destructive_hint: None,
                idempotent_hint: None,
                open_world_hint: None,
            }),
    {
        ToolAnnotations {
            read_only_hint: None,
            destructive_hint: None,
            idempotent_hint: None,
            open_world_hint: None,
        }
    }
}

/// A tool as it is announced.
#[derive(Debug)]
pub struct ToolSpec {
    pub name: &'static str,
    /// Written for the model, which decides whether to use the tool.
    pub description: &'static str,
    /// JSON Schema of the arguments.
    pub input_schema: Value,
    /// View for the result, for clients that can show one.
    pub ui_resource_uri: Option<&'static str>,
    /// Name for people.
    pub title: Option<&'static str>,
    /// JSON Schema of the result.
    pub output_schema: Option<Value>,
    pub annotations: Option<ToolAnnotations>,
}

/// Mathematical counterpart of [`ToolSpec`].
pub struct ToolModel {
    pub name: Seq<char>,
    pub description: Seq<char>,
    pub input_schema: JsonModel,
    pub ui_resource_uri: Option<Seq<char>>,
    pub title: Option<Seq<char>>,
    pub output_schema: Option<JsonModel>,
    pub annotations: Option<ToolAnnotations>,
}

impl View for ToolSpec {
    type V = ToolModel;

    open spec fn view(&self) -> ToolModel {
        ToolModel {
            name: self.name@,
            description: self.description@,
            input_schema: self.input_schema@,
            ui_resource_uri: opt_view(self.ui_resource_uri),
            title: opt_view(self.title),
            output_schema: opt_view(self.output_schema),
            annotations: self.annotations,
        }
    }
}

/// A self-contained page that shows the result of a tool.
#[derive(Debug, Clone, Copy)]
pub struct UiResource {
    pub uri: &'static str,
    pub name: &'static str,
    pub description: &'static str,
    pub html: &'static str,
}

/// Mathematical counterpart of [`UiResource`].
pub struct UiModel {
    pub uri: Seq<char>,
    pub name: Seq<char>,
    pub description: Seq<char>,
    pub html: Seq<char>,
}

impl View for UiResource {
    type V = UiModel;

    open spec fn view(&self) -> UiModel {
        UiModel {
            uri: self.uri@,
            name: self.name@,
            description: self.description@,
            html: self.html@,
        }
    }
}

/// Why a tool did not give a result.
#[derive(Debug, PartialEq, Eq)]
pub enum ToolError {
    /// There is no such tool.
    UnknownTool,
    InvalidArguments(String),
    /// The tool ran and failed: a result that the model can read, not an error
    /// of the protocol.
    Failed(String),
}

/// Mathematical counterpart of [`ToolError`].
pub enum ToolErrorModel {
    UnknownTool,
    InvalidArguments(Seq<char>),
    Failed(Seq<char>),
}

impl View for ToolError {
    type V = ToolErrorModel;

    open spec fn view(&self) -> ToolErrorModel {
        match *self {
            ToolError::UnknownTool => ToolErrorModel::UnknownTool,
            ToolError::InvalidArguments(m) => ToolErrorModel::InvalidArguments(m@),
            ToolError::Failed(m) => ToolErrorModel::Failed(m@),
        }
    }
}

/// What a tool gave.
pub type ToolAnswer = Result<JsonModel, ToolErrorModel>;

/// The tools behind a server. What a call may do is a relation between the
/// handler before, the call, and the handler after.
pub trait ToolHandler: Sized {
    open spec fn tools_rel(&self, r: Seq<ToolModel>) -> bool {
        true
    }

    open spec fn call_rel(
        pre: Self,
        name: Seq<char>,
        arguments: JsonModel,
        post: Self,
        r: ToolAnswer,
    ) -> bool {
        true
    }

    /// The tools to announce.
    fn tools(&self) -> (r: Vec<ToolSpec>)
        ensures
            self.tools_rel(views(r@)),
    ;

    /// Runs a tool.
    fn call(&mut self, name: &str, arguments: &Value) -> (r: Result<Value, ToolError>)
        ensures
            Self::call_rel(*old(self), name@, arguments@, *final(self), res_view(r)),
    ;

    /// The pages to announce; by default none.
    fn ui_resources(&self) -> (r: Vec<UiResource>)
        default_ensures
            r@.len() == 0,
    {
        Vec::new()
    }

    /// Advice shown once to the model; by default none.
    fn instructions(&self) -> (r: Option<&str>)
        default_ensures
            r is None,
    {
        None
    }
}

/// The handler may announce these pages.
pub open spec fn shows<H: ToolHandler>(h: H, rs: Seq<UiModel>) -> bool {
    exists|v: Vec<UiResource>| #[trigger]
        call_ensures(H::ui_resources, (&h,), v) && rs == views(v@)
}

/// The handler may give this advice.
pub open spec fn advises<H: ToolHandler>(h: H, t: Option<Seq<char>>) -> bool {
    exists|a: Option<&str>| #[trigger]
        call_ensures(H::instructions, (&h,), a) && t == opt_view(a)
}

// ---------------------------------------------------------------------
// Replies
// ---------------------------------------------------------------------

pub open spec fn text_json(t: Seq<char>) -> JsonModel {
    JsonModel::String(t)
}

/// A reply with a result.
pub open spec fn ok_reply(id: JsonModel, result: JsonModel) -> JsonModel {
    let o = with(empty_object(), "jsonrpc"@, text_json("2.0"@));
    let o = with(o, "id"@, id);
    with(o, "result"@, result)
}

/// A reply with an error.
pub open spec fn error_reply(id: JsonModel, code: i64, message: Seq<char>) -> JsonModel {
    let e = with(empty_object(), "code"@, JsonModel::Number(integer(code as int)));
    let e = with(e, "message"@, text_json(message));
    let o = with(empty_object(), "jsonrpc"@, text_json("2.0"@));
    let o = with(o, "id"@, id);
    with(o, "error"@, e)
}

fn ok_response(id: Value, result: Value) -> (r: Value)
    ensures
        r@ == ok_reply(id@, result@),
{
    let mut o = Fields::new();
    o.set("jsonrpc", s("2.0"));
    o.set("id", id);
    o.set("result", result);
    o.done()
}

fn error_response(id: Value, code: i64, message: &str) -> (r: Value)
    ensures
        r@ == error_reply(id@, code, message@),
{
    let mut e = Fields::new();
    e.set("code", Value::Number(Number::from_i64(code)));
    e.set("message", s(message));
    let mut o = Fields::new();
    o.set("jsonrpc", s("2.0"));
    o.set("id", id);
    o.set("error", e.done());
    o.done()
}

/// The version agreed on: the one asked for where it is known, else ours.
pub open spec fn agreed_version(params: JsonModel) -> Seq<char> {
    let asked = match params.member("protocolVersion"@) {
        Some(v) => v.text(),
        None => None,
    };
    if asked == Some("2024-11-05"@) {
        "2024-11-05"@
    } else {
        PROTOCOL_VERSION@
    }
}

/// The answer to `initialize`.
pub open spec fn initialize_result(
    name: Seq<char>,
    version: Seq<char>,
    params: JsonModel,
    instructions: Option<Seq<char>>,
) -> JsonModel {
    let caps = with(empty_object(), "tools"@, empty_object());
    let caps = with(caps, "resources"@, empty_object());
    let info = with(empty_object(), "name"@, text_json(name));
    let info = with(info, "version"@, text_json(version));
    let o = with(empty_object(), "protocolVersion"@, text_json(agreed_version(params)));
    let o = with(o, "capabilities"@, caps);
    let o = with(o, "serverInfo"@, info);
    match instructions {
        Some(t) => with(o, "instructions"@, text_json(t)),
        None => o,
    }
}

/// What `initialize` gives for some advice.
pub fn initialize_value(name: &str, version: &str, params: &Value, instructions: Option<&str>) -> (r:
    Value)
    ensures
        r@ == initialize_result(name@, version@, params@, opt_view(instructions)),
{
    let asked = match params.get("protocolVersion") {
        Some(v) => v.as_str(),
        None => None,
    };
    let agreed = match asked {
        Some(t) => {
            if str_eq(t, "2024-11-05") {
                "2024-11-05"
            } else {
                PROTOCOL_VERSION
            }
        },
        None => PROTOCOL_VERSION,
    };
    let mut caps = Fields::new();
    caps.set("tools", Fields::new().done());
    caps.set("resources", Fields::new().done());
    let mut info = Fields::new();
    info.set("name", s(name));
    info.set("version", s(version));
    let mut o = Fields::new();
    o.set("protocolVersion", s(agreed));
    o.set("capabilities", caps.done());
    o.set("serverInfo", info.done());
    match instructions {
        Some(t) => o.set("instructions", s(t)),
        None => {},
    }
    o.done()
}

pub open spec fn with_hint(o: JsonModel, k: Seq<char>, h: Option<bool>) -> JsonModel {
    match h {
        Some(b) => with(o, k, JsonModel::Bool(b)),
        None => o,
    }
}

/// The declared hints.
pub open spec fn hints(a: ToolAnnotations) -> JsonModel {
    let o = with_hint(empty_object(), "readOnlyHint"@, a.read_only_hint);
    let o = with_hint(o, "destructiveHint"@, a.destructive_hint);
    let o = with_hint(o, "idempotentHint"@, a.idempotent_hint);
    with_hint(o, "openWorldHint"@, a.open_world_hint)
}

pub open spec fn has_hints(a: ToolAnnotations) -> bool {
    a.read_only_hint is Some || a.destructive_hint is Some || a.idempotent_hint is Some
        || a.open_world_hint is Some
}

/// How a view is announced, to clients of either convention.
pub open spec fn ui_meta(uri: Seq<char>) -> JsonModel {
    let ui = with(empty_object(), "resourceUri"@, text_json(uri));
    let ui = with(
        ui,
        "visibility"@,
        JsonModel::Array(seq![text_json("model"@), text_json("app"@)]),
    );
    let m = with(empty_object(), "ui"@, ui);
    let m = with(m, "openai/outputTemplate"@, text_json(uri));
    with(m, "openai/widgetAccessible"@, JsonModel::Bool(true))
}

/// A tool as it is announced.
pub open spec fn tool_json(t: ToolModel) -> JsonModel {
    let o = with(empty_object(), "name"@, text_json(t.name));
    let o = with(o, "description"@, text_json(t.description));
    let o = with(o, "inputSchema"@, t.input_schema);
    let o = match t.title {
        Some(x) => with(o, "title"@, text_json(x)),
        None => o,
    };
    let o = match t.output_schema {
        Some(x) => with(o, "outputSchema"@, x),
        None => o,
    };
    let o = match t.annotations {
        Some(a) => if has_hints(a) {
            with(o, "annotations"@, hints(a))
        } else {
            o
        },
        None => o,
    };
    match t.ui_resource_uri {
        Some(uri) => with(o, "_meta"@, ui_meta(uri)),
        None => o,
    }
}

/// The answer to `tools/list`.
pub open spec fn tools_result(tools: Seq<ToolModel>) -> JsonModel {
    with(
        empty_object(),
        "tools"@,
        JsonModel::Array(Seq::new(tools.len(), |i: int| tool_json(tools[i]))),
    )
}

fn set_hint(o: &mut Fields, k: &str, h: Option<bool>)
    ensures
        final(o)@ == with_hint(old(o)@, k@, h),
{
    match h {
        Some(b) => o.set(k, Value::Bool(b)),
        None => {},
    }
}

fn ui_meta_value(uri: &str) -> (r: Value)
    ensures
        r@ == ui_meta(uri@),
{
    let mut audience: Vec<Value> = Vec::new();
    audience.push(s("model"));
    audience.push(s("app"));
    assert(views(audience@) =~= seq![text_json("model"@), text_json("app"@)]);
    let mut ui = Fields::new();
    ui.set("resourceUri", s(uri));
    ui.set("visibility", arr(audience));
    let mut m = Fields::new();
    m.set("ui", ui.done());
    m.set("openai/outputTemplate", s(uri));
    m.set("openai/widgetAccessible", Value::Bool(true));
    m.done()
}

fn tool_value(t: &ToolSpec) -> (r: Value)
    ensures
        r@ == tool_json(t@),
{
    let mut o = Fields::new();
    o.set("name", s(t.name));
    o.set("description", s(t.description));
    o.set("inputSchema", t.input_schema.dup());
    match t.title {
        Some(x) => o.set("title", s(x)),
        None => {},
    }
    match &t.output_schema {
        Some(x) => o.set("outputSchema", x.dup()),
        None => {},
    }
    match t.annotations {
        Some(a) => {
            let declared = a.read_only_hint.is_some() || a.destructive_hint.is_some()
                || a.idempotent_hint.is_some() || a.open_world_hint.is_some();
            if declared {
                let mut h = Fields::new();
                set_hint(&mut h, "readOnlyHint", a.read_only_hint);
                set_hint(&mut h, "destructiveHint", a.destructive_hint);
                set_hint(&mut h, "idempotentHint", a.idempotent_hint);
                set_hint(&mut h, "openWorldHint", a.open_world_hint);
                o.set("annotations", h.done());
            }
        },
        None => {},
    }
    match t.ui_resource_uri {
        Some(uri) => o.set("_meta", ui_meta_value(uri)),
        None => {},
    }
    o.done()
}

/// What `tools/list` gives for some tools.
pub fn tools_value(tools: &Vec<ToolSpec>) -> (r: Value)
    ensures
        r@ == tools_result(views(tools@)),
{
    let mut out: Vec<Value> = Vec::new();
    let mut i: usize = 0;
    while i < tools.len()
        invariant
            i <= tools.len(),
            out@.len() == i,
            forall|k: int| 0 <= k < i ==> (#[trigger] out@[k])@ == tool_json(tools@[k]@),
        decreases tools.len() - i,
    {
        out.push(tool_value(&tools[i]));
        i += 1;
    }
    let mut o = Fields::new();
    assert(views(out@) =~= Seq::new(
        views(tools@).len(),
        |i: int| tool_json(views(tools@)[i]),
    ));
    o.set("tools", arr(out));
    o.done()
}

pub open spec fn resource_json(r: UiModel) -> JsonModel {
    let o = with(empty_object(), "uri"@, text_json(r.uri));
    let o = with(o, "name"@, text_json(r.name));
    let o = with(o, "description"@, text_json(r.description));
    with(o, "mimeType"@, text_json(UI_APPS_MIME_TYPE@))
}

/// The answer to `resources/list`.
pub open spec fn resources_result(rs: Seq<UiModel>) -> JsonModel {
    with(
        empty_object(),
        "resources"@,
        JsonModel::Array(Seq::new(rs.len(), |i: int| resource_json(rs[i]))),
    )
}

/// What `resources/list` gives for some pages.
pub fn resources_value(rs: &Vec<UiResource>) -> (r: Value)
    ensures
        r@ == resources_result(views(rs@)),
{
    let mut out: Vec<Value> = Vec::new();
    let mut i: usize = 0;
    while i < rs.len()
        invariant
            i <= rs.len(),
            out@.len() == i,
            forall|k: int| 0 <= k < i ==> (#[trigger] out@[k])@ == resource_json(rs@[k]@),
        decreases rs.len() - i,
    {
        let mut o = Fields::new();
        o.set("uri", s(rs[i].uri));
        o.set("name", s(rs[i].name));
        o.set("description", s(rs[i].description));
        o.set("mimeType", s(UI_APPS_MIME_TYPE));
        out.push(o.done());
        i += 1;
    }
    let mut o = Fields::new();
    assert(views(out@) =~= Seq::new(
        views(rs@).len(),
        |i: int| resource_json(views(rs@)[i]),
    ));
    o.set("resources", arr(out));
    o.done()
}

/// The first page, from index `i` on, at `uri`.
pub open spec fn page_from(rs: Seq<UiModel>, i: int, uri: Seq<char>) -> Option<UiModel>
    decreases rs.len() - i,
{
    if i < 0 || i >= rs.len() {
        None
    } else if rs[i].uri == uri {
        Some(rs[i])
    } else {
        page_from(rs, i + 1, uri)
    }
}

pub open spec fn page_result(p: UiModel) -> JsonModel {
    let c = with(empty_object(), "uri"@, text_json(p.uri));
    let c = with(c, "mimeType"@, text_json(UI_APPS_MIME_TYPE@));
    let c = with(c, "text"@, text_json(p.html));
    with(empty_object(), "contents"@, JsonModel::Array(seq![c]))
}

/// The reply to `resources/read`.
pub open spec fn read_reply(id: JsonModel, params: JsonModel, rs: Seq<UiModel>) -> JsonModel {
    let uri = match params.member("uri"@) {
        Some(v) => v.text(),
        None => None,
    };
    match uri {
        None => error_reply(id, INVALID_PARAMS, "falta params.uri"@),
        Some(uri) => match page_from(rs, 0, uri) {
            Some(p) => ok_reply(id, page_result(p)),
            None => error_reply(id, INVALID_PARAMS, "recurso desconocido: "@ + uri),
        },
    }
}

/// What `resources/read` gives for some pages.
pub fn read_value(id: Value, params: &Value, rs: &Vec<UiResource>) -> (r: Value)
    ensures
        r@ == read_reply(id@, params@, views(rs@)),
{
    let uri = match params.get("uri") {
        Some(v) => v.as_str(),
        None => None,
    };
    let uri = match uri {
        None => {
            return error_response(id, INVALID_PARAMS, "falta params.uri");
        },
        Some(u) => u,
    };
    let mut i: usize = 0;
    while i < rs.len()
        invariant
            i <= rs.len(),
            params@.member("uri"@) is Some,
            params@.member("uri"@)->0.text() == Some(uri@),
            page_from(views(rs@), 0, uri@) == page_from(views(rs@), i as int, uri@),
        decreases rs.len() - i,
    {
        assert(views(rs@)[i as int] == rs@[i as int]@);
        if str_eq(rs[i].uri, uri) {
            let mut c = Fields::new();
            c.set("uri", s(rs[i].uri));
            c.set("mimeType", s(UI_APPS_MIME_TYPE));
            c.set("text", s(rs[i].html));
            let mut list: Vec<Value> = Vec::new();
            list.push(c.done());
            let ghost cm = list@[0]@;
            assert(views(list@) =~= seq![cm]);
            let mut o = Fields::new();
            o.set("contents", arr(list));
            return ok_response(id, o.done());
        }
        i += 1;
    }
    let mut m = "recurso desconocido: ".to_owned();
    m.push_str(uri);
    error_response(id, INVALID_PARAMS, m.as_str())
}

/// The result of a tool: always as text, and as an object too where it is one.
pub open spec fn tool_result(text: Seq<char>, structured: Option<JsonModel>, is_error: bool) -> JsonModel {
    let c = with(empty_object(), "type"@, text_json("text"@));
    let c = with(c, "text"@, text_json(text));
    let o = with(empty_object(), "content"@, JsonModel::Array(seq![c]));
    let o = with(o, "isError"@, JsonModel::Bool(is_error));
    match structured {
        Some(v) => with(o, "structuredContent"@, v),
        None => o,
    }
}

fn tool_result_value(text: &str, structured: Option<Value>, is_error: bool) -> (r: Value)
    ensures
        r@ == tool_result(text@, opt_view(structured), is_error),
{
    let mut c = Fields::new();
    c.set("type", s("text"));
    c.set("text", s(text));
    let mut list: Vec<Value> = Vec::new();
    list.push(c.done());
    let ghost cm = list@[0]@;
    assert(views(list@) =~= seq![cm]);
    let mut o = Fields::new();
    o.set("content", arr(list));
    o.set("isError", Value::Bool(is_error));
    match structured {
        Some(v) => o.set("structuredContent", v),
        None => {},
    }
    o.done()
}

/// The reply to a call, for what the tool gave. A failure of the tool is a
/// result; only an unknown tool or wrong arguments are errors of the protocol.
pub open spec fn call_reply(id: JsonModel, name: Seq<char>, r: ToolAnswer) -> JsonModel {
    match r {
        Ok(v) => ok_reply(
            id,
            tool_result(
                json_text(v),
                if v is Object {
                    Some(v)
                } else {
                    None
                },
                false,
            ),
        ),
        Err(ToolErrorModel::UnknownTool) => error_reply(
            id,
            INVALID_PARAMS,
            "herramienta desconocida: "@ + name,
        ),
        Err(ToolErrorModel::InvalidArguments(m)) => error_reply(id, INVALID_PARAMS, m),
        Err(ToolErrorModel::Failed(m)) => ok_reply(id, tool_result(m, None, true)),
    }
}

/// The reply to a call, for what the tool gave.
pub fn call_value(id: Value, name: &str, r: Result<Value, ToolError>) -> (out: Value)
    ensures
        out@ == call_reply(id@, name@, res_view(r)),
{
    match r {
        Ok(v) => {
            let text = to_string(&v);
            let is_object = match &v {
                Value::Object(_) => true,
                _ => false,
            };
            let structured = if is_object {
                Some(v)
            } else {
                None
            };
            ok_response(id, tool_result_value(text.as_str(), structured, false))
        },
        Err(ToolError::UnknownTool) => {
            let mut m = "herramienta desconocida: ".to_owned();
            m.push_str(name);
            error_response(id, INVALID_PARAMS, m.as_str())
        },
        Err(ToolError::InvalidArguments(m)) => error_response(id, INVALID_PARAMS, m.as_str()),
        Err(ToolError::Failed(m)) => ok_response(id, tool_result_value(m.as_str(), None, true)),
    }
}

// ---------------------------------------------------------------------
// The server
// ---------------------------------------------------------------------

/// Stage of a connection.
#[derive(Debug, Clone, Copy, PartialEq, Eq, Structural)]
pub enum Lifecycle {
    AwaitingInitialize,
    Initializing,
    Ready,
}

/// A server, whatever carries its messages.
pub struct McpServer<H: ToolHandler> {
    handler: H,
    server_name: &'static str,
    server_version: &'static str,
    lifecycle: Lifecycle,
}

/// The stage after a notification.
pub open spec fn stage_after(stage: Lifecycle, method: Seq<char>) -> Lifecycle {
    if method == "notifications/initialized"@ && stage == Lifecycle::Initializing {
        Lifecycle::Ready
    } else {
        stage
    }
}

/// The arguments of a call; without any, an empty object.
pub open spec fn call_arguments(params: JsonModel) -> JsonModel {
    match params.member("arguments"@) {
        Some(v) => v,
        None => empty_object(),
    }
}

/// The name of the tool called.
pub open spec fn called_name(params: JsonModel) -> Option<Seq<char>> {
    match params.member("name"@) {
        Some(v) => v.text(),
        None => None,
    }
}

impl<H: ToolHandler> McpServer<H> {
    pub closed spec fn tools_behind(self) -> H {
        self.handler
    }

    pub closed spec fn name(self) -> Seq<char> {
        self.server_name@
    }

    pub closed spec fn version(self) -> Seq<char> {
        self.server_version@
    }

    pub closed spec fn stage(self) -> Lifecycle {
        self.lifecycle
    }

    /// The same server with another handler and at another stage.
    pub open spec fn becomes(self, post: Self, handler: H, stage: Lifecycle) -> bool {
        &&& post.tools_behind() == handler
        &&& post.name() == self.name()
        &&& post.version() == self.version()
        &&& post.stage() == stage
    }

    /// `reply` is a possible answer to a request, and `post` the server after.
    pub open spec fn answers(
        self,
        id: JsonModel,
        method: Seq<char>,
        params: JsonModel,
        post: Self,
        reply: JsonModel,
    ) -> bool {
        let same = self.becomes(post, self.tools_behind(), self.stage());
        if method == "initialize"@ {
            self.becomes(post, self.tools_behind(), Lifecycle::Initializing) && exists|
                t: Option<Seq<char>>,
            | #[trigger]
                advises(self.tools_behind(), t) && reply == ok_reply(
                    id,
                    initialize_result(self.name(), self.version(), params, t),
                )
        } else if method == "ping"@ {
            same && reply == ok_reply(id, empty_object())
        } else if method == "tools/list"@ {
            same && exists|ts: Seq<ToolModel>| #[trigger]
                self.tools_behind().tools_rel(ts) && reply == ok_reply(id, tools_result(ts))
        } else if method == "tools/call"@ {
            match called_name(params) {
                None => same && reply == error_reply(id, INVALID_PARAMS, "falta params.name"@),
                Some(name) => self.becomes(post, post.tools_behind(), self.stage()) && exists|
                    r: ToolAnswer,
                | #[trigger]
                    H::call_rel(
                        self.tools_behind(),
                        name,
                        call_arguments(params),
                        post.tools_behind(),
                        r,
                    ) && reply == call_reply(id, name, r),
            }
        } else if method == "resources/list"@ {
            same && exists|rs: Seq<UiModel>| #[trigger]
                shows(self.tools_behind(), rs) && reply == ok_reply(id, resources_result(rs))
        } else if method == "resources/read"@ {
            same && exists|rs: Seq<UiModel>| #[trigger]
                shows(self.tools_behind(), rs) && reply == read_reply(id, params, rs)
        } else {
            same && reply == error_reply(
                id,
                METHOD_NOT_FOUND,
                "método desconocido: "@ + method,
            )
        }
    }

    /// `out` is a possible answer to a message, and `post` the server after.
    pub open spec fn responds(self, raw: Seq<char>, post: Self, out: Option<Seq<char>>) -> bool {
        let same = self.becomes(post, self.tools_behind(), self.stage());
        match read_json(raw) {
            Err(e) => same && out == Some(
                json_text(
                    error_reply(JsonModel::Null, PARSE_ERROR, "JSON inválido: "@ + e.text()),
                ),
            ),
            Ok(v) => {
                let id = v.member("id"@);
                match (id, method_of(v)) {
                    (None, Some(m)) => out is None && self.becomes(
                        post,
                        self.tools_behind(),
                        stage_after(self.stage(), m),
                    ),
                    (Some(id), Some(m)) => if !(id is String || id is Number) {
                        same && out == Some(
                            json_text(
                                error_reply(
                                    JsonModel::Null,
                                    INVALID_REQUEST,
                                    "id debe ser string o número"@,
                                ),
                            ),
                        )
                    } else {
                        exists|reply: JsonModel| #[trigger]
                            self.answers(id, m, params_of(v), post, reply) && out == Some(
                                json_text(reply),
                            )
                    },
                    (_, None) => same && out == Some(
                        json_text(
                            error_reply(
                                match id {
                                    Some(x) => x,
                                    None => JsonModel::Null,
                                },
                                INVALID_REQUEST,
                                "falta el campo 'method'"@,
                            ),
                        ),
                    ),
                }
            },
        }
    }

    /// A server that waits for `initialize`.
    pub fn new(server_name: &'static str, server_version: &'static str, handler: H) -> (r: Self)
        ensures
            r.tools_behind() == handler,
            r.name() == server_name@,
            r.version() == server_version@,
            r.stage() == Lifecycle::AwaitingInitialize,
    {
        McpServer {
            handler,
            server_name,
            server_version,
            lifecycle: Lifecycle::AwaitingInitialize,
        }
    }

    fn handle_notification(&mut self, method: &str)
        ensures
            old(self).becomes(
                *final(self),
                old(self).tools_behind(),
                stage_after(old(self).stage(), method@),
            ),
    {
        if str_eq(method, "notifications/initialized") && self.lifecycle
            == Lifecycle::Initializing {
            self.lifecycle = Lifecycle::Ready;
        }
    }

    fn on_tools_call(&mut self, id: Value, params: &Value) -> (r: Value)
        ensures
            old(self).answers(id@, "tools/call"@, params@, *final(self), r@),
    {
        proof {
            lemma_methods_differ();
        }
        let name = match params.get("name") {
            Some(v) => v.as_str(),
            None => None,
        };
        let name = match name {
            None => {
                return error_response(id, INVALID_PARAMS, "falta params.name");
            },
            Some(t) => t,
        };
        let default_args = Fields::new().done();
        let arguments = match params.get("arguments") {
            Some(v) => v,
            None => &default_args,
        };
        let answer = self.handler.call(name, arguments);
        let ghost a = res_view(answer);
        let ghost before = old(self).tools_behind();
        assert(H::call_rel(
            old(self).tools_behind(),
            name@,
            call_arguments(params@),
            self.tools_behind(),
            a,
        ));
        call_value(id, name, answer)
    }

    fn handle_request(&mut self, id: Value, method: &str, params: &Value) -> (r: Value)
        ensures
            old(self).answers(id@, method@, params@, *final(self), r@),
    {
        proof {
            lemma_methods_differ();
        }
        if str_eq(method, "initialize") {
            self.lifecycle = Lifecycle::Initializing;
            let advice = self.handler.instructions();
            let v = initialize_value(self.server_name, self.server_version, params, advice);
            let ghost t = opt_view(advice);
            assert(advises(self.tools_behind(), t));
            ok_response(id, v)
        } else if str_eq(method, "ping") {
            ok_response(id, Fields::new().done())
        } else if str_eq(method, "tools/list") {
            let tools = self.handler.tools();
            let ghost ts = views(tools@);
            assert(self.tools_behind().tools_rel(ts));
            ok_response(id, tools_value(&tools))
        } else if str_eq(method, "tools/call") {
            self.on_tools_call(id, params)
        } else if str_eq(method, "resources/list") {
            let rs = self.handler.ui_resources();
            let v = resources_value(&rs);
            let ghost m = views(rs@);
            assert(shows(self.tools_behind(), m));
            ok_response(id, v)
        } else if str_eq(method, "resources/read") {
            let rs = self.handler.ui_resources();
            let ghost idm = id@;
            let v = read_value(id, params, &rs);
            let ghost m = views(rs@);
            assert(shows(self.tools_behind(), m));
            v
        } else {
            let mut m = "método desconocido: ".to_owned();
            m.push_str(method);
            error_response(id, METHOD_NOT_FOUND, m.as_str())
        }
    }

    /// Takes a message and gives the text of the answer. A notification is
    /// never answered, not even with an error.
    pub fn handle_message(&mut self, raw: &str) -> (r: Option<String>)
        ensures
            old(self).responds(raw@, *final(self), opt_view(r)),
    {
        let value = match parse(raw) {
            Ok(v) => v,
            Err(e) => {
                let mut m = "JSON inválido: ".to_owned();
                m.push_str(e.text().as_str());
                return Some(to_string(&error_response(Value::Null, PARSE_ERROR, m.as_str())));
            },
        };
        let method = match value.get("method") {
            Some(v) => v.as_str(),
            None => None,
        };
        let id = match value.get("id") {
            Some(v) => Some(v.dup()),
            None => None,
        };
        match (id, method) {
            (None, Some(m)) => {
                self.handle_notification(m);
                None
            },
            (Some(id), Some(m)) => {
                let proper = match &id {
                    Value::String(_) => true,
                    Value::Number(_) => true,
                    _ => false,
                };
                if !proper {
                    return Some(
                        to_string(
                            &error_response(
                                Value::Null,
                                INVALID_REQUEST,
                                "id debe ser string o número",
                            ),
                        ),
                    );
                }
                let none = Value::Null;
                let params = match value.get("params") {
                    Some(p) => p,
                    None => &none,
                };
                let reply = self.handle_request(id, m, params);
                assert(old(self).answers(
                    value@.member("id"@)->0,
                    m@,
                    params_of(value@),
                    *self,
                    reply@,
                ));
                Some(to_string(&reply))
            },
            (id, None) => {
                let id = match id {
                    Some(x) => x,
                    None => Value::Null,
                };
                Some(to_string(&error_response(id, INVALID_REQUEST, "falta el campo 'method'")))
            },
        }
    }
}

/// The method of a message, where it is a string.
pub open spec fn method_of(v: JsonModel) -> Option<Seq<char>> {
    match v.member("method"@) {
        Some(m) => m.text(),
        None => None,
    }
}

pub open spec fn params_of(v: JsonModel) -> JsonModel {
    match v.member("params"@) {
        Some(p) => p,
        None => JsonModel::Null,
    }
}

/// The method names are different texts.
proof fn lemma_methods_differ()
    ensures
        "tools/call"@ != "initialize"@,
        "tools/call"@ != "ping"@,
        "tools/call"@ != "tools/list"@,
{
    reveal_strlit("tools/call");
    reveal_strlit("initialize");
    reveal_strlit("ping");
    reveal_strlit("tools/list");
    assert("tools/call"@[0] == 't');
    assert("initialize"@[0] == 'i');
    assert("ping"@[0] == 'p');
    assert("tools/call"@[6] == 'c');
    assert("tools/list"@[6] == 'l');
}

// ---------------------------------------------------------------------
// Laws
// ---------------------------------------------------------------------

/// A message goes unanswered exactly when it is a notification: a method and no
/// id.
pub proof fn law_only_notifications_go_unanswered<H: ToolHandler>(
    pre: McpServer<H>,
    raw: Seq<char>,
    post: McpServer<H>,
    out: Option<Seq<char>>,
)
    requires
        pre.responds(raw, post, out),
    ensures
        out is None <==> read_json(raw) is Ok && read_json(raw)->Ok_0.member("id"@) is None
            && method_of(read_json(raw)->Ok_0) is Some,
{
}

/// A notification leaves the tools untouched.
pub proof fn law_notifications_touch_no_tool<H: ToolHandler>(
    pre: McpServer<H>,
    raw: Seq<char>,
    post: McpServer<H>,
)
    requires
        pre.responds(raw, post, None),
    ensures
        post.tools_behind() == pre.tools_behind(),
{
}

proof fn lemma_reply_id(id: JsonModel, k: Seq<char>, v: JsonModel)
    requires
        k != "id"@,
    ensures
        ({
            let o = with(empty_object(), "jsonrpc"@, text_json("2.0"@));
            let o = with(o, "id"@, id);
            with(o, k, v).member("id"@)
        }) == Some(id),
{
    reveal_strlit("jsonrpc");
    reveal_strlit("id");
    assert("jsonrpc"@.len() == 7 && "id"@.len() == 2);
    assert("jsonrpc"@ != "id"@);
    let f0: crate::json::JsonFields = Seq::empty();
    let f1 = crate::table::put(f0, "jsonrpc"@, text_json("2.0"@));
    let f2 = crate::table::put(f1, "id"@, id);
    let f3 = crate::table::put(f2, k, v);
    crate::table::lemma_put_ascending(f0, "jsonrpc"@, text_json("2.0"@));
    crate::table::lemma_put_ascending(f1, "id"@, id);
    crate::table::lemma_put_ascending(f2, k, v);
    crate::table::lemma_lookup_put(f1, "id"@, id, "id"@);
    crate::table::lemma_lookup_put(f2, k, v, "id"@);
    crate::json::lemma_member_lookup(f3, "id"@);
}

/// Every reply to a request carries the id of the request as it came.
pub proof fn law_replies_carry_the_id<H: ToolHandler>(
    pre: McpServer<H>,
    id: JsonModel,
    method: Seq<char>,
    params: JsonModel,
    post: McpServer<H>,
    reply: JsonModel,
)
    requires
        pre.answers(id, method, params, post, reply),
    ensures
        reply.member("id"@) == Some(id),
{
    reveal_strlit("result");
    reveal_strlit("error");
    reveal_strlit("id");
    assert("result"@.len() == 6 && "error"@.len() == 5 && "id"@.len() == 2);
    assert forall|v: JsonModel| #[trigger] ok_reply(id, v).member("id"@) == Some(id) by {
        lemma_reply_id(id, "result"@, v);
    }
    assert forall|c: i64, m: Seq<char>| #[trigger] error_reply(id, c, m).member("id"@) == Some(
        id,
    ) by {
        let e = with(empty_object(), "code"@, JsonModel::Number(integer(c as int)));
        let e = with(e, "message"@, text_json(m));
        lemma_reply_id(id, "error"@, e);
    }
}

} // verus!

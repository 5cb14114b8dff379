//! What the server answers, request by request.

use vstd::prelude::*;
use crate::graph::NeighborSource;
use crate::importing::ingest_tool;
use crate::inference::reason_tool;
use crate::ingest::SourceFetcher;
use crate::json::{empty_object, json_text, with, JsonModel};
use crate::mcp::{
    advises, call_reply, error_reply, ok_reply, page_from, shows, tool_json, tool_result,
    tools_result, McpServer, ToolAnswer, ToolErrorModel, ToolHandler, ToolModel, UiModel,
};
use crate::member_laws::group_fields;
use crate::number::integer;
use crate::patching::{bulk_patch_tool, patch_tool};
use crate::reading::{
    backlinks_tool, embed_tool, history_tool, list_tool, resolve_tool, search_tool, stats_tool,
    status_tool, validate_tool,
};
use crate::repo::{MemoryRepository, StoreMaintenance, TripleStore};
use crate::store::StoreError;
use crate::tool_laws::lemma_names_differ;
use crate::tools::{tool_rel, ToolsModel};
use crate::workflow::{propose_tool, spec_status_tool, tasks_tool};
use crate::writing::{bulk_tool, commit_tool, consolidate_tool, delete_tool};

verus! {

// ---------------------------------------------------------------------
// Replies
// ---------------------------------------------------------------------

/// A reply that gives a result.
pub open spec fn gives(reply: JsonModel, id: JsonModel, result: JsonModel) -> bool {
    &&& reply.member("jsonrpc"@) == Some(JsonModel::String("2.0"@))
    &&& reply.member("id"@) == Some(id)
    &&& reply.member("result"@) == Some(result)
    &&& reply.member("error"@) is None
}

/// A reply that gives an error.
pub open spec fn refuses(reply: JsonModel, id: JsonModel, code: int, message: Seq<char>) -> bool {
    &&& reply.member("jsonrpc"@) == Some(JsonModel::String("2.0"@))
    &&& reply.member("id"@) == Some(id)
    &&& reply.member("result"@) is None
    &&& reply.member("error"@) is Some
    &&& reply.member("error"@)->0.member("code"@) == Some(JsonModel::Number(integer(code)))
    &&& reply.member("error"@)->0.member("message"@) == Some(JsonModel::String(message))
}

proof fn lemma_gives(id: JsonModel, result: JsonModel)
    ensures
        gives(ok_reply(id, result), id, result),
{
    broadcast use group_fields;

    reveal_strlit("jsonrpc");
    reveal_strlit("id");
    reveal_strlit("result");
    reveal_strlit("error");
    assert("jsonrpc"@.len() == 7 && "id"@.len() == 2 && "result"@.len() == 6);
    assert(empty_object().member("error"@) is None);
}

proof fn lemma_refuses(id: JsonModel, code: i64, message: Seq<char>)
    ensures
        refuses(error_reply(id, code, message), id, code as int, message),
{
    broadcast use group_fields;

    reveal_strlit("jsonrpc");
    reveal_strlit("id");
    reveal_strlit("result");
    reveal_strlit("error");
    reveal_strlit("code");
    reveal_strlit("message");
    assert("jsonrpc"@.len() == 7 && "id"@.len() == 2 && "error"@.len() == 5);
    assert("code"@.len() == 4 && "message"@.len() == 7);
    assert(empty_object().member("result"@) is None);
}

/// The result of a call that shows a text.
pub open spec fn shows_text(result: JsonModel, text: Seq<char>, is_error: bool) -> bool {
    &&& result.member("isError"@) == Some(JsonModel::Bool(is_error))
    &&& result.member("content"@) is Some
    &&& result.member("content"@)->0 is Array
    &&& result.member("content"@)->0->Array_0.len() == 1
    &&& result.member("content"@)->0->Array_0[0].member("type"@) == Some(
        JsonModel::String("text"@),
    )
    &&& result.member("content"@)->0->Array_0[0].member("text"@) == Some(JsonModel::String(text))
}

proof fn lemma_shows_text(text: Seq<char>, structured: Option<JsonModel>, is_error: bool)
    ensures
        shows_text(tool_result(text, structured, is_error), text, is_error),
        tool_result(text, structured, is_error).member("structuredContent"@) == structured,
{
    broadcast use group_fields;

    reveal_strlit("type");
    reveal_strlit("text");
    reveal_strlit("content");
    reveal_strlit("isError");
    reveal_strlit("structuredContent");
    assert("type"@[1] != "text"@[1]);
    assert("content"@[0] != "isError"@[0]);
    assert("structuredContent"@.len() == 17 && "content"@.len() == 7);
    assert(empty_object().member("structuredContent"@) is None);
}

/// What a call answers to what a tool answered: its value as text and as it is;
/// what failed as a text marked as an error; refused arguments and an unknown
/// tool as errors of the request.
pub open spec fn relays(reply: JsonModel, id: JsonModel, r: ToolAnswer) -> bool {
    match r {
        Ok(v) => exists|result: JsonModel| #[trigger]
            gives(reply, id, result) && shows_text(result, json_text(v), false)
                && result.member("structuredContent"@) == (if v is Object {
                Some(v)
            } else {
                None
            }),
        Err(ToolErrorModel::Failed(m)) => exists|result: JsonModel| #[trigger]
            gives(reply, id, result) && shows_text(result, m, true),
        Err(ToolErrorModel::InvalidArguments(m)) => refuses(reply, id, -32602, m),
        Err(ToolErrorModel::UnknownTool) => exists|m: Seq<char>| #[trigger]
            refuses(reply, id, -32602, m),
    }
}

proof fn lemma_relays(id: JsonModel, name: Seq<char>, r: ToolAnswer)
    ensures
        relays(call_reply(id, name, r), id, r),
{
    match r {
        Ok(v) => {
            let structured = if v is Object {
                Some(v)
            } else {
                None
            };
            lemma_shows_text(json_text(v), structured, false);
            lemma_gives(id, tool_result(json_text(v), structured, false));
        },
        Err(ToolErrorModel::Failed(m)) => {
            lemma_shows_text(m, None, true);
            lemma_gives(id, tool_result(m, None, true));
        },
        Err(ToolErrorModel::InvalidArguments(m)) => {
            lemma_refuses(id, crate::mcp::INVALID_PARAMS, m);
        },
        Err(ToolErrorModel::UnknownTool) => {
            lemma_refuses(id, crate::mcp::INVALID_PARAMS, "herramienta desconocida: "@ + name);
        },
    }
}

proof fn lemma_methods_differ()
    ensures
        "initialize"@.len() == 10 && "initialize"@[0] == 'i',
        "ping"@.len() == 4,
        "tools/list"@.len() == 10 && "tools/list"@[0] == 't' && "tools/list"@[6] == 'l',
        "tools/call"@.len() == 10 && "tools/call"@[0] == 't' && "tools/call"@[6] == 'c',
        "resources/list"@.len() == 14 && "resources/list"@[10] == 'l',
        "resources/read"@.len() == 14 && "resources/read"@[10] == 'r',
{
    reveal_strlit("initialize");
    reveal_strlit("ping");
    reveal_strlit("tools/list");
    reveal_strlit("tools/call");
    reveal_strlit("resources/list");
    reveal_strlit("resources/read");
}

/// A request `tools/call` runs the tool that it names on the arguments that it
/// carries, and relays what the tool answered.
pub proof fn law_calls_relay_the_tool<H: ToolHandler>(
    pre: McpServer<H>,
    id: JsonModel,
    params: JsonModel,
    post: McpServer<H>,
    reply: JsonModel,
    name: Seq<char>,
    args: JsonModel,
)
    requires
        pre.answers(id, "tools/call"@, params, post, reply),
        params.member("name"@) == Some(JsonModel::String(name)),
        params.member("arguments"@) == Some(args) || (params.member("arguments"@) is None && args
            == empty_object()),
    ensures
        exists|r: ToolAnswer| #[trigger]
            H::call_rel(pre.tools_behind(), name, args, post.tools_behind(), r) && relays(
                reply,
                id,
                r,
            ),
{
    lemma_methods_differ();
    let r = choose|r: ToolAnswer| #[trigger]
        H::call_rel(pre.tools_behind(), name, args, post.tools_behind(), r) && reply == call_reply(
            id,
            name,
            r,
        );
    lemma_relays(id, name, r);
}

/// An announced tool.
pub open spec fn announces(v: JsonModel, t: ToolModel) -> bool {
    &&& v.member("name"@) == Some(JsonModel::String(t.name))
    &&& v.member("description"@) == Some(JsonModel::String(t.description))
    &&& v.member("inputSchema"@) == Some(t.input_schema)
    &&& v.member("title"@) == (match t.title {
        Some(x) => Some(JsonModel::String(x)),
        None => None,
    })
    &&& v.member("outputSchema"@) == t.output_schema
}

proof fn lemma_announces(t: ToolModel)
    ensures
        announces(tool_json(t), t),
{
    broadcast use group_fields;

    reveal_strlit("name");
    reveal_strlit("description");
    reveal_strlit("inputSchema");
    reveal_strlit("title");
    reveal_strlit("outputSchema");
    reveal_strlit("annotations");
    reveal_strlit("_meta");
    assert("description"@[0] != "inputSchema"@[0]);
    assert("description"@[0] != "annotations"@[0]);
    assert("inputSchema"@[0] != "annotations"@[0]);
    assert("title"@[0] != "_meta"@[0]);
    assert(empty_object().member("title"@) is None);
    assert(empty_object().member("outputSchema"@) is None);
    let o = with(empty_object(), "name"@, JsonModel::String(t.name));
    let o1 = with(o, "description"@, JsonModel::String(t.description));
    let o2 = with(o1, "inputSchema"@, t.input_schema);
    let o3 = match t.title {
        Some(x) => with(o2, "title"@, JsonModel::String(x)),
        None => o2,
    };
    assert(crate::member_laws::in_order(o3));
    assert(o3.member("title"@) == (match t.title {
        Some(x) => Some(JsonModel::String(x)),
        None => None,
    }));
    let o4 = match t.output_schema {
        Some(x) => with(o3, "outputSchema"@, x),
        None => o3,
    };
    assert(crate::member_laws::in_order(o4));
}

/// A request `tools/list` announces the tools, one by one.
pub proof fn law_lists_announce_the_tools<H: ToolHandler>(
    pre: McpServer<H>,
    id: JsonModel,
    params: JsonModel,
    post: McpServer<H>,
    reply: JsonModel,
)
    requires
        pre.answers(id, "tools/list"@, params, post, reply),
    ensures
        post.tools_behind() == pre.tools_behind(),
        exists|ts: Seq<ToolModel>| #[trigger]
            pre.tools_behind().tools_rel(ts) && is_list_of(reply, id, ts),
{
    lemma_methods_differ();
    let ts = choose|ts: Seq<ToolModel>| #[trigger]
        pre.tools_behind().tools_rel(ts) && reply == ok_reply(id, tools_result(ts));
    lemma_gives(id, tools_result(ts));
    lemma_tools_member(ts);
    let l = Seq::new(ts.len(), |i: int| tool_json(ts[i]));
    assert forall|i: int| 0 <= i < ts.len() implies announces(l[i], #[trigger] ts[i]) by {
        lemma_announces(ts[i]);
    }
    assert(is_list_of(reply, id, ts));
}

proof fn lemma_tools_member(ts: Seq<ToolModel>)
    ensures
        tools_result(ts).member("tools"@) == Some(
            JsonModel::Array(Seq::new(ts.len(), |i: int| tool_json(ts[i]))),
        ),
{
    broadcast use group_fields;

}

/// A reply that lists tools.
pub open spec fn is_list_of(reply: JsonModel, id: JsonModel, ts: Seq<ToolModel>) -> bool {
    let result = reply.member("result"@)->0;
    &&& gives(reply, id, result)
    &&& result.member("tools"@) matches Some(JsonModel::Array(l)) && l.len() == ts.len()
        && forall|i: int| 0 <= i < ts.len() ==> announces(l[i], #[trigger] ts[i])
}

/// A request `initialize` names the server, its version and the version of the
/// protocol: the one asked for where it is `2024-11-05`, else `2025-06-18`.
pub proof fn law_initialization_names_the_server<H: ToolHandler>(
    pre: McpServer<H>,
    id: JsonModel,
    params: JsonModel,
    post: McpServer<H>,
    reply: JsonModel,
)
    requires
        pre.answers(id, "initialize"@, params, post, reply),
    ensures
        exists|result: JsonModel| #[trigger]
            gives(reply, id, result) && result.member("serverInfo"@) is Some
                && result.member("serverInfo"@)->0.member("name"@) == Some(
                JsonModel::String(pre.name()),
            ) && result.member("serverInfo"@)->0.member("version"@) == Some(
                JsonModel::String(pre.version()),
            ) && result.member("protocolVersion"@) == Some(
                JsonModel::String(
                    if params.member("protocolVersion"@) == Some(
                        JsonModel::String("2024-11-05"@),
                    ) {
                        "2024-11-05"@
                    } else {
                        "2025-06-18"@
                    },
                ),
            ) && (result.member("instructions"@) matches Some(v) ==> v is String && advises(
                pre.tools_behind(),
                Some(v->String_0),
            )),
{
    broadcast use group_fields;

    let t = choose|t: Option<Seq<char>>| #[trigger]
        advises(pre.tools_behind(), t) && reply == ok_reply(
            id,
            crate::mcp::initialize_result(pre.name(), pre.version(), params, t),
        );
    let result = crate::mcp::initialize_result(pre.name(), pre.version(), params, t);
    lemma_gives(id, result);
    reveal_strlit("protocolVersion");
    reveal_strlit("capabilities");
    reveal_strlit("serverInfo");
    reveal_strlit("instructions");
    reveal_strlit("name");
    reveal_strlit("version");
    assert("capabilities"@[0] != "instructions"@[0]);
    assert("name"@.len() == 4 && "version"@.len() == 7);
    assert(empty_object().member("instructions"@) is None);
    assert(gives(reply, id, result));
}

/// A request `resources/read` gives the first page of the address that it names.
pub proof fn law_pages_are_read_by_address<H: ToolHandler>(
    pre: McpServer<H>,
    id: JsonModel,
    params: JsonModel,
    post: McpServer<H>,
    reply: JsonModel,
    uri: Seq<char>,
)
    requires
        pre.answers(id, "resources/read"@, params, post, reply),
        params.member("uri"@) == Some(JsonModel::String(uri)),
    ensures
        exists|rs: Seq<UiModel>| #[trigger]
            shows(pre.tools_behind(), rs) && is_page_of(reply, id, rs, uri),
{
    broadcast use group_fields;

    lemma_methods_differ();
    let rs = choose|rs: Seq<UiModel>| #[trigger]
        shows(pre.tools_behind(), rs) && reply == crate::mcp::read_reply(id, params, rs);
    lemma_page_from(rs, 0, uri);
    match page_from(rs, 0, uri) {
        Some(p) => {
            lemma_gives(id, crate::mcp::page_result(p));
            reveal_strlit("uri");
            reveal_strlit("mimeType");
            reveal_strlit("text");
            reveal_strlit("contents");
            assert("uri"@.len() == 3 && "mimeType"@.len() == 8 && "text"@.len() == 4);
            let i = choose|i: int|
                0 <= i < rs.len() && (#[trigger] rs[i]).uri == uri && rs[i] == p && forall|j: int|
                    0 <= j < i ==> (#[trigger] rs[j]).uri != uri;
            assert(is_page(reply, id, rs, uri, i));
        },
        None => {
            lemma_refuses(id, crate::mcp::INVALID_PARAMS, "recurso desconocido: "@ + uri);
        },
    }
}

proof fn lemma_page_from(rs: Seq<UiModel>, i: int, uri: Seq<char>)
    requires
        0 <= i,
        forall|j: int| 0 <= j < i && j < rs.len() ==> (#[trigger] rs[j]).uri != uri,
    ensures
        match page_from(rs, i, uri) {
            Some(p) => exists|k: int|
                0 <= k < rs.len() && (#[trigger] rs[k]).uri == uri && rs[k] == p && forall|j: int|
                    0 <= j < k ==> (#[trigger] rs[j]).uri != uri,
            None => forall|j: int| 0 <= j < rs.len() ==> (#[trigger] rs[j]).uri != uri,
        },
    decreases rs.len() - i,
{
    if i < rs.len() {
        if rs[i].uri == uri {
            assert(rs[i].uri == uri);
        } else {
            lemma_page_from(rs, i + 1, uri);
        }
    }
}

/// A reply that gives page `i`, the first of its address.
pub open spec fn is_page(
    reply: JsonModel,
    id: JsonModel,
    rs: Seq<UiModel>,
    uri: Seq<char>,
    i: int,
) -> bool {
    let result = reply.member("result"@)->0;
    &&& 0 <= i < rs.len()
    &&& rs[i].uri == uri
    &&& forall|j: int| 0 <= j < i ==> (#[trigger] rs[j]).uri != uri
    &&& gives(reply, id, result)
    &&& result.member("contents"@) matches Some(JsonModel::Array(l)) && l.len() == 1
        && l[0].member("uri"@) == Some(JsonModel::String(uri)) && l[0].member("text"@) == Some(
        JsonModel::String(rs[i].html),
    )
}

/// A reply that gives the page of an address, or says that there is none.
pub open spec fn is_page_of(
    reply: JsonModel,
    id: JsonModel,
    rs: Seq<UiModel>,
    uri: Seq<char>,
) -> bool {
    ||| exists|i: int| #[trigger] is_page(reply, id, rs, uri, i)
    ||| refuses(reply, id, -32602, "recurso desconocido: "@ + uri) && forall|j: int|
        0 <= j < rs.len() ==> (#[trigger] rs[j]).uri != uri
}

/// A request of another method is refused, and nothing changes.
pub proof fn law_other_methods_are_refused<H: ToolHandler>(
    pre: McpServer<H>,
    id: JsonModel,
    method: Seq<char>,
    params: JsonModel,
    post: McpServer<H>,
    reply: JsonModel,
)
    requires
        pre.answers(id, method, params, post, reply),
        method != "initialize"@,
        method != "ping"@,
        method != "tools/list"@,
        method != "tools/call"@,
        method != "resources/list"@,
        method != "resources/read"@,
    ensures
        refuses(reply, id, -32601, "método desconocido: "@ + method),
        post.tools_behind() == pre.tools_behind(),
{
    lemma_refuses(id, crate::mcp::METHOD_NOT_FOUND, "método desconocido: "@ + method);
}

// ---------------------------------------------------------------------
// Names
// ---------------------------------------------------------------------

/// Each tool goes by its name; those that only read leave the store as it was.
pub proof fn law_tools_go_by_their_names<
    R: MemoryRepository + StoreMaintenance + NeighborSource<Error = StoreError> + TripleStore,
    F: SourceFetcher,
>(pre: ToolsModel<R, F>, name: Seq<char>, args: JsonModel, post: R, r: ToolAnswer)
    requires
        tool_rel(pre, name, args, post, r),
    ensures
        name == "memory_search"@ ==> search_tool(pre.repo, pre.budget, args, r),
        name == "memory_resolve"@ ==> resolve_tool(pre.repo, pre.budget, args, r),
        name == "memory_reason"@ ==> reason_tool(pre.repo, pre.budget, args, post, r),
        name == "memory_commit"@ ==> commit_tool(
            pre.repo,
            pre.actor,
            pre.budget,
            args,
            post,
            r,
        ),
        name == "memory_consolidate"@ ==> consolidate_tool(
            pre.repo,
            pre.actor,
            pre.budget,
            args,
            post,
            r,
        ),
        name == "memory_history"@ ==> history_tool(pre.repo, args, r),
        name == "memory_delete"@ ==> delete_tool(pre.repo, pre.actor, args, post, r),
        name == "memory_list"@ ==> list_tool(pre.repo, pre.budget, args, r),
        name == "memory_backlinks"@ ==> backlinks_tool(pre.repo, args, r),
        name == "memory_embed"@ ==> embed_tool(pre.repo, args, post, r),
        name == "memory_patch"@ ==> patch_tool(pre.repo, pre.actor, pre.budget, args, post, r),
        name == "memory_bulk_patch"@ ==> bulk_patch_tool(
            pre.repo,
            pre.actor,
            pre.budget,
            args,
            post,
            r,
        ),
        name == "memory_bulk_commit"@ ==> bulk_tool(
            pre.repo,
            pre.actor,
            pre.budget,
            args,
            post,
            r,
        ),
        name == "skill_ingest"@ ==> ingest_tool(
            pre.repo,
            pre.fetcher,
            pre.owners,
            pre.actor,
            pre.budget,
            args,
            post,
            r,
        ),
        name == "memory_validate"@ ==> validate_tool(pre.repo, pre.budget, args, r),
        name == "memory_status"@ ==> status_tool(pre.repo, r),
        name == "memory_stats"@ ==> stats_tool(pre.repo, pre.budget, r),
        name == "spec_propose"@ ==> propose_tool(
            pre.repo,
            pre.actor,
            pre.budget,
            args,
            post,
            r,
        ),
        name == "spec_tasks"@ ==> tasks_tool(pre.repo, pre.actor, pre.budget, args, post, r),
        name == "spec_status"@ ==> spec_status_tool(pre.repo, args, r),
{
    lemma_names_differ();
    lemma_more_names();
}

proof fn lemma_more_names()
    ensures
        "memory_consolidate"@[7] == 'c',
        "memory_bulk_commit"@[7] == 'b',
        "memory_resolve"@[7] == 'r',
        "memory_history"@[7] == 'h',
        "memory_list"@[0] == 'm',
        "spec_status"@[0] == 's',
        "memory_search"@[8] == 'e',
        "memory_status"@[8] == 't',
{
    reveal_strlit("memory_consolidate");
    reveal_strlit("memory_bulk_commit");
    reveal_strlit("memory_resolve");
    reveal_strlit("memory_history");
    reveal_strlit("memory_list");
    reveal_strlit("spec_status");
    reveal_strlit("memory_search");
    reveal_strlit("memory_status");
}

} // verus!

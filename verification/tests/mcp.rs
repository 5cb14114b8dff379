//! The protocol, message by message.

use okf_memory::json::{obj, s, Value};
use okf_memory::mcp::{McpServer, ToolAnnotations, ToolError, ToolHandler, ToolSpec, UiResource};

struct EchoTools;

impl ToolHandler for EchoTools {
    fn tools(&self) -> Vec<ToolSpec> {
        vec![ToolSpec {
            name: "echo",
            description: "devuelve lo recibido",
            input_schema: obj(vec![("type", s("object"))]),
            ui_resource_uri: None,
            title: None,
            output_schema: None,
            annotations: None,
        }]
    }
    fn call(&mut self, name: &str, arguments: &Value) -> Result<Value, ToolError> {
        match name {
            "echo" => Ok(arguments.clone()),
            "explota" => Err(ToolError::Failed("bum controlado".to_string())),
            _ => Err(ToolError::UnknownTool),
        }
    }
}

fn server() -> McpServer<EchoTools> {
    McpServer::new("test", "0.0.0", EchoTools)
}

/// Handler de prueba con una herramienta vinculada a un recurso
/// `ui://`, para probar `resources/list`, `resources/read` y la
/// degradación elegante de `_meta.ui` en `tools/list`.
struct EchoWithUi;

impl ToolHandler for EchoWithUi {
    fn tools(&self) -> Vec<ToolSpec> {
        vec![ToolSpec {
            name: "echo",
            description: "devuelve lo recibido",
            input_schema: obj(vec![("type", s("object"))]),
            ui_resource_uri: Some("ui://test/echo-view"),
            title: Some("Echo"),
            output_schema: Some(obj(vec![("type", s("object"))])),
            annotations: Some(ToolAnnotations {
                read_only_hint: Some(true),
                destructive_hint: Some(false),
                idempotent_hint: Some(true),
                open_world_hint: Some(false),
            }),
        }]
    }
    fn call(&mut self, _name: &str, arguments: &Value) -> Result<Value, ToolError> {
        Ok(arguments.clone())
    }
    fn ui_resources(&self) -> Vec<UiResource> {
        vec![UiResource {
            uri: "ui://test/echo-view",
            name: "Echo view",
            description: "vista de prueba",
            html: "<!DOCTYPE html><html><body>echo</body></html>",
        }]
    }
}

fn server_with_ui() -> McpServer<EchoWithUi> {
    McpServer::new("test", "0.0.0", EchoWithUi)
}

const INIT_SIN_UI: &str = r#"{"jsonrpc":"2.0","id":1,"method":"initialize","params":{"protocolVersion":"2025-06-18","capabilities":{},"clientInfo":{"name":"t","version":"0"}}}"#;
const INIT_CON_UI: &str = r#"{"jsonrpc":"2.0","id":1,"method":"initialize","params":{"protocolVersion":"2025-06-18","capabilities":{"extensions":{"io.modelcontextprotocol/ui":{"mimeTypes":["text/html;profile=mcp-app"]}}},"clientInfo":{"name":"t","version":"0"}}}"#;

#[test]
fn resources_list_y_read_devuelven_el_recurso_ui() {
    let mut srv = server_with_ui();
    srv.handle_message(INIT_SIN_UI).unwrap();

    let resp = srv
        .handle_message(r#"{"jsonrpc":"2.0","id":2,"method":"resources/list"}"#)
        .unwrap();
    assert!(resp.contains("\"ui://test/echo-view\""));
    assert!(resp.contains("\"mimeType\":\"text/html;profile=mcp-app\""));

    let resp = srv
        .handle_message(r#"{"jsonrpc":"2.0","id":3,"method":"resources/read","params":{"uri":"ui://test/echo-view"}}"#)
        .unwrap();
    assert!(resp.contains("<!DOCTYPE html>"));
}

#[test]
fn resources_read_de_uri_desconocida_es_invalid_params() {
    let resp = server_with_ui()
        .handle_message(r#"{"jsonrpc":"2.0","id":1,"method":"resources/read","params":{"uri":"ui://no-existe"}}"#)
        .unwrap();
    assert!(resp.contains("-32602"));
}

#[test]
fn tools_list_anuncia_meta_ui_siempre_declare_o_no_el_cliente_la_extension() {
    // Con o sin la extensión declarada, la vista se anuncia igual.
    for init in [INIT_SIN_UI, INIT_CON_UI] {
        let mut srv = server_with_ui();
        srv.handle_message(init).unwrap();
        let resp = srv
            .handle_message(r#"{"jsonrpc":"2.0","id":2,"method":"tools/list"}"#)
            .unwrap();
        assert!(resp.contains("\"resourceUri\":\"ui://test/echo-view\""));
        assert!(resp.contains("\"visibility\":[\"model\",\"app\"]"));
        // Se anuncian las dos formas que un cliente puede leer.
        assert!(resp.contains("\"openai/outputTemplate\":\"ui://test/echo-view\""));
        assert!(resp.contains("\"openai/widgetAccessible\":true"));
        assert!(resp.contains("\"title\":\"Echo\""));
        assert!(resp.contains("\"outputSchema\":{\"type\":\"object\"}"));
        assert!(resp.contains("\"readOnlyHint\":true"));
        assert!(resp.contains("\"destructiveHint\":false"));
        assert!(resp.contains("\"idempotentHint\":true"));
        assert!(resp.contains("\"openWorldHint\":false"));
    }
}

#[test]
fn tools_call_incluye_structured_content_para_resultados_objeto() {
    let resp = server()
        .handle_message(r#"{"jsonrpc":"2.0","id":1,"method":"tools/call","params":{"name":"echo","arguments":{"x":1}}}"#)
        .unwrap();
    assert!(resp.contains("\"structuredContent\":{\"x\":1}"));
    // `content[0].text` se mantiene igual, por compatibilidad.
    assert!(resp.contains("{\\\"x\\\":1}"));
}

#[test]
fn tools_call_fallido_no_lleva_structured_content() {
    let resp = server()
        .handle_message(r#"{"jsonrpc":"2.0","id":1,"method":"tools/call","params":{"name":"explota"}}"#)
        .unwrap();
    assert!(!resp.contains("structuredContent"));
}

#[test]
fn ciclo_de_vida_completo() {
    let mut srv = server();
    let resp = srv
        .handle_message(r#"{"jsonrpc":"2.0","id":1,"method":"initialize","params":{"protocolVersion":"2025-06-18","capabilities":{},"clientInfo":{"name":"t","version":"0"}}}"#)
        .unwrap();
    assert!(resp.contains("\"protocolVersion\":\"2025-06-18\""));
    assert!(resp.contains("\"serverInfo\""));

    // La notificación no produce respuesta.
    assert!(srv
        .handle_message(r#"{"jsonrpc":"2.0","method":"notifications/initialized"}"#)
        .is_none());

    let resp = srv
        .handle_message(r#"{"jsonrpc":"2.0","id":2,"method":"tools/list"}"#)
        .unwrap();
    assert!(resp.contains("\"echo\""));

    let resp = srv
        .handle_message(r#"{"jsonrpc":"2.0","id":3,"method":"tools/call","params":{"name":"echo","arguments":{"x":1}}}"#)
        .unwrap();
    assert!(resp.contains("isError\":false"));
    assert!(resp.contains("{\\\"x\\\":1}"));
}

/// Handler mínimo que SÍ tiene algo que decir en `instructions`,
/// para probar el otro lado del Abierto/Cerrado que `EchoTools`
/// ya prueba por omisión (su `initialize` nunca lleva el campo).
struct EchoWithInstructions;

impl ToolHandler for EchoWithInstructions {
    fn tools(&self) -> Vec<ToolSpec> {
        Vec::new()
    }
    fn call(&mut self, _name: &str, _arguments: &Value) -> Result<Value, ToolError> {
        Err(ToolError::UnknownTool)
    }
    fn instructions(&self) -> Option<&str> {
        Some("busca convenciones ya declaradas antes de inventar nombres nuevos")
    }
}

#[test]
fn initialize_omite_instructions_por_defecto() {
    let resp = server()
        .handle_message(r#"{"jsonrpc":"2.0","id":1,"method":"initialize","params":{"protocolVersion":"2025-06-18","capabilities":{},"clientInfo":{"name":"t","version":"0"}}}"#)
        .unwrap();
    assert!(!resp.contains("instructions"));
}

#[test]
fn initialize_incluye_instructions_cuando_el_handler_las_declara() {
    let mut srv = McpServer::new("test", "0.0.0", EchoWithInstructions);
    let resp = srv
        .handle_message(r#"{"jsonrpc":"2.0","id":1,"method":"initialize","params":{"protocolVersion":"2025-06-18","capabilities":{},"clientInfo":{"name":"t","version":"0"}}}"#)
        .unwrap();
    assert!(resp.contains("busca convenciones ya declaradas"));
}

#[test]
fn json_invalido_devuelve_parse_error() {
    let resp = server().handle_message("{rotísimo").unwrap();
    assert!(resp.contains("-32700"));
}

#[test]
fn metodo_desconocido() {
    let resp = server()
        .handle_message(r#"{"jsonrpc":"2.0","id":1,"method":"no/existe"}"#)
        .unwrap();
    assert!(resp.contains("-32601"));
}

#[test]
fn herramienta_desconocida_es_invalid_params() {
    let resp = server()
        .handle_message(r#"{"jsonrpc":"2.0","id":1,"method":"tools/call","params":{"name":"nada"}}"#)
        .unwrap();
    assert!(resp.contains("-32602"));
}

#[test]
fn fallo_de_dominio_no_es_error_de_protocolo() {
    let resp = server()
        .handle_message(r#"{"jsonrpc":"2.0","id":1,"method":"tools/call","params":{"name":"explota"}}"#)
        .unwrap();
    assert!(resp.contains("\"result\""));
    assert!(resp.contains("isError\":true"));
    assert!(resp.contains("bum controlado"));
}

#[test]
fn el_id_vuelve_intacto() {
    let resp = server()
        .handle_message(r#"{"jsonrpc":"2.0","id":"abc-7","method":"ping"}"#)
        .unwrap();
    assert!(resp.contains("\"id\":\"abc-7\""));
    let resp = server()
        .handle_message(r#"{"jsonrpc":"2.0","id":42,"method":"ping"}"#)
        .unwrap();
    assert!(resp.contains("\"id\":42"));
}

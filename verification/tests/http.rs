//! Routing of requests.

use okf_memory::http::{route, HttpRequest};
use okf_memory::json::Value;
use okf_memory::json_parse::parse;
use okf_memory::mcp::McpServer;
use okf_memory::memory::InMemoryStore;
use okf_memory::model::{Budget, Principal};
use okf_memory::tools::MemoryTools;

fn server() -> McpServer<MemoryTools<InMemoryStore>> {
    let tools = MemoryTools::new(InMemoryStore::new(), Principal::local_dev(), Budget::default());
    McpServer::new("okf-memory-http", "test", tools)
}

fn req(method: &str, path: &str, body: &str) -> HttpRequest {
    HttpRequest {
        method: method.to_string(),
        path: path.to_string(),
        origin: None,
        content_type: Some("application/json".to_string()),
        body: body.as_bytes().to_vec(),
    }
}

#[test]
fn ruta_desconocida_es_404() {
    let mut s = server();
    let r = route(&req("POST", "/otra", "{}"), &Budget::default(), &[], &mut s);
    assert_eq!(r.status, 404);
}

#[test]
fn get_y_delete_son_405() {
    let mut s = server();
    for m in ["GET", "DELETE"] {
        let r = route(&req(m, "/mcp", ""), &Budget::default(), &[], &mut s);
        assert_eq!(r.status, 405, "método {m}");
    }
}

#[test]
fn origin_no_permitido_es_403() {
    let mut s = server();
    let mut r = req("POST", "/mcp", "{}");
    r.origin = Some("https://evil.example".to_string());
    let allowed = vec!["https://cliente.example".to_string()];
    let resp = route(&r, &Budget::default(), &allowed, &mut s);
    assert_eq!(resp.status, 403);
}

#[test]
fn sin_origin_pasa_aunque_haya_lista_permitida() {
    let mut s = server();
    let r = req("POST", "/mcp", r#"{"jsonrpc":"2.0","id":1,"method":"ping"}"#);
    let allowed = vec!["https://cliente.example".to_string()];
    let resp = route(&r, &Budget::default(), &allowed, &mut s);
    assert_eq!(resp.status, 200, "clientes no-navegador no mandan Origin");
}

#[test]
fn content_type_incorrecto_es_415() {
    let mut s = server();
    let mut r = req("POST", "/mcp", "{}");
    r.content_type = Some("text/plain".to_string());
    let resp = route(&r, &Budget::default(), &[], &mut s);
    assert_eq!(resp.status, 415);
}

#[test]
fn cuerpo_demasiado_grande_es_413() {
    let mut s = server();
    let budget = Budget { max_request_bytes: 10, ..Budget::default() };
    let r = req("POST", "/mcp", "0123456789ABCDEF");
    let resp = route(&r, &budget, &[], &mut s);
    assert_eq!(resp.status, 413);
}

#[test]
fn utf8_invalido_es_400() {
    let mut s = server();
    let mut r = req("POST", "/mcp", "");
    r.body = vec![0xff, 0xfe, 0xfd];
    let resp = route(&r, &Budget::default(), &[], &mut s);
    assert_eq!(resp.status, 400);
}

#[test]
fn notificacion_devuelve_202_sin_cuerpo() {
    let mut s = server();
    let r = req("POST", "/mcp", r#"{"jsonrpc":"2.0","method":"notifications/initialized"}"#);
    let resp = route(&r, &Budget::default(), &[], &mut s);
    assert_eq!(resp.status, 202);
    assert!(resp.body.is_empty());
}

#[test]
fn peticion_valida_ejecuta_una_herramienta() {
    let mut s = server();
    let body = r#"{"jsonrpc":"2.0","id":1,"method":"tools/call","params":{"name":"memory_commit","arguments":{"concept_id":"n","reason":"x","markdown":"---\ntype: note\n---\nhola\n"}}}"#;
    let resp = route(&req("POST", "/mcp", body), &Budget::default(), &[], &mut s);
    assert_eq!(resp.status, 200);

    // El payload de la herramienta viaja como texto JSON DENTRO
    // del JSON-RPC (doblemente codificado); lo parseamos en vez
    // de buscar substrings escapados a mano.
    let outer = parse(&resp.body).unwrap();
    let text = outer
        .get("result").unwrap()
        .get("content").unwrap()
        .as_array().unwrap()[0]
        .get("text").unwrap()
        .as_str().unwrap();
    let payload = parse(text).unwrap();
    assert_eq!(payload.get("created"), Some(&Value::Bool(true)));
}

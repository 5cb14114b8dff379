//! Sources of skills and providers of text.

use std::cell::Cell;
use std::rc::Rc;
use okf_memory::ingest::IngestError;
use okf_memory::source::{is_text_path, parse_source, FallbackSynthesizer, Source, Synthesizer};

/// `Synthesizer` de prueba: falla o acierta según se le pida, y
/// cuenta cuántas veces se le llamó (en un `Rc` compartido con el
/// test) para comprobar que el fallback no invoca proveedores de
/// más tras un éxito.
struct FakeProvider {
    result: Result<&'static str, &'static str>,
    calls: Rc<Cell<u32>>,
}

impl FakeProvider {
    fn ok(text: &'static str) -> Self {
        FakeProvider { result: Ok(text), calls: Rc::new(Cell::new(0)) }
    }
    fn fail(msg: &'static str) -> Self {
        FakeProvider { result: Err(msg), calls: Rc::new(Cell::new(0)) }
    }
    fn calls_handle(&self) -> Rc<Cell<u32>> {
        self.calls.clone()
    }
}

impl Synthesizer for FakeProvider {
    fn synthesize(&self, _prompt: &str) -> Result<String, IngestError> {
        self.calls.set(self.calls.get() + 1);
        self.result.map(str::to_string).map_err(|m| IngestError::Synthesis(m.to_string()))
    }
}

#[test]
fn usa_el_primer_proveedor_que_funciona() {
    let fallback =
        FallbackSynthesizer::new(vec![Box::new(FakeProvider::ok("primero"))]);
    assert_eq!(fallback.synthesize("x").unwrap(), "primero");
}

#[test]
fn cae_al_siguiente_proveedor_si_el_primero_falla() {
    let fallback = FallbackSynthesizer::new(vec![
        Box::new(FakeProvider::fail("gemini: HTTP 429: cuota agotada")),
        Box::new(FakeProvider::ok("respaldo")),
    ]);
    assert_eq!(fallback.synthesize("x").unwrap(), "respaldo");
}

#[test]
fn no_llama_al_segundo_si_el_primero_acierta() {
    let segundo = FakeProvider::ok("no debería usarse");
    let calls_segundo = segundo.calls_handle();
    let fallback = FallbackSynthesizer::new(vec![
        Box::new(FakeProvider::ok("primero")),
        Box::new(segundo),
    ]);
    assert_eq!(fallback.synthesize("x").unwrap(), "primero");
    assert_eq!(calls_segundo.get(), 0);
}

#[test]
fn agrega_los_errores_si_todos_fallan() {
    let fallback = FallbackSynthesizer::new(vec![
        Box::new(FakeProvider::fail("gemini: HTTP 429")),
        Box::new(FakeProvider::fail("groq: HTTP 429")),
    ]);
    let err = fallback.synthesize("x").unwrap_err();
    let msg = err.message();
    assert!(msg.contains("gemini: HTTP 429"), "mensaje: {msg}");
    assert!(msg.contains("groq: HTTP 429"), "mensaje: {msg}");
}

#[test]
fn lib_sin_proveedores_falla_claro() {
    let fallback = FallbackSynthesizer::<FakeProvider>::new(vec![]);
    let err = fallback.synthesize("x").unwrap_err();
    assert!(err.message().contains("no hay proveedores"));
}

#[test]
fn atajo_owner_repo() {
    assert_eq!(
        parse_source("udapy/rust-agentic-skills").unwrap(),
        Source::GithubTree {
            owner: "udapy".into(),
            repo: "rust-agentic-skills".into(),
            reference: None,
            path: String::new(),
        }
    );
}

#[test]
fn url_de_repo_y_subcarpeta() {
    assert_eq!(
        parse_source("https://github.com/udapy/rust-agentic-skills/tree/main/skills").unwrap(),
        Source::GithubTree {
            owner: "udapy".into(),
            repo: "rust-agentic-skills".into(),
            reference: Some("main".into()),
            path: "skills".into(),
        }
    );
}

#[test]
fn url_blob_se_vuelve_raw() {
    assert_eq!(
        parse_source("https://github.com/o/r/blob/main/skills/a/SKILL.md").unwrap(),
        Source::SingleFile {
            url: "https://raw.githubusercontent.com/o/r/main/skills/a/SKILL.md".into(),
            name: "SKILL.md".into(),
        }
    );
}

#[test]
fn url_cualquiera_es_archivo_individual() {
    assert_eq!(
        parse_source("https://example.com/docs/guia.md").unwrap(),
        Source::SingleFile { url: "https://example.com/docs/guia.md".into(), name: "guia.md".into() }
    );
}

#[test]
fn fuentes_invalidas_se_rechazan() {
    assert!(parse_source("solo-un-segmento").is_err());
    assert!(parse_source("a/b/c").is_err());
    assert!(parse_source("ftp://x/y").is_err());
    assert!(parse_source("https://github.com/solo-owner").is_err());
}

#[test]
fn filtro_de_texto() {
    assert!(is_text_path("skills/a/SKILL.md"));
    assert!(is_text_path("x.tsx"));
    assert!(!is_text_path("logo.png"));
    assert!(!is_text_path("LICENSE"));
}

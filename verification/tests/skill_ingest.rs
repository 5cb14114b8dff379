//! Skills brought in from a source.

use okf_memory::ingest::{IngestError, SourceFetcher, SourceFile};
use okf_memory::json::{to_string, Value};
use okf_memory::json_parse::parse;
use okf_memory::mcp::ToolHandler;
use okf_memory::memory::InMemoryStore;
use okf_memory::model::{Budget, Principal};
use okf_memory::tools::MemoryTools;

struct FakeFetcher(Vec<SourceFile>);

impl SourceFetcher for FakeFetcher {
    fn fetch(&self, _source: &str) -> Result<Vec<SourceFile>, IngestError> {
        Ok(self.0.clone())
    }
}

fn skills_repo() -> Vec<SourceFile> {
    let skill = |name: &str| {
        format!("---\nname: {name}\ndescription: hace cosas\n---\n\n# {name}\n\nInstrucciones.\n")
    };
    vec![
        SourceFile {
            path: "skills/rust-kernel/SKILL.md".to_string(),
            content: skill("Rust Kernel"),
        },
        SourceFile {
            path: "skills/rust-kernel/scripts/run.sh".to_string(),
            content: "echo hola".to_string(),
        },
        SourceFile {
            path: "skills/lint-hunter/SKILL.md".to_string(),
            content: skill("Lint Hunter"),
        },
    ]
}

fn tools_with(fetcher: FakeFetcher) -> MemoryTools<InMemoryStore, FakeFetcher> {
    MemoryTools::new(InMemoryStore::new(), Principal::local_dev(), Budget::default())
        .with_ingest(Box::new(fetcher), Vec::new())
}

fn call(tools: &mut MemoryTools<InMemoryStore, FakeFetcher>, name: &str, args: &str) -> Value {
    let args = parse(args).expect("argumentos JSON válidos");
    let out = tools.call(name, &args).expect("la llamada no debe fallar");
    parse(&to_string(&out)).unwrap()
}

fn as_f64(v: &Value) -> f64 {
    v.as_number().expect("esperaba número").text().parse().unwrap()
}

#[test]
fn sin_fetcher_no_se_anuncia_ni_funciona() {
    let mut tools =
        MemoryTools::new(InMemoryStore::new(), Principal::local_dev(), Budget::default());
    assert!(tools.tools().iter().all(|t| t.name != "skill_ingest"));
    let args = parse(r#"{"source":"o/r","path_prefix":"skills"}"#).unwrap();
    let err = tools.call("skill_ingest", &args).unwrap_err();
    let msg = format!("{err:?}");
    assert!(msg.contains("ingest_unavailable"), "error inesperado: {msg}");
}

#[test]
fn con_fetcher_se_anuncia() {
    let tools = tools_with(FakeFetcher(skills_repo()));
    assert!(tools.tools().iter().any(|t| t.name == "skill_ingest"));
}

#[test]
fn dry_run_devuelve_el_plan_sin_escribir() {
    let mut tools = tools_with(FakeFetcher(skills_repo()));
    let out = call(
        &mut tools,
        "skill_ingest",
        r#"{"source":"udapy/rust-agentic-skills","path_prefix":"skills/programming","dry_run":true}"#,
    );
    assert_eq!(out.get("format").unwrap().as_str().unwrap(), "agentic-skills");
    assert_eq!(out.get("dry_run").unwrap(), &Value::Bool(true));
    let units = out.get("units").unwrap().as_array().unwrap();
    assert_eq!(units.len(), 2);
    assert!(units
        .iter()
        .all(|u| u.get("action").unwrap().as_str().unwrap() == "convert-verbatim"));

    // Nada persistido.
    let list = call(&mut tools, "memory_list", r#"{"path_prefix":"skills"}"#);
    assert_eq!(as_f64(list.get("count").unwrap()), 0.0);
}

#[test]
fn por_defecto_conserva_el_contenido_integro() {
    // El cuerpo del SKILL.md y sus archivos auxiliares se conservan
    // íntegros.
    let mut tools = tools_with(FakeFetcher(skills_repo()));
    let out = call(
        &mut tools,
        "skill_ingest",
        r#"{"source":"udapy/rust-agentic-skills","path_prefix":"skills/programming"}"#,
    );
    assert_eq!(as_f64(out.get("ingested").unwrap()), 2.0);
    let items = out.get("items").unwrap().as_array().unwrap();
    assert!(items
        .iter()
        .all(|i| i.get("mode").unwrap().as_str().unwrap() == "verbatim"));

    let doc = call(
        &mut tools,
        "memory_resolve",
        r#"{"concept_id":"skills/programming/rust-kernel"}"#,
    );
    let markdown = doc
        .get("document")
        .unwrap()
        .get("markdown")
        .unwrap()
        .as_str()
        .unwrap();
    assert!(markdown.contains("  - verbatim-import"));
    assert!(markdown.contains("Instrucciones."));
    assert!(markdown.contains("scripts/run.sh"));
    assert!(markdown.contains("echo hola"));
}

#[test]
fn reingesta_no_pisa_lo_existente() {
    let mut tools = tools_with(FakeFetcher(skills_repo()));
    let primera = call(
        &mut tools,
        "skill_ingest",
        r#"{"source":"udapy/rust-agentic-skills","path_prefix":"skills/programming"}"#,
    );
    assert_eq!(as_f64(primera.get("ingested").unwrap()), 2.0);

    // Segunda pasada: misma conversión determinista → idempotente
    // (no_change), no un conflicto.
    let segunda = call(
        &mut tools,
        "skill_ingest",
        r#"{"source":"udapy/rust-agentic-skills","path_prefix":"skills/programming"}"#,
    );
    assert_eq!(as_f64(segunda.get("ingested").unwrap()), 2.0);
    let items = segunda.get("items").unwrap().as_array().unwrap();
    assert!(items
        .iter()
        .all(|i| i.get("created").unwrap() == &Value::Bool(false)));
}

#[test]
fn formato_okf_se_ingiere_verbatim() {
    let files = vec![SourceFile {
        path: "notas/alice.md".to_string(),
        content: "---\ntype: person\ntitle: Alice\n---\nHola.\n".to_string(),
    }];
    let mut tools = tools_with(FakeFetcher(files));
    let out = call(
        &mut tools,
        "skill_ingest",
        r#"{"source":"https://github.com/o/r","path_prefix":"importado"}"#,
    );
    assert_eq!(out.get("format").unwrap().as_str().unwrap(), "okf");
    assert_eq!(as_f64(out.get("ingested").unwrap()), 1.0);
    let doc = call(&mut tools, "memory_resolve", r#"{"concept_id":"importado/notas/alice"}"#);
    let markdown = doc
        .get("document")
        .unwrap()
        .get("markdown")
        .unwrap()
        .as_str()
        .unwrap();
    assert_eq!(markdown, "---\ntype: person\ntitle: Alice\n---\nHola.\n");
}

#[test]
fn argumentos_invalidos_se_rechazan() {
    let mut tools = tools_with(FakeFetcher(skills_repo()));
    for args in [
        r#"{"path_prefix":"skills"}"#,
        r#"{"source":"o/r"}"#,
        r#"{"source":"o/r","path_prefix":"Skills Mayúsculas"}"#,
        r#"{"source":"o/r","path_prefix":"skills","format":"magic"}"#,
    ] {
        let args = parse(args).unwrap();
        assert!(tools.call("skill_ingest", &args).is_err(), "debía fallar: {args:?}");
    }
}

#[test]
fn ingerir_dos_veces_no_anade_nada() {
    let mut tools = tools_with(FakeFetcher(skills_repo()));
    let args = r#"{"source":"udapy/rust-agentic-skills","path_prefix":"skills"}"#;
    let first = call(&mut tools, "skill_ingest", args);
    let blobs = tools.repo().blob_count();
    let second = call(&mut tools, "skill_ingest", args);
    assert_eq!(tools.repo().blob_count(), blobs);
    assert_eq!(first.get("concept_ids"), second.get("concept_ids"));
    let hashes = |v: &Value| -> Vec<String> {
        v.get("items").unwrap().as_array().unwrap().iter()
            .map(|i| i.get("hash").unwrap().as_str().unwrap().to_string())
            .collect()
    };
    assert_eq!(hashes(&first), hashes(&second));
    for (item, created) in [(&first, true), (&second, false)] {
        for i in item.get("items").unwrap().as_array().unwrap() {
            assert_eq!(i.get("created").unwrap().as_bool(), Some(created));
        }
    }
    let ids = first.get("concept_ids").unwrap().as_array().unwrap();
    for id in ids {
        let q = format!(r#"{{"concept_id":"{}"}}"#, id.as_str().unwrap());
        let h = call(&mut tools, "memory_history", &q);
        assert_eq!(h.get("revisions").unwrap().as_array().unwrap().len(), 1);
    }
}

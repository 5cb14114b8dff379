//! Mirroring events and catching up.

use okf_memory::json_parse::parse;
use okf_memory::memory::InMemoryStore;
use okf_memory::model::{Budget, ConceptId, Principal};
use okf_memory::outbox::{
    event_markdown, event_reason, file_url, judge, live_documents, plan_catchup, plan_deletions,
    plan_event, read_row, reconciles, status_after_failure, sync_credentials, Retry, Step,
};
use okf_memory::repo::MemoryRepository;
use okf_memory::sha256::content_id;
use okf_memory::store::CommitRequest;

#[test]
fn pasos_de_cada_evento() {
    assert_eq!(plan_event("commit", true, true), vec![Step::WriteFile, Step::Index]);
    assert_eq!(plan_event("commit", false, false), vec![]);
    assert_eq!(plan_event("delete", true, false), vec![Step::DeleteFile, Step::Unindex]);
    assert_eq!(plan_event("delete", false, true), vec![Step::Unindex]);
    assert_eq!(plan_event("otro", true, true), vec![]);
    assert_eq!(Step::WriteFile.failure("x"), "GitHub sync failed: x");
    assert_eq!(Step::Index.failure("x"), "Embedding generation failed: x");
    assert_eq!(Step::DeleteFile.failure("x"), "GitHub delete failed: x");
    assert_eq!(Step::Unindex.failure("x"), "Embedding deletion failed: x");
}

#[test]
fn se_reconcilia_cada_sesenta_vueltas() {
    let rounds: Vec<u64> = (0..200).filter(|t| reconciles(*t)).collect();
    assert_eq!(rounds, vec![0, 60, 120, 180]);
}

#[test]
fn al_quinto_intento_se_abandona() {
    for attempts in 0..4 {
        assert_eq!(status_after_failure(attempts), "pending");
    }
    assert_eq!(status_after_failure(4), "failed");
    assert_eq!(status_after_failure(u64::MAX), "failed");
}

#[test]
fn un_testigo_obsoleto_se_reintenta_hasta_el_ultimo() {
    assert_eq!(judge(200, 1, false), Retry::Done);
    assert_eq!(judge(409, 1, false), Retry::Again);
    assert_eq!(judge(409, 2, true), Retry::Again);
    assert_eq!(judge(409, 3, false), Retry::GiveUp);
    assert_eq!(judge(404, 1, false), Retry::GiveUp);
    assert_eq!(judge(404, 1, true), Retry::Done);
    assert_eq!(judge(500, 1, true), Retry::GiveUp);
}

#[test]
fn credenciales_segun_el_almacen() {
    let t = || Some("t".to_string());
    let r = || Some("o/r".to_string());
    assert_eq!(sync_credentials(Some("github"), t(), r()), (None, None));
    assert_eq!(sync_credentials(Some("supabase"), t(), r()), (t(), r()));
    assert_eq!(sync_credentials(None, None, r()), (None, r()));
    assert_eq!(file_url("o/r", "a/b"), "https://api.github.com/repos/o/r/contents/docs/a/b.md");
}

#[test]
fn lo_que_trae_un_evento() {
    let full = parse(r#"{"markdown":"m","reason":"r"}"#).unwrap();
    assert_eq!((event_markdown(&full).as_str(), event_reason("commit", &full).as_str()), ("m", "r"));
    let empty = parse("{}").unwrap();
    assert_eq!(event_markdown(&empty), "");
    assert_eq!(event_reason("commit", &empty), "okf-mcp commit");
    assert_eq!(event_reason("delete", &empty), "okf-mcp delete");
}

fn store(n: usize) -> InMemoryStore {
    let mut s = InMemoryStore::new();
    for i in 0..n {
        s.commit(
            CommitRequest {
                concept_id: ConceptId::parse(&format!("skills/concept-{i:02}")).unwrap(),
                expected: None,
                markdown: format!("---\ntype: skill\ntitle: Concept {i}\n---\ncontenido\n"),
                reason: "seed".to_string(),
            },
            &Principal::local_dev(),
            &Budget::default(),
        )
        .unwrap();
    }
    s
}

#[test]
fn mas_documentos_que_resultados_de_busqueda() {
    let docs = live_documents(&store(60)).unwrap();
    assert_eq!(docs.len(), 60);
    let rows: Vec<_> = docs
        .iter()
        .map(|d| read_row(d.concept_id.as_str(), &d.content_id.to_hex(), 1, false).unwrap())
        .collect();
    assert!(plan_catchup(&docs, &rows).is_empty());
    assert!(plan_deletions(&docs, &rows).is_empty(), "ninguno vivo se da por borrado");
}

#[test]
fn diferencias_con_el_indice() {
    let docs = live_documents(&store(3)).unwrap();
    let other = content_id("otra cosa").to_hex();
    let same = |i: usize| docs[i].content_id.to_hex();
    let rows = vec![
        read_row("skills/concept-00", &other, 7, false).unwrap(),
        read_row("skills/concept-01", &same(1), 3, true).unwrap(),
        read_row("skills/ido", &other, 1, false).unwrap(),
        read_row("skills/ya-borrado", &other, 1, true).unwrap(),
    ];
    let plan = plan_catchup(&docs, &rows);
    let brief: Vec<(usize, u64, bool)> =
        plan.iter().map(|c| (c.index, c.version, c.base.is_some())).collect();
    assert_eq!(brief, vec![(0, 8, true), (1, 4, true), (2, 1, false)]);
    assert_eq!(plan_deletions(&docs, &rows), vec![2]);
}

#[test]
fn filas_que_no_se_entienden() {
    let h = content_id("x").to_hex();
    assert_eq!(
        read_row("a", "zz", 1, false).unwrap_err(),
        "invalid hex hash in database for concept a"
    );
    assert_eq!(read_row("", &h, 1, false).unwrap_err(), "el identificador está vacío");
}

#[test]
fn puesto_al_dia_no_queda_nada_por_hacer() {
    let docs = live_documents(&store(3)).unwrap();
    let other = content_id("otra cosa").to_hex();
    let rows = vec![
        read_row("skills/concept-00", &other, 7, false).unwrap(),
        read_row("skills/ido", &other, 1, false).unwrap(),
    ];
    let mut now = Vec::new();
    for c in plan_catchup(&docs, &rows) {
        let d = &docs[c.index];
        now.push(read_row(d.concept_id.as_str(), &d.content_id.to_hex(), c.version as i64, false).unwrap());
    }
    for i in plan_deletions(&docs, &rows) {
        let r = &rows[i];
        now.push(read_row(r.concept_id.as_str(), &r.content_id.to_hex(), r.version, true).unwrap());
    }
    assert!(plan_catchup(&docs, &now).is_empty());
    assert!(plan_deletions(&docs, &now).is_empty());
}

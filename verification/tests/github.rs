//! A repository of files as a store.

use okf_memory::github::{
    b64, batch_message, from_b64, plan_batch, split_repo, Draft, Layout, PendingFile,
};
use okf_memory::model::{Budget, ConceptId, ContentId, Principal, Revision};
use okf_memory::sha256::{content_id, sha256};
use okf_memory::snapshot::{DecidedCommit, Snapshot};
use okf_memory::store::{BulkItem, CommitRequest, SearchQuery, StoreError};
use okf_memory::trailer::{commit_message, decode_rev, encode_rev, flatten, read_trailers, RevOp};

fn id(s: &str) -> ConceptId {
    ConceptId::parse(s).unwrap()
}

fn layout() -> Layout {
    Layout::new(
        "https://api.github.com".to_string(),
        "o".to_string(),
        "r".to_string(),
        "main".to_string(),
        "/memoria/",
    )
}

fn request(concept: &str, expected: Option<ContentId>, markdown: &str) -> CommitRequest {
    CommitRequest {
        concept_id: id(concept),
        expected,
        markdown: markdown.to_string(),
        reason: "motivo".to_string(),
    }
}

fn rev(seq: u64, concept: &str, markdown: &str, reason: &str) -> Revision {
    Revision {
        seq,
        concept_id: id(concept),
        base: None,
        result: content_id(markdown),
        actor: Principal::local_dev(),
        reason: reason.to_string(),
    }
}

fn backend(e: StoreError) -> String {
    match e {
        StoreError::Backend(m) => m,
        other => panic!("se esperaba un fallo del servicio, hubo {other:?}"),
    }
}

#[test]
fn contenidos_en_base64() {
    assert_eq!(b64("hola"), "aG9sYQ==");
    assert_eq!(from_b64("aG9s\nYQ==\n").unwrap(), "hola");
    let text = "mañana 🦀\n";
    assert_eq!(from_b64(&b64(text)).unwrap(), text);
    assert_eq!(
        backend(from_b64("a!b=").unwrap_err()),
        "base64 inválido de la API: Invalid symbol 33, offset 1."
    );
    assert!(backend(from_b64("//79").unwrap_err()).starts_with("contenido no UTF-8: "));
}

#[test]
fn rutas_de_los_documentos() {
    let l = layout();
    assert_eq!(l.branch(), "main");
    assert_eq!(l.url("git/trees"), "https://api.github.com/repos/o/r/git/trees");
    assert_eq!(l.doc_path(&id("people/alice")), "memoria/people/alice.md");
    assert_eq!(l.path_to_concept("memoria/people/alice.md"), Some(id("people/alice")));
    for foreign in ["memoria/people/alice.txt", "otra/a.md", "memoriax/a.md", "memoria/A.md", "memoria/.md"] {
        assert_eq!(l.path_to_concept(foreign), None, "{foreign}");
    }
    let root = Layout::new(String::new(), String::new(), String::new(), String::new(), "/");
    assert_eq!(root.doc_path(&id("a")), "a.md");
    assert_eq!(root.path_to_concept("a/b.md"), Some(id("a/b")));
}

#[test]
fn propietario_y_repositorio() {
    assert_eq!(split_repo("o/r").unwrap(), ("o".to_string(), "r".to_string()));
    assert_eq!(split_repo("o/r/x").unwrap(), ("o".to_string(), "r/x".to_string()));
    assert_eq!(
        backend(split_repo("solo").unwrap_err()),
        "GITHUB_REPO debe tener formato owner/repo, recibido: solo"
    );
}

#[test]
fn el_motivo_vive_en_una_linea() {
    let r = rev(1, "a", "x", "uno\ndos\r\ntres");
    let back = decode_rev(&encode_rev(&RevOp::Delete, &r, 4)).unwrap();
    assert_eq!(back.op, RevOp::Delete);
    assert_eq!(back.version, 4);
    assert_eq!(back.revision.reason, "uno dos  tres");
    assert_eq!(flatten("a\nb"), "a b");
    let message = commit_message(&RevOp::Commit, &r, 1);
    assert!(message.starts_with("uno dos  tres\n\nMemory-Rev: 1|commit|a|1|-|"));
    assert_eq!(read_trailers(&message).len(), 1);
}

#[test]
fn lineas_que_no_son_revisiones() {
    let good = encode_rev(&RevOp::Commit, &rev(1, "a", "x", "m"), 1);
    for (from, to) in [
        ("Memory-Rev: 1|", "Memory-Rev: x|"),
        ("|commit|", "|otra|"),
        ("|a|1|", "|A|1|"),
        ("|a|1|", "|a|uno|"),
        ("|-|", "|zz|"),
    ] {
        let bad = good.replacen(from, to, 1);
        assert_ne!(bad, good);
        assert!(decode_rev(&bad).is_none(), "{bad}");
    }
}

fn built() -> Snapshot {
    let a2 = "---\ntype: note\ntitle: A\ntags:\n  - x\n---\nver [[b]] y [[z]]\n";
    let m1 = commit_message(&RevOp::Commit, &rev(1, "a", "uno", "alta"), 1);
    let m2 = commit_message(&RevOp::Commit, &rev(2, "a", a2, "cambio"), 2);
    let m3 = commit_message(&RevOp::Commit, &rev(3, "b", "b", "alta"), 1);
    let m4 = commit_message(&RevOp::Delete, &rev(4, "b", "b", "baja"), 1);
    // Los mensajes llegan del más reciente al más antiguo.
    Draft::new()
        .add_file(id("a"), a2.to_string(), "sha-a".to_string())
        .add_file(id("roto"), "sin frontmatter".to_string(), "sha-r".to_string())
        .add_file(id("c"), "---\ntype: person\n---\nc\n".to_string(), "sha-c".to_string())
        .add_message(&m4)
        .add_message(&m3)
        .add_message("un mensaje de una persona\n")
        .add_message(&m2)
        .add_message(&m1)
        .finish("cabeza".to_string())
}

#[test]
fn el_estado_se_reconstruye() {
    let s = built();
    assert!(s.shows("cabeza"));
    assert_eq!(s.head_sha(), "cabeza");
    let a = s.get(&id("a")).unwrap();
    assert_eq!(a.version, 2);
    assert_eq!(a.title.as_deref(), Some("A"));
    assert_eq!(s.file_sha(&id("a")).as_deref(), Some("sha-a"));
    assert_eq!(s.get(&id("c")).unwrap().version, 1, "editado a mano, sin historia");
    assert!(s.get(&id("roto")).is_none());
    assert!(s.get(&id("b")).is_none());
    let h = s.history(&id("a"), 10, None).unwrap();
    assert_eq!(h.iter().map(|r| r.seq).collect::<Vec<u64>>(), vec![2, 1]);
    assert_eq!(s.history(&id("b"), 1, None).unwrap()[0].reason, "baja");
    assert!(matches!(s.history(&id("q"), 1, None), Err(StoreError::NotFound(_))));
    let health = s.link_health(&id("a")).unwrap();
    assert_eq!(health.deleted[0].target, id("b"));
    assert_eq!(health.broken[0].target, id("z"));
    assert!(s.link_health(&id("b")).is_err());
    let report = s.validate(None, &Budget::default());
    assert_eq!((report.broken_links_total, report.deleted_referenced_total), (1, 1));
    let stats = s.stats(&Budget::default());
    assert_eq!((stats.documents, stats.deleted_documents), (2, 1));
    assert_eq!(stats.orphans, vec![id("c")]);
    assert_eq!(stats.by_tag, vec![("x".to_string(), 1)]);
    let status = s.status();
    assert_eq!((status.documents, status.deleted_documents, status.broken_links), (2, 1, 1));
    assert_eq!(s.neighbors(&id("a")), vec![id("b"), id("z")]);
    assert!(s.neighbors(&id("q")).is_empty());
    assert_eq!(s.document_size(&id("c")), Some(23));
    assert_eq!(s.document_size(&id("q")), None);
    assert_eq!(s.backlinks(&id("b"))[0].source.concept_id, id("a"));
    let q = SearchQuery { doc_type: Some("person".to_string()), ..SearchQuery::default() };
    assert_eq!(s.search(&q, &Budget::default())[0].concept_id, id("c"));
}

#[test]
fn un_commit_se_decide_y_se_aplica() {
    let s = built();
    let me = Principal::local_dev();
    let budget = Budget::default();
    let text = "---\ntype: note\n---\nb de nuevo\n";
    let again = s.get(&id("a")).unwrap();
    match s.decide_commit(&request("a", None, &again.raw), &me, &budget).unwrap() {
        DecidedCommit::NoChange(o) => assert!(o.no_change && o.version == 2),
        DecidedCommit::Write(_) => panic!("es el mismo contenido"),
    }
    assert!(matches!(
        s.decide_commit(&request("a", None, text), &me, &budget),
        Err(StoreError::Conflict(_))
    ));
    assert!(matches!(
        s.decide_commit(&request("a", None, "sin frontmatter"), &me, &budget),
        Err(StoreError::Okf(_))
    ));
    match s.decide_commit(&request("b", None, text), &me, &budget).unwrap() {
        DecidedCommit::Write(w) => {
            assert!(w.created);
            assert_eq!((w.version, w.revision.seq), (2, 5), "la historia de b continúa");
            let after = s.apply_write(text, w, "sha-b".to_string()).at_head("otra".to_string());
            assert!(after.shows("otra"));
            assert_eq!(after.get(&id("b")).unwrap().raw, text);
            assert_eq!(after.get(&id("a")).unwrap().version, 2);
            assert_eq!(after.stats(&budget).deleted_documents, 0);
        }
        DecidedCommit::NoChange(_) => panic!("b no está"),
    }
}

#[test]
fn un_borrado_se_decide_y_se_aplica() {
    let s = built();
    let me = Principal::local_dev();
    let a = s.get(&id("a")).unwrap();
    assert!(matches!(
        s.decide_delete(&id("b"), a.content_id, &me, "x".to_string()),
        Err(StoreError::NotFound(_))
    ));
    let stale = ContentId(sha256(b"otra cosa"));
    match s.decide_delete(&id("a"), stale, &me, "x".to_string()) {
        Err(StoreError::Conflict(c)) => assert_eq!(c.current, Some(a.content_id)),
        other => panic!("se esperaba conflicto, hubo {other:?}"),
    }
    let d = s.decide_delete(&id("a"), a.content_id, &me, "fuera".to_string()).unwrap();
    assert_eq!((d.version, d.revision.seq), (2, 5));
    let after = s.apply_delete(&d);
    assert!(after.get(&id("a")).is_none());
    assert_eq!(after.history(&id("a"), 1, None).unwrap()[0].reason, "fuera");
}

#[test]
fn lote_atomico_planeado() {
    let s = built();
    let me = Principal::local_dev();
    let budget = Budget::default();
    let text = "---\ntype: note\n---\nd\n";
    let (out, files) = plan_batch(&s, &layout(), &vec![request("d", None, text), request("e", None, text)], &me, &budget);
    assert!(out.applied);
    assert_eq!(files.len(), 2);
    assert_eq!(files[0].path, "memoria/d.md");
    assert_eq!(decode_rev(&files[1].trailer).unwrap().revision.seq, 6, "cada uno ve al anterior");
    let (out, files) = plan_batch(
        &s,
        &layout(),
        &vec![request("d", None, text), request("a", None, text), request("e", None, text)],
        &me,
        &budget,
    );
    assert!(!out.applied && files.is_empty());
    assert!(matches!(out.items[0], BulkItem::Skipped));
    assert!(matches!(out.items[1], BulkItem::Failed(StoreError::Conflict(_))));
    assert!(matches!(out.items[2], BulkItem::Skipped));
}

#[test]
fn mensaje_de_un_lote() {
    let file = |t: &str| PendingFile { path: String::new(), content: String::new(), trailer: t.to_string() };
    assert_eq!(batch_message(&vec![file("uno"), file("dos")]), "lote atómico (2 cambios)\n\nuno\ndos");
}

//! The store in memory.

use okf_memory::graph::bounded_bfs;
use okf_memory::memory::InMemoryStore;
use okf_memory::model::{Budget, ConceptId, ContentId, Principal};
use okf_memory::repo::MemoryRepository;
use okf_memory::store::{CommitOutcome, CommitRequest, SearchQuery, StoreError};

fn id(s: &str) -> ConceptId {
    ConceptId::parse(s).unwrap()
}

fn doc(title: &str, body: &str) -> String {
    format!("---\ntype: note\ntitle: {title}\n---\n{body}\n")
}

fn commit(
    store: &mut InMemoryStore,
    concept: &str,
    expected: Option<ContentId>,
    markdown: &str,
) -> Result<CommitOutcome, StoreError> {
    store.commit(
        CommitRequest {
            concept_id: id(concept),
            expected,
            markdown: markdown.to_string(),
            reason: "test".to_string(),
        },
        &Principal::local_dev(),
        &Budget::default(),
    )
}

#[test]
fn crear_leer_actualizar() {
    let mut s = InMemoryStore::new();
    let v1 = commit(&mut s, "notas/rust", None, &doc("Rust", "hola")).unwrap();
    assert!(v1.created);
    assert_eq!(v1.version, 1);

    let view = s.get(&id("notas/rust")).unwrap().unwrap();
    assert_eq!(view.title.as_deref(), Some("Rust"));
    assert_eq!(view.content_id, v1.content_id);

    let v2 = commit(&mut s, "notas/rust", Some(v1.content_id), &doc("Rust", "adiós")).unwrap();
    assert_eq!(v2.version, 2);
    assert!(!v2.created);
}

#[test]
fn una_base_obsoleta_nunca_pisa_una_escritura_mas_nueva() {
    let mut s = InMemoryStore::new();
    let v1 = commit(&mut s, "n", None, &doc("t", "v1")).unwrap();
    let v2 = commit(&mut s, "n", Some(v1.content_id), &doc("t", "v2")).unwrap();

    // Otro agente que leyó v1 intenta escribir sin ver v2.
    let err = commit(&mut s, "n", Some(v1.content_id), &doc("t", "pisotón")).unwrap_err();
    match err {
        StoreError::Conflict(c) => {
            assert_eq!(c.expected, Some(v1.content_id));
            assert_eq!(c.current, Some(v2.content_id));
        }
        other => panic!("se esperaba conflicto, hubo {other:?}"),
    }
    // El contenido de v2 sigue intacto.
    let view = s.get(&id("n")).unwrap().unwrap();
    assert_eq!(view.content_id, v2.content_id);
}

#[test]
fn commit_idempotente() {
    let mut s = InMemoryStore::new();
    let texto = doc("t", "igual");
    let v1 = commit(&mut s, "n", None, &texto).unwrap();
    let v2 = commit(&mut s, "n", Some(v1.content_id), &texto).unwrap();
    assert!(v2.no_change);
    assert_eq!(v2.version, 1);
    assert_eq!(s.history(&id("n"), 10, None).unwrap().len(), 1);
}

#[test]
fn documento_invalido_no_toca_el_almacen() {
    let mut s = InMemoryStore::new();
    let err = commit(&mut s, "n", None, "sin frontmatter").unwrap_err();
    assert!(matches!(err, StoreError::Okf(_)));
    assert!(s.get(&id("n")).unwrap().is_none());
}

#[test]
fn busqueda_con_filtros() {
    let mut s = InMemoryStore::new();
    commit(&mut s, "people/alice", None,
        "---\ntype: person\ntitle: Alice\ntags:\n  - rust\n---\nIngeniera\n").unwrap();
    commit(&mut s, "people/bob", None,
        "---\ntype: person\ntitle: Bob\n---\nDiseñador\n").unwrap();
    commit(&mut s, "notas/rust", None, &doc("Apuntes Rust", "lenguaje")).unwrap();

    let budget = Budget::default();
    let q = |text: Option<&str>, doc_type: Option<&str>, tag: Option<&str>| SearchQuery {
        text: text.map(String::from),
        doc_type: doc_type.map(String::from),
        exclude_type: None,
        tag: tag.map(String::from),
        path_prefix: None,
        limit: None,
    };

    assert_eq!(s.search(&q(Some("rust"), None, None), &budget).unwrap().len(), 2);
    assert_eq!(s.search(&q(Some("rust"), Some("person"), None), &budget).unwrap().len(), 1);
    assert_eq!(s.search(&q(None, None, Some("rust")), &budget).unwrap().len(), 1);
    assert_eq!(s.search(&q(Some("ingeniera"), None, None), &budget).unwrap().len(), 1);
    assert_eq!(s.search(&q(Some("nada-de-esto"), None, None), &budget).unwrap().len(), 0);
}

#[test]
fn historia_paginada() {
    let mut s = InMemoryStore::new();
    let mut last = None;
    for i in 0..5 {
        let out = commit(&mut s, "n", last, &doc("t", &format!("v{i}"))).unwrap();
        last = Some(out.content_id);
    }
    let page1 = s.history(&id("n"), 2, None).unwrap();
    assert_eq!(page1.len(), 2);
    assert_eq!(page1[0].seq, 5);
    let page2 = s.history(&id("n"), 2, Some(page1[1].seq)).unwrap();
    assert_eq!(page2[0].seq, 3);
    assert!(matches!(
        s.history(&id("no-existe"), 2, None),
        Err(StoreError::NotFound(_))
    ));
}

#[test]
fn los_enlaces_alimentan_el_grafo() {
    let mut s = InMemoryStore::new();
    commit(&mut s, "a", None, "---\ntype: nota\n---\nver [[b]] y [[c]]\n").unwrap();
    commit(&mut s, "b", None, "---\ntype: nota\n---\nver [[c]]\n").unwrap();
    commit(&mut s, "c", None, "---\ntype: nota\n---\nfin\n").unwrap();

    let t = bounded_bfs(&s, &id("a"), &Budget::default()).unwrap();
    let ids: Vec<&str> = t.visited.iter().map(|v| v.id.as_str()).collect();
    assert_eq!(ids, vec!["a", "b", "c"]);
}

#[test]
fn blobs_deduplicados() {
    let mut s = InMemoryStore::new();
    let texto = doc("t", "compartido");
    commit(&mut s, "uno", None, &texto).unwrap();
    commit(&mut s, "dos", None, &texto).unwrap();
    assert_eq!(s.blob_count(), 1);
    assert_eq!(s.head_count(), 2);
}

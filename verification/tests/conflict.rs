//! Compare-and-swap decisions.

use okf_memory::conflict::{decide, CommitDecision, Conflict};
use okf_memory::model::ContentId;

fn h(byte: u8) -> ContentId {
    ContentId([byte; 32])
}

#[test]
fn creacion_limpia() {
    assert_eq!(decide(None, None, h(1)), CommitDecision::Create);
}

#[test]
fn actualizacion_limpia() {
    assert_eq!(decide(Some(h(1)), Some(h(1)), h(2)), CommitDecision::Update);
}

#[test]
fn escritura_identica_es_nochange() {
    assert_eq!(decide(Some(h(1)), Some(h(1)), h(1)), CommitDecision::NoChange);
}

#[test]
fn base_obsoleta_es_conflicto() {
    let d = decide(Some(h(3)), Some(h(1)), h(2));
    assert_eq!(
        d,
        CommitDecision::Conflict(Conflict {
            expected: Some(h(1)),
            current: Some(h(3)),
            incoming: h(2),
        })
    );
}

#[test]
fn creacion_concurrente_es_conflicto() {
    assert!(matches!(decide(Some(h(1)), None, h(2)), CommitDecision::Conflict(_)));
    // …salvo que ambas creaciones escriban lo mismo.
    assert_eq!(decide(Some(h(1)), None, h(1)), CommitDecision::NoChange);
}

#[test]
fn borrado_concurrente_es_conflicto() {
    assert!(matches!(decide(None, Some(h(1)), h(2)), CommitDecision::Conflict(_)));
}

#[test]
fn convergencia_es_nochange() {
    // Otro cliente ya escribió exactamente nuestro contenido.
    assert_eq!(decide(Some(h(2)), Some(h(1)), h(2)), CommitDecision::NoChange);
}

//! Ids and hashes.

use okf_memory::model::{ConceptId, ConceptIdError, ContentId};

#[test]
fn concept_id_acepta_rutas_validas() {
    for ok in ["a", "people/alice", "a/b/c", "notas-2026/rust_std", "0/1"] {
        assert!(ConceptId::parse(ok).is_ok(), "debería aceptar {ok:?}");
    }
}

#[test]
fn concept_id_rechaza_traversal_y_bytes_raros() {
    assert_eq!(ConceptId::parse(""), Err(ConceptIdError::Empty));
    assert!(matches!(ConceptId::parse("../etc"), Err(ConceptIdError::InvalidByte { .. })));
    assert!(matches!(
        ConceptId::parse("a/../b"),
        Err(ConceptIdError::InvalidByte { .. }) // el '.' ya no está en la lista blanca
    ));
    assert_eq!(ConceptId::parse("/abs"), Err(ConceptIdError::LeadingOrTrailingSlash));
    assert_eq!(ConceptId::parse("fin/"), Err(ConceptIdError::LeadingOrTrailingSlash));
    assert!(matches!(ConceptId::parse("a//b"), Err(ConceptIdError::InvalidSegment { .. })));
    assert!(matches!(ConceptId::parse("A"), Err(ConceptIdError::InvalidByte { .. })));
    assert!(matches!(ConceptId::parse("a\\b"), Err(ConceptIdError::InvalidByte { .. })));
    assert!(matches!(ConceptId::parse("a\0b"), Err(ConceptIdError::InvalidByte { .. })));
    assert!(matches!(ConceptId::parse("a%2e%2e"), Err(ConceptIdError::InvalidByte { .. })));
    let largo = "a/".repeat(200) + "a";
    assert!(matches!(ConceptId::parse(&largo), Err(ConceptIdError::TooLong { .. })));
}

#[test]
fn content_id_hex_ida_y_vuelta() {
    let id = ContentId([0xab; 32]);
    let hex = id.to_hex();
    assert_eq!(hex.len(), 64);
    assert_eq!(ContentId::from_hex(&hex), Some(id));
    assert_eq!(ContentId::from_hex("corto"), None);
    assert_eq!(ContentId::from_hex(&"zz".repeat(32)), None);
}

//! Revisions on lines of commit messages.

use okf_memory::model::{ConceptId, ContentId, Principal, Revision};
use okf_memory::sha256::sha256;
use okf_memory::trailer::{decode_rev, encode_rev, RevOp};

#[test]
fn el_trailer_sobrevive_ida_y_vuelta() {
    let rev = Revision {
        seq: 7,
        concept_id: ConceptId::parse("people/alice").unwrap(),
        base: Some(ContentId(sha256(b"antes"))),
        result: ContentId(sha256(b"despues")),
        actor: Principal::local_dev(),
        reason: "motivo con | barras y espacios".to_string(),
    };
    let line = encode_rev(&RevOp::Commit, &rev, 3);
    let back = decode_rev(&line).expect("decodifica");
    assert_eq!(back.op, RevOp::Commit);
    assert_eq!(back.version, 3);
    assert_eq!(back.revision, rev);
}

#[test]
fn lineas_ajenas_no_confunden_al_decodificador() {
    assert!(decode_rev("un mensaje de commit humano").is_none());
    assert!(decode_rev("Memory-Rev: rota").is_none());
}

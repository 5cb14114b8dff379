//! Digests of sessions.

use okf_memory::consolidate::{render_digest, ConsolidateError, DigestDecision, DigestEntity, SessionDigest};
use okf_memory::model::{Budget, ConceptId};
use okf_memory::okf::parse_document;

fn digest(title: &str, summary: &str) -> SessionDigest {
    SessionDigest {
        title: title.to_string(),
        summary: summary.to_string(),
        entities: Vec::new(),
        decisions: Vec::new(),
    }
}

#[test]
fn renders_minimal_digest_as_valid_okf() {
    let d = digest("Sesión mínima", "No pasó nada memorable.");
    let markdown = render_digest(&d, &Budget::default()).unwrap();
    let parsed = parse_document(&markdown, &Budget::default()).unwrap();
    assert_eq!(parsed.doc_type, "session-summary");
    assert_eq!(parsed.title.as_deref(), Some("Sesión mínima"));
}

#[test]
fn empty_title_is_rejected() {
    let d = digest("   ", "algo pasó");
    assert_eq!(render_digest(&d, &Budget::default()), Err(ConsolidateError::EmptyTitle));
}

#[test]
fn empty_summary_is_rejected() {
    let d = digest("título", "  ");
    assert_eq!(render_digest(&d, &Budget::default()), Err(ConsolidateError::EmptySummary));
}

#[test]
fn title_with_yaml_breaking_chars_is_sanitized_not_rejected() {
    let d = digest("Título \"con\" comillas # y salto\nde línea", "resumen");
    let markdown = render_digest(&d, &Budget::default()).unwrap();
    let parsed = parse_document(&markdown, &Budget::default()).unwrap();
    assert_eq!(parsed.title.as_deref(), Some("Título con comillas  y salto de línea"));
}

#[test]
fn decisions_and_entities_render_as_links() {
    let entity_id = ConceptId::parse("projects/okf-mcp").unwrap();
    let decision_id = ConceptId::parse("people/alice").unwrap();
    let d = SessionDigest {
        title: "Sesión con enlaces".to_string(),
        summary: "resumen".to_string(),
        entities: vec![DigestEntity { concept_id: entity_id.clone(), relation: Some("se revisó".to_string()) }],
        decisions: vec![DigestDecision { text: "avisar a alice".to_string(), concept_id: Some(decision_id.clone()) }],
    };
    let markdown = render_digest(&d, &Budget::default()).unwrap();
    assert!(markdown.contains("[[projects/okf-mcp]] (se revisó)"));
    assert!(markdown.contains("avisar a alice → [[people/alice]]"));
    let parsed = parse_document(&markdown, &Budget::default()).unwrap();
    let linked: Vec<&str> = parsed.links.iter().map(|l| l.target.as_str()).collect();
    assert!(linked.contains(&entity_id.as_str()));
    assert!(linked.contains(&decision_id.as_str()));
}

#[test]
fn oversized_summary_is_rejected_via_okf_budget() {
    let budget = Budget { max_document_bytes: 64, ..Budget::default() };
    let d = digest("t", &"x".repeat(200));
    assert!(matches!(render_digest(&d, &budget), Err(ConsolidateError::Okf(_))));
}

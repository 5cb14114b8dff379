//! Providers of vectors.

use okf_memory::embeddings::{begin, ChainStep, EmbedError, EmbeddingKeys, Provider};

#[test]
fn sin_proveedores_falla_claro() {
    let keys = EmbeddingKeys::default();
    assert!(!keys.any_configured());
}

#[test]
fn con_una_clave_se_considera_configurado() {
    let keys = EmbeddingKeys { gemini: Some("x".into()), ..Default::default() };
    assert!(keys.any_configured());
}

#[test]
fn las_claves_vacias_no_cuentan() {
    let keys = EmbeddingKeys::from_settings(Some(String::new()), None, Some("c".into()));
    assert!(keys.any_configured());
    assert_eq!(keys.key(Provider::Gemini), None);
    assert_eq!(keys.key(Provider::Cohere), Some("c"));
}

#[test]
fn cada_proveedor_tiene_su_turno() {
    let keys = EmbeddingKeys::from_settings(Some("g".into()), None, Some("c".into()));
    let chain = match begin(&keys) {
        ChainStep::Ask(c) => c,
        ChainStep::GiveUp(e) => panic!("{e:?}"),
    };
    assert_eq!(chain.asked, Provider::Gemini);
    assert_eq!(chain.asked.model_id(), "gemini:gemini-embedding-001@768");
    let chain = match chain.failed(&keys, "gemini: 429".to_string()) {
        ChainStep::Ask(c) => c,
        ChainStep::GiveUp(e) => panic!("{e:?}"),
    };
    assert_eq!(chain.asked, Provider::Cohere);
    assert_eq!((chain.asked.name(), chain.asked.model_id()), ("cohere", "cohere:embed-english-v3.0@1024"));
    match chain.failed(&keys, "cohere: 500".to_string()) {
        ChainStep::GiveUp(e) => assert_eq!(
            e.message(),
            "todos los proveedores de embeddings fallaron: gemini: 429 | cohere: 500"
        ),
        ChainStep::Ask(c) => panic!("{c:?}"),
    }
}

#[test]
fn sin_claves_no_se_pregunta_a_nadie() {
    match begin(&EmbeddingKeys::default()) {
        ChainStep::GiveUp(EmbedError::NoProvider) => {}
        other => panic!("{other:?}"),
    }
    let http = EmbedError::Http { provider: "gemini", source: "x".to_string() };
    assert_eq!(http.message(), "gemini: fallo de red o deserialización: x");
    let api = EmbedError::Api { provider: "cohere", body: "no".to_string() };
    assert_eq!(api.message(), "cohere: la API devolvió un error: no");
}

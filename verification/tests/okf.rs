//! Documents and patches.

use okf_memory::model::Budget;
use okf_memory::okf::{parse_document, FmValue, OkfError};
use okf_memory::patch::{patch_frontmatter, FrontmatterPatch};

const DOC: &str = "---\ntype: person\ntitle: Alice García\ntags:\n  - engineering\n  - rust\nrole: staff # comentario\n---\n\nAlice trabaja con [[projects/okf-mcp]] junto a [[people/bob]].\n\n```\n[[esto/no-cuenta]]\n```\n\nY otra vez [[people/bob]].\n";

#[test]
fn parsea_documento_completo() {
    let doc = parse_document(DOC, &Budget::default()).unwrap();
    assert_eq!(doc.doc_type, "person");
    assert_eq!(doc.title.as_deref(), Some("Alice García"));
    assert_eq!(doc.tags, vec!["engineering", "rust"]);
    assert_eq!(
        doc.extra.get("role"),
        Some(&FmValue::Scalar("staff".to_string()))
    );
    // Enlaces: deduplicados, sin los del bloque de código.
    let links: Vec<&str> = doc.links.iter().map(|l| l.target.as_str()).collect();
    assert_eq!(links, vec!["projects/okf-mcp", "people/bob"]);
    // El cuerpo empieza justo tras el segundo '---\n'.
    assert!(DOC[doc.body_offset..].starts_with("\nAlice"));
}

#[test]
fn exige_type() {
    let raw = "---\ntitle: Sin tipo\n---\ncuerpo\n";
    assert_eq!(parse_document(raw, &Budget::default()), Err(OkfError::MissingType));
}

#[test]
fn exige_frontmatter() {
    assert_eq!(
        parse_document("solo cuerpo", &Budget::default()),
        Err(OkfError::MissingFrontmatter)
    );
    assert_eq!(
        parse_document("---\ntype: a\nsin cierre", &Budget::default()),
        Err(OkfError::UnterminatedFrontmatter)
    );
}

#[test]
fn rechaza_yaml_fuera_del_subconjunto() {
    for raw in [
        "---\ntype: a\nnested:\n  key: valor\n---\n",   // anidamiento
        "---\ntype: a\ntexto: |\n  bloque\n---\n",       // bloque literal
        "---\ntype: a\ntype: b\n---\n",                  // clave duplicada
        "---\ntype: a\n- suelto\n---\n",                 // lista sin clave
    ] {
        assert!(parse_document(raw, &Budget::default()).is_err(), "aceptó: {raw:?}");
    }
}

#[test]
fn rechaza_enlaces_invalidos() {
    let raw = "---\ntype: nota\n---\nver [[../etc/passwd]]\n";
    assert!(matches!(
        parse_document(raw, &Budget::default()),
        Err(OkfError::InvalidLink { .. })
    ));
}

#[test]
fn respeta_presupuesto_de_enlaces() {
    let mut budget = Budget::default();
    budget.max_links_per_document = 2;
    let raw = "---\ntype: nota\n---\n[[a]] [[b]] [[c]]\n";
    assert_eq!(
        parse_document(raw, &budget),
        Err(OkfError::TooManyLinks { max: 2 })
    );
}

#[test]
fn respeta_presupuesto_de_tamano() {
    let mut budget = Budget::default();
    budget.max_document_bytes = 10;
    assert!(matches!(
        parse_document("---\ntype: a\n---\ncuerpo", &budget),
        Err(OkfError::DocumentTooLarge { .. })
    ));
}

#[test]
fn tres_guiones_dentro_de_valor_no_cierran() {
    let raw = "---\ntype: nota\ntitle: uso de --- en medio\n---\ncuerpo\n";
    let doc = parse_document(raw, &Budget::default()).unwrap();
    assert_eq!(doc.title.as_deref(), Some("uso de --- en medio"));
}

#[test]
fn enlaces_tipados_y_genericos_conviven() {
    let raw = "---\ntype: nota\n---\nver [[depends_on:libs/sqlx]] y [[people/bob]]\n";
    let doc = parse_document(raw, &Budget::default()).unwrap();
    assert_eq!(doc.links.len(), 2);
    assert_eq!(doc.links[0].target.as_str(), "libs/sqlx");
    assert_eq!(doc.links[0].rel.as_deref(), Some("depends_on"));
    assert_eq!(doc.links[1].target.as_str(), "people/bob");
    assert_eq!(doc.links[1].rel, None);
}

#[test]
fn la_primera_aparicion_de_un_destino_gana() {
    let raw = "---\ntype: nota\n---\n[[uses:a]] y luego [[a]] otra vez\n";
    let doc = parse_document(raw, &Budget::default()).unwrap();
    assert_eq!(doc.links.len(), 1);
    assert_eq!(doc.links[0].rel.as_deref(), Some("uses"));
}

#[test]
fn relaciones_invalidas_se_rechazan() {
    for raw in [
        "---\ntype: nota\n---\n[[:a]]\n",              // rel vacía
        "---\ntype: nota\n---\n[[Mayus:a]]\n",         // mayúsculas
        "---\ntype: nota\n---\n[[re/l:a]]\n",          // '/' en la rel
        "---\ntype: nota\n---\n[[uses:../etc]]\n",     // destino inválido
    ] {
        assert!(
            matches!(parse_document(raw, &Budget::default()), Err(OkfError::InvalidLink { .. })),
            "aceptó: {raw:?}"
        );
    }
}

#[test]
fn patch_reemplaza_solo_las_lineas_tocadas() {
    let raw = "---\ntype: note\n# comentario que sobrevive\ntitle: Vieja\nstatus: draft\n---\ncuerpo\n";
    let patch = FrontmatterPatch {
        set: vec![("title".to_string(), FmValue::Scalar("Nueva".to_string()))],
        ..FrontmatterPatch::default()
    };
    let out = patch_frontmatter(raw, &patch, &Budget::default()).unwrap();
    assert_eq!(
        out,
        "---\ntype: note\n# comentario que sobrevive\ntitle: Nueva\nstatus: draft\n---\ncuerpo\n"
    );
}

#[test]
fn patch_de_tags_anade_y_quita() {
    let raw = "---\ntype: note\ntags:\n  - draft\n  - rust\n---\ncuerpo\n";
    let patch = FrontmatterPatch {
        add_tags: vec!["ready".to_string(), "rust".to_string()], // rust ya está
        remove_tags: vec!["draft".to_string()],
        ..FrontmatterPatch::default()
    };
    let out = patch_frontmatter(raw, &patch, &Budget::default()).unwrap();
    assert_eq!(out, "---\ntype: note\ntags:\n  - rust\n  - ready\n---\ncuerpo\n");
}

#[test]
fn patch_crea_campos_nuevos_y_elimina_existentes() {
    let raw = "---\ntype: note\nstatus: draft\n---\ncuerpo\n";
    let patch = FrontmatterPatch {
        set: vec![("owner".to_string(), FmValue::Scalar("pelayo".to_string()))],
        remove: vec!["status".to_string()],
        add_tags: vec!["nuevo".to_string()],
        ..FrontmatterPatch::default()
    };
    let out = patch_frontmatter(raw, &patch, &Budget::default()).unwrap();
    assert_eq!(out, "---\ntype: note\nowner: pelayo\ntags:\n  - nuevo\n---\ncuerpo\n");
}

#[test]
fn patch_no_puede_eliminar_type_ni_dejar_documento_invalido() {
    let raw = "---\ntype: note\n---\ncuerpo\n";
    let patch = FrontmatterPatch {
        remove: vec!["type".to_string()],
        ..FrontmatterPatch::default()
    };
    assert!(patch_frontmatter(raw, &patch, &Budget::default()).is_err());

    // Un valor irrepresentable en el subconjunto también se rechaza.
    let patch = FrontmatterPatch {
        set: vec![("title".to_string(), FmValue::Scalar("con \"comillas\"".to_string()))],
        ..FrontmatterPatch::default()
    };
    assert!(patch_frontmatter(raw, &patch, &Budget::default()).is_err());
}

#[test]
fn patch_de_valores_que_necesitan_comillas() {
    let raw = "---\ntype: note\n---\ncuerpo\n";
    let patch = FrontmatterPatch {
        set: vec![("title".to_string(), FmValue::Scalar("nota # con almohadilla".to_string()))],
        ..FrontmatterPatch::default()
    };
    let out = patch_frontmatter(raw, &patch, &Budget::default()).unwrap();
    assert_eq!(out, "---\ntype: note\ntitle: \"nota # con almohadilla\"\n---\ncuerpo\n");
    let doc = parse_document(&out, &Budget::default()).unwrap();
    assert_eq!(doc.title.as_deref(), Some("nota # con almohadilla"));
}

#[test]
fn quitar_todas_las_tags_elimina_el_bloque() {
    let raw = "---\ntype: note\ntags:\n  - solo\n---\ncuerpo\n";
    let patch = FrontmatterPatch {
        remove_tags: vec!["solo".to_string()],
        ..FrontmatterPatch::default()
    };
    let out = patch_frontmatter(raw, &patch, &Budget::default()).unwrap();
    assert_eq!(out, "---\ntype: note\n---\ncuerpo\n");
}

//! Documents that are not valid, and exact texts.

use okf_memory::consolidate::{render_digest, ConsolidateError, SessionDigest};
use okf_memory::ingest::{IngestError, SkillFormat};
use okf_memory::model::Budget;
use okf_memory::names::{file_stem, sanitize_scalar, sanitize_title, slug_path, slugify};
use okf_memory::okf::{parse_document, parse_frontmatter, scan_links, FmValue, OkfError};
use okf_memory::patch::{patch_frontmatter, serialize_field, FrontmatterPatch};
use okf_memory::plan::plan_ingest;
use okf_memory::source::{choose_files, relative_path, first_text, shorten, whole_text, TreeFile};

#[test]
fn cada_error_de_un_documento() {
    let small = Budget { max_frontmatter_bytes: 8, ..Budget::default() };
    let say = |raw: &str, b: &Budget| parse_document(raw, b).unwrap_err();
    let d = Budget::default();
    assert!(matches!(say("---\ntype: aaaaaaaaaaaa\n---\n", &small), OkfError::FrontmatterTooLarge { .. }));
    assert_eq!(
        say("---\ntype: a\ntype: b\n---\n", &d),
        OkfError::DuplicateKey { line: 3, key: "type".to_string() }
    );
    assert_eq!(
        say("---\ntype: a\ntype: b\n---\n", &d).message(),
        "línea 3: clave duplicada \"type\""
    );
    assert_eq!(
        say("---\ntype: n\n---\nñ [[A]]\n", &d),
        OkfError::InvalidLink { offset: 19, target: "A".to_string() }
    );
    for (raw, words) in [
        ("---\ntype: \"a\n---\n", "línea 2: comillas sin cerrar"),
        ("---\ntype: \"a\\n\"\n---\n", "línea 2: escapes dentro de comillas no soportados"),
        ("---\n- x\n---\n", "línea 2: elemento de lista sin clave previa"),
        ("---\ntype: a\n  k: v\n---\n", "línea 3: anidamiento no soportado por el subconjunto"),
        ("---\nnada\n---\n", "línea 2: se esperaba 'clave: valor'"),
        ("---\nmal clave: a\n---\n", "línea 2: clave inválida \"mal clave\""),
    ] {
        assert_eq!(say(raw, &d).message(), words);
    }
    assert_eq!(say("---\ntype:\n  - a\n---\n", &d).message(), "línea 2: 'type' debe ser un escalar");
    assert_eq!(
        say("---\ntype: a\ntags: x\n---\n", &d),
        OkfError::Unsupported { line: 3, reason: "'tags' debe ser una lista".to_string() }
    );
}

#[test]
fn enlaces_del_cuerpo() {
    let links = scan_links("`[[no]]` [[a]] [[r:b]] [[a]]\n```\n[[tampoco]]\n```\n[[c]]", 0, &Budget::default()).unwrap();
    let brief: Vec<(&str, Option<&str>)> =
        links.iter().map(|l| (l.target.as_str(), l.rel.as_deref())).collect();
    assert!(brief.contains(&("a", None)) && brief.contains(&("b", Some("r"))) && brief.contains(&("c", None)));
    assert!(!brief.iter().any(|(t, _)| *t == "tampoco"));
}

#[test]
fn un_campo_escrito_se_lee_igual() {
    let raw = "---\ntype: note\n---\ncuerpo\n";
    for value in ["simple", " con bordes ", "# almohadilla", "a: b", "- guion", "", "ñ"] {
        let patch = FrontmatterPatch {
            set: vec![("k".to_string(), FmValue::Scalar(value.to_string()))],
            ..FrontmatterPatch::default()
        };
        let out = patch_frontmatter(raw, &patch, &Budget::default()).unwrap();
        assert!(out.ends_with("---\ncuerpo\n"));
        let doc = parse_document(&out, &Budget::default()).unwrap();
        assert_eq!(doc.extra.get("k"), Some(&FmValue::Scalar(value.to_string())), "{out}");
    }
}

#[test]
fn nombres_con_texto_exacto() {
    assert_eq!(slugify("  Hola, Mundo! "), "hola-mundo");
    assert_eq!(slugify("¡¿?!"), "item");
    assert_eq!(slug_path("Docs/Mi Guía.md"), "docs/mi-gu-a");
    assert_eq!(file_stem("a/b/Guia.md"), "Guia");
    assert_eq!(sanitize_scalar("  [raro] \"x\" #y\nz  "), "raro] x y z");
}

#[test]
fn mensajes_de_consolidacion_e_ingesta() {
    let d = SessionDigest {
        title: String::new(),
        summary: String::new(),
        entities: Vec::new(),
        decisions: Vec::new(),
    };
    let e = render_digest(&d, &Budget::default()).unwrap_err();
    assert_eq!(e, ConsolidateError::EmptyTitle);
    assert_eq!(e.message(), "el título está vacío");
    let none = plan_ingest("x", &[], SkillFormat::Auto, "p", &Budget::default(), None).unwrap_err();
    assert_eq!(none, IngestError::EmptySource);
    assert_eq!(SkillFormat::parse("magic"), None);
    assert_eq!(SkillFormat::parse("okf"), Some(SkillFormat::Okf));
}

fn entry(path: &str, kind: &str, size: Option<u64>) -> TreeFile {
    TreeFile { path: path.to_string(), kind: kind.to_string(), size }
}

#[test]
fn los_archivos_que_se_toman() {
    let tree = vec![
        entry("s/z.rs", "blob", None),
        entry("s/a.md", "blob", Some(10)),
        entry("s/x/SKILL.md", "blob", Some(10)),
        entry("s/enorme.md", "blob", Some(1000)),
        entry("s/dir.md", "tree", None),
        entry("s/foto.png", "blob", None),
        entry("otra/b.md", "blob", None),
        entry("s/M.MD", "blob", None),
    ];
    assert_eq!(choose_files(&tree, "s", 100, 10), vec!["s/x/SKILL.md", "s/a.md", "s/M.MD", "s/z.rs"]);
    assert_eq!(choose_files(&tree, "s", 100, 1), vec!["s/x/SKILL.md"]);
    assert_eq!(choose_files(&tree, "", 100, 2), vec!["s/x/SKILL.md", "otra/b.md"]);
    assert_eq!(relative_path("s", "s/x/SKILL.md"), "x/SKILL.md");
    assert_eq!(relative_path("", "s/x"), "s/x");
}

#[test]
fn textos_de_los_proveedores() {
    let parts = vec![Some("a".to_string()), None, Some("b".to_string())];
    assert_eq!(whole_text(&parts).unwrap(), "ab");
    assert_eq!(
        whole_text(&vec![None]).unwrap_err(),
        IngestError::Synthesis("gemini: la respuesta de generateContent no trae texto".to_string())
    );
    assert_eq!(first_text("groq", &vec![None, Some("x".to_string())]).unwrap(), "x");
    assert_eq!(
        first_text("groq", &vec![Some(String::new()), Some("x".to_string())]).unwrap_err(),
        IngestError::Synthesis("groq: la respuesta no trae texto".to_string())
    );
    assert_eq!(shorten("mañana", 3), "mañ");
    assert_eq!(shorten("a", 3), "a");
}

#[test]
fn un_parche_vacio_devuelve_el_documento() {
    let none = FrontmatterPatch::default();
    for raw in [
        "---\r\ntype: note\r\n---\r\ncuerpo\r\n",
        "---\ntype: note\n# aviso\n\ntags:\n  - a\n---",
        "---\ntype: note\r\n---\ncuerpo",
    ] {
        assert_eq!(patch_frontmatter(raw, &none, &Budget::default()).unwrap(), raw);
    }
}

#[test]
fn las_lineas_ajenas_conservan_su_final() {
    let raw = "---\r\ntype: note\r\ntitle: A\r\n# aviso\r\n---\r\ncuerpo\r\n";
    let patch = FrontmatterPatch {
        set: vec![("title".to_string(), FmValue::Scalar("B".to_string()))],
        add_tags: vec!["x".to_string()],
        ..FrontmatterPatch::default()
    };
    let out = patch_frontmatter(raw, &patch, &Budget::default()).unwrap();
    assert_eq!(out, "---\r\ntype: note\r\ntitle: B\n# aviso\r\ntags:\n  - x\n---\r\ncuerpo\r\n");
    let again = patch_frontmatter(&out, &patch, &Budget::default()).unwrap();
    assert_eq!(again, out, "aplicarlo otra vez no cambia nada");
    let doc = parse_document(&out, &Budget::default()).unwrap();
    assert_eq!(doc.tags, vec!["x"]);
    assert_eq!(doc.title.as_deref(), Some("B"));
}

#[test]
fn una_etiqueta_que_se_quita_y_se_pone_pasa_al_final() {
    let raw = "---\ntype: note\ntags:\n  - a\n---\n";
    let patch = FrontmatterPatch {
        add_tags: vec!["x".to_string(), "b".to_string()],
        remove_tags: vec!["x".to_string()],
        ..FrontmatterPatch::default()
    };
    let once = patch_frontmatter(raw, &patch, &Budget::default()).unwrap();
    assert_eq!(once, "---\ntype: note\ntags:\n  - a\n  - x\n  - b\n---\n");
    let twice = patch_frontmatter(&once, &patch, &Budget::default()).unwrap();
    assert_eq!(twice, "---\ntype: note\ntags:\n  - a\n  - b\n  - x\n---\n");
}

#[test]
fn un_parche_imposible_dice_la_linea() {
    let raw = "---\ntype: note\ntitle: A\n---\ncuerpo\n";
    let say = |p: FrontmatterPatch| patch_frontmatter(raw, &p, &Budget::default()).unwrap_err();
    let set = |k: &str, v: &str| FrontmatterPatch {
        set: vec![(k.to_string(), FmValue::Scalar(v.to_string()))],
        ..FrontmatterPatch::default()
    };
    assert_eq!(
        say(FrontmatterPatch { remove: vec!["type".to_string()], ..FrontmatterPatch::default() }).message(),
        "línea 2: 'type' es obligatorio: no se puede eliminar"
    );
    assert_eq!(
        say(set("title", "a\"b")).message(),
        "línea 3: el subconjunto YAML no puede representar el valor \"a\\\"b\""
    );
    assert_eq!(say(set("mala clave", "x")).message(), "línea 4: clave inválida \"mala clave\"");
    assert_eq!(say(set("tags", "x")).message(), "línea 4: 'tags' debe ser una lista");
}

#[test]
fn un_titulo_con_marcas_se_limpia() {
    let digest = SessionDigest {
        title: "# [WIP] x".to_string(),
        summary: "s".to_string(),
        entities: vec![],
        decisions: vec![],
    };
    let md = render_digest(&digest, &Budget::default()).unwrap();
    let doc = parse_document(&md, &Budget::default()).unwrap();
    assert_eq!(doc.title.as_deref(), Some("WIP] x"));
    assert_eq!(sanitize_title("[WIP] x"), "WIP] x");
    assert_eq!(sanitize_title("## | >"), "sin título");
}

#[test]
fn un_slug_es_su_propio_slug() {
    for s in ["Hola -- Mundo", "¡¿?!", "a_b", "--x--", "Ñandú 2"] {
        let once = slugify(s);
        assert_eq!(slugify(&once), once);
        assert!(!once.contains("--"));
    }
}

#[test]
fn el_comienzo_del_cuerpo_solo_mueve_los_errores() {
    let b = Budget::default();
    let body = "[[uses:a]] [[b]] [[a]]";
    let links = scan_links(body, 0, &b).unwrap();
    assert_eq!(scan_links(body, 100, &b).unwrap(), links);
    assert_eq!(links[0].target.as_str(), "a");
    assert_eq!(links[0].rel.as_deref(), Some("uses"));
    assert_eq!(links[1].target.as_str(), "b");
    assert_eq!(
        scan_links("x [[MAL]]", 100, &b).unwrap_err(),
        OkfError::InvalidLink { offset: 102, target: "MAL".to_string() }
    );
}

#[test]
fn lejos_del_comienzo_solo_cuenta_el_error() {
    let b = Budget::default();
    assert_eq!(scan_links("[[a]]", usize::MAX, &b).unwrap(), scan_links("[[a]]", 0, &b).unwrap());
}

#[test]
fn un_campo_suelto_se_lee_igual() {
    for (key, value, text) in [
        ("title", FmValue::Scalar("Hola".to_string()), "title: Hola\n"),
        ("n", FmValue::Scalar("a: b".to_string()), "n: a: b\n"),
        (
            "tags",
            FmValue::List(vec!["a".to_string(), "b".to_string()]),
            "tags:\n  - a\n  - b\n",
        ),
    ] {
        let mut out = String::new();
        serialize_field(&mut out, key, &value).unwrap();
        assert_eq!(out, text);
        let chars: Vec<char> = out.chars().collect();
        assert_eq!(parse_frontmatter(&chars).unwrap(), vec![(key.to_string(), value)]);
    }
    let mut out = String::new();
    assert!(serialize_field(&mut out, "mala clave", &FmValue::Scalar("x".to_string())).is_err());
}

#[test]
fn la_cabecera_decide_lo_que_el_cuerpo_no() {
    let b = Budget::default();
    let head = "---\ntype: note\ntitle: T\ntags:\n  - a\nk: v\n---\n";
    let one = parse_document(&format!("{head}[[x]]\n"), &b).unwrap();
    let two = parse_document(&format!("{head}---\notra cosa\n"), &b).unwrap();
    assert_eq!(one.doc_type, two.doc_type);
    assert_eq!(one.title, two.title);
    assert_eq!(one.tags, two.tags);
    assert_eq!(one.extra, two.extra);
    assert_eq!(one.body_offset, two.body_offset);
}

//! Facts, axioms and what follows.

use okf_memory::axioms::{parse_ontology_document, OntologyDocError};
use okf_memory::model::{Budget, ConceptId};
use okf_memory::okf::parse_document;
use okf_memory::ontology::{triples_from_document, Object, Ontology, PropertyAxiom, ReasoningBudget, SubClassOf, Triple, RDF_TYPE, RELATED, TAG};
use okf_memory::reason::materialize;

fn id(s: &str) -> ConceptId {
    ConceptId::parse(s).unwrap()
}

fn type_fact(subject: &ConceptId, class: &str) -> Triple {
    Triple {
        subject: subject.clone(),
        predicate: RDF_TYPE.to_string(),
        object: Object::Literal(class.to_string()),
    }
}

fn link_fact(subject: &ConceptId, predicate: &str, target: &ConceptId) -> Triple {
    Triple {
        subject: subject.clone(),
        predicate: predicate.to_string(),
        object: Object::Concept(target.clone()),
    }
}

#[test]
fn triples_from_document_extrae_tipo_tags_y_enlaces() {
    let raw = "---\ntype: person\ntags:\n  - staff\n  - rust\n---\nVer [[uses:libs/sqlx]] y [[people/bob]].\n";
    let doc = parse_document(raw, &Budget::default()).unwrap();
    let alice = id("people/alice");

    let triples = triples_from_document(&alice, &doc);

    assert!(triples.contains(&type_fact(&alice, "person")));
    assert!(triples.iter().any(
        |t| t.subject == alice && t.predicate == TAG && t.object == Object::Literal("staff".to_string())
    ));
    assert!(triples.contains(&link_fact(&alice, "uses", &id("libs/sqlx"))));
    assert!(triples.contains(&link_fact(&alice, RELATED, &id("people/bob"))));
}

#[test]
fn subclass_of_es_transitivo_por_encadenamiento() {
    let alice = id("people/alice");
    let facts = vec![type_fact(&alice, "student")];
    let ontology = Ontology {
        classes: vec![
            SubClassOf { subclass: "student".to_string(), superclass: "person".to_string() },
            SubClassOf { subclass: "person".to_string(), superclass: "agent".to_string() },
        ],
        properties: vec![],
    };

    let out = materialize(&facts, &ontology, &ReasoningBudget::default());

    assert!(out.triples.contains(&type_fact(&alice, "student")));
    assert!(out.triples.contains(&type_fact(&alice, "person")));
    assert!(out.triples.contains(&type_fact(&alice, "agent")));
    assert!(!out.truncated_by_iterations && !out.truncated_by_triples);
}

#[test]
fn propiedad_transitiva_deriva_la_cadena_completa() {
    let a = id("a");
    let b = id("b");
    let c = id("c");
    let facts = vec![link_fact(&a, "ancestor_of", &b), link_fact(&b, "ancestor_of", &c)];
    let ontology = Ontology {
        classes: vec![],
        properties: vec![PropertyAxiom::Transitive("ancestor_of".to_string())],
    };

    let out = materialize(&facts, &ontology, &ReasoningBudget::default());

    assert!(out.triples.contains(&link_fact(&a, "ancestor_of", &c)));
}

#[test]
fn propiedad_simetrica_deriva_el_par_inverso() {
    let a = id("a");
    let b = id("b");
    let facts = vec![link_fact(&a, "married_to", &b)];
    let ontology = Ontology {
        classes: vec![],
        properties: vec![PropertyAxiom::Symmetric("married_to".to_string())],
    };

    let out = materialize(&facts, &ontology, &ReasoningBudget::default());

    assert!(out.triples.contains(&link_fact(&b, "married_to", &a)));
}

#[test]
fn inverse_of_deriva_el_predicado_contrario() {
    let alice = id("people/alice");
    let bob = id("people/bob");
    let facts = vec![link_fact(&alice, "manages", &bob)];
    let ontology = Ontology {
        classes: vec![],
        properties: vec![PropertyAxiom::InverseOf {
            property: "manages".to_string(),
            inverse: "managed_by".to_string(),
        }],
    };

    let out = materialize(&facts, &ontology, &ReasoningBudget::default());

    assert!(out.triples.contains(&link_fact(&bob, "managed_by", &alice)));
}

#[test]
fn sub_property_of_propaga_hacia_la_propiedad_general() {
    let alice = id("people/alice");
    let sqlx = id("libs/sqlx");
    let facts = vec![link_fact(&alice, "depends_on", &sqlx)];
    let ontology = Ontology {
        classes: vec![],
        properties: vec![PropertyAxiom::SubPropertyOf {
            sub: "depends_on".to_string(),
            sup: "related".to_string(),
        }],
    };

    let out = materialize(&facts, &ontology, &ReasoningBudget::default());

    assert!(out.triples.contains(&link_fact(&alice, "related", &sqlx)));
}

#[test]
fn respeta_presupuesto_de_triples() {
    let a = id("a");
    let b = id("b");
    let c = id("c");
    let facts = vec![link_fact(&a, "ancestor_of", &b), link_fact(&b, "ancestor_of", &c)];
    let ontology = Ontology {
        classes: vec![],
        properties: vec![PropertyAxiom::Transitive("ancestor_of".to_string())],
    };
    let budget = ReasoningBudget { max_iterations: 16, max_triples: 2 };

    let out = materialize(&facts, &ontology, &budget);

    assert_eq!(out.triples.len(), 2);
    assert!(out.truncated_by_triples);
}

#[test]
fn respeta_presupuesto_de_iteraciones() {
    // Cadena de 5 subClassOf: alcanzar la cima exige 4 rondas.
    // Con solo 1 iteración permitida, la clausura queda a medias.
    let alice = id("people/alice");
    let facts = vec![type_fact(&alice, "c0")];
    let classes = (0..4)
        .map(|i| SubClassOf { subclass: format!("c{i}"), superclass: format!("c{}", i + 1) })
        .collect();
    let ontology = Ontology { classes, properties: vec![] };
    let budget = ReasoningBudget { max_iterations: 1, max_triples: 10_000 };

    let out = materialize(&facts, &ontology, &budget);

    assert!(out.triples.contains(&type_fact(&alice, "c1")));
    assert!(!out.triples.contains(&type_fact(&alice, "c4")));
    assert!(out.truncated_by_iterations);
    assert!(!out.truncated_by_triples);
}

#[test]
fn ciclos_de_subclass_of_no_cuelgan_el_motor() {
    let alice = id("people/alice");
    let facts = vec![type_fact(&alice, "a")];
    let ontology = Ontology {
        classes: vec![
            SubClassOf { subclass: "a".to_string(), superclass: "b".to_string() },
            SubClassOf { subclass: "b".to_string(), superclass: "a".to_string() },
        ],
        properties: vec![],
    };

    let out = materialize(&facts, &ontology, &ReasoningBudget::default());

    assert!(out.triples.contains(&type_fact(&alice, "a")));
    assert!(out.triples.contains(&type_fact(&alice, "b")));
    assert!(!out.truncated_by_iterations);
}

#[test]
fn parse_ontology_document_lee_las_cinco_palabras_clave() {
    let body = "\
subclass_of: student -> person
transitive: depends_on
symmetric: married_to
sub_property_of: depends_on -> related
inverse_of: manages -> managed_by
";
    let ontology = parse_ontology_document(body).unwrap();
    assert_eq!(
        ontology.classes,
        vec![SubClassOf { subclass: "student".to_string(), superclass: "person".to_string() }]
    );
    assert_eq!(
        ontology.properties,
        vec![
            PropertyAxiom::Transitive("depends_on".to_string()),
            PropertyAxiom::Symmetric("married_to".to_string()),
            PropertyAxiom::SubPropertyOf { sub: "depends_on".to_string(), sup: "related".to_string() },
            PropertyAxiom::InverseOf { property: "manages".to_string(), inverse: "managed_by".to_string() },
        ]
    );
}

#[test]
fn parse_ontology_document_ignora_blancos_y_comentarios() {
    let body = "\n  \n# comentario\nsubclass_of: a -> b\n   # otro comentario\n";
    let ontology = parse_ontology_document(body).unwrap();
    assert_eq!(ontology.classes.len(), 1);
}

#[test]
fn parse_ontology_document_rechaza_linea_sin_dos_puntos() {
    assert_eq!(
        parse_ontology_document("esto no es un axioma").unwrap_err(),
        OntologyDocError::Malformed { line: 1 }
    );
}

#[test]
fn parse_ontology_document_rechaza_keyword_desconocida() {
    assert_eq!(
        parse_ontology_document("owl_equivalent_class: a -> b").unwrap_err(),
        OntologyDocError::UnknownKeyword { line: 1, keyword: "owl_equivalent_class".to_string() }
    );
}

#[test]
fn parse_ontology_document_rechaza_flecha_ausente() {
    assert_eq!(
        parse_ontology_document("subclass_of: solo-un-lado").unwrap_err(),
        OntologyDocError::InvalidAxiom {
            line: 1,
            reason: "se esperaba 'origen -> destino'".to_string()
        }
    );
}

#[test]
fn parse_ontology_document_rechaza_lado_vacio() {
    assert_eq!(
        parse_ontology_document("inverse_of: manages -> ").unwrap_err(),
        OntologyDocError::InvalidAxiom {
            line: 1,
            reason: "'origen -> destino': ningún lado puede quedar vacío".to_string()
        }
    );
}

#[test]
fn parse_ontology_document_reporta_la_linea_correcta_en_documentos_multilinea() {
    let body = "subclass_of: a -> b\ntransitive: x\nesto rompe\n";
    assert_eq!(
        parse_ontology_document(body).unwrap_err(),
        OntologyDocError::Malformed { line: 3 }
    );
}

#[test]
fn parse_ontology_document_vacio_da_ontologia_vacia() {
    let ontology = parse_ontology_document("").unwrap();
    assert!(ontology.classes.is_empty() && ontology.properties.is_empty());
}

#[test]
fn sin_rondas_y_con_algo_pendiente_se_dice() {
    let alice = id("people/alice");
    let facts = vec![type_fact(&alice, "person")];
    let ontology = Ontology {
        classes: vec![SubClassOf { subclass: "person".to_string(), superclass: "agent".to_string() }],
        properties: vec![],
    };
    let out = materialize(&facts, &ontology, &ReasoningBudget { max_iterations: 0, max_triples: 10_000 });
    assert_eq!(out.triples, facts);
    assert!(out.truncated_by_iterations && !out.truncated_by_triples);
    let one = materialize(&facts, &ontology, &ReasoningBudget { max_iterations: 1, max_triples: 10_000 });
    assert_eq!(one.triples.len(), 2);
    assert!(!one.truncated_by_iterations && !one.truncated_by_triples, "la última ronda la completó");
}

#[test]
fn lo_que_ya_se_sabe_no_trunca() {
    let x = id("x");
    let facts = vec![type_fact(&x, "a"), type_fact(&x, "b")];
    let ontology = Ontology {
        classes: vec![SubClassOf { subclass: "a".to_string(), superclass: "b".to_string() }],
        properties: vec![],
    };
    let out = materialize(&facts, &ontology, &ReasoningBudget { max_iterations: 16, max_triples: 2 });
    assert_eq!(out.triples, facts);
    assert!(!out.truncated_by_triples && !out.truncated_by_iterations);
    let none = materialize(&facts, &ontology, &ReasoningBudget { max_iterations: 0, max_triples: 2 });
    assert!(!none.truncated_by_triples && !none.truncated_by_iterations);
}

#[test]
fn dos_ontologias_juntas_declaran_ambas() {
    let a = "subclass_of: a -> b\n# nota";
    let b = "transitive: x\r\nsubclass_of: b -> c\n";
    let one = parse_ontology_document(a).unwrap();
    let two = parse_ontology_document(b).unwrap();
    let both = parse_ontology_document(&format!("{a}\n{b}")).unwrap();
    assert_eq!(both.classes.len(), one.classes.len() + two.classes.len());
    assert_eq!(both.classes[0], one.classes[0]);
    assert_eq!(both.classes[1], two.classes[0]);
    assert_eq!(both.properties, two.properties);
    assert_eq!(
        parse_ontology_document("subclass_of: a -> b\ntransitive: x\nesto rompe\n").unwrap_err(),
        OntologyDocError::Malformed { line: 3 }
    );
}

//! Bounded traversals.

use std::collections::BTreeMap;
use std::convert::Infallible;
use okf_memory::graph::{bounded_bfs, NeighborSource, Visited};
use okf_memory::model::{Budget, ConceptId};

/// Implementación de juguete: SOLID-I en acción. Tres líneas de
/// datos bastan para probar el algoritmo sin ningún almacén.
struct MapGraph {
    edges: BTreeMap<ConceptId, Vec<ConceptId>>,
    sizes: BTreeMap<ConceptId, usize>,
}

impl NeighborSource for MapGraph {
    type Error = Infallible;
    fn neighbors(&self, id: &ConceptId) -> Result<Vec<ConceptId>, Infallible> {
        Ok(self.edges.get(id).cloned().unwrap_or_default())
    }
    fn document_size(&self, id: &ConceptId) -> Result<Option<usize>, Infallible> {
        Ok(self.sizes.get(id).copied())
    }
}

fn id(s: &str) -> ConceptId {
    ConceptId::parse(s).unwrap()
}

fn graph(edges: &[(&str, &[&str])]) -> MapGraph {
    let mut e = BTreeMap::new();
    let mut sizes = BTreeMap::new();
    for (from, tos) in edges {
        e.insert(id(from), tos.iter().map(|t| id(t)).collect());
        sizes.insert(id(from), 100);
        for t in *tos {
            sizes.entry(id(t)).or_insert(100);
        }
    }
    MapGraph { edges: e, sizes }
}

#[test]
fn recorre_en_orden_bfs() {
    let g = graph(&[("a", &["b", "c"]), ("b", &["d"]), ("c", &["d"])]);
    let t = bounded_bfs(&g, &id("a"), &Budget::default()).unwrap();
    let ids: Vec<&str> = t.visited.iter().map(|v| v.id.as_str()).collect();
    assert_eq!(ids, vec!["a", "b", "c", "d"]);
    assert_eq!(t.visited[3].depth, 2);
    assert!(!t.truncated_by_nodes && !t.truncated_by_depth && !t.truncated_by_bytes);
}

#[test]
fn termina_con_ciclos() {
    let g = graph(&[("a", &["b"]), ("b", &["a"])]);
    let t = bounded_bfs(&g, &id("a"), &Budget::default()).unwrap();
    assert_eq!(t.visited.len(), 2);
}

#[test]
fn respeta_max_nodes() {
    let hijos: Vec<String> = (0..20).map(|i| format!("hijo-{i}")).collect();
    let refs: Vec<&str> = hijos.iter().map(|s| s.as_str()).collect();
    let g = graph(&[("raiz", refs.as_slice())]);
    let budget = Budget { max_graph_nodes: 5, ..Budget::default() };
    let t = bounded_bfs(&g, &id("raiz"), &budget).unwrap();
    assert_eq!(t.visited.len(), 5);
    assert!(t.truncated_by_nodes);
}

#[test]
fn respeta_max_depth() {
    let g = graph(&[("a", &["b"]), ("b", &["c"]), ("c", &["d"]), ("d", &["e"])]);
    let budget = Budget { max_graph_depth: 2, ..Budget::default() };
    let t = bounded_bfs(&g, &id("a"), &budget).unwrap();
    let ids: Vec<&str> = t.visited.iter().map(|v| v.id.as_str()).collect();
    assert_eq!(ids, vec!["a", "b", "c"]);
    assert!(t.truncated_by_depth);
}

#[test]
fn respeta_presupuesto_de_bytes() {
    let g = graph(&[("a", &["b"]), ("b", &["c"]), ("c", &["d"])]);
    let budget = Budget { max_response_bytes: 150, ..Budget::default() };
    let t = bounded_bfs(&g, &id("a"), &budget).unwrap();
    assert_eq!(t.visited.len(), 2);
    assert!(t.truncated_by_bytes);
}

#[test]
fn enlaces_rotos_no_rompen_el_recorrido() {
    let mut g = graph(&[("a", &["fantasma"])]);
    g.sizes.remove(&id("fantasma"));
    let t = bounded_bfs(&g, &id("a"), &Budget::default()).unwrap();
    assert_eq!(t.visited.len(), 2);
    assert!(!t.visited[1].exists);
}

#[test]
fn el_origen_no_tiene_padre_y_los_demas_reconstruyen_un_arbol_sin_ciclos() {
    let g = graph(&[("a", &["b", "c"]), ("b", &["d"]), ("c", &["d"])]);
    let t = bounded_bfs(&g, &id("a"), &Budget::default()).unwrap();

    let by_id: BTreeMap<&str, &Visited> =
        t.visited.iter().map(|v| (v.id.as_str(), v)).collect();
    assert_eq!(by_id["a"].parent, None);

    // Desde cualquier nodo visitado, subir por `parent` debe
    // terminar SIEMPRE en la raíz (`None`) en, como mucho,
    // `visited.len()` pasos — si hubiera un ciclo en la cadena de
    // padres, este bucle no terminaría nunca sin el corte.
    for v in &t.visited {
        let mut current = v.id.clone();
        let mut steps = 0;
        loop {
            let node = by_id[current.as_str()];
            match &node.parent {
                None => break,
                Some(p) => current = p.clone(),
            }
            steps += 1;
            assert!(steps <= t.visited.len(), "ciclo detectado en la cadena de padres");
        }
    }
}

#[test]
fn la_profundidad_es_la_distancia_mas_corta() {
    let g = graph(&[("a", &["b", "c"]), ("b", &["d"]), ("c", &["d", "e"]), ("d", &["e", "f"])]);
    let t = bounded_bfs(&g, &id("a"), &Budget { max_graph_depth: 3, ..Budget::default() }).unwrap();
    let depth = |s: &str| t.visited.iter().find(|v| v.id == id(s)).unwrap().depth;
    assert_eq!((depth("a"), depth("b"), depth("d"), depth("e"), depth("f")), (0, 1, 2, 2, 3));
    assert!(!t.truncated_by_nodes && !t.truncated_by_bytes);
    assert_eq!(t.visited.len(), 6, "todo lo alcanzable está");
}

//! What the tools are called, what they take, and the pages that show them.

use vstd::prelude::*;
use crate::json::{
    empty_object, s, strings, texts, with, Fields, JsonModel, Value,
};
use crate::mcp::{ToolModel, ToolSpec, UiModel, UiResource};
use crate::replies::txt;
use crate::text::{lemma_views_push, opt_view, str_eq, views};

verus! {

/// Tool, argument, type, what it is for, and whether it must be there.
pub type ArgumentRow = (&'static str, &'static str, &'static str, &'static str, bool);

/// Tool, address of its page, and name of its page.
pub type ToolRow = (&'static str, &'static str, &'static str);

/// The arguments of every tool, tool by tool.
pub const ARGUMENTS: [ArgumentRow; 65] = [
    ("memory_search", "query", "string", "subcadena a buscar en id, título, tags y cuerpo", false),
    ("memory_search", "type", "string", "filtra por el campo 'type' del frontmatter", false),
    ("memory_search", "not_type", "string", "excluye los documentos con este 'type' en el frontmatter", false),
    ("memory_search", "tag", "string", "filtra por tag exacto", false),
    ("memory_search", "path_prefix", "string", "filtra por prefijo de ruta lógica (ej. 'people')", false),
    ("memory_search", "limit", "integer", "máximo de resultados", false),
    ("memory_resolve", "concept_id", "string", "id lógico, p. ej. people/alice", true),
    ("memory_resolve", "depth", "integer", "profundidad máxima del vecindario del grafo a retornar", false),
    ("memory_resolve", "max_bytes", "integer", "presupuesto de bytes máximo para la respuesta (truncado automático si excede)", false),
    ("memory_reason", "concept_id", "string", "id lógico raíz: mismo vecindario acotado que memory_resolve", true),
    ("memory_reason", "depth", "integer", "profundidad máxima del vecindario a considerar (por defecto el presupuesto del servidor)", false),
    ("memory_reason", "ontology_id", "string", "concept_id de un documento 'type: ontology' cuyo CUERPO declara axiomas (una línea por axioma: 'subclass_of: X -> Y', 'transitive: P', 'symmetric: P', 'sub_property_of: X -> Y', 'inverse_of: X -> Y'); se COMBINA con classes/properties inline, no los reemplaza", false),
    ("memory_reason", "classes", "array", "axiomas de subclase inline: lista de {subclass, superclass} (rdfs:subClassOf)", false),
    ("memory_reason", "properties", "array", "axiomas de propiedad inline: lista de {kind, ...}. kind='transitive'|'symmetric' con {property}; kind='sub_property_of' con {sub, sup}; kind='inverse_of' con {property, inverse}", false),
    ("memory_reason", "max_iterations", "integer", "tope de rondas de punto fijo (por defecto 16)", false),
    ("memory_reason", "max_triples", "integer", "tope de triples totales, asertados + derivados (por defecto 10000)", false),
    ("memory_reason", "persist", "boolean", "si es true (por defecto), guarda los triples derivados para lecturas futuras sin volver a razonar", false),
    ("memory_commit", "concept_id", "string", "id lógico del concepto (ej: people/alice, projects/mcp)", true),
    ("memory_commit", "markdown", "string", "documento completo con frontmatter YAML + Markdown, ej:\n---\ntype: person\ntitle: Alice\ntags:\n  - dev\n---\nCuerpo del documento en Markdown con [[enlaces]] a otros concept_id.", true),
    ("memory_commit", "reason", "string", "motivo o explicación del cambio (se registrará en la historia de revisiones)", true),
    ("memory_commit", "expected_hash", "string", "hash SHA-256 hex del contenido actual obtenido previamente vía memory_resolve (obligatorio para actualizaciones, omitir en creación)", false),
    ("memory_commit", "dry_run", "boolean", "si es true, valida el documento y chequea conflictos sin guardar nada", false),
    ("memory_consolidate", "title", "string", "título corto de la sesión (deriva el concept_id si no se da 'concept_id')", true),
    ("memory_consolidate", "summary", "string", "resumen en prosa de lo ocurrido; puede contener [[enlaces]] OKF normales", true),
    ("memory_consolidate", "entities", "array", "entidades relacionadas: lista de {concept_id, relation?} (relation en prosa libre)", false),
    ("memory_consolidate", "decisions", "array", "decisiones tomadas: lista de {text, concept_id?}", false),
    ("memory_consolidate", "concept_id", "string", "id lógico del documento de sesión (por defecto sessions/<slug-del-título>)", false),
    ("memory_consolidate", "reason", "string", "motivo para la historia de revisiones (por defecto 'consolidación de sesión')", false),
    ("memory_consolidate", "expected_hash", "string", "hash SHA-256 hex leído previamente, obligatorio para actualizar una sesión ya existente", false),
    ("memory_history", "concept_id", "string", "id lógico del concepto", true),
    ("memory_history", "limit", "integer", "máximo de revisiones a retornar (1-100)", false),
    ("memory_history", "before_seq", "integer", "solo revisiones anteriores a este seq (para paginar)", false),
    ("memory_delete", "concept_id", "string", "id lógico del concepto a borrar", true),
    ("memory_delete", "expected_hash", "string", "hash SHA-256 hex del contenido actual", true),
    ("memory_delete", "reason", "string", "motivo de la baja o borrado lógico", true),
    ("memory_list", "path_prefix", "string", "prefijo de ruta por segmentos (ej: 'people')", false),
    ("memory_list", "limit", "integer", "máximo de resultados a retornar", false),
    ("memory_backlinks", "concept_id", "string", "id lógico del concepto de interés", true),
    ("memory_embed", "path_prefix", "string", "opcional, filtra por prefijo de ruta lógica", false),
    ("memory_embed", "max", "integer", "lote máximo de documentos a procesar en esta llamada", false),
    ("memory_patch", "concept_id", "string", "id lógico del concepto", true),
    ("memory_patch", "expected_hash", "string", "hash SHA-256 hex del contenido actual", true),
    ("memory_patch", "reason", "string", "motivo del cambio de metadatos", true),
    ("memory_patch", "set", "object", "mapa de campos clave-valor a escribir/reemplazar en el frontmatter", false),
    ("memory_patch", "remove", "array", "lista de claves de frontmatter a eliminar (ej. ['tags'])", false),
    ("memory_patch", "add_tags", "array", "lista de tags a añadir a la lista existente", false),
    ("memory_patch", "remove_tags", "array", "lista de tags a eliminar de la lista existente", false),
    ("memory_patch", "dry_run", "boolean", "si es true, simula el patch sin persistir", false),
    ("memory_bulk_patch", "patches", "array", "lista de patches (cada uno con los argumentos de memory_patch: concept_id, expected_hash, reason, y set, remove, add_tags o remove_tags)", true),
    ("memory_bulk_patch", "atomic", "boolean", "si es true (por defecto), no aplica ninguno ante cualquier fallo o conflicto de CAS", false),
    ("memory_bulk_commit", "requests", "array", "lista de peticiones de commit (cada una con concept_id, markdown, reason, y expected_hash opcional)", true),
    ("memory_bulk_commit", "atomic", "boolean", "si es true, revierte todo el lote ante cualquier fallo o conflicto de CAS (rollback)", false),
    ("memory_validate", "path_prefix", "string", "opcional, valida solo bajo este prefijo de ruta", false),
    ("spec_propose", "concept_id", "string", "id lógico del spec, p. ej. 'specs/skill-ingest-v2'", true),
    ("spec_propose", "title", "string", "título humano del spec", true),
    ("spec_propose", "requirements", "string", "sección de requisitos, en Markdown libre", true),
    ("spec_propose", "design", "string", "sección de diseño técnico, en Markdown libre", true),
    ("spec_propose", "reason", "string", "motivo del commit (opcional, para la historia de revisiones)", false),
    ("spec_tasks", "spec_id", "string", "concept_id de un spec ya creado con spec_propose", true),
    ("spec_tasks", "tasks", "array", "lista de tareas: cada una {title, description opcional, depends_on opcional (lista de títulos de otras tareas de este lote, o concept_ids de tareas ya existentes)}", true),
    ("spec_status", "spec_id", "string", "concept_id de un spec", true),
    ("skill_ingest", "source", "string", "URL de repo, subcarpeta o archivo (GitHub u otra), o el atajo 'owner/repo'", true),
    ("skill_ingest", "path_prefix", "string", "prefijo lógico destino, p. ej. 'skills/programming'", true),
    ("skill_ingest", "format", "string", "auto | agentic-skills | shadcn | okf | raw (por defecto auto)", false),
    ("skill_ingest", "dry_run", "boolean", "si es true, devuelve el plan (unidades, acciones y warnings) sin guardar nada", false),
];

/// The tools: name, address of the page, and name of the page. One without a
/// page has an empty address. The last one needs a fetcher.
pub const TOOLS: [ToolRow; 20] = [
    ("memory_search", "ui://okf-memory/memory_search", "okf-memory · Buscar"),
    ("memory_resolve", "ui://okf-memory/memory_resolve", "okf-memory · Resolver"),
    ("memory_reason", "ui://okf-memory/memory_reason", "okf-memory · Razonar"),
    ("memory_commit", "ui://okf-memory/memory_commit", "okf-memory · Commit"),
    ("memory_consolidate", "", ""),
    ("memory_history", "ui://okf-memory/memory_history", "okf-memory · Historial"),
    ("memory_delete", "ui://okf-memory/memory_delete", "okf-memory · Borrar"),
    ("memory_list", "ui://okf-memory/memory_list", "okf-memory · Listar"),
    ("memory_backlinks", "ui://okf-memory/memory_backlinks", "okf-memory · Backlinks"),
    ("memory_embed", "ui://okf-memory/memory_embed", "okf-memory · Embeddings"),
    ("memory_patch", "ui://okf-memory/memory_patch", "okf-memory · Patch"),
    ("memory_bulk_patch", "ui://okf-memory/memory_bulk_patch", "okf-memory · Patch en lote"),
    ("memory_bulk_commit", "ui://okf-memory/memory_bulk_commit", "okf-memory · Commit en lote"),
    ("memory_validate", "ui://okf-memory/memory_validate", "okf-memory · Validar"),
    ("memory_status", "ui://okf-memory/memory_status", "okf-memory · Estado"),
    ("memory_stats", "ui://okf-memory/memory_stats", "okf-memory · Estadísticas"),
    ("spec_propose", "ui://okf-memory/spec_propose", "okf-memory · Proponer spec"),
    ("spec_tasks", "ui://okf-memory/spec_tasks", "okf-memory · Tareas de spec"),
    ("spec_status", "ui://okf-memory/spec_status", "okf-memory · Estado de spec"),
    ("skill_ingest", "ui://okf-memory/skill_ingest", "okf-memory · Ingerir skill"),
];

pub const SKILL_INGEST: &'static str =
    "Ingiere skills desde una fuente externa (repo de GitHub, subcarpeta o archivo; también el atajo 'owner/repo') SIN pasar el contenido por tu contexto ni por ningún LLM del servidor: el servidor descarga, detecta el formato (SKILL.md, shadcn, OKF, markdown suelto) y commitea un concepto por skill conservando el contenido original ÍNTEGRO bajo una cabecera OKF (nunca reescribe ni resume con IA). La respuesta incluye 'license' (identificador SPDX detectado, informativo, nunca bloquea) y 'warnings' por unidad (heurísticos de texto sin modelo sobre contenido potencialmente sospechoso, p. ej. posible prompt injection — revísalos tú antes de confiar en el contenido; vacío para fuentes de confianza configuradas en el servidor).";

pub const PAGE_DESCRIPTION: &'static str =
    "UI React interactiva (tema brutalista): formularios, grafo de conceptos (React Flow) y gráficas (Recharts). Compilada en un único HTML autocontenido desde mcp-app/ (ver mcp-app/README.md); enruta internamente por el nombre de la herramienta invocada.";

// ---------------------------------------------------------------------
// Schemas
// ---------------------------------------------------------------------

pub open spec fn argument_json(kind: Seq<char>, about: Seq<char>) -> JsonModel {
    empty_object().set("type"@, txt(kind)).set("description"@, txt(about))
}

/// The arguments of a tool among the first `n` rows.
pub open spec fn properties_to(rows: Seq<ArgumentRow>, tool: Seq<char>, n: int) -> JsonModel
    decreases n,
{
    if n <= 0 {
        empty_object()
    } else if rows[n - 1].0@ == tool {
        with(
            properties_to(rows, tool, n - 1),
            rows[n - 1].1@,
            argument_json(rows[n - 1].2@, rows[n - 1].3@),
        )
    } else {
        properties_to(rows, tool, n - 1)
    }
}

/// The arguments of a tool that must be there, among the first `n` rows.
pub open spec fn required_to(rows: Seq<ArgumentRow>, tool: Seq<char>, n: int) -> Seq<Seq<char>>
    decreases n,
{
    if n <= 0 {
        Seq::empty()
    } else if rows[n - 1].0@ == tool && rows[n - 1].4 {
        required_to(rows, tool, n - 1).push(rows[n - 1].1@)
    } else {
        required_to(rows, tool, n - 1)
    }
}

/// The JSON Schema of the arguments of a tool.
pub open spec fn schema_json(rows: Seq<ArgumentRow>, tool: Seq<char>) -> JsonModel {
    empty_object().set("type"@, txt("object"@)).set(
        "properties"@,
        properties_to(rows, tool, rows.len() as int),
    ).set("required"@, texts(required_to(rows, tool, rows.len() as int)))
}

/// The JSON Schema of the arguments of a tool.
pub fn schema(rows: &[ArgumentRow], tool: &str) -> (r: Value)
    ensures
        r@ == schema_json(rows@, tool@),
{
    let mut properties = Fields::new();
    let mut required: Vec<String> = Vec::new();
    assert(views(required@) =~= Seq::empty());
    let mut i: usize = 0;
    while i < rows.len()
        invariant
            i <= rows.len(),
            properties@ == properties_to(rows@, tool@, i as int),
            views(required@) == required_to(rows@, tool@, i as int),
        decreases rows.len() - i,
    {
        let row = rows[i];
        if str_eq(row.0, tool) {
            let mut o = Fields::new();
            o.set("type", s(row.2));
            o.set("description", s(row.3));
            properties.set(row.1, o.done());
            if row.4 {
                let name = row.1.to_owned();
                proof {
                    lemma_views_push(required@, name);
                }
                required.push(name);
            }
        }
        i += 1;
    }
    let mut o = Fields::new();
    o.set("type", s("object"));
    o.set("properties", properties.done());
    o.set("required", strings(&required));
    o.done()
}

// ---------------------------------------------------------------------
// Tools and pages
// ---------------------------------------------------------------------

/// The texts that a deployment supplies.
pub struct Assets {
    /// Advice shown once to the model.
    pub instructions: Option<&'static str>,
    /// The page that shows results.
    pub html: &'static str,
    /// What each tool is for, by name.
    pub descriptions: Vec<(&'static str, &'static str)>,
}

/// Mathematical counterpart of [`Assets`].
pub struct AssetsModel {
    pub instructions: Option<Seq<char>>,
    pub html: Seq<char>,
    pub descriptions: Seq<(Seq<char>, Seq<char>)>,
}

impl View for Assets {
    type V = AssetsModel;

    open spec fn view(&self) -> AssetsModel {
        AssetsModel {
            instructions: opt_view(self.instructions),
            html: self.html@,
            descriptions: views(self.descriptions@),
        }
    }
}

pub open spec fn no_assets() -> AssetsModel {
    AssetsModel { instructions: None, html: ""@, descriptions: Seq::empty() }
}

impl Default for Assets {
    fn default() -> (r: Assets)
        ensures
            r@ == no_assets(),
    {
        let r = Assets { instructions: None, html: "", descriptions: Vec::new() };
        assert(r@.descriptions =~= Seq::empty());
        r
    }
}

/// What is said of a tool, from entry `i` on; nothing by default.
pub open spec fn said_from(l: Seq<(Seq<char>, Seq<char>)>, tool: Seq<char>, i: int) -> Seq<char>
    decreases l.len() - i,
{
    if i < 0 || i >= l.len() {
        ""@
    } else if l[i].0 == tool {
        l[i].1
    } else {
        said_from(l, tool, i + 1)
    }
}

pub open spec fn description(a: AssetsModel, tool: Seq<char>) -> Seq<char> {
    if tool == "skill_ingest"@ {
        SKILL_INGEST@
    } else {
        said_from(a.descriptions, tool, 0)
    }
}

fn description_of(a: &Assets, tool: &str) -> (r: &'static str)
    ensures
        r@ == description(a@, tool@),
{
    if str_eq(tool, "skill_ingest") {
        return SKILL_INGEST;
    }
    let ghost all = views(a.descriptions@);
    let mut i: usize = 0;
    while i < a.descriptions.len()
        invariant
            i <= a.descriptions.len(),
            all == views(a.descriptions@),
            tool@ != "skill_ingest"@,
            said_from(all, tool@, 0) == said_from(all, tool@, i as int),
        decreases a.descriptions.len() - i,
    {
        assert(all[i as int] == a.descriptions@[i as int]@);
        if str_eq(a.descriptions[i].0, tool) {
            return a.descriptions[i].1;
        }
        i += 1;
    }
    ""
}

/// How many tools there are, with and without a fetcher.
pub open spec fn tool_count(fetches: bool) -> int {
    if fetches {
        TOOLS@.len() as int
    } else {
        TOOLS@.len() - 1
    }
}

pub open spec fn address(row: ToolRow) -> Option<Seq<char>> {
    if row.1@ == ""@ {
        None
    } else {
        Some(row.1@)
    }
}

pub open spec fn tool_model(a: AssetsModel, row: ToolRow) -> ToolModel {
    ToolModel {
        name: row.0@,
        description: description(a, row.0@),
        input_schema: schema_json(ARGUMENTS@, row.0@),
        ui_resource_uri: address(row),
        title: None,
        output_schema: None,
        annotations: None,
    }
}

/// The tools as they are announced.
pub open spec fn catalogue(a: AssetsModel, fetches: bool) -> Seq<ToolModel> {
    Seq::new(tool_count(fetches) as nat, |i: int| tool_model(a, TOOLS@[i]))
}

/// The pages of the first `n` tools.
pub open spec fn pages_to(a: AssetsModel, n: int) -> Seq<UiModel>
    decreases n,
{
    if n <= 0 {
        Seq::empty()
    } else if address(TOOLS@[n - 1]) is Some {
        pages_to(a, n - 1).push(
            UiModel {
                uri: TOOLS@[n - 1].1@,
                name: TOOLS@[n - 1].2@,
                description: PAGE_DESCRIPTION@,
                html: a.html,
            },
        )
    } else {
        pages_to(a, n - 1)
    }
}

/// The tools as they are announced.
pub fn list_tools(a: &Assets, fetches: bool) -> (r: Vec<ToolSpec>)
    ensures
        views(r@) == catalogue(a@, fetches),
{
    let total: usize = if fetches {
        TOOLS.len()
    } else {
        TOOLS.len() - 1
    };
    let mut out: Vec<ToolSpec> = Vec::new();
    let mut i: usize = 0;
    while i < total
        invariant
            i <= total <= TOOLS@.len(),
            out@.len() == i,
            forall|k: int| 0 <= k < i ==> (#[trigger] out@[k])@ == tool_model(a@, TOOLS@[k]),
        decreases total - i,
    {
        let row = TOOLS[i];
        let ui = if str_eq(row.1, "") {
            None
        } else {
            Some(row.1)
        };
        out.push(
            ToolSpec {
                name: row.0,
                description: description_of(a, row.0),
                input_schema: schema(ARGUMENTS.as_slice(), row.0),
                ui_resource_uri: ui,
                title: None,
                output_schema: None,
                annotations: None,
            },
        );
        i += 1;
    }
    assert(views(out@) =~= catalogue(a@, fetches));
    out
}

/// The pages of the tools; each has its own address, all share one text.
pub fn list_pages(a: &Assets, fetches: bool) -> (r: Vec<UiResource>)
    ensures
        views(r@) == pages_to(a@, tool_count(fetches)),
{
    let total: usize = if fetches {
        TOOLS.len()
    } else {
        TOOLS.len() - 1
    };
    let mut out: Vec<UiResource> = Vec::new();
    assert(views(out@) =~= Seq::empty());
    let mut i: usize = 0;
    while i < total
        invariant
            i <= total <= TOOLS@.len(),
            views(out@) == pages_to(a@, i as int),
        decreases total - i,
    {
        let row = TOOLS[i];
        if !str_eq(row.1, "") {
            let page = UiResource {
                uri: row.1,
                name: row.2,
                description: PAGE_DESCRIPTION,
                html: a.html,
            };
            proof {
                lemma_views_push(out@, page);
            }
            out.push(page);
        }
        i += 1;
    }
    out
}

} // verus!

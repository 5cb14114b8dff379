//! Verified core of an agent-memory server.

pub mod args;
pub mod axiom_laws;
pub mod axioms;
pub mod batch_laws;
pub mod big;
pub mod catalogue;
pub mod catalogue_laws;
pub mod conflict;
pub mod consolidate;
pub mod document_laws;
pub mod double;
pub mod drafting_laws;
pub mod embeddings;
pub mod github;
pub mod github_laws;
pub mod graph;
pub mod http;
pub mod http_laws;
pub mod importing;
pub mod indexed;
pub mod inference;
pub mod inference_laws;
pub mod ingest;
pub mod ingest_laws;
pub mod json;
pub mod json_laws;
pub mod json_parse;
pub mod mcp;
pub mod member_laws;
pub mod memory;
pub mod memory_laws;
pub mod model;
pub mod names;
pub mod number;
pub mod okf;
pub mod okf_laws;
pub mod ontology;
pub mod outbox;
pub mod outbox_laws;
pub mod patch;
pub mod patch_laws;
pub mod patching;
pub mod patching_laws;
pub mod plan;
pub mod plan_laws;
pub mod reading;
pub mod reading_laws;
pub mod reason;
pub mod replies;
pub mod repo;
pub mod search_laws;
pub mod server_laws;
pub mod sha256;
pub mod snapshot;
pub mod snapshot_laws;
pub mod source;
pub mod source_laws;
pub mod stdio;
pub mod store;
pub mod survey;
pub mod table;
pub mod text;
pub mod tool_laws;
pub mod tools;
pub mod trailer;
pub mod upkeep;
pub mod upkeep_laws;
pub mod workflow;
pub mod workflow_laws;
pub mod writing;
pub mod writing_laws;

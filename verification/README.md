# okf-memory

A memory for agents: documents with a small header, linked to each other, kept
with their whole history and served over the Model Context Protocol.

`src/` is the library, verified with Verus. What it believes without proof is
what a few calls outside it do: `String::push`, `String::push_str`,
`char::from_u32`, `String::from_utf8`, `str::to_lowercase` and the `Debug` text
of strings and characters (`text`), and encoding and decoding of base64
(`github`). Each says so where it stands.

| modules | what they hold |
| --- | --- |
| `model`, `sha256`, `conflict` | names, hashes and the decision about a write |
| `text`, `table`, `big`, `double`, `number`, `json`, `json_parse` | strings, sorted tables, numbers of double precision, JSON |
| `okf`, `patch`, `names` | documents, changes to their headers, safe names |
| `store`, `repo`, `memory`, `upkeep`, `survey`, `indexed` | what a store is, one in memory, one with an index beside it |
| `graph`, `ontology`, `axioms`, `reason` | bounded walks, triples and their closure |
| `ingest`, `plan`, `source`, `consolidate` | bringing in skills, digests of sessions |
| `mcp`, `http`, `stdio` | the protocol and its two transports |
| `tools`, `catalogue`, `args`, `replies`, `reading`, `writing`, `patching`, `inference`, `importing`, `workflow` | the tools |
| `trailer`, `snapshot`, `github`, `embeddings`, `outbox` | a repository as the store, mirroring |
| `okf_laws`, `patch_laws`, `memory_laws`, `json_laws`, `tool_laws`, `github_laws` | what holds across several operations |

`app/` is the program around it: sockets, files, the environment, HTTP clients
and the database. It runs as `stdio` (the default), `http` or `outbox`.
`OKF_ASSETS` names a directory with the texts of the tools and their page, and
`SCHEMA_SQL` the script that creates the tables.

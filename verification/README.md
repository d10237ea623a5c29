# travsr-lang

The language sidecars of travsr. A sidecar runs the indexer of a language on a
project, reads what the indexer found, and hands the daemon a graph: nodes for
definitions, edges between them, references with their positions, calls whose
targets lie elsewhere, and warnings.

`src/` is a Verus library: every function states what it returns, and Verus
proves it. `app/` is the program around it: child processes, files, the
language server, libclang, and the messages of the daemon. `tests/` runs the
library.

| Module | What it holds |
|---|---|
| `text`, `paths`, `order` | characters, lines and words; paths and addresses; the order of names and paths |
| `graph` | nodes, edges, references, calls, warnings, and the response that holds them |
| `columns` | what a producer's columns count, and the byte columns that they mean |
| `wire` | the fields of protocol buffers |
| `scip_index`, `scip_reader` | SCIP indexes: decoding them, and the graph of one |
| `semanticdb`, `scala` | SemanticDB documents, and the graph of Scala sources |
| `json`, `emitter` | JSON values, and the graphs of the Swift and Dart emitters |
| `lsif` | LSIF records, and the nodes of their definitions |
| `lsp`, `kotlin` | the messages of a language server, and a session with Kotlin's |
| `objc_symbol`, `objc_sends`, `objc_index`, `objc_visit`, `compdb`, `diag` | Objective-C: symbols, message sends, the index of syntax trees, and what to parse |
| `run`, `indexers`, `search` | child processes, the command lines of indexers, and searches through directories |
| `dotnet`, `version`, `php`, `java`, `agp`, `sbt`, `toolchain` | what each of the tools needs before and after it runs |

What Verus takes on trust stands in items of its own: the calls into `scip` and
`protobuf`, `serde_json`, `travsr-core`, and four functions of the standard
library. Each says in a comment what it claims.

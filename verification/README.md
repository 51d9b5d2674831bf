# calm_core

The logic of a source code indexer, written and verified with Verus: what a file
holds, which symbol a call means, which part of the call graph a change reaches,
and what is told about each symbol.

`src/` is the verified library. It works on plain values and does no I/O.

| Modules | What they hold |
| --- | --- |
| `text`, `paths`, `names`, `maps`, `digraph`, `cycles`, `types` | strings, relative paths, tables and graphs that the rest is built on |
| `discovery`, `naming`, `extraction`, `edges`, `identity` | from the files of a walk to the rows of the index |
| `documents`, `package_deps`, `go_module`, `jvm_package`, `pysyspath`, `coverage_paths` | what manifests and file headers declare |
| `modules`, `context`, `reconcile`, `type_resolve` | from import, call and type names to what they mean |
| `graph`, `incremental`, `coreness`, `digest`, `boundary`, `churn` | the call graph, its updates and the measures over it |
| `driver`, `cache`, `migration` | the decisions of an indexing run |

`tests/` runs the library on concrete values. `app/` is the unverified part: it
reads files, keeps the index in SQLite and carries out what the library decides.

# index-repo

A semantic code indexer for ChromaDB. Files are cut into chunks along their syntax
trees, or into overlapping windows of lines, and a collection is kept in step with
them: by one scan, by a live indexer, or by a service for many repositories.

- `src/` is the library: chunking, selection of files, ids and metadata, the scan, live
  updates, manifests, the registry of active roots, and the decisions of the service.
  It is verified; each function states what it returns. Functions whose names begin
  with `law_` state what holds of several functions together.
- `app/` is the program: command line, HTTP, files, threads, signals and the embedding
  model. It hands the library plain values and carries out what the library decides.
- `tests/` runs the library on given values.

The library calls `tree-sitter` and its grammars, `ignore`, `sha1` and the header type
of `reqwest` through small wrappers whose contracts are stated, not proved.

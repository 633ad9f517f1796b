# seagrep_index

An index over the objects of a bucket or the files of a directory, for searching
them by regular expression without reading them all. The library under `src/` is
written in Verus: what each function does is stated in its contract and proved.

- Documents are packed into compressed blocks (`pack*`, `visit`, `documents`,
  `fetch`, `regions`, `lines`).
- Grams of the documents lead to posting lists (`terms`, `dictionary`,
  `sparse_table`, `postings`, `delta_postings`, `posting_block`, `delta_blocks`,
  `postings_table`, `remote_terms`).
- A pattern is planned as a query over grams (`planner`, `query`), and the query
  selects candidates (`eval`, `candidate`, `addresses`). That a search misses
  nothing a full scan would find is stated in `scan`.
- Candidates are searched line by line and their matches reported (`program`,
  `stream`, `matches`, `events`, `windows`, `collect`, `search`, `run`).
- Segments are listed in a root that updates replace as a whole (`segment`,
  `format`, `source`, `update`, `compact`, `joining`, `decode`, `ingest`,
  `publish`, `assemble`). That an update leaves the segments holding what was
  listed, and a second one finds nothing to do, is stated in `renewed`.

Laws that relate several functions are public proof functions, next to what they
speak of. Calls into other crates (zstd, sha2, blake3, fst, regex, regex-syntax,
getrandom) stand behind small trusted functions whose doc comments say what is
believed of each call.

`app/` does the I/O: blob stores, the local cache, directories, and the records
that are written to disk. `tests/` runs the library, from single functions to
whole indexes in memory.

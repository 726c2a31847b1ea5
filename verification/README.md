# Leaf

Leaf keeps a local library of HTML documents and browses a "vault": a directory of
HTML files indexed live.  This crate is its core, written in Verus: the functions in
`src/` carry contracts that the verifier proves.  A few calls into other crates and
std (Base64 encoding, HTML parsing with `scraper`, the Unicode word class, lossy
UTF-8 decoding, `String::push`) sit behind small wrappers whose contracts are
trusted, not proved.

## Layout

- `src/` — the verified library (`leaf`):
  - `text`, `paths`, `sort`: characters, `Path`-like operations on text, stable sorting;
  - `tags`: the shapes of `<link>`, `<script>`, `<img>` tags and `url(…)` references;
  - `inliner`: inlining the stylesheets, scripts and images a page refers to;
  - `parser`: title and summary of a document (parsing itself is done by `scraper`);
  - `db`, `library`: the library's records and where their copies lie on disk;
  - `vault`, `scan`, `watcher`: the vault index, what a walk of the vault puts in it,
    the checks of file operations, and the batching of file-system events.
- `tests/` — tests of the library.
- `app/` — the desktop side, unverified: SQLite, the file system, the file watcher
  and the commands the user interface calls.  It reads and writes; the decisions come
  from the library.

Reading files is never done by the library.  The inliner, for instance, answers with
the file it needs next; the caller reads it, adds it to an `AssetStore` and asks again.

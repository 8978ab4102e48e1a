# memex_refresh

What decides how a local transcript index is brought up to date: which directories need to be
listed again, which files have changed, what a session database still owns, what leaves the
index, and how the ingest checkpoint is stored, migrated and recovered.

`src/` is the library. Every function states in its contract what it returns, and Verus proves
it. `src/outside.rs` holds the few facts that are taken from outside crates on trust, each beside
the call that it is about. Properties that span several functions are stated as proof functions
whose names start with `law_`.

`app/` is ordinary Rust around the library: it reads directories and files, talks to SQLite, the
system's event journal and the search index, hands plain values to the library, and carries out
what the library answers. The sources, indexes and settings of the program that uses it are
behind the traits `ingest::Host` and `benchmark::Publisher`.

`tests/` runs the library, with a simulated disk and directory tree where a test needs one.

| Modules | Subject |
| --- | --- |
| `order`, `model`, `sorted`, `keys`, `path`, `text`, `json` | orders, copies, sorted sets and maps, paths, texts and JSON values |
| `outside` | calls into outside crates |
| `inventory`, `platform`, `walk`, `tree` | directory listings, their stamps, walks that reuse them, and what a plain walk lists |
| `journal` | replaying the system's event journal |
| `exclude`, `projection`, `files`, `transcripts` | excluded paths, discovery options, file changes and observations |
| `opencode`, `scopes` | session databases, the owners of sessions, and what is replaced |
| `refresh`, `skip` | what a refresh does, and when it can be left out |
| `state`, `codec`, `checkpoint`, `session` | the ingest state, its stored form, and changes to it |
| `lifecycle`, `migration`, `recovery` | authority, locks, migration steps, and what survives a stop |
| `sources`, `receipt` | reading transcripts, and receipts for benchmark indexes |

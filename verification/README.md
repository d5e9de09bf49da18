# scp

An MCP hub that sits between clients and backend MCP servers: it routes
requests, keeps one registry of the backends' tools, and filters tool
responses down to a token budget (chunking, deduplication, relevance
scoring, progressive disclosure).

The library in `src/` is written in Verus. Each public function states what
it does in its `requires` / `ensures`, and Verus proves the code against
those contracts; proof functions state properties that span several calls
(ids that never repeat, counts that grow by the calls recorded, what a
bounded log or cache keeps). Calls into outside crates (SHA-256, regular
expressions, the clock, a few std string and map functions) go through
small trusted wrappers whose contracts say only what those crates document.

- `src/` — the verified library: configuration rules, the tool registry,
  request routing decisions, the filter pipeline, session state, backend
  supervision decisions.
- `tests/` — tests of the library on concrete values.
- `app/` — the process around it: configuration file I/O, HTTP and stdio
  listeners, backend processes and HTTP clients, embedding scoring.

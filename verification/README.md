# xr_corpus

A local, session-aware terminology service for speech recognition and
translation, written in Verus. It selects vocabulary from a user-editable
concept graph and from short-lived runtime providers, within each model's
prompt budget, and keeps bounded bilingual conversation history.

## Layout

- `src/` — the verified library.
  - `corpus`, `language`, `config`, `protocol`: corpus definitions and their
    validity, the sixteen language columns, limits, wire types.
  - `graph`, `projection`: graph records, the checks made before an edit, and
    the projection of the graph into corpora (grouping, identifiers,
    revisions).
  - `catalog`: static sources, the runtime provider registry with expiry, and
    the merged catalog snapshot.
  - `fold`, `text`, `order`, `evidence`, `matching`: Unicode folding, word
    boundaries, ordering and evidence matching.
  - `select`, `selection`, `rows`, `prompt`, `budget`, `correction`,
    `activation`: candidate rows, prompt rendering within budgets and
    recognition correction candidates.
  - `dialogue`, `manager`, `snapshot`, `service`: histories, the per-session
    context manager, immutable context snapshots and the session's request
    handling.
  - `vrcx`: the VRCX runtime room provider's decisions.
  - `client`: the rules a client of the service follows.
- `tests/` — tests of the library.
- `app/` — the HTTP server (axum), the SQLite graph store, VRCX process and
  database access, and the HTTP client; JSON shapes live in `app/dto.rs`.

# csv_lsp

A language server for delimiter-separated files (CSV, TSV, SSV, PSV) whose
core is written in Verus and proved against its specifications.

## Layout

- `src/` — the verified library.
  - `dialect.rs` — dialects, their delimiters, detection from `languageId`,
    file extension and content sniffing.
  - `grammar.rs`, `parse.rs` — the error-tolerant parser: `grammar.rs` states
    what a parse is as spec functions over the text's bytes, `parse.rs`
    computes exactly that; `wellformed.rs` proves the shape of every parse
    (spans on character boundaries, cells tiling rows, rows in text order).
  - `render.rs` — compact / aligned / converted rendering and column widths.
  - `edits.rs` — minimal single-replacement diffs and edit application.
  - `position.rs` — byte offsets ↔ `(line, character)` positions in UTF-8,
    UTF-16 and UTF-32 units, with the round-trip and clamping laws.
  - `document.rs` — open documents and the store keyed by URI.
  - `features/` — diagnostics (parse errors, ragged rows) and code actions
    (pad rows, align, compact, reinterpret, convert, quote, column edits),
    collected in a registry with kind filtering.
  - `session.rs` — encoding negotiation, the set-dialect command, the
    code-action round trip that lets an applied conversion switch dialect,
    and column highlights.
  - `text.rs` — UTF-8 facts and string helpers shared by the modules.
  - `reparse.rs` — what parsing a rendering gives back: the layout laws
    (compact undoes align, both idempotent, align ⇄ compact round trip,
    values kept, lossless conversion).
  - `repair.rs` — the pad fix-all repairs every short row.
  - `insertion.rs`, `deletion.rs`, `cleanliness.rs` — what adding or
    deleting a column does to a table (one cell more or less per row,
    every other value kept); clean files stay clean.
  - `quoting.rs` — quoting cells keeps every value.
  - `round_trip.rs` — deleting a column just added restores the text,
    also through the column actions at the cursor.
- `app/` — the stdio LSP binary: message plumbing and protocol-type
  conversion around the library.
- `tests/` — behavioural tests of the library.

## Checking

Every function in `src/` carries a contract; `verus` checks them all. The
display width of text comes from the `unicode-width` crate and URI syntax
from `lsp-types`; the library relies on them through small wrappers whose
contracts name what those crates compute.

## Collections

The document store and the pending conversions are kept in `Vec`s: they
are keyed by URI strings, for which vstd's specification of `HashMap`
proves nothing about lookups, so they are vectors whose invariant is that
no URI occurs twice. The rows with parse errors are a `HashSet<usize>`.

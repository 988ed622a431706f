# seren_prosemirror

A verified library for the ProseMirror JSON documents of Seren projects: it
converts between GitHub Flavored Markdown and ProseMirror JSON, between
Org-mode and ProseMirror JSON, validates documents against the shared schema,
and extracts plain text. Every function in `src/` carries a contract.
Verus proves all of them except those of the few wrappers around outside
calls, which it believes (see below).

## Layout

- `src/json.rs`: the owned JSON tree (`JsonValue`) and its model (`JsonSpec`).
- `src/schema.rs`, `src/text.rs`: validation and plain-text extraction.
- `src/attachment.rs`: attachment URIs and the upgrade of standalone
  attachment links to attachment nodes.
- `src/md_events.rs`: the Markdown parser's event stream as plain values.
- `src/md_model.rs`, `src/md_parse.rs`: the document an event stream
  describes, stated one event at a time, and the builder proved against it.
- `src/md_source.rs`: reading blank lines, indentation and code spans from
  the Markdown source around an event.
- `src/md_escape.rs`, `src/md_blocks.rs`, `src/md_inline.rs`,
  `src/md_render.rs`: ProseMirror to Markdown.
- `src/org_text.rs`, `src/org_inline.rs`, `src/org_model.rs`,
  `src/org_parse.rs`, `src/org_render.rs`: Org-mode in both directions.
- `src/lines.rs`, `src/strs.rs`, `src/error.rs`: shared helpers and errors.
- `app/`: the `serde_json::Value` interface and the `thiserror` error type
  around the library.

## Trusted boundary

Calls into `pulldown-cmark` (the Markdown parse), `uuid` (UUID syntax) and a
few `std` string functions stand behind `#[verifier::external_body]` wrappers
whose contracts are believed; their doc comments say what each claims. The
Markdown parse and Unicode case and alphanumeric tables are named by
uninterpreted spec functions, so contracts speak of their results exactly
without restating them.

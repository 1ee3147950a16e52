# email-cli

Makes `.eml` files legible to agents and shell pipelines: one message becomes a
schema-versioned JSON record (identity fields, body text split into fresh and
quoted fragments, MIME parts with path ids, headers, diagnostics), a batch of
files becomes a list of records or a set of reconstructed threads.

The library in `src/` is written in Verus. Its functions carry `requires` /
`ensures` contracts over spec functions and are proved; the laws that relate
several functions stand as public proof functions.

## Layout

- `src/dto.rs` – the records and options.
- `src/text.rs`, `src/encode.rs` – character-level helpers, byte offsets,
  decimal and hexadecimal text, SHA-256 (through `sha2` and `hex`).
- `src/mime.rs`, `src/model.rs` – the MIME structure reported by `mail-parser`,
  read through small trusted accessors into a plain model.
- `src/fields.rs`, `src/message.rs` – header fields, part ids, parts, body
  alternatives and the full message record; part extraction.
- `src/quote.rs`, `src/body.rs` – quote detection, fragments, truncation.
- `src/render.rs` – prompt-ready text for a message or a thread envelope.
- `src/order.rs`, `src/graph.rs` – stable ordering and connected components.
- `src/thread.rs`, `src/threads.rs`, `src/envelope.rs` – thread graph, thread
  groups, parent resolution, depths, thread summaries and envelopes.
- `src/batch.rs` – a batch of input files and its diagnostics.
- `src/record.rs` – a record's content as plain values, and the law that it
  is determined by the bytes and options it was parsed from.
- `src/cli.rs` – the decision to print help.
- `app/` – the command-line program: arguments, file and stdin I/O, JSON
  output.
- `tests/` – behaviour tests run against the compiled library.

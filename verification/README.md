# chip_as_text

A verified parser for chip and memory descriptions written as text, with a canonical
text and a BLAKE3 hash of the parsed form.

- `src/text.rs`: character-sequence primitives (trimming, splitting, searching,
  number parsing) with their specifications.
- `src/model.rs`: `Definition`, `Module`, `Instance`, `MemoryBlock` and their views.
- `src/parser.rs`: `parse`, specified as a fold of a one-line step over the trimmed,
  non-blank lines.
- `src/canonical.rs`: escaping, `canonical_text`, `canonical_hash`.
- `src/imports.rs`: the decisions of resolving `IMPORT` lines, as a state machine that
  asks its caller to read and locate files.
- `src/laws.rs`, `src/parse_laws.rs`, `src/resolve_laws.rs`, `src/canonical_laws.rs`:
  properties proved for all inputs.
- `app/`: the command-line program; it reads files and runs the import walk.

# syon

SYON (Safe YAML Object Notation) parser, with machine-checked contracts.

- `src/` — the library, every item verified:
  - `text` — strings as character sequences: Unicode white space, trimming,
    `str::lines`, UTF-8 widths, decimal rendering.
  - `preflight` — text-level rejection of `---` and `...` lines, `?` keys and
    flow collections.
  - `comments` — extraction of `# ` comments.
  - `events` — the YAML event stream read from `saphyr-parser`.
  - `receiver` — builds the value from the events and rejects anchors, aliases,
    tags, `---`, block scalars, non-scalar keys, bare reserved-word keys and
    duplicate keys.
  - `parser` — `parse_document`, literal blocks, `ParseError`.
  - `lexer` — the token-level lexer (`tokenize`, `find_key_colon`); it rejects
    tabs in indentation and bare reserved-word keys.
  - `json` — indented JSON rendering of a value.
  - `json_reader` — a reader of JSON text and the proof that the rendering
    reads back as the value.
  - `laws` — properties of the parser as a whole.
- `app/` — the `syon` command, the C interface and the Python module.
- `tests/` — tests of the library.

# kiss_conformance

Reference codecs, readers and checks for the KISS interface standards,
written in Verus: every public function states its behaviour in
`requires`/`ensures` over mathematical models, and Verus proves the code
against it.

Layout of `src/`:

- `announce`, `contract`, `structure_key`, `opattrs`, `shape_expr`, `grammar`,
  `decomp_grammar`, `dispatch`, `dispatch_expr` — the wire codecs and
  readers, each with a typed decline for every malformed input and
  round-trip laws between encoder and reader;
- `hp` (with `hp::consts`, `hp::reduction`) — the wide binary floating-point
  core: correctly rounded add, sub, mul, div and the rounding to binary64 and
  binary32 with its Ziv certificate;
- `json`, `corpus`, `namespace_vocabulary`, `opattrs_schema`,
  `expressibility` — the JSON reader and the artifact and manifest checks
  built on it;
- `text`, `wire` — the character and little-endian helpers the rest share.

`tests/` runs the library on concrete vectors.

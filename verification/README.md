# jsonb

A verified library for binary JSON: it parses JSON text straight into a compact binary encoding,
and it reads and writes the key paths that address values inside a document.

`src/` is the library, proved by Verus:

- `grammar` says what JSON texts there are in the two dialects, standard and extended, and what
  each denotes; `value`, `number`, `bytes` and `order` say how a value is encoded.
- `scan`, `escape`, `sort`, `writer` and `parser_direct` do the work, and are proved against it.
- `keypath`, `canonical`, `keypath_parser` and `text` hold key paths, their canonical form and the
  syntax they are written in.
- `laws`, `extent`, `dialects` and `lossless` state what holds of the whole: a path is read back
  from its canonical form, equal keys are refused, the order of members does not matter, an
  encoding tells its value, and so on.
- `plain`, `moved`, `layout` and `spelling` do so of texts: white space between tokens, the order
  of the members of an object and the quotes around its keys and strings leave no trace in the
  encoding.
- `int256` is the boundary to the `ethnum` crate.

The library holds no floating-point numbers. Where a literal denotes one, the parser answers with
the list of such literals (`Parsed::NeedsFloats`); the caller converts them, puts their bits in a
`FloatTable` and parses again. `app/` does that with `fast_float2`, and adds `serde` and `Display`
to copies of the key path types.

# ts_macro

Embedding TypeScript in Rust with a `ts_block!` macro. A build script scans
the crate's sources for `ts_block!({ ... })`, records each body, and writes a
TypeScript module that defines one function per body and runs the one named
on its command line; the macro side names the same function from the body's
tokens.

The library (`src/`) is verified with Verus:

- `lexer`: a small Rust lexer over a character buffer (whitespace and nested
  comments, identifiers, string, byte-string, character, byte and raw-string
  literals), with cursors that track byte offset, line and column.
- `scan`: finding a delimiter while skipping literals and balanced brackets.
- `finder`: the `Parser` that records the closure of every `ts_block!` of a
  file; its contract is the scan `scan_macros` over the file's text.
- `closure`: closure signatures (the body without whitespace), their hashed
  names, and the grammar of a macro's contents.
- `generate`: the TypeScript module and the build script's warning lines.
- `laws`: properties that span these operations.
- `outside`: the calls into other crates, each with the contract relied on.
- `text`: UTF-8 widths, line and column counts, whitespace, decimal text.

`app/` holds the file and environment handling of the build script, the
expansion of the derive behind the macro, and the format-argument parser.

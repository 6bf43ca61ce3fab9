# i3_lsp

A language server for i3 window-manager configuration files, with its
logic verified by Verus.

- `src/` — the verified library:
  - `parser.rs`: the line grammar of i3 configurations (comments, `set`
    variables, `bindsym`/`bindcode` bindings, `exec` commands, `mode NAME {`
    blocks read recursively up to their `}` line, other text, empty lines),
    specified as functions on character sequences, with proofs
    that every accepted line moves the reader forward, that documents with
    `\n` or `\r\n` line breaks are read whole, and that binding keys and
    modifiers rejoin to the key combination as written;
  - `text.rs`: Unicode whitespace, trimming, UTF-8 widths, joining, decimal
    numbers, and the few std calls the library needs (alphanumeric
    classification, lower-casing, `String::push`);
  - `lsp.rs`: the diagnostics published for an open document and the
    completions offered;
  - `diagnostics.rs`: the checks on a parsed configuration: key bindings
    bound more than once within their scope (each repeat points at the first
    binding; a mode block's bindings are in a scope of their own and carry
    their line numbers in the document), and variables used in bindings but
    never set;
  - `line_locality.rs`: proofs that a line reads the same wherever its
    characters stand, so that a document split after a line feed, with no
    mode block opened before the split, reads as its two parts one after the
    other;
  - `analysis/diagnostics.rs`: warnings for key bindings bound more than once;
  - `report.rs`: the diagnostic type these checks return.
- `tests/`: scenario tests, and a differential test that runs the same
  grammar written with nom's combinators against the library.
- `app/`: the server itself (tower-lsp, tokio, tracing), which converts the
  library's diagnostics and completions into LSP messages.

## Lookup tables

The checks remember which binding names and variables they have seen in
plain `Vec`s that they search from the front, not in `HashMap` or
`HashSet`. vstd specifies those hash collections only for key types that
satisfy `vstd::std_specs::hash::obeys_key_model`, which it establishes for
integers, `bool` and boxes of them, but not for `String`; with `String`
keys nothing about their contents could be proved without assuming that
property. A vector keeps the first line of each name exactly, and the
contracts say so.

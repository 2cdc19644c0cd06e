# wasm_fuel

A decoder for the WebAssembly binary format, verified with Verus.

`parse` turns any byte string into a `Module` or into a `ParseError` that says what broke and
at which offset. A `Module` answers questions about its function index space and its exports.

The contract of `parse` is `grammar::module`, which says what a byte string means piece by
piece. The proofs around it show, among other things, that

- exactly the byte strings with a proper header, ordered sections and well-formed content
  decode (`structure`);
- a module written in a plain encoding, where that can hold it, decodes to itself (`encoding`);
- the offset of an error lies in the input (`bounds`);
- a section means the same wherever it stands, and custom sections may stand anywhere
  (`locality`);
- skipped sections bear on nothing but the record of their presence (`skipping`).

One thing is taken on trust: which bytes `core::str::from_utf8` accepts and which string it
returns for them.

`app/` gives the library's values the standard `Display` and `Error` traits.

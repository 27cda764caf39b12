# iana-gen

A generator of Rust bindings for IANA protocol registries, with its logic
verified by Verus.

- `src/` is the verified library: command-line parsing (`cli`), discovery of
  registry groups on the IANA index and the bookkeeping of downloads
  (`fetch`), reading XML snapshots and the discovery catalog (`snapshot`,
  over the plain document trees of `xml`), the Rust source written for each
  group (`render`, `names`, `values`), the runtime lookups of the generated
  registry types (`tables`, `registry`), and the text, number and order
  operations these rest on (`text`, `numbers`, `order`).
- `app/` is the command-line tool around it: file and network I/O,
  download threads and retries, and `rustfmt`.
- `tests/` runs the library on concrete inputs.

Run the tool with `iana <discover|fetch [GROUP...|--all]|update [GROUP...|--all]|generate|check>`.

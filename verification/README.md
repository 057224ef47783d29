# evidence_packet

Packages a directory of evidence artifacts with their sizes, SHA-256 hashes,
risk flags, the declared claim, its scope and limitations, and a boundary note
that says what the packet does not establish.

Layout:

- `src/` — the library, verified with Verus:
  - `text.rs`: characters, ASCII case folding, white space, searching, joining;
  - `risk.rs`: file names of paths, risk flags, directories a walk skips;
  - `scan.rs`: ordering found files by path, relative paths, SHA-256 hex
    digests, and the scan that turns found files into artifact records;
  - `packet.rs`: the packet, its options, its errors and their messages;
  - `markdown.rs`: table-cell escaping and the Markdown rendering.
- `app/` — the `evidence-packet` command: argument parsing, walking the
  directory, reading files, the clock, and writing JSON and Markdown.
- `tests/` — tests of the library on concrete values.

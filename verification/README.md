# binate

Semantic comparison of two builds of a binary, for checking that a build is
reproducible.  Known sources of non-determinism (build identifiers,
timestamps, host paths, tool banners) are masked before the sections of the
two builds are compared byte by byte; every differing range is attributed to
the symbol that owns it, and each changed symbol is located in the source
through DWARF.

Layout:

- `src/` is the verified library:
  - `ranges.rs`: the scan for differing byte ranges and its laws;
  - `normalize.rs`: the normalizers, the chain that applies them, and its laws;
  - `symbol.rs`: the address-ordered symbol table;
  - `binary.rs`: the tables of a parsed binary (read with `object`);
  - `diff.rs`: matching sections, diffing them and attributing ranges;
  - `dwarf.rs`: source locations from DWARF line programs (read with `gimli`);
  - `disasm.rs`: x86 listings (decoded with `iced-x86`);
  - `report.rs`, `listing.rs`, `text.rs`: the text the tool prints.
- `app/` is the command-line program: file mapping, parallel section
  diffing with `rayon` (put together by `SemanticDiff::assemble`, which
  gives what `SemanticDiff::compare` gives), JSON output and argument
  parsing.
- `tests/` runs the library on concrete inputs.

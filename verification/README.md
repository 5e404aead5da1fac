# map_segments

`cargo map-segments` shows how the sections of an ELF binary are laid out
across the memory regions that a GNU linker script (`memory.x`) defines.

## Layout

- `src/` is the library, written in Verus and verified:
  - `memory_map/`: the `memory.x` tokenizer, the `ORIGIN`/`LENGTH` expression
    evaluator and the `MEMORY { .. }` parser, each proved equal to a
    specification of the format;
  - `sections.rs`: which sections of an object file are kept, sorted by
    address (the `object` crate reads the file);
  - `layout.rs`: the assignment of each section to the last region that
    contains it whole;
  - `render.rs`: the arithmetic and the text of the horizontal and vertical
    maps;
  - `builder.rs`, `arguments.rs`: the arguments of `cargo build`, the choice
    of artifact, and the reading of Cargo's fingerprint metadata
    (`serde_json` reads the JSON);
  - `text.rs`, `arith.rs`: characters, digits, padding, saturating
    arithmetic.
- `tests/` holds the tests of the library.
- `app/` is the command-line program: argument parsing with `clap`, running
  `cargo build`, file access and printing.

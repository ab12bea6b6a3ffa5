# metrowrap

A wrapper for the Metrowerks C compiler (`mwcc`) that lets C sources pull in
functions and data written in assembly through `INCLUDE_ASM` and `INCLUDE_RODATA`.
The C file is compiled once with stub bodies in place of the macros, each assembly
file is assembled with the GNU assembler, and the assembled `.text` and `.rodata`
payloads, symbols and relocations are spliced into the compiled object.

The library is written in Verus: its functions carry `requires` / `ensures`
contracts that the verifier proves.

## Layout

- `src/` — the verified library.
  - `preprocessor.rs` — finding the macro calls in C source, splitting the source
    around them, and the C stubs that stand in for each assembly file.
  - `elf.rs`, `elf/` — the ELF32 object model: reading an object from bytes,
    editing its sections and its string, symbol and relocation tables, and packing
    it back into bytes. `elf/readback.rs` proves that reading what `pack` writes
    gives back the object `pack` leaves, for an object whose tables, names and indices
    are consistent (section names from the section-name table, symbol names from the
    string table, the tables being the first of their kind) and whose file fits the
    format's 32-bit offsets; and that reading an object, packing it and reading it
    again gives back the same sections, tables and symbols (the section-name table
    regains the name that packing does not keep).
  - `splice.rs` — moving assembled payloads, symbols and relocations into the
    compiled object.
  - `compiler.rs`, `assembler.rs`, `makerule.rs` — the command lines of the two
    tools, the compiler's diagnostics and dependency files.
  - `lib.rs` — symbol escaping, the command line, `.rodata` symbol lists, relocation
    splitting, and where dependency files go.
  - `le.rs`, `text.rs`, `constants.rs`, `error.rs`, `workspace.rs` — byte and text
    helpers, names, errors, and the scratch-directory modes.
- `app/` — the `mw` program: argument parsing, files, processes, and the scratch
  directory, around the library.
- `tests/` — tests of the library.

# nso

A verified loader for NSO executables (the Nintendo Switch object format).

`Nso::new` takes the bytes of a file, checks the header, decompresses LZ4
segments when any is compressed, and otherwise reads the MOD0 header, the
dynamic section, the dynamic symbols (counted through the SysV or GNU hash
table) and applies the AArch64 `ABS64` / `RELATIVE` relocations to the image.
The loaded image translates virtual addresses to file offsets and back.

Layout of `src/`:

- `bytes.rs`   – little-endian integers in byte sequences (model and code)
- `stream.rs`  – `BinaryStream`, a byte buffer with a cursor
- `error.rs`   – the loader's errors
- `elf.rs`     – dynamic entries, symbols, tags and relocation types
- `lz4.rs`     – the one call into `lz4_flex` and what it is trusted to do
- `format.rs`  – the format as spec functions: what loading a file gives
- `nso.rs`     – the loader, proved against `format.rs`; `Nso::load` checks
                 by decoding that `Nso::new` can run before calling it
- `section.rs` – search sections grouped for later scanning
- `laws.rs`    – properties that span stages (address round trips, lengths,
                 the header of a decompressed image)

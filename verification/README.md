# pack

A lossless block compressor whose format and algorithms are verified with Verus.

- `src/codec` holds the archive format: how a block is encoded in the shortest of
  several forms, how blocks make up a layer, and how layers make up an archive.
- `src/kernel` holds what the block forms rest on: topology analysis, the
  compilers from a topology to a key, and the reversible word operators.
- `src/fwht.rs`, `src/keygen.rs`, `src/operator.rs`, `src/encoder.rs` and
  `src/decoder.rs` are the layered encoder with its spectral operator.
- `src/window.rs` and `src/metagenerator.rs` encode single windows.
- `src/command.rs` reads the command line.
- `app` is the program around the library: files, printing, and what needs
  floating point.

Public proof functions named `law_...` state what holds of the library as a
whole; the first to read is `law_compress_roundtrip` in `src/codec/layers.rs`.

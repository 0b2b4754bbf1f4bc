# sevenz_writer

A verified library that writes 7z archives, with the BCJ2 filter for x86 code.

- `src/codec` – the BCJ2 encoder and its range coder, with the decoder as a specification: what the
  encoder splits, the decoder joins again.
- `src/wire.rs` – how the header spells numbers, bits and names, each with its reader.
- `src/encoder_options.rs`, `src/encoder.rs` – the coders, their settings and what an archive keeps
  of these; running a stream through a chain of them.
- `src/writer.rs` and `src/writer/` – the archive writer, blocks compressed away from it, the header
  and its parts, adding to an archive, how a reader takes a whole archive back, and that it finds
  what was pushed.
- `src/text.rs`, `src/error.rs`, `src/checksum.rs`, `src/archive.rs` – what the rest is made of.
- `app/` – the same writer on files and other outputs.
- `tests/` – the library at work, read back by a reader that knows nothing of it.

LZMA, LZMA2, AES-256, SHA-256, CRC-32 and random numbers come from other crates. What is taken for
granted of them stands in the contracts of the functions in `src/encoder.rs` and `src/checksum.rs`
that call them. CRC-32 is spelt out; of the coders it is only said that they do not fail on what they
take, and that what they make depends on the data and the settings.

The library does no input or output. A source is handed to it as the bytes that were read and the
error that ended the reading, if any; the bytes of the archive are taken from it as they are made, and
the signature header last.

# lzvn

A length-tolerant decoder for Apple's LZVN compression format, written in Verus.

- `src/spec.rs` models the format: the opcode table, one step of decoding,
  and `lzvn_decode`, the result and the bytes written for a block and a
  buffer size.
- `src/decoder.rs` holds `decode_into` and `decode`, whose contracts state
  that they return and write exactly what the model says.
- `src/laws.rs` proves properties of decoding as a whole: bytes after the
  end-of-stream opcode are ignored, the buffer size only decides whether
  decoding succeeds, decoding stops at the end-of-stream opcode and at an
  undefined opcode, and every error describes its failure.
- `src/error.rs` holds `Error` and the text that describes each error.
- `app/` adds `Display` and `std::error::Error` through a thin wrapper type.

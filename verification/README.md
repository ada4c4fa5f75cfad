# pdf_core

The decision-making core of a PDF reader and editor, written in Verus: every
function in `src/` carries a contract that the verifier proves.

What is in the library:

- `pdf/` — reading a classic PDF file (objects, cross-reference tables,
  trailers), rewriting objects in place, stripping hidden data, encrypting
  with the standard security handler, preparing and filling signatures and
  timestamps, building the detached CMS signature, reading a signature's CMS
  structure and judging it, CMaps and embedded TrueType fonts.
- `render/` — pixel buffers, the byte-budgeted page cache, and the image
  encoders for export.
- `engine.rs` — drawing pages through the cache, prefetching, invalidation.
- `registry.rs` — open documents behind handles that are never reused.
- `ocr/` — the arithmetic of OCR preparation: tiling, thresholds, scripts.

Where the work is done by another crate (`sha2`, `aes`/`cbc`, `flate2`,
`p12`, `cms`/`x509-cert`/`der`, `rsa`, `image`), the call sits behind a small
trusted function whose contract says what that crate's source shows, and the
logic around it is verified against that contract.

`app/` holds what the verifier does not see: the network, the clock, the
JSON that crosses to the host application, and the parts that compute in
floating point (the `/ByteRange` numbers as readers read them, stroke
recognition, font metrics), which hand the library plain values. `tests/` runs the library with the real outside crates linked.

Not here: the editing history (executing, undoing and redoing edits, and
saving them) and the sealed-document format with its own ciphers. Neither is
part of this library.

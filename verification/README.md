# jabcode

A JAB (Just Another Bar) color barcode codec whose core is verified with Verus.

Bytes are protected by a systematic LDPC code, cut into modules of
`log2(colors)` bits, laid out in a square symbol with four finder patterns,
alignment patterns and a metadata strip (palette pattern and payload length),
and rendered as an RGBA image. Decoding locates the finder patterns, samples
the module grid and reads the codeword back.

## Layout

- `src/` — the verified library.
  - `bits.rs` — the bit buffer and the bit/byte models used by every contract.
  - `color.rs` — palettes and nearest-color classification.
  - `config.rs` — color counts, error correction levels, configuration, capacity.
  - `encoder/` — LDPC code (`ldpc.rs`), patterns and metadata (`pattern.rs`),
    symbol construction and rendering (`matrix.rs`), counting of reserved cells
    (`capacity.rs`), and the encoding pipeline (`mod.rs`).
  - `decoder/` — finder pattern detection (`detect.rs`), sampling (`sample.rs`),
    and the decode jobs read from a matrix or an image (`mod.rs`).
- `tests/` — tests run against the compiled library.
- `app/` — the command-line program, the C interface, the GPU renderer and the
  floating-point soft decoder (min-sum belief propagation), which call the
  library.

## What is proved

Besides the contract of every public function, the library proves, among
others: a clean codeword passes every parity check and a single flipped bit is
always caught; encoding is linear over GF(2); the parity check matrix lists
each entry once by row and once by column; a symbol has room for all its
modules, and is at least 33 modules wide so that the 16-bit length field
(row 1, columns 8 to 23) stays clear of the top-right finder pattern; sampling
the render of a symbol on its own grid gives back its data modules (when they
are palette colors) and its stored length modulo 2^16; reading an encoded
symbol (or its render) back gives a codeword that passes every check and
begins with the payload; where no other module-aligned window of a render (of
any side from 21 up) reads as a finder pattern, the search reports the four
corners, each pattern in its own slot, and locates the grid the symbol was
drawn on; palette colors are pairwise far apart and read back as their own
index.

# tspine

T-Spine Code (TSC): a 2D matrix barcode with a roof-and-spine finder, 2, 4 or 8 colours per
cell, Reed-Solomon error correction, zstd compression, Fernet encryption and HMAC signatures,
and an acoustic FSK modem for the same packets.

## Layout

- `src/` — the library, verified with Verus.
  - `gf.rs`, `poly.rs`, `distance.rs`, `rs.rs`: GF(256) arithmetic, polynomials, Hamming
    distance and the minimum distance of the code, block-wise Reed-Solomon encoding and
    error-correcting decoding.
  - `crypto.rs`: key derivation, Fernet tokens and HMAC tags over the `sha2`, `hmac`, `aes`,
    `cbc`, `base64` and `rand` crates.
  - `payload.rs`: the byte layout of a code's content (headers, flags, signature, length
    fields, dual payloads) and its unpacking.
  - `grid.rs`, `encoder.rs`, `decoder.rs`: the cell layouts, the encoder and the decoder.
  - `export/`: SVG, HTML inspector, terminal, raster image and modem symbols.
  - `scanner/`: the integer stages of reading pictures and sound: palette calibration, cell
    classification, layout checks, binarisation and contour tracing, demodulation.
  - `service.rs`: the decisions of the code server.
- `app/` — the server and everything that does I/O or works in floating point: HTTP and
  WebSocket handlers, image and WAV files, projective sampling of photographs, FFT peak
  finding, video frames.
- `tests/` — tests of the library.

# transmitwave_core

An audio modem that sends bytes as multi-tone FSK (or DTMF) sound, with its
byte-level protocol written in Verus and proved.

## Layout

- `src/` — the verified library:
  - `framing`, `chunking`, `transport`: frames with CRC-8/CRC-16, chunk headers,
    length-prefixed Reed-Solomon protection with the FEC mode detected on receipt;
  - `fec`: the Reed-Solomon block code (parity and erasure repair from
    `reed-solomon-simd`);
  - `fsk`, `dtmf`: how bytes map to tones and symbols, and where the data lies in a
    received recording;
  - `symbol_redundancy`: a (6, 4) Reed-Solomon code over GF(16) on nibbles that
    corrects one wrong nibble per group;
  - `trellis`: the rate-1/2, K = 7 convolutional code and its Viterbi decoder;
  - `fountain`: RaptorQ fountain blocks, the sender's packet schedule and the
    receiver's decisions (packets from `raptorq`);
  - `encoder_chunked`, `decoder_chunked`: repeated, individually protected chunks;
  - `block_frame`: a single frame sent as full-parity Reed-Solomon blocks of bits;
  - `fhss`, `sync`, `fft_correlation`: hop pattern, Barker code, correlation layout;
  - `service`: base64 payloads of the HTTP service and the command-line mode choice.
- `tests/`: tests of the library.
- `app/`: the `transmitwave` command and HTTP server, and the floating-point signal
  processing (chirps, tone synthesis and detection, resampling, FFT correlation).

Each module states its results as `ensures` over spec functions; the round-trip
properties (frame, FEC block, protected payload, DTMF symbols, chunk split, nibble
parity code, fountain block, chunked frame, block stream) are public proof functions.

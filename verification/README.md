# radio

The link layer of a software-defined radio, written in Verus: every
function under `src/` is proved against its contract, except the few that
call into outside crates, whose contracts are assumed (`src/buf.rs` and a
handful of wrappers beside their callers).

- `src/dsp/viterbi`: a rate-1/2 convolutional encoder and two Viterbi
  decoders (the second shares path tails through `Rc`).
  Decoding what was encoded gives the input back.
- `src/dsp/wtf_ecc`: a byte code that sends each byte three times (plain,
  inverted, and xored with the byte before) and decodes by a bitwise majority
  vote; it corrects any corruption in which no bit is wrong in more than one
  of its three copies.
- `src/frame.rs`, `src/pipeline/frame`: frame layouts (header, length,
  payload).
- `src/pipeline/ident_search`: finding the frame identifier at any bit offset
  of a byte stream, and capturing the frame that follows it.
- `src/rx_handling.rs`: the bit-by-bit receiver that waits for the identifier
  (plain or inverted), reads the length and records the frame.
- `src/buf.rs`: the `bytes` buffers the library uses.

`app/` holds the program around the library: the radio driver, the
floating-point modulation and plotting, threads and channels. `tests/` runs
the library on concrete values.

# wavpack_rs

A WavPack lossless audio decoder, verified with Verus. It decodes `.wv` files
(version 4.x format, mono and stereo, all lossless compression modes) to raw PCM
samples.

```rust
let mut reader = WavPackReader::new(ByteReader::new(bytes))?;
let info = reader.info();
let samples = reader.decode_all()?;
// samples[0] = left channel, samples[1] = right channel (if stereo)
```

## Layout

- `src/source.rs`: a byte source in memory
- `src/header.rs`: block headers and metadata sub-blocks
- `src/bitstream.rs`: LSB-first bitstream reader
- `src/entropy.rs`: adaptive entropy decoder (three medians, zone coding)
- `src/decorrelation.rs`: decorrelation passes, joint stereo
- `src/block.rs`: one block, from its sub-blocks to its samples
- `src/reader.rs`: a whole file
- `src/error.rs`, `src/text.rs`: errors and their texts
- `src/arith.rs`: two's complement arithmetic
- `src/coding.rs`, `src/lossless.rs`: an encoder as spec functions, and the proof
  that decoding gives back every sample
- `app/`: opening files, an `Iterator` over samples, `std::error::Error`

## Conventions

Arithmetic on samples, medians and counters is modular, as on the machine: a
contract states the exact integer and then the word that it wraps to. The
distance of a shift counts modulo 32. Data behind the end of a bitstream reads as
zeros.

A block whose samples do not have the checksum in its header is an error; reading
can go on behind it.

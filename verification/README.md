# brstm

A decoder for BRSTM files, the streamed audio of Wii games: a big-endian container around 4-bit
ADPCM. The library is written in Rust and verified with Verus.

- `src/util.rs` reads big-endian integers.
- `src/records.rs` holds the container's records and says which bytes each is read from.
- `src/parse.rs` parses single records, `src/decoder.rs` a whole file.
- `src/adpcm.rs` decodes one block of one channel, `src/section.rs` all blocks of all channels.
- `src/wav.rs` puts decoded samples in the order of a WAV file.
- `src/error.rs` names what can be wrong with a file.
- `src/laws.rs` proves what holds of the decoder as a whole.

The functions that decode do not test whether a file is cut short, names coefficients that do not
exist, or drives the predictor out of its 32-bit range: they require that it does not. `check_bounds`
and `check_brstm` decide that for any bytes.

The program in `app/` decodes a file into `test.wav`.

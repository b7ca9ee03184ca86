# kv_squeeze

KV cache compression for LLM inference on memory-constrained devices, as a library
that Verus verifies and a command around it.

- **Quantization** (`src/quantize/`): FP16, FP8 (E4M3) and INT4 with a scale for each
  group, and the round-trip accuracy of each.
- **Eviction** (`src/eviction.rs`): sliding window with attention sinks, H2O (heavy-hitter
  oracle) and a random baseline.
- **Simulation** (`src/simulator.rs`): projected cache sizes for the 7B, 13B and 70B presets
  against a memory budget.
- **Command** (`src/cli.rs`, `app/`): what the commands read, compute and show; the terminal
  itself is left to `app/`.

## Numbers

Numbers are held as their IEEE 754 bit patterns (`Binary16`, `Binary32`, `Binary64`), and
`src/float/` computes on the patterns with integers. Every finite magnitude of a format is a
whole number of its least positive magnitude, so that contracts speak of rounding over the
integers: `Format::is_nearest` says what the nearest number is, and every operation is proved
to return it. A native number becomes a pattern with `to_bits` and comes back with
`from_bits`.

`src/float/decimal.rs` reads decimal text of any length and rounds it once, to nearest.

## Contracts

- Each function returns exactly what its `ensures` says; `requires` only leaves out sizes that
  do not fit in `usize`, group sizes of 0, and packed data that lacks bytes.
- Proof functions named `law_...` state what holds of the library as a whole: that encoding
  undoes decoding, how far a round trip takes a number, that sinks are never evicted, that
  with eviction every configuration fits its budget.
- `rayon` and `rand` are called through `src/parallel.rs` and the shuffle in
  `src/eviction.rs`; what is taken for granted of them, and of `str::to_lowercase` in
  `src/text.rs`, stands in the contracts of those wrappers.

## Usage

```
kv-squeeze bench --heads 32 --dim 128 --seq-len 4096 --method fp8
kv-squeeze compare --heads 32 --dim 128 --seq-len 4096
kv-squeeze simulate --model 7b --context 8192 --budget 2gb
```

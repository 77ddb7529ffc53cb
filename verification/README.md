# elias_fano

Windowed rank/select over the packed upper bit array of an Elias-Fano encoding, verified with Verus.

- `src/bits.rs`: the model. Bit strings are `Seq<bool>`; `count` is rank, `is_nth` and `is_select`
  say what select answers.
- `src/buffer.rs`: what is trusted of `vortex_buffer::BitBuffer`.
- `src/words.rs`: masking and select within a byte or a 64-bit word.
- `src/load.rs`: reading an unaligned run of bits out of packed bytes.
- `src/select.rs`: `select_range` and `select_zero_range`, and the walk they share.
- `src/laws.rs`: what holds of select as a whole.

`select_range` and `select_zero_range` require `start <= end <= buf.len()`. Callers that have not
established that use `checked_select_range` and `checked_select_zero_range`.

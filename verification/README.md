# phonk

Monophonic pitch detection by bitstream autocorrelation, written in Verus.

- `src/lib.rs` — the detector `Phonk<N, W, L>`: construction and its errors, the
  zero-crossing bitstream of a batch, its autocorrelation, and the composed integer
  detection step `detect_lag`.
- `src/bitstream.rs` — the mathematical model: hysteresis state of each sample, packing into
  64-bit words, and the autocorrelation at a lag as the Hamming distance between the stream
  and itself shifted by that lag.
- `src/lag.rs` — the trough search that picks a period from the correlation curve, specified
  as a fold over the windows of the curve.
- `src/edges.rs` — the zero crossings that bound one period, used for sub-sample refinement.
- `src/ring.rs` — a fixed-size ring buffer for batch pushes; its view is the window of the
  last `N` values.
- `src/executor.rs` — the executor abstraction for spreading work over threads.
- `app/lib.rs` — audio decoding (symphonia), the `phonk!` constructor macro, and the
  floating-point side of `run`: classifying samples and interpolating the pitch.

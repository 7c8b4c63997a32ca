# rtkit

A toolkit for robotic and camera systems, written in Verus: the library's
logic is stated in `requires`/`ensures` contracts and proved.

## Layout

- `src/rhythm/` — fixed-point rhythm generation and synchronisation
  (Q8.8 BPM, 16-bit phase, sine table), the 16-byte wire message, and the
  state machines of the UDP multicast sender and listener.
- `src/pixfmt/` — Jetson CSI RAW10/RAW12 sample formats and in-place
  conversion of T_R16 buffers.
- `src/bitflip.rs` — bit-flip fault injection, reproducible from a seed (from the clock when none is given).
- `src/healed/` — self-healing storage: SEC-DED protected frames, triple
  modular redundancy, Reed-Solomon records, compression, and a rolling
  vault over storage slots with its memory backend.
- `src/hlac.rs` — binary higher-order local auto-correlation features.
- `src/rttrace.rs` — the file writes that control real-time tracing.
- `src/rawproc.rs` — Bayer colour masks.
- `src/plugin.rs`, `src/esn.rs` — the plugin interface and the
  non-numeric vocabulary of the echo-state-network classifier.
- `app/` — what stays outside the verified library: file and socket
  backends, trace file I/O, typed storage through bincode, error
  messages, and the floating-point models (ESN, FIR filter, MLS-MPM).
- `tests/` — tests of the library.

# humctrl

Pitch detection on live audio, used to switch lights by humming.

- `src/` is the verified library: zero padding and halving of spectra, and
  `Rotation`, the sliding window through which audio samples are read. Its
  contracts describe every step exactly over `RotationModel`. The laws in
  `src/stream.rs` prove that the first window is the first `width` samples
  read (`law_first_window`); that, when `jump` divides `width`, every later
  window is the latest `width` samples read and consecutive windows overlap
  by `width - jump` (`law_windows_latest`, `law_push_window`,
  `law_windows_slide`); that the first window comes after `width` samples
  and each later one after exactly `jump` more (`law_window_count`); and
  that a window comes within `jump` reads of at least one sample
  (`law_window_within_room`, `law_every_read_a_window`).
- `app/` holds what Verus does not check: the `f32` transforms, the
  PortAudio stream (`IStream`), and the three programs.
- `tests/` exercises the library on concrete values.

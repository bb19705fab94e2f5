# lf_engine

The engine of a loop station, in Verus: five lanes on one master loop, recorded, overdubbed, undone,
reversed, copied, saved and loaded while they play.

- `src/` is the library. Everything that decides what sounds on which frame stands there, with its
  contract and its proof: the grid, the clock, the looper and its block jobs, the command table, the
  block split, the plugin slots' protocol, sessions, the effects' and instruments' settings, and the
  discrete parts of the sound (automation timelines, schedules, voice allocation, convolution stages).
  Samples are opaque bit patterns there.
- `app/` is the host around it: it opens a block, renders chunk after chunk in floating point, and hands
  back what it recorded.
- `tests/` run the library on concrete values.

What holds of the library as a whole is stated in public proof functions whose names start with `law_`;
`src/lib.rs` lists them in words.

Two outside crates are used: `rtrb` for the rings between threads (`src/rings.rs`, whose contracts are
the only unproved ones), and `rustfft` for the renderer's convolution (`app/dsp/convolver.rs`).

# organ

The playing logic of a virtual pipe organ, verified with Verus, and a program
around it that plays recorded pipes through JACK.

Registers are drawn on panels that are connected as HID devices, keys are played
on MIDI keyboards. A pipe sounds as long as some manual has its register drawn
and its key held.

## Layout

- `src/` is the verified library.
  - `player`: keys and registers, and the tasks that start and stop pipes
  - `sampler`, `sample_info`: voices, their loops and how they fade
  - `resampler`: which frames a resampled frame is made of
  - `riff_file`, `smpl`, `recording`, `le_bytes`: the loop and the pitch that a
    recording carries in its `smpl` chunk
  - `order`: the order of the registers and the names of their files
  - `console`, `stops`, `banks`: what the console remembers and how it answers
  - `hid`: the reports of the panels
  - `midi`, `ports`: which keyboard plays which manual
  - `bit_set`: sets of small numbers on top of `bitmaps`
- `tests/` runs the library.
- `app/` is the program: threads, devices, files, and everything that is computed
  in floating point.

Functions named `law_*` state what holds across several functions.

## Trusted code

The library calls `bitmaps` and `riff`. The functions that do so are marked
`#[verifier::external_body]`, and their comments say what is taken on trust.

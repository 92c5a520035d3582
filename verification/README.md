# klang

A command-line toolkit for WAV files (`info`, `normalize`, `master`, `glitch`).

- `src/` is the verified library: the integer logic of the tool, each function with a
  Verus contract.
  - `args`: the whole-number options (`--bars`, `--resolution`, `--max-length`,
    `--time-sig`), read exactly as `str::parse::<u32>` and `str::trim` would.
  - `rng`: the seeded splitmix64 generator, with the closed form of its stream.
  - `grid`: cutting bars into steps and rolling the step pattern.
  - `onsets`: picking onset frames from novelty peaks and cutting slices between them.
  - `place`: where a slice sounds in the output and which slice each template event uses.
  - `sample`: narrowing integer samples to the file's bit depth.
  - `size`: the human-readable file size that `info` prints.
  - `text`: characters, trimming, decimal numbers.
- `app/` is the program: argument handling with `clap`, WAV reading and writing with
  `hound`, and the floating-point signal processing (filters, compression, limiting,
  onset detection functions, mixing and normalisation).
- `tests/` runs the library on concrete values.

# musickbeets

The integer, text and state logic of the muSickBeets FFT analyzer, written
in Verus with its behaviour stated in `requires` / `ensures` contracts and
proved.

## Layout

- `src/` — the verified library:
  - `text`, `validation`, `labels`: characters, digits, numeric field
    validation and parsing, numbers with thousands separators.
  - `segmentation`: window lengths kept even and in range, segment and frame
    counts, frequency bins, and the local search for the window whose
    segment count is closest to a target.
  - `playback`: the playback transport and the sample each output frame of
    the audio callback plays (repeat, pause at the end, seeking).
  - `reconstruction`: frame skipping, overlap-add lengths, cropping of
    centered frames and frame boundaries.
  - `canvas`: an RGB pixel buffer with pixel, row, column, dot and
    Bresenham line drawing.
  - `status`, `panel_layout`, `memory`: the status bar (activity, timings,
    memory) and its wrapping, the geometry of the bottom panels, and the
    resident memory read from the process status text.
  - `names`: colormap, window type and effect names.
  - `fft_csv`: the FFT CSV file — reading the metadata row and grouping
    the data rows into frames, and writing the metadata row.
  - `ini`, `ini_values`, `ini_write`: the settings file — reading
    `key = value` lines, writing them, and the text of each kind of value.
- `tests/` — tests run against the compiled library.
- `app/` — a terminal program around the library: the settings file, WAV
  reading and writing, audio output, memory use read from `/proc`, and the
  floating-point parts of the segmentation solver, of time formatting and
  of computing a spectrogram (windowing and FFT) and of exporting and
  importing it as FFT CSV. Audio reconstruction,
  effects, drawing and the graphical interface are not part of this crate.

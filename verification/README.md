# skyscreen

The logic behind a small e-paper status screen, verified with Verus.

- `src/` is the library, every function with a contract proved by Verus:
  - `bits`: bit strings of packed monochrome images (flipping the n-th bit of
    a value, overlaying a mask, counting black pixels);
  - `raster`: packing pixel rows into bytes and reading them back;
  - `fade`: decoding BMP files and the random heart fade-in;
  - `effects`: per-pixel drawing effects (transparency, recoloring, mirroring,
    hash-based reveal) and the reveal schedule;
  - `presence`: the list of connected addresses, ping debouncing and the
    greeter's reactions;
  - `countdown`: reading the target moment (RFC 3339), the whole seconds
    left as `chrono` counts them, and the countdown text;
  - `temperature`: the refresh and sensor-error policies;
  - `typing`: the prefixes of a text typed out byte by byte;
  - `delay`: the delay provider type.
- `app/` is the program around it: display drivers, the simulator window,
  config files, ping processes, threads and the drawing-target adapters.
- `tests/` exercises the library on concrete values.

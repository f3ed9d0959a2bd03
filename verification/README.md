# receipt

Drives an Epson TM-T20II thermal receipt printer: text, task slips, generated
pictures and images from a command line, and what people send it over HTTP. The
part that decides is a library verified with Verus; the programs around it only
carry out what it decides.

- `src/` is the library. Its functions state in contracts what they do, and Verus
  proves them, but for the few calls that are trusted (below). It takes plain values
  and gives plain values back; it reads nothing but the clock, to seed a generator
  that was given no seed.
  - `printer`, `escpos`, `device`: the driver. Jobs are composed byte by byte, and
    the device's endpoints and status bytes are read.
  - `text`, `wrap`: text as sequences of characters, and word-wrapping.
  - `raster`: one-bit images, dithering, packing into `GS v 0` bits.
  - `rng`, `generative`, `maze`, `hilbert`: generated pieces, composed at exactly
    576 dots wide.
  - `jobs`, `slips`: the layouts of everything that is printed.
  - `server`, `gate`, `refusal`: who may print, and what they are told.
  - `linear`, `webhook`: printing an issue when a comment says `[print]`.
  - `spoken`: printing a spoken note that starts with the word "print".
- `tests/` runs the library.
- `app/` is the two programs, `receipt` and `receipt-server`: USB, files, HTTP, the
  clock, and everything in floating point.

What is trusted rather than proved: HMAC-SHA256 from the `hmac` and `sha2` crates,
which characters `char::is_alphanumeric` takes, what `String::push` does, and the
system clock.

# icy_sixel

A SIXEL encoder in Verus: it takes an RGBA image and writes the bytes that make
a terminal show it.

What is proved:

- `SixelEncoder::encode_into` appends the SIXEL of the image, or returns the
  error that its contract names and leaves the output as it was. It never panics.
- A terminal that reads the bytes shows the image: the registers hold the palette
  in percents, each opaque pixel has the register of its index, and no other pixel
  is painted.
- The RGB of transparent pixels changes nothing, a reused encoder encodes as a
  fresh one does, and an exact palette keeps every color. `src/laws.rs` has the
  rest.

The color quantizer is the crate `quantette`. `src/quantizer.rs` holds the calls
into it and what is believed of each.

- `src/` is the library.
- `tests/` runs it.
- `app/` is a front with the diffusion strength as a number and errors that
  implement `std::error::Error`.

# system_ocr

Text recognition with the recognizers that come with macOS and Windows.

`src/` is the verified library: what is decided and computed around the calls
into the system.

- `float`: floating-point numbers of 32 and 64 bits, by their bit patterns, with
  exact contracts for rounding, arithmetic and comparison.
- `geometry`: bounding boxes as fractions of the image, with rotation.
- `proportion`: why the boxes do not depend on the scale of the image.
- `text`: joining, splitting, blank text, decimal notation.
- `langs`: the languages that a recognizer is given.
- `error`, `output`, `task`: what a recognition takes and gives.
- `macos`: the loading of the sidecar library for documents, the choice between
  the two recognizers, and what their answers come to.
- `windows`: the choice of an image decoder and of an engine, and what a page of
  the engine comes to.

`app/` is the Node.js addon: it talks to Vision, to the sidecar library and to
the Windows runtime, and hands the library plain values.

The library trusts one outside call: `windows::image` asks the `file_type` crate
what the bytes of an image look like.

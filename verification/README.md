# image_stream

Progressive transmission of images. A server cuts the data of an image into steps
(`Strategy::step`); a client starts from data that holds the headers and markers of
the full data and zeros elsewhere (`generate_empty`), and merges the steps as they
arrive (`Strategy::merge`).

- `jpeg_stream`: JPEG bytes. Headers (up to the end of the SOS segment) and markers are
  kept; the bytes after the headers are sent in a seeded shuffled order, spread over the
  steps.
- `random_stream`: raw pixels, sent in a seeded shuffled order.
- `server`, `client`: the two ends, generic over a `Strategy`.
- `schedule`, `order`, `patch`, `restore`: which positions a step sends, the shuffled
  order, what merging writes, and the proof that merging every step gives the data
  back.
- `raster`, `codec`: the image type and JPEG encoding/decoding through the `image`
  crate.

`src/` is verified with Verus; `app/` is the demo program around it.

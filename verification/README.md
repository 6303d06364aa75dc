# Cove image viewer — verified core

An image viewer for 60+ formats, whose logic is a library written in Verus
and proved against its contracts; a thin Rust application around it opens
the window, reads files and talks to the network.

## Layout

- `src/` — the library. Its functions are verified against their
  contracts, except the small wrappers marked `#[verifier::external_body]`
  that call the image, HEIF, PCX, EXIF and SHA-256 crates and a few `std` text
  functions; their contracts are trusted, and each one's doc comment says
  what it claims of the outside code:
  - `text`, `paths`, `natord`, `sorting`, `browser` — text helpers, file
    extensions, natural order, stable sorting and the directory browser;
  - `decoder`, `sgi`, `xbm`, `xpm`, `pcx_image`, `animation`, `pixels` —
    format dispatch and the decoders that work on a file's bytes;
  - `metadata`, `filesize` — the info panel's EXIF lines and file sizes;
  - `autocrop` — background detection and the content crop box;
  - `cache` — the least-recently-used cache of decoded images;
  - `viewer`, `keys` — fit modes, orientation and what the keys do;
  - `updater` — version comparison, release selection and download checks.
- `tests/` — tests of the library.
- `app/` — the program: command line, window, file and network access,
  the PSD decoder (called where a panic inside it can be caught; the
  library turns its outcome into an image), and the parts
  computed in floating point (SVG, JPEG XL and RAW decoding, the focus
  crop, zoom and pan).

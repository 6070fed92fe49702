# redextract

Reads and writes the asset formats of the racing game Redline (1999), with
the format logic verified by Verus.

- `src/reader.rs`: a cursor reading little-endian integers and strings.
- `src/archive.rs`: `bgd` archives: planning an extraction (which file lies
  where, which converter it goes to) and packing files into a new archive.
  `lemma_pack_then_extract` proves that extracting a packed archive gives
  back every file.
- `src/texture.rs`: `btf` textures: reading, writing, conversion to and from
  PNG (the PNG codec itself is the `image` crate's).
- `src/model.rs`: `geo` models: reading, and conversion to Wavefront
  `mtl`/`obj` (coordinates are kept as `f32` bit patterns; `app/` prints them).
- `src/text.rs`: byte and text helpers.
- `app/main.rs`: the `redextract extract|pack` command line.

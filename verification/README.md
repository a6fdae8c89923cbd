# bevy_pixel_world (verified core)

The verified core of a pixel-world engine: world coordinates and chunk
addressing, the pixel format, the material registry, the global palette and
its lookup-table cache, the binary records of the save file (page table,
pixel body index and pixel body records), pixel bodies (image loading,
splitting into connected fragments, collider grids) and the joining of
marching-squares edge segments into contour polylines.

Layout:

- `src/` — the library, written in Verus; every function carries a contract
  that the verifier checks. The only trusted items are the LZ4 calls of
  `lz4_flex` (`src/persistence/compression.rs`) and the declarations of the
  outside error types they and the storage backends report.
- `tests/` — executable tests of the library.
- `app/` — the parts that perform I/O or work in floating point: storage
  backends over the filesystem, TOML palette configuration, building the
  RGB lookup table in OkLab/HSL/RGB space, round body shapes and record
  transforms, contour endpoint snapping, polyline simplification, polygon
  triangulation (through `spade`), and the default save directory.

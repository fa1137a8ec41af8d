# projicio

Coordinate reference data with a verified core.

- `src/` (verified with Verus): the NTv2 grid-shift file layout in either
  byte order (`ntv2`), fixed-width text fields (`text`), byte-order decoding
  (`decode`), UTM zone origins (`utm`) and the error type (`error`).
- `app/` (plain Rust): the map projections, ellipsoid quantities, NTv2
  interpolation and everything else that computes in floating point, plus
  reading a grid file from a stream.
- `tests/`: tests of the library.

# avif_decoder

An AVIF container parser and the AV1 pieces of still-image reconstruction that
stand on their own, written in Verus: every function in `src/` carries a
contract, and Verus proves the code against it.

## Layout

- `src/container/`: the ISO-BMFF container: box headers and the box tree
  (`boxes`), byte fields (`bytes`), the `meta` box and its children (`items`:
  `pitm`, `iinf`, `iloc`, `iref`, `iprp`/`ipco`/`ipma`), item properties
  (`properties`), item bytes resolved from `iloc` extents, including items built
  from other items (`payload`), the checks on the primary item (`metadata`),
  grids and alpha items (`grid`), gain-map descriptors (`gain_map`), sample
  transforms (`sample_transform`), AVIS image sequences (`sequence`) and the
  whole file (`avif`).
- `src/obu.rs`: splitting an AV1 sample into its OBUs.
- `src/av1/`: transform sizes and types (`syntax`), the inverse transforms
  (`transform`), tile groups (`tiles`), sequence headers (`headers`) and plane
  buffers (`planes`).
- `src/decoder/`: what follows the decoding of each frame: composing grids and
  alpha planes, the native crop, rotation and mirror, joining tile groups, and
  validating configurations against the container.
- `src/icc.rs`: the integer layout of ICC matrix/shaper profiles: the header,
  the tag table and the XYZ and tone-curve tags.
- `src/text.rs`, `src/error.rs`: error messages and the error type.
- `tests/`: the tests, run against the compiled library.
- `app/`: the program around the library: reading the input and reporting
  through a callback, and the floating-point colour and gain-map code.

The specifications are stated over spec functions such as `item_bytes` (the
bytes of an item), `iloc_spec` (what an `iloc` box holds), `sample_outcome`
(what an AVIS sample holds) and `grid_frame_outcome` (what composing a grid
gives). Laws that span several functions are public proof functions whose names
begin with `lemma_`.

The container parsers refuse files of more than `usize::MAX / 8` bytes with
`InvalidParam`, so that every bit position within a file fits in a `usize`.

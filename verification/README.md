# crop

Slices of a text rope, with their behaviour proved by Verus.

A rope is a tree whose leaves hold chunks of UTF-8 text and whose nodes
carry a summary (byte count, line-break count) of the text below them.
The library offers read-only views into ranges of such a tree and walks
over them by *metric*: bytes or lines.

Layout:

- `src/tree/text.rs`: summaries, the `Metric` trait (`ByteMetric`,
  `LineMetric`) and the spec functions that count units and locate unit
  boundaries in a byte sequence, with their lemmas.
- `src/tree/node.rs`: tree nodes, their well-formedness, and `Tree`, built
  from chunks or from subtrees.
- `src/tree/tree_slice.rs`: `TreeSlice`, a range of a tree; indexing,
  counting, slicing and chunk collection.
- `src/tree/units.rs`: `Units`, a double-ended walk over the units of a
  slice. Both halves keep a path from the root to a leaf in an explicit
  stack; every piece they yield is a slice of the deepest node that holds
  it (the current leaf, the node a climb up the stack stops at, or the
  deepest node of the path holding the rest of the slice).
- `src/tree/holding.rs`: which node holds a range of bytes, and the search
  for the deepest such node along a path.
- `src/tree/laws.rs`: what the walk yields, stated once for every metric:
  the units between its two ends join back into the text, a step from
  either end takes the first or the last of them, and there is one per
  unit-ending byte plus the tail after the last one.
- `src/rope/rope_slice.rs`: `RopeSlice`, the public view: bytes, chars,
  chunks, lines, slicing by byte or line range, equality with strings.
- `src/rope/graphemes.rs`: grapheme clusters, through `unicode-segmentation`.
- `src/rope/laws.rs`: how lines partition a slice.
- `src/rope/range.rs`: the start and end of a range given by its two ends.
- `app/`: range-bound slicing, panicking accessors and `Display`/`Debug`
  around the verified API.

# tsz-compress

Compression of integral time-series columns, written in Verus with its
behaviour stated in contracts and proved.

- `bits`: a growable bit buffer (held in a `bitvec` bit-vector) and read-only
  views into it.
- `delta`, `delta_zigzag`, `deltadelta_zigzag`: bit-level codes for single
  deltas, blocks of zigzag deltas, and zigzag delta-deltas, each with an
  encoder, a decoder, and a proof that the decoder reads back what the
  encoder wrote.
- `uvlq`: unsigned variable-length quantities (7-bit groups, least
  significant first), with the proof that a value of at most `w` bits comes
  back from its code, alone or at the front of a stream.
- `svlq`: signed variable-length quantities: a sign bit, a first chunk of
  six magnitude bits, then the rest of the magnitude as an unsigned
  quantity; with the proof that every value of a type comes back from its
  code.
- `v2`: the nibble-aligned column format. `halfvec` collects nibbles and packs
  them into bytes; `queue` holds zigzag codes of deltas; `encode` writes full
  values and emits tagged blocks of codes; `column` is the per-column
  compressor (`ColumnWriter`), which takes values one at a time, emits the
  most compact block whenever ten codes wait and flushes greedily at the end
  (its blocks are stated exactly as `greedy_blocks`); `row_writer` compresses
  `TestRow`s with one column writer per field, the columns tagged and packed
  together, and states that the bytes read back column by column; `decode` reads columns back;
  `roundtrip` holds the column format as spec functions and proves that a
  column in that format is read back whole, which `ColumnWriter::finish`
  states of the bytes it writes.
- `compress`: row-at-a-time compression into one bit stream (`Compressor`,
  `Decompressor`): the first row in full, the second as a delta, the rest as
  delta-deltas. Row types say what their representations are through the
  `Compress`, `Decompress`, `IntoCompressBits` and `FromCompressBits` traits;
  `lemma_stream_roundtrip` proves that one or more rows read back exactly for
  any row type that reads back what it writes.
- `rows`: the row types of the example programs; `Row` implements the row
  traits, its full row in signed quantities and its differences in the delta
  code of `delta`, and is proved to read back what it writes.

`tests/` holds the tests, run against the compiled library.

# bc-crunch

Lossless compression of BC1, BC3, BC4 and BC5 texture blocks with an adaptive
range coder, written in Verus. Every function of the library carries a
contract that Verus proves, except two wrappers around the standard
library's `sort_unstable`, whose contracts are taken on trust.

## Layout

- `src/types.rs`, `src/block.rs`: formats, errors, grid validation and
  little-endian reads.
- `src/range.rs`: adaptive frequency models, the range encoder and decoder,
  each specified by a function on an abstract state.
- `src/dictionary.rs`: the selector dictionary of a colour plane.
- `src/color.rs`, `src/alpha.rs`: coding of the colour and alpha planes.
- `src/codec.rs`: `compress` and `decompress_into`, specified by
  `spec_compress` and `spec_decompress`.
- `src/decodable.rs`, `src/color_inverse.rs`, `src/alpha_inverse.rs`,
  `src/roundtrip.rs`: decompression gives back what compression was given.
- `src/truncation.rs`: a stream missing two or more of its last bytes is
  refused, and bytes appended after a stream are ignored.
- `src/locality.rs`: each plane pass reads and writes only the coded plane
  of each block; the prior contents of the output never change the result.
- `app/main.rs`: a profiler that times compression and decompression of a
  raw block file.

The decoder accepts at most `2 * n + 4096` bytes of stream for `n` bytes of
blocks; the round trip is proved for every stream within that limit, and
with any bytes appended after the stream while the whole stays within it.
No bound on the size of a compressed stream is proved, so it is not shown
that every grid's stream fits the limit. Nor is it known that some grid's
stream exceeds it. The symbols of an eight-byte block can in principle cost
more than sixteen bytes of stream, but the models adapt to what they code.
Random blocks compress to between 1.0 and 1.2 times their size: BC1 about
1.16, BC3 about 1.08, BC4 and BC5 about 1.01.

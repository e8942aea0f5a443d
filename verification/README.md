# rust_j2k

A JPEG 2000 codestream decoder, proved in Verus.

`src/` is the verified library. Each stage of the decoder has a specification over
mathematical sequences and executable code that is proved to compute it:

- `codestream`: marker segments, headers, tile-parts, and how a tile's parameters
  resolve over the main header's.
- `tier2`: precincts, packets, tag trees and progression orders.
- `tier1`: the arithmetic decoder and the coding passes of a code-block.
- `quant`: quantization steps.
- `dwt`: the reversible 5/3 wavelet, and the interleave that both wavelets share.
- `mct`: the reversible colour transform.
- `image`, `decoder`: the canvas, the level shift and the whole decode.

What the stages promise together is stated as proof functions: the tiles partition
every component and each sample of the image comes from the tile that covers it
(`codestream::grid`, `assembly`), code-blocks tile their bands and precincts deal
them out (`tier2::partition`), every progression order visits each packet once
(`tier2::orders`), packed header bits are read back (`tier2::codewords`), the inverse
wavelet and colour transform undo the forward ones (`dwt::analysis`, `mct`), a
resolution reduction gives the lower resolutions of the pyramid (`reduction`), the
informational markers have no part in a decode (`hints`), bytes behind the EOC and
reserved markers are ignored (`codestream::trailing`, `codestream::reserved`), and the
zero-coding contexts follow the neighbourhood's symmetry (`tier1::symmetry`).

A failure is specified by its class and by its whole message. A malformed component
quantization names its own marker (`codestream::quant_text`), and an undecoded
code-block style its own flags (`codestream::style_text`).

`fuzz` wraps untrusted bytes in well-formed headers; `fuzz::whole` proves that every
such codestream parses and hands those bytes to the packet reader.

`app/` holds what works on real numbers: the irreversible 9/7 wavelet and its colour
transform. `tests/` runs the library, with an encoder of its own for whole
codestreams.

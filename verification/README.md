# pdfwm

Invisible TrustMark watermarks for PDFs and images, carrying a document id.

The library (`src/`) is verified with Verus. It holds the logic:

- `id_codec`: packing an id into the payload bits of a TrustMark version with one of four
  codecs (`utf8_raw`, `uint_decimal`, `decimal_bcd`, `base36`), automatic codec choice, and
  decoding the bits back; `codec_laws` proves that decoding inverts encoding.
- `engine`: argument checks, the tile grid of a page, the window offsets of a decode search,
  the plausibility gate for decoded ids and the vote that settles on one id.
- `search`: the order and the budget of the sliding windows tried on an image.
- `options`, `error`: option parsing and the error kinds.
- `number`, `bits`, `text`, `bignum`: digits, bit strings, ASCII text, and the calls into
  `num-bigint`.

`app/` is the PHP extension around it: reading options from PHP arrays and the environment,
rendering PDFs with PDFium, running the TrustMark models, blending tiles, writing images,
PDFs and their metadata.

# rip

A markup language for receipts, with its parser and renderers proved
correct in Verus.

`src/` is the verified library:

- `ast`, `lexical`, `numbers`, `strs`, `inline`, `directive`, `parser`:
  the markup, parsed line by line into nodes (decimal quantities are kept
  in thousandths).
- `text_util`, `columns`, `groups`, `text_render`: word wrapping, column
  layout and the plain-text renderer.
- `escpos_cmd`, `escpos`: ESC/POS commands and the ESC/POS renderer.
- `numfmt`, `html`: the standalone HTML renderer.
- `encode`: QR codes and barcodes, through the `qrcode` and `barcoders`
  crates.
- `image_data`, `raster`, `dither`, `canvas`, `layout`, `resources`,
  `collect`, `api`: pixels, raster packing, Floyd–Steinberg dithering,
  drawing, resource discovery and cache keys.

Each public function states its result exactly over spec functions; the
laws of the library (line independence of the parser, escaping, column
layout, dithering, resource discovery, image scaling, the image cache
format) are public proof functions.

`app/` is the `rip` command: argument handling, files and network,
image and SVG decoding, and the font-based pixel renderer, which rests on
floating-point glyph metrics.

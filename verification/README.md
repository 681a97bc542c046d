# flatconvert

Converts the glyphs of a TrueType font into a packed bitmap font for small
displays (the Adafruit GFX `PFXfont` layout) and writes it as a C header.

The library in `src/` is verified with Verus:

- `bit_pusher`: the fixed-size output buffer that packs 1, 2 and 4 bit
  values most significant bit first, with the packing laws proved over its
  mathematical state.
- `glyph`: glyph records and the pixels of a one-bit-per-pixel bitmap.
- `font`: the bitmap font being built: covered code range, one record per
  code, glyph bitmaps packed one after the other, and the text of the C
  arrays that describe it.
- `header`: number formatting and the text of the C header.
- `selection`: which codes to convert and the C name of the font.
- `engine`: the converter that asks FreeType for each glyph (monochrome, or
  4 or 16 grey levels) and adds it to the font, keeping a ghost log of the
  codes and modes it asked for; the FreeType calls themselves are in
  `freetype_calls`.
- `compression`: the Heatshrink encoder that compressed glyph bitmaps go
  through.

`app/` is the command line program: argument parsing, reading the font file
and writing the output files.

//! The bitmap font under construction: which codes it covers, one record per
//! code and the packed glyph bitmaps.
use vstd::prelude::*;
use crate::bit_pusher::{
    BitPusher, PusherState, BUFFER_SIZE, empty_pusher, overwrite, packed, packed_len, pending,
    lemma_pixels_pending, lemma_pack_pixels, level_bits, lemma_pair_as_pixels, lemma_nibble_as_pixels,
    lemma_with_pixels_append,
};
use crate::glyph::{
    PFXGlyph, zero_glyph, mono_pixel, mono_row, mono_pixels, mono_in_bounds, grey_level, grey_row,
    grey_pixels, grey_in_bounds, lemma_grey_row_len, lemma_grey_pixels_len,
};
use crate::engine::EngineError;
use crate::compression::{heatshrink_encoded, heatshrink_encode};
use crate::header::{
    lit, bitmap_item, bitmap_body, bitmap_text, index_line, index_body, index_text,
    size_line, footer_text, push_str, str_vec, push_signed_dec, push_dec, push_padded_dec, push_alt_hex, push_latin1,
};
use vstd::utf8::encode_utf8;

verus! {

/// Pushes the pixels of a one-bit-per-pixel bitmap, row after row, one bit
/// per pixel.
fn pack_mono(bp: &mut BitPusher, width: i32, rows: i32, pitch: i32, bits: &[u8])
    requires
        old(bp)@.wf(),
        old(bp)@.is_clean(),
        width > 0,
        rows > 0,
        mono_in_bounds(bits@.len(), width as int, rows as int, pitch as int),
        old(bp)@.index + packed_len((width * rows) as nat) <= BUFFER_SIZE,
    ensures
        final(bp)@ == old(bp)@.with_pixels(mono_pixels(bits@, pitch as int, width as nat, rows as nat)),
        final(bp)@.wf(),
{
    let ghost s0 = bp@;
    let ghost w = width as nat;
    let ghost h = rows as nat;
    let ghost p = pitch as int;
    let ghost last_off = (rows - 1) * pitch + (width - 1) / 8;
    assert(mono_pixels(bits@, p, w, 0) =~= Seq::<bool>::empty());
    assert(s0.with_pixels(Seq::<bool>::empty()) == s0);
    let mut y: i32 = 0;
    while y < rows
        invariant
            0 <= y <= rows,
            w == width,
            h == rows,
            p == pitch,
            width > 0,
            mono_in_bounds(bits@.len(), width as int, rows as int, pitch as int),
            last_off == (rows - 1) * pitch + (width - 1) / 8,
            s0.wf(),
            s0.is_clean(),
            s0.index + packed_len((width * rows) as nat) <= BUFFER_SIZE,
            mono_pixels(bits@, p, w, y as nat).len() == w * y,
            bp@ == s0.with_pixels(mono_pixels(bits@, p, w, y as nat)),
            bp@.wf(),
        decreases rows - y,
    {
        let ghost done = mono_pixels(bits@, p, w, y as nat);
        let ghost row = mono_row(bits@, p, w, y as int);
        assert(0 <= y * p <= last_off - (width - 1) / 8) by (nonlinear_arith)
            requires
                0 <= y < rows,
                rows == 1 || p >= 0,
                last_off == (rows - 1) * p + (width - 1) / 8,
        {
            if rows != 1 {
                assert(y * p <= (rows - 1) * p);
            }
        }
        assert(w * y + w <= w * h) by (nonlinear_arith)
            requires
                0 <= y < h,
                w > 0,
        ;
        let index: i64 = (y as i64) * (pitch as i64);
        assert(done + row.take(0) =~= done);
        proof { lemma_pixels_pending(s0, done); }
        let mut x: i32 = 0;
        while x < width
            invariant
                0 <= x <= width,
                0 <= y < rows,
                w == width,
                h == rows,
                p == pitch,
                mono_in_bounds(bits@.len(), width as int, rows as int, pitch as int),
                last_off == (rows - 1) * pitch + (width - 1) / 8,
                0 <= index <= last_off - (width - 1) / 8,
                index == y * p,
                done == mono_pixels(bits@, p, w, y as nat),
                row == mono_row(bits@, p, w, y as int),
                done.len() == w * y,
                w * y + w <= w * h,
                s0.wf(),
                s0.is_clean(),
                s0.index + packed_len((width * rows) as nat) <= BUFFER_SIZE,
                bp@ == s0.with_pixels(done + row.take(x as int)),
                bp@ == pending(s0, done + row.take(x as int)),
                bp@.wf(),
            decreases width - x,
        {
            let ghost before = done + row.take(x as int);
            assert(x >= 0 ==> x >> 3 == x / 8) by (bit_vector);
            assert(x >= 0 ==> x & 7 == x % 8) by (bit_vector);
            let off: i64 = index + ((x >> 3) as i64);
            assert(off < bits@.len());
            let v: u8 = bits[off as usize];
            let mask: u8 = 0x80u8 >> ((x & 7) as u8);
            let ghost on = (v & mask) != 0;
            assert(on == mono_pixel(bits@, p, y as int, x as int));
            assert(before.len() == w * y + x);
            assert((width * rows) as nat == w * h);
            if (v & mask) != 0 {
                bp.add1bits(1);
            } else {
                bp.add1bits(0);
            }
            proof {
                let after = before.push(on);
                assert(after.drop_last() =~= before);
                assert(after =~= done + row.take(x + 1));
                lemma_pixels_pending(s0, after);
            }
            x = x + 1;
        }
        proof {
            assert(row.take(width as int) =~= row);
            assert(mono_pixels(bits@, p, w, (y + 1) as nat) == done + row);
            assert(w * (y + 1) == w * y + w) by (nonlinear_arith);
        }
        y = y + 1;
    }
}

/// Pushes one grey pixel `g` reduced to `bpp` bits: two bits with
/// `add2bits`, four with `add4bits`, the first nibble of a byte given in
/// the high half.
fn push_grey_pixel(bp: &mut BitPusher, bpp: u8, g: u8, Ghost(s0): Ghost<PusherState>, Ghost(done): Ghost<Seq<bool>>, Ghost(total): Ghost<nat>)
    requires
        bpp == 2 || bpp == 4,
        s0.wf(),
        s0.is_clean(),
        old(bp)@ == pending(s0, done),
        old(bp)@.wf(),
        done.len() % (bpp as nat) == 0,
        done.len() + bpp <= total,
        total % (bpp as nat) == 0,
        s0.index + packed_len(total) <= BUFFER_SIZE,
    ensures
        final(bp)@ == pending(s0, done + level_bits(g >> ((8 - bpp) as u8), bpp as nat)),
        final(bp)@.wf(),
{
    let ghost lb = level_bits(g >> ((8 - bpp) as u8), bpp as nat);
    let ghost before = bp@;
    proof {
        lemma_pixels_pending(s0, done);
        assert(s0.index + (done.len() + bpp) / 8 <= BUFFER_SIZE);
    }
    if bpp == 2 {
        let v: u8 = g >> 6;
        assert(v & 3u8 == g >> 6u8) by (bit_vector)
            requires
                v == g >> 6u8,
        ;
        assert((8 - bpp) as u8 == 6u8);
        bp.add2bits(v);
        proof {
            lemma_pair_as_pixels(before, v);
        }
    } else {
        assert((8 - bpp) as u8 == 4u8);
        proof {
            if done.len() % 8 == 0 {
                assert(done.skip(done.len() - done.len() % 8) =~= Seq::<bool>::empty());
                assert(before.is_clean());
            }
        }
        if bp.at_byte_start() {
            let v: u8 = g & 0xf0u8;
            assert(v & 0x0fu8 == 0u8 && v >> 4u8 == g >> 4u8) by (bit_vector)
                requires
                    v == g & 0xf0u8,
            ;
            bp.add4bits(v);
            proof {
                lemma_nibble_as_pixels(before, v);
            }
        } else {
            let v: u8 = g >> 4;
            assert(v & 0x0fu8 == g >> 4u8) by (bit_vector)
                requires
                    v == g >> 4u8,
            ;
            bp.add4bits(v);
            proof {
                lemma_nibble_as_pixels(before, v);
            }
        }
    }
    proof {
        lemma_with_pixels_append(s0, done, lb);
        lemma_pixels_pending(s0, done + lb);
    }
}

/// Pushes the pixels of an 8-bit grey bitmap, row after row, each reduced
/// to its `bpp` most significant bits.
fn pack_grey(bp: &mut BitPusher, bpp: u8, width: i32, rows: i32, pitch: i32, bits: &[u8])
    requires
        bpp == 2 || bpp == 4,
        old(bp)@.wf(),
        old(bp)@.is_clean(),
        grey_in_bounds(bits@.len(), width as int, rows as int, pitch as int),
        old(bp)@.index + packed_len((width * rows * bpp) as nat) <= BUFFER_SIZE,
    ensures
        final(bp)@ == old(bp)@.with_pixels(grey_pixels(bits@, pitch as int, width as nat, rows as nat, bpp as nat)),
        final(bp)@.wf(),
{
    let ghost s0 = bp@;
    let ghost w = width as nat;
    let ghost h = rows as nat;
    let ghost p = pitch as int;
    let ghost b = bpp as nat;
    let ghost total = (w * h * b) as nat;
    let ghost last_off = (rows - 1) * pitch + (width - 1);
    assert(total % b == 0 && total == (width * rows * bpp) as nat) by (nonlinear_arith)
        requires
            total == w * h * b,
            w == width,
            h == rows,
            b == bpp,
            w > 0,
            h > 0,
            b > 0,
    ;
    assert(grey_pixels(bits@, p, w, 0, b) =~= Seq::<bool>::empty());
    proof {
        lemma_pixels_pending(s0, Seq::<bool>::empty());
    }
    let mut y: i32 = 0;
    while y < rows
        invariant
            0 <= y <= rows,
            w == width,
            h == rows,
            p == pitch,
            b == bpp,
            bpp == 2 || bpp == 4,
            grey_in_bounds(bits@.len(), width as int, rows as int, pitch as int),
            last_off == (rows - 1) * pitch + (width - 1),
            total == w * h * b,
            total % b == 0,
            s0.wf(),
            s0.is_clean(),
            s0.index + packed_len(total) <= BUFFER_SIZE,
            grey_pixels(bits@, p, w, y as nat, b).len() == w * y * b,
            bp@ == pending(s0, grey_pixels(bits@, p, w, y as nat, b)),
            bp@.wf(),
        decreases rows - y,
    {
        let ghost done = grey_pixels(bits@, p, w, y as nat, b);
        assert(0 <= y * p <= last_off - (width - 1)) by (nonlinear_arith)
            requires
                0 <= y < rows,
                rows == 1 || p >= 0,
                last_off == (rows - 1) * p + (width - 1),
        {
            if rows != 1 {
                assert(y * p <= (rows - 1) * p);
            }
        }
        assert(w * y * b + w * b <= w * h * b) by (nonlinear_arith)
            requires
                0 <= y < h,
                w > 0,
                b > 0,
        ;
        let index: i64 = (y as i64) * (pitch as i64);
        assert(grey_row(bits@, p, y as int, 0, b) =~= Seq::<bool>::empty());
        assert(done + grey_row(bits@, p, y as int, 0, b) =~= done);
        let mut x: i32 = 0;
        while x < width
            invariant
                0 <= x <= width,
                0 <= y < rows,
                w == width,
                h == rows,
                p == pitch,
                b == bpp,
                bpp == 2 || bpp == 4,
                grey_in_bounds(bits@.len(), width as int, rows as int, pitch as int),
                last_off == (rows - 1) * pitch + (width - 1),
                0 <= index <= last_off - (width - 1),
                index == y * p,
                done == grey_pixels(bits@, p, w, y as nat, b),
                done.len() == w * y * b,
                w * y * b + w * b <= w * h * b,
                total == w * h * b,
                total % b == 0,
                s0.wf(),
                s0.is_clean(),
                s0.index + packed_len(total) <= BUFFER_SIZE,
                bp@ == pending(s0, done + grey_row(bits@, p, y as int, x as nat, b)),
                bp@.wf(),
            decreases width - x,
        {
            let ghost cur = done + grey_row(bits@, p, y as int, x as nat, b);
            proof {
                lemma_grey_row_len(bits@, p, y as int, x as nat, b);
                assert(x * b + b <= w * b) by (nonlinear_arith)
                    requires
                        0 <= x < w,
                        b > 0,
                ;
                assert(w * y * b + x * b == (w * y + x) * b) by (nonlinear_arith);
                vstd::arithmetic::div_mod::lemma_mod_multiples_basic((w * y + x) as int, b as int);
            }
            let off: i64 = index + x as i64;
            let g: u8 = bits[off as usize];
            assert(g == bits@[y * p + x]);
            push_grey_pixel(bp, bpp, g, Ghost(s0), Ghost(cur), Ghost(total));
            proof {
                let lb = level_bits(g >> ((8 - bpp) as u8), b);
                assert(g >> ((8 - bpp) as u8) == grey_level(bits@, p, y as int, x as int, b));
                assert(cur + lb =~= done + grey_row(bits@, p, y as int, (x + 1) as nat, b));
            }
            x = x + 1;
        }
        proof {
            lemma_grey_row_len(bits@, p, y as int, w, b);
            assert(grey_pixels(bits@, p, w, (y + 1) as nat, b) == done + grey_row(bits@, p, y as int, w, b));
            assert(w * (y + 1) * b == w * y * b + w * b) by (nonlinear_arith);
        }
        y = y + 1;
    }
    proof {
        lemma_pixels_pending(s0, grey_pixels(bits@, p, w, h, b));
    }
}


/// The first code (`-1` when none) and the last code (`256` when none) whose
/// entry of `map` is not zero.
pub fn selection_bounds(map: &[u8; 256]) -> (r: (isize, isize))
    ensures
        r.0 == -1 <==> (forall|j: int| 0 <= j < 256 ==> map@[j] == 0),
        r.0 == -1 ==> r.1 == 256,
        r.0 != -1 ==> {
            &&& 0 <= r.0 <= r.1 < 256
            &&& map@[r.0 as int] != 0
            &&& map@[r.1 as int] != 0
            &&& forall|j: int| 0 <= j < r.0 ==> map@[j] == 0
            &&& forall|j: int| r.1 < j < 256 ==> map@[j] == 0
        },
{
    let mut first: isize = -1;
    let mut last: isize = 256;
    let mut i: usize = 0;
    while i < 256
        invariant
            0 <= i <= 256,
            first == -1 <==> (forall|j: int| 0 <= j < i ==> map@[j] == 0),
            first == -1 ==> last == 256,
            first != -1 ==> {
                &&& 0 <= first <= last < i
                &&& map@[first as int] != 0
                &&& map@[last as int] != 0
                &&& forall|j: int| 0 <= j < first ==> map@[j] == 0
                &&& forall|j: int| last < j < i ==> map@[j] == 0
            },
        decreases 256 - i,
    {
        if map[i] != 0 {
            if first == -1 {
                first = i as isize;
            }
            last = i as isize;
        }
        i = i + 1;
    }
    (first, last)
}

/// The mathematical state of a [`BitmapFont`].
pub struct FontState {
    pub first: usize,
    pub last: usize,
    pub bpp: usize,
    pub face_height: i8,
    pub compression: bool,
    pub glyphs: Seq<PFXGlyph>,
    pub bitmap: PusherState,
}

impl FontState {
    /// The state every operation keeps: the bitmap is a valid buffer with no
    /// byte under way.
    pub open spec fn wf(self) -> bool {
        &&& self.bitmap.wf()
        &&& self.bitmap.is_clean()
        &&& self.bitmap.index <= BUFFER_SIZE
    }

    /// The state after a rendered glyph is added: a glyph with no rows or
    /// no columns gets the empty record; any other gets a record that
    /// points at the cursor, and its pixels are packed there at the font's
    /// depth (see [`glyph_pixels`]), rows one after the other, the last
    /// byte padded with zero bits; with compression the packed bytes are
    /// then replaced by their Heatshrink encoding and the cursor ends after
    /// it.
    pub open spec fn with_glyph(
        self,
        advance_x: isize,
        left: i32,
        top: i32,
        width: i32,
        rows: i32,
        pitch: i32,
        bits: Seq<u8>,
    ) -> FontState {
        if width == 0 || rows == 0 {
            FontState { glyphs: self.glyphs.push(zero_glyph()), ..self }
        } else {
            FontState {
                glyphs: self.glyphs.push(
                    glyph_record(self.bitmap.index, advance_x, left, top, width, rows),
                ),
                bitmap: {
                    let bytes = packed(glyph_pixels(self.bpp, width, rows, pitch, bits));
                    let stored = stored_bitmap(self.compression, bytes);
                    PusherState {
                        bit: 7,
                        accumulator: 0,
                        index: self.bitmap.index + stored.len(),
                        buffer: overwrite(
                            overwrite(self.bitmap.buffer, self.bitmap.index as int, bytes),
                            self.bitmap.index as int,
                            stored,
                        ),
                    }
                },
                ..self
            }
        }
    }

    /// There is a glyph record for each code from `first` to `last`
    /// (records past the last code are allowed).
    pub open spec fn has_records_for_range(self) -> bool {
        self.first <= self.last ==> self.glyphs.len() >= self.last - self.first + 1
    }
}

/// Division by 64 rounding toward zero.
pub open spec fn div64(v: int) -> int {
    if v >= 0 {
        v / 64
    } else {
        -((-v) / 64)
    }
}

/// The advance in pixels: a value above `0x10000` is taken as 16.16 fixed
/// point and its integer part is kept.
pub open spec fn advance_pixels(advance_x: isize) -> int {
    if advance_x > 0x10000 {
        advance_x as int / 65536
    } else {
        advance_x as int
    }
}

/// A count of pixels that is negative counts as none.
pub open spec fn extent(n: i32) -> nat {
    if n > 0 {
        n as nat
    } else {
        0
    }
}

/// The record of a glyph whose bitmap starts at byte `offset`.
pub open spec fn glyph_record(
    offset: nat,
    advance_x: isize,
    left: i32,
    top: i32,
    width: i32,
    rows: i32,
) -> PFXGlyph {
    PFXGlyph {
        bitmapOffset: offset as u16,
        width: width as u8,
        height: rows as u8,
        xAdvance: advance_pixels(advance_x) as u8,
        xOffset: left as i8,
        yOffset: (1 - top) as i8,
    }
}

/// Base-2 logarithm of the Heatshrink window that compressed bitmaps use
/// (Heatshrink's default).
pub const HEATSHRINK_WINDOW: u8 = 11;

/// Base-2 logarithm of the Heatshrink lookahead that compressed bitmaps use
/// (Heatshrink's default).
pub const HEATSHRINK_LOOKAHEAD: u8 = 4;

/// The bytes a glyph's packed bitmap is stored as: its Heatshrink encoding
/// with compression, else the packed bytes themselves.
pub open spec fn stored_bitmap(compression: bool, packed_bytes: Seq<u8>) -> Seq<u8> {
    if compression {
        heatshrink_encoded(packed_bytes, HEATSHRINK_WINDOW, HEATSHRINK_LOOKAHEAD)
    } else {
        packed_bytes
    }
}

/// A depth of 2 or 4 bits per pixel renders grey levels; any other
/// depth renders one bit per pixel.
pub open spec fn is_grey(bpp: usize) -> bool {
    bpp == 2 || bpp == 4
}

/// The bits one pixel takes at depth `bpp`.
pub open spec fn pixel_bits(bpp: usize) -> nat {
    if is_grey(bpp) {
        bpp as nat
    } else {
        1
    }
}

/// The bits a glyph of `width` by `rows` pixels takes at depth `bpp`.
pub open spec fn glyph_bit_count(bpp: usize, width: i32, rows: i32) -> nat {
    extent(width) * extent(rows) * pixel_bits(bpp)
}

/// The bits of a glyph bitmap at depth `bpp`, row after row: at one bit
/// per pixel the pixels of a monochrome bitmap; at 2 or 4 bits the top
/// bits of each pixel of an 8-bit grey bitmap (4 or 16 grey levels).
pub open spec fn glyph_pixels(bpp: usize, width: i32, rows: i32, pitch: i32, bits: Seq<u8>) -> Seq<bool> {
    if is_grey(bpp) {
        grey_pixels(bits, pitch as int, extent(width), extent(rows), bpp as nat)
    } else {
        mono_pixels(bits, pitch as int, extent(width), extent(rows))
    }
}

/// The glyph's pixels lie inside its bitmap bytes, and their packing at the
/// font's depth fits into what is left of the buffer.
pub open spec fn glyph_can_pack(s: FontState, width: i32, rows: i32, pitch: i32, bits: Seq<u8>) -> bool {
    &&& (width > 0 && rows > 0) ==> if is_grey(s.bpp) {
        grey_in_bounds(bits.len(), width as int, rows as int, pitch as int)
    } else {
        mono_in_bounds(bits.len(), width as int, rows as int, pitch as int)
    }
    &&& s.bitmap.index + packed_len(glyph_bit_count(s.bpp, width, rows)) <= BUFFER_SIZE
}

/// The glyph can be packed, and what is stored for it (with compression,
/// the encoding of the packed bytes) fits into the buffer.
pub open spec fn glyph_fits(s: FontState, width: i32, rows: i32, pitch: i32, bits: Seq<u8>) -> bool {
    &&& glyph_can_pack(s, width, rows, pitch, bits)
    &&& s.bitmap.index + stored_bitmap(s.compression, packed(glyph_pixels(s.bpp, width, rows, pitch, bits))).len()
        <= BUFFER_SIZE
}

/// A glyph's packed pixels can be read back from the bitmap at the offset
/// its record holds (taken modulo 2^16 there), the bytes of earlier glyphs
/// stay as they were, and the font stays valid.
pub proof fn lemma_glyph_read_back(
    s: FontState,
    advance_x: isize,
    left: i32,
    top: i32,
    width: i32,
    rows: i32,
    pitch: i32,
    bits: Seq<u8>,
)
    requires
        s.wf(),
        width != 0,
        rows != 0,
        glyph_fits(s, width, rows, pitch, bits),
    ensures
        ({
            let t = s.with_glyph(advance_x, left, top, width, rows, pitch, bits);
            &&& t.wf()
            &&& t.glyphs.last().bitmapOffset == s.bitmap.index as u16
            &&& t.bitmap.index == s.bitmap.index + stored_bitmap(
                s.compression,
                packed(glyph_pixels(s.bpp, width, rows, pitch, bits)),
            ).len()
            &&& t.bitmap.buffer.subrange(s.bitmap.index as int, t.bitmap.index as int) == stored_bitmap(
                s.compression,
                packed(glyph_pixels(s.bpp, width, rows, pitch, bits)),
            )
            &&& t.bitmap.buffer.take(s.bitmap.index as int) == s.bitmap.buffer.take(s.bitmap.index as int)
        }),
{
    let t = s.with_glyph(advance_x, left, top, width, rows, pitch, bits);
    let data = packed(glyph_pixels(s.bpp, width, rows, pitch, bits));
    let stored = stored_bitmap(s.compression, data);
    let once = overwrite(s.bitmap.buffer, s.bitmap.index as int, data);
    lemma_glyph_pixels_len(s.bpp, width, rows, pitch, bits);
    assert(data.len() == packed_len(glyph_bit_count(s.bpp, width, rows)));
    assert(once.len() == BUFFER_SIZE);
    assert(t.bitmap.buffer.len() == BUFFER_SIZE);
    assert(t.bitmap.buffer.subrange(s.bitmap.index as int, t.bitmap.index as int) =~= stored);
    assert(t.bitmap.buffer.take(s.bitmap.index as int) =~= s.bitmap.buffer.take(s.bitmap.index as int));
}

/// What FreeType rendered for one code: placement, advance and the bitmap
/// with its dimensions.
pub struct Rendering {
    pub advance_x: isize,
    pub left: i32,
    pub top: i32,
    pub width: i32,
    pub rows: i32,
    pub pitch: i32,
    pub bits: Seq<u8>,
}

impl FontState {
    /// The state after one code is handled: `None` (not selected, or no
    /// glyph) adds the empty record, a rendering is added as
    /// [`FontState::with_glyph`] says.
    pub open spec fn with_rendering(self, r: Option<Rendering>) -> FontState {
        match r {
            None => FontState { glyphs: self.glyphs.push(zero_glyph()), ..self },
            Some(g) => self.with_glyph(g.advance_x, g.left, g.top, g.width, g.rows, g.pitch, g.bits),
        }
    }

    /// The rendering can be added: it has no rows or columns, or it fits.
    pub open spec fn accepts(self, r: Option<Rendering>) -> bool {
        match r {
            None => true,
            Some(g) => g.width == 0 || g.rows == 0 || glyph_fits(self, g.width, g.rows, g.pitch, g.bits),
        }
    }

    /// The state after the codes' outcomes are handled in order.
    pub open spec fn with_renderings(self, rs: Seq<Option<Rendering>>) -> FontState
        decreases rs.len(),
    {
        if rs.len() == 0 {
            self
        } else {
            self.with_renderings(rs.drop_last()).with_rendering(rs.last())
        }
    }

    /// Every outcome could be added in turn.
    pub open spec fn accepts_all(self, rs: Seq<Option<Rendering>>) -> bool
        decreases rs.len(),
    {
        if rs.len() == 0 {
            true
        } else {
            self.accepts_all(rs.drop_last()) && self.with_renderings(rs.drop_last()).accepts(rs.last())
        }
    }
}

/// Handling codes one after the other keeps the font valid, adds one record
/// per code, never moves the cursor back and never changes a byte written
/// before; a code without rendering adds the empty record and no byte; each
/// rendered glyph's record points at the cursor where its bitmap starts.
pub proof fn lemma_renderings(s: FontState, rs: Seq<Option<Rendering>>)
    requires
        s.wf(),
        s.accepts_all(rs),
    ensures
        ({
            let t = s.with_renderings(rs);
            &&& t.wf()
            &&& t.glyphs.len() == s.glyphs.len() + rs.len()
            &&& t.glyphs.take(s.glyphs.len() as int) == s.glyphs
            &&& s.bitmap.index <= t.bitmap.index
            &&& t.bitmap.buffer.take(s.bitmap.index as int) == s.bitmap.buffer.take(s.bitmap.index as int)
            &&& (t.first, t.last, t.bpp, t.face_height, t.compression) == (s.first, s.last, s.bpp, s.face_height, s.compression)
        }),
        forall|k: int|
            0 <= k < rs.len() ==> {
                let before = #[trigger] s.with_renderings(rs.take(k));
                let after = s.with_renderings(rs.take(k + 1));
                &&& before.wf()
                &&& (rs[k] is None ==> after == (FontState {
                    glyphs: before.glyphs.push(zero_glyph()),
                    ..before
                }))
                &&& (rs[k] matches Some(g) ==> after == before.with_glyph(
                    g.advance_x,
                    g.left,
                    g.top,
                    g.width,
                    g.rows,
                    g.pitch,
                    g.bits,
                ))
                &&& (rs[k] matches Some(g) && g.width != 0 && g.rows != 0 ==> after.glyphs.last().bitmapOffset
                    == before.bitmap.index as u16)
            },
    decreases rs.len(),
{
    if rs.len() > 0 {
        let prev = rs.drop_last();
        lemma_renderings(s, prev);
        let m = s.with_renderings(prev);
        let t = s.with_renderings(rs);
        match rs.last() {
            None => {},
            Some(g) => {
                if g.width != 0 && g.rows != 0 {
                    lemma_glyph_read_back(m, g.advance_x, g.left, g.top, g.width, g.rows, g.pitch, g.bits);
                }
            },
        }
        assert(t.glyphs.take(s.glyphs.len() as int) =~= s.glyphs) by {
            assert(t.glyphs.take(m.glyphs.len() as int) =~= m.glyphs);
        }
        assert(t.bitmap.buffer.take(s.bitmap.index as int) =~= s.bitmap.buffer.take(s.bitmap.index as int)) by {
            assert(t.bitmap.buffer.take(m.bitmap.index as int) =~= m.bitmap.buffer.take(m.bitmap.index as int));
            assert(m.bitmap.buffer.take(s.bitmap.index as int) =~= s.bitmap.buffer.take(s.bitmap.index as int));
        }
        assert forall|k: int| 0 <= k < rs.len() implies {
            let before = #[trigger] s.with_renderings(rs.take(k));
            let after = s.with_renderings(rs.take(k + 1));
            &&& before.wf()
            &&& (rs[k] is None ==> after == (FontState { glyphs: before.glyphs.push(zero_glyph()), ..before }))
            &&& (rs[k] matches Some(g) ==> after == before.with_glyph(
                g.advance_x,
                g.left,
                g.top,
                g.width,
                g.rows,
                g.pitch,
                g.bits,
            ))
            &&& (rs[k] matches Some(g) && g.width != 0 && g.rows != 0 ==> after.glyphs.last().bitmapOffset
                == before.bitmap.index as u16)
        } by {
            assert(rs.take(k + 1).drop_last() =~= rs.take(k));
            assert(rs.take(k + 1).last() == rs[k]);
            if k < prev.len() {
                assert(prev.take(k) =~= rs.take(k));
                assert(prev.take(k + 1) =~= rs.take(k + 1));
                assert(prev[k] == rs[k]);
            } else {
                assert(rs.take(k) =~= prev);
                assert(rs.take(k + 1) =~= rs);
                match rs[k] {
                    None => {},
                    Some(g) => {
                        if g.width != 0 && g.rows != 0 {
                            lemma_glyph_read_back(m, g.advance_x, g.left, g.top, g.width, g.rows, g.pitch, g.bits);
                        }
                    },
                }
            }
        }
    } else {
        assert(s.glyphs.take(s.glyphs.len() as int) =~= s.glyphs);
    }
}

/// A bitmap font: the range of codes it covers, a record per code and the
/// glyph bitmaps packed one after the other.
pub struct BitmapFont {
    first: usize,
    last: usize,
    bpp: usize,
    bp: BitPusher,
    face_height: i8,
    processed_glyphs: Vec<PFXGlyph>,
    compression: bool,
}

impl View for BitmapFont {
    type V = FontState;

    closed spec fn view(&self) -> FontState {
        FontState {
            first: self.first,
            last: self.last,
            bpp: self.bpp,
            face_height: self.face_height,
            compression: self.compression,
            glyphs: self.processed_glyphs@,
            bitmap: self.bp@,
        }
    }
}

/// Appends one byte of the bitmap array, and a line end when `line_end`.
fn push_bitmap_item(out: &mut Vec<u8>, b: u8, line_end: bool)
    ensures
        forall|k: nat| (k % 12 == 0) == line_end ==> final(out)@ == old(out)@ + #[trigger] bitmap_item(b, k),
{
    let mut item = str_vec(" ");
    push_alt_hex(&mut item, b as u64);
    push_str(&mut item, ",");
    if line_end {
        push_str(&mut item, "\n");
    } else {
        assert(item@ + Seq::<u8>::empty() =~= item@);
    }
    out.append(&mut item);
}

/// Appends the initializer of the glyph record of `code`.
fn push_index_line(out: &mut Vec<u8>, code: usize, g: PFXGlyph)
    ensures
        final(out)@ == old(out)@ + index_line(code as nat, g),
{
    let mut line = str_vec("  { ");
    push_padded_dec(&mut line, g.bitmapOffset as i64, 5);
    push_str(&mut line, ", ");
    push_padded_dec(&mut line, g.width as i64, 3);
    push_str(&mut line, ", ");
    push_padded_dec(&mut line, g.height as i64, 3);
    push_str(&mut line, ", ");
    push_padded_dec(&mut line, g.xAdvance as i64, 3);
    push_str(&mut line, ", ");
    push_padded_dec(&mut line, g.xOffset as i64, 4);
    push_str(&mut line, ", ");
    push_padded_dec(&mut line, g.yOffset as i64, 4);
    push_str(&mut line, "}");
    push_str(&mut line, ",   // ");
    push_alt_hex(&mut line, code as u64);
    push_str(&mut line, " '");
    push_latin1(&mut line, code as u8);
    push_str(&mut line, "' \n");
    assert(line@ == index_line(code as nat, g));
    out.append(&mut line);
}

/// Appends a size in bytes and in kilobytes rounded up after `label`.
fn push_size_line(out: &mut Vec<u8>, label: &str, n: usize)
    requires
        n + 1023 <= usize::MAX,
    ensures
        final(out)@ == old(out)@ + size_line(lit(label), n as nat),
{
    push_str(out, label);
    push_dec(out, n as u64);
    push_str(out, " bytes (");
    push_dec(out, ((n + 1023) / 1024) as u64);
    push_str(out, " kBytes)\n");
    assert(final(out)@ =~= old(out)@ + size_line(lit(label), n as nat));
}

/// Replaces the `size` bytes at `offset` by their Heatshrink encoding
/// (window and lookahead of [`HEATSHRINK_WINDOW`] and
/// [`HEATSHRINK_LOOKAHEAD`]) and returns its length, the cursor ending
/// after it; `None`, changing nothing, when the encoding does not fit into
/// the buffer.
fn compress_in_place(bp: &mut BitPusher, offset: usize, size: usize) -> (r: Option<usize>)
    requires
        old(bp)@.wf(),
        offset + size <= BUFFER_SIZE,
    ensures
        ({
            let enc = heatshrink_encoded(
                old(bp)@.buffer.subrange(offset as int, offset + size),
                HEATSHRINK_WINDOW,
                HEATSHRINK_LOOKAHEAD,
            );
            &&& r is Some <==> offset + enc.len() <= BUFFER_SIZE
            &&& r matches Some(n) ==> n == enc.len() && final(bp)@ == (PusherState {
                bit: 7,
                index: (offset + n) as nat,
                buffer: overwrite(old(bp)@.buffer, offset as int, enc),
                ..old(bp)@
            })
            &&& r is None ==> final(bp)@ == old(bp)@
        }),
        final(bp)@.wf(),
{
    let input = vstd::slice::slice_to_vec(bp.extract(offset, size));
    let room: usize = BUFFER_SIZE - offset;
    let mut output: Vec<u8> = vec![0u8; room];
    match heatshrink_encode(input.as_slice(), &mut output, HEATSHRINK_WINDOW, HEATSHRINK_LOOKAHEAD) {
        Ok(n) => {
            let enc = vstd::slice::slice_subrange(output.as_slice(), 0, n);
            assert(enc@ =~= heatshrink_encoded(input@, HEATSHRINK_WINDOW, HEATSHRINK_LOOKAHEAD));
            bp.set_offset(offset);
            bp.swallow(enc);
            Some(n)
        },
        Err(_) => None,
    }
}

impl BitmapFont {
    /// A font for the codes 32 to 128 with no glyph yet.
    pub fn new() -> (f: BitmapFont)
        ensures
            f@ == (FontState {
                first: 32,
                last: 128,
                bpp: 0,
                face_height: 0,
                compression: false,
                glyphs: Seq::empty(),
                bitmap: empty_pusher(),
            }),
            f@.wf(),
    {
        BitmapFont {
            first: 32,
            last: 128,
            bp: BitPusher::new(),
            face_height: 0,
            processed_glyphs: Vec::new(),
            bpp: 0,
            compression: false,
        }
    }

    /// The first code covered.
    pub fn first(&self) -> (r: usize)
        ensures
            r == self@.first,
    {
        self.first
    }

    /// The last code covered.
    pub fn last(&self) -> (r: usize)
        ensures
            r == self@.last,
    {
        self.last
    }

    /// The line height in pixels, zero when not known.
    pub fn face_height(&self) -> (r: i8)
        ensures
            r == self@.face_height,
    {
        self.face_height
    }

    /// The number of bitmap bytes written so far.
    pub fn bitmap_size(&self) -> (r: usize)
        ensures
            r == self@.bitmap.index,
    {
        self.bp.size()
    }

    /// The number of glyph records.
    pub fn glyph_count(&self) -> (r: usize)
        ensures
            r == self@.glyphs.len(),
    {
        self.processed_glyphs.len()
    }

    /// Takes the covered range from the codes that `map` selects (see
    /// [`selection_bounds`]; with none selected the range is empty) and
    /// records whether compression is asked for.
    pub fn select(&mut self, map: &[u8; 256], compression: bool)
        ensures
            ({
                let (first, last) = selection_bounds_spec(map@);
                final(self)@ == FontState {
                    first: first as usize,
                    last: last as usize,
                    compression,
                    ..old(self)@
                }
            }),
    {
        let (first, last) = selection_bounds(map);
        proof {
            lemma_selection_bounds_unique(map@, first as int, last as int);
        }
        self.first = first as usize;
        self.last = last as usize;
        self.compression = compression;
    }

    /// Starts a conversion at `bpp` bits per pixel: no glyph record yet.
    pub fn start_conversion(&mut self, bpp: usize)
        ensures
            final(self)@ == (FontState { bpp, glyphs: Seq::empty(), ..old(self)@ }),
    {
        self.bpp = bpp;
        self.processed_glyphs.clear();
    }

    /// Records the line height given in 26.6 fixed point.
    pub fn set_face_height(&mut self, height: i64)
        ensures
            final(self)@ == (FontState { face_height: div64(height as int) as i8, ..old(self)@ }),
    {
        self.face_height = (height / 64) as i8;
    }

    /// Records a code that has no glyph.
    pub fn add_missing_glyph(&mut self)
        ensures
            final(self)@ == (FontState { glyphs: old(self)@.glyphs.push(zero_glyph()), ..old(self)@ }),
    {
        self.processed_glyphs.push(PFXGlyph::new());
    }

    /// Adds a rendered glyph: its record, then its pixels packed at the
    /// font's depth (one bit each at 1 bit per pixel, the top 2 or 4 bits of
    /// each grey level at 2 or 4), rows one after the other, from the next
    /// byte boundary on; with compression, their Heatshrink encoding takes
    /// their place.
    /// A glyph with no rows or no columns gets the empty record and no
    /// bitmap. Fails, changing nothing, when a pixel lies outside `bits` or
    /// what is stored does not fit into the buffer.
    pub fn add_glyph(
        &mut self,
        advance_x: isize,
        left: i32,
        top: i32,
        width: i32,
        rows: i32,
        pitch: i32,
        bits: &[u8],
    ) -> (r: Result<(), EngineError>)
        requires
            old(self)@.wf(),
        ensures
            final(self)@.wf(),
            r is Ok <==> (width == 0 || rows == 0 || glyph_fits(old(self)@, width, rows, pitch, bits@)),
            r is Ok ==> final(self)@ == old(self)@.with_glyph(advance_x, left, top, width, rows, pitch, bits@),
            r is Err ==> r == Err::<(), EngineError>(EngineError::InternalError) && final(self)@ == old(self)@,
    {
        let mut x_advance = advance_x;
        if x_advance > 0x10000 {
            assert(x_advance > 0x10000 ==> x_advance >> 16 == x_advance / 65536) by (bit_vector);
            x_advance = x_advance >> 16;
        }
        let start_offset = self.bp.size();
        if width == 0 || rows == 0 {
            self.processed_glyphs.push(PFXGlyph::new());
            return Ok(());
        }
        let packed_size = match self.packed_size(width, rows, pitch, bits) {
            Some(n) => n,
            None => return Err(EngineError::InternalError),
        };
        let ghost s0 = self.bp@;
        let ghost old_glyphs = self.processed_glyphs@;
        let saved = if self.compression {
            vstd::slice::slice_to_vec(self.bp.extract(start_offset, packed_size))
        } else {
            Vec::new()
        };
        self.bp.align();
        let this_pfx = PFXGlyph {
            bitmapOffset: self.bp.size() as u16,
            width: width as u8,
            height: rows as u8,
            xAdvance: x_advance as u8,
            xOffset: left as i8,
            yOffset: (1i64 - top as i64) as i8,
        };
        self.processed_glyphs.push(this_pfx);
        let ghost s1 = self.bp@;
        let ghost pixels = glyph_pixels(self@.bpp, width, rows, pitch, bits@);
        if width > 0 && rows > 0 {
            if self.bpp == 2 || self.bpp == 4 {
                assert((width * rows * (self.bpp as u8)) as nat == glyph_bit_count(self@.bpp, width, rows));
                pack_grey(&mut self.bp, self.bpp as u8, width, rows, pitch, bits);
            } else {
                assert((width * rows) as nat == glyph_bit_count(self@.bpp, width, rows)) by (nonlinear_arith)
                    requires
                        width > 0,
                        rows > 0,
                        !is_grey(self@.bpp),
                ;
                pack_mono(&mut self.bp, width, rows, pitch, bits);
            }
        } else {
            assert(pixels =~= Seq::<bool>::empty()) by {
                assert(extent(width) == 0 || extent(rows) == 0);
                lemma_glyph_pixels_len(self@.bpp, width, rows, pitch, bits@);
                assert(glyph_bit_count(self@.bpp, width, rows) == 0) by (nonlinear_arith)
                    requires
                        extent(width) == 0 || extent(rows) == 0,
                ;
            }
        }
        proof {
            lemma_glyph_pixels_len(self@.bpp, width, rows, pitch, bits@);
            lemma_pack_pixels(s1, pixels);
        }
        self.bp.align();
        let ghost s2 = self.bp@;
        let ghost bytes = packed(pixels);
        proof {
            assert(s2.buffer.subrange(start_offset as int, start_offset + bytes.len()) =~= bytes);
        }
        if self.compression {
            let original_size = self.bp.size() - start_offset;
            match compress_in_place(&mut self.bp, start_offset, original_size) {
                Some(size) => {
                    self.bp.set_offset(start_offset + size);
                },
                None => {
                    self.bp.set_offset(start_offset);
                    self.bp.swallow(saved.as_slice());
                    self.bp.set_offset(start_offset);
                    self.processed_glyphs.pop();
                    proof {
                        assert(self.bp@.buffer =~= s0.buffer);
                        assert(self.processed_glyphs@ =~= old_glyphs);
                    }
                    return Err(EngineError::InternalError);
                },
            }
        } else {
            proof {
                assert(overwrite(s2.buffer, start_offset as int, bytes) =~= s2.buffer);
            }
        }
        Ok(())
    }

    /// The C array of the packed glyph bitmaps, named `<name>Bitmaps`.
    pub fn dump_bitmap(&mut self, name: &str) -> (out: Vec<u8>)
        requires
            old(self)@.wf(),
        ensures
            final(self)@ == old(self)@,
            out@ == bitmap_text(
                encode_utf8(name@),
                old(self)@.bitmap.buffer.take(old(self)@.bitmap.index as int),
            ),
    {
        let mut out: Vec<u8> = Vec::new();
        push_str(&mut out, "const uint8_t ");
        push_str(&mut out, name);
        push_str(&mut out, "Bitmaps[] PROGMEM = {\n");
        self.bp.align();
        let sz = self.bp.size();
        let ghost bytes = self.bp@.buffer.take(sz as int);
        let ghost head = out@;
        assert(bytes.take(0) =~= Seq::<u8>::empty());
        let mut tab: usize = 0;
        let mut i: usize = 0;
        while i < sz
            invariant
                0 <= i <= sz,
                sz <= BUFFER_SIZE,
                self@ == old(self)@,
                sz == self@.bitmap.index,
                self@.bitmap.wf(),
                bytes == self@.bitmap.buffer.take(sz as int),
                tab == i % 12,
                out@ == head + bitmap_body(bytes.take(i as int)),
            decreases sz - i,
        {
            let ghost before = out@;
            let b = self.bp.data(i);
            tab = tab + 1;
            push_bitmap_item(&mut out, b, tab == 12);
            if tab == 12 {
                tab = 0;
            }
            proof {
                let k = (i + 1) as nat;
                assert(bytes.take(k as int).drop_last() =~= bytes.take(i as int));
                assert(bytes.take(k as int).last() == b);
                assert(out@ == before + bitmap_item(b, k));
                assert(out@ == head + bitmap_body(bytes.take(k as int)));
            }
            i = i + 1;
        }
        push_str(&mut out, " };\n\n");
        assert(bytes.take(sz as int) =~= bytes);
        assert(out@ =~= bitmap_text(encode_utf8(name@), bytes));
        out
    }

    /// The C array of the glyph records of the codes `first` to `last`,
    /// named `<name>Glyphs`, one initializer per line.
    pub fn dump_index(&mut self, name: &str) -> (out: Vec<u8>)
        requires
            old(self)@.wf(),
            old(self)@.has_records_for_range(),
        ensures
            final(self)@ == old(self)@,
            out@ == index_text(
                encode_utf8(name@),
                old(self)@.first as nat,
                old(self)@.last as nat,
                old(self)@.glyphs,
            ),
    {
        let mut out: Vec<u8> = Vec::new();
        push_str(&mut out, "const PFXglyph ");
        push_str(&mut out, name);
        push_str(&mut out, "Glyphs[] PROGMEM = {\n");
        let ghost head = out@;
        let first = self.first;
        let last = self.last;
        if first <= last {
            let mut i: usize = first;
            while i <= last
                invariant_except_break
                    first <= i <= last,
                    out@ == head + index_body(first as nat, self@.glyphs, (i - first) as nat),
                invariant
                    self@ == old(self)@,
                    first == self@.first,
                    last == self@.last,
                    first <= last,
                    self@.glyphs.len() >= last - first + 1,
                ensures
                    out@ == head + index_body(first as nat, self@.glyphs, (last - first + 1) as nat),
                decreases last - i,
            {
                let g = self.processed_glyphs[i - first];
                let ghost before = out@;
                push_index_line(&mut out, i, g);
                assert(out@ =~= before + index_line(i as nat, g));
                assert(out@ =~= head + index_body(first as nat, self@.glyphs, (i - first + 1) as nat));
                if i == last {
                    break;
                }
                i = i + 1;
            }
        }
        push_str(&mut out, "\n};\n");
        assert(out@ =~= index_text(encode_utf8(name@), first as nat, last as nat, self@.glyphs));
        out
    }

    /// The C structure named `<name>` that ties the arrays together, with
    /// the covered range, the line height, the pixel depth and whether the
    /// bitmap is compressed, followed by size estimates in comments.
    pub fn dump_footer(&mut self, name: &str) -> (out: Vec<u8>)
        requires
            old(self)@.wf(),
            old(self)@.first <= old(self)@.last,
            old(self)@.face_height == 0 ==> old(self)@.glyphs.len() > 0,
            (old(self)@.last - old(self)@.first + 1) * 8 + old(self)@.bitmap.index + 8 + 1023 <= usize::MAX,
        ensures
            final(self)@ == old(self)@,
            out@ == footer_text(
                encode_utf8(name@),
                old(self)@.first as nat,
                old(self)@.last as nat,
                old(self)@.face_height,
                if old(self)@.glyphs.len() > 0 { old(self)@.glyphs[0].height } else { 0 },
                old(self)@.bpp as nat,
                old(self)@.compression,
                old(self)@.bitmap.index,
            ),
    {
        let mut out = str_vec("const PFXfont ");
        push_str(&mut out, name);
        push_str(&mut out, " PROGMEM = {\n");
        push_str(&mut out, "  (uint8_t  *)");
        push_str(&mut out, name);
        push_str(&mut out, "Bitmaps,\n");
        push_str(&mut out, "  (PFXglyph *)");
        push_str(&mut out, name);
        push_str(&mut out, "Glyphs,\n");
        push_str(&mut out, "  ");
        push_alt_hex(&mut out, self.first as u64);
        push_str(&mut out, ", ");
        push_alt_hex(&mut out, self.last as u64);
        push_str(&mut out, ", ");
        if self.face_height == 0 {
            push_dec(&mut out, self.processed_glyphs[0].height as u64);
            push_str(&mut out, ", // first, last, advance (approx)\n");
        } else {
            push_signed_dec(&mut out, self.face_height as i64);
            push_str(&mut out, ",// first, last, advance\n");
        }
        push_str(&mut out, "  ");
        push_dec(&mut out, self.bpp as u64);
        push_str(&mut out, ",");
        push_dec(&mut out, if self.compression { 1 } else { 0 });
        push_str(&mut out, "}; // bit per pixel, compression \n\n");
        let sz = self.bp.size();
        push_size_line(&mut out, "// Bitmap output size   : about ", sz);
        let sizeofglyph: usize = 8;
        let mut sz = (self.last - self.first + 1) * sizeofglyph;
        push_size_line(&mut out, "// Header : about ", sz);
        sz = sz + self.bp.size() + sizeofglyph;
        push_str(&mut out, "//--------------------------------------\n");
        push_size_line(&mut out, "// total : about ", sz);
        assert(out@ == footer_text(
            encode_utf8(name@),
            self@.first as nat,
            self@.last as nat,
            self@.face_height,
            if self@.glyphs.len() > 0 { self@.glyphs[0].height } else { 0 },
            self@.bpp as nat,
            self@.compression,
            self@.bitmap.index,
        ));
        out
    }

    /// The number of bytes the glyph's pixels take once packed, when it can
    /// be packed (see [`glyph_can_pack`]).
    fn packed_size(&self, width: i32, rows: i32, pitch: i32, bits: &[u8]) -> (r: Option<usize>)
        requires
            self@.wf(),
        ensures
            r is Some <==> glyph_can_pack(self@, width, rows, pitch, bits@),
            r matches Some(n) ==> n == packed_len(glyph_bit_count(self@.bpp, width, rows)),
    {
        let w: u128 = if width > 0 { width as u128 } else { 0 };
        let h: u128 = if rows > 0 { rows as u128 } else { 0 };
        let grey = self.bpp == 2 || self.bpp == 4;
        let depth: u128 = if grey { self.bpp as u128 } else { 1 };
        assert(w * h * depth <= 0x7fff_ffff * 0x7fff_ffff * 4) by (nonlinear_arith)
            requires
                w <= 0x7fff_ffff,
                h <= 0x7fff_ffff,
                depth <= 4,
        ;
        let bit_count: u128 = w * h * depth;
        assert(bit_count == glyph_bit_count(self@.bpp, width, rows));
        let byte_count: u128 = (bit_count + 7) / 8;
        let room = byte_count <= BUFFER_SIZE as u128 && self.bp.size() as u128 <= BUFFER_SIZE as u128 - byte_count;
        assert(room == (self@.bitmap.index + packed_len(glyph_bit_count(self@.bpp, width, rows)) <= BUFFER_SIZE));
        let size = if room { Some(byte_count as usize) } else { None };
        if width > 0 && rows > 0 {
            if rows != 1 && pitch < 0 {
                assert(!mono_in_bounds(bits@.len(), width as int, rows as int, pitch as int));
                assert(!grey_in_bounds(bits@.len(), width as int, rows as int, pitch as int));
                return None;
            }
            let rows_before: i64 = (rows - 1) as i64;
            assert(0 <= rows_before * (pitch as i64) <= 0x7fff_ffff * 0x7fff_ffff) by (nonlinear_arith)
                requires
                    0 <= rows_before <= 0x7fff_ffff,
                    -0x8000_0000 <= pitch <= 0x7fff_ffff,
                    rows_before == 0 || pitch >= 0,
            ;
            let column: i64 = if grey { (width - 1) as i64 } else { ((width - 1) / 8) as i64 };
            let last_off: i64 = rows_before * (pitch as i64) + column;
            let in_bounds = last_off <= 0x7fff_ffff && (last_off as u64) < (bits.len() as u64);
            assert(in_bounds == (if is_grey(self@.bpp) {
                grey_in_bounds(bits@.len(), width as int, rows as int, pitch as int)
            } else {
                mono_in_bounds(bits@.len(), width as int, rows as int, pitch as int)
            }));
            if in_bounds {
                size
            } else {
                None
            }
        } else {
            size
        }
    }
}

/// The bounds [`selection_bounds`] returns, as a function of the map.
pub open spec fn selection_bounds_spec(map: Seq<u8>) -> (isize, isize) {
    if forall|j: int| 0 <= j < 256 ==> map[j] == 0 {
        (-1isize, 256isize)
    } else {
        let first = choose|f: int|
            0 <= f < 256 && map[f] != 0 && forall|j: int| 0 <= j < f ==> map[j] == 0;
        let last = choose|l: int|
            0 <= l < 256 && map[l] != 0 && forall|j: int| l < j < 256 ==> map[j] == 0;
        (first as isize, last as isize)
    }
}

/// The bounds of a map that selects nothing are `-1` and `256`; otherwise
/// the first bound is a selected code no later than the second.
pub proof fn lemma_selection_bounds_spec(map: Seq<u8>)
    requires
        map.len() == 256,
    ensures
        ({
            let (first, last) = selection_bounds_spec(map);
            &&& (first == -1) <==> (forall|j: int| 0 <= j < 256 ==> map[j] == 0)
            &&& first == -1 ==> last == 256
            &&& first != -1 ==> 0 <= first <= last < 256 && map[first as int] != 0 && map[last as int] != 0
        }),
{
    if !(forall|j: int| 0 <= j < 256 ==> map[j] == 0) {
        let w = choose|j: int| 0 <= j < 256 && map[j] != 0;
        lemma_first_selected(map, w);
        lemma_last_selected(map, w);
    }
}

proof fn lemma_first_selected(map: Seq<u8>, w: int)
    requires
        map.len() == 256,
        0 <= w < 256,
        map[w] != 0,
    ensures
        exists|f: int| 0 <= f < 256 && map[f] != 0 && forall|j: int| 0 <= j < f ==> map[j] == 0,
    decreases w,
{
    if forall|j: int| 0 <= j < w ==> map[j] == 0 {
        assert(0 <= w < 256 && map[w] != 0 && forall|j: int| 0 <= j < w ==> map[j] == 0);
    } else {
        let v = choose|j: int| 0 <= j < w && map[j] != 0;
        lemma_first_selected(map, v);
    }
}

proof fn lemma_last_selected(map: Seq<u8>, w: int)
    requires
        map.len() == 256,
        0 <= w < 256,
        map[w] != 0,
    ensures
        exists|l: int| 0 <= l < 256 && map[l] != 0 && forall|j: int| l < j < 256 ==> map[j] == 0,
    decreases 256 - w,
{
    if forall|j: int| w < j < 256 ==> map[j] == 0 {
        assert(0 <= w < 256 && map[w] != 0 && forall|j: int| w < j < 256 ==> map[j] == 0);
    } else {
        let v = choose|j: int| w < j < 256 && map[j] != 0;
        lemma_last_selected(map, v);
    }
}

proof fn lemma_selection_bounds_unique(map: Seq<u8>, first: int, last: int)
    requires
        map.len() == 256,
        first == -1 <==> (forall|j: int| 0 <= j < 256 ==> map[j] == 0),
        first == -1 ==> last == 256,
        first != -1 ==> {
            &&& 0 <= first <= last < 256
            &&& map[first] != 0
            &&& map[last] != 0
            &&& forall|j: int| 0 <= j < first ==> map[j] == 0
            &&& forall|j: int| last < j < 256 ==> map[j] == 0
        },
    ensures
        selection_bounds_spec(map) == (first as isize, last as isize),
{
    if first != -1 {
        let f = choose|f: int|
            0 <= f < 256 && map[f] != 0 && forall|j: int| 0 <= j < f ==> map[j] == 0;
        let l = choose|l: int|
            0 <= l < 256 && map[l] != 0 && forall|j: int| l < j < 256 ==> map[j] == 0;
        assert(0 <= f < 256 && map[f] != 0 && forall|j: int| 0 <= j < f ==> map[j] == 0);
        assert(0 <= l < 256 && map[l] != 0 && forall|j: int| l < j < 256 ==> map[j] == 0);
        assert(f == first) by {
            if f < first {
                assert(map[f] == 0);
            } else if f > first {
                assert(map[first] == 0);
            }
        }
        assert(l == last) by {
            if l < last {
                assert(map[last] == 0);
            } else if l > last {
                assert(map[l] == 0);
            }
        }
    }
}

proof fn lemma_glyph_pixels_len(bpp: usize, width: i32, rows: i32, pitch: i32, bits: Seq<u8>)
    ensures
        glyph_pixels(bpp, width, rows, pitch, bits).len() == glyph_bit_count(bpp, width, rows),
{
    if is_grey(bpp) {
        lemma_grey_pixels_len(bits, pitch as int, extent(width), extent(rows), bpp as nat);
    } else {
        crate::glyph::lemma_mono_pixels_len(bits, pitch as int, extent(width), extent(rows));
        assert(extent(width) * extent(rows) * 1 == extent(rows) * extent(width)) by (nonlinear_arith);
    }
}

} // verus!

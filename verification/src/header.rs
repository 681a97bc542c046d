//! Text of the C header that describes a bitmap font: numbers written in
//! decimal and hexadecimal, padded to a width.
use vstd::prelude::*;
use vstd::utf8::{encode_scalar, encode_utf8};
use crate::glyph::PFXGlyph;

verus! {

/// The ASCII digit of `d`, lower-case letters above nine.
pub open spec fn digit(d: nat) -> u8 {
    if d < 10 {
        (48 + d) as u8
    } else {
        (87 + d) as u8
    }
}

/// `n` in decimal, without leading zeros (zero is one digit).
pub open spec fn dec(n: nat) -> Seq<u8>
    decreases n,
{
    if n < 10 {
        seq![digit(n)]
    } else {
        dec(n / 10).push(digit(n % 10))
    }
}

/// Every byte of `s` is an ASCII decimal digit.
pub open spec fn all_decimal_digits(s: Seq<u8>) -> bool {
    forall|i: int| 0 <= i < s.len() ==> 48 <= #[trigger] s[i] <= 57
}

/// The number that the ASCII decimal digits `s` stand for, most significant
/// first.
pub open spec fn decimal_value(s: Seq<u8>) -> int
    decreases s.len(),
{
    if s.len() == 0 {
        0
    } else {
        decimal_value(s.drop_last()) * 10 + (s.last() - 48)
    }
}

/// `dec(n)` is a non-empty string of decimal digits standing for `n`, with
/// no leading zero unless `n` is zero.
pub proof fn lemma_dec(n: nat)
    ensures
        dec(n).len() >= 1,
        all_decimal_digits(dec(n)),
        decimal_value(dec(n)) == n,
        n > 0 ==> dec(n)[0] != 48,
    decreases n,
{
    if n >= 10 {
        lemma_dec(n / 10);
        let d = dec(n / 10);
        assert(dec(n) == d.push(digit(n % 10)));
        assert(dec(n).drop_last() =~= d);
        assert(dec(n).last() == digit(n % 10));
        assert(dec(n)[0] == d[0]);
        assert(decimal_value(dec(n)) == decimal_value(d) * 10 + (n % 10));
    } else {
        assert(dec(n).drop_last() =~= Seq::<u8>::empty());
        assert(decimal_value(dec(n)) == decimal_value(Seq::<u8>::empty()) * 10 + (digit(n) - 48));
    }
}

/// `n` in lower-case hexadecimal, without leading zeros (zero is one digit).
pub open spec fn hex(n: nat) -> Seq<u8>
    decreases n,
{
    if n < 16 {
        seq![digit(n)]
    } else {
        hex(n / 16).push(digit(n % 16))
    }
}

/// `v` in decimal with a minus sign when negative.
pub open spec fn signed_dec(v: int) -> Seq<u8> {
    if v < 0 {
        seq![45u8] + dec((-v) as nat)
    } else {
        dec(v as nat)
    }
}

/// `s` preceded by as many `fill` bytes as it takes to make it `width`
/// bytes long.
pub open spec fn pad_left(s: Seq<u8>, width: nat, fill: u8) -> Seq<u8> {
    if s.len() >= width {
        s
    } else {
        Seq::new((width - s.len()) as nat, |i: int| fill) + s
    }
}

/// `v` in decimal, right-aligned in `width` columns.
pub open spec fn padded_dec(v: int, width: nat) -> Seq<u8> {
    pad_left(signed_dec(v), width, 32u8)
}

/// `n` in hexadecimal after `0x`, with at least two digits.
pub open spec fn alt_hex(n: nat) -> Seq<u8> {
    seq![48u8, 120u8] + pad_left(hex(n), 2, 48u8)
}

/// The UTF-8 bytes of `s`.
pub open spec fn lit(s: &str) -> Seq<u8> {
    encode_utf8(s@)
}

/// One byte of the bitmap array, the `k`-th one: a line ends after every
/// twelfth.
pub open spec fn bitmap_item(b: u8, k: nat) -> Seq<u8> {
    lit(" ") + alt_hex(b as nat) + lit(",") + if k % 12 == 0 {
        lit("\n")
    } else {
        Seq::empty()
    }
}

/// The items of the bitmap array for `bytes`.
pub open spec fn bitmap_body(bytes: Seq<u8>) -> Seq<u8>
    decreases bytes.len(),
{
    if bytes.len() == 0 {
        Seq::empty()
    } else {
        bitmap_body(bytes.drop_last()) + bitmap_item(bytes.last(), bytes.len())
    }
}

/// The C array `<name>Bitmaps` holding `bytes`.
pub open spec fn bitmap_text(name: Seq<u8>, bytes: Seq<u8>) -> Seq<u8> {
    lit("const uint8_t ") + name + lit("Bitmaps[] PROGMEM = {\n") + bitmap_body(bytes) + lit(" };\n\n")
}

/// The initializer of the glyph record of `code`, with the code and its
/// character in a comment.
pub open spec fn index_line(code: nat, g: PFXGlyph) -> Seq<u8> {
    lit("  { ") + padded_dec(g.bitmapOffset as int, 5) + lit(", ") + padded_dec(g.width as int, 3)
        + lit(", ") + padded_dec(g.height as int, 3) + lit(", ") + padded_dec(g.xAdvance as int, 3)
        + lit(", ") + padded_dec(g.xOffset as int, 4) + lit(", ") + padded_dec(g.yOffset as int, 4)
        + lit("}") + lit(",   // ") + alt_hex(code) + lit(" '") + encode_scalar((code as u8) as u32)
        + lit("' \n")
}

/// The initializers of the first `n` records, the first for code `first`.
pub open spec fn index_body(first: nat, glyphs: Seq<PFXGlyph>, n: nat) -> Seq<u8>
    decreases n,
{
    if n == 0 {
        Seq::empty()
    } else {
        index_body(first, glyphs, (n - 1) as nat) + index_line((first + n - 1) as nat, glyphs[n - 1])
    }
}

/// The C array `<name>Glyphs` with the records of the codes `first` to
/// `last`.
pub open spec fn index_text(name: Seq<u8>, first: nat, last: nat, glyphs: Seq<PFXGlyph>) -> Seq<u8> {
    lit("const PFXglyph ") + name + lit("Glyphs[] PROGMEM = {\n") + index_body(
        first,
        glyphs,
        if first <= last {
            (last - first + 1) as nat
        } else {
            0
        },
    ) + lit("\n};\n")
}

/// A size in bytes and in kilobytes rounded up, as the footer states it.
pub open spec fn size_line(label: Seq<u8>, n: nat) -> Seq<u8> {
    label + dec(n) + lit(" bytes (") + dec((n + 1023) / 1024) + lit(" kBytes)\n")
}

/// The C structure `<name>` that ties the arrays together, followed by
/// size estimates. The line height is `face_height`, or the height of the
/// first glyph when `face_height` is zero.
pub open spec fn footer_text(
    name: Seq<u8>,
    first: nat,
    last: nat,
    face_height: i8,
    first_height: u8,
    bpp: nat,
    compression: bool,
    size: nat,
) -> Seq<u8> {
    let header = (last - first + 1) * 8;
    lit("const PFXfont ") + name + lit(" PROGMEM = {\n") + lit("  (uint8_t  *)") + name + lit("Bitmaps,\n")
        + lit("  (PFXglyph *)") + name + lit("Glyphs,\n") + lit("  ") + alt_hex(first) + lit(", ")
        + alt_hex(last) + lit(", ") + (if face_height == 0 {
        dec(first_height as nat)
    } else {
        signed_dec(face_height as int)
    }) + (if face_height == 0 {
        lit(", // first, last, advance (approx)\n")
    } else {
        lit(",// first, last, advance\n")
    }) + lit("  ") + dec(bpp) + lit(",") + dec(if compression {
        1
    } else {
        0
    }) + lit("}; // bit per pixel, compression \n\n") + size_line(lit("// Bitmap output size   : about "), size)
        + size_line(lit("// Header : about "), header as nat) + lit("//--------------------------------------\n")
        + size_line(lit("// total : about "), (header + size + 8) as nat)
}

/// A new vector holding the UTF-8 bytes of `s`.
pub(crate) fn str_vec(s: &str) -> (v: Vec<u8>)
    ensures
        v@ == lit(s),
{
    let mut v: Vec<u8> = Vec::new();
    push_str(&mut v, s);
    assert(Seq::<u8>::empty() + lit(s) =~= lit(s));
    v
}

/// Appends the UTF-8 bytes of `s`.
pub(crate) fn push_str(out: &mut Vec<u8>, s: &str)
    ensures
        final(out)@ == old(out)@ + lit(s),
{
    let bytes = s.as_bytes();
    let mut i: usize = 0;
    while i < bytes.len()
        invariant
            0 <= i <= bytes@.len(),
            bytes@ == encode_utf8(s@),
            out@ == old(out)@ + bytes@.take(i as int),
        decreases bytes@.len() - i,
    {
        out.push(bytes[i]);
        i = i + 1;
        assert(bytes@.take(i as int) =~= bytes@.take(i - 1) + seq![bytes@[i - 1]]);
    }
    assert(bytes@.take(i as int) =~= bytes@);
}

/// Appends `n` in decimal.
pub(crate) fn push_dec(out: &mut Vec<u8>, n: u64)
    ensures
        final(out)@ == old(out)@ + dec(n as nat),
    decreases n,
{
    if n >= 10 {
        push_dec(out, n / 10);
    }
    let d: u8 = (n % 10) as u8;
    out.push(48 + d);
    assert(out@ =~= old(out)@ + dec(n as nat));
}

/// Appends `n` in lower-case hexadecimal.
fn push_hex(out: &mut Vec<u8>, n: u64)
    ensures
        final(out)@ == old(out)@ + hex(n as nat),
    decreases n,
{
    if n >= 16 {
        push_hex(out, n / 16);
    }
    let d: u8 = (n % 16) as u8;
    let c: u8 = if d < 10 { 48 + d } else { 87 + d };
    out.push(c);
    assert(out@ =~= old(out)@ + hex(n as nat));
}

/// Appends `v` in decimal, right-aligned in `width` columns.
pub(crate) fn push_padded_dec(out: &mut Vec<u8>, v: i64, width: usize)
    requires
        v > i64::MIN,
    ensures
        final(out)@ == old(out)@ + padded_dec(v as int, width as nat),
{
    let mut text: Vec<u8> = Vec::new();
    if v < 0 {
        text.push(45u8);
        push_dec(&mut text, (-v) as u64);
    } else {
        push_dec(&mut text, v as u64);
    }
    assert(text@ =~= signed_dec(v as int));
    let mut k: usize = text.len();
    while k < width
        invariant
            text@.len() <= k <= width || (k == text@.len() && k >= width),
            out@ == old(out)@ + Seq::new((k - text@.len()) as nat, |i: int| 32u8),
        decreases width - k,
    {
        out.push(32u8);
        k = k + 1;
        assert(out@ =~= old(out)@ + Seq::new((k - text@.len()) as nat, |i: int| 32u8));
    }
    let mut i: usize = 0;
    let ghost pad = out@;
    while i < text.len()
        invariant
            0 <= i <= text@.len(),
            out@ == pad + text@.take(i as int),
        decreases text@.len() - i,
    {
        out.push(text[i]);
        i = i + 1;
        assert(text@.take(i as int) =~= text@.take(i - 1) + seq![text@[i - 1]]);
    }
    assert(text@.take(i as int) =~= text@);
    assert(out@ =~= old(out)@ + padded_dec(v as int, width as nat));
}

/// Appends `v` in decimal with a minus sign when negative.
pub(crate) fn push_signed_dec(out: &mut Vec<u8>, v: i64)
    requires
        v > i64::MIN,
    ensures
        final(out)@ == old(out)@ + signed_dec(v as int),
{
    if v < 0 {
        out.push(45u8);
        push_dec(out, (-v) as u64);
    } else {
        push_dec(out, v as u64);
    }
    assert(final(out)@ =~= old(out)@ + signed_dec(v as int));
}

/// Appends `n` in hexadecimal after `0x`, with at least two digits.
pub(crate) fn push_alt_hex(out: &mut Vec<u8>, n: u64)
    ensures
        final(out)@ == old(out)@ + alt_hex(n as nat),
{
    out.push(48u8);
    out.push(120u8);
    if n < 16 {
        out.push(48u8);
    }
    push_hex(out, n);
    proof {
        if n < 16 {
            assert(hex(n as nat).len() == 1);
            assert(Seq::new(1, |i: int| 48u8) + hex(n as nat) =~= seq![48u8] + hex(n as nat));
        } else {
            lemma_hex_len_two(n as nat);
        }
    }
    assert(out@ =~= old(out)@ + alt_hex(n as nat));
}

proof fn lemma_hex_len_two(n: nat)
    requires
        n >= 16,
    ensures
        hex(n).len() >= 2,
    decreases n,
{
    if n / 16 >= 16 {
        lemma_hex_len_two(n / 16);
    } else {
        assert(hex(n / 16).len() == 1);
    }
}

/// Appends the UTF-8 encoding of the character whose code is `b`.
pub(crate) fn push_latin1(out: &mut Vec<u8>, b: u8)
    ensures
        final(out)@ == old(out)@ + encode_scalar(b as u32),
{
    let c = b as u32;
    if b < 0x80 {
        out.push(b);
        assert((c & 0x7Fu32) as u8 == b) by (bit_vector)
            requires
                c == b as u32,
                b < 0x80u8,
        ;
        assert(encode_scalar(c) == seq![b]);
    } else {
        let hi: u8 = 0xC0u8 | ((b >> 6) & 0x1F);
        let lo: u8 = 0x80u8 | (b & 0x3F);
        out.push(hi);
        out.push(lo);
        assert(0xC0u8 | (((c >> 6u32) & 0x1Fu32) as u8) == hi && 0x80u8 | ((c & 0x3Fu32) as u8) == lo) by (bit_vector)
            requires
                c == b as u32,
                hi == 0xC0u8 | ((b >> 6u8) & 0x1Fu8),
                lo == 0x80u8 | (b & 0x3Fu8),
        ;
        assert(encode_scalar(c) == seq![hi, lo]);
    }
    assert(out@ =~= old(out)@ + encode_scalar(c));
}

/// The opening lines of the C header file.
pub fn c_header_prologue() -> (out: Vec<u8>)
    ensures
        out@ == lit("// Generated by flatconvert-rs  https://github.com/mean00/flatconvert-rs.git \n") + lit(
            "// a modified version of adafruit fontconvert \n",
        ) + lit("#pragma once\n"),
{
    let mut out = str_vec("// Generated by flatconvert-rs  https://github.com/mean00/flatconvert-rs.git \n");
    push_str(&mut out, "// a modified version of adafruit fontconvert \n");
    push_str(&mut out, "#pragma once\n");
    out
}

/// The opening lines of the Rust source file.
pub fn rs_header_prologue() -> (out: Vec<u8>)
    ensures
        out@ == lit("// Generated by flatconvert-rs  https://github.com/mean00/flatconvert-rs.git \n") + lit(
            "// a modified version of adafruit fontconvert \n",
        ) + lit("// RUST HEADER\n") + lit("#![allow(non_upper_case_globals)]\n") + lit(
            "use simpler_gfx::PFXglyph;\n",
        ) + lit("use simpler_gfx::PFXfont;\n"),
{
    let mut out = str_vec("// Generated by flatconvert-rs  https://github.com/mean00/flatconvert-rs.git \n");
    push_str(&mut out, "// a modified version of adafruit fontconvert \n");
    push_str(&mut out, "// RUST HEADER\n");
    push_str(&mut out, "#![allow(non_upper_case_globals)]\n");
    push_str(&mut out, "use simpler_gfx::PFXglyph;\n");
    push_str(&mut out, "use simpler_gfx::PFXfont;\n");
    out
}

} // verus!

use flatconvert::engine::EngineError;
use flatconvert::font::BitmapFont;
use flatconvert::glyph::PFXGlyph;
use flatconvert::header::{c_header_prologue, rs_header_prologue};

fn font_for(codes: &[usize], compression: bool) -> BitmapFont {
    let mut map = [0u8; 256];
    for &c in codes {
        map[c] = 1;
    }
    let mut font = BitmapFont::new();
    font.select(&map, compression);
    font.start_conversion(1);
    font
}

fn text(bytes: Vec<u8>) -> String {
    String::from_utf8(bytes).unwrap()
}

#[test]
fn new_font_covers_32_to_128_with_no_glyph() {
    let font = BitmapFont::new();
    assert_eq!(font.first(), 32);
    assert_eq!(font.last(), 128);
    assert_eq!(font.face_height(), 0);
    assert_eq!(font.glyph_count(), 0);
}

#[test]
fn empty_glyph_record_is_all_zero() {
    let g = PFXGlyph::new();
    assert_eq!(g, PFXGlyph { bitmapOffset: 0, width: 0, height: 0, xAdvance: 0, xOffset: 0, yOffset: 0 });
}

#[test]
fn select_records_the_range() {
    let font = font_for(&[66, 90], false);
    assert_eq!(font.first(), 66);
    assert_eq!(font.last(), 90);
}

#[test]
fn select_of_nothing_gives_an_empty_range() {
    let font = font_for(&[], false);
    assert_eq!(font.first(), usize::MAX);
    assert_eq!(font.last(), 256);
}

#[test]
fn glyph_pixels_are_packed_across_rows() {
    let mut font = font_for(&[65], false);
    // rows 101 and 011, two bytes per row
    let r = font.add_glyph(7, 1, 5, 3, 2, 2, &[0xA0, 0x00, 0x60, 0x00]);
    assert_eq!(r, Ok(()));
    assert_eq!(font.glyph_count(), 1);
    assert_eq!(
        text(font.dump_bitmap("T")),
        "const uint8_t TBitmaps[] PROGMEM = {\n 0xac, };\n\n"
    );
}

#[test]
fn glyph_record_and_index_line() {
    let mut font = font_for(&[65], false);
    font.add_glyph(7, 1, 5, 3, 2, 2, &[0xA0, 0x00, 0x60, 0x00]).unwrap();
    assert_eq!(
        text(font.dump_index("T")),
        "const PFXglyph TGlyphs[] PROGMEM = {\n  {     0,   3,   2,   7,    1,   -4},   // 0x41 'A' \n\n};\n"
    );
}

#[test]
fn second_glyph_starts_at_the_next_byte() {
    let mut font = font_for(&[65, 66], false);
    font.add_glyph(7, 0, 1, 9, 1, 2, &[0xFF, 0x80]).unwrap();
    font.add_glyph(4, -2, 0, 2, 1, 1, &[0x40]).unwrap();
    assert_eq!(
        text(font.dump_bitmap("F")),
        "const uint8_t FBitmaps[] PROGMEM = {\n 0xff, 0x80, 0x40, };\n\n"
    );
    assert_eq!(
        text(font.dump_index("F")),
        "const PFXglyph FGlyphs[] PROGMEM = {\n\
         \x20 {     0,   9,   1,   7,    0,    0},   // 0x41 'A' \n\
         \x20 {     2,   2,   1,   4,   -2,    1},   // 0x42 'B' \n\
         \n};\n"
    );
}

#[test]
fn glyph_without_rows_or_columns_gets_the_empty_record() {
    let mut font = font_for(&[65, 66], false);
    assert_eq!(font.add_glyph(5, 3, 3, 0, 4, 1, &[]), Ok(()));
    assert_eq!(font.add_glyph(5, 3, 3, 4, 0, 1, &[]), Ok(()));
    assert_eq!(font.glyph_count(), 2);
    assert_eq!(
        text(font.dump_bitmap("Z")),
        "const uint8_t ZBitmaps[] PROGMEM = {\n };\n\n"
    );
    assert_eq!(
        text(font.dump_index("Z")),
        "const PFXglyph ZGlyphs[] PROGMEM = {\n\
         \x20 {     0,   0,   0,   0,    0,    0},   // 0x41 'A' \n\
         \x20 {     0,   0,   0,   0,    0,    0},   // 0x42 'B' \n\
         \n};\n"
    );
}

#[test]
fn pixel_outside_the_bitmap_is_refused() {
    let mut font = font_for(&[65], false);
    assert_eq!(font.add_glyph(5, 0, 0, 20, 1, 1, &[0xFF]), Err(EngineError::InternalError));
    assert_eq!(font.glyph_count(), 0);
    assert_eq!(text(font.dump_bitmap("E")), "const uint8_t EBitmaps[] PROGMEM = {\n };\n\n");
}

#[test]
fn upward_rows_are_refused() {
    let mut font = font_for(&[65], false);
    assert_eq!(font.add_glyph(5, 0, 0, 8, 2, -1, &[0xFF, 0xFF]), Err(EngineError::InternalError));
    assert_eq!(font.glyph_count(), 0);
}

#[test]
fn single_row_ignores_the_pitch() {
    let mut font = font_for(&[65], false);
    assert_eq!(font.add_glyph(5, 0, 0, 8, 1, -1, &[0x0F]), Ok(()));
    assert_eq!(text(font.dump_bitmap("S")), "const uint8_t SBitmaps[] PROGMEM = {\n 0x0f, };\n\n");
}

#[test]
fn bitmap_that_does_not_fit_is_refused() {
    let mut font = font_for(&[65], false);
    let bits = vec![0u8; 1024];
    // 2100 x 1000 pixels would take 262500 bytes
    assert_eq!(font.add_glyph(5, 0, 0, 2100, 1000, 0, &bits), Err(EngineError::InternalError));
    assert_eq!(font.glyph_count(), 0);
}

#[test]
fn large_advance_is_taken_as_fixed_point() {
    let mut font = font_for(&[65], false);
    font.add_glyph(0x50000, 0, 0, 1, 1, 1, &[0x80]).unwrap();
    let index = text(font.dump_index("A"));
    assert!(index.contains("  {     0,   1,   1,   5,    0,    1},"), "{}", index);
}

#[test]
fn bitmap_array_breaks_lines_after_twelve_bytes() {
    let mut font = font_for(&[65], false);
    let bits = vec![0x01u8; 13];
    font.add_glyph(1, 0, 0, 104, 1, 13, &bits).unwrap();
    let expected = format!(
        "const uint8_t BBitmaps[] PROGMEM = {{\n{}\n 0x01, }};\n\n",
        " 0x01,".repeat(12)
    );
    assert_eq!(text(font.dump_bitmap("B")), expected);
}

#[test]
fn index_line_shows_latin1_character() {
    let mut font = font_for(&[0xe9], false);
    font.add_missing_glyph();
    assert_eq!(
        text(font.dump_index("L")),
        "const PFXglyph LGlyphs[] PROGMEM = {\n  {     0,   0,   0,   0,    0,    0},   // 0xe9 '\u{e9}' \n\n};\n"
    );
}

#[test]
fn footer_takes_the_first_glyph_height_without_face_height() {
    let mut font = font_for(&[65], false);
    font.add_glyph(7, 1, 5, 3, 2, 2, &[0xA0, 0x00, 0x60, 0x00]).unwrap();
    assert_eq!(
        text(font.dump_footer("T")),
        "const PFXfont T PROGMEM = {\n\
         \x20 (uint8_t  *)TBitmaps,\n\
         \x20 (PFXglyph *)TGlyphs,\n\
         \x20 0x41, 0x41, 2, // first, last, advance (approx)\n\
         \x20 1,0}; // bit per pixel, compression \n\n\
         // Bitmap output size   : about 1 bytes (1 kBytes)\n\
         // Header : about 8 bytes (1 kBytes)\n\
         //--------------------------------------\n\
         // total : about 17 bytes (1 kBytes)\n"
    );
}

#[test]
fn footer_uses_face_height_and_compression() {
    let mut font = font_for(&[48, 57], true);
    font.set_face_height(12 * 64 + 30);
    for _ in 48..=57 {
        font.add_missing_glyph();
    }
    let footer = text(font.dump_footer("D"));
    assert!(footer.contains("  0x30, 0x39, 12,// first, last, advance\n"), "{}", footer);
    assert!(footer.contains("  1,1}; // bit per pixel, compression \n\n"), "{}", footer);
    assert!(footer.contains("// Header : about 80 bytes (1 kBytes)\n"), "{}", footer);
    assert!(footer.contains("// total : about 88 bytes (1 kBytes)\n"), "{}", footer);
}

#[test]
fn face_height_rounds_toward_zero() {
    let mut font = BitmapFont::new();
    font.set_face_height(-100);
    assert_eq!(font.face_height(), -1);
    font.set_face_height(127);
    assert_eq!(font.face_height(), 1);
}

#[test]
fn negative_face_height_is_written_with_a_sign() {
    let mut font = font_for(&[65], false);
    font.set_face_height(-640);
    font.add_missing_glyph();
    let footer = text(font.dump_footer("N"));
    assert!(footer.contains("  0x41, 0x41, -10,// first, last, advance\n"), "{}", footer);
}

#[test]
fn compression_stores_heatshrink_encodings() {
    let mut font = font_for(&[65, 66], true);
    font.add_glyph(7, 0, 1, 9, 1, 2, &[0xFF, 0x80]).unwrap();
    font.add_glyph(4, 0, 1, 8, 1, 1, &[0x3C]).unwrap();
    assert_eq!(
        text(font.dump_bitmap("C")),
        "const uint8_t CBitmaps[] PROGMEM = {\n 0xff, 0xe0, 0x00, 0x9e, 0x00, };\n\n"
    );
    let index = text(font.dump_index("C"));
    assert!(index.contains("  {     3,   8,   1,   4,    0,    0},   // 0x42 'B' \n"), "{}", index);
}

#[test]
fn compressed_one_pixel_takes_two_bytes() {
    let mut font = font_for(&[65], true);
    font.add_glyph(1, 0, 0, 1, 1, 1, &[0x80]).unwrap();
    assert_eq!(
        text(font.dump_bitmap("P")),
        "const uint8_t PBitmaps[] PROGMEM = {\n 0xc0, 0x00, };\n\n"
    );
}

#[test]
fn two_bits_per_pixel_keep_four_grey_levels() {
    let mut font = font_for(&[65], false);
    font.start_conversion(2);
    // levels 3 1 2 / 0 3 0
    font.add_glyph(5, 0, 0, 3, 2, 3, &[0xFF, 0x40, 0x80, 0x00, 0xC0, 0x3F]).unwrap();
    assert_eq!(
        text(font.dump_bitmap("G")),
        "const uint8_t GBitmaps[] PROGMEM = {\n 0xd8, 0xc0, };\n\n"
    );
    let index = text(font.dump_index("G"));
    assert!(index.contains("  {     0,   3,   2,   5,    0,    1},"), "{}", index);
}

#[test]
fn four_bits_per_pixel_keep_sixteen_grey_levels() {
    let mut font = font_for(&[65, 66], false);
    font.start_conversion(4);
    font.add_glyph(5, 0, 0, 3, 1, 3, &[0xF0, 0x25, 0x9A]).unwrap();
    font.add_glyph(5, 0, 0, 2, 1, 2, &[0x11, 0xEE]).unwrap();
    assert_eq!(
        text(font.dump_bitmap("H")),
        "const uint8_t HBitmaps[] PROGMEM = {\n 0xf2, 0x90, 0x1e, };\n\n"
    );
    let index = text(font.dump_index("H"));
    assert!(index.contains("  {     2,   2,   1,   5,    0,    1},"), "{}", index);
}

#[test]
fn grey_pixel_outside_the_bitmap_is_refused() {
    let mut font = font_for(&[65], false);
    font.start_conversion(4);
    assert_eq!(font.add_glyph(5, 0, 0, 4, 1, 4, &[0xFF, 0xFF, 0xFF]), Err(EngineError::InternalError));
    assert_eq!(font.glyph_count(), 0);
}

#[test]
fn records_past_the_range_do_not_stop_the_index() {
    let mut font = font_for(&[65], false);
    font.add_missing_glyph();
    font.add_missing_glyph();
    assert_eq!(
        text(font.dump_index("R")),
        "const PFXglyph RGlyphs[] PROGMEM = {\n  {     0,   0,   0,   0,    0,    0},   // 0x41 'A' \n\n};\n"
    );
}

#[test]
fn prologues() {
    assert_eq!(
        text(c_header_prologue()),
        "// Generated by flatconvert-rs  https://github.com/mean00/flatconvert-rs.git \n\
         // a modified version of adafruit fontconvert \n#pragma once\n"
    );
    let rs = text(rs_header_prologue());
    assert!(rs.ends_with("// RUST HEADER\n#![allow(non_upper_case_globals)]\nuse simpler_gfx::PFXglyph;\nuse simpler_gfx::PFXfont;\n"));
}

/// Fills the bitmap, without compression, up to `room` bytes short of its
/// end, then turns compression on.
fn nearly_full_compressed_font(room: usize) -> BitmapFont {
    let mut font = font_for(&[65], false);
    let big = vec![0x55u8; 1024 * 255];
    assert_eq!(font.add_glyph(0, 0, 0, 8 * 1024, 255, 1024, &big), Ok(()));
    let rest = 1024 - room;
    let tail = vec![0x33u8; rest];
    assert_eq!(font.add_glyph(0, 0, 0, (8 * rest) as i32, 1, rest as i32, &tail), Ok(()));
    assert_eq!(font.bitmap_size(), 262144 - room);
    let mut map = [0u8; 256];
    map[65] = 1;
    font.select(&map, true);
    font
}

#[test]
fn compressed_glyph_that_fits_near_the_end_is_kept() {
    // 90 packed zero bytes: their encoding is short, though nine bits per
    // byte would not fit into the 100 bytes left
    let mut font = nearly_full_compressed_font(100);
    let zeros = vec![0u8; 90];
    assert_eq!(font.add_glyph(0, 0, 0, 8 * 90, 1, 90, &zeros), Ok(()));
    assert_eq!(font.glyph_count(), 3);
    assert!(font.bitmap_size() < 262144 - 100 + 20);
}

#[test]
fn compressed_glyph_whose_encoding_does_not_fit_is_refused() {
    let mut font = nearly_full_compressed_font(100);
    let mut noisy = Vec::new();
    let mut x: u32 = 12345;
    for _ in 0..99 {
        x = x.wrapping_mul(1103515245).wrapping_add(12345);
        noisy.push((x >> 16) as u8);
    }
    assert_eq!(font.add_glyph(0, 0, 0, 8 * 99, 1, 99, &noisy), Err(EngineError::InternalError));
    assert_eq!(font.glyph_count(), 2);
    assert_eq!(font.bitmap_size(), 262144 - 100);
}

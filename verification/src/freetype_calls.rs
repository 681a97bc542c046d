//! The calls into FreeType that loading and rendering glyphs makes.
//!
//! FreeType's results depend on the font data a face was loaded from and
//! on what was loaded into the face before; none of that is visible here,
//! so these items promise nothing about what they return.
use vstd::prelude::*;
use freetype::{Bitmap, BitmapGlyph, Face, Glyph, GlyphSlot, Library};
use crate::engine::{Reading, Target};

verus! {

#[verifier::external_type_specification]
#[verifier::external_body]
pub struct ExLibrary(freetype::Library);

#[verifier::external_type_specification]
#[verifier::external_body]
#[verifier::reject_recursive_types(BYTES)]
pub struct ExFace<BYTES>(freetype::Face<BYTES>);

#[verifier::external_type_specification]
#[verifier::external_body]
pub struct ExError(freetype::Error);

#[verifier::external_type_specification]
#[verifier::external_body]
pub struct ExGlyphSlot(freetype::GlyphSlot);

#[verifier::external_type_specification]
#[verifier::external_body]
pub struct ExGlyph(freetype::Glyph);

#[verifier::external_type_specification]
#[verifier::external_body]
pub struct ExBitmapGlyph(freetype::BitmapGlyph);

#[verifier::external_type_specification]
#[verifier::external_body]
pub struct ExBitmap(freetype::Bitmap);

/// `Library::init`: a new FreeType instance with the default modules, or
/// FreeType's error. Nothing is promised of which.
#[verifier::external_body]
pub(crate) fn library_init() -> (r: Result<Library, freetype::Error>) {
    Library::init()
}

/// `Library::new_memory_face`: the face number `face_index` of the font
/// file held in `data`, or FreeType's error when the data is no font it
/// reads. Nothing is promised of which.
#[verifier::external_body]
pub(crate) fn new_memory_face(lib: &Library, data: Vec<u8>, face_index: isize) -> (r: Result<
    Face,
    freetype::Error,
>) {
    lib.new_memory_face(data, face_index)
}

/// `Face::set_char_size`: sets the character size (26.6 fixed point) and
/// resolution in dots per inch. Whether FreeType accepts it is not stated;
/// the ghost part of the result records the four values handed to it.
#[verifier::external_body]
pub(crate) fn set_char_size(
    face: &Face,
    char_width: isize,
    char_height: isize,
    horz_resolution: u32,
    vert_resolution: u32,
) -> (r: (Result<(), freetype::Error>, Ghost<(isize, isize, u32, u32)>))
    ensures
        r.1@ == (char_width, char_height, horz_resolution, vert_resolution),
{
    (
        face.set_char_size(char_width, char_height, horz_resolution, vert_resolution),
        Ghost((char_width, char_height, horz_resolution, vert_resolution)),
    )
}

/// `Face::load_char` with `LoadFlag::TARGET_MONO`: loads the glyph of
/// `char_code` into the face's glyph slot, hinted for monochrome
/// rendering. Whether a glyph is found is not stated; the ghost part of
/// the result records the code and the target that were asked for.
#[verifier::external_body]
pub(crate) fn load_char_mono(face: &Face, char_code: usize) -> (r: (Result<(), freetype::Error>, Ghost<(usize, Target)>))
    ensures
        r.1@ == (char_code, Target::Mono),
{
    (face.load_char(char_code, freetype::face::LoadFlag::TARGET_MONO), Ghost((char_code, Target::Mono)))
}

/// `Face::load_char` with `LoadFlag::TARGET_NORMAL`: loads the glyph of
/// `char_code` into the face's glyph slot, hinted for grey-level
/// rendering. Whether a glyph is found is not stated; the ghost part of
/// the result records the code and the target that were asked for.
#[verifier::external_body]
pub(crate) fn load_char_normal(face: &Face, char_code: usize) -> (r: (Result<(), freetype::Error>, Ghost<(usize, Target)>))
    ensures
        r.1@ == (char_code, Target::Normal),
{
    (face.load_char(char_code, freetype::face::LoadFlag::TARGET_NORMAL), Ghost((char_code, Target::Normal)))
}

/// `Face::size_metrics`, of which the line height (`height`, 26.6 fixed
/// point) is kept; `None` when the face has no size. The value is not
/// stated; the ghost part of the result is a copy of it.
#[verifier::external_body]
pub(crate) fn size_metrics_height(face: &Face) -> (r: (Option<i64>, Ghost<Option<i64>>))
    ensures
        r.1@ == r.0,
{
    let v = face.size_metrics().map(|m| m.height as i64);
    (v, Ghost(v))
}

/// `Face::glyph`: the face's glyph slot.
#[verifier::external_body]
pub(crate) fn face_glyph(face: &Face) -> (r: &GlyphSlot) {
    face.glyph()
}

/// `GlyphSlot::get_glyph`: a copy of the glyph in the slot, or FreeType's
/// error. Nothing is promised of which.
#[verifier::external_body]
pub(crate) fn get_glyph(slot: &GlyphSlot) -> (r: Result<Glyph, freetype::Error>) {
    slot.get_glyph()
}

/// `Glyph::advance_x`: the horizontal advance of the glyph; its value is
/// not stated. The ghost part of the result is the value tagged as an
/// advance.
#[verifier::external_body]
pub(crate) fn advance_x(glyph: &Glyph) -> (r: (isize, Ghost<Reading>))
    ensures
        r.1@ == Reading::AdvanceX(r.0),
{
    let v = glyph.advance_x();
    (v, Ghost(Reading::AdvanceX(v)))
}

/// `Glyph::to_bitmap` with `RenderMode::Mono` and no origin shift: the
/// glyph rendered one bit per pixel, or FreeType's error. Nothing is
/// promised of which; the ghost part of the result records the mode.
#[verifier::external_body]
pub(crate) fn to_bitmap_mono(glyph: &Glyph) -> (r: (Result<BitmapGlyph, freetype::Error>, Ghost<Target>))
    ensures
        r.1@ == Target::Mono,
{
    (glyph.to_bitmap(freetype::RenderMode::Mono, None), Ghost(Target::Mono))
}

/// `Glyph::to_bitmap` with `RenderMode::Normal` and no origin shift: the
/// glyph rendered with 8-bit grey levels, one byte per pixel, or
/// FreeType's error. Nothing is promised of which; the ghost part of the
/// result records the mode.
#[verifier::external_body]
pub(crate) fn to_bitmap_normal(glyph: &Glyph) -> (r: (Result<BitmapGlyph, freetype::Error>, Ghost<Target>))
    ensures
        r.1@ == Target::Normal,
{
    (glyph.to_bitmap(freetype::RenderMode::Normal, None), Ghost(Target::Normal))
}

/// `BitmapGlyph::left`: the column of the bitmap's left edge relative to
/// the pen position; its value is not stated. The ghost part of the
/// result is the value tagged as a left edge.
#[verifier::external_body]
pub(crate) fn bitmap_left(glyph: &BitmapGlyph) -> (r: (i32, Ghost<Reading>))
    ensures
        r.1@ == Reading::Left(r.0),
{
    let v = glyph.left();
    (v, Ghost(Reading::Left(v)))
}

/// `BitmapGlyph::top`: the row of the bitmap's top edge above the
/// baseline; its value is not stated. The ghost part of the result is the
/// value tagged as a top edge.
#[verifier::external_body]
pub(crate) fn bitmap_top(glyph: &BitmapGlyph) -> (r: (i32, Ghost<Reading>))
    ensures
        r.1@ == Reading::Top(r.0),
{
    let v = glyph.top();
    (v, Ghost(Reading::Top(v)))
}

/// `BitmapGlyph::bitmap`: the bitmap of the rendered glyph.
#[verifier::external_body]
pub(crate) fn glyph_bitmap(glyph: &BitmapGlyph) -> (r: Bitmap) {
    glyph.bitmap()
}

/// `Bitmap::width`: pixels per row; not stated. The ghost part of the
/// result is the value tagged as a width.
#[verifier::external_body]
pub(crate) fn bitmap_width(bitmap: &Bitmap) -> (r: (i32, Ghost<Reading>))
    ensures
        r.1@ == Reading::Width(r.0),
{
    let v = bitmap.width();
    (v, Ghost(Reading::Width(v)))
}

/// `Bitmap::rows`: number of rows; not stated. The ghost part of the
/// result is the value tagged as a row count.
#[verifier::external_body]
pub(crate) fn bitmap_rows(bitmap: &Bitmap) -> (r: (i32, Ghost<Reading>))
    ensures
        r.1@ == Reading::Rows(r.0),
{
    let v = bitmap.rows();
    (v, Ghost(Reading::Rows(v)))
}

/// `Bitmap::pitch`: bytes from the start of one row to the next; not
/// stated. The ghost part of the result is the value tagged as a pitch.
#[verifier::external_body]
pub(crate) fn bitmap_pitch(bitmap: &Bitmap) -> (r: (i32, Ghost<Reading>))
    ensures
        r.1@ == Reading::Pitch(r.0),
{
    let v = bitmap.pitch();
    (v, Ghost(Reading::Pitch(v)))
}

/// `Bitmap::buffer`: the bitmap's bytes. Their number (the pitch's absolute
/// value times the rows, or none) and contents are not stated. The ghost
/// part of the result is the bytes tagged as the bitmap's buffer.
#[verifier::external_body]
pub(crate) fn bitmap_buffer(bitmap: &Bitmap) -> (r: (&[u8], Ghost<Reading>))
    ensures
        r.1@ == Reading::Bits(r.0@),
{
    let v = bitmap.buffer();
    (v, Ghost(Reading::Bits(v@)))
}

} // verus!

//! The converter: a FreeType face and the bitmap font made from it.
use vstd::prelude::*;
use vstd::utf8::encode_utf8;
use freetype::{Face, Library};
use crate::font::{BitmapFont, FontState, Rendering, selection_bounds_spec, div64};
use crate::glyph::zero_glyph;
use crate::header::{bitmap_text, index_text, footer_text};
use crate::freetype_calls::{
    library_init, new_memory_face, set_char_size, load_char_mono, load_char_normal,
    size_metrics_height, face_glyph, get_glyph, advance_x, to_bitmap_mono, to_bitmap_normal, bitmap_left, bitmap_top, glyph_bitmap, bitmap_width,
    bitmap_rows, bitmap_pitch, bitmap_buffer,
};

verus! {

/// Resolution the glyphs are rendered at, in dots per inch.
const DPI: u32 = 141;

/// Why a conversion could not be done.
#[derive(Debug, Clone, Copy, PartialEq, Eq)]
pub enum EngineError {
    FreeTypeError,
    FileError,
    InternalError,
}

/// How FreeType is asked to hint and render a glyph: one bit per pixel
/// (`TARGET_MONO`, `RenderMode::Mono`) or 8-bit grey levels
/// (`TARGET_NORMAL`, `RenderMode::Normal`).
pub enum Target {
    Mono,
    Normal,
}

/// One glyph asked of FreeType: the code loaded and the target it was
/// loaded for, and the mode it was then rendered in, if it was.
pub struct Request {
    pub code: usize,
    pub target: Target,
    pub rendered: Option<Target>,
}

/// A value read from FreeType about a glyph or its rendered bitmap, tagged
/// with the accessor it was read through.
pub enum Reading {
    AdvanceX(isize),
    Left(i32),
    Top(i32),
    Width(i32),
    Rows(i32),
    Pitch(i32),
    Bits(Seq<u8>),
}

/// What became of one glyph asked of FreeType: whether the load succeeded,
/// whether the glyph could then be taken from the slot (`None` when it was
/// not tried), and what was read from its rendering, in order.
pub struct Outcome {
    pub loaded: bool,
    pub glyph: Option<bool>,
    pub readings: Seq<Reading>,
}

/// The readings a rendering is made of: the advance through
/// `Glyph::advance_x`, the placement through `BitmapGlyph::left` and
/// `BitmapGlyph::top`, and width, rows, pitch and bytes through the
/// accessors of the same names of its `Bitmap`.
pub open spec fn readings_of(g: Rendering) -> Seq<Reading> {
    seq![
        Reading::AdvanceX(g.advance_x),
        Reading::Left(g.left),
        Reading::Top(g.top),
        Reading::Width(g.width),
        Reading::Rows(g.rows),
        Reading::Pitch(g.pitch),
        Reading::Bits(g.bits),
    ]
}

/// A code's outcome `r` agrees with what FreeType answered: a rendering
/// only after a load and a glyph that succeeded, made of exactly what was
/// read from FreeType; no rendering only when the load or the glyph
/// failed.
pub open spec fn answers(o: Outcome, r: Option<Rendering>) -> bool {
    match r {
        Some(g) => o.loaded && o.glyph == Some(true) && o.readings == readings_of(g),
        None => !o.loaded || o.glyph == Some(false),
    }
}

/// Each request for a code among the first `rs.len()` codes of a range
/// starting at `first` has an outcome, and that code's outcome in `rs`
/// agrees with it.
pub open spec fn answered(requests: Seq<Request>, outcomes: Seq<Outcome>, first: usize, rs: Seq<Option<Rendering>>) -> bool {
    &&& outcomes.len() == requests.len()
    &&& forall|j: int|
        0 <= j < requests.len() && first <= #[trigger] requests[j].code < first + rs.len() ==> answers(
            outcomes[j],
            rs[requests[j].code - first],
        )
}

/// Handling one more code keeps every earlier request answered.
proof fn lemma_answered_push(
    requests: Seq<Request>,
    outcomes: Seq<Outcome>,
    first: usize,
    rs: Seq<Option<Rendering>>,
    r: Option<Rendering>,
)
    requires
        answered(requests, outcomes, first, rs),
        forall|j: int| 0 <= j < requests.len() ==> #[trigger] requests[j].code < first + rs.len(),
    ensures
        answered(requests, outcomes, first, rs.push(r)),
{
    assert forall|j: int|
        0 <= j < requests.len() && first <= #[trigger] requests[j].code < first + rs.push(r).len() implies answers(
            outcomes[j],
            rs.push(r)[requests[j].code - first],
        ) by {
        assert(rs.push(r)[requests[j].code - first] == rs[requests[j].code - first]);
    }
}

/// A new request for the next code, whose outcome agrees with that code's
/// outcome, keeps the log answered.
proof fn lemma_answered_extend(
    requests: Seq<Request>,
    outcomes: Seq<Outcome>,
    first: usize,
    rs: Seq<Option<Rendering>>,
    r: Option<Rendering>,
    q: Request,
    o: Outcome,
)
    requires
        answered(requests, outcomes, first, rs),
        forall|j: int| 0 <= j < requests.len() ==> #[trigger] requests[j].code < first + rs.len(),
        q.code == first + rs.len(),
        answers(o, r),
    ensures
        answered(requests.push(q), outcomes.push(o), first, rs.push(r)),
{
    lemma_answered_push(requests, outcomes, first, rs, r);
    let rq = requests.push(q);
    let ro = outcomes.push(o);
    assert forall|j: int|
        0 <= j < rq.len() && first <= #[trigger] rq[j].code < first + rs.push(r).len() implies answers(
            ro[j],
            rs.push(r)[rq[j].code - first],
        ) by {
        if j < requests.len() {
            assert(rq[j] == requests[j]);
            assert(ro[j] == outcomes[j]);
        }
    }
}

/// A code whose outcome is a rendering got its record from what FreeType
/// answered for it: its load and its glyph succeeded, and the record holds
/// the left edge read from the rendered bitmap as x offset, one minus the
/// top edge read from it as y offset, and the width and rows read from its
/// bitmap as width and height.
pub proof fn lemma_rendered_record(s: FontState, o: Outcome, g: Rendering)
    requires
        answers(o, Some(g)),
        g.width != 0,
        g.rows != 0,
    ensures
        o.loaded,
        o.glyph == Some(true),
        ({
            let rec = s.with_rendering(Some(g)).glyphs.last();
            &&& o.readings[1] matches Reading::Left(l) && rec.xOffset == l as i8
            &&& o.readings[2] matches Reading::Top(t) && rec.yOffset == (1 - t) as i8
            &&& o.readings[3] matches Reading::Width(w) && rec.width == w as u8
            &&& o.readings[4] matches Reading::Rows(h) && rec.height == h as u8
        }),
{
}

/// The missing codes are exactly the selected codes of the range so far
/// whose outcome is no rendering, in increasing order.
pub proof fn lemma_missing_codes(first: usize, map: Seq<u8>, rs: Seq<Option<Rendering>>)
    requires
        first + rs.len() <= 256,
    ensures
        forall|c: usize|
            #[trigger] missing_codes(first, map, rs).contains(c) <==> (first <= c < first + rs.len() && map[c as int]
                != 0 && rs[c - first] is None),
    decreases rs.len(),
{
    if rs.len() > 0 {
        let prev = rs.drop_last();
        let k = rs.len() - 1;
        lemma_missing_codes(first, map, prev);
        let before = missing_codes(first, map, prev);
        let tail = if rs.last() is None && map[first + k] != 0 {
            seq![(first + k) as usize]
        } else {
            Seq::<usize>::empty()
        };
        assert(missing_codes(first, map, rs) == before + tail);
        assert forall|c: usize|
            #[trigger] missing_codes(first, map, rs).contains(c) <==> (first <= c < first + rs.len() && map[c as int]
                != 0 && rs[c - first] is None) by {
            if first <= c < first + k {
                assert(prev[c - first] == rs[c - first]);
            }
            if (before + tail).contains(c) {
                let i = choose|i: int| 0 <= i < (before + tail).len() && (before + tail)[i] == c;
                if i < before.len() {
                    assert(before.contains(c));
                } else {
                    assert(tail.contains(c));
                }
            }
            if first <= c < first + rs.len() && map[c as int] != 0 && rs[c - first] is None {
                if c < first + k {
                    assert(before.contains(c));
                    let i = choose|i: int| 0 <= i < before.len() && before[i] == c;
                    assert((before + tail)[i] == c);
                } else {
                    assert((before + tail)[before.len() as int] == c);
                }
            }
        }
    }
}

/// A selected code that FreeType loaded and gave a glyph for, in a
/// conversion whose requests are answered, has a rendering and is not among
/// the missing codes.
pub proof fn lemma_loaded_not_missing(
    requests: Seq<Request>,
    outcomes: Seq<Outcome>,
    first: usize,
    map: Seq<u8>,
    rs: Seq<Option<Rendering>>,
    target: Target,
    j: int,
)
    requires
        first + rs.len() <= 256,
        requests == request_log(first, map, rs, target),
        answered(requests, outcomes, first, rs),
        0 <= j < requests.len(),
        outcomes[j].loaded,
        outcomes[j].glyph == Some(true),
    ensures
        rs[requests[j].code - first] is Some,
        !missing_codes(first, map, rs).contains(requests[j].code),
{
    lemma_request_log_entries(first, map, rs, target);
    lemma_missing_codes(first, map, rs);
    let q = requests[j];
    assert(first <= q.code < first + rs.len());
}

/// The target a conversion at depth `bpp` asks for: monochrome at 1 bit
/// per pixel, grey levels at 2 and 4.
pub open spec fn target_for(bpp: u8) -> Target {
    if bpp == 1 {
        Target::Mono
    } else {
        Target::Normal
    }
}

/// The glyphs asked of FreeType while the first outcomes `rs` of a range
/// starting at `first` were made: each selected code in order, loaded for
/// `target`, and rendered in that same mode exactly when it has a
/// rendering.
pub open spec fn request_log(first: usize, map: Seq<u8>, rs: Seq<Option<Rendering>>, target: Target) -> Seq<Request>
    decreases rs.len(),
{
    if rs.len() == 0 {
        Seq::empty()
    } else {
        let k = rs.len() - 1;
        request_log(first, map, rs.drop_last(), target) + if map[first + k] != 0 {
            seq![Request {
                code: (first + k) as usize,
                target,
                rendered: if rs.last() is Some { Some(target) } else { None },
            }]
        } else {
            Seq::empty()
        }
    }
}

/// The log grows by the request of the last outcome's code, if it is
/// selected.
proof fn lemma_request_log_step(first: usize, map: Seq<u8>, rs: Seq<Option<Rendering>>, target: Target)
    requires
        rs.len() > 0,
        first + rs.len() <= 256,
    ensures
        ({
            let before = request_log(first, map, rs.drop_last(), target);
            let log = request_log(first, map, rs, target);
            let k = rs.len() - 1;
            &&& log.len() == before.len() + if map[first + k] != 0 { 1int } else { 0int }
            &&& forall|j: int| 0 <= j < before.len() ==> #[trigger] log[j] == before[j]
            &&& map[first + k] != 0 ==> log[before.len() as int] == (Request {
                code: (first + k) as usize,
                target,
                rendered: if rs[k] is Some { Some(target) } else { None },
            })
            &&& forall|i: int| 0 <= i < k ==> #[trigger] rs.drop_last()[i] == rs[i]
        }),
{
}

/// Each request of the log of a range that starts at `first` is for a
/// selected code of the range so far, loaded for `target`, and rendered (in
/// the mode of `target`) exactly when its outcome is a rendering.
pub proof fn lemma_request_log_entries(first: usize, map: Seq<u8>, rs: Seq<Option<Rendering>>, target: Target)
    requires
        first + rs.len() <= 256,
    ensures
        forall|j: int|
            0 <= j < request_log(first, map, rs, target).len() ==> {
                let q = #[trigger] request_log(first, map, rs, target)[j];
                &&& first <= q.code < first + rs.len()
                &&& map[q.code as int] != 0
                &&& q.target == target
                &&& q.rendered == if rs[q.code - first] is Some {
                    Some(target)
                } else {
                    None
                }
            },
    decreases rs.len(),
{
    if rs.len() > 0 {
        let prev = rs.drop_last();
        lemma_request_log_entries(first, map, prev, target);
        lemma_request_log_step(first, map, rs, target);
        let before = request_log(first, map, prev, target);
        let log = request_log(first, map, rs, target);
        assert forall|j: int| 0 <= j < log.len() implies {
            let r = #[trigger] log[j];
            &&& first <= r.code < first + rs.len()
            &&& map[r.code as int] != 0
            &&& r.target == target
            &&& r.rendered == if rs[r.code - first] is Some {
                Some(target)
            } else {
                None
            }
        } by {
            if j < before.len() {
                assert(log[j] == before[j]);
                let c = before[j].code - first;
                assert(prev[c] == rs[c]);
            }
        }
    }
}

/// The codes of the log increase: codes are asked for in order, each once.
pub proof fn lemma_request_log_sorted(first: usize, map: Seq<u8>, rs: Seq<Option<Rendering>>, target: Target)
    requires
        first + rs.len() <= 256,
    ensures
        forall|j1: int, j2: int|
            0 <= j1 < j2 < request_log(first, map, rs, target).len() ==> #[trigger] request_log(
                first,
                map,
                rs,
                target,
            )[j1].code < #[trigger] request_log(first, map, rs, target)[j2].code,
    decreases rs.len(),
{
    if rs.len() > 0 {
        let prev = rs.drop_last();
        lemma_request_log_sorted(first, map, prev, target);
        lemma_request_log_entries(first, map, prev, target);
        lemma_request_log_step(first, map, rs, target);
        let before = request_log(first, map, prev, target);
        let log = request_log(first, map, rs, target);
        assert forall|j1: int, j2: int| 0 <= j1 < j2 < log.len() implies #[trigger] log[j1].code < #[trigger] log[j2].code by {
            assert(log[j1] == before[j1]);
            if j2 < before.len() {
                assert(log[j2] == before[j2]);
            }
        }
    }
}

/// Some request of `log` is for `code`.
pub open spec fn requested(log: Seq<Request>, code: int) -> bool {
    exists|j: int| 0 <= j < log.len() && #[trigger] log[j].code == code
}

/// Every selected code of the range so far has a request in the log.
pub proof fn lemma_request_log_complete(first: usize, map: Seq<u8>, rs: Seq<Option<Rendering>>, target: Target)
    requires
        first + rs.len() <= 256,
    ensures
        forall|k: int|
            0 <= k < rs.len() && map[first + k] != 0 ==> #[trigger] requested(request_log(first, map, rs, target), first + k),
    decreases rs.len(),
{
    if rs.len() > 0 {
        let prev = rs.drop_last();
        let k = rs.len() - 1;
        lemma_request_log_complete(first, map, prev, target);
        lemma_request_log_step(first, map, rs, target);
        let before = request_log(first, map, prev, target);
        let log = request_log(first, map, rs, target);
        assert forall|i: int| 0 <= i < rs.len() && map[first + i] != 0 implies #[trigger] requested(log, first + i) by {
            if i < k {
                assert(requested(before, first + i));
                let j = choose|j: int| 0 <= j < before.len() && #[trigger] before[j].code == first + i;
                assert(log[j] == before[j]);
                assert(log[j].code == first + i);
            } else {
                assert(log[before.len() as int].code == first + i);
            }
        }
    }
}

/// `requests` is `log` followed by one more request, for `code` and
/// `target`: the one a conversion was handling when it failed.
pub open spec fn log_with_pending(requests: Seq<Request>, log: Seq<Request>, code: int, target: Target) -> bool {
    &&& requests.len() == log.len() + 1
    &&& requests.drop_last() == log
    &&& requests.last().code == code
    &&& requests.last().target == target
}

/// Converts the glyphs of a TrueType font to a bitmap font.
pub struct Engine {
    lib: Library,
    face: Face,
    font: BitmapFont,
    font_data: Ghost<Seq<u8>>,
    char_size: Ghost<(isize, isize, u32, u32)>,
    failed: Vec<usize>,
    requests: Ghost<Seq<Request>>,
    outcomes: Ghost<Seq<Outcome>>,
    line_height: Ghost<Option<i64>>,
}

/// The codes among the first outcomes `rs` of a range starting at `first`
/// that are selected but got no glyph from FreeType, in order.
pub open spec fn missing_codes(first: usize, map: Seq<u8>, rs: Seq<Option<Rendering>>) -> Seq<usize>
    decreases rs.len(),
{
    if rs.len() == 0 {
        Seq::empty()
    } else {
        let k = rs.len() - 1;
        missing_codes(first, map, rs.drop_last()) + if rs.last() is None && map[first + k] != 0 {
            seq![(first + k) as usize]
        } else {
            Seq::empty()
        }
    }
}

/// The character size FreeType is asked for, for a font of `size` points:
/// width in 26.6 fixed point, height 0 (same as the width), horizontal
/// resolution [`DPI`] and vertical resolution 0 (same as the horizontal).
pub open spec fn char_size_spec(size: usize) -> (isize, isize, u32, u32) {
    ((size << 6usize) as isize, 0, 141, 0)
}

/// The character size asked for a font of `size` points is `size` points
/// in 26.6 fixed point (`size * 64`), with the same height, at [`DPI`]
/// dots per inch in both directions (as long as `size * 64` fits a 32-bit
/// signed integer).
pub proof fn lemma_char_size(size: usize)
    requires
        size < 0x200_0000,
    ensures
        char_size_spec(size).0 == size * 64,
        char_size_spec(size).1 == 0,
        char_size_spec(size).2 == 141,
        char_size_spec(size).3 == 0,
{
    assert(size < 0x200_0000 ==> (size << 6usize) == size * 64 && size * 64 < 0x8000_0000) by (bit_vector);
}

/// The line height kept from FreeType's 26.6 fixed-point value `v` is `v`
/// divided by 64, rounded toward zero.
pub proof fn lemma_div64(v: int)
    ensures
        v >= 0 ==> 0 <= 64 * div64(v) <= v < 64 * div64(v) + 64,
        v < 0 ==> v <= 64 * div64(v) < v + 64 && div64(v) <= 0,
{
}

/// The character size request for a font of `size` points (see
/// [`char_size_spec`]).
pub fn char_size_request(size: usize) -> (r: (isize, isize, u32, u32))
    ensures
        r == char_size_spec(size),
{
    ((size << 6) as isize, 0, DPI, 0)
}

impl View for Engine {
    type V = FontState;

    closed spec fn view(&self) -> FontState {
        self.font@
    }
}

/// The depths the converter renders at: 1, 2 or 4 bits per pixel.
pub open spec fn supported_depth(bpp: u8) -> bool {
    bpp == 1 || bpp == 2 || bpp == 4
}

/// The font state when a conversion at depth `bpp` starts, once the range
/// of `map` and the compression flag are recorded.
pub open spec fn conversion_start(s: FontState, map: Seq<u8>, compression: bool, bpp: u8) -> FontState {
    let (first, last) = selection_bounds_spec(map);
    FontState {
        first: first as usize,
        last: last as usize,
        compression,
        bpp: bpp as usize,
        glyphs: Seq::empty(),
        ..s
    }
}

/// The font state when a conversion at depth `bpp` starts: no record yet.
pub open spec fn started(s: FontState, bpp: usize) -> FontState {
    FontState { bpp, glyphs: Seq::empty(), ..s }
}

/// The number of codes from `first` to `last`.
pub open spec fn range_len(first: usize, last: usize) -> nat {
    if first <= last {
        (last - first + 1) as nat
    } else {
        0
    }
}

/// The font after the outcomes `rs` of the first codes of the range are
/// handled, starting from `start`: a code that is not selected has no
/// rendering, each outcome could be added, and the line height is the one
/// last read from FreeType.
#[verifier::opaque]
pub open spec fn converted(
    start: FontState,
    map: Seq<u8>,
    rs: Seq<Option<Rendering>>,
    result: FontState,
) -> bool {
    &&& rs.len() <= range_len(start.first, start.last)
    &&& forall|k: int| 0 <= k < rs.len() && map[start.first + k] == 0 ==> #[trigger] rs[k] is None
    &&& start.accepts_all(rs)
    &&& result == (FontState { face_height: result.face_height, ..start.with_renderings(rs) })
}

/// What a conversion leaves: the font stays valid, the first records
/// follow the codes in order, a code that is not selected gets the empty
/// record and adds no byte, every other record is the one its rendering
/// gives with its bitmap at the cursor, the bitmap is only appended to, and
/// the range, depth and compression flag stay as they were.
pub proof fn lemma_converted(start: FontState, map: Seq<u8>, rs: Seq<Option<Rendering>>, result: FontState)
    requires
        start.wf(),
        converted(start, map, rs, result),
    ensures
        result.wf(),
        result.glyphs.len() == start.glyphs.len() + rs.len(),
        start.bitmap.index <= result.bitmap.index,
        result.bitmap.buffer.take(start.bitmap.index as int) == start.bitmap.buffer.take(start.bitmap.index as int),
        (result.first, result.last, result.bpp, result.compression) == (start.first, start.last, start.bpp, start.compression),
        forall|k: int|
            0 <= k < rs.len() ==> {
                let before = #[trigger] start.with_renderings(rs.take(k));
                let after = start.with_renderings(rs.take(k + 1));
                &&& before.wf()
                &&& (map[start.first + k] == 0 ==> rs[k] is None)
                &&& (rs[k] is None ==> after == (FontState {
                    glyphs: before.glyphs.push(zero_glyph()),
                    ..before
                }))
                &&& (rs[k] matches Some(g) ==> after == before.with_glyph(
                    g.advance_x,
                    g.left,
                    g.top,
                    g.width,
                    g.rows,
                    g.pitch,
                    g.bits,
                ))
            },
{
    reveal(converted);
    crate::font::lemma_renderings(start, rs);
}

proof fn lemma_run_start(s: FontState, mid: FontState, map: Seq<u8>, compression: bool, bpp: u8)
    requires
        s.wf(),
        map.len() == 256,
        ({
            let (first, last) = selection_bounds_spec(map);
            mid == FontState { first: first as usize, last: last as usize, compression, ..s }
        }),
    ensures
        mid.wf(),
        mid.first <= mid.last ==> mid.last < 256,
        conversion_start(s, map, compression, bpp) == started(mid, bpp as usize),
        mid == (FontState { bpp: s.bpp, glyphs: s.glyphs, ..conversion_start(s, map, compression, bpp) }),
{
    crate::font::lemma_selection_bounds_spec(map);
    assert((-1isize) as usize > 256usize) by (bit_vector);
}

proof fn lemma_converted_step(
    start: FontState,
    map: Seq<u8>,
    rs: Seq<Option<Rendering>>,
    current: FontState,
    r: Option<Rendering>,
    next: FontState,
    k: int,
)
    requires
        converted(start, map, rs, current),
        rs.len() == k,
        k < range_len(start.first, start.last),
        map[start.first + k] == 0 ==> r is None,
        current.accepts(r),
        next == current.with_rendering(r),
    ensures
        converted(start, map, rs.push(r), next),
{
    reveal(converted);
    let rs2 = rs.push(r);
    assert(rs2.drop_last() =~= rs);
    assert(start.with_renderings(rs) == (FontState { face_height: start.with_renderings(rs).face_height, ..start.with_renderings(rs) }));
    assert forall|j: int| 0 <= j < rs2.len() && map[start.first + j] == 0 implies #[trigger] rs2[j] is None by {
        if j < rs.len() {
            assert(rs2[j] == rs[j]);
        }
    }
}

/// The font state of a new engine.
pub open spec fn initial_font() -> FontState {
    FontState {
        first: 32,
        last: 128,
        bpp: 0,
        face_height: 0,
        compression: false,
        glyphs: Seq::empty(),
        bitmap: crate::bit_pusher::empty_pusher(),
    }
}

impl Engine {
    /// An engine for the font file held in `font`, rendering at `size`
    /// points. Fails with `FreeTypeError` when FreeType cannot start, read
    /// the font or set the size.
    pub fn new(font: Vec<u8>, size: usize) -> (r: Result<Engine, EngineError>)
        ensures
            r matches Ok(e) ==> e@ == initial_font() && e@.wf() && e.font_data() == font@
                && e.char_size() == char_size_spec(size) && e.missing() == Seq::<usize>::empty()
                && e.requests() == Seq::<Request>::empty() && e.outcomes() == Seq::<Outcome>::empty()
                && e.line_height() == None::<i64>,
            r matches Err(x) ==> x == EngineError::FreeTypeError,
    {
        let lib = match library_init() {
            Err(_) => return Err(EngineError::FreeTypeError),
            Ok(x) => x,
        };
        let font_data = Ghost(font@);
        let face = match new_memory_face(&lib, font, 0) {
            Err(_) => return Err(EngineError::FreeTypeError),
            Ok(x) => x,
        };
        let (char_width, char_height, horz_resolution, vert_resolution) = char_size_request(size);
        let (sized, Ghost(asked)) = set_char_size(&face, char_width, char_height, horz_resolution, vert_resolution);
        match sized {
            Err(_) => return Err(EngineError::FreeTypeError),
            Ok(_) => {},
        }
        let char_size = Ghost(asked);
        Ok(Engine {
            lib,
            face,
            font: BitmapFont::new(),
            font_data,
            char_size,
            failed: Vec::new(),
            requests: Ghost(Seq::empty()),
            outcomes: Ghost(Seq::empty()),
            line_height: Ghost(None),
        })
    }

    /// The font file the face was loaded from (face number 0).
    pub closed spec fn font_data(&self) -> Seq<u8> {
        self.font_data@
    }

    /// The selected codes of the last conversion that FreeType had no glyph
    /// for.
    pub closed spec fn missing(&self) -> Seq<usize> {
        self.failed@
    }

    /// The selected codes of the last conversion that FreeType had no glyph
    /// for, in order.
    pub fn failed_codes(&self) -> (r: &Vec<usize>)
        ensures
            r@ == self.missing(),
    {
        &self.failed
    }

    /// The glyphs the last conversion asked of FreeType, in order.
    pub closed spec fn requests(&self) -> Seq<Request> {
        self.requests@
    }

    /// What became of each glyph the last conversion asked of FreeType,
    /// request by request.
    pub closed spec fn outcomes(&self) -> Seq<Outcome> {
        self.outcomes@
    }

    /// The line height (26.6 fixed point) last read from FreeType's size
    /// metrics during the last conversion; `None` when none was read.
    pub closed spec fn line_height(&self) -> Option<i64> {
        self.line_height@
    }

    /// The character size the face was set to: the values handed to
    /// FreeType's `set_char_size`.
    pub closed spec fn char_size(&self) -> (isize, isize, u32, u32) {
        self.char_size@
    }

    /// The bitmap font made so far.
    pub fn font(&self) -> (f: &BitmapFont)
        ensures
            f@ == self@,
    {
        &self.font
    }

    /// Converts the codes that `map` selects (from the first to the last
    /// one whose entry is not zero; see [`crate::font::selection_bounds`])
    /// at `bpp` bits per pixel: 1 renders monochrome glyphs, 2 and 4 render
    /// 4 and 16 grey levels. Each code of the range gets a record, the empty
    /// one when the code is not selected or FreeType has no glyph for it;
    /// the bitmaps are appended after those already in the font, each
    /// stored Heatshrink-encoded when `compression` is set. Any other
    /// depth fails with `InternalError` once the range is recorded, before
    /// anything is asked of FreeType. Each selected code is loaded, in
    /// order, for monochrome rendering at 1 bit per pixel and for grey
    /// levels at 2 and 4, and its glyph rendered in that mode; a record made
    /// from a rendering comes from the code at its position (see
    /// [`Engine::requests`] and [`request_log`]). A code gets a rendering
    /// exactly when FreeType loaded it and gave its glyph, and that rendering
    /// is made of what FreeType's accessors returned for it (see
    /// [`Engine::outcomes`] and [`answers`]); the line height is the last
    /// one read from FreeType, divided by 64 (see [`Engine::line_height`]).
    /// Fails with
    /// `InternalError` when the face has no size, a glyph cannot be
    /// rendered or does not fit.
    pub fn run(&mut self, bpp: u8, compression: bool, map: &[u8; 256]) -> (r: Result<(), EngineError>)
        requires
            old(self)@.wf(),
        ensures
            final(self)@.wf(),
            !supported_depth(bpp) ==> r == Err::<(), EngineError>(EngineError::InternalError) && final(self)@
                == (FontState { bpp: old(self)@.bpp, glyphs: old(self)@.glyphs, ..conversion_start(old(self)@, map@, compression, bpp) })
                && final(self).requests() == Seq::<Request>::empty(),
            supported_depth(bpp) ==> exists|rs: Seq<Option<Rendering>>|
                #![trigger converted(conversion_start(old(self)@, map@, compression, bpp), map@, rs, final(self)@)]
                converted(conversion_start(old(self)@, map@, compression, bpp), map@, rs, final(self)@)
                && (r is Ok ==> rs.len() == range_len(final(self)@.first, final(self)@.last))
                && final(self).missing() == missing_codes(final(self)@.first, map@, rs)
                && (final(self).requests() == request_log(final(self)@.first, map@, rs, target_for(bpp)) || (r is Err
                    && log_with_pending(
                    final(self).requests(),
                    request_log(final(self)@.first, map@, rs, target_for(bpp)),
                    final(self)@.first + rs.len(),
                    target_for(bpp),
                )))
                && answered(final(self).requests(), final(self).outcomes(), final(self)@.first, rs),
            final(self).line_height() matches Some(h) ==> final(self)@.face_height == div64(h as int) as i8,
            final(self).line_height() is None ==> final(self)@.face_height == old(self)@.face_height,
            supported_depth(bpp) && r is Ok && final(self)@.first <= final(self)@.last ==> final(self).line_height() is Some,
            supported_depth(bpp) && final(self)@.first > final(self)@.last ==> r is Ok && final(self)@
                == conversion_start(old(self)@, map@, compression, bpp),
            r is Err ==> r == Err::<(), EngineError>(EngineError::InternalError),
    {
        self.font.select(map, compression);
        let ghost mid = self@;
        proof {
            lemma_run_start(old(self)@, mid, map@, compression, bpp);
        }
        if bpp == 1 || bpp == 2 || bpp == 4 {
            let r = self.convert(map, bpp);
            r
        } else {
            self.requests = Ghost(Seq::empty());
            self.outcomes = Ghost(Seq::empty());
            self.line_height = Ghost(None);
            Err(EngineError::InternalError)
        }
    }

    fn check_ok(&self, t: Result<(), freetype::Error>) -> (ok: bool)
        ensures
            ok == t is Ok,
    {
        match t {
            Err(_) => false,
            _ => true,
        }
    }

    #[verifier::spinoff_prover]
    #[verifier::rlimit(40)]
    fn convert(&mut self, map: &[u8; 256], bpp: u8) -> (r: Result<(), EngineError>)
        requires
            old(self)@.wf(),
            supported_depth(bpp),
            old(self)@.first <= old(self)@.last ==> old(self)@.last < 256,
        ensures
            final(self)@.wf(),
            final(self)@.first == old(self)@.first,
            final(self)@.last == old(self)@.last,
            final(self)@.compression == old(self)@.compression,
            final(self)@.bpp == bpp,
            exists|rs: Seq<Option<Rendering>>|
                #![trigger converted(started(old(self)@, bpp as usize), map@, rs, final(self)@)]
                converted(started(old(self)@, bpp as usize), map@, rs, final(self)@)
                && (r is Ok ==> rs.len() == range_len(old(self)@.first, old(self)@.last))
                && final(self).missing() == missing_codes(old(self)@.first, map@, rs)
                && (final(self).requests() == request_log(old(self)@.first, map@, rs, target_for(bpp)) || (r is Err
                    && log_with_pending(
                    final(self).requests(),
                    request_log(old(self)@.first, map@, rs, target_for(bpp)),
                    old(self)@.first + rs.len(),
                    target_for(bpp),
                )))
                && answered(final(self).requests(), final(self).outcomes(), old(self)@.first, rs),
            final(self).line_height() matches Some(h) ==> final(self)@.face_height == div64(h as int) as i8,
            final(self).line_height() is None ==> final(self)@.face_height == old(self)@.face_height,
            r is Ok && old(self)@.first <= old(self)@.last ==> final(self).line_height() is Some,
            old(self)@.first > old(self)@.last ==> r is Ok && final(self)@
                == (started(old(self)@, bpp as usize)),
            r is Err ==> r == Err::<(), EngineError>(EngineError::InternalError),
    {
        proof {
            reveal(converted);
        }
        let ghost orig = self.font@;
        self.font.start_conversion(bpp as usize);
        self.failed.clear();
        self.requests = Ghost(Seq::empty());
        self.outcomes = Ghost(Seq::empty());
        self.line_height = Ghost(None);
        let ghost start = self.font@;
        let ghost target = target_for(bpp);
        let first = self.font.first();
        let last = self.font.last();
        let ghost mut rs: Seq<Option<Rendering>> = Seq::empty();
        proof {
            assert(start.with_renderings(rs) == start);
        }
        if first > last {
            assert(converted(started(old(self)@, bpp as usize), map@, rs, self@));
            return Ok(());
        }
        let grey = bpp != 1;
        let mut i: usize = first;
        while i <= last
            invariant_except_break
                first <= i <= last,
                rs.len() == i - first,
            invariant
                first == start.first,
                last == start.last,
                first <= last < 256,
                grey == (bpp != 1),
                start == started(orig, bpp as usize),
                orig == old(self)@,
                orig.wf(),
                self.font@.wf(),
                self.font@.first == first,
                self.font@.last == last,
                self.font@.compression == orig.compression,
                self.font@.bpp == bpp,
                converted(start, map@, rs, self.font@),
                self.failed@ == missing_codes(first, map@, rs),
                target == target_for(bpp),
                self.requests@ == request_log(first, map@, rs, target),
                answered(self.requests@, self.outcomes@, first, rs),
                self.line_height@ matches Some(h) ==> self.font@.face_height == div64(h as int) as i8,
                self.line_height@ is None ==> self.font@.face_height == orig.face_height,
                rs.len() > 0 ==> self.line_height@ is Some,
            ensures
                rs.len() == last - first + 1,
            decreases last - i,
        {
            proof {
                reveal(converted);
            }
            let ghost log = self.requests@;
            let ghost olog = self.outcomes@;
            proof {
                lemma_request_log_entries(first, map@, rs, target);
            }
            let selected = map[i] != 0;
            let mut ok: bool = selected;
            if selected {
                let (loaded, Ghost(asked)) = if grey {
                    load_char_normal(&self.face, i)
                } else {
                    load_char_mono(&self.face, i)
                };
                self.requests = Ghost(self.requests@.push(Request { code: asked.0, target: asked.1, rendered: None }));
                self.outcomes = Ghost(self.outcomes@.push(Outcome { loaded: loaded is Ok, glyph: None, readings: Seq::empty() }));
                ok = self.check_ok(loaded);
            }
            let (metrics, Ghost(read_height)) = size_metrics_height(&self.face);
            let height = match metrics {
                Some(h) => h,
                None => {
                    assert(converted(started(old(self)@, bpp as usize), map@, rs, self@));
                    assert(selected ==> self.requests@.drop_last() =~= log);
                    return Err(EngineError::InternalError);
                },
            };
            self.font.set_face_height(height);
            self.line_height = Ghost(read_height);
            assert(converted(start, map@, rs, self.font@));
            let ghost current = self.font@;
            let mut glyph = None;
            if ok {
                let got = get_glyph(face_glyph(&self.face));
                self.outcomes = Ghost(self.outcomes@.drop_last().push(Outcome {
                    glyph: Some(got is Ok),
                    ..self.outcomes@.last()
                }));
                match got {
                    Err(_) => ok = false,
                    Ok(g) => glyph = Some(g),
                }
            }
            match glyph {
                Some(gl) if ok => {
                    let (x_advance, Ghost(read_advance)) = advance_x(&gl);
                    let (rendered, Ghost(mode)) = if grey {
                        to_bitmap_normal(&gl)
                    } else {
                        to_bitmap_mono(&gl)
                    };
                    self.requests = Ghost(self.requests@.drop_last().push(Request {
                        rendered: Some(mode),
                        ..self.requests@.last()
                    }));
                    let rbitmap = match rendered {
                        Ok(b) => b,
                        Err(_) => {
                            assert(converted(started(old(self)@, bpp as usize), map@, rs, self@));
                            assert(self.requests@.drop_last() =~= log);
                            return Err(EngineError::InternalError);
                        },
                    };
                    let (left, Ghost(read_left)) = bitmap_left(&rbitmap);
                    let (top, Ghost(read_top)) = bitmap_top(&rbitmap);
                    let bitmap = glyph_bitmap(&rbitmap);
                    let (ww, Ghost(read_width)) = bitmap_width(&bitmap);
                    let (hh, Ghost(read_rows)) = bitmap_rows(&bitmap);
                    let (pitch, Ghost(read_pitch)) = bitmap_pitch(&bitmap);
                    let (bits, Ghost(read_bits)) = bitmap_buffer(&bitmap);
                    self.outcomes = Ghost(self.outcomes@.drop_last().push(Outcome {
                        readings: seq![read_advance, read_left, read_top, read_width, read_rows, read_pitch, read_bits],
                        ..self.outcomes@.last()
                    }));
                    let ghost g = Rendering {
                        advance_x: x_advance,
                        left,
                        top,
                        width: ww,
                        rows: hh,
                        pitch,
                        bits: bits@,
                    };
                    match self.font.add_glyph(x_advance, left, top, ww, hh, pitch, bits) {
                        Ok(_) => {},
                        Err(e) => {
                            assert(converted(started(old(self)@, bpp as usize), map@, rs, self@));
                            assert(self.requests@.drop_last() =~= log);
                            return Err(e);
                        },
                    }
                    proof {
                        lemma_converted_step(start, map@, rs, current, Some(g), self.font@, i - first);
                        assert(self.outcomes@ =~= olog.push(self.outcomes@.last()));
                        assert(self.requests@ =~= log.push(self.requests@.last()));
                        assert(self.outcomes@.last().readings =~= readings_of(g));
                        lemma_answered_extend(log, olog, first, rs, Some(g), self.requests@.last(), self.outcomes@.last());
                        let rs2 = rs.push(Some(g));
                        assert(rs2.drop_last() =~= rs);
                        assert(self.requests@ =~= request_log(first, map@, rs2, target));
                        assert(missing_codes(first, map@, rs2) =~= missing_codes(first, map@, rs));
                        rs = rs2;
                    }
                },
                _ => {
                    self.font.add_missing_glyph();
                    if map[i] != 0 {
                        self.failed.push(i);
                    }
                    proof {
                        lemma_converted_step(start, map@, rs, current, None, self.font@, i - first);
                        if selected {
                            assert(self.outcomes@ =~= olog.push(self.outcomes@.last()));
                            assert(self.requests@ =~= log.push(self.requests@.last()));
                            lemma_answered_extend(log, olog, first, rs, None, self.requests@.last(), self.outcomes@.last());
                        } else {
                            lemma_answered_push(log, olog, first, rs, None);
                        }
                        let rs2 = rs.push(None);
                        assert(rs2.drop_last() =~= rs);
                        assert(self.requests@ =~= request_log(first, map@, rs2, target));
                        assert(missing_codes(first, map@, rs2) =~= missing_codes(first, map@, rs) + if map@[i as int] != 0 {
                            seq![i]
                        } else {
                            Seq::<usize>::empty()
                        });
                        rs = rs2;
                    }
                },
            }
            if i == last {
                break;
            }
            i = i + 1;
        }
        assert(converted(started(old(self)@, bpp as usize), map@, rs, self@));
        Ok(())
    }

    /// The C array of the packed glyph bitmaps, named `<name>Bitmaps`.
    pub fn dump_bitmap(&mut self, name: &str) -> (out: Vec<u8>)
        requires
            old(self)@.wf(),
        ensures
            final(self)@ == old(self)@,
            out@ == bitmap_text(
                encode_utf8(name@),
                old(self)@.bitmap.buffer.take(old(self)@.bitmap.index as int),
            ),
    {
        self.font.dump_bitmap(name)
    }

    /// The C array of the glyph records of the covered codes, named
    /// `<name>Glyphs`.
    pub fn dump_index(&mut self, name: &str) -> (out: Vec<u8>)
        requires
            old(self)@.wf(),
            old(self)@.has_records_for_range(),
        ensures
            final(self)@ == old(self)@,
            out@ == index_text(
                encode_utf8(name@),
                old(self)@.first as nat,
                old(self)@.last as nat,
                old(self)@.glyphs,
            ),
    {
        self.font.dump_index(name)
    }

    /// The C structure named `<name>` that ties the arrays together,
    /// followed by size estimates.
    pub fn dump_footer(&mut self, name: &str) -> (out: Vec<u8>)
        requires
            old(self)@.wf(),
            old(self)@.first <= old(self)@.last,
            old(self)@.face_height == 0 ==> old(self)@.glyphs.len() > 0,
            (old(self)@.last - old(self)@.first + 1) * 8 + old(self)@.bitmap.index + 8 + 1023 <= usize::MAX,
        ensures
            final(self)@ == old(self)@,
            out@ == footer_text(
                encode_utf8(name@),
                old(self)@.first as nat,
                old(self)@.last as nat,
                old(self)@.face_height,
                if old(self)@.glyphs.len() > 0 { old(self)@.glyphs[0].height } else { 0 },
                old(self)@.bpp as nat,
                old(self)@.compression,
                old(self)@.bitmap.index,
            ),
    {
        self.font.dump_footer(name)
    }
}

} // verus!

//! The Heatshrink encoder that compresses glyph bitmaps.
use vstd::prelude::*;

verus! {

#[verifier::external_type_specification]
#[verifier::external_body]
pub struct ExEncodeError(heatshrink::EncodeError);

/// The Heatshrink encoding of `input` with a window of 2^`window_sz2` bytes
/// and a lookahead of 2^`lookahead_sz2` bytes.
pub uninterp spec fn heatshrink_encoded(input: Seq<u8>, window_sz2: u8, lookahead_sz2: u8) -> Seq<u8>;

/// `heatshrink::encode` with the configuration `Config::new(window_sz2,
/// lookahead_sz2)`: writes the encoding of `input` at the start of
/// `output` and returns its length, or fails with `OutputFull`, when
/// `output` is too short for it, having written part of it. The encoder
/// writes nine bits or fewer per input byte (a literal takes nine bits; a
/// back reference takes `1 + window_sz2 + lookahead_sz2` bits and is only
/// used for more than `(1 + window_sz2 + lookahead_sz2) / 8` bytes), so
/// room for that many bits is always enough. Sizes of 16 make the encoder
/// overflow a 16-bit shift, so they are left out.
#[verifier::external_body]
pub(crate) fn heatshrink_encode(input: &[u8], output: &mut Vec<u8>, window_sz2: u8, lookahead_sz2: u8) -> (r: Result<
    usize,
    heatshrink::EncodeError,
>)
    requires
        1 <= window_sz2 <= 15,
        1 <= lookahead_sz2 <= 15,
    ensures
        final(output)@.len() == old(output)@.len(),
        r is Ok <==> heatshrink_encoded(input@, window_sz2, lookahead_sz2).len() <= old(output)@.len(),
        old(output)@.len() >= (9 * input@.len() + 7) / 8 ==> r is Ok,
        r matches Ok(n) ==> n == heatshrink_encoded(input@, window_sz2, lookahead_sz2).len()
            && final(output)@ == heatshrink_encoded(input@, window_sz2, lookahead_sz2) + old(output)@.skip(n as int),
{
    let cfg = heatshrink::Config::new(window_sz2, lookahead_sz2).unwrap();
    heatshrink::encode(input, output.as_mut_slice(), &cfg).map(|out| out.len())
}

} // verus!

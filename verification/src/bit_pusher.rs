//! A fixed-size byte buffer that is filled either byte by byte or with
//! 1, 2 or 4 bit values packed most significant bit first.
use vstd::prelude::*;

verus! {

/// Number of bytes the buffer of a [`BitPusher`] holds.
pub const BUFFER_SIZE: usize = 262144;

/// The mathematical state of a [`BitPusher`].
///
/// `bit` is the position (7 = most significant) that the next pushed bit
/// goes to inside `accumulator`; `index` is the next byte of `buffer` that a
/// completed accumulator is written to.
pub struct PusherState {
    pub bit: int,
    pub accumulator: u8,
    pub index: nat,
    pub buffer: Seq<u8>,
}

/// `data` written over `buf` starting at `at`.
pub open spec fn overwrite(buf: Seq<u8>, at: int, data: Seq<u8>) -> Seq<u8> {
    buf.take(at) + data + buf.skip(at + data.len())
}

/// The byte whose bits, from the most significant one down, are `bits`
/// (at most eight of them; missing low bits are zero).
pub open spec fn pack_msb(bits: Seq<bool>) -> u8
    decreases bits.len(),
{
    if bits.len() == 0 {
        0
    } else {
        pack_msb(bits.drop_last()) | (if bits.last() {
            1u8 << ((8 - bits.len()) as u8)
        } else {
            0u8
        })
    }
}

/// Number of bytes that `n` bits take once packed.
pub open spec fn packed_len(n: nat) -> nat {
    (n + 7) / 8
}

/// `bits` packed eight to a byte, most significant bit first, the last
/// byte padded with zero bits.
pub open spec fn packed(bits: Seq<bool>) -> Seq<u8> {
    Seq::new(
        packed_len(bits.len()),
        |j: int|
            pack_msb(
                bits.subrange(8 * j, if 8 * j + 8 <= bits.len() { 8 * j + 8 } else { bits.len() as int }),
            ),
    )
}

/// The state of a new pusher: clean, cursor at zero, every byte zero.
pub open spec fn empty_pusher() -> PusherState {
    PusherState { bit: 7, accumulator: 0, index: 0, buffer: Seq::new(BUFFER_SIZE as nat, |i: int| 0u8) }
}

impl PusherState {
    /// The state every operation keeps.
    pub open spec fn wf(self) -> bool {
        &&& self.buffer.len() == BUFFER_SIZE
        &&& 0 <= self.bit <= 7
    }

    /// No bit is pending and the accumulator is empty.
    pub open spec fn is_clean(self) -> bool {
        self.bit == 7 && self.accumulator == 0
    }

    /// Writing out the pending byte, if any, stays inside the buffer.
    pub open spec fn can_align(self) -> bool {
        &&& self.buffer.len() == BUFFER_SIZE
        &&& -1 <= self.bit <= 7
        &&& self.bit != 7 ==> self.index < BUFFER_SIZE
    }

    /// The state after `align`: a pending byte is written and the
    /// accumulator restarts.
    pub open spec fn aligned(self) -> PusherState {
        if self.bit == 7 {
            self
        } else {
            PusherState {
                bit: 7,
                accumulator: 0,
                index: self.index + 1,
                buffer: self.buffer.update(self.index as int, self.accumulator),
            }
        }
    }

    /// Aligns once the accumulator has run out of bit positions.
    pub open spec fn settled(self) -> PusherState {
        if self.bit < 0 {
            self.aligned()
        } else {
            self
        }
    }

    /// The state after pushing one pixel.
    pub open spec fn with_pixel(self, on: bool) -> PusherState {
        PusherState {
            bit: self.bit - 1,
            accumulator: if on {
                self.accumulator | (1u8 << (self.bit as u8))
            } else {
                self.accumulator
            },
            index: self.index,
            buffer: self.buffer,
        }.settled()
    }

    /// The state after `add1bits(val)`.
    pub open spec fn with_bit(self, val: u8) -> PusherState {
        self.with_pixel(val != 0)
    }

    /// The state after `add2bits(val)`.
    pub open spec fn with_pair(self, val: u8) -> PusherState {
        PusherState {
            bit: self.bit - 2,
            accumulator: self.accumulator | ((val & 3u8) << ((self.bit - 1) as u8)),
            index: self.index,
            buffer: self.buffer,
        }.settled()
    }

    /// The state after `add4bits(val)`.
    pub open spec fn with_nibble(self, val: u8) -> PusherState {
        if self.bit == 7 {
            PusherState {
                bit: 3,
                accumulator: self.accumulator | val,
                index: self.index,
                buffer: self.buffer,
            }
        } else {
            PusherState {
                bit: self.bit,
                accumulator: self.accumulator | (val & 0xfu8),
                index: self.index,
                buffer: self.buffer,
            }.aligned()
        }
    }

    /// The state after pushing `bits` one after the other.
    pub open spec fn with_pixels(self, bits: Seq<bool>) -> PusherState
        decreases bits.len(),
    {
        if bits.len() == 0 {
            self
        } else {
            self.with_pixels(bits.drop_last()).with_pixel(bits.last())
        }
    }

    /// The state after `swallow(data)`.
    pub open spec fn with_bytes(self, data: Seq<u8>) -> PusherState {
        PusherState {
            bit: self.bit,
            accumulator: self.accumulator,
            index: self.index + data.len(),
            buffer: overwrite(self.buffer, self.index as int, data),
        }
    }
}


/// The state reached from a clean state after pushing `bits`, before the
/// last, incomplete byte is written: complete bytes are in the buffer, the
/// remaining bits wait in the accumulator.
pub open spec fn pending(s: PusherState, bits: Seq<bool>) -> PusherState {
    let full = bits.len() - bits.len() % 8;
    PusherState {
        bit: 7 - bits.len() % 8,
        accumulator: pack_msb(bits.skip(full)),
        index: s.index + bits.len() / 8,
        buffer: overwrite(s.buffer, s.index as int, packed(bits.take(full))),
    }
}

proof fn lemma_overwrite_push(buf: Seq<u8>, at: int, data: Seq<u8>, b: u8)
    requires
        0 <= at,
        at + data.len() < buf.len(),
    ensures
        overwrite(buf, at, data).update(at + data.len(), b) == overwrite(buf, at, data.push(b)),
{
    assert(overwrite(buf, at, data).update(at + data.len(), b) =~= overwrite(buf, at, data.push(b)));
}

proof fn lemma_overwrite_empty(buf: Seq<u8>, at: int)
    requires
        0 <= at <= buf.len(),
    ensures
        overwrite(buf, at, Seq::<u8>::empty()) == buf,
{
    assert(overwrite(buf, at, Seq::<u8>::empty()) =~= buf);
}

/// Splits off the last byte of a packing: the bits past the last complete
/// group of eight become one more byte.
proof fn lemma_packed_last(bits: Seq<bool>, q: int)
    requires
        0 <= q,
        8 * q < bits.len() <= 8 * q + 8,
    ensures
        packed(bits) == packed(bits.take(8 * q)).push(pack_msb(bits.skip(8 * q))),
{
    let head = bits.take(8 * q);
    assert(packed_len(bits.len()) == q + 1);
    assert(packed_len(head.len()) == q);
    assert forall|j: int| 0 <= j < q implies #[trigger] packed(bits)[j] == packed(head)[j] by {
        assert(head.subrange(8 * j, 8 * j + 8) =~= bits.subrange(8 * j, 8 * j + 8));
    }
    assert(bits.subrange(8 * q, bits.len() as int) =~= bits.skip(8 * q));
    assert(packed(bits) =~= packed(head).push(pack_msb(bits.skip(8 * q))));
}

proof fn lemma_or_zero(x: u8)
    by (bit_vector)
    ensures
        x | 0u8 == x,
{
}

proof fn lemma_pack_msb_push(bits: Seq<bool>, b: bool)
    ensures
        pack_msb(bits.push(b)) == (pack_msb(bits) | (if b {
            1u8 << ((7 - bits.len()) as u8)
        } else {
            0u8
        })),
{
    assert(bits.push(b).drop_last() =~= bits);
}

/// Pushing pixels one at a time from a clean state keeps complete bytes in
/// the buffer and the bits of the byte under way in the accumulator.
pub proof fn lemma_pixels_pending(s: PusherState, bits: Seq<bool>)
    requires
        s.wf(),
        s.is_clean(),
        s.index + bits.len() / 8 <= BUFFER_SIZE,
    ensures
        s.with_pixels(bits) == pending(s, bits),
    decreases bits.len(),
{
    let n = bits.len();
    if n == 0 {
        assert(bits.skip(0) =~= Seq::<bool>::empty());
        assert(packed(bits.take(0)) =~= Seq::<u8>::empty());
        lemma_overwrite_empty(s.buffer, s.index as int);
    } else {
        let prev = bits.drop_last();
        let b = bits.last();
        let m = prev.len();
        let r = m % 8;
        let full = (m - r) as nat;
        lemma_pixels_pending(s, prev);
        let t = s.with_pixels(prev);
        assert(t == pending(s, prev));
        assert(bits.skip(full as int).drop_last() =~= prev.skip(full as int));
        assert(bits.take(full as int) =~= prev.take(full as int));
        lemma_pack_msb_push(prev.skip(full as int), b);
        assert(bits.skip(full as int) =~= prev.skip(full as int).push(b));
        lemma_or_zero(t.accumulator);
        assert(prev.skip(full as int).len() == r);
        assert(pack_msb(bits.skip(full as int)) == t.with_pixel(b).accumulator || r == 7);
        if r == 7 {
            let q = (full / 8) as int;
            assert(8 * q == full);
            assert(bits.take(n as int) =~= bits);
            lemma_packed_last(bits, q);
            lemma_overwrite_push(s.buffer, s.index as int, packed(prev.take(full as int)), pack_msb(bits.skip(full as int)));
            assert(bits.skip(n as int) =~= Seq::<bool>::empty());
        }
    }
}

/// Bits pushed one at a time from a clean state and then aligned end up in
/// the buffer packed eight to a byte, most significant bit first, the last
/// byte padded with zero bits; the cursor moves past them and the state is
/// clean again.
pub proof fn lemma_pack_pixels(s: PusherState, bits: Seq<bool>)
    requires
        s.wf(),
        s.is_clean(),
        s.index + packed_len(bits.len()) <= BUFFER_SIZE,
    ensures
        s.with_pixels(bits).aligned() == (PusherState {
            bit: 7,
            accumulator: 0,
            index: s.index + packed_len(bits.len()),
            buffer: overwrite(s.buffer, s.index as int, packed(bits)),
        }),
{
    let n = bits.len();
    let r = n % 8;
    let full = (n - r) as nat;
    lemma_pixels_pending(s, bits);
    if r == 0 {
        assert(bits.take(n as int) =~= bits);
        assert(bits.skip(n as int) =~= Seq::<bool>::empty());
    } else {
        let q = (full / 8) as int;
        lemma_packed_last(bits, q);
        lemma_overwrite_push(s.buffer, s.index as int, packed(bits.take(full as int)), pack_msb(bits.skip(full as int)));
    }
}


/// Aligning twice writes nothing more than aligning once.
pub proof fn lemma_align_idempotent(s: PusherState)
    requires
        s.can_align(),
    ensures
        s.aligned().aligned() == s.aligned(),
{
}

/// From a clean state, two 4-bit values make one byte: the first as it is,
/// or-ed with the low nibble of the second.
pub proof fn lemma_two_nibbles(s: PusherState, a: u8, b: u8)
    requires
        s.wf(),
        s.is_clean(),
        s.index < BUFFER_SIZE,
    ensures
        s.with_nibble(a).with_nibble(b) == (PusherState {
            bit: 7,
            accumulator: 0,
            index: s.index + 1,
            buffer: s.buffer.update(s.index as int, a | (b & 0xfu8)),
        }),
{
    assert(0u8 | a == a) by (bit_vector);
}

/// From a clean state, four 2-bit values make one byte, the first in the
/// two most significant bits.
pub proof fn lemma_four_pairs(s: PusherState, a: u8, b: u8, c: u8, d: u8)
    requires
        s.wf(),
        s.is_clean(),
        s.index < BUFFER_SIZE,
    ensures
        s.with_pair(a).with_pair(b).with_pair(c).with_pair(d) == (PusherState {
            bit: 7,
            accumulator: 0,
            index: s.index + 1,
            buffer: s.buffer.update(
                s.index as int,
                ((a & 3u8) << 6u8) | ((b & 3u8) << 4u8) | ((c & 3u8) << 2u8) | (d & 3u8),
            ),
        }),
{
    assert(((((0u8 | ((a & 3u8) << 6u8)) | ((b & 3u8) << 4u8)) | ((c & 3u8) << 2u8)) | ((d & 3u8) << 0u8))
        == ((a & 3u8) << 6u8) | ((b & 3u8) << 4u8) | ((c & 3u8) << 2u8) | (d & 3u8)) by (bit_vector);
}

/// What `swallow` copies in is what `extract` gives back, and the bytes
/// before the cursor stay as they were.
pub proof fn lemma_swallow_extract(s: PusherState, data: Seq<u8>)
    requires
        s.wf(),
        s.index + data.len() <= BUFFER_SIZE,
    ensures
        s.with_bytes(data).buffer.subrange(s.index as int, (s.index + data.len()) as int) == data,
        s.with_bytes(data).buffer.take(s.index as int) == s.buffer.take(s.index as int),
        s.with_bytes(data).buffer.len() == BUFFER_SIZE,
{
    let t = s.with_bytes(data);
    assert(t.buffer.subrange(s.index as int, (s.index + data.len()) as int) =~= data);
    assert(t.buffer.take(s.index as int) =~= s.buffer.take(s.index as int));
}

/// Pushing bits and aligning never changes a byte before the cursor, and
/// never moves the cursor back.
pub proof fn lemma_written_bytes_stay(s: PusherState, v: u8)
    requires
        s.wf(),
        s.bit != 7 ==> s.index < BUFFER_SIZE,
    ensures
        s.aligned().buffer.take(s.index as int) == s.buffer.take(s.index as int),
        s.with_bit(v).buffer.take(s.index as int) == s.buffer.take(s.index as int),
        s.with_nibble(v).buffer.take(s.index as int) == s.buffer.take(s.index as int),
        s.bit >= 1 ==> s.with_pair(v).buffer.take(s.index as int) == s.buffer.take(s.index as int),
        s.index <= s.aligned().index,
        s.index <= s.with_bit(v).index,
        s.index <= s.with_nibble(v).index,
        s.bit >= 1 ==> s.index <= s.with_pair(v).index,
{
    assert(s.aligned().buffer.take(s.index as int) =~= s.buffer.take(s.index as int));
    assert(s.with_bit(v).buffer.take(s.index as int) =~= s.buffer.take(s.index as int));
    assert(s.with_nibble(v).buffer.take(s.index as int) =~= s.buffer.take(s.index as int));
    if s.bit >= 1 {
        assert(s.with_pair(v).buffer.take(s.index as int) =~= s.buffer.take(s.index as int));
    }
}

/// The `n` low bits of `v`, most significant first.
pub open spec fn level_bits(v: u8, n: nat) -> Seq<bool> {
    Seq::new(n, |i: int| (v >> ((n - 1 - i) as u8)) & 1u8 == 1u8)
}

proof fn lemma_with_pixels_push(s: PusherState, q: Seq<bool>, b: bool)
    ensures
        s.with_pixels(q.push(b)) == s.with_pixels(q).with_pixel(b),
{
    assert(q.push(b).drop_last() =~= q);
}

/// Pushing `a` and then `b` is pushing `a + b`.
pub proof fn lemma_with_pixels_append(s: PusherState, a: Seq<bool>, b: Seq<bool>)
    ensures
        s.with_pixels(a + b) == s.with_pixels(a).with_pixels(b),
    decreases b.len(),
{
    if b.len() == 0 {
        assert(a + b =~= a);
    } else {
        lemma_with_pixels_append(s, a, b.drop_last());
        assert((a + b).drop_last() =~= a + b.drop_last());
        assert((a + b).last() == b.last());
    }
}

proof fn lemma_pair_bits(acc: u8, v: u8, b: u8, c: u8)
    by (bit_vector)
    requires
        1 <= b <= 7,
        c + 1 == b,
    ensures
        acc | ((v & 3u8) << c) == ((acc | (if ((v & 3u8) >> 1u8) & 1u8 == 1u8 {
            1u8 << b
        } else {
            0u8
        })) | (if ((v & 3u8) >> 0u8) & 1u8 == 1u8 {
            1u8 << c
        } else {
            0u8
        })),
{
}

/// A 2-bit value pushed at bit 1 or above is its two bits pushed one
/// after the other, the higher one first.
pub proof fn lemma_pair_as_pixels(s: PusherState, v: u8)
    requires
        1 <= s.bit <= 7,
    ensures
        s.with_pair(v) == s.with_pixels(level_bits(v & 3u8, 2)),
{
    let q = level_bits(v & 3u8, 2);
    lemma_with_pixels_push(s, seq![q[0]], q[1]);
    lemma_with_pixels_push(s, Seq::<bool>::empty(), q[0]);
    assert(seq![q[0]].push(q[1]) =~= q);
    assert(Seq::<bool>::empty().push(q[0]) =~= seq![q[0]]);
    assert(q[0] == (((v & 3u8) >> 1u8) & 1u8 == 1u8));
    assert(q[1] == (((v & 3u8) >> 0u8) & 1u8 == 1u8));
    let t1 = s.with_pixel(q[0]);
    assert(t1.bit == s.bit - 1);
    let t2 = t1.with_pixel(q[1]);
    lemma_or_zero(s.accumulator);
    lemma_or_zero(t1.accumulator);
    lemma_pair_bits(s.accumulator, v, s.bit as u8, (s.bit - 1) as u8);
    assert(t2.accumulator == s.with_pair(v).accumulator);
}

proof fn lemma_high_nibble_bits(v: u8)
    by (bit_vector)
    requires
        v & 0x0fu8 == 0u8,
    ensures
        v == (((((0u8 | (if ((v >> 4u8) >> 3u8) & 1u8 == 1u8 { 1u8 << 7u8 } else { 0u8 })) | (if ((v
            >> 4u8) >> 2u8) & 1u8 == 1u8 { 1u8 << 6u8 } else { 0u8 })) | (if ((v >> 4u8) >> 1u8) & 1u8
            == 1u8 { 1u8 << 5u8 } else { 0u8 })) | (if ((v >> 4u8) >> 0u8) & 1u8 == 1u8 {
            1u8 << 4u8
        } else {
            0u8
        }))),
{
}

proof fn lemma_low_nibble_bits(acc: u8, v: u8)
    by (bit_vector)
    ensures
        acc | (v & 0xfu8) == (((((acc | (if ((v & 0xfu8) >> 3u8) & 1u8 == 1u8 { 1u8 << 3u8 } else {
            0u8
        })) | (if ((v & 0xfu8) >> 2u8) & 1u8 == 1u8 { 1u8 << 2u8 } else { 0u8 })) | (if ((v & 0xfu8)
            >> 1u8) & 1u8 == 1u8 { 1u8 << 1u8 } else { 0u8 })) | (if ((v & 0xfu8) >> 0u8) & 1u8
            == 1u8 {
            1u8 << 0u8
        } else {
            0u8
        }))),
{
}

proof fn lemma_four_pixels(s: PusherState, q: Seq<bool>)
    requires
        q.len() == 4,
    ensures
        s.with_pixels(q) == s.with_pixel(q[0]).with_pixel(q[1]).with_pixel(q[2]).with_pixel(q[3]),
{
    let q1 = seq![q[0]];
    let q2 = q1.push(q[1]);
    let q3 = q2.push(q[2]);
    lemma_with_pixels_push(s, Seq::<bool>::empty(), q[0]);
    assert(Seq::<bool>::empty().push(q[0]) =~= q1);
    lemma_with_pixels_push(s, q1, q[1]);
    lemma_with_pixels_push(s, q2, q[2]);
    lemma_with_pixels_push(s, q3, q[3]);
    assert(q3.push(q[3]) =~= q);
}

/// A 4-bit value is its four bits pushed one after the other, highest
/// first: at the start of a clean byte the value's high nibble, in the
/// middle of a byte its low nibble.
pub proof fn lemma_nibble_as_pixels(s: PusherState, v: u8)
    requires
        (s.is_clean() && v & 0x0fu8 == 0u8) || s.bit == 3,
    ensures
        s.bit == 7 ==> s.with_nibble(v) == s.with_pixels(level_bits(v >> 4u8, 4)),
        s.bit == 3 ==> s.with_nibble(v) == s.with_pixels(level_bits(v & 0xfu8, 4)),
{
    if s.bit == 7 {
        let w = v >> 4u8;
        let q = level_bits(w, 4);
        assert(q[0] == ((w >> 3u8) & 1u8 == 1u8));
        assert(q[1] == ((w >> 2u8) & 1u8 == 1u8));
        assert(q[2] == ((w >> 1u8) & 1u8 == 1u8));
        assert(q[3] == ((w >> 0u8) & 1u8 == 1u8));
        lemma_four_pixels(s, q);
        lemma_high_nibble_bits(v);
        assert(0u8 | v == v) by (bit_vector);
        let t1 = s.with_pixel(q[0]);
        let t2 = t1.with_pixel(q[1]);
        let t3 = t2.with_pixel(q[2]);
        let t4 = t3.with_pixel(q[3]);
        assert(t1.bit == 6 && t2.bit == 5 && t3.bit == 4 && t4.bit == 3);
        lemma_or_zero(s.accumulator);
        lemma_or_zero(t1.accumulator);
        lemma_or_zero(t2.accumulator);
        lemma_or_zero(t3.accumulator);
        assert(t4.accumulator == s.with_nibble(v).accumulator);
    } else {
        let w = v & 0xfu8;
        let q = level_bits(w, 4);
        assert(q[0] == ((w >> 3u8) & 1u8 == 1u8));
        assert(q[1] == ((w >> 2u8) & 1u8 == 1u8));
        assert(q[2] == ((w >> 1u8) & 1u8 == 1u8));
        assert(q[3] == ((w >> 0u8) & 1u8 == 1u8));
        lemma_four_pixels(s, q);
        lemma_low_nibble_bits(s.accumulator, v);
        let t1 = s.with_pixel(q[0]);
        let t2 = t1.with_pixel(q[1]);
        let t3 = t2.with_pixel(q[2]);
        let t4 = t3.with_pixel(q[3]);
        assert(t1.bit == 2 && t2.bit == 1 && t3.bit == 0);
        lemma_or_zero(s.accumulator);
        lemma_or_zero(t1.accumulator);
        lemma_or_zero(t2.accumulator);
        lemma_or_zero(t3.accumulator);
        assert(w & 0xfu8 == v & 0xfu8) by (bit_vector)
            requires
                w == v & 0xfu8,
        ;
    }
}

/// A byte buffer of [`BUFFER_SIZE`] bytes with a write cursor and an
/// accumulator for values narrower than a byte.
pub struct BitPusher {
    bit: isize,
    accumulator: u8,
    index: usize,
    buffer: Vec<u8>,
}

impl View for BitPusher {
    type V = PusherState;

    closed spec fn view(&self) -> PusherState {
        PusherState {
            bit: self.bit as int,
            accumulator: self.accumulator,
            index: self.index as nat,
            buffer: self.buffer@,
        }
    }
}

impl BitPusher {
    /// An empty buffer, all zero, with the cursor at its start.
    pub fn new() -> (bp: BitPusher)
        ensures
            bp@ == empty_pusher(),
            bp@.wf(),
    {
        let buffer: Vec<u8> = vec![0u8; BUFFER_SIZE];
        let bp = BitPusher { bit: 7, accumulator: 0, index: 0, buffer };
        assert(bp@.buffer =~= Seq::new(BUFFER_SIZE as nat, |i: int| 0u8));
        bp
    }

    /// The `size` bytes of the buffer that start at `start`.
    pub fn extract(&mut self, start: usize, size: usize) -> (out: &[u8])
        requires
            old(self)@.wf(),
            start + size <= BUFFER_SIZE,
        ensures
            final(self)@ == old(self)@,
            out@ == old(self)@.buffer.subrange(start as int, start + size),
    {
        let end = start + size;
        vstd::slice::slice_subrange(self.buffer.as_slice(), start, end)
    }

    /// Moves the write cursor to `size`; the pending bits stay as they are.
    pub fn truncate(&mut self, size: usize)
        requires
            old(self)@.wf(),
        ensures
            final(self)@ == (PusherState { index: size as nat, ..old(self)@ }),
    {
        self.index = size;
    }

    /// The byte at position `i` of the buffer.
    pub fn data(&self, i: usize) -> (b: u8)
        requires
            self@.wf(),
            i < BUFFER_SIZE,
        ensures
            b == self@.buffer[i as int],
    {
        self.buffer[i]
    }

    /// No bit of the current byte has been pushed yet.
    pub fn at_byte_start(&self) -> (r: bool)
        ensures
            r == (self@.bit == 7),
    {
        self.bit == 7
    }

    /// The write cursor: the number of bytes written so far.
    pub fn size(&self) -> (n: usize)
        ensures
            n == self@.index,
    {
        self.index
    }

    /// Moves the write cursor to `set_offset` and starts a new byte; bits
    /// already in the accumulator stay there.
    pub fn set_offset(&mut self, set_offset: usize)
        requires
            old(self)@.wf(),
        ensures
            final(self)@ == (PusherState { index: set_offset as nat, bit: 7, ..old(self)@ }),
    {
        self.index = set_offset;
        self.bit = 7;
    }

    /// Copies `data` to the buffer at the cursor and moves the cursor past it.
    pub fn swallow(&mut self, data: &[u8])
        requires
            old(self)@.wf(),
            old(self)@.index + data@.len() <= BUFFER_SIZE,
        ensures
            final(self)@ == old(self)@.with_bytes(data@),
    {
        let n = data.len();
        let start = self.index;
        let mut i: usize = 0;
        while i < n
            invariant
                0 <= i <= n,
                n == data@.len(),
                start == old(self)@.index,
                start + n <= BUFFER_SIZE,
                self.bit == old(self).bit,
                self.accumulator == old(self).accumulator,
                self.index == start,
                self.buffer@.len() == BUFFER_SIZE,
                forall|j: int|
                    0 <= j < BUFFER_SIZE ==> #[trigger] self.buffer@[j] == if start <= j < start + i {
                        data@[j - start]
                    } else {
                        old(self)@.buffer[j]
                    },
            decreases n - i,
        {
            self.buffer[start + i] = data[i];
            i = i + 1;
        }
        self.index = self.index + n;
        assert(self.buffer@ =~= overwrite(old(self)@.buffer, start as int, data@));
    }

    /// Stores `val` at the cursor; the cursor does not move.
    pub fn add8bits(&mut self, val: u8)
        requires
            old(self)@.wf(),
            old(self)@.index < BUFFER_SIZE,
        ensures
            final(self)@ == (PusherState {
                buffer: old(self)@.buffer.update(old(self)@.index as int, val),
                ..old(self)@
            }),
    {
        self.buffer[self.index] = val;
    }

    /// Adds a 4-bit value: at the start of a byte it is or-ed in as it is and
    /// the byte stays open; otherwise its low nibble is or-ed in and the byte
    /// is written.
    pub fn add4bits(&mut self, val: u8)
        requires
            old(self)@.wf(),
            old(self)@.bit != 7 ==> old(self)@.index < BUFFER_SIZE,
        ensures
            final(self)@ == old(self)@.with_nibble(val),
            final(self)@.wf(),
    {
        if self.bit == 7 {
            self.accumulator |= val;
            self.bit = self.bit - 4;
        } else {
            self.accumulator |= (val & 0xf) as u8;
            self.align();
        }
    }

    /// Adds the two low bits of `val` at the next two bit positions.
    pub fn add2bits(&mut self, val: u8)
        requires
            old(self)@.wf(),
            old(self)@.bit >= 1,
            old(self)@.bit == 1 ==> old(self)@.index < BUFFER_SIZE,
        ensures
            final(self)@ == old(self)@.with_pair(val),
            final(self)@.wf(),
    {
        let rval: u8 = val & 3;
        self.accumulator |= rval << ((self.bit - 1) as u8);
        self.bit = self.bit - 2;
        self.check_align();
    }

    /// Adds one bit, set when `val` is not zero.
    pub fn add1bits(&mut self, val: u8)
        requires
            old(self)@.wf(),
            old(self)@.bit == 0 ==> old(self)@.index < BUFFER_SIZE,
        ensures
            final(self)@ == old(self)@.with_bit(val),
            final(self)@.wf(),
    {
        if val != 0 {
            self.accumulator |= 1u8 << (self.bit as u8);
        }
        self.bit = self.bit - 1;
        self.check_align();
    }

    fn check_align(&mut self)
        requires
            old(self)@.buffer.len() == BUFFER_SIZE,
            -1 <= old(self)@.bit <= 7,
            old(self)@.bit < 0 ==> old(self)@.index < BUFFER_SIZE,
        ensures
            final(self)@ == old(self)@.settled(),
            final(self)@.bit >= 0,
            final(self)@.buffer.len() == BUFFER_SIZE,
    {
        if self.bit < 0 {
            self.align();
        }
    }

    /// Writes the pending byte, if bits are pending, and starts a new one.
    pub fn align(&mut self)
        requires
            old(self)@.can_align(),
        ensures
            final(self)@ == old(self)@.aligned(),
            final(self)@.buffer.len() == BUFFER_SIZE,
    {
        if self.bit == 7 {
            return;
        }
        self.buffer[self.index] = self.accumulator;
        self.index = self.index + 1;
        self.bit = 7;
        self.accumulator = 0;
    }
}


} // verus!

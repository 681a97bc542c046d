use flatconvert::bit_pusher::{BitPusher, BUFFER_SIZE};

#[test]
fn new_pusher_is_empty_and_zeroed() {
    let bp = BitPusher::new();
    assert_eq!(bp.size(), 0);
    assert_eq!(bp.data(0), 0);
    assert_eq!(bp.data(BUFFER_SIZE - 1), 0);
}

#[test]
fn eight_single_bits_make_one_byte_msb_first() {
    let mut bp = BitPusher::new();
    for v in [1u8, 0, 1, 1, 0, 0, 0, 1] {
        bp.add1bits(v);
    }
    assert_eq!(bp.size(), 1);
    assert_eq!(bp.data(0), 0xB1);
}

#[test]
fn any_nonzero_value_is_a_set_bit() {
    let mut bp = BitPusher::new();
    for v in [200u8, 0, 0, 0, 0, 0, 0, 7] {
        bp.add1bits(v);
    }
    assert_eq!(bp.data(0), 0x81);
}

#[test]
fn align_pads_a_partial_byte_with_zero_bits() {
    let mut bp = BitPusher::new();
    bp.add1bits(1);
    bp.add1bits(1);
    bp.add1bits(0);
    assert_eq!(bp.size(), 0);
    bp.align();
    assert_eq!(bp.size(), 1);
    assert_eq!(bp.data(0), 0xC0);
}

#[test]
fn align_twice_writes_once() {
    let mut bp = BitPusher::new();
    bp.add1bits(1);
    bp.align();
    bp.align();
    assert_eq!(bp.size(), 1);
    assert_eq!(bp.data(0), 0x80);
    assert_eq!(bp.data(1), 0);
}

#[test]
fn align_on_a_byte_boundary_writes_nothing() {
    let mut bp = BitPusher::new();
    bp.align();
    assert_eq!(bp.size(), 0);
}

#[test]
fn four_pairs_make_one_byte() {
    let mut bp = BitPusher::new();
    for v in [3u8, 0, 2, 1] {
        bp.add2bits(v);
    }
    assert_eq!(bp.size(), 1);
    assert_eq!(bp.data(0), 0xC9);
}

#[test]
fn pairs_keep_only_their_two_low_bits() {
    let mut bp = BitPusher::new();
    for v in [7u8, 4, 6, 5] {
        bp.add2bits(v);
    }
    assert_eq!(bp.data(0), 0xC9);
}

#[test]
fn two_nibbles_make_one_byte() {
    let mut bp = BitPusher::new();
    bp.add4bits(0xA0);
    assert_eq!(bp.size(), 0);
    bp.add4bits(0x05);
    assert_eq!(bp.size(), 1);
    assert_eq!(bp.data(0), 0xA5);
}

#[test]
fn first_nibble_is_taken_as_it_is_second_masked() {
    let mut bp = BitPusher::new();
    bp.add4bits(0x0A);
    bp.add4bits(0x35);
    assert_eq!(bp.data(0), 0x0F);
}

#[test]
fn add8bits_stores_without_moving_the_cursor() {
    let mut bp = BitPusher::new();
    bp.add8bits(0x42);
    assert_eq!(bp.size(), 0);
    assert_eq!(bp.data(0), 0x42);
    bp.add8bits(0x17);
    assert_eq!(bp.data(0), 0x17);
}

#[test]
fn swallow_then_extract_gives_the_bytes_back() {
    let mut bp = BitPusher::new();
    bp.swallow(&[1, 2, 3]);
    assert_eq!(bp.size(), 3);
    assert_eq!(bp.extract(0, 3), &[1u8, 2, 3][..]);
    bp.swallow(&[4, 5]);
    assert_eq!(bp.size(), 5);
    assert_eq!(bp.extract(0, 5), &[1u8, 2, 3, 4, 5][..]);
    assert_eq!(bp.extract(3, 2), &[4u8, 5][..]);
}

#[test]
fn swallow_at_the_end_of_the_buffer() {
    let mut bp = BitPusher::new();
    bp.set_offset(BUFFER_SIZE - 2);
    bp.swallow(&[9, 8]);
    assert_eq!(bp.size(), BUFFER_SIZE);
    assert_eq!(bp.extract(BUFFER_SIZE - 2, 2), &[9u8, 8][..]);
}

#[test]
fn truncate_and_set_offset_move_the_cursor() {
    let mut bp = BitPusher::new();
    bp.set_offset(10);
    assert_eq!(bp.size(), 10);
    for v in [1u8, 1, 1, 1, 1, 1, 1, 1] {
        bp.add1bits(v);
    }
    assert_eq!(bp.size(), 11);
    assert_eq!(bp.data(10), 0xFF);
    bp.truncate(5);
    assert_eq!(bp.size(), 5);
    assert_eq!(bp.data(10), 0xFF);
}

#[test]
fn set_offset_keeps_pending_bits_in_the_accumulator() {
    let mut bp = BitPusher::new();
    bp.add1bits(1);
    bp.set_offset(4);
    bp.align();
    assert_eq!(bp.size(), 4);
    for _ in 0..8 {
        bp.add1bits(0);
    }
    assert_eq!(bp.size(), 5);
    assert_eq!(bp.data(4), 0x80);
}

#[test]
fn bytes_before_the_cursor_stay_when_bits_follow() {
    let mut bp = BitPusher::new();
    bp.swallow(&[0x11, 0x22]);
    bp.add1bits(1);
    bp.align();
    assert_eq!(bp.extract(0, 3), &[0x11u8, 0x22, 0x80][..]);
}

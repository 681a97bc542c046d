//! Which character codes to convert, and the name of the generated font.
use vstd::prelude::*;
use vstd::utf8::encode_utf8;
use crate::header::{dec, lit, push_dec, push_str, all_decimal_digits, decimal_value, lemma_dec};

verus! {

broadcast use vstd::string::axiom_spec_iter;

/// Some character of `pick` has the code `code`.
pub open spec fn picked(pick: Seq<char>, code: int) -> bool {
    exists|i: int| 0 <= i < pick.len() && pick[i] as u32 == code
}

/// Every character of `pick` has a code below 256.
pub open spec fn pick_in_range(pick: Seq<char>) -> bool {
    forall|i: int| 0 <= i < pick.len() ==> (pick[i] as u32) < 256
}

/// The map that selects the codes of the characters of `pick`: 1 for a
/// selected code, 0 for any other.
pub fn pick_map(pick: &str) -> (m: [u8; 256])
    requires
        pick_in_range(pick@),
    ensures
        forall|j: int| 0 <= j < 256 ==> m@[j] == if picked(pick@, j) { 1u8 } else { 0u8 },
{
    let mut m: [u8; 256] = [0u8; 256];
    assert(m@ =~= Seq::new(256, |j: int| 0u8));
    for c in it: pick.chars()
        invariant
            it.seq() == pick@,
            pick_in_range(pick@),
            forall|j: int|
                0 <= j < 256 ==> m@[j] == if exists|i: int| 0 <= i < it.index() && pick@[i] as u32 == j {
                    1u8
                } else {
                    0u8
                },
    {
        let ghost k = it.index();
        assert(0 <= k < pick@.len());
        assert(c == pick@[k]);
        let ghost before = m@;
        let code: u32 = c as u32;
        assert(code < 256);
        m[code as usize] = 1;
        assert(m@ == before.update(code as int, 1u8));
        assert forall|j: int| 0 <= j < 256 implies m@[j] == if exists|i: int|
            0 <= i < k + 1 && pick@[i] as u32 == j {
            1u8
        } else {
            0u8
        } by {
            if j == code {
                assert(pick@[k] as u32 == j);
            } else {
                assert(m@[j] == before[j]);
                if exists|i: int| 0 <= i < k + 1 && pick@[i] as u32 == j {
                    let i = choose|i: int| 0 <= i < k + 1 && pick@[i] as u32 == j;
                    assert(i != k);
                }
            }
        }
    }
    m
}

/// The map that selects the codes `begin` to `end`: 1 for a selected code,
/// 0 for any other.
pub fn range_map(begin: u8, end: u8) -> (m: [u8; 256])
    ensures
        forall|j: int| 0 <= j < 256 ==> m@[j] == if begin <= j <= end { 1u8 } else { 0u8 },
{
    let mut m: [u8; 256] = [0u8; 256];
    assert(m@ =~= Seq::new(256, |j: int| 0u8));
    let mut i: u16 = begin as u16;
    while i <= end as u16
        invariant
            begin <= i <= 256,
            begin <= end ==> i <= end + 1,
            forall|j: int| 0 <= j < 256 ==> m@[j] == if begin <= j < i && j <= end { 1u8 } else { 0u8 },
        decreases 256 - i,
    {
        m[i as usize] = 1;
        i = i + 1;
    }
    m
}

/// The codes to convert: those of the characters of `pick` when it is not
/// empty, else `begin` to `end`.
pub fn selection_map(pick: &str, begin: u8, end: u8) -> (m: [u8; 256])
    requires
        pick@.len() != 0 ==> pick_in_range(pick@),
    ensures
        forall|j: int|
            0 <= j < 256 ==> m@[j] == if pick@.len() != 0 {
                if picked(pick@, j) { 1u8 } else { 0u8 }
            } else {
                if begin <= j <= end { 1u8 } else { 0u8 }
            },
{
    if !pick.is_empty() {
        pick_map(pick)
    } else {
        range_map(begin, end)
    }
}

/// The byte `b`, with a space or a dash turned into an underscore.
pub open spec fn symbol_byte(b: u8) -> u8 {
    if b == 32u8 || b == 45u8 {
        95u8
    } else {
        b
    }
}

/// The C name of a font: the file name `prefix` with spaces and dashes
/// turned into underscores, then the size and `pt7b`.
pub open spec fn symbol_text(prefix: Seq<u8>, size: nat) -> Seq<u8> {
    prefix.map_values(|b: u8| symbol_byte(b)) + dec(size) + lit("pt7b")
}

/// The C name of a font made from the file whose name, without its
/// extensions, is `prefix`, rendered at `size` points.
pub fn symbol_name(prefix: &str, size: usize) -> (name: Vec<u8>)
    ensures
        name@ == symbol_text(encode_utf8(prefix@), size as nat),
        ({
            let p = encode_utf8(prefix@);
            let d = name@.len() - p.len() - 4;
            &&& name@.len() == p.len() + dec(size as nat).len() + 4
            &&& forall|i: int|
                0 <= i < p.len() ==> #[trigger] name@[i] == if p[i] == 32u8 || p[i] == 45u8 {
                    95u8
                } else {
                    p[i]
                }
            &&& d >= 1
            &&& all_decimal_digits(name@.subrange(p.len() as int, p.len() + d))
            &&& decimal_value(name@.subrange(p.len() as int, p.len() + d)) == size
            &&& (size > 0 ==> name@[p.len() as int] != 48u8)
            &&& name@.subrange(p.len() + d, name@.len() as int) == seq![112u8, 116u8, 55u8, 98u8]
        }),
{
    let bytes = prefix.as_bytes();
    let mut name: Vec<u8> = Vec::new();
    let mut i: usize = 0;
    while i < bytes.len()
        invariant
            0 <= i <= bytes@.len(),
            bytes@ == encode_utf8(prefix@),
            name@ == bytes@.take(i as int).map_values(|b: u8| symbol_byte(b)),
        decreases bytes@.len() - i,
    {
        let b = bytes[i];
        if b == 32u8 || b == 45u8 {
            name.push(95u8);
        } else {
            name.push(b);
        }
        i = i + 1;
        assert(bytes@.take(i as int).map_values(|b: u8| symbol_byte(b)) =~= bytes@.take(i - 1).map_values(
            |b: u8| symbol_byte(b),
        ).push(symbol_byte(b)));
    }
    assert(bytes@.take(i as int) =~= bytes@);
    push_dec(&mut name, size as u64);
    push_str(&mut name, "pt7b");
    proof {
        reveal_strlit("pt7b");
        let sfx = "pt7b"@;
        assert(sfx.len() == 4);
        assert(vstd::utf8::is_ascii_chars(sfx));
        vstd::utf8::is_ascii_chars_encode_utf8(sfx);
        assert(lit("pt7b") =~= seq![112u8, 116u8, 55u8, 98u8]) by {
            assert(sfx[0] as u8 == lit("pt7b")[0]);
            assert(sfx[1] as u8 == lit("pt7b")[1]);
            assert(sfx[2] as u8 == lit("pt7b")[2]);
            assert(sfx[3] as u8 == lit("pt7b")[3]);
        }
        lemma_dec(size as nat);
        let p = encode_utf8(prefix@);
        let ds = dec(size as nat);
        assert(name@.subrange(p.len() as int, (p.len() + ds.len()) as int) =~= ds);
        assert(name@.subrange((p.len() + ds.len()) as int, name@.len() as int) =~= seq![112u8, 116u8, 55u8, 98u8]);
        assert(name@[p.len() as int] == ds[0]);
    }
    name
}

} // verus!

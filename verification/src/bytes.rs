//! Big-endian numbers, hexadecimal text and length-prefixed framing.

use crate::text::copy_bytes;
use vstd::arithmetic::power::*;
use vstd::prelude::*;

verus! {

/// The lowest `len` bytes of a number, most significant first.
pub open spec fn be(value: nat, len: nat) -> Seq<u8>
    decreases len,
{
    if len == 0 {
        Seq::empty()
    } else {
        be(value / 256, (len - 1) as nat).push((value % 256) as u8)
    }
}

/// The number that bytes stand for, most significant first.
pub open spec fn be_value(bytes: Seq<u8>) -> nat
    decreases bytes.len(),
{
    if bytes.len() == 0 {
        0
    } else {
        be_value(bytes.drop_last()) * 256 + bytes.last() as nat
    }
}

/// Big-endian bytes have the length asked for.
pub proof fn lemma_be_len(value: nat, len: nat)
    ensures
        be(value, len).len() == len,
    decreases len,
{
    if len > 0 {
        lemma_be_len(value / 256, (len - 1) as nat);
    }
}

/// A number that fits is read back from its big-endian bytes.
pub proof fn lemma_be_value(value: nat, len: nat)
    requires
        value < pow(256, len),
    ensures
        be_value(be(value, len)) == value,
        be(value, len).len() == len,
    decreases len,
{
    reveal(pow);
    if len > 0 {
        assert(value / 256 < pow(256, (len - 1) as nat)) by (nonlinear_arith)
            requires
                value < 256 * pow(256, (len - 1) as nat),
        ;
        lemma_be_value(value / 256, (len - 1) as nat);
        assert(be(value, len).drop_last() =~= be(value / 256, (len - 1) as nat));
    }
}

proof fn lemma_powers()
    ensures
        pow(256, 4) == 0x1_0000_0000,
        pow(256, 8) == 0x1_0000_0000_0000_0000,
        pow(256, 16) == 0x1_0000_0000_0000_0000_0000_0000_0000_0000int,
{
    reveal_with_fuel(pow, 17);
}

/// Every `u64` is read back from its eight big-endian bytes.
pub proof fn lemma_be_u64(value: u64)
    ensures
        be_value(be(value as nat, 8)) == value,
        be(value as nat, 8).len() == 8,
{
    lemma_powers();
    lemma_be_value(value as nat, 8);
}

/// Every `u32` is read back from its four big-endian bytes.
pub proof fn lemma_be_u32(value: u32)
    ensures
        be_value(be(value as nat, 4)) == value,
        be(value as nat, 4).len() == 4,
{
    lemma_powers();
    lemma_be_value(value as nat, 4);
}

/// Every `u128` is read back from its sixteen big-endian bytes.
pub proof fn lemma_be_u128(value: u128)
    ensures
        be_value(be(value as nat, 16)) == value,
        be(value as nat, 16).len() == 16,
{
    lemma_powers();
    lemma_be_value(value as nat, 16);
}

/// Writes the lowest `len` bytes of `value`, most significant first.
pub fn be_u128(value: u128, len: usize) -> (bytes: Vec<u8>)
    ensures
        bytes@ == be(value as nat, len as nat),
    decreases len,
{
    if len == 0 {
        let bytes: Vec<u8> = Vec::new();
        assert(bytes@ =~= be(value as nat, 0));
        bytes
    } else {
        let mut bytes = be_u128(value / 256, len - 1);
        bytes.push((value % 256) as u8);
        bytes
    }
}

/// A number of so many bytes is below that power of 256.
pub proof fn lemma_be_value_bound(bytes: Seq<u8>)
    ensures
        be_value(bytes) < pow(256, bytes.len()),
    decreases bytes.len(),
{
    reveal(pow);
    if bytes.len() > 0 {
        lemma_be_value_bound(bytes.drop_last());
        let high = be_value(bytes.drop_last());
        assert(high * 256 + 255 < 256 * pow(256, (bytes.len() - 1) as nat)) by (nonlinear_arith)
            requires
                high < pow(256, (bytes.len() - 1) as nat),
        ;
    }
}

/// Reads up to sixteen big-endian bytes.
pub fn from_be(bytes: &[u8]) -> (value: u128)
    requires
        bytes@.len() <= 16,
    ensures
        value == be_value(bytes@),
        bytes@.len() <= 8 ==> value <= u64::MAX,
{
    let mut value: u128 = 0;
    let mut index: usize = 0;
    assert(bytes@.take(0) =~= Seq::<u8>::empty());
    while index < bytes.len()
        invariant
            index <= bytes@.len() <= 16,
            value == be_value(bytes@.take(index as int)),
        decreases bytes@.len() - index,
    {
        proof {
            let longer = bytes@.take(index + 1);
            assert(longer.drop_last() =~= bytes@.take(index as int));
            assert(longer.last() == bytes@[index as int]);
            lemma_be_value_bound(longer);
            lemma_powers();
            lemma_pow_increases(256, longer.len(), 16);
        }
        value = value * 256 + bytes[index] as u128;
        index += 1;
    }
    proof {
        assert(bytes@.take(bytes@.len() as int) =~= bytes@);
        lemma_be_value_bound(bytes@);
        lemma_powers();
        if bytes@.len() <= 8 {
            lemma_pow_increases(256, bytes@.len(), 8);
        }
    }
    value
}

/// Writes eight big-endian bytes.
pub fn be_u64(value: u64) -> (bytes: Vec<u8>)
    ensures
        bytes@ == be(value as nat, 8),
{
    be_u128(value as u128, 8)
}

/// Writes four big-endian bytes.
pub fn be_u32(value: u32) -> (bytes: Vec<u8>)
    ensures
        bytes@ == be(value as nat, 4),
{
    be_u128(value as u128, 4)
}

/// The character of one lower-case hexadecimal digit.
pub open spec fn hex_char(digit: int) -> char {
    if digit < 10 {
        ('0' as int + digit) as char
    } else {
        ('a' as int + digit - 10) as char
    }
}

/// Two lower-case hexadecimal digits for each byte.
pub open spec fn hex_text(bytes: Seq<u8>) -> Seq<char>
    decreases bytes.len(),
{
    if bytes.len() == 0 {
        Seq::empty()
    } else {
        hex_text(bytes.drop_last()).push(hex_char(bytes.last() as int / 16)).push(
            hex_char(bytes.last() as int % 16),
        )
    }
}

fn hex_digit(value: u8) -> (character: char)
    requires
        value < 16,
    ensures
        character == hex_char(value as int),
{
    if value < 10 {
        (48u8 + value) as char
    } else {
        (87u8 + value) as char
    }
}

/// Writes bytes as lower-case hexadecimal text.
pub fn hex(bytes: &[u8]) -> (text: String)
    ensures
        text@ == hex_text(bytes@),
{
    let mut text = String::new();
    let mut index: usize = 0;
    assert(bytes@.take(0) =~= Seq::<u8>::empty());
    assert(text@ =~= hex_text(bytes@.take(0)));
    while index < bytes.len()
        invariant
            index <= bytes.len(),
            text@ == hex_text(bytes@.take(index as int)),
        decreases bytes.len() - index,
    {
        text.push(hex_digit(bytes[index] / 16));
        text.push(hex_digit(bytes[index] % 16));
        assert(bytes@.take(index + 1).drop_last() =~= bytes@.take(index as int));
        index += 1;
    }
    assert(bytes@.take(bytes@.len() as int) =~= bytes@);
    text
}

/// Appends a byte slice.
pub fn extend(output: &mut Vec<u8>, bytes: &[u8])
    ensures
        final(output)@ == old(output)@ + bytes@,
{
    let mut copy = copy_bytes(bytes);
    output.append(&mut copy);
}

/// One part behind its length in eight big-endian bytes.
pub open spec fn frame(part: Seq<u8>) -> Seq<u8> {
    be(part.len(), 8) + part
}

/// Parts one after another, each behind its length.
pub open spec fn framed(parts: Seq<Seq<u8>>) -> Seq<u8>
    decreases parts.len(),
{
    if parts.len() == 0 {
        Seq::empty()
    } else {
        framed(parts.drop_last()) + frame(parts.last())
    }
}

/// Appends a part behind its length in eight big-endian bytes.
pub fn push_part(target: &mut Vec<u8>, value: &[u8])
    ensures
        final(target)@ == old(target)@ + frame(value@),
        forall|parts: Seq<Seq<u8>>|
            old(target)@ == framed(parts) ==> final(target)@ == #[trigger] framed(
                parts.push(value@),
            ),
{
    let ghost before = target@;
    let len = be_u64(value.len() as u64);
    extend(target, len.as_slice());
    extend(target, value);
    proof {
        assert(target@ =~= before + frame(value@));
        assert forall|parts: Seq<Seq<u8>>| before == framed(parts) implies target@
            == #[trigger] framed(parts.push(value@)) by {
            assert(parts.push(value@).drop_last() =~= parts);
        }
    }
}

/// Framed parts without the first one.
proof fn lemma_framed_first(parts: Seq<Seq<u8>>)
    requires
        parts.len() > 0,
    ensures
        framed(parts) == frame(parts[0]) + framed(parts.drop_first()),
    decreases parts.len(),
{
    if parts.len() == 1 {
        assert(parts.drop_last() =~= Seq::<Seq<u8>>::empty());
        assert(parts.drop_first() =~= Seq::<Seq<u8>>::empty());
        assert(framed(parts) =~= frame(parts[0]) + framed(parts.drop_first()));
    } else {
        lemma_framed_first(parts.drop_last());
        assert(parts.drop_last().drop_first() =~= parts.drop_first().drop_last());
        assert(parts.drop_last()[0] == parts[0]);
        assert(framed(parts) =~= frame(parts[0]) + framed(parts.drop_first()));
    }
}

/// Framing is injective: from framed bytes the parts can be told apart, so
/// that no two different sequences of parts have the same framed bytes.
pub proof fn law_framing_is_injective(first: Seq<Seq<u8>>, second: Seq<Seq<u8>>)
    requires
        framed(first) == framed(second),
        forall|i: int| 0 <= i < first.len() ==> (#[trigger] first[i]).len() <= u64::MAX,
        forall|i: int| 0 <= i < second.len() ==> (#[trigger] second[i]).len() <= u64::MAX,
    ensures
        first == second,
    decreases first.len(),
{
    if first.len() > 0 && second.len() > 0 {
        lemma_framed_first(first);
        lemma_framed_first(second);
        let one = first[0];
        let two = second[0];
        lemma_be_u64(one.len() as u64);
        lemma_be_u64(two.len() as u64);
        let whole = framed(first);
        assert(whole.take(8) =~= be(one.len(), 8));
        assert(whole.take(8) =~= be(two.len(), 8));
        assert(one.len() == two.len());
        assert(whole.subrange(8, 8 + one.len() as int) =~= one);
        assert(whole.subrange(8, 8 + one.len() as int) =~= two);
        assert(whole.skip(8 + one.len() as int) =~= framed(first.drop_first()));
        assert(whole.skip(8 + one.len() as int) =~= framed(second.drop_first()));
        assert forall|i: int| 0 <= i < first.drop_first().len() implies (
        #[trigger] first.drop_first()[i]).len() <= u64::MAX by {
            assert(first.drop_first()[i] == first[i + 1]);
        }
        assert forall|i: int| 0 <= i < second.drop_first().len() implies (
        #[trigger] second.drop_first()[i]).len() <= u64::MAX by {
            assert(second.drop_first()[i] == second[i + 1]);
        }
        law_framing_is_injective(first.drop_first(), second.drop_first());
        assert(first =~= seq![one] + first.drop_first());
        assert(second =~= seq![two] + second.drop_first());
    } else if first.len() > 0 {
        lemma_framed_first(first);
        lemma_be_len(first[0].len(), 8);
        assert(framed(second).len() == 0);
        assert(framed(first).len() >= 8);
    } else if second.len() > 0 {
        lemma_framed_first(second);
        lemma_be_len(second[0].len(), 8);
        assert(framed(first).len() == 0);
        assert(framed(second).len() >= 8);
    } else {
        assert(first =~= second);
    }
}

/// Copies exactly as many bytes as an array holds.
pub fn to_array<const N: usize>(bytes: &[u8]) -> (array: [u8; N])
    requires
        bytes@.len() == N,
    ensures
        array@ == bytes@,
{
    let mut array: [u8; N] = [0u8; N];
    let mut index: usize = 0;
    while index < N
        invariant
            index <= N,
            bytes@.len() == N,
            forall|i: int| 0 <= i < index ==> array@[i] == bytes@[i],
        decreases N - index,
    {
        array[index] = bytes[index];
        index += 1;
    }
    assert(array@ =~= bytes@);
    array
}

/// Big-endian bytes are those of the number that they are read as.
pub proof fn law_big_endian_is_exact(bytes: Seq<u8>)
    ensures
        be(be_value(bytes), bytes.len()) == bytes,
    decreases bytes.len(),
{
    if bytes.len() > 0 {
        let high = be_value(bytes.drop_last());
        law_big_endian_is_exact(bytes.drop_last());
        assert((high * 256 + bytes.last() as nat) / 256 == high) by (nonlinear_arith)
            requires
                0 <= bytes.last() < 256,
        ;
        assert((high * 256 + bytes.last() as nat) % 256 == bytes.last()) by (nonlinear_arith)
            requires
                0 <= bytes.last() < 256,
        ;
        assert(be(be_value(bytes), bytes.len()) =~= bytes);
    }
}

/// The most significant byte comes first: each byte counts 256 times as much as
/// the next.
pub proof fn law_big_endian_order(high: Seq<u8>, low: u8)
    ensures
        be_value(Seq::empty()) == 0,
        be_value(high.push(low)) == be_value(high) * 256 + low,
{
    assert(high.push(low).drop_last() =~= high);
}

/// Hexadecimal text has two digits for each byte and tells all bytes apart.
pub proof fn law_hexadecimal_is_injective(first: Seq<u8>, second: Seq<u8>)
    ensures
        hex_text(first).len() == 2 * first.len(),
        hex_text(first) == hex_text(second) ==> first == second,
    decreases first.len(),
{
    if first.len() > 0 {
        let shorter = first.drop_last();
        if second.len() > 0 {
            let other = second.drop_last();
            law_hexadecimal_is_injective(shorter, other);
            if hex_text(first) == hex_text(second) {
                let text = hex_text(first);
                assert(text.drop_last().drop_last() =~= hex_text(shorter));
                assert(hex_text(second).drop_last().drop_last() =~= hex_text(other));
                assert(text[text.len() - 1] == hex_char(first.last() as int % 16));
                assert(text[text.len() - 1] == hex_char(second.last() as int % 16));
                assert(text[text.len() - 2] == hex_char(first.last() as int / 16));
                assert(text[text.len() - 2] == hex_char(second.last() as int / 16));
                assert(first.last() == second.last());
                assert(first =~= shorter.push(first.last()));
                assert(second =~= other.push(second.last()));
            }
        } else {
            law_hexadecimal_is_injective(shorter, second);
        }
    } else if second.len() > 0 {
        assert(hex_text(second).len() > 0);
    }
}

/// Each byte is written as its two hexadecimal digits, in order, in small
/// letters.
pub proof fn law_hexadecimal_digits_of_a_byte(bytes: Seq<u8>, byte: u8)
    ensures
        hex_text(Seq::empty()) == Seq::<char>::empty(),
        hex_text(bytes.push(byte)).len() == hex_text(bytes).len() + 2,
        hex_text(bytes.push(byte)).take(hex_text(bytes).len() as int) == hex_text(bytes),
        ({
            let high = hex_text(bytes.push(byte))[hex_text(bytes).len() as int];
            let low = hex_text(bytes.push(byte)).last();
            &&& byte / 16 < 10 ==> high as int == 48 + byte as int / 16
            &&& byte / 16 >= 10 ==> high as int == 87 + byte as int / 16
            &&& byte % 16 < 10 ==> low as int == 48 + byte as int % 16
            &&& byte % 16 >= 10 ==> low as int == 87 + byte as int % 16
        }),
{
    assert(bytes.push(byte).drop_last() =~= bytes);
    assert(hex_text(bytes.push(byte)).take(hex_text(bytes).len() as int) =~= hex_text(bytes));
}

} // verus!

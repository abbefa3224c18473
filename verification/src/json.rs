//! Compact JSON text of numbers, byte strings and lists.

use crate::text::{decimal, decimal_text};
use vstd::prelude::*;
use vstd::string::*;

verus! {

/// Bytes as decimal numbers with a separator between them.
pub open spec fn byte_list(separator: Seq<char>, bytes: Seq<u8>) -> Seq<char>
    decreases bytes.len(),
{
    if bytes.len() == 0 {
        Seq::empty()
    } else if bytes.len() == 1 {
        decimal_text(bytes[0] as nat)
    } else {
        byte_list(separator, bytes.drop_last()) + separator + decimal_text(bytes.last() as nat)
    }
}

/// Bytes as a JSON array of numbers.
pub open spec fn json_bytes(bytes: Seq<u8>) -> Seq<char> {
    "["@ + byte_list(","@, bytes) + "]"@
}

/// Texts separated by commas.
pub open spec fn listed(parts: Seq<Seq<char>>) -> Seq<char>
    decreases parts.len(),
{
    if parts.len() == 0 {
        Seq::empty()
    } else if parts.len() == 1 {
        parts[0]
    } else {
        listed(parts.drop_last()) + ","@ + parts.last()
    }
}

/// Texts as a JSON array.
pub open spec fn json_array(parts: Seq<Seq<char>>) -> Seq<char> {
    "["@ + listed(parts) + "]"@
}

/// Appends bytes as decimal numbers with a separator between them.
pub fn push_byte_list(text: &mut String, separator: &str, bytes: &[u8])
    ensures
        final(text)@ == old(text)@ + byte_list(separator@, bytes@),
{
    let mut index: usize = 0;
    let ghost start = text@;
    assert(bytes@.take(0) =~= Seq::<u8>::empty());
    assert(start + byte_list(separator@, bytes@.take(0)) =~= start);
    while index < bytes.len()
        invariant
            index <= bytes@.len(),
            text@ == start + byte_list(separator@, bytes@.take(index as int)),
        decreases bytes@.len() - index,
    {
        let ghost so_far = byte_list(separator@, bytes@.take(index as int));
        if index > 0 {
            text.append(separator);
        }
        text.append(decimal(bytes[index] as u64).as_str());
        proof {
            let longer = bytes@.take(index + 1);
            assert(longer.drop_last() =~= bytes@.take(index as int));
            assert(longer.last() == bytes@[index as int]);
            if index == 0 {
                assert(text@ =~= start + byte_list(separator@, longer));
            } else {
                assert(text@ =~= start + (so_far + separator@ + decimal_text(
                    bytes@[index as int] as nat,
                )));
            }
        }
        index += 1;
    }
    assert(bytes@.take(bytes@.len() as int) =~= bytes@);
}

/// Appends bytes as a JSON array of numbers.
pub fn push_bytes(text: &mut String, bytes: &[u8])
    ensures
        final(text)@ == old(text)@ + json_bytes(bytes@),
{
    let ghost before = text@;
    text.append("[");
    push_byte_list(text, ",", bytes);
    text.append("]");
    assert(text@ =~= before + json_bytes(bytes@));
}

/// Appends a number.
pub fn push_number(text: &mut String, value: u64)
    ensures
        final(text)@ == old(text)@ + decimal_text(value as nat),
{
    text.append(decimal(value).as_str());
}

/// Bytes are written as a list of decimal numbers in brackets, in order, with a
/// comma between two of them.
pub proof fn law_bytes_are_listed_in_order(bytes: Seq<u8>, byte: u8)
    ensures
        json_bytes(Seq::empty()) == "[]"@,
        json_bytes(seq![byte]) == "["@ + decimal_text(byte as nat) + "]"@,
        bytes.len() > 0 ==> json_bytes(bytes.push(byte)) == json_bytes(bytes).drop_last() + ","@
            + decimal_text(byte as nat) + "]"@,
{
    reveal_strlit("[");
    reveal_strlit("]");
    reveal_strlit("[]");
    assert(json_bytes(Seq::empty()) =~= "[]"@);
    if bytes.len() > 0 {
        assert(bytes.push(byte).drop_last() =~= bytes);
        assert(json_bytes(bytes).drop_last() =~= "["@ + byte_list(","@, bytes));
        assert(json_bytes(bytes.push(byte)) =~= json_bytes(bytes).drop_last() + ","@
            + decimal_text(byte as nat) + "]"@);
    }
}

/// Parts are written in brackets, in order, with a comma between two of them.
pub proof fn law_parts_are_listed_in_order(parts: Seq<Seq<char>>, part: Seq<char>)
    ensures
        json_array(Seq::empty()) == "[]"@,
        json_array(seq![part]) == "["@ + part + "]"@,
        parts.len() > 0 ==> json_array(parts.push(part)) == json_array(parts).drop_last() + ","@
            + part + "]"@,
{
    reveal_strlit("[");
    reveal_strlit("]");
    reveal_strlit("[]");
    assert(json_array(Seq::empty()) =~= "[]"@);
    if parts.len() > 0 {
        assert(parts.push(part).drop_last() =~= parts);
        assert(json_array(parts).drop_last() =~= "["@ + listed(parts));
        assert(json_array(parts.push(part)) =~= json_array(parts).drop_last() + ","@ + part
            + "]"@);
    }
}

} // verus!

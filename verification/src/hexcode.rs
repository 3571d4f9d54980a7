//! Lower-case hexadecimal text for hashes and identifiers.

use vstd::prelude::*;

verus! {

/// The lower-case hexadecimal digit for a value below 16.
pub open spec fn hex_digit(n: int) -> char {
    seq!['0', '1', '2', '3', '4', '5', '6', '7', '8', '9', 'a', 'b', 'c', 'd', 'e', 'f'][n]
}

/// Two digits per byte, high nibble first.
pub open spec fn hex_encoding(data: Seq<u8>) -> Seq<char> {
    Seq::new(
        2 * data.len(),
        |i: int| hex_digit(if i % 2 == 0 { data[i / 2] as int / 16 } else { data[i / 2] as int % 16 }),
    )
}

/// The value of a hexadecimal digit of either case.
pub open spec fn hex_value(c: char) -> Option<int> {
    let n = c as int;
    if 48 <= n <= 57 {
        Some(n - 48)
    } else if 97 <= n <= 102 {
        Some(n - 87)
    } else if 65 <= n <= 70 {
        Some(n - 55)
    } else {
        None
    }
}

/// A text is hexadecimal when it has an even number of characters, all of them
/// hexadecimal digits.
pub open spec fn is_hex(text: Seq<char>) -> bool {
    &&& text.len() % 2 == 0
    &&& forall|i: int| 0 <= i < text.len() ==> hex_value(#[trigger] text[i]).is_some()
}

/// The bytes a hexadecimal text stands for; `None` when it is not hexadecimal.
pub open spec fn hex_decoding(text: Seq<char>) -> Option<Seq<u8>> {
    if is_hex(text) {
        Some(
            Seq::new(
                text.len() / 2,
                |i: int| (hex_value(text[2 * i]).unwrap() * 16 + hex_value(text[2 * i + 1]).unwrap()) as u8,
            ),
        )
    } else {
        None
    }
}

/// Calls `hex::encode`. Trusted: the result holds two lower-case digits for
/// each byte, the high nibble first.
#[verifier::external_body]
pub(crate) fn hex_encode(data: &[u8]) -> (text: String)
    ensures
        text@ == hex_encoding(data@),
{
    hex::encode(data)
}

/// Calls `hex::decode`. Trusted: it succeeds exactly on texts of even length
/// made of hexadecimal digits of either case, and then yields one byte for
/// each pair of digits.
#[verifier::external_body]
pub(crate) fn hex_decode(text: &str) -> (out: Option<Vec<u8>>)
    ensures
        match out {
            Some(bytes) => hex_decoding(text@) == Some(bytes@),
            None => hex_decoding(text@).is_none(),
        },
{
    hex::decode(text).ok()
}

/// Decoding undoes encoding.
pub proof fn lemma_hex_round_trip(data: Seq<u8>)
    ensures
        hex_decoding(hex_encoding(data)) == Some(data),
{
    let text = hex_encoding(data);
    assert forall|i: int| 0 <= i < text.len() implies hex_value(#[trigger] text[i]).is_some() by {
        lemma_hex_digit_value(if i % 2 == 0 { data[i / 2] as int / 16 } else { data[i / 2] as int % 16 });
    }
    assert(is_hex(text));
    let back = hex_decoding(text).unwrap();
    assert forall|i: int| 0 <= i < data.len() implies back[i] == data[i] by {
        lemma_hex_digit_value(data[i] as int / 16);
        lemma_hex_digit_value(data[i] as int % 16);
        assert((2 * i) / 2 == i && (2 * i) % 2 == 0);
        assert((2 * i + 1) / 2 == i && (2 * i + 1) % 2 == 1);
    }
    assert(back =~= data);
}

/// A digit's value is the number it was made from.
pub proof fn lemma_hex_digit_value(n: int)
    requires
        0 <= n < 16,
    ensures
        hex_value(hex_digit(n)) == Some(n),
{
    let digits = seq!['0', '1', '2', '3', '4', '5', '6', '7', '8', '9', 'a', 'b', 'c', 'd', 'e', 'f'];
    assert(digits[0] == '0' && digits[1] == '1' && digits[2] == '2' && digits[3] == '3');
    assert(digits[4] == '4' && digits[5] == '5' && digits[6] == '6' && digits[7] == '7');
    assert(digits[8] == '8' && digits[9] == '9' && digits[10] == 'a' && digits[11] == 'b');
    assert(digits[12] == 'c' && digits[13] == 'd' && digits[14] == 'e' && digits[15] == 'f');
}

} // verus!

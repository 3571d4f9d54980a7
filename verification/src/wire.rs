//! The byte encoding that transactions are named and signed over, that
//! commands travel in and that the ledger is stored in. Integers are encoded
//! by bincode in its standard configuration; a byte string is its length and
//! then its bytes, a text the byte string of its UTF-8 form, a record its
//! fields one after the other, a list its length and then its items.

use crate::octets::{append_bytes, copy_range};
use vstd::prelude::*;
use vstd::utf8::{decode_utf8, encode_utf8, valid_utf8};

verus! {

/// The `width` bytes of a number, least significant first.
pub open spec fn le_bytes(value: nat, width: nat) -> Seq<u8>
    decreases width,
{
    if width == 0 {
        Seq::empty()
    } else {
        seq![(value % 256) as u8] + le_bytes(value / 256, (width - 1) as nat)
    }
}

/// The number that bytes stand for, least significant first.
pub open spec fn le_value(bytes: Seq<u8>) -> nat
    decreases bytes.len(),
{
    if bytes.len() == 0 {
        0
    } else {
        bytes[0] as nat + 256 * le_value(bytes.drop_first())
    }
}

/// 256 to the power of `width`: the first number that `width` bytes cannot
/// hold.
pub open spec fn span(width: nat) -> nat
    decreases width,
{
    if width == 0 {
        1
    } else {
        256 * span((width - 1) as nat)
    }
}

/// The encoding of an unsigned integer: a number below 251 is one byte;
/// any other is a marker byte (251, 252, 253 or 254) and then the number in
/// 2, 4, 8 or 16 bytes, least significant first, in the least width that
/// holds it.
#[verifier::opaque]
pub open spec fn varint(value: nat) -> Seq<u8> {
    if value < 251 {
        seq![value as u8]
    } else if value < 0x1_0000 {
        seq![251u8] + le_bytes(value, 2)
    } else if value < 0x1_0000_0000 {
        seq![252u8] + le_bytes(value, 4)
    } else if value < 0x1_0000_0000_0000_0000 {
        seq![253u8] + le_bytes(value, 8)
    } else {
        seq![254u8] + le_bytes(value, 16)
    }
}

/// The number of bytes that follow a marker byte; 0 for a byte that is no
/// marker.
pub open spec fn marker_width(marker: u8) -> nat {
    if marker == 251 {
        2
    } else if marker == 252 {
        4
    } else if marker == 253 {
        8
    } else if marker == 254 {
        16
    } else {
        0
    }
}

/// The unsigned integer at the front of `bytes`, read for a type of
/// `widest` bytes, with the number of bytes it took. A first byte below 251
/// is the number; a marker is followed by the number in the marker's width.
/// `None` when there is no byte, the first byte is 255, the marker's width
/// is more than the type has, or fewer bytes follow than the marker asks.
#[verifier::opaque]
pub open spec fn read_varint(bytes: Seq<u8>, widest: nat) -> Option<(nat, nat)> {
    if bytes.len() == 0 {
        None
    } else if bytes[0] < 251 {
        Some((bytes[0] as nat, 1))
    } else {
        let width = marker_width(bytes[0]);
        if width == 0 || width > widest || bytes.len() < 1 + width {
            None
        } else {
            Some((le_value(bytes.subrange(1, (1 + width) as int)), 1 + width))
        }
    }
}

/// Calls `bincode::encode_to_vec` in the standard configuration on a `u32`.
/// Trusted: the result is the variable-length encoding that bincode
/// documents, little-endian, and encoding into a vector does not fail.
#[verifier::external_body]
pub(crate) fn encode_u32(value: u32) -> (bytes: Vec<u8>)
    ensures
        bytes@ == varint(value as nat),
{
    bincode::encode_to_vec(value, bincode::config::standard()).expect("a vector takes every encoding")
}

/// Calls `bincode::encode_to_vec` in the standard configuration on a
/// `u128`. Trusted: the result is the variable-length encoding that bincode
/// documents, little-endian, and encoding into a vector does not fail.
#[verifier::external_body]
pub(crate) fn encode_u128(value: u128) -> (bytes: Vec<u8>)
    ensures
        bytes@ == varint(value as nat),
{
    bincode::encode_to_vec(value, bincode::config::standard()).expect("a vector takes every encoding")
}

/// Calls `bincode::encode_to_vec` in the standard configuration on a
/// `usize`. Trusted: the number is encoded as a `u64` is, in the
/// variable-length encoding that bincode documents, little-endian, and
/// encoding into a vector does not fail.
#[verifier::external_body]
pub(crate) fn encode_usize(value: usize) -> (bytes: Vec<u8>)
    ensures
        bytes@ == varint(value as nat),
{
    bincode::encode_to_vec(value, bincode::config::standard()).expect("a vector takes every encoding")
}

/// Calls `bincode::decode_from_slice` in the standard configuration for a
/// `u32`. Trusted: the number and the bytes it took are those of the
/// variable-length encoding read for four bytes at most; what follows is not
/// looked at.
#[verifier::external_body]
pub(crate) fn decode_u32(bytes: &[u8]) -> (read: Option<(u32, usize)>)
    ensures
        match read {
            Some((value, taken)) => read_varint(bytes@, 4) == Some((value as nat, taken as nat)),
            None => read_varint(bytes@, 4).is_none(),
        },
{
    bincode::decode_from_slice(bytes, bincode::config::standard()).ok()
}

/// Calls `bincode::decode_from_slice` in the standard configuration for a
/// `u128`. Trusted: the number and the bytes it took are those of the
/// variable-length encoding read for sixteen bytes at most; what follows is
/// not looked at.
#[verifier::external_body]
pub(crate) fn decode_u128(bytes: &[u8]) -> (read: Option<(u128, usize)>)
    ensures
        match read {
            Some((value, taken)) => read_varint(bytes@, 16) == Some((value as nat, taken as nat)),
            None => read_varint(bytes@, 16).is_none(),
        },
{
    bincode::decode_from_slice(bytes, bincode::config::standard()).ok()
}

/// Calls `bincode::decode_from_slice` in the standard configuration for a
/// `u64`. Trusted: the number and the bytes it took are those of the
/// variable-length encoding read for eight bytes at most; what follows is
/// not looked at.
#[verifier::external_body]
pub(crate) fn decode_u64(bytes: &[u8]) -> (read: Option<(u64, usize)>)
    ensures
        match read {
            Some((value, taken)) => read_varint(bytes@, 8) == Some((value as nat, taken as nat)),
            None => read_varint(bytes@, 8).is_none(),
        },
{
    bincode::decode_from_slice(bytes, bincode::config::standard()).ok()
}

/// Calls `String::from_utf8`. Trusted: it succeeds exactly on valid UTF-8,
/// and the text is then what the bytes decode to.
#[verifier::external_body]
pub(crate) fn text_from_utf8(bytes: Vec<u8>) -> (text: Option<String>)
    ensures
        match text {
            Some(t) => valid_utf8(bytes@) && t@ == decode_utf8(bytes@),
            None => !valid_utf8(bytes@),
        },
{
    String::from_utf8(bytes).ok()
}

/// The encoding of a `u32`.
pub open spec fn u32_bytes(value: u32) -> Seq<u8> {
    varint(value as nat)
}

/// The encoding of a `u128`.
pub open spec fn u128_bytes(value: u128) -> Seq<u8> {
    varint(value as nat)
}

/// The encoding of a `usize`; a list starts with its length so encoded.
pub open spec fn usize_bytes(value: usize) -> Seq<u8> {
    varint(value as nat)
}

/// The encoding of a byte string: its length, then its bytes.
pub open spec fn bytes_bytes(value: Seq<u8>) -> Seq<u8> {
    usize_bytes(value.len() as usize) + value
}

/// The encoding of a text: the byte string of its UTF-8 form.
pub open spec fn text_bytes(value: Seq<char>) -> Seq<u8> {
    bytes_bytes(encode_utf8(value))
}

/// The unsigned integer that stands at `at`, read for a type of `widest`
/// bytes, with the position after it.
pub open spec fn read(bytes: Seq<u8>, at: nat, widest: nat) -> Option<(nat, nat)> {
    if at <= bytes.len() {
        match read_varint(bytes.skip(at as int), widest) {
            Some((value, taken)) => Some((value, at + taken)),
            None => None,
        }
    } else {
        None
    }
}

/// The `u32` that stands at `at`, with the position after it.
pub open spec fn read_u32(bytes: Seq<u8>, at: nat) -> Option<(u32, nat)> {
    match read(bytes, at, 4) {
        Some((value, next)) => Some((value as u32, next)),
        None => None,
    }
}

/// The `u128` that stands at `at`, with the position after it.
pub open spec fn read_u128(bytes: Seq<u8>, at: nat) -> Option<(u128, nat)> {
    match read(bytes, at, 16) {
        Some((value, next)) => Some((value as u128, next)),
        None => None,
    }
}

/// The `usize` that stands at `at`, with the position after it: a number
/// read for eight bytes that a `usize` holds.
pub open spec fn read_usize(bytes: Seq<u8>, at: nat) -> Option<(usize, nat)> {
    match read(bytes, at, 8) {
        Some((value, next)) => if value <= usize::MAX {
            Some((value as usize, next))
        } else {
            None
        },
        None => None,
    }
}

/// The byte string that stands at `at`, with the position after it: a
/// length, and as many bytes as it says. `None` when fewer bytes follow.
pub open spec fn read_bytes(bytes: Seq<u8>, at: nat) -> Option<(Seq<u8>, nat)> {
    match read_usize(bytes, at) {
        None => None,
        Some((len, start)) => if start + len <= bytes.len() {
            Some((bytes.subrange(start as int, start + len), (start + len) as nat))
        } else {
            None
        },
    }
}

/// The text that stands at `at`, with the position after it: a byte string
/// that is valid UTF-8.
pub open spec fn read_text(bytes: Seq<u8>, at: nat) -> Option<(Seq<char>, nat)> {
    match read_bytes(bytes, at) {
        None => None,
        Some((raw, next)) => if valid_utf8(raw) {
            Some((decode_utf8(raw), next))
        } else {
            None
        },
    }
}

/// A number in `width` bytes takes `width` bytes.
pub proof fn lemma_le_bytes_len(value: nat, width: nat)
    ensures
        le_bytes(value, width).len() == width,
    decreases width,
{
    if width > 0 {
        lemma_le_bytes_len(value / 256, (width - 1) as nat);
    }
}

/// The bytes of a number stand for the number, as far as they hold it.
pub proof fn lemma_le_value_of_bytes(value: nat, width: nat)
    ensures
        span(width) > 0,
        le_value(le_bytes(value, width)) == value % span(width),
    decreases width,
{
    if width > 0 {
        let rest = le_bytes(value / 256, (width - 1) as nat);
        let all = le_bytes(value, width);
        lemma_le_value_of_bytes(value / 256, (width - 1) as nat);
        assert(all[0] == (value % 256) as u8);
        assert(all.drop_first() =~= rest);
        vstd::arithmetic::div_mod::lemma_mod_breakdown(value as int, 256, span((width - 1) as nat) as int);
    }
}

/// Whether a type of `widest` bytes is one that integers are read for.
pub open spec fn is_width(widest: nat) -> bool {
    widest == 4 || widest == 8 || widest == 16
}

/// What is encoded reads back: the number, and the bytes of its encoding
/// taken, whatever follows.
pub proof fn lemma_varint_reads_back(value: nat, widest: nat, rest: Seq<u8>)
    requires
        is_width(widest),
        value < span(widest),
    ensures
        read_varint(varint(value) + rest, widest) == Some((value, varint(value).len())),
{
    let bytes = varint(value) + rest;
    reveal(varint);
    reveal(read_varint);
    reveal_with_fuel(span, 17);
    assert(span(2) == 0x1_0000);
    assert(span(4) == 0x1_0000_0000);
    assert(span(8) == 0x1_0000_0000_0000_0000);
    assert(span(16) == 0x1_0000_0000_0000_0000_0000_0000_0000_0000);
    if value >= 251 {
        let width: nat = if value < 0x1_0000 {
            2
        } else if value < 0x1_0000_0000 {
            4
        } else if value < 0x1_0000_0000_0000_0000 {
            8
        } else {
            16
        };
        lemma_le_bytes_len(value, width);
        lemma_le_value_of_bytes(value, width);
        vstd::arithmetic::div_mod::lemma_small_mod(value, span(width));
        assert(bytes.subrange(1, (1 + width) as int) =~= le_bytes(value, width));
        assert(marker_width(bytes[0]) == width);
    }
}

/// What is read takes no more bytes than there are.
pub proof fn lemma_read_varint_bound(bytes: Seq<u8>, widest: nat)
    ensures
        read_varint(bytes, widest) matches Some((value, taken)) ==> 1 <= taken <= bytes.len(),
{
    reveal(read_varint);
}

/// Joining is associative.
pub proof fn lemma_concat_assoc(first: Seq<u8>, second: Seq<u8>, third: Seq<u8>)
    ensures
        (first + second) + third == first + (second + third),
{
    assert((first + second) + third =~= first + (second + third));
}

/// Where `head` and then `tail` stand at `at`, `tail` stands after `head`.
pub proof fn lemma_skip_past(bytes: Seq<u8>, at: nat, head: Seq<u8>, tail: Seq<u8>)
    requires
        at <= bytes.len(),
        bytes.skip(at as int) == head + tail,
    ensures
        at + head.len() <= bytes.len(),
        bytes.skip((at + head.len()) as int) == tail,
{
    assert(bytes.skip(at as int).len() == head.len() + tail.len());
    assert(bytes.skip((at + head.len()) as int) =~= bytes.skip(at as int).skip(head.len() as int));
    assert((head + tail).skip(head.len() as int) =~= tail);
}

/// An encoded `u32` reads back, wherever it stands.
pub proof fn lemma_u32_reads_back(bytes: Seq<u8>, at: nat, value: u32, rest: Seq<u8>)
    requires
        at <= bytes.len(),
        bytes.skip(at as int) == u32_bytes(value) + rest,
    ensures
        read_u32(bytes, at) == Some((value, (at + u32_bytes(value).len()) as nat)),
{
    reveal_with_fuel(span, 5);
    lemma_varint_reads_back(value as nat, 4, rest);
}

/// An encoded `u128` reads back, wherever it stands.
pub proof fn lemma_u128_reads_back(bytes: Seq<u8>, at: nat, value: u128, rest: Seq<u8>)
    requires
        at <= bytes.len(),
        bytes.skip(at as int) == u128_bytes(value) + rest,
    ensures
        read_u128(bytes, at) == Some((value, (at + u128_bytes(value).len()) as nat)),
{
    reveal_with_fuel(span, 17);
    assert(span(16) == 0x1_0000_0000_0000_0000_0000_0000_0000_0000);
    lemma_varint_reads_back(value as nat, 16, rest);
}

/// An encoded `usize` reads back, wherever it stands.
pub proof fn lemma_usize_reads_back(bytes: Seq<u8>, at: nat, value: usize, rest: Seq<u8>)
    requires
        at <= bytes.len(),
        bytes.skip(at as int) == usize_bytes(value) + rest,
    ensures
        read_usize(bytes, at) == Some((value, (at + usize_bytes(value).len()) as nat)),
{
    reveal_with_fuel(span, 9);
    assert(span(8) == 0x1_0000_0000_0000_0000);
    lemma_varint_reads_back(value as nat, 8, rest);
}

/// Whether a byte string can be encoded: its length fits.
pub open spec fn bytes_fit(value: Seq<u8>) -> bool {
    value.len() <= usize::MAX
}

/// An encoded byte string reads back, wherever it stands.
pub proof fn lemma_bytes_read_back(bytes: Seq<u8>, at: nat, value: Seq<u8>, rest: Seq<u8>)
    requires
        at <= bytes.len(),
        bytes.skip(at as int) == bytes_bytes(value) + rest,
        bytes_fit(value),
    ensures
        read_bytes(bytes, at) == Some((value, (at + bytes_bytes(value).len()) as nat)),
{
    let len = value.len() as usize;
    lemma_concat_assoc(usize_bytes(len), value, rest);
    lemma_usize_reads_back(bytes, at, len, value + rest);
    lemma_skip_past(bytes, at, usize_bytes(len), value + rest);
    let start = (at + usize_bytes(len).len()) as nat;
    lemma_skip_past(bytes, start, value, rest);
    assert(bytes.subrange(start as int, start + len) =~= bytes.skip(start as int).take(len as int));
    assert((value + rest).take(len as int) =~= value);
}

/// Whether a text can be encoded: its UTF-8 form has a length that fits.
pub open spec fn text_fits(value: Seq<char>) -> bool {
    encode_utf8(value).len() <= usize::MAX
}

/// An encoded text reads back, wherever it stands.
pub proof fn lemma_text_reads_back(bytes: Seq<u8>, at: nat, value: Seq<char>, rest: Seq<u8>)
    requires
        at <= bytes.len(),
        bytes.skip(at as int) == text_bytes(value) + rest,
        text_fits(value),
    ensures
        read_text(bytes, at) == Some((value, (at + text_bytes(value).len()) as nat)),
{
    lemma_bytes_read_back(bytes, at, encode_utf8(value), rest);
    vstd::utf8::encode_utf8_valid_utf8(value);
    vstd::utf8::encode_utf8_decode_utf8(value);
}

/// Appends the encoding of a `u32`.
pub fn put_u32(out: &mut Vec<u8>, value: u32)
    ensures
        final(out)@ == old(out)@ + u32_bytes(value),
{
    let piece = encode_u32(value);
    append_bytes(out, piece.as_slice());
}

/// Appends the encoding of a `u128`.
pub fn put_u128(out: &mut Vec<u8>, value: u128)
    ensures
        final(out)@ == old(out)@ + u128_bytes(value),
{
    let piece = encode_u128(value);
    append_bytes(out, piece.as_slice());
}

/// Appends the encoding of a `usize`.
pub fn put_usize(out: &mut Vec<u8>, value: usize)
    ensures
        final(out)@ == old(out)@ + usize_bytes(value),
{
    let piece = encode_usize(value);
    append_bytes(out, piece.as_slice());
}

/// Appends the encoding of a byte string.
pub fn put_bytes(out: &mut Vec<u8>, value: &[u8])
    ensures
        final(out)@ == old(out)@ + bytes_bytes(value@),
{
    put_usize(out, value.len());
    append_bytes(out, value);
    proof {
        lemma_concat_assoc(old(out)@, usize_bytes(value.len()), value@);
    }
}

/// Appends the encoding of a text.
pub fn put_text(out: &mut Vec<u8>, value: &String)
    ensures
        final(out)@ == old(out)@ + text_bytes(value@),
{
    put_bytes(out, value.as_str().as_bytes());
}

/// Reads the `u32` that stands at `at`.
pub fn take_u32(src: &[u8], at: usize) -> (found: Option<(u32, usize)>)
    ensures
        match found {
            Some((value, next)) => read_u32(src@, at as nat) == Some((value, next as nat)) && at <= next <= src@.len(),
            None => read_u32(src@, at as nat).is_none(),
        },
{
    if at > src.len() {
        return None;
    }
    let rest = &src[at..src.len()];
    proof {
        assert(rest@ =~= src@.skip(at as int));
        lemma_read_varint_bound(rest@, 4);
        lemma_read_varint_bound(rest@, 8);
        lemma_read_varint_bound(rest@, 16);
    }
    match decode_u32(rest) {
        Some((value, taken)) => Some((value, at + taken)),
        None => None,
    }
}

/// Reads the `u128` that stands at `at`.
pub fn take_u128(src: &[u8], at: usize) -> (found: Option<(u128, usize)>)
    ensures
        match found {
            Some((value, next)) => read_u128(src@, at as nat) == Some((value, next as nat)) && at <= next
                <= src@.len(),
            None => read_u128(src@, at as nat).is_none(),
        },
{
    if at > src.len() {
        return None;
    }
    let rest = &src[at..src.len()];
    proof {
        assert(rest@ =~= src@.skip(at as int));
        lemma_read_varint_bound(rest@, 4);
        lemma_read_varint_bound(rest@, 8);
        lemma_read_varint_bound(rest@, 16);
    }
    match decode_u128(rest) {
        Some((value, taken)) => Some((value, at + taken)),
        None => None,
    }
}

/// Reads the `usize` that stands at `at`.
pub fn take_usize(src: &[u8], at: usize) -> (found: Option<(usize, usize)>)
    ensures
        match found {
            Some((value, next)) => read_usize(src@, at as nat) == Some((value, next as nat)) && at <= next
                <= src@.len(),
            None => read_usize(src@, at as nat).is_none(),
        },
{
    if at > src.len() {
        return None;
    }
    let rest = &src[at..src.len()];
    proof {
        assert(rest@ =~= src@.skip(at as int));
        lemma_read_varint_bound(rest@, 4);
        lemma_read_varint_bound(rest@, 8);
        lemma_read_varint_bound(rest@, 16);
    }
    match decode_u64(rest) {
        Some((value, taken)) => if value <= usize::MAX as u64 {
            Some((value as usize, at + taken))
        } else {
            None
        },
        None => None,
    }
}

/// Reads the byte string that stands at `at`.
pub fn take_bytes(src: &[u8], at: usize) -> (found: Option<(Vec<u8>, usize)>)
    ensures
        match found {
            Some((value, next)) => read_bytes(src@, at as nat) == Some((value@, next as nat)) && at <= next
                <= src@.len(),
            None => read_bytes(src@, at as nat).is_none(),
        },
{
    let (len, start) = match take_usize(src, at) {
        None => {
            return None;
        },
        Some(read) => read,
    };
    if len > src.len() - start {
        return None;
    }
    Some((copy_range(src, start, start + len), start + len))
}

/// Reads the text that stands at `at`.
pub fn take_text(src: &[u8], at: usize) -> (found: Option<(String, usize)>)
    ensures
        match found {
            Some((value, next)) => read_text(src@, at as nat) == Some((value@, next as nat)) && at <= next
                <= src@.len(),
            None => read_text(src@, at as nat).is_none(),
        },
{
    let (raw, next) = match take_bytes(src, at) {
        None => {
            return None;
        },
        Some(read) => read,
    };
    match text_from_utf8(raw) {
        None => None,
        Some(value) => Some((value, next)),
    }
}

} // verus!

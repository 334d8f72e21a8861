//! Names as the tape stores them: six bytes, padded on the right.

use vstd::prelude::*;
use vstd::string::*;
use vstd::utf8::*;

verus! {

/// The six bytes that stand for a name on tape: the first six bytes of
/// `bytes`, and spaces where `bytes` has fewer.
pub open spec fn tape_name(bytes: Seq<u8>) -> Seq<u8> {
    Seq::new(
        6,
        |i: int|
            if i < bytes.len() {
                bytes[i]
            } else {
                0x20u8
            },
    )
}

/// Turns a string into the name of a file on tape, and tells whether the
/// string had to be cut for it: whether it is longer than six bytes.
pub fn file_name(s: &str) -> (result: ([u8; 6], bool))
    ensures
        result.0@ == tape_name(s.spec_bytes()),
        result.1 == (s.spec_bytes().len() > 6),
{
    let bytes = s.as_bytes();
    let last: usize = if bytes.len() < 6 {
        bytes.len()
    } else {
        6
    };
    let mut name: [u8; 6] = [0x20; 6];
    let mut i: usize = 0;
    while i < last
        invariant
            i <= last <= 6,
            last <= bytes@.len(),
            forall|k: int| 0 <= k < i ==> name@[k] == bytes@[k],
            forall|k: int| i <= k < 6 ==> name@[k] == 0x20,
        decreases last - i,
    {
        name[i] = bytes[i];
        i = i + 1;
    }
    assert(name@ == tape_name(bytes@));
    (name, bytes.len() > last)
}

/// A byte that pads a name on the right: a space or a NUL.
pub open spec fn is_padding(byte: u8) -> bool {
    byte == 0x20 || byte == 0x00
}

/// `field` without the padding at its end.
pub open spec fn trim_padding(field: Seq<u8>) -> Seq<u8>
    decreases field.len(),
{
    if field.len() > 0 && is_padding(field.last()) {
        trim_padding(field.drop_last())
    } else {
        field
    }
}

/// A character that pads a name on the right: a space or a NUL.
pub open spec fn is_padding_char(c: char) -> bool {
    c == ' ' || c == '\0'
}

/// `text` without the padding at its end.
pub open spec fn trim_text(text: Seq<char>) -> Seq<char>
    decreases text.len(),
{
    if text.len() > 0 && is_padding_char(text.last()) {
        trim_text(text.drop_last())
    } else {
        text
    }
}

/// The text of one ASCII byte is that byte.
pub proof fn lemma_decode_ascii_byte(byte: u8)
    requires
        byte <= 0x7f,
    ensures
        valid_utf8(seq![byte]),
        decode_utf8(seq![byte]) == seq![byte as char],
{
    let one = seq![byte];
    assert(pop_first_scalar(one) == Seq::<u8>::empty());
    reveal_with_fuel(valid_utf8, 2);
    reveal_with_fuel(decode_utf8, 2);
    assert(byte & 0x7f == byte) by (bit_vector)
        requires
            byte <= 0x7f,
    ;
    assert(decode_first_scalar(one) == byte as u32);
    assert(decode_utf8(one) == seq![decode_first_scalar(one) as char] + decode_utf8(
        pop_first_scalar(one),
    ));
}

/// Text that ends with an ASCII byte ends with that character.
pub proof fn lemma_decode_ascii_end(bytes: Seq<u8>)
    requires
        valid_utf8(bytes),
        bytes.len() > 0,
        bytes.last() <= 0x7f,
    ensures
        valid_utf8(bytes.drop_last()),
        decode_utf8(bytes) == decode_utf8(bytes.drop_last()).push(bytes.last() as char),
{
    let cut = bytes.len() - 1;
    is_char_boundary_iff_not_is_continuation_byte(bytes, cut);
    valid_utf8_split(bytes, cut);
    decode_utf8_split(bytes, cut);
    assert(bytes.subrange(0, cut) == bytes.drop_last());
    assert(bytes.subrange(cut, bytes.len() as int) == seq![bytes.last()]);
    lemma_decode_ascii_byte(bytes.last());
}

/// Text that ends with a byte outside ASCII ends with a character outside
/// ASCII.
pub proof fn lemma_decode_other_end(bytes: Seq<u8>)
    requires
        valid_utf8(bytes),
        bytes.len() > 0,
        bytes.last() > 0x7f,
    ensures
        decode_utf8(bytes).len() > 0,
        decode_utf8(bytes).last() as u32 >= 0x80,
    decreases bytes.len(),
{
    let first = decode_first_scalar(bytes);
    let rest = pop_first_scalar(bytes);
    assert(decode_utf8(bytes) == seq![first as char] + decode_utf8(rest));
    if rest.len() == 0 {
        assert(decode_utf8(rest) == Seq::<char>::empty());
        assert(decode_utf8(bytes).last() == first as char);
        assert(first >= 0x80);
        assert(first <= 0x10ffff && !(0xd800 <= first <= 0xdfff)) by {
            lemma_scalar_in_range(bytes);
        }
    } else {
        assert(rest.last() == bytes.last());
        lemma_decode_other_end(rest);
        assert(decode_utf8(bytes).last() == decode_utf8(rest).last());
    }
}

/// The first scalar of well-formed bytes is a scalar.
pub proof fn lemma_scalar_in_range(bytes: Seq<u8>)
    requires
        valid_first_scalar(bytes),
    ensures
        decode_first_scalar(bytes) <= 0x10ffff,
        !(0xd800 <= decode_first_scalar(bytes) <= 0xdfff),
{
    let b0 = bytes[0];
    if is_leading_byte_width_1(b0) {
        assert(b0 & 0x7f <= 0x7f) by (bit_vector);
    } else if is_leading_byte_width_2(b0) {
        let b1 = bytes[1];
        assert(((b0 & 0x1f) as u32) << 6 | ((b1 & 0x3f) as u32) <= 0x7ff) by (bit_vector);
    } else if is_leading_byte_width_3(b0) {
        let b1 = bytes[1];
        let b2 = bytes[2];
        assert(((b0 & 0x0f) as u32) << 12 | ((b1 & 0x3f) as u32) << 6 | ((b2 & 0x3f) as u32)
            <= 0xffff) by (bit_vector);
    }
}

/// Trimming the bytes of a text trims the text.
pub proof fn lemma_trim_padding_trims_text(bytes: Seq<u8>)
    requires
        valid_utf8(bytes),
    ensures
        valid_utf8(trim_padding(bytes)),
        decode_utf8(trim_padding(bytes)) == trim_text(decode_utf8(bytes)),
    decreases bytes.len(),
{
    if bytes.len() == 0 {
    } else if is_padding(bytes.last()) {
        lemma_decode_ascii_end(bytes);
        lemma_trim_padding_trims_text(bytes.drop_last());
        let text = decode_utf8(bytes);
        assert(text.drop_last() == decode_utf8(bytes.drop_last()));
        assert(is_padding_char(text.last()));
    } else if bytes.last() <= 0x7f {
        lemma_decode_ascii_end(bytes);
        let text = decode_utf8(bytes);
        assert(text.last() == bytes.last() as char);
        assert(!is_padding_char(text.last()));
    } else {
        lemma_decode_other_end(bytes);
        let text = decode_utf8(bytes);
        assert(!is_padding_char(text.last()));
    }
}

/// Padding bytes never make or break UTF-8: a field is well-formed exactly
/// when it is so without its padding.
pub proof fn lemma_trim_padding_keeps_utf8(field: Seq<u8>)
    ensures
        valid_utf8(field) <==> valid_utf8(trim_padding(field)),
    decreases field.len(),
{
    if field.len() > 0 && is_padding(field.last()) {
        let rest = field.drop_last();
        let pad = seq![field.last()];
        lemma_trim_padding_keeps_utf8(rest);
        assert(field == rest + pad);
        assert(valid_utf8(pad)) by {
            reveal_with_fuel(valid_utf8, 2);
            assert(pop_first_scalar(pad) == Seq::<u8>::empty());
        }
        if valid_utf8(rest) {
            valid_utf8_concat(rest, pad);
        }
        if valid_utf8(field) {
            let cut = field.len() - 1;
            is_char_boundary_iff_not_is_continuation_byte(field, cut);
            valid_utf8_split(field, cut);
            assert(field.subrange(0, cut) == rest);
        }
    }
}

/// Spaces behind a text are padding: without it, the text is as before.
pub proof fn lemma_spaces_are_trimmed(bytes: Seq<u8>, count: nat)
    requires
        valid_utf8(bytes),
    ensures
        valid_utf8(bytes + Seq::new(count, |i: int| 0x20u8)),
        trim_text(decode_utf8(bytes + Seq::new(count, |i: int| 0x20u8))) == trim_text(
            decode_utf8(bytes),
        ),
    decreases count,
{
    let field = bytes + Seq::new(count, |i: int| 0x20u8);
    if count == 0 {
        assert(field == bytes);
    } else {
        let before = bytes + Seq::new((count - 1) as nat, |i: int| 0x20u8);
        lemma_spaces_are_trimmed(bytes, (count - 1) as nat);
        lemma_decode_ascii_byte(0x20);
        assert(field == before + seq![0x20u8]);
        valid_utf8_concat(before, seq![0x20u8]);
        lemma_decode_ascii_end(field);
        assert(field.drop_last() == before);
        assert(decode_utf8(field).drop_last() == decode_utf8(before));
    }
}

/// A name that fits into six bytes and ends with no padding is read back from
/// the tape as it was written to it.
pub proof fn law_name_round_trip(text: Seq<char>)
    requires
        encode_utf8(text).len() <= 6,
        text.len() > 0 ==> !is_padding_char(text.last()),
    ensures
        valid_utf8(tape_name(encode_utf8(text))),
        trim_text(decode_utf8(tape_name(encode_utf8(text)))) == text,
{
    let bytes = encode_utf8(text);
    let count = (6 - bytes.len()) as nat;
    encode_utf8_valid_utf8(text);
    encode_utf8_decode_utf8(text);
    assert(tape_name(bytes) == bytes + Seq::new(count, |i: int| 0x20u8));
    lemma_spaces_are_trimmed(bytes, count);
}

} // verus!

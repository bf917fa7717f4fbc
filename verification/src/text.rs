//! Source bytes read as text.

use vstd::prelude::*;
use vstd::utf8::*;

verus! {

/// What `String::from_utf8_lossy` makes of bytes that are not valid UTF-8.
pub uninterp spec fn lossy_text(bytes: Seq<u8>) -> Seq<char>;

/// The text that a run of source bytes stands for: its UTF-8 decoding where it
/// has one, and otherwise the decoding with each malformed part replaced.
pub open spec fn text_of(bytes: Seq<u8>) -> Seq<char> {
    if valid_utf8(bytes) {
        decode_utf8(bytes)
    } else {
        lossy_text(bytes)
    }
}

/// `String::from_utf8_lossy` decodes valid UTF-8 as it stands; on anything
/// else it substitutes U+FFFD for the malformed parts, which is left named
/// here rather than spelled out.
#[verifier::external_body]
pub(crate) fn decode(bytes: &[u8]) -> (text: String)
    ensures
        valid_utf8(bytes@) ==> text@ == decode_utf8(bytes@),
        !valid_utf8(bytes@) ==> text@ == lossy_text(bytes@),
{
    String::from_utf8_lossy(bytes).into_owned()
}

/// The text of an encoding is the text that was encoded.
pub proof fn lemma_text_of_encoding(chars: Seq<char>)
    ensures
        text_of(encode_utf8(chars)) == chars,
{
    encode_utf8_valid_utf8(chars);
    encode_utf8_decode_utf8(chars);
}

/// The encoding of one text after another is the one encoding after the
/// other.
pub proof fn lemma_encoding_of_concatenation(first: Seq<char>, second: Seq<char>)
    ensures
        encode_utf8(first + second) == encode_utf8(first) + encode_utf8(second),
    decreases first.len(),
{
    if first.len() == 0 {
        assert(first + second =~= second);
        assert(encode_utf8(first) + encode_utf8(second) =~= encode_utf8(second));
    } else {
        assert((first + second).drop_first() =~= first.drop_first() + second);
        lemma_encoding_of_concatenation(first.drop_first(), second);
        assert(encode_utf8(first + second) =~= encode_utf8(first) + encode_utf8(second));
    }
}

/// A character below 128 is encoded as the byte of its number, and no
/// other character has such a byte anywhere in its encoding.
pub proof fn lemma_encoding_of_char(c: char)
    ensures
        (c as u32) < 128 ==> encode_scalar(c as u32) == seq![(c as u32) as u8],
        (c as u32) >= 128 ==> forall|i: int|
            0 <= i < encode_scalar(c as u32).len() ==> #[trigger] encode_scalar(c as u32)[i]
                >= 128,
{
    let scalar = c as u32;
    if scalar < 128 {
        assert((scalar & 0x7F) as u8 == scalar as u8) by (bit_vector)
            requires
                scalar < 128,
        ;
        assert(encode_scalar(scalar) =~= seq![scalar as u8]);
    } else {
        assert(0xC0u8 | ((scalar >> 6) & 0x1F) as u8 >= 128) by (bit_vector);
        assert(0xE0u8 | ((scalar >> 12) & 0x0F) as u8 >= 128) by (bit_vector);
        assert(0xF0u8 | ((scalar >> 18) & 0x7) as u8 >= 128) by (bit_vector);
        assert(0x80u8 | (scalar & 0x3F) as u8 >= 128) by (bit_vector);
        assert(0x80u8 | ((scalar >> 6) & 0x3F) as u8 >= 128) by (bit_vector);
        assert(0x80u8 | ((scalar >> 12) & 0x3F) as u8 >= 128) by (bit_vector);
    }
}

/// The byte of a character below 128 occurs in the encoding of a text only
/// where that character occurs in the text.
pub proof fn lemma_encoding_without(chars: Seq<char>, c: char)
    requires
        (c as u32) < 128,
        forall|i: int| 0 <= i < chars.len() ==> #[trigger] chars[i] != c,
    ensures
        forall|j: int|
            0 <= j < encode_utf8(chars).len() ==> #[trigger] encode_utf8(chars)[j] != (
            c as u32) as u8,
    decreases chars.len(),
{
    if chars.len() > 0 {
        let head = encode_scalar(chars[0] as u32);
        let tail = encode_utf8(chars.drop_first());
        lemma_encoding_of_char(chars[0]);
        assert forall|i: int| 0 <= i < chars.drop_first().len() implies #[trigger] chars.drop_first()[i]
            != c by {
            assert(chars.drop_first()[i] == chars[i + 1]);
        }
        lemma_encoding_without(chars.drop_first(), c);
        assert(chars[0] != c);
        assert forall|j: int| 0 <= j < encode_utf8(chars).len() implies #[trigger] encode_utf8(
            chars,
        )[j] != (c as u32) as u8 by {
            if j < head.len() {
                assert(encode_utf8(chars)[j] == head[j]);
                if (chars[0] as u32) < 128 {
                    let number = chars[0] as u32;
                    assert(head[j] == number as u8);
                    if number as u8 == (c as u32) as u8 {
                        assert(number == c as u32);
                        char_u32_cast(chars[0], number);
                        char_u32_cast(c, number);
                    }
                }
            } else {
                assert(encode_utf8(chars)[j] == tail[j - head.len()]);
            }
        }
    }
}

} // verus!

//! Percent-encoded text, as the crate `percent_encoding` decodes it.
use vstd::prelude::*;

verus! {

/// The value of a hexadecimal digit.
pub open spec fn hex_value(digit: u8) -> Option<u8> {
    if 0x30 <= digit <= 0x39 {
        Some((digit - 0x30) as u8)
    } else if 0x41 <= digit <= 0x46 {
        Some((digit - 0x41 + 10) as u8)
    } else if 0x61 <= digit <= 0x66 {
        Some((digit - 0x61 + 10) as u8)
    } else {
        None
    }
}

/// The bytes that a percent-encoded text stands for: a `%` and two hexadecimal digits
/// stand for the byte with that value, anything else for itself.
pub open spec fn percent_decoded(text: Seq<u8>) -> Seq<u8>
    decreases text.len(),
{
    if text.len() == 0 {
        Seq::empty()
    } else if text.len() >= 3 && text[0] == 0x25 && hex_value(text[1]) is Some && hex_value(
        text[2],
    ) is Some {
        seq![(hex_value(text[1])->0 * 16 + hex_value(text[2])->0) as u8] + percent_decoded(
            text.skip(3),
        )
    } else {
        seq![text[0]] + percent_decoded(text.skip(1))
    }
}

/// Calls `percent_encoding::percent_decode_str`, and `decode_utf8` on the result: the text
/// whose UTF-8 form is what the encoded text stands for, where that is UTF-8 at all.
#[verifier::external_body]
pub(crate) fn percent_decode_utf8(text: &str) -> (res: Option<String>)
    ensures
        match res {
            Some(decoded) => vstd::utf8::encode_utf8(decoded@) == percent_decoded(
                vstd::utf8::encode_utf8(text@),
            ),
            None => !vstd::utf8::valid_utf8(percent_decoded(vstd::utf8::encode_utf8(text@))),
        },
{
    let decoded = percent_encoding::percent_decode_str(text).decode_utf8().ok();
    decoded.map(|decoded| decoded.into_owned())
}

/// The digits `0` to `9`, `A` to `F` and `a` to `f`, and no other byte, have a value, which is
/// below 16; the two spellings of a letter have the same.
pub proof fn law_hexadecimal_digits_have_their_value(digit: u8)
    ensures
        hex_value(digit) is Some <==> (0x30u8 <= digit <= 0x39u8 || 0x41u8 <= digit <= 0x46u8
            || 0x61u8 <= digit <= 0x66u8),
        0x30u8 <= digit <= 0x39u8 ==> hex_value(digit) == Some((digit - 0x30u8) as u8),
        0x41u8 <= digit <= 0x46u8 ==> hex_value(digit) == Some((digit - 0x41u8 + 10) as u8),
        0x41u8 <= digit <= 0x46u8 ==> hex_value((digit + 32) as u8) == hex_value(digit),
{
}

/// What stands in front of the first `%` stands for itself, whatever follows.
pub proof fn law_plain_bytes_stand_for_themselves(plain: Seq<u8>, rest: Seq<u8>)
    requires
        !plain.contains(0x25u8),
    ensures
        percent_decoded(plain + rest) == plain + percent_decoded(rest),
    decreases plain.len(),
{
    let whole = plain + rest;
    if plain.len() == 0 {
        assert(whole =~= rest);
        assert(plain + percent_decoded(rest) =~= percent_decoded(rest));
    } else {
        assert(plain.contains(plain[0]));
        assert(whole.skip(1) =~= plain.skip(1) + rest);
        assert forall|i: int| 0 <= i < plain.skip(1).len() implies plain.skip(1)[i] != 0x25u8 by {
            assert(plain.contains(plain[i + 1]));
        }
        law_plain_bytes_stand_for_themselves(plain.skip(1), rest);
        assert(seq![whole[0]] + (plain.skip(1) + percent_decoded(rest)) =~= plain
            + percent_decoded(rest));
    }
}

/// A `%` and two hexadecimal digits stand for the byte whose value they spell, whatever
/// follows.
pub proof fn law_spelled_byte_is_decoded(high: u8, low: u8, rest: Seq<u8>)
    requires
        hex_value(high) is Some,
        hex_value(low) is Some,
    ensures
        percent_decoded(seq![0x25u8, high, low] + rest) == seq![
            (16 * hex_value(high)->0 + hex_value(low)->0) as u8,
        ] + percent_decoded(rest),
{
    let whole = seq![0x25u8, high, low] + rest;
    assert(whole.skip(3) =~= rest);
}

/// A `%` that no two hexadecimal digits follow stands for itself.
pub proof fn law_lone_percent_stands_for_itself(rest: Seq<u8>)
    requires
        rest.len() < 2 || hex_value(rest[0]) is None || hex_value(rest[1]) is None,
    ensures
        percent_decoded(seq![0x25u8] + rest) == seq![0x25u8] + percent_decoded(rest),
{
    let whole = seq![0x25u8] + rest;
    assert(whole.skip(1) =~= rest);
    if rest.len() >= 2 {
        assert(whole[1] == rest[0] && whole[2] == rest[1]);
    }
}

} // verus!

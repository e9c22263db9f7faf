//! Addresses written with `%XX`: decoding them as the file service does, and
//! encoding a name so that it stays one name in a link.

use percent_encoding::{percent_decode_str, percent_encode_byte};
use vstd::prelude::*;

verus! {

pub open spec fn is_hex_digit(b: u8) -> bool {
    (48 <= b <= 57) || (65 <= b <= 70) || (97 <= b <= 102)
}

pub open spec fn hex_value(b: u8) -> int {
    if b <= 57 {
        b - 48
    } else if b <= 70 {
        b - 55
    } else {
        b - 87
    }
}

/// Percent-decoding of bytes: each `%` followed by two hexadecimal digits
/// becomes the byte they name, and every other byte stays as it is.
pub open spec fn percent_decoded(bytes: Seq<u8>) -> Seq<u8>
    decreases bytes.len(),
{
    if bytes.len() == 0 {
        Seq::empty()
    } else if bytes[0] == 37 && bytes.len() >= 3 && is_hex_digit(bytes[1]) && is_hex_digit(
        bytes[2],
    ) {
        seq![(hex_value(bytes[1]) * 16 + hex_value(bytes[2])) as u8] + percent_decoded(
            bytes.skip(3),
        )
    } else {
        seq![bytes[0]] + percent_decoded(bytes.skip(1))
    }
}

/// The bytes an address names once decoded.
pub open spec fn decoded_bytes(text: Seq<char>) -> Seq<u8> {
    percent_decoded(vstd::utf8::encode_utf8(text))
}

/// What `percent_decode_str(text).decode_utf8_lossy()` gives: the decoded
/// bytes read as UTF-8, with U+FFFD for each stretch that is not.
pub uninterp spec fn decoded_lossily(text: Seq<char>) -> Seq<char>;

/// Decodes each `%XX` once, as the file service does, reading what is not
/// UTF-8 as U+FFFD.
///
/// Calls `percent_decode_str(text).decode_utf8_lossy()` from percent-encoding.
/// The contract claims that where the decoded bytes are UTF-8 the text is
/// exactly what they encode; what the replacement characters make of other
/// bytes is left to the name `decoded_lossily`.
#[verifier::external_body]
pub(crate) fn decode(text: &str) -> (decoded: String)
    ensures
        decoded@ == decoded_lossily(text@),
        vstd::utf8::valid_utf8(decoded_bytes(text@)) ==> decoded@ == vstd::utf8::decode_utf8(
            decoded_bytes(text@),
        ),
{
    percent_decode_str(text).decode_utf8_lossy().into_owned()
}

/// Decodes each `%XX` once, and reads the bytes as UTF-8; `None` when they are
/// not.
///
/// Calls `percent_decode_str(text).decode_utf8()` from percent-encoding, and
/// claims what its documentation says: an error exactly when the decoded
/// bytes are not well-formed UTF-8, and otherwise the text they encode.
#[verifier::external_body]
pub(crate) fn decode_strictly(text: &str) -> (decoded: Option<String>)
    ensures
        decoded is Some <==> vstd::utf8::valid_utf8(decoded_bytes(text@)),
        decoded matches Some(d) ==> d@ == vstd::utf8::decode_utf8(decoded_bytes(text@)),
{
    percent_decode_str(text).decode_utf8().ok().map(|decoded| decoded.into_owned())
}

/// The character for a hexadecimal digit, in upper case.
pub open spec fn hex_upper(d: int) -> char {
    if d < 10 {
        (d + 48) as char
    } else {
        (d + 55) as char
    }
}

/// `%XX` for a byte.
pub open spec fn percent_escape(b: u8) -> Seq<char> {
    seq!['%', hex_upper((b / 16) as int), hex_upper((b % 16) as int)]
}

/// `percent_encode_byte` from percent-encoding: `%` and the byte in two
/// upper-case hexadecimal digits, as its table holds for every byte.
#[verifier::external_body]
fn escaped_byte(b: u8) -> (escaped: &'static str)
    ensures
        escaped@ == percent_escape(b),
{
    percent_encode_byte(b)
}

/// Letters, digits and `-._~`: the bytes a link keeps as they are.
pub open spec fn kept_in_a_link(b: u8) -> bool {
    (48 <= b <= 57) || (65 <= b <= 90) || (97 <= b <= 122) || b == 45 || b == 46 || b == 95
        || b == 126
}

/// Bytes as a link writes them: the ones it keeps as themselves, and every
/// other byte as `%XX`.
pub open spec fn link_encoded(bytes: Seq<u8>) -> Seq<char>
    decreases bytes.len(),
{
    if bytes.len() == 0 {
        Seq::empty()
    } else {
        link_encoded(bytes.drop_last()) + if kept_in_a_link(bytes.last()) {
            seq![bytes.last() as char]
        } else {
            percent_escape(bytes.last())
        }
    }
}

/// What a link holds: letters, digits, `-._~`, and `%` with its digits.
pub open spec fn link_safe(c: char) -> bool {
    (48 <= c as int <= 57) || (65 <= c as int <= 90) || (97 <= c as int <= 122) || c == '-' || c == '.'
        || c == '_' || c == '~' || c == '%'
}

/// A name in a link stays one name: whatever bytes it is made of, the link
/// holds nothing that could end it, start a query or a fragment, or climb a
/// level, such as `#`, `?`, `/` or a space.
pub proof fn law_a_name_in_a_link_stays_one_name(bytes: Seq<u8>)
    ensures
        forall|i: int| 0 <= i < link_encoded(bytes).len() ==> link_safe(#[trigger] link_encoded(bytes)[i]),
    decreases bytes.len(),
{
    if bytes.len() > 0 {
        law_a_name_in_a_link_stays_one_name(bytes.drop_last());
        let before = link_encoded(bytes.drop_last());
        let b = bytes.last();
        let added = if kept_in_a_link(b) {
            seq![b as char]
        } else {
            percent_escape(b)
        };
        assert(link_encoded(bytes) == before + added);
        assert forall|i: int| 0 <= i < added.len() implies link_safe(#[trigger] added[i]) by {
            if kept_in_a_link(b) {
                assert((b as char) as int == b as int);
            } else {
                assert(b / 16 < 16 && b % 16 < 16);
            }
        }
        assert forall|i: int| 0 <= i < link_encoded(bytes).len() implies link_safe(#[trigger] link_encoded(bytes)[i]) by {
            if i < before.len() {
                assert(link_encoded(bytes)[i] == before[i]);
            } else {
                assert(link_encoded(bytes)[i] == added[i - before.len()]);
            }
        }
    }
}

/// What a link writes for one byte.
pub open spec fn link_unit(b: u8) -> Seq<char> {
    if kept_in_a_link(b) {
        seq![b as char]
    } else {
        percent_escape(b)
    }
}

/// Characters that are each one byte, as those bytes.
pub open spec fn ascii_bytes(chars: Seq<char>) -> Seq<u8> {
    Seq::new(chars.len(), |i: int| chars[i] as u8)
}

proof fn lemma_link_from_the_front(bytes: Seq<u8>)
    requires
        bytes.len() > 0,
    ensures
        link_encoded(bytes) == link_unit(bytes[0]) + link_encoded(bytes.skip(1)),
    decreases bytes.len(),
{
    assert(link_encoded(bytes) == link_encoded(bytes.drop_last()) + link_unit(bytes.last()));
    if bytes.len() == 1 {
        assert(bytes.drop_last().len() == 0);
        assert(bytes.skip(1).len() == 0);
        assert(link_encoded(bytes.drop_last()) == Seq::<char>::empty());
        assert(link_encoded(bytes.skip(1)) == Seq::<char>::empty());
        assert(bytes.last() == bytes[0]);
        assert(link_encoded(bytes) =~= link_unit(bytes[0]) + link_encoded(bytes.skip(1)));
    } else {
        let front = bytes.drop_last();
        let back = bytes.skip(1);
        lemma_link_from_the_front(front);
        assert(front[0] == bytes[0]);
        assert(back.drop_last() == front.skip(1));
        assert(back.last() == bytes.last());
        assert(link_encoded(back) == link_encoded(back.drop_last()) + link_unit(back.last()));
        assert(link_encoded(bytes) =~= link_unit(bytes[0]) + link_encoded(back));
    }
}

proof fn lemma_hex_round_trip(d: int)
    requires
        0 <= d < 16,
    ensures
        is_hex_digit(hex_upper(d) as u8),
        hex_value(hex_upper(d) as u8) == d,
{
}

#[verifier::rlimit(50)]
proof fn lemma_links_decode(bytes: Seq<u8>)
    ensures
        percent_decoded(ascii_bytes(link_encoded(bytes))) == bytes,
    decreases bytes.len(),
{
    if bytes.len() == 0 {
        assert(ascii_bytes(link_encoded(bytes)) == Seq::<u8>::empty());
    } else {
        lemma_link_from_the_front(bytes);
        lemma_links_decode(bytes.skip(1));
        let b = bytes[0];
        let unit = link_unit(b);
        let rest = link_encoded(bytes.skip(1));
        let all = ascii_bytes(unit + rest);
        assert(ascii_bytes(link_encoded(bytes)) == all);
        assert(all == ascii_bytes(unit) + ascii_bytes(rest));
        if kept_in_a_link(b) {
            assert(ascii_bytes(unit) == seq![b]);
            assert(all[0] == b && b != 37);
            assert(all.skip(1) == ascii_bytes(rest));
        } else {
            lemma_hex_round_trip((b / 16) as int);
            lemma_hex_round_trip((b % 16) as int);
            let high = hex_upper((b / 16) as int) as u8;
            let low = hex_upper((b % 16) as int) as u8;
            assert(ascii_bytes(unit) == seq![37u8, high, low]);
            assert(all[0] == 37 && all[1] == high && all[2] == low);
            assert(all.skip(3) == ascii_bytes(rest));
            assert((hex_value(high) * 16 + hex_value(low)) as u8 == b);
        }
        assert(bytes == seq![b] + bytes.skip(1));
    }
}

/// A name in a link leads back to the name: the address the link makes,
/// decoded as the file service decodes it, is the name itself.
pub proof fn law_a_link_leads_to_its_name(name: Seq<char>)
    ensures
        decoded_bytes(link_encoded(vstd::utf8::encode_utf8(name))) == vstd::utf8::encode_utf8(name),
        vstd::utf8::valid_utf8(decoded_bytes(link_encoded(vstd::utf8::encode_utf8(name)))),
        vstd::utf8::decode_utf8(decoded_bytes(link_encoded(vstd::utf8::encode_utf8(name)))) == name,
{
    let bytes = vstd::utf8::encode_utf8(name);
    let link = link_encoded(bytes);
    law_a_name_in_a_link_stays_one_name(bytes);
    assert(vstd::utf8::is_ascii_chars(link)) by {
        assert forall|i: int| 0 <= i < link.len() implies '\0' <= #[trigger] link[i] <= '\u{7f}' by {
            assert(link_safe(link[i]));
        }
    }
    vstd::utf8::is_ascii_chars_encode_utf8(link);
    assert(vstd::utf8::encode_utf8(link) == ascii_bytes(link));
    lemma_links_decode(bytes);
    vstd::utf8::encode_utf8_valid_utf8(name);
    vstd::utf8::encode_utf8_decode_utf8(name);
}

/// A name as it goes in a link: the UTF-8 of it, with all but letters, digits
/// and `-._~` written as `%XX`, so a `#`, `?` or `:` in a file name can't break
/// the link.
pub fn in_a_link(name: &str) -> (link: String)
    ensures
        link@ == link_encoded(vstd::utf8::encode_utf8(name@)),
{
    let bytes = name.as_bytes();
    let mut link = String::new();
    let mut i: usize = 0;
    while i < bytes.len()
        invariant
            i <= bytes@.len(),
            bytes@ == vstd::utf8::encode_utf8(name@),
            link@ == link_encoded(bytes@.take(i as int)),
        decreases bytes@.len() - i,
    {
        let b = bytes[i];
        assert(bytes@.take(i + 1).drop_last() == bytes@.take(i as int));
        if (48 <= b && b <= 57) || (65 <= b && b <= 90) || (97 <= b && b <= 122) || b == 45 || b
            == 46 || b == 95 || b == 126 {
            crate::text::push_char(&mut link, b as char);
        } else {
            link.append(escaped_byte(b));
        }
        i = i + 1;
    }
    assert(bytes@.take(bytes@.len() as int) == bytes@);
    link
}

} // verus!

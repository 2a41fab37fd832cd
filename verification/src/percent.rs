//! Percent-encoding of text, as the `urlencoding` crate does it, and what
//! follows from it for a text that went through it.

use urlencoding::FromUrlEncodingError;
use vstd::prelude::*;
use vstd::utf8::decode_utf8;
use vstd::utf8::encode_utf8;
use vstd::utf8::encode_utf8_decode_utf8;
use vstd::utf8::encode_utf8_valid_utf8;
use vstd::utf8::is_ascii_chars;
use vstd::utf8::is_ascii_chars_encode_utf8;
use vstd::utf8::valid_utf8;

verus! {

/// The byte `%`.
pub open spec fn percent_sign() -> u8 {
    0x25
}

/// Whether `b` is an ASCII letter or digit, or one of `-`, `.`, `_`, `~`:
/// the bytes that are written as they are.
pub open spec fn is_unreserved(b: u8) -> bool {
    ||| 0x30 <= b <= 0x39
    ||| 0x41 <= b <= 0x5A
    ||| 0x61 <= b <= 0x7A
    ||| b == 0x2D
    ||| b == 0x2E
    ||| b == 0x5F
    ||| b == 0x7E
}

/// The upper-case hexadecimal digit for `n`, which is below 16.
pub open spec fn hex_digit(n: int) -> u8
    recommends
        0 <= n < 16,
{
    if n < 10 {
        (0x30 + n) as u8
    } else {
        (0x41 + n - 10) as u8
    }
}

/// The number that the hexadecimal digit `d` stands for, in either case.
pub open spec fn hex_value(d: u8) -> Option<int> {
    if 0x30 <= d <= 0x39 {
        Some(d - 0x30)
    } else if 0x41 <= d <= 0x46 {
        Some(d - 0x41 + 10)
    } else if 0x61 <= d <= 0x66 {
        Some(d - 0x61 + 10)
    } else {
        None
    }
}

/// Each byte that is not unreserved becomes `%` and its two hexadecimal
/// digits.
pub open spec fn escape_bytes(bytes: Seq<u8>) -> Seq<u8>
    decreases bytes.len(),
{
    if bytes.len() == 0 {
        seq![]
    } else if is_unreserved(bytes.first()) {
        seq![bytes.first()] + escape_bytes(bytes.drop_first())
    } else {
        seq![
            percent_sign(),
            hex_digit(bytes.first() as int / 16),
            hex_digit(bytes.first() as int % 16),
        ] + escape_bytes(bytes.drop_first())
    }
}

/// Each `%` that two hexadecimal digits follow becomes, with them, the byte
/// they spell; every other byte stays.
pub open spec fn unescape_bytes(bytes: Seq<u8>) -> Seq<u8>
    decreases bytes.len(),
{
    if bytes.len() == 0 {
        seq![]
    } else if bytes.first() == percent_sign() && bytes.len() >= 3 && hex_value(bytes[1]) is Some
        && hex_value(bytes[2]) is Some {
        seq![(16 * hex_value(bytes[1])->0 + hex_value(bytes[2])->0) as u8] + unescape_bytes(
            bytes.skip(3),
        )
    } else {
        seq![bytes.first()] + unescape_bytes(bytes.drop_first())
    }
}

/// The text whose characters are the given bytes, one for one.
pub open spec fn ascii_text(bytes: Seq<u8>) -> Seq<char> {
    Seq::new(bytes.len(), |i: int| bytes[i] as char)
}

/// The percent-encoding of `s`: its UTF-8 bytes, escaped.
pub open spec fn encoded(s: Seq<char>) -> Seq<char> {
    ascii_text(escape_bytes(encode_utf8(s)))
}

/// What `s` percent-decodes to: its UTF-8 bytes, unescaped, read as UTF-8;
/// nothing where they are no UTF-8.
pub open spec fn decoded(s: Seq<char>) -> Option<Seq<char>> {
    let bytes = unescape_bytes(encode_utf8(s));
    if valid_utf8(bytes) {
        Some(decode_utf8(bytes))
    } else {
        None
    }
}

/// Whether `c` can stand in a percent-encoded text.
pub open spec fn is_encoded_char(c: char) -> bool {
    c as u32 <= 0x7F && (is_unreserved(c as u8) || c as u8 == percent_sign())
}

/// The error of `urlencoding::decode`. Nothing is read from it.
#[verifier::external_type_specification]
#[verifier::external_body]
pub struct ExFromUrlEncodingError(FromUrlEncodingError);

/// `urlencoding::encode` writes each byte of the text's UTF-8 form as it is
/// where it is an ASCII letter or digit or one of `-`, `.`, `_`, `~`, and
/// else as `%` with its two upper-case hexadecimal digits.
pub assume_specification[ urlencoding::encode ](data: &str) -> (text: String)
    ensures
        text@ == encoded(data@),
;

/// `urlencoding::decode` replaces each `%` that two hexadecimal digits follow,
/// together with them, by the byte they spell, leaves every other byte, and
/// succeeds exactly when the bytes it got are UTF-8, with the text they spell.
pub assume_specification[ urlencoding::decode ](urlencoded: &str) -> (text: Result<
    String,
    FromUrlEncodingError,
>)
    ensures
        match text {
            Ok(plain) => decoded(urlencoded@) == Some(plain@),
            Err(_) => decoded(urlencoded@) is None,
        },
;

/// Escaped bytes are unreserved bytes and `%` only.
pub proof fn lemma_escape_bytes_range(bytes: Seq<u8>)
    ensures
        forall|i: int|
            0 <= i < escape_bytes(bytes).len() ==> {
                let b = #[trigger] escape_bytes(bytes)[i];
                is_unreserved(b) || b == percent_sign()
            },
    decreases bytes.len(),
{
    if bytes.len() > 0 {
        let b = bytes.first();
        let rest = escape_bytes(bytes.drop_first());
        let out = escape_bytes(bytes);
        lemma_escape_bytes_range(bytes.drop_first());
        assert(is_unreserved(hex_digit(b as int / 16)));
        assert(is_unreserved(hex_digit(b as int % 16)));
        let head = out.len() - rest.len();
        assert forall|i: int| 0 <= i < out.len() implies {
            let x = #[trigger] out[i];
            is_unreserved(x) || x == percent_sign()
        } by {
            if i >= head {
                assert(out[i] == rest[i - head]);
            }
        }
    }
}

/// Unescaping undoes escaping.
pub proof fn lemma_unescape_escape(bytes: Seq<u8>)
    ensures
        unescape_bytes(escape_bytes(bytes)) == bytes,
    decreases bytes.len(),
{
    if bytes.len() > 0 {
        let b = bytes.first();
        let rest = bytes.drop_first();
        let out = escape_bytes(bytes);
        lemma_unescape_escape(rest);
        if is_unreserved(b) {
            assert(out.drop_first() =~= escape_bytes(rest));
            assert(unescape_bytes(out) =~= seq![b] + rest);
        } else {
            assert(hex_value(hex_digit(b as int / 16)) == Some(b as int / 16));
            assert(hex_value(hex_digit(b as int % 16)) == Some(b as int % 16));
            assert(out.skip(3) =~= escape_bytes(rest));
            assert(unescape_bytes(out) =~= seq![b] + rest);
        }
        assert(seq![b] + rest =~= bytes);
    }
}

/// An encoded text is ASCII, made of unreserved characters and `%`, and its
/// UTF-8 bytes are the escaped bytes it was made from.
pub proof fn lemma_encoded_chars(s: Seq<char>)
    ensures
        forall|i: int| 0 <= i < encoded(s).len() ==> is_encoded_char(#[trigger] encoded(s)[i]),
        encode_utf8(encoded(s)) == escape_bytes(encode_utf8(s)),
{
    let bytes = escape_bytes(encode_utf8(s));
    let text = encoded(s);
    lemma_escape_bytes_range(encode_utf8(s));
    assert forall|i: int| 0 <= i < text.len() implies is_encoded_char(#[trigger] text[i]) by {
        let b = bytes[i];
        assert(is_unreserved(b) || b == percent_sign());
        assert(text[i] == b as char);
    }
    assert(is_ascii_chars(text)) by {
        assert forall|i: int| 0 <= i < text.len() implies '\0' <= #[trigger] text[i] <= '\u{7f}' by {
            assert(is_encoded_char(text[i]));
        }
    }
    is_ascii_chars_encode_utf8(text);
    assert(encode_utf8(text) =~= bytes) by {
        assert forall|i: int| 0 <= i < text.len() implies encode_utf8(text)[i] == bytes[i] by {
            assert(text[i] as u8 == encode_utf8(text)[i]);
            assert(text[i] == bytes[i] as char);
        }
    }
}

/// Decoding an encoded text succeeds and gives the text back.
pub proof fn lemma_decoded_encoded(s: Seq<char>)
    ensures
        decoded(encoded(s)) == Some(s),
{
    lemma_encoded_chars(s);
    lemma_unescape_escape(encode_utf8(s));
    encode_utf8_valid_utf8(s);
    encode_utf8_decode_utf8(s);
}

} // verus!

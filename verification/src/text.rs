//! Comparing and decoding text: the calls into the standard library and into
//! outside crates that the reading of a parse tree needs, with what is
//! trusted of each.

use vstd::prelude::*;
use vstd::string::StringSliceAdditionalSpecFns;

verus! {

/// Whether a string holds the text of `lit`.
pub fn same_text(a: &String, lit: &str) -> (r: bool)
    ensures
        r == (a@ == lit@),
{
    let t = lit.to_owned();
    *a == t
}

/// What is left of `text` behind `prefix`, where it starts with it.
pub open spec fn without_prefix(text: Seq<char>, prefix: Seq<char>) -> Option<Seq<char>> {
    if prefix.is_prefix_of(text) {
        Some(text.skip(prefix.len() as int))
    } else {
        None
    }
}

/// What is left of `text` before `suffix`, where it ends with it.
pub open spec fn without_suffix(text: Seq<char>, suffix: Seq<char>) -> Option<Seq<char>> {
    if suffix.is_suffix_of(text) {
        Some(text.take(text.len() - suffix.len()))
    } else {
        None
    }
}

/// `str::strip_prefix` of the standard library, with a string as the
/// pattern. Trusted: a text that starts with the prefix gives the rest
/// behind it, any other text gives nothing.
#[verifier::external_body]
pub(crate) fn strip_prefix<'a>(text: &'a str, prefix: &str) -> (r: Option<&'a str>)
    ensures
        match r {
            Some(rest) => without_prefix(text@, prefix@) == Some(rest@),
            None => without_prefix(text@, prefix@) is None,
        },
{
    text.strip_prefix(prefix)
}

/// `str::strip_suffix` of the standard library, with a string as the
/// pattern. Trusted: a text that ends with the suffix gives the part
/// before it, any other text gives nothing.
#[verifier::external_body]
pub(crate) fn strip_suffix<'a>(text: &'a str, suffix: &str) -> (r: Option<&'a str>)
    ensures
        match r {
            Some(rest) => without_suffix(text@, suffix@) == Some(rest@),
            None => without_suffix(text@, suffix@) is None,
        },
{
    text.strip_suffix(suffix)
}

/// The value of a hexadecimal digit; upper and lower case are alike.
pub open spec fn hex_digit(c: u8) -> Option<u8> {
    if 0x30 <= c <= 0x39 {
        Some((c - 0x30) as u8)
    } else if 0x61 <= c <= 0x66 {
        Some((c - 0x61 + 10) as u8)
    } else if 0x41 <= c <= 0x46 {
        Some((c - 0x41 + 10) as u8)
    } else {
        None
    }
}

/// The bytes that a text of hexadecimal digits stands for, two digits to
/// a byte, the high digit first. A text of odd length, or with a byte that
/// is no hexadecimal digit, stands for none.
pub open spec fn hex_decoded(text: Seq<u8>) -> Option<Seq<u8>> {
    if text.len() % 2 == 0 && forall|i: int| 0 <= i < text.len() ==> hex_digit(text[i]) is Some {
        Some(
            Seq::new(
                text.len() / 2,
                |i: int| (16 * hex_digit(text[2 * i])->0 + hex_digit(text[2 * i + 1])->0) as u8,
            ),
        )
    } else {
        None
    }
}

/// The error of `hex::decode`, of which nothing is known.
#[verifier::external_type_specification]
#[verifier::external_body]
pub struct ExFromHexError(hex::FromHexError);

/// `hex::decode` on the bytes of a string. Trusted: it gives the bytes
/// that the digits stand for, and an error exactly where the length is
/// odd or a byte is no hexadecimal digit.
#[verifier::external_body]
pub(crate) fn hex_decode(text: &str) -> (r: Result<Vec<u8>, hex::FromHexError>)
    ensures
        match r {
            Ok(bytes) => hex_decoded(text.spec_bytes()) == Some(bytes@),
            Err(_) => hex_decoded(text.spec_bytes()) is None,
        },
{
    hex::decode(text)
}

/// The big-endian bytes of the number that `num_bigint` reads from a
/// decimal text, where it reads one.
pub uninterp spec fn decimal_bytes(text: Seq<char>) -> Option<Seq<u8>>;

/// The error of `BigUint::from_str`, of which nothing is known.
#[verifier::external_type_specification]
#[verifier::external_body]
pub struct ExParseBigIntError(num_bigint::ParseBigIntError);

/// `BigUint::from_str` of `num_bigint`, and `BigUint::to_bytes_be` on the
/// number read. Trusted: what comes back depends on the text alone; no
/// more is claimed of it.
#[verifier::external_body]
pub(crate) fn decimal_to_bytes(text: &str) -> (r: Result<Vec<u8>, num_bigint::ParseBigIntError>)
    ensures
        match r {
            Ok(bytes) => decimal_bytes(text@) == Some(bytes@),
            Err(_) => decimal_bytes(text@) is None,
        },
{
    match text.parse::<num_bigint::BigUint>() {
        Ok(number) => Ok(number.to_bytes_be()),
        Err(e) => Err(e),
    }
}

/// The text that the `Debug` formatting of the standard library gives a
/// string: the string between quotes, with escapes.
pub uninterp spec fn debug_text(text: Seq<char>) -> Seq<char>;

/// `format!` of the standard library with `{:?}` on a string. Trusted:
/// what comes back depends on the text alone; no more is claimed of it.
#[verifier::external_body]
pub(crate) fn debug_string(text: &String) -> (r: String)
    ensures
        r@ == debug_text(text@),
{
    format!("{:?}", text)
}

} // verus!

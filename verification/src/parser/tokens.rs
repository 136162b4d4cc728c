//! The smallest pieces of the grammar, read by `nom`.
//!
//! Each function here hands its input to one parser of `nom` and gives back
//! what that parser returned. The contracts state what `nom` documents of
//! these parsers on byte slices; they are not proved.

use crate::number::decimal::is_digit;
use crate::parser::grammar::is_name_byte;
use nom::error::Error;
use vstd::prelude::*;

verus! {

/// Whether `byte` may stand in an identifier.
pub fn is_identifier_byte(byte: u8) -> (allowed: bool)
    ensures
        allowed == is_name_byte(byte),
{
    (0x61 <= byte && byte <= 0x7a) || byte == 0x5f
}

/// Trusted: `nom::bytes::complete::tag`. It succeeds where `code` starts with
/// `literal`, and then returns what follows the literal.
#[verifier::external_body]
pub(crate) fn tag<'a>(code: &'a [u8], literal: &[u8]) -> (found: Option<&'a [u8]>)
    ensures
        match found {
            Some(rest) => literal@.is_prefix_of(code@) && rest@ == code@.skip(literal@.len() as int),
            None => !literal@.is_prefix_of(code@),
        },
{
    match nom::bytes::complete::tag::<&[u8], &[u8], Error<&[u8]>>(literal)(code) {
        Ok((rest, _)) => Some(rest),
        Err(_) => None,
    }
}

/// Trusted: `nom::character::complete::char`, for an ASCII character given
/// as its byte. It succeeds where `code` starts with that byte, and then
/// returns what follows it.
#[verifier::external_body]
pub(crate) fn byte<'a>(code: &'a [u8], expected: u8) -> (found: Option<&'a [u8]>)
    requires
        expected < 0x80,
    ensures
        match found {
            Some(rest) => code@.len() > 0 && code@[0] == expected && rest@ == code@.skip(1),
            None => code@.len() == 0 || code@[0] != expected,
        },
{
    match nom::character::complete::char::<&[u8], Error<&[u8]>>(expected as char)(code) {
        Ok((rest, _)) => Some(rest),
        Err(_) => None,
    }
}

/// Trusted: `nom::character::complete::digit1`. It succeeds where `code`
/// starts with a decimal digit, and then splits `code` after its last leading
/// digit: what follows the digits comes first in the pair, the digits second.
#[verifier::external_body]
pub(crate) fn digits<'a>(code: &'a [u8]) -> (found: Option<(&'a [u8], &'a [u8])>)
    ensures
        match found {
            Some((rest, taken)) => {
                &&& code@ == taken@ + rest@
                &&& taken@.len() > 0
                &&& forall|i: int| 0 <= i < taken@.len() ==> is_digit(#[trigger] taken@[i])
                &&& rest@.len() > 0 ==> !is_digit(rest@[0])
            },
            None => code@.len() > 0 ==> !is_digit(code@[0]),
        },
{
    match nom::character::complete::digit1::<&[u8], Error<&[u8]>>(code) {
        Ok(pair) => Some(pair),
        Err(_) => None,
    }
}

/// Trusted: `nom::bytes::complete::take_while1`, with the identifier bytes as
/// its predicate. It succeeds where `code` starts with such a byte, and then
/// splits `code` after its last leading such byte: what follows comes first
/// in the pair, the bytes taken second.
#[verifier::external_body]
pub(crate) fn identifier_bytes<'a>(code: &'a [u8]) -> (found: Option<(&'a [u8], &'a [u8])>)
    ensures
        match found {
            Some((rest, taken)) => {
                &&& code@ == taken@ + rest@
                &&& taken@.len() > 0
                &&& forall|i: int| 0 <= i < taken@.len() ==> is_name_byte(#[trigger] taken@[i])
                &&& rest@.len() > 0 ==> !is_name_byte(rest@[0])
            },
            None => code@.len() > 0 ==> !is_name_byte(code@[0]),
        },
{
    match nom::bytes::complete::take_while1::<_, &[u8], Error<&[u8]>>(
        |byte: u8| is_identifier_byte(byte),
    )(code) {
        Ok(pair) => Some(pair),
        Err(_) => None,
    }
}

/// Trusted: `nom::bytes::complete::take_until`. It succeeds where `pattern`
/// occurs in `code`, and then splits `code` before the first occurrence:
/// what starts with the pattern comes first in the pair, the bytes before it
/// second.
#[verifier::external_body]
pub(crate) fn until<'a>(code: &'a [u8], pattern: &[u8]) -> (found: Option<(&'a [u8], &'a [u8])>)
    ensures
        match found {
            Some((rest, taken)) => {
                &&& code@ == taken@ + rest@
                &&& pattern@.is_prefix_of(rest@)
                &&& forall|i: int|
                    0 <= i < taken@.len() ==> !pattern@.is_prefix_of(#[trigger] code@.skip(i))
            },
            None => forall|i: int|
                0 <= i <= code@.len() ==> !pattern@.is_prefix_of(#[trigger] code@.skip(i)),
        },
{
    match nom::bytes::complete::take_until::<&[u8], &[u8], Error<&[u8]>>(pattern)(code) {
        Ok(pair) => Some(pair),
        Err(_) => None,
    }
}

} // verus!

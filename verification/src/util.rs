//! Common types used in multiple modules.

use crate::bytes::{u16_at, u32_at};
use vstd::prelude::*;
use vstd::std_specs::convert::FromSpecImpl;

verus! {

/// nom's `Err`, the error side of every nom parser. Its contents are not
/// visible to the verifier; parsers here turn it into a [`ParseError`].
#[verifier::external_type_specification]
#[verifier::external_body]
#[verifier::reject_recursive_types(E)]
pub struct ExNomErr<E>(nom::Err<E>);

/// nom's default error value, an input position with an error code.
#[verifier::external_type_specification]
#[verifier::external_body]
#[verifier::reject_recursive_types(I)]
pub struct ExNomError<I>(nom::error::Error<I>);

/// Why a parser gave up.
#[derive(Debug, Clone, Copy, PartialEq, Eq, Structural)]
pub enum ErrorKind {
    /// The input ended before the value did.
    Eof,
    /// A length field does not fit the machine's address space.
    TooLarge,
    /// Input was left over where the value had to fill it.
    Complete,
    /// A text field does not hold UTF-8.
    Utf8,
}

/// A parse failure: what went wrong, and how many bytes of the input were
/// still unread at the place where it went wrong.
#[derive(Debug, Clone, Copy, PartialEq, Eq, Structural)]
pub struct ParseError {
    /// Number of input bytes from the failing position to the end.
    pub remaining: usize,
    /// The reason.
    pub kind: ErrorKind,
}

/// Convenience method that returns a parse error with the given `ErrorKind`
/// at the position where `input` starts.
#[must_use]
pub fn nom_input_error_with_kind(input: &[u8], kind: ErrorKind) -> (e: ParseError)
    ensures
        e == (ParseError { remaining: input@.len() as usize, kind }),
{
    ParseError { remaining: input.len(), kind }
}

/// Calls `nom::number::complete::u8`. The claim: it fails exactly on empty
/// input, and otherwise hands back the first byte and the input after it.
#[verifier::external_body]
pub(crate) fn take_u8(input: &[u8]) -> (r: Result<(&[u8], u8), nom::Err<nom::error::Error<&[u8]>>>)
    ensures
        r is Err <==> input@.len() < 1,
        r matches Ok((rest, v)) ==> rest@ == input@.subrange(1, input@.len() as int) && v
            == input@[0],
{
    nom::number::complete::u8(input)
}

/// Calls `nom::number::complete::le_u16`. The claim: it fails exactly when
/// fewer than two bytes are there, and otherwise hands back the little-endian
/// integer in the first two bytes and the input after them.
#[verifier::external_body]
pub(crate) fn le_u16(input: &[u8]) -> (r: Result<
    (&[u8], u16),
    nom::Err<nom::error::Error<&[u8]>>,
>)
    ensures
        r is Err <==> input@.len() < 2,
        r matches Ok((rest, v)) ==> rest@ == input@.subrange(2, input@.len() as int) && v
            == u16_at(input@, 0),
{
    nom::number::complete::le_u16(input)
}

/// Calls `nom::number::complete::le_u32`. The claim: it fails exactly when
/// fewer than four bytes are there, and otherwise hands back the little-endian
/// integer in the first four bytes and the input after them.
#[verifier::external_body]
pub(crate) fn le_u32(input: &[u8]) -> (r: Result<
    (&[u8], u32),
    nom::Err<nom::error::Error<&[u8]>>,
>)
    ensures
        r is Err <==> input@.len() < 4,
        r matches Ok((rest, v)) ==> rest@ == input@.subrange(4, input@.len() as int) && v
            == u32_at(input@, 0),
{
    nom::number::complete::le_u32(input)
}

/// Calls the parser that `nom::bytes::complete::take` builds for `count`. The
/// claim: it fails exactly when the input is shorter than `count`, and
/// otherwise splits the input after `count` bytes, handing back the rest
/// first and the bytes taken second.
#[verifier::external_body]
pub(crate) fn take(count: usize, input: &[u8]) -> (r: Result<
    (&[u8], &[u8]),
    nom::Err<nom::error::Error<&[u8]>>,
>)
    ensures
        r is Err <==> input@.len() < count,
        r matches Ok((rest, taken)) ==> rest@ == input@.subrange(
            count as int,
            input@.len() as int,
        ) && taken@ == input@.subrange(0, count as int),
{
    nom::bytes::complete::take(count)(input)
}

/// Indexed color identifiers used for memory cues and tracks.
#[derive(Debug, Clone, Copy, PartialEq, Eq, Structural)]
pub enum ColorIndex {
    /// No color.
    NoColor,
    /// Pink color.
    Pink,
    /// Red color.
    Red,
    /// Orange color.
    Orange,
    /// Yellow color.
    Yellow,
    /// Green color.
    Green,
    /// Aqua color.
    Aqua,
    /// Blue color.
    Blue,
    /// Purple color.
    Purple,
    /// Unknown color.
    Unknown(u16),
}

impl ColorIndex {
    /// The color that a stored identifier stands for: `0` to `8` are the
    /// named colors in declaration order, every other value is kept as
    /// [`ColorIndex::Unknown`].
    pub open spec fn of_id(color_id: u16) -> ColorIndex {
        if color_id == 0 {
            ColorIndex::NoColor
        } else if color_id == 1 {
            ColorIndex::Pink
        } else if color_id == 2 {
            ColorIndex::Red
        } else if color_id == 3 {
            ColorIndex::Orange
        } else if color_id == 4 {
            ColorIndex::Yellow
        } else if color_id == 5 {
            ColorIndex::Green
        } else if color_id == 6 {
            ColorIndex::Aqua
        } else if color_id == 7 {
            ColorIndex::Blue
        } else if color_id == 8 {
            ColorIndex::Purple
        } else {
            ColorIndex::Unknown(color_id)
        }
    }
}

impl ColorIndex {
    /// Parse an 8-bit color index from an input slice.
    pub fn parse_u8(input: &[u8]) -> (r: Result<(&[u8], ColorIndex), ParseError>)
        ensures
            match r {
                Ok((rest, color)) => {
                    &&& input@.len() >= 1
                    &&& rest@ == input@.subrange(1, input@.len() as int)
                    &&& color == ColorIndex::of_id(input@[0] as u16)
                },
                Err(e) => input@.len() < 1 && e == (ParseError {
                    remaining: 0,
                    kind: ErrorKind::Eof,
                }),
            },
    {
        match take_u8(input) {
            Ok((rest, color_id)) => Ok((rest, ColorIndex::from(color_id as u16))),
            Err(_) => Err(nom_input_error_with_kind(input, ErrorKind::Eof)),
        }
    }

    /// Parse a 16-bit color index from an input slice.
    pub fn parse_u16(input: &[u8]) -> (r: Result<(&[u8], ColorIndex), ParseError>)
        ensures
            match r {
                Ok((rest, color)) => {
                    &&& input@.len() >= 2
                    &&& rest@ == input@.subrange(2, input@.len() as int)
                    &&& color == ColorIndex::of_id(u16_at(input@, 0))
                },
                Err(e) => input@.len() < 2 && e == (ParseError {
                    remaining: input@.len() as usize,
                    kind: ErrorKind::Eof,
                }),
            },
    {
        match le_u16(input) {
            Ok((rest, color_id)) => Ok((rest, ColorIndex::from(color_id))),
            Err(_) => Err(nom_input_error_with_kind(input, ErrorKind::Eof)),
        }
    }
}

impl From<u16> for ColorIndex {
    fn from(color_id: u16) -> (color: ColorIndex) {
        match color_id {
            0 => ColorIndex::NoColor,
            1 => ColorIndex::Pink,
            2 => ColorIndex::Red,
            3 => ColorIndex::Orange,
            4 => ColorIndex::Yellow,
            5 => ColorIndex::Green,
            6 => ColorIndex::Aqua,
            7 => ColorIndex::Blue,
            8 => ColorIndex::Purple,
            x => ColorIndex::Unknown(x),
        }
    }
}

impl FromSpecImpl<u16> for ColorIndex {
    open spec fn obeys_from_spec() -> bool {
        true
    }

    open spec fn from_spec(color_id: u16) -> ColorIndex {
        ColorIndex::of_id(color_id)
    }
}

} // verus!

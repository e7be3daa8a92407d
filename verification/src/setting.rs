//! Parser for Rekordbox `*SETTING.DAT` files.
//!
//! These files either in the `PIONEER` directory of a USB drive (device exports), but are also
//! present for on local installations of Rekordbox 6 in `%APPDATA%\Pioneer\rekordbox6`.
//!
//! The settings files store the settings found on the "DJ System" > "My Settings" page of the
//! Rekordbox preferences. These includes language, LCD brightness, tempo fader range, crossfader
//! curve, etc.
//!
//! The exact format still has to be reverse-engineered.

use crate::bytes::{u16_at, u32_at};
use crate::util::{le_u16, le_u32, nom_input_error_with_kind, take, ErrorKind, ParseError};
use vstd::prelude::*;
use vstd::slice::slice_to_vec;
use vstd::string::StringSliceAdditionalSpecFns;
use vstd::utf8::{decode_utf8, valid_utf8};

verus! {

/// The error of `core::str::from_utf8`; nothing is read from it.
#[verifier::external_type_specification]
#[verifier::external_body]
pub struct ExUtf8Error(core::str::Utf8Error);

/// `core::str::from_utf8` succeeds exactly on well-formed UTF-8, and the
/// string slice it returns has the given bytes as its encoding.
pub assume_specification[ core::str::from_utf8 ](v: &[u8]) -> (r: Result<
    &str,
    core::str::Utf8Error,
>)
    ensures
        r is Ok <==> valid_utf8(v@),
        r matches Ok(s) ==> s.spec_bytes() == v@,
;

/// `s` without the run of `c` at its end.
pub open spec fn trim_end(s: Seq<char>, c: char) -> Seq<char>
    decreases s.len(),
{
    if s.len() > 0 && s.last() == c {
        trim_end(s.drop_last(), c)
    } else {
        s
    }
}

/// Calls `str::trim_end_matches` with a single character as the pattern. The
/// claim: the result is the input without every trailing occurrence of it.
#[verifier::external_body]
fn trim_end_matches(s: &str, c: char) -> (r: &str)
    ensures
        r@ == trim_end(s@, c),
{
    s.trim_end_matches(c)
}

/// The text that a fixed-width, NUL-padded field holds.
pub open spec fn field_text(field: Seq<u8>) -> Seq<char> {
    trim_end(decode_utf8(field), '\0')
}

/// Represents a setting file.
#[derive(Debug)]
pub struct Setting {
    /// Size of the string data field (should be always 96).
    pub len_stringdata: u32,
    /// Name of the company ("PIONEER").
    pub company: String,
    /// Name of the software ("rekordbox").
    pub software: String,
    /// Some kind of version number.
    pub version: String,
    /// Size of the `unknown1` data in bytes.
    pub len_unknown1: u32,
    /// Unknown field.
    pub unknown1: Vec<u8>,
    /// CRC16 XMODEM checksum. The checksum is calculated over the contents of the `unknown1`
    /// field, except for `DJMSETTING.DAT` files where the checksum is calculated over all
    /// preceding bytes including the length fields.
    pub checksum: u16,
    /// Unknown field (apparently always `0000`).
    pub unknown2: u16,
}

impl Setting {
    /// Width in bytes of each of the three text fields of `input`.
    pub open spec fn text_width(input: Seq<u8>) -> int {
        u32_at(input, 0) as int / 3
    }

    /// The text field of `input` that starts at `from`, padding included.
    pub open spec fn text_field(input: Seq<u8>, from: int) -> Seq<u8> {
        input.subrange(from, from + Self::text_width(input))
    }

    /// Offset of the length field of the payload.
    pub open spec fn payload_at(input: Seq<u8>) -> int {
        4 + 3 * Self::text_width(input)
    }

    /// Offset of the checksum, right behind the payload.
    pub open spec fn trailer_at(input: Seq<u8>) -> int {
        let p = Self::payload_at(input);
        p + 4 + u32_at(input, p)
    }

    /// Why the three text fields of `input` cannot be read, or `None` if they
    /// can: the length in front of them is missing or does not fit the
    /// machine, or a field is cut short or is not UTF-8. The checks are made
    /// front to back and the first that fails decides.
    pub open spec fn texts_error(input: Seq<u8>) -> Option<ParseError> {
        let n = input.len() as int;
        let w = Self::text_width(input);
        if n < 4 {
            Some(ParseError { remaining: n as usize, kind: ErrorKind::Eof })
        } else if u32_at(input, 0) > usize::MAX {
            Some(ParseError { remaining: (n - 4) as usize, kind: ErrorKind::TooLarge })
        } else if n < 4 + w {
            Some(ParseError { remaining: (n - 4) as usize, kind: ErrorKind::Eof })
        } else if !valid_utf8(Self::text_field(input, 4)) {
            Some(ParseError { remaining: (n - 4) as usize, kind: ErrorKind::Utf8 })
        } else if n < 4 + 2 * w {
            Some(ParseError { remaining: (n - 4 - w) as usize, kind: ErrorKind::Eof })
        } else if !valid_utf8(Self::text_field(input, 4 + w)) {
            Some(ParseError { remaining: (n - 4 - w) as usize, kind: ErrorKind::Utf8 })
        } else if n < 4 + 3 * w {
            Some(ParseError { remaining: (n - 4 - 2 * w) as usize, kind: ErrorKind::Eof })
        } else if !valid_utf8(Self::text_field(input, 4 + 2 * w)) {
            Some(ParseError { remaining: (n - 4 - 2 * w) as usize, kind: ErrorKind::Utf8 })
        } else {
            None
        }
    }

    /// Why what follows the text fields of `input` cannot be read, or `None`
    /// if it can: the length of the payload is missing or does not fit the
    /// machine, the payload or the trailer is cut short, or bytes are left
    /// over behind the trailer.
    pub open spec fn payload_error(input: Seq<u8>) -> Option<ParseError> {
        let n = input.len() as int;
        let p = Self::payload_at(input);
        let q = Self::trailer_at(input);
        if n < p + 4 {
            Some(ParseError { remaining: (n - p) as usize, kind: ErrorKind::Eof })
        } else if u32_at(input, p) > usize::MAX {
            Some(ParseError { remaining: (n - p - 4) as usize, kind: ErrorKind::TooLarge })
        } else if n < q {
            Some(ParseError { remaining: (n - p - 4) as usize, kind: ErrorKind::Eof })
        } else if n < q + 2 {
            Some(ParseError { remaining: (n - q) as usize, kind: ErrorKind::Eof })
        } else if n < q + 4 {
            Some(ParseError { remaining: (n - q - 2) as usize, kind: ErrorKind::Eof })
        } else if n > q + 4 {
            Some(ParseError { remaining: (n - q - 4) as usize, kind: ErrorKind::Complete })
        } else {
            None
        }
    }

    /// Why `input` is not a setting file, or `None` if it is one.
    pub open spec fn parse_error(input: Seq<u8>) -> Option<ParseError> {
        if Self::texts_error(input) is Some {
            Self::texts_error(input)
        } else {
            Self::payload_error(input)
        }
    }

    /// Whether `self` holds what `input` says, field by field.
    pub open spec fn parsed_from(&self, input: Seq<u8>) -> bool {
        let w = Self::text_width(input);
        let p = Self::payload_at(input);
        let q = Self::trailer_at(input);
        &&& self.len_stringdata == u32_at(input, 0)
        &&& self.company@ == field_text(Self::text_field(input, 4))
        &&& self.software@ == field_text(Self::text_field(input, 4 + w))
        &&& self.version@ == field_text(Self::text_field(input, 4 + 2 * w))
        &&& self.len_unknown1 == u32_at(input, p)
        &&& self.unknown1@ == input.subrange(p + 4, q)
        &&& self.checksum == u16_at(input, q)
        &&& self.unknown2 == u16_at(input, q + 2)
    }

    /// Reads one NUL-padded text field.
    fn text(field: &[u8]) -> (r: Option<String>)
        ensures
            r is Some <==> valid_utf8(field@),
            r matches Some(s) ==> s@ == field_text(field@),
    {
        match core::str::from_utf8(field) {
            Ok(s) => {
                proof {
                    vstd::utf8::decode_utf8_encode_utf8(field@);
                    vstd::utf8::encode_utf8_decode_utf8(s@);
                }
                Some(trim_end_matches(s, '\0').to_owned())
            },
            Err(_) => None,
        }
    }

    /// Reads the length of the text block and the three text fields. Gives
    /// the input behind them and the three texts.
    fn texts(orig_input: &[u8]) -> (r: Result<(&[u8], u32, String, String, String), ParseError>)
        ensures
            match r {
                Ok((rest, len, company, software, version)) => {
                    let w = Self::text_width(orig_input@);
                    &&& Self::texts_error(orig_input@) is None
                    &&& rest@ == orig_input@.subrange(
                        Self::payload_at(orig_input@),
                        orig_input@.len() as int,
                    )
                    &&& len == u32_at(orig_input@, 0)
                    &&& company@ == field_text(Self::text_field(orig_input@, 4))
                    &&& software@ == field_text(Self::text_field(orig_input@, 4 + w))
                    &&& version@ == field_text(Self::text_field(orig_input@, 4 + 2 * w))
                },
                Err(e) => Self::texts_error(orig_input@) == Some(e),
            },
    {
        let ghost whole = orig_input@;
        let ghost n = whole.len() as int;
        let ghost w = Self::text_width(whole);
        let (input, len_stringdata) = match le_u32(orig_input) {
            Ok(v) => v,
            Err(_) => return Err(nom_input_error_with_kind(orig_input, ErrorKind::Eof)),
        };
        let stringdata_size = match usize::try_from(len_stringdata) {
            Ok(v) => v,
            Err(_) => return Err(nom_input_error_with_kind(input, ErrorKind::TooLarge)),
        };
        let stringdatasection_size = stringdata_size / 3;
        let (input1, company) = match take(stringdatasection_size, input) {
            Ok(v) => v,
            Err(_) => return Err(nom_input_error_with_kind(input, ErrorKind::Eof)),
        };
        assert(company@ =~= Self::text_field(whole, 4));
        assert(input1@ =~= whole.subrange(4 + w, n));
        let company = match Self::text(company) {
            Some(s) => s,
            None => return Err(nom_input_error_with_kind(input, ErrorKind::Utf8)),
        };
        let (input2, software) = match take(stringdatasection_size, input1) {
            Ok(v) => v,
            Err(_) => return Err(nom_input_error_with_kind(input1, ErrorKind::Eof)),
        };
        assert(software@ =~= Self::text_field(whole, 4 + w));
        assert(input2@ =~= whole.subrange(4 + 2 * w, n));
        let software = match Self::text(software) {
            Some(s) => s,
            None => return Err(nom_input_error_with_kind(input1, ErrorKind::Utf8)),
        };
        let (input3, version) = match take(stringdatasection_size, input2) {
            Ok(v) => v,
            Err(_) => return Err(nom_input_error_with_kind(input2, ErrorKind::Eof)),
        };
        assert(version@ =~= Self::text_field(whole, 4 + 2 * w));
        assert(input3@ =~= whole.subrange(4 + 3 * w, n));
        let version = match Self::text(version) {
            Some(s) => s,
            None => return Err(nom_input_error_with_kind(input2, ErrorKind::Utf8)),
        };
        Ok((input3, len_stringdata, company, software, version))
    }

    /// Parses the Setting file and returns the structure.
    ///
    /// The file is a length-prefixed block of three equally wide text fields,
    /// a length-prefixed payload, a checksum and a closing field, and nothing
    /// after that. On success the input left over is empty.
    pub fn parse(orig_input: &[u8]) -> (r: Result<(&[u8], Setting), ParseError>)
        ensures
            match r {
                Ok((rest, setting)) => {
                    &&& Self::parse_error(orig_input@) is None
                    &&& rest@.len() == 0
                    &&& setting.parsed_from(orig_input@)
                },
                Err(e) => Self::parse_error(orig_input@) == Some(e),
            },
    {
        let ghost whole = orig_input@;
        let ghost n = whole.len() as int;
        let ghost p = Self::payload_at(whole);
        let ghost q = Self::trailer_at(whole);
        let (input, len_stringdata, company, software, version) = match Self::texts(orig_input) {
            Ok(v) => v,
            Err(e) => return Err(e),
        };
        let (input, len_unknown1) = match le_u32(input) {
            Ok(v) => v,
            Err(_) => return Err(nom_input_error_with_kind(input, ErrorKind::Eof)),
        };
        assert(len_unknown1 == u32_at(whole, p));
        assert(input@ =~= whole.subrange(p + 4, n));
        let unknown1_size = match usize::try_from(len_unknown1) {
            Ok(v) => v,
            Err(_) => return Err(nom_input_error_with_kind(input, ErrorKind::TooLarge)),
        };
        let (input5, unknown1) = match take(unknown1_size, input) {
            Ok(v) => v,
            Err(_) => return Err(nom_input_error_with_kind(input, ErrorKind::Eof)),
        };
        assert(unknown1@ =~= whole.subrange(p + 4, q));
        assert(input5@ =~= whole.subrange(q, n));
        let unknown1 = slice_to_vec(unknown1);
        let (input6, checksum) = match le_u16(input5) {
            Ok(v) => v,
            Err(_) => return Err(nom_input_error_with_kind(input5, ErrorKind::Eof)),
        };
        assert(checksum == u16_at(whole, q));
        assert(input6@ =~= whole.subrange(q + 2, n));
        let (input7, unknown2) = match le_u16(input6) {
            Ok(v) => v,
            Err(_) => return Err(nom_input_error_with_kind(input6, ErrorKind::Eof)),
        };
        assert(unknown2 == u16_at(whole, q + 2));
        assert(input7@ =~= whole.subrange(q + 4, n));
        if !input7.is_empty() {
            return Err(nom_input_error_with_kind(input7, ErrorKind::Complete));
        }
        Ok(
            (
                input7,
                Setting {
                    len_stringdata,
                    company,
                    software,
                    version,
                    len_unknown1,
                    unknown1,
                    checksum,
                    unknown2,
                },
            ),
        )
    }
}

} // verus!

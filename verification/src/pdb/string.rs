//! The string format of the database.
//!
//! A string starts with a tag byte. An odd tag is the short form: the tag,
//! shifted right by one, is the length of the whole string, tag included, and
//! the bytes behind it are ASCII. An even tag is a long form: `0x40` for one
//! byte per character, `0x90` for UTF-16, in both cases followed by the length
//! of the whole string as a 16-bit integer, a zero byte, and the characters.
//!
//! A [`DeviceString`] remembers the form it was read in, so that writing it
//! gives the bytes it was read from.

use crate::bytes::{push_u16, read_u16, u16_at, u16_bytes};
use crate::pdb::{format_error, FormatReason, PdbError};
use vstd::prelude::*;
use vstd::std_specs::iter::IteratorSpec;

verus! {

/// `String::push` appends the character to the end of the string.
pub assume_specification[ String::push ](s: &mut String, ch: char)
    ensures
        final(s)@ == old(s)@.push(ch),
;

/// `char::from_u32` gives the character with the given scalar value, and
/// `None` for a surrogate or a value above `0x10FFFF`.
pub assume_specification[ char::from_u32 ](i: u32) -> (r: Option<char>)
    ensures
        r == (if i < 0xD800 || 0xE000 <= i < 0x11_0000 {
            Some(i as char)
        } else {
            None::<char>
        }),
;

/// Whether `u` is the first half of a surrogate pair.
pub open spec fn is_high_surrogate(u: u16) -> bool {
    0xD800 <= u < 0xDC00
}

/// Whether `u` is the second half of a surrogate pair.
pub open spec fn is_low_surrogate(u: u16) -> bool {
    0xDC00 <= u < 0xE000
}

/// The scalar value that a surrogate pair stands for.
pub open spec fn pair_scalar(high: u16, low: u16) -> int {
    0x1_0000 + (high - 0xD800) * 0x400 + (low - 0xDC00)
}

/// The characters that a sequence of UTF-16 code units spells, or `None` if
/// it holds a surrogate that is not half of a pair.
pub open spec fn utf16_decode(units: Seq<u16>) -> Option<Seq<char>>
    decreases units.len(),
{
    if units.len() == 0 {
        Some(Seq::empty())
    } else if !is_high_surrogate(units[0]) && !is_low_surrogate(units[0]) {
        match utf16_decode(units.skip(1)) {
            Some(rest) => Some(seq![units[0] as char] + rest),
            None => None,
        }
    } else if is_high_surrogate(units[0]) && units.len() >= 2 && is_low_surrogate(units[1]) {
        match utf16_decode(units.skip(2)) {
            Some(rest) => Some(seq![pair_scalar(units[0], units[1]) as char] + rest),
            None => None,
        }
    } else {
        None
    }
}

/// The one or two UTF-16 code units of a character.
pub open spec fn utf16_of_char(c: char) -> Seq<u16> {
    let v = c as int;
    if v < 0x1_0000 {
        seq![v as u16]
    } else {
        seq![
            (0xD800 + (v - 0x1_0000) / 0x400) as u16,
            (0xDC00 + (v - 0x1_0000) % 0x400) as u16,
        ]
    }
}

/// The UTF-16 code units of a text.
pub open spec fn utf16_encode(chars: Seq<char>) -> Seq<u16>
    decreases chars.len(),
{
    if chars.len() == 0 {
        Seq::empty()
    } else {
        utf16_encode(chars.drop_last()) + utf16_of_char(chars.last())
    }
}

/// The code units that lie in `bytes`, two bytes each, least significant first.
pub open spec fn units_of_bytes(bytes: Seq<u8>) -> Seq<u16> {
    Seq::new((bytes.len() / 2) as nat, |i: int| u16_at(bytes, 2 * i))
}

/// The bytes of a sequence of code units, least significant byte first.
pub open spec fn bytes_of_units(units: Seq<u16>) -> Seq<u8> {
    Seq::new(
        2 * units.len(),
        |i: int|
            if i % 2 == 0 {
                (units[i / 2] % 0x100) as u8
            } else {
                (units[i / 2] / 0x100) as u8
            },
    )
}

/// Whether every character is in the ASCII range.
pub open spec fn all_ascii(chars: Seq<char>) -> bool {
    forall|i: int| 0 <= i < chars.len() ==> (#[trigger] chars[i] as u32) < 0x80
}

/// Whether every byte is in the ASCII range.
pub open spec fn all_ascii_bytes(bytes: Seq<u8>) -> bool {
    forall|i: int| 0 <= i < bytes.len() ==> #[trigger] bytes[i] < 0x80
}

/// The characters of a text as single bytes.
pub open spec fn bytes_of_chars(chars: Seq<char>) -> Seq<u8> {
    Seq::new(chars.len(), |i: int| chars[i] as u8)
}

/// The bytes of a single-byte text as characters.
pub open spec fn chars_of_bytes(bytes: Seq<u8>) -> Seq<char> {
    Seq::new(bytes.len(), |i: int| bytes[i] as char)
}

/// The three forms in which a string is stored.
#[derive(Debug, Clone, Copy, PartialEq, Eq, Structural)]
pub enum StringForm {
    /// Length in the tag byte, ASCII characters.
    Short,
    /// Length in a field of its own, one byte per character.
    LongAscii,
    /// Length in a field of its own, UTF-16 code units.
    LongWide,
}

/// Tag byte of the long form with one byte per character.
pub const TAG_LONG_ASCII: u8 = 0x40;

/// Tag byte of the long form with UTF-16 code units.
pub const TAG_LONG_WIDE: u8 = 0x90;

/// Most characters that the short form holds.
pub const SHORT_MAX: usize = 126;

/// Most content bytes that a long form holds.
pub const LONG_MAX: usize = 65531;

/// The form that the tag byte of `b` announces.
pub open spec fn string_form(b: Seq<u8>) -> StringForm {
    if b[0] % 2 == 1 {
        StringForm::Short
    } else if b[0] == TAG_LONG_ASCII {
        StringForm::LongAscii
    } else {
        StringForm::LongWide
    }
}

/// The number of bytes that the string at the start of `b` occupies, its
/// header included.
pub open spec fn string_len(b: Seq<u8>) -> int {
    if b[0] % 2 == 1 {
        b[0] as int / 2
    } else {
        u16_at(b, 1) as int
    }
}

/// The number of bytes in front of the characters.
pub open spec fn string_header_len(b: Seq<u8>) -> int {
    if b[0] % 2 == 1 {
        1
    } else {
        4
    }
}

/// The bytes that hold the characters of the string at the start of `b`.
pub open spec fn string_content(b: Seq<u8>) -> Seq<u8> {
    b.subrange(string_header_len(b), string_len(b))
}

/// The text of the string at the start of `b`.
pub open spec fn string_text(b: Seq<u8>) -> Seq<char> {
    match string_form(b) {
        StringForm::Short | StringForm::LongAscii => chars_of_bytes(string_content(b)),
        StringForm::LongWide => utf16_decode(units_of_bytes(string_content(b))).unwrap(),
    }
}

/// Why `b` does not start with a string, or `None` if it does. The checks
/// are made in the order written and the first that fails decides.
pub open spec fn string_error(b: Seq<u8>) -> Option<PdbError> {
    if b.len() < 1 {
        Some(format_error(FormatReason::Truncated))
    } else if b[0] % 2 == 1 {
        if string_len(b) < 1 || b.len() < string_len(b) {
            Some(format_error(FormatReason::StringLength))
        } else if !all_ascii_bytes(string_content(b)) {
            Some(format_error(FormatReason::StringCharacter))
        } else {
            None
        }
    } else if b[0] != TAG_LONG_ASCII && b[0] != TAG_LONG_WIDE {
        Some(format_error(FormatReason::StringTag))
    } else if b.len() < 4 {
        Some(format_error(FormatReason::Truncated))
    } else if b[3] != 0 {
        Some(format_error(FormatReason::StringTag))
    } else if string_len(b) < 4 || b.len() < string_len(b) {
        Some(format_error(FormatReason::StringLength))
    } else if b[0] == TAG_LONG_ASCII {
        if !all_ascii_bytes(string_content(b)) {
            Some(format_error(FormatReason::StringCharacter))
        } else {
            None
        }
    } else if (string_len(b) - 4) % 2 != 0 {
        Some(format_error(FormatReason::StringLength))
    } else if utf16_decode(units_of_bytes(string_content(b))) is None {
        Some(format_error(FormatReason::StringCharacter))
    } else {
        None
    }
}

/// The bytes of a text in a form, or the reason why the form cannot hold it:
/// a character outside ASCII in a single-byte form, or too many characters.
pub open spec fn string_encoding(form: StringForm, text: Seq<char>) -> Result<Seq<u8>, PdbError> {
    match form {
        StringForm::Short => if !all_ascii(text) {
            Err(format_error(FormatReason::StringCharacter))
        } else if text.len() > SHORT_MAX {
            Err(format_error(FormatReason::StringLength))
        } else {
            Ok(seq![(2 * (text.len() + 1) + 1) as u8] + bytes_of_chars(text))
        },
        StringForm::LongAscii => if !all_ascii(text) {
            Err(format_error(FormatReason::StringCharacter))
        } else if text.len() > LONG_MAX {
            Err(format_error(FormatReason::StringLength))
        } else {
            Ok(
                seq![TAG_LONG_ASCII] + u16_bytes((text.len() + 4) as u16) + seq![0u8]
                    + bytes_of_chars(text),
            )
        },
        StringForm::LongWide => {
            let units = utf16_encode(text);
            if 2 * units.len() > LONG_MAX {
                Err(format_error(FormatReason::StringLength))
            } else {
                Ok(
                    seq![TAG_LONG_WIDE] + u16_bytes((2 * units.len() + 4) as u16) + seq![0u8]
                        + bytes_of_units(units),
                )
            }
        },
    }
}

/// Encoding moves to the front of a text: the units of a text are those of
/// its first character followed by those of the rest.
pub proof fn lemma_utf16_encode_front(c: char, rest: Seq<char>)
    ensures
        utf16_encode(seq![c] + rest) == utf16_of_char(c) + utf16_encode(rest),
    decreases rest.len(),
{
    let whole = seq![c] + rest;
    if rest.len() == 0 {
        assert(whole.drop_last() =~= Seq::<char>::empty());
        assert(whole.last() == c);
        assert(utf16_encode(whole.drop_last()) =~= Seq::<u16>::empty());
        assert(utf16_encode(rest) =~= Seq::<u16>::empty());
        assert(utf16_encode(whole) =~= utf16_of_char(c));
        assert(utf16_of_char(c) + utf16_encode(rest) =~= utf16_of_char(c));
    } else {
        assert(whole.drop_last() =~= seq![c] + rest.drop_last());
        assert(whole.last() == rest.last());
        lemma_utf16_encode_front(c, rest.drop_last());
        assert(utf16_encode(whole) =~= utf16_of_char(c) + utf16_encode(rest));
    }
}

/// Encoding what was decoded gives the code units back.
pub proof fn lemma_utf16_encode_of_decode(units: Seq<u16>)
    requires
        utf16_decode(units) is Some,
    ensures
        utf16_encode(utf16_decode(units).unwrap()) == units,
    decreases units.len(),
{
    if units.len() == 0 {
        assert(utf16_encode(Seq::<char>::empty()) =~= units);
    } else if !is_high_surrogate(units[0]) && !is_low_surrogate(units[0]) {
        let rest = utf16_decode(units.skip(1)).unwrap();
        let c = units[0] as char;
        lemma_utf16_encode_of_decode(units.skip(1));
        lemma_utf16_encode_front(c, rest);
        assert(utf16_of_char(c) =~= seq![units[0]]);
        assert(seq![units[0]] + units.skip(1) =~= units);
    } else {
        let rest = utf16_decode(units.skip(2)).unwrap();
        let v = pair_scalar(units[0], units[1]);
        let c = v as char;
        lemma_utf16_encode_of_decode(units.skip(2));
        lemma_utf16_encode_front(c, rest);
        assert(0x1_0000 <= v < 0x11_0000);
        assert(c as int == v);
        assert(utf16_of_char(c) =~= seq![units[0], units[1]]);
        assert(seq![units[0], units[1]] + units.skip(2) =~= units);
    }
}

/// Decoding a well-formed run of code units followed by more code units
/// gives the characters of the run followed by those of the rest.
pub proof fn lemma_utf16_decode_concat(a: Seq<u16>, b: Seq<u16>)
    requires
        utf16_decode(a) is Some,
    ensures
        utf16_decode(a + b) == match utf16_decode(b) {
            Some(rest) => Some(utf16_decode(a).unwrap() + rest),
            None => None,
        },
    decreases a.len(),
{
    if a.len() == 0 {
        assert(a + b =~= b);
        if utf16_decode(b) is Some {
            assert(Seq::<char>::empty() + utf16_decode(b).unwrap() =~= utf16_decode(b).unwrap());
        }
    } else {
        let whole = a + b;
        assert(whole[0] == a[0]);
        if !is_high_surrogate(a[0]) && !is_low_surrogate(a[0]) {
            lemma_utf16_decode_concat(a.skip(1), b);
            assert(whole.skip(1) =~= a.skip(1) + b);
            if utf16_decode(b) is Some {
                let front = utf16_decode(a.skip(1)).unwrap();
                let rest = utf16_decode(b).unwrap();
                assert(seq![a[0] as char] + (front + rest) =~= (seq![a[0] as char] + front)
                    + rest);
            }
        } else {
            assert(whole[1] == a[1]);
            lemma_utf16_decode_concat(a.skip(2), b);
            assert(whole.skip(2) =~= a.skip(2) + b);
            if utf16_decode(b) is Some {
                let c = pair_scalar(a[0], a[1]) as char;
                let front = utf16_decode(a.skip(2)).unwrap();
                let rest = utf16_decode(b).unwrap();
                assert(seq![c] + (front + rest) =~= (seq![c] + front) + rest);
            }
        }
    }
}

/// The code units of a character spell that character.
pub proof fn lemma_utf16_decode_of_char(c: char)
    ensures
        utf16_decode(utf16_of_char(c)) == Some(seq![c]),
{
    let units = utf16_of_char(c);
    let v = c as int;
    assert(utf16_decode(Seq::<u16>::empty()) == Some(Seq::<char>::empty()));
    if v < 0x1_0000 {
        assert(units.skip(1) =~= Seq::<u16>::empty());
        assert(units[0] as char == c);
        assert(seq![c] + Seq::<char>::empty() =~= seq![c]);
    } else {
        assert(units.skip(2) =~= Seq::<u16>::empty());
        assert(pair_scalar(units[0], units[1]) == v);
        assert(seq![c] + Seq::<char>::empty() =~= seq![c]);
    }
}

/// Decoding what was encoded gives the text back.
pub proof fn lemma_utf16_decode_of_encode(chars: Seq<char>)
    ensures
        utf16_decode(utf16_encode(chars)) == Some(chars),
    decreases chars.len(),
{
    if chars.len() > 0 {
        lemma_utf16_decode_of_encode(chars.drop_last());
        lemma_utf16_decode_of_char(chars.last());
        lemma_utf16_decode_concat(utf16_encode(chars.drop_last()), utf16_of_char(chars.last()));
        assert(chars.drop_last() + seq![chars.last()] =~= chars);
    }
}

/// Decoding splits at any place where a character starts.
proof fn lemma_utf16_decode_step(units: Seq<u16>, k: int)
    requires
        0 <= k < units.len(),
    ensures
        !is_high_surrogate(units[k]) && !is_low_surrogate(units[k]) ==> utf16_decode(
            units.skip(k),
        ) == match utf16_decode(units.skip(k + 1)) {
            Some(rest) => Some(seq![units[k] as char] + rest),
            None => None,
        },
        is_high_surrogate(units[k]) && k + 1 < units.len() && is_low_surrogate(units[k + 1])
            ==> utf16_decode(units.skip(k)) == match utf16_decode(units.skip(k + 2)) {
            Some(rest) => Some(seq![pair_scalar(units[k], units[k + 1]) as char] + rest),
            None => None,
        },
        is_low_surrogate(units[k]) || (is_high_surrogate(units[k]) && !(k + 1 < units.len()
            && is_low_surrogate(units[k + 1]))) ==> utf16_decode(units.skip(k)) is None,
{
    let s = units.skip(k);
    assert(s[0] == units[k]);
    assert(s.skip(1) =~= units.skip(k + 1));
    if k + 1 < units.len() {
        assert(s[1] == units[k + 1]);
        assert(s.skip(2) =~= units.skip(k + 2));
    }
}

/// The bytes of code units that were read from bytes are those bytes.
proof fn lemma_bytes_of_units_of_bytes(bytes: Seq<u8>)
    requires
        bytes.len() % 2 == 0,
    ensures
        bytes_of_units(units_of_bytes(bytes)) == bytes,
{
    assert(bytes_of_units(units_of_bytes(bytes)) =~= bytes);
}

/// The bytes of characters that were read from ASCII bytes are those bytes.
proof fn lemma_bytes_of_chars_of_bytes(bytes: Seq<u8>)
    requires
        all_ascii_bytes(bytes),
    ensures
        bytes_of_chars(chars_of_bytes(bytes)) == bytes,
        all_ascii(chars_of_bytes(bytes)),
{
    assert(bytes_of_chars(chars_of_bytes(bytes)) =~= bytes);
}

/// Writing a string in the form and with the text that were read from `b`
/// gives the bytes of `b` that the string occupies.
pub proof fn lemma_string_round_trip(b: Seq<u8>)
    requires
        string_error(b) is None,
    ensures
        string_encoding(string_form(b), string_text(b)) == Ok::<Seq<u8>, PdbError>(
            b.subrange(0, string_len(b)),
        ),
{
    let content = string_content(b);
    let len = string_len(b);
    let out = string_encoding(string_form(b), string_text(b));
    if b[0] % 2 == 1 {
        lemma_bytes_of_chars_of_bytes(content);
        assert(out.unwrap() =~= b.subrange(0, len));
    } else if b[0] == TAG_LONG_ASCII {
        lemma_bytes_of_chars_of_bytes(content);
        crate::bytes::lemma_u16_bytes_of_read(b, 1);
        assert(out.unwrap() =~= b.subrange(0, len));
    } else {
        let units = units_of_bytes(content);
        lemma_utf16_encode_of_decode(units);
        lemma_bytes_of_units_of_bytes(content);
        crate::bytes::lemma_u16_bytes_of_read(b, 1);
        assert(2 * units.len() == len - 4);
        assert(out.unwrap() =~= b.subrange(0, len));
    }
}

/// The code units that were read from the bytes of code units are those units.
proof fn lemma_units_of_bytes_of_units(units: Seq<u16>)
    ensures
        units_of_bytes(bytes_of_units(units)) == units,
{
    let bytes = bytes_of_units(units);
    assert forall|i: int| 0 <= i < units.len() implies u16_at(bytes, 2 * i) == units[i] by {
        assert((2 * i) % 2 == 0);
        assert((2 * i + 1) % 2 == 1);
        assert((2 * i) / 2 == i);
        assert((2 * i + 1) / 2 == i);
    }
    assert(units_of_bytes(bytes) =~= units);
}

/// An ASCII character is the character of its byte.
proof fn lemma_ascii_char(c: char)
    requires
        (c as u32) < 0x80,
    ensures
        (c as u8) < 0x80,
        (c as u8) as char == c,
{
}

/// The characters that were read from the bytes of ASCII characters are
/// those characters.
proof fn lemma_chars_of_bytes_of_chars(text: Seq<char>)
    requires
        all_ascii(text),
    ensures
        chars_of_bytes(bytes_of_chars(text)) == text,
        all_ascii_bytes(bytes_of_chars(text)),
{
    let bytes = bytes_of_chars(text);
    assert forall|i: int| 0 <= i < text.len() implies #[trigger] bytes[i] < 0x80 && bytes[i] as char
        == text[i] by {
        lemma_ascii_char(text[i]);
    }
    assert(chars_of_bytes(bytes) =~= text);
}

/// Reading a short string that was written gives its text back.
proof fn lemma_short_read_of_written(text: Seq<char>, rest: Seq<u8>)
    requires
        string_encoding(StringForm::Short, text) is Ok,
    ensures
        ({
            let written = string_encoding(StringForm::Short, text).unwrap();
            &&& string_error(written + rest) is None
            &&& string_form(written + rest) == StringForm::Short
            &&& string_text(written + rest) == text
            &&& string_len(written + rest) == written.len()
        }),
{
    let written = string_encoding(StringForm::Short, text).unwrap();
    let b = written + rest;
    lemma_chars_of_bytes_of_chars(text);
    assert(b[0] == 2 * (text.len() + 1) + 1);
    assert(string_len(b) == text.len() + 1);
    assert(string_content(b) =~= bytes_of_chars(text));
}

/// Reading a long single-byte string that was written gives its text back.
proof fn lemma_long_ascii_read_of_written(text: Seq<char>, rest: Seq<u8>)
    requires
        string_encoding(StringForm::LongAscii, text) is Ok,
    ensures
        ({
            let written = string_encoding(StringForm::LongAscii, text).unwrap();
            &&& string_error(written + rest) is None
            &&& string_form(written + rest) == StringForm::LongAscii
            &&& string_text(written + rest) == text
            &&& string_len(written + rest) == written.len()
        }),
{
    let written = string_encoding(StringForm::LongAscii, text).unwrap();
    let b = written + rest;
    let len = (text.len() + 4) as u16;
    lemma_chars_of_bytes_of_chars(text);
    crate::bytes::lemma_u16_read_of_bytes(len);
    assert(b[0] == TAG_LONG_ASCII);
    assert(b[1] == u16_bytes(len)[0]);
    assert(b[2] == u16_bytes(len)[1]);
    assert(b[3] == 0);
    assert(u16_at(b, 1) == len);
    assert(string_content(b) =~= bytes_of_chars(text));
}

/// Reading a wide string that was written gives its text back.
proof fn lemma_long_wide_read_of_written(text: Seq<char>, rest: Seq<u8>)
    requires
        string_encoding(StringForm::LongWide, text) is Ok,
    ensures
        ({
            let written = string_encoding(StringForm::LongWide, text).unwrap();
            &&& string_error(written + rest) is None
            &&& string_form(written + rest) == StringForm::LongWide
            &&& string_text(written + rest) == text
            &&& string_len(written + rest) == written.len()
        }),
{
    let written = string_encoding(StringForm::LongWide, text).unwrap();
    let b = written + rest;
    let units = utf16_encode(text);
    let len = (2 * units.len() + 4) as u16;
    crate::bytes::lemma_u16_read_of_bytes(len);
    assert(b[0] == TAG_LONG_WIDE);
    assert(b[1] == u16_bytes(len)[0]);
    assert(b[2] == u16_bytes(len)[1]);
    assert(b[3] == 0);
    assert(u16_at(b, 1) == len);
    assert(string_content(b) =~= bytes_of_units(units));
    lemma_units_of_bytes_of_units(units);
    lemma_utf16_decode_of_encode(text);
}

/// Reading a string that was written, whatever follows it, gives its form
/// and its text back, and takes as many bytes as were written.
pub proof fn lemma_string_read_of_written(form: StringForm, text: Seq<char>, rest: Seq<u8>)
    requires
        string_encoding(form, text) is Ok,
    ensures
        ({
            let written = string_encoding(form, text).unwrap();
            &&& string_error(written + rest) is None
            &&& string_form(written + rest) == form
            &&& string_text(written + rest) == text
            &&& string_len(written + rest) == written.len()
        }),
{
    match form {
        StringForm::Short => lemma_short_read_of_written(text, rest),
        StringForm::LongAscii => lemma_long_ascii_read_of_written(text, rest),
        StringForm::LongWide => lemma_long_wide_read_of_written(text, rest),
    }
}

/// A string of the database: a text and the form in which it is stored.
#[derive(Debug, Clone, PartialEq, Eq)]
pub struct DeviceString {
    /// The form in which the string is stored.
    pub form: StringForm,
    /// The text.
    pub text: String,
}

/// Reads single-byte characters from `bytes[from..to]`; `None` if a byte is
/// outside ASCII.
fn ascii_text(bytes: &[u8], from: usize, to: usize) -> (r: Option<String>)
    requires
        from <= to <= bytes@.len(),
    ensures
        r is Some <==> all_ascii_bytes(bytes@.subrange(from as int, to as int)),
        r matches Some(s) ==> s@ == chars_of_bytes(bytes@.subrange(from as int, to as int)),
{
    let ghost content = bytes@.subrange(from as int, to as int);
    let mut text = String::new();
    let mut i: usize = from;
    while i < to
        invariant
            from <= i <= to <= bytes@.len(),
            content == bytes@.subrange(from as int, to as int),
            all_ascii_bytes(content.subrange(0, i - from)),
            text@ == chars_of_bytes(content.subrange(0, i - from)),
        decreases to - i,
    {
        let b = bytes[i];
        if b >= 0x80 {
            assert(content[i - from] == b);
            return None;
        }
        text.push(b as char);
        i += 1;
        assert(text@ =~= chars_of_bytes(content.subrange(0, i - from)));
    }
    assert(content.subrange(0, to - from) =~= content);
    Some(text)
}

/// Reads UTF-16 text from `bytes[from..to]`; `None` if it is ill-formed.
fn wide_text(bytes: &[u8], from: usize, to: usize) -> (r: Option<String>)
    requires
        from <= to <= bytes@.len(),
        (to - from) % 2 == 0,
    ensures
        match r {
            Some(s) => utf16_decode(units_of_bytes(bytes@.subrange(from as int, to as int)))
                == Some(s@),
            None => utf16_decode(units_of_bytes(bytes@.subrange(from as int, to as int)))
                is None,
        },
{
    let ghost units = units_of_bytes(bytes@.subrange(from as int, to as int));
    let ghost mut k: int = 0;
    let mut text = String::new();
    let mut i: usize = from;
    assert(units.skip(0) =~= units);
    assert(text@ + utf16_decode(units).unwrap() =~= utf16_decode(units).unwrap());
    while i < to
        invariant
            from <= i <= to <= bytes@.len(),
            (to - from) % 2 == 0,
            i == from + 2 * k,
            0 <= k <= units.len(),
            units == units_of_bytes(bytes@.subrange(from as int, to as int)),
            utf16_decode(units) == match utf16_decode(units.skip(k)) {
                Some(rest) => Some(text@ + rest),
                None => None,
            },
        decreases to - i,
    {
        let unit = read_u16(bytes, i);
        assert(unit == units[k]);
        proof {
            lemma_utf16_decode_step(units, k);
        }
        if unit < 0xD800 || unit >= 0xE000 {
            let c = match char::from_u32(unit as u32) {
                Some(c) => c,
                None => return None,
            };
            let ghost before = text@;
            text.push(c);
            i += 2;
            proof {
                k = k + 1;
                if utf16_decode(units.skip(k)) is Some {
                    let rest = utf16_decode(units.skip(k)).unwrap();
                    assert(before + (seq![c] + rest) =~= text@ + rest);
                }
            }
        } else if unit < 0xDC00 && to - i >= 4 {
            let low = read_u16(bytes, i + 2);
            assert(low == units[k + 1]);
            if low < 0xDC00 || low >= 0xE000 {
                return None;
            }
            let v: u32 = 0x1_0000 + (unit as u32 - 0xD800) * 0x400 + (low as u32 - 0xDC00);
            let c = match char::from_u32(v) {
                Some(c) => c,
                None => return None,
            };
            let ghost before = text@;
            text.push(c);
            i += 4;
            proof {
                k = k + 2;
                if utf16_decode(units.skip(k)) is Some {
                    let rest = utf16_decode(units.skip(k)).unwrap();
                    assert(before + (seq![c] + rest) =~= text@ + rest);
                }
            }
        } else {
            return None;
        }
    }
    assert(units.skip(k) =~= Seq::<u16>::empty());
    assert(text@ + Seq::<char>::empty() =~= text@);
    Some(text)
}

/// The bytes of two runs of code units are the bytes of the first followed by
/// the bytes of the second.
proof fn lemma_bytes_of_units_concat(a: Seq<u16>, b: Seq<u16>)
    ensures
        bytes_of_units(a + b) == bytes_of_units(a) + bytes_of_units(b),
{
    let left = bytes_of_units(a + b);
    let right = bytes_of_units(a) + bytes_of_units(b);
    assert(left.len() == right.len());
    assert forall|i: int| 0 <= i < left.len() implies left[i] == right[i] by {
        if i >= 2 * a.len() {
            assert((i - 2 * a.len()) / 2 == i / 2 - a.len());
            assert((i - 2 * a.len()) % 2 == i % 2);
        }
    }
    assert(left =~= right);
}

/// The scalar value of a character.
fn scalar_value(c: char) -> (v: u32)
    ensures
        v == c as int,
        v < 0xD800 || 0xE000 <= v < 0x11_0000,
{
    c as u32
}

/// The text as single bytes; `None` if a character is outside ASCII.
fn ascii_bytes(text: &str) -> (r: Option<Vec<u8>>)
    ensures
        r is Some <==> all_ascii(text@),
        r matches Some(v) ==> v@ == bytes_of_chars(text@),
{
    broadcast use vstd::string::group_string_axioms;

    let mut out: Vec<u8> = Vec::new();
    let mut it = text.chars();
    let ghost mut k: int = 0;
    loop
        invariant
            0 <= k <= text@.len(),
            it.remaining() == text@.subrange(k, text@.len() as int),
            it.obeys_prophetic_iter_laws(),
            all_ascii(text@.subrange(0, k)),
            out@ == bytes_of_chars(text@.subrange(0, k)),
        ensures
            k == text@.len(),
        decreases text@.len() - k,
    {
        match it.next() {
            Some(c) => {
                assert(c == text@[k]);
                let v: u32 = scalar_value(c);
                if v >= 0x80 {
                    return None;
                }
                out.push(v as u8);
                proof {
                    k = k + 1;
                }
                assert(out@ =~= bytes_of_chars(text@.subrange(0, k)));
                assert(it.remaining() =~= text@.subrange(k, text@.len() as int));
            },
            None => {
                break;
            },
        }
    }
    assert(text@.subrange(0, k) =~= text@);
    Some(out)
}

/// The text as UTF-16 code units, two bytes each.
fn wide_bytes(text: &str) -> (out: Vec<u8>)
    ensures
        out@ == bytes_of_units(utf16_encode(text@)),
{
    broadcast use vstd::string::group_string_axioms;

    let mut out: Vec<u8> = Vec::new();
    let mut it = text.chars();
    let ghost mut k: int = 0;
    assert(bytes_of_units(utf16_encode(text@.subrange(0, 0))) =~= Seq::<u8>::empty());
    loop
        invariant
            0 <= k <= text@.len(),
            it.remaining() == text@.subrange(k, text@.len() as int),
            it.obeys_prophetic_iter_laws(),
            out@ == bytes_of_units(utf16_encode(text@.subrange(0, k))),
        ensures
            k == text@.len(),
        decreases text@.len() - k,
    {
        match it.next() {
            Some(c) => {
                assert(c == text@[k]);
                let ghost before = text@.subrange(0, k);
                let ghost after = text@.subrange(0, k + 1);
                proof {
                    assert(after.drop_last() =~= before);
                    assert(after.last() == c);
                    lemma_bytes_of_units_concat(utf16_encode(before), utf16_of_char(c));
                }
                let v: u32 = scalar_value(c);
                if v < 0x1_0000 {
                    push_u16(&mut out, v as u16);
                    assert(bytes_of_units(utf16_of_char(c)) =~= u16_bytes(v as u16));
                } else {
                    let high: u16 = (0xD800 + (v - 0x1_0000) / 0x400) as u16;
                    let low: u16 = (0xDC00 + (v - 0x1_0000) % 0x400) as u16;
                    push_u16(&mut out, high);
                    push_u16(&mut out, low);
                    assert(bytes_of_units(utf16_of_char(c)) =~= u16_bytes(high) + u16_bytes(low));
                }
                proof {
                    k = k + 1;
                }
                assert(out@ =~= bytes_of_units(utf16_encode(after)));
                assert(it.remaining() =~= text@.subrange(k, text@.len() as int));
            },
            None => {
                break;
            },
        }
    }
    assert(text@.subrange(0, k) =~= text@);
    out
}

impl DeviceString {
    /// The bytes of this string, or the reason why its form cannot hold its text.
    pub open spec fn encoding(&self) -> Result<Seq<u8>, PdbError> {
        string_encoding(self.form, self.text@)
    }

    /// Whether this string is what `b` starts with.
    pub open spec fn parsed_from(&self, b: Seq<u8>) -> bool {
        &&& self.form == string_form(b)
        &&& self.text@ == string_text(b)
    }

    /// Reads the string at the start of `bytes`, and says how many bytes it
    /// occupies. Bytes behind the string are not looked at.
    pub fn decode(bytes: &[u8]) -> (r: Result<(DeviceString, usize), PdbError>)
        ensures
            match r {
                Ok((s, n)) => {
                    &&& string_error(bytes@) is None
                    &&& n == string_len(bytes@)
                    &&& s.parsed_from(bytes@)
                    &&& s.encoding() == Ok::<Seq<u8>, PdbError>(bytes@.subrange(0, n as int))
                },
                Err(e) => string_error(bytes@) == Some(e),
            },
    {
        if bytes.len() < 1 {
            return Err(PdbError::Format { reason: FormatReason::Truncated });
        }
        let tag = bytes[0];
        if tag % 2 == 1 {
            let len = (tag / 2) as usize;
            if len < 1 || bytes.len() < len {
                return Err(PdbError::Format { reason: FormatReason::StringLength });
            }
            match ascii_text(bytes, 1, len) {
                Some(text) => {
                    proof {
                        lemma_string_round_trip(bytes@);
                    }
                    Ok((DeviceString { form: StringForm::Short, text }, len))
                },
                None => Err(PdbError::Format { reason: FormatReason::StringCharacter }),
            }
        } else {
            if tag != TAG_LONG_ASCII && tag != TAG_LONG_WIDE {
                return Err(PdbError::Format { reason: FormatReason::StringTag });
            }
            if bytes.len() < 4 {
                return Err(PdbError::Format { reason: FormatReason::Truncated });
            }
            if bytes[3] != 0 {
                return Err(PdbError::Format { reason: FormatReason::StringTag });
            }
            let len = read_u16(bytes, 1) as usize;
            if len < 4 || bytes.len() < len {
                return Err(PdbError::Format { reason: FormatReason::StringLength });
            }
            if tag == TAG_LONG_ASCII {
                match ascii_text(bytes, 4, len) {
                    Some(text) => {
                        proof {
                            lemma_string_round_trip(bytes@);
                        }
                        Ok((DeviceString { form: StringForm::LongAscii, text }, len))
                    },
                    None => Err(PdbError::Format { reason: FormatReason::StringCharacter }),
                }
            } else {
                if (len - 4) % 2 != 0 {
                    return Err(PdbError::Format { reason: FormatReason::StringLength });
                }
                match wide_text(bytes, 4, len) {
                    Some(text) => {
                        proof {
                            lemma_string_round_trip(bytes@);
                        }
                        Ok((DeviceString { form: StringForm::LongWide, text }, len))
                    },
                    None => Err(PdbError::Format { reason: FormatReason::StringCharacter }),
                }
            }
        }
    }
    /// Writes the string in its own form. Fails if the form cannot hold the
    /// text; no other form is tried.
    pub fn encode(&self) -> (r: Result<Vec<u8>, PdbError>)
        ensures
            match r {
                Ok(v) => self.encoding() == Ok::<Seq<u8>, PdbError>(v@),
                Err(e) => self.encoding() == Err::<Seq<u8>, PdbError>(e),
            },
    {
        match self.form {
            StringForm::Short => {
                let mut content = match ascii_bytes(self.text.as_str()) {
                    Some(v) => v,
                    None => return Err(PdbError::Format { reason: FormatReason::StringCharacter }),
                };
                if content.len() > SHORT_MAX {
                    return Err(PdbError::Format { reason: FormatReason::StringLength });
                }
                let mut out: Vec<u8> = Vec::new();
                out.push((2 * (content.len() + 1) + 1) as u8);
                out.append(&mut content);
                assert(out@ =~= self.encoding().unwrap());
                Ok(out)
            },
            StringForm::LongAscii => {
                let mut content = match ascii_bytes(self.text.as_str()) {
                    Some(v) => v,
                    None => return Err(PdbError::Format { reason: FormatReason::StringCharacter }),
                };
                if content.len() > LONG_MAX {
                    return Err(PdbError::Format { reason: FormatReason::StringLength });
                }
                let mut out: Vec<u8> = Vec::new();
                out.push(TAG_LONG_ASCII);
                push_u16(&mut out, (content.len() + 4) as u16);
                out.push(0);
                out.append(&mut content);
                assert(out@ =~= self.encoding().unwrap());
                Ok(out)
            },
            StringForm::LongWide => {
                let mut content = wide_bytes(self.text.as_str());
                if content.len() > LONG_MAX {
                    return Err(PdbError::Format { reason: FormatReason::StringLength });
                }
                let mut out: Vec<u8> = Vec::new();
                out.push(TAG_LONG_WIDE);
                push_u16(&mut out, (content.len() + 4) as u16);
                out.push(0);
                out.append(&mut content);
                assert(out@ =~= self.encoding().unwrap());
                Ok(out)
            },
        }
    }
}

} // verus!

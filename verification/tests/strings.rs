use rekordcrate::pdb::string::{DeviceString, StringForm};
use rekordcrate::pdb::{FormatReason, PdbError};

fn format(reason: FormatReason) -> PdbError {
    PdbError::Format { reason }
}

fn string(form: StringForm, text: &str) -> DeviceString {
    DeviceString { form, text: text.to_string() }
}

#[test]
fn short_string_decodes_to_its_text() {
    let bytes = [0x0B, b'T', b'E', b'S', b'T', 0x00];
    let (s, n) = DeviceString::decode(&bytes).unwrap();
    assert_eq!(s.text, "TEST");
    assert_eq!(s.form, StringForm::Short);
    assert_eq!(n, 5);
    assert_eq!(s.encode().unwrap(), bytes[..5].to_vec());
}

#[test]
fn wide_string_round_trips() {
    let bytes = [0x90, 0x0A, 0x00, 0x00, 0xE5, 0x65, 0x2C, 0x67, 0x9E, 0x8A];
    let (s, n) = DeviceString::decode(&bytes).unwrap();
    assert_eq!(s.text, "日本語");
    assert_eq!(s.form, StringForm::LongWide);
    assert_eq!(n, 10);
    assert_eq!(s.encode().unwrap(), bytes.to_vec());
}

#[test]
fn long_ascii_string_round_trips() {
    let bytes = [0x40, 0x07, 0x00, 0x00, b'f', b'o', b'o', 0xFF];
    let (s, n) = DeviceString::decode(&bytes).unwrap();
    assert_eq!(s.text, "foo");
    assert_eq!(s.form, StringForm::LongAscii);
    assert_eq!(n, 7);
    assert_eq!(s.encode().unwrap(), bytes[..7].to_vec());
}

#[test]
fn empty_short_string_is_one_byte() {
    let (s, n) = DeviceString::decode(&[0x03]).unwrap();
    assert_eq!(s.text, "");
    assert_eq!(n, 1);
    assert_eq!(s.encode().unwrap(), vec![0x03]);
}

#[test]
fn encoding_keeps_the_form() {
    assert_eq!(string(StringForm::Short, "foo").encode().unwrap(), vec![0x09, b'f', b'o', b'o']);
    assert_eq!(
        string(StringForm::LongAscii, "foo").encode().unwrap(),
        vec![0x40, 0x07, 0x00, 0x00, b'f', b'o', b'o']
    );
    assert_eq!(
        string(StringForm::LongWide, "foo").encode().unwrap(),
        vec![0x90, 0x0A, 0x00, 0x00, b'f', 0, b'o', 0, b'o', 0]
    );
}

#[test]
fn surrogate_pairs_are_one_character() {
    // U+1F5C0 is the pair D83D DDC0.
    let bytes = [0x90, 0x08, 0x00, 0x00, 0x3D, 0xD8, 0xC0, 0xDD];
    let (s, n) = DeviceString::decode(&bytes).unwrap();
    assert_eq!(s.text, "\u{1F5C0}");
    assert_eq!(n, 8);
    assert_eq!(s.encode().unwrap(), bytes.to_vec());
}

#[test]
fn longest_short_string_has_126_characters() {
    let text = "a".repeat(126);
    let bytes = string(StringForm::Short, &text).encode().unwrap();
    assert_eq!(bytes.len(), 127);
    assert_eq!(bytes[0], 0xFF);
    let (s, n) = DeviceString::decode(&bytes).unwrap();
    assert_eq!(s.text, text);
    assert_eq!(n, 127);
    assert_eq!(
        string(StringForm::Short, &"a".repeat(127)).encode(),
        Err(format(FormatReason::StringLength))
    );
}

#[test]
fn long_forms_hold_65531_bytes() {
    let text = "a".repeat(65531);
    let bytes = string(StringForm::LongAscii, &text).encode().unwrap();
    assert_eq!(bytes.len(), 65535);
    assert_eq!(&bytes[..4], &[0x40, 0xFF, 0xFF, 0x00]);
    assert_eq!(
        string(StringForm::LongAscii, &"a".repeat(65532)).encode(),
        Err(format(FormatReason::StringLength))
    );
    assert_eq!(
        string(StringForm::LongWide, &"a".repeat(32766)).encode(),
        Err(format(FormatReason::StringLength))
    );
    assert_eq!(string(StringForm::LongWide, &"a".repeat(32765)).encode().unwrap().len(), 65534);
}

#[test]
fn string_without_a_tag_is_truncated() {
    assert_eq!(DeviceString::decode(&[]), Err(format(FormatReason::Truncated)));
    assert_eq!(DeviceString::decode(&[0x40, 0x07]), Err(format(FormatReason::Truncated)));
}

#[test]
fn string_with_unknown_tag_is_refused() {
    assert_eq!(
        DeviceString::decode(&[0x42, 0x04, 0x00, 0x00]),
        Err(format(FormatReason::StringTag))
    );
    assert_eq!(
        DeviceString::decode(&[0x40, 0x04, 0x00, 0x01]),
        Err(format(FormatReason::StringTag))
    );
}

#[test]
fn string_with_bad_length_is_refused() {
    // A short string of length zero has no room for its own tag.
    assert_eq!(DeviceString::decode(&[0x01]), Err(format(FormatReason::StringLength)));
    // The length reaches past the end of the buffer.
    assert_eq!(
        DeviceString::decode(&[0x0B, b'T', b'E', b'S']),
        Err(format(FormatReason::StringLength))
    );
    assert_eq!(
        DeviceString::decode(&[0x40, 0x03, 0x00, 0x00]),
        Err(format(FormatReason::StringLength))
    );
    assert_eq!(
        DeviceString::decode(&[0x90, 0x08, 0x00, 0x00, b'a', 0]),
        Err(format(FormatReason::StringLength))
    );
    // A wide string of an odd number of bytes.
    assert_eq!(
        DeviceString::decode(&[0x90, 0x07, 0x00, 0x00, b'a', 0, b'b']),
        Err(format(FormatReason::StringLength))
    );
}

#[test]
fn string_with_bad_characters_is_refused() {
    assert_eq!(DeviceString::decode(&[0x05, 0x80]), Err(format(FormatReason::StringCharacter)));
    assert_eq!(
        DeviceString::decode(&[0x40, 0x05, 0x00, 0x00, 0xE9]),
        Err(format(FormatReason::StringCharacter))
    );
    // A low surrogate alone, a high surrogate at the end, a high surrogate
    // in front of an ordinary unit.
    assert_eq!(
        DeviceString::decode(&[0x90, 0x06, 0x00, 0x00, 0xC0, 0xDD]),
        Err(format(FormatReason::StringCharacter))
    );
    assert_eq!(
        DeviceString::decode(&[0x90, 0x06, 0x00, 0x00, 0x3D, 0xD8]),
        Err(format(FormatReason::StringCharacter))
    );
    assert_eq!(
        DeviceString::decode(&[0x90, 0x08, 0x00, 0x00, 0x3D, 0xD8, b'a', 0]),
        Err(format(FormatReason::StringCharacter))
    );
}

#[test]
fn single_byte_forms_refuse_other_characters() {
    assert_eq!(
        string(StringForm::Short, "é").encode(),
        Err(format(FormatReason::StringCharacter))
    );
    assert_eq!(
        string(StringForm::LongAscii, "日本語").encode(),
        Err(format(FormatReason::StringCharacter))
    );
}

use rekordcrate::setting::Setting;
use rekordcrate::util::{ErrorKind, ParseError};

fn field(text: &str, width: usize) -> Vec<u8> {
    let mut bytes = text.as_bytes().to_vec();
    bytes.resize(width, 0);
    bytes
}

fn sample() -> Vec<u8> {
    let mut file = vec![0x60, 0x00, 0x00, 0x00];
    file.extend(field("PIONEER", 32));
    file.extend(field("rekordbox", 32));
    file.extend(field("6.6.1", 32));
    file.extend([0x04, 0x00, 0x00, 0x00]);
    file.extend([0x78, 0x56, 0x34, 0x12]);
    file.extend([0xCD, 0xAB]);
    file.extend([0x00, 0x00]);
    file
}

#[test]
fn setting_file_is_parsed() {
    let file = sample();
    let (rest, setting) = Setting::parse(&file).unwrap();
    assert!(rest.is_empty());
    assert_eq!(setting.len_stringdata, 96);
    assert_eq!(setting.company, "PIONEER");
    assert_eq!(setting.software, "rekordbox");
    assert_eq!(setting.version, "6.6.1");
    assert_eq!(setting.len_unknown1, 4);
    assert_eq!(setting.unknown1, vec![0x78, 0x56, 0x34, 0x12]);
    assert_eq!(setting.checksum, 0xABCD);
    assert_eq!(setting.unknown2, 0);
}

#[test]
fn setting_text_keeps_inner_nul_and_drops_trailing_ones() {
    let mut file = vec![0x09, 0x00, 0x00, 0x00];
    file.extend([b'a', 0, b'b']);
    file.extend([0, 0, 0]);
    file.extend("é".as_bytes());
    file.push(0);
    file.extend([0x00, 0x00, 0x00, 0x00]);
    file.extend([0x01, 0x00, 0x02, 0x00]);
    let (_, setting) = Setting::parse(&file).unwrap();
    assert_eq!(setting.company, "a\0b");
    assert_eq!(setting.software, "");
    assert_eq!(setting.version, "é");
    assert_eq!(setting.unknown1, Vec::<u8>::new());
    assert_eq!(setting.checksum, 1);
    assert_eq!(setting.unknown2, 2);
}

#[test]
fn setting_length_is_divided_by_three_rounding_down() {
    // A length of five gives three fields of one byte each.
    let mut file = vec![0x05, 0x00, 0x00, 0x00];
    file.extend([b'x', b'y', b'z']);
    file.extend([0x00, 0x00, 0x00, 0x00]);
    file.extend([0x00, 0x00, 0x00, 0x00]);
    let (_, setting) = Setting::parse(&file).unwrap();
    assert_eq!(setting.len_stringdata, 5);
    assert_eq!(setting.company, "x");
    assert_eq!(setting.software, "y");
    assert_eq!(setting.version, "z");
}

#[test]
fn setting_file_that_ends_early_is_refused() {
    let file = sample();
    let eof = |remaining: usize| Err(ParseError { remaining, kind: ErrorKind::Eof });
    assert_eq!(Setting::parse(&file[..3]).map(|_| ()), eof(3));
    // In the first, second and third text field.
    assert_eq!(Setting::parse(&file[..4 + 10]).map(|_| ()), eof(10));
    assert_eq!(Setting::parse(&file[..4 + 32 + 10]).map(|_| ()), eof(10));
    assert_eq!(Setting::parse(&file[..4 + 64 + 31]).map(|_| ()), eof(31));
    // In the length of the payload, in the payload, in the trailer.
    assert_eq!(Setting::parse(&file[..100 + 2]).map(|_| ()), eof(2));
    assert_eq!(Setting::parse(&file[..104 + 3]).map(|_| ()), eof(3));
    assert_eq!(Setting::parse(&file[..108 + 1]).map(|_| ()), eof(1));
    assert_eq!(Setting::parse(&file[..110 + 1]).map(|_| ()), eof(1));
}

#[test]
fn setting_file_with_bytes_left_over_is_refused() {
    let mut file = sample();
    file.extend([1, 2, 3]);
    assert_eq!(
        Setting::parse(&file).map(|_| ()),
        Err(ParseError { remaining: 3, kind: ErrorKind::Complete })
    );
}

#[test]
fn setting_text_that_is_not_utf8_is_refused() {
    let mut file = sample();
    file[4 + 32] = 0xFF;
    assert_eq!(
        Setting::parse(&file).map(|_| ()),
        Err(ParseError { remaining: file.len() - 4 - 32, kind: ErrorKind::Utf8 })
    );
    let mut file = sample();
    file[4] = 0xC3;
    file[5] = 0x28;
    assert_eq!(
        Setting::parse(&file).map(|_| ()),
        Err(ParseError { remaining: file.len() - 4, kind: ErrorKind::Utf8 })
    );
}

use rekordcrate::bytes::{push_slice, push_u16, push_u32, push_u8, read_u16, read_u32, read_u8};
use rekordcrate::util::{nom_input_error_with_kind, ColorIndex, ErrorKind, ParseError};

#[test]
fn color_index_from_number() {
    assert_eq!(ColorIndex::from(0), ColorIndex::NoColor);
    assert_eq!(ColorIndex::from(1), ColorIndex::Pink);
    assert_eq!(ColorIndex::from(2), ColorIndex::Red);
    assert_eq!(ColorIndex::from(3), ColorIndex::Orange);
    assert_eq!(ColorIndex::from(4), ColorIndex::Yellow);
    assert_eq!(ColorIndex::from(5), ColorIndex::Green);
    assert_eq!(ColorIndex::from(6), ColorIndex::Aqua);
    assert_eq!(ColorIndex::from(7), ColorIndex::Blue);
    assert_eq!(ColorIndex::from(8), ColorIndex::Purple);
    assert_eq!(ColorIndex::from(9), ColorIndex::Unknown(9));
    assert_eq!(ColorIndex::from(0xFFFF), ColorIndex::Unknown(0xFFFF));
}

#[test]
fn color_index_parse_u8_takes_one_byte() {
    let input = [0x03, 0x07, 0x09];
    let (rest, color) = ColorIndex::parse_u8(&input).unwrap();
    assert_eq!(color, ColorIndex::Orange);
    assert_eq!(rest, &input[1..]);
    let (rest, color) = ColorIndex::parse_u8(&[0x2A]).unwrap();
    assert_eq!(color, ColorIndex::Unknown(0x2A));
    assert!(rest.is_empty());
}

#[test]
fn color_index_parse_u16_is_little_endian() {
    let input = [0x08, 0x00, 0x01];
    let (rest, color) = ColorIndex::parse_u16(&input).unwrap();
    assert_eq!(color, ColorIndex::Purple);
    assert_eq!(rest, &input[2..]);
    let (_, color) = ColorIndex::parse_u16(&[0x01, 0x02]).unwrap();
    assert_eq!(color, ColorIndex::Unknown(0x0201));
}

#[test]
fn color_index_parse_fails_on_short_input() {
    assert_eq!(
        ColorIndex::parse_u8(&[]),
        Err(ParseError { remaining: 0, kind: ErrorKind::Eof })
    );
    assert_eq!(
        ColorIndex::parse_u16(&[0x01]),
        Err(ParseError { remaining: 1, kind: ErrorKind::Eof })
    );
}

#[test]
fn input_error_names_what_is_left() {
    assert_eq!(
        nom_input_error_with_kind(&[1, 2, 3], ErrorKind::TooLarge),
        ParseError { remaining: 3, kind: ErrorKind::TooLarge }
    );
    assert_eq!(
        nom_input_error_with_kind(&[], ErrorKind::Complete),
        ParseError { remaining: 0, kind: ErrorKind::Complete }
    );
}

#[test]
fn integers_are_read_little_endian() {
    let bytes = [0x01, 0x02, 0x03, 0x04, 0x05];
    assert_eq!(read_u8(&bytes, 4), 0x05);
    assert_eq!(read_u16(&bytes, 0), 0x0201);
    assert_eq!(read_u16(&bytes, 3), 0x0504);
    assert_eq!(read_u32(&bytes, 0), 0x04030201);
    assert_eq!(read_u32(&bytes, 1), 0x05040302);
    assert_eq!(read_u32(&[0xFF, 0xFF, 0xFF, 0xFF], 0), u32::MAX);
}

#[test]
fn integers_are_written_little_endian() {
    let mut out = vec![0xAA];
    push_u8(&mut out, 0x01);
    push_u16(&mut out, 0x0302);
    push_u32(&mut out, 0x07060504);
    push_slice(&mut out, &[9, 8, 7, 6], 1, 3);
    assert_eq!(out, vec![0xAA, 0x01, 0x02, 0x03, 0x04, 0x05, 0x06, 0x07, 8, 7]);
    let mut out = Vec::new();
    push_u16(&mut out, u16::MAX);
    push_u32(&mut out, u32::MAX);
    assert_eq!(out, vec![0xFF; 6]);
}

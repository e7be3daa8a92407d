use rekordcrate::pdb::row::album::Album;
use rekordcrate::pdb::row::artist::Artist;
use rekordcrate::pdb::row::artwork::Artwork;
use rekordcrate::pdb::row::color::Color;
use rekordcrate::pdb::row::genre::Genre;
use rekordcrate::pdb::row::history_entry::HistoryEntry;
use rekordcrate::pdb::row::history_playlist::HistoryPlaylist;
use rekordcrate::pdb::row::key::Key;
use rekordcrate::pdb::row::label::Label;
use rekordcrate::pdb::row::playlist_entry::PlaylistEntry;
use rekordcrate::pdb::row::playlist_tree_node::PlaylistTreeNode;
use rekordcrate::pdb::row::track::{Track, TRACK_FILE_PATH, TRACK_ISRC, TRACK_TITLE};
use rekordcrate::pdb::row::{PageType, Row};
use rekordcrate::pdb::string::{DeviceString, StringForm};
use rekordcrate::pdb::{FormatReason, PdbError};
use rekordcrate::util::ColorIndex;

fn format(reason: FormatReason) -> PdbError {
    PdbError::Format { reason }
}

fn short(text: &str) -> DeviceString {
    DeviceString { form: StringForm::Short, text: text.to_string() }
}

fn le32(v: u32) -> [u8; 4] {
    v.to_le_bytes()
}

fn track_bytes(strings: &[Vec<u8>]) -> Vec<u8> {
    let mut row: Vec<u8> = Vec::new();
    row.extend([0x24, 0x00]); // subtype
    row.extend([0x20, 0x00]); // index_shift
    row.extend(le32(0x000C_0700)); // bitmask
    row.extend(le32(44100)); // sample_rate
    row.extend(le32(11)); // composer_id
    row.extend(le32(5_000_000)); // file_size
    row.extend(le32(0xAABBCCDD)); // unknown2
    row.extend([0x01, 0x02]); // unknown3
    row.extend([0x03, 0x04]); // unknown4
    row.extend(le32(12)); // artwork_id
    row.extend(le32(13)); // key_id
    row.extend(le32(14)); // orig_artist_id
    row.extend(le32(15)); // label_id
    row.extend(le32(16)); // remixer_id
    row.extend(le32(320)); // bitrate
    row.extend(le32(7)); // track_number
    row.extend(le32(12800)); // tempo
    row.extend(le32(17)); // genre_id
    row.extend(le32(18)); // album_id
    row.extend(le32(19)); // artist_id
    row.extend(le32(20)); // id
    row.extend([0x01, 0x00]); // disc_number
    row.extend([0x09, 0x00]); // play_count
    row.extend([0xE7, 0x07]); // year
    row.extend([0x10, 0x00]); // sample_depth
    row.extend([0x2C, 0x01]); // duration
    row.extend([0x29, 0x00]); // unknown5
    row.push(0x04); // color_id
    row.push(0x05); // rating
    row.extend([0x01, 0x00]); // unknown6
    row.extend([0x03, 0x00]); // unknown7
    assert_eq!(row.len(), 94);
    let mut at: usize = 136;
    for s in strings {
        row.extend((at as u16).to_le_bytes());
        at += s.len();
    }
    assert_eq!(row.len(), 136);
    for s in strings {
        row.extend(s);
    }
    row
}

fn track_strings() -> Vec<Vec<u8>> {
    let mut strings = vec![vec![0x03u8]; 21];
    strings[TRACK_ISRC] = vec![0x0F, b'U', b'S', b'A', b'B', b'C', b'1'];
    strings[TRACK_TITLE] = vec![0x90, 0x08, 0x00, 0x00, 0xE5, 0x65, 0x2C, 0x67];
    strings[TRACK_FILE_PATH] = vec![0x40, 0x09, 0x00, 0x00, b'/', b'a', b'.', b'm', b'p'];
    strings
}

#[test]
fn genre_row_round_trips() {
    let bytes = [0x2A, 0, 0, 0, 0x09, b'f', b'o', b'o', 0xEE];
    let (row, n) = Genre::decode(&bytes).unwrap();
    assert_eq!(row, Genre { id: 42, name: short("foo") });
    assert_eq!(n, 8);
    assert_eq!(row.encode().unwrap(), bytes[..8].to_vec());
}

#[test]
fn label_key_artwork_and_history_rows_round_trip() {
    let bytes = [0x01, 0x02, 0, 0, 0x05, b'L'];
    let (row, n) = Label::decode(&bytes).unwrap();
    assert_eq!(row, Label { id: 0x0201, name: short("L") });
    assert_eq!((n, row.encode().unwrap()), (6, bytes.to_vec()));

    let bytes = [0x07, 0, 0, 0, 0x08, 0, 0, 0, 0x07, b'A', b'm'];
    let (row, n) = Key::decode(&bytes).unwrap();
    assert_eq!(row, Key { id: 7, id2: 8, name: short("Am") });
    assert_eq!((n, row.encode().unwrap()), (11, bytes.to_vec()));

    let bytes = [0x03, 0, 0, 0, 0x09, b'/', b'a', b'b'];
    let (row, n) = Artwork::decode(&bytes).unwrap();
    assert_eq!(row, Artwork { id: 3, path: short("/ab") });
    assert_eq!((n, row.encode().unwrap()), (8, bytes.to_vec()));

    let bytes = [0x04, 0, 0, 0, 0x03];
    let (row, n) = HistoryPlaylist::decode(&bytes).unwrap();
    assert_eq!(row, HistoryPlaylist { id: 4, name: short("") });
    assert_eq!((n, row.encode().unwrap()), (5, bytes.to_vec()));
}

#[test]
fn entry_rows_round_trip() {
    let bytes = [1, 0, 0, 0, 2, 0, 0, 0, 3, 0, 0, 0, 0xFF];
    let (row, n) = PlaylistEntry::decode(&bytes).unwrap();
    assert_eq!(row, PlaylistEntry { entry_index: 1, track_id: 2, playlist_id: 3 });
    assert_eq!((n, row.encode().unwrap()), (12, bytes[..12].to_vec()));
    let (row, n) = HistoryEntry::decode(&bytes).unwrap();
    assert_eq!(row, HistoryEntry { track_id: 1, playlist_id: 2, entry_index: 3 });
    assert_eq!((n, row.encode().unwrap()), (12, bytes[..12].to_vec()));
    assert_eq!(PlaylistEntry::decode(&bytes[..11]), Err(format(FormatReason::Truncated)));
    assert_eq!(HistoryEntry::decode(&bytes[..11]), Err(format(FormatReason::Truncated)));
}

#[test]
fn playlist_tree_node_row_round_trips() {
    let mut bytes = Vec::new();
    bytes.extend(le32(1));
    bytes.extend(le32(0xDEADBEEF));
    bytes.extend(le32(2));
    bytes.extend(le32(3));
    bytes.extend(le32(1));
    bytes.extend([0x09, b'M', b'i', b'x']);
    let (row, n) = PlaylistTreeNode::decode(&bytes).unwrap();
    assert_eq!(
        row,
        PlaylistTreeNode {
            parent_id: 1,
            unknown: 0xDEADBEEF,
            sort_index: 2,
            id: 3,
            node_is_folder: 1,
            name: short("Mix"),
        }
    );
    assert_eq!(n, 24);
    assert!(row.is_folder());
    assert_eq!(row.encode().unwrap(), bytes);
    bytes[16] = 0;
    let (row, _) = PlaylistTreeNode::decode(&bytes).unwrap();
    assert!(!row.is_folder());
    assert_eq!(PlaylistTreeNode::decode(&bytes[..19]), Err(format(FormatReason::Truncated)));
    assert_eq!(PlaylistTreeNode::decode(&bytes[..20]), Err(format(FormatReason::Truncated)));
    assert_eq!(PlaylistTreeNode::decode(&bytes[..22]), Err(format(FormatReason::StringLength)));
}

#[test]
fn color_row_round_trips() {
    let bytes = [1, 2, 3, 4, 5, 0x02, 0x07, 0x08, 0x09, b'R', b'e', b'd'];
    let (row, n) = Color::decode(&bytes).unwrap();
    assert_eq!(
        row,
        Color {
            unknown1: 0x04030201,
            unknown2: 5,
            color_id: 2,
            unknown3: 0x0807,
            name: short("Red"),
        }
    );
    assert_eq!(row.color(), ColorIndex::Red);
    assert_eq!((n, row.encode().unwrap()), (12, bytes.to_vec()));
}

#[test]
fn album_row_round_trips() {
    let mut bytes = vec![0x80, 0x00, 0x40, 0x00];
    bytes.extend(le32(0x11223344));
    bytes.extend(le32(5));
    bytes.extend(le32(6));
    bytes.extend(le32(0x55667788));
    bytes.push(0x03);
    bytes.push(22);
    bytes.extend([0x07, b'L', b'P']);
    let (row, n) = Album::decode(&bytes).unwrap();
    assert_eq!(
        row,
        Album {
            unknown1: 0x80,
            index_shift: 0x40,
            unknown2: 0x11223344,
            artist_id: 5,
            id: 6,
            unknown3: 0x55667788,
            unknown4: 3,
            name: short("LP"),
        }
    );
    assert_eq!((n, row.encode().unwrap()), (25, bytes.clone()));
    bytes[21] = 23;
    assert_eq!(Album::decode(&bytes), Err(format(FormatReason::StringOffset)));
    assert_eq!(Album::decode(&bytes[..21]), Err(format(FormatReason::Truncated)));
}

#[test]
fn artist_row_with_near_offset_round_trips() {
    let mut bytes = vec![0x60, 0x00, 0x20, 0x00];
    bytes.extend(le32(9));
    bytes.push(0x03);
    bytes.push(10);
    bytes.extend([0x05, b'X']);
    let (row, n) = Artist::decode(&bytes).unwrap();
    assert_eq!(
        row,
        Artist {
            subtype: 0x60,
            index_shift: 0x20,
            id: 9,
            unknown1: 3,
            ofs_name_near: 10,
            name: short("X"),
        }
    );
    assert_eq!((n, row.encode().unwrap()), (12, bytes.clone()));
    bytes[9] = 12;
    assert_eq!(Artist::decode(&bytes), Err(format(FormatReason::StringOffset)));
    let mut wrong = row.clone();
    wrong.ofs_name_near = 11;
    assert_eq!(wrong.encode(), Err(format(FormatReason::StringOffset)));
}

#[test]
fn artist_row_with_far_offset_round_trips() {
    let mut bytes = vec![0x64, 0x00, 0x20, 0x00];
    bytes.extend(le32(9));
    bytes.push(0x03);
    bytes.push(0x77);
    bytes.extend([12, 0]);
    bytes.extend([0x05, b'X']);
    let (row, n) = Artist::decode(&bytes).unwrap();
    assert_eq!(row.subtype, 0x64);
    assert_eq!(row.ofs_name_near, 0x77);
    assert_eq!(row.name, short("X"));
    assert_eq!((n, row.encode().unwrap()), (14, bytes.clone()));
    bytes[10] = 13;
    assert_eq!(Artist::decode(&bytes), Err(format(FormatReason::StringOffset)));
    assert_eq!(Artist::decode(&bytes[..11]), Err(format(FormatReason::Truncated)));
    assert_eq!(Artist::decode(&bytes[..9]), Err(format(FormatReason::Truncated)));
}

#[test]
fn track_row_round_trips() {
    let mut bytes = track_bytes(&track_strings());
    let len = bytes.len();
    bytes.extend([0xEE, 0xEE]);
    let (row, n) = Track::decode(&bytes).unwrap();
    assert_eq!(n, len);
    assert_eq!(row.subtype, 0x24);
    assert_eq!(row.index_shift, 0x20);
    assert_eq!(row.bitmask, 0x000C_0700);
    assert_eq!(row.sample_rate, 44100);
    assert_eq!(row.composer_id, 11);
    assert_eq!(row.file_size, 5_000_000);
    assert_eq!(row.unknown2, 0xAABBCCDD);
    assert_eq!(row.unknown3, 0x0201);
    assert_eq!(row.unknown4, 0x0403);
    assert_eq!(row.artwork_id, 12);
    assert_eq!(row.key_id, 13);
    assert_eq!(row.orig_artist_id, 14);
    assert_eq!(row.label_id, 15);
    assert_eq!(row.remixer_id, 16);
    assert_eq!(row.bitrate, 320);
    assert_eq!(row.track_number, 7);
    assert_eq!(row.tempo, 12800);
    assert_eq!(row.genre_id, 17);
    assert_eq!(row.album_id, 18);
    assert_eq!(row.artist_id, 19);
    assert_eq!(row.id, 20);
    assert_eq!(row.disc_number, 1);
    assert_eq!(row.play_count, 9);
    assert_eq!(row.year, 2023);
    assert_eq!(row.sample_depth, 16);
    assert_eq!(row.duration, 300);
    assert_eq!(row.unknown5, 0x29);
    assert_eq!(row.color_id, 4);
    assert_eq!(row.color(), ColorIndex::Yellow);
    assert_eq!(row.rating, 5);
    assert_eq!(row.unknown6, 1);
    assert_eq!(row.unknown7, 3);
    assert_eq!(row.strings.len(), 21);
    assert_eq!(row.string(TRACK_ISRC), Some(&short("USABC1")));
    assert_eq!(row.string(TRACK_TITLE).unwrap().text, "日本");
    assert_eq!(row.string(TRACK_TITLE).unwrap().form, StringForm::LongWide);
    assert_eq!(row.string(TRACK_FILE_PATH).unwrap().text, "/a.mp");
    assert_eq!(row.string(1), Some(&short("")));
    assert_eq!(row.string(21), None);
    assert_eq!(row.encode().unwrap(), bytes[..len].to_vec());
}

#[test]
fn track_row_with_misplaced_string_is_refused() {
    let mut bytes = track_bytes(&track_strings());
    // The second string is said to start one byte late.
    bytes[96] += 1;
    assert_eq!(Track::decode(&bytes), Err(format(FormatReason::StringOffset)));
    let bytes = track_bytes(&track_strings());
    assert_eq!(Track::decode(&bytes[..135]), Err(format(FormatReason::Truncated)));
    assert_eq!(
        Track::decode(&bytes[..bytes.len() - 1]),
        Err(format(FormatReason::StringLength))
    );
    assert_eq!(Track::decode(&bytes[..136]), Err(format(FormatReason::Truncated)));
}

#[test]
fn track_without_all_strings_cannot_be_written() {
    let bytes = track_bytes(&track_strings());
    let (mut row, _) = Track::decode(&bytes).unwrap();
    row.strings.pop();
    assert_eq!(row.encode(), Err(format(FormatReason::Shape)));
    row.strings.push(short("é"));
    assert_eq!(row.encode(), Err(format(FormatReason::StringCharacter)));
}

#[test]
fn track_that_is_too_long_cannot_be_written() {
    let bytes = track_bytes(&track_strings());
    let (mut row, _) = Track::decode(&bytes).unwrap();
    let long = DeviceString { form: StringForm::LongAscii, text: "a".repeat(65000) };
    row.strings[0] = long.clone();
    row.strings[1] = long;
    assert_eq!(row.encode(), Err(format(FormatReason::Overflow)));
}

#[test]
fn rows_are_read_by_the_kind_of_their_table() {
    let bytes = [1, 0, 0, 0, 2, 0, 0, 0, 3, 0, 0, 0];
    let (row, n) = Row::decode(&bytes, PageType::PlaylistEntries).unwrap();
    assert_eq!(
        row,
        Row::PlaylistEntry(PlaylistEntry { entry_index: 1, track_id: 2, playlist_id: 3 })
    );
    assert_eq!(n, 12);
    assert_eq!(row.page_type(), PageType::PlaylistEntries);
    let (row, n) = Row::decode(&bytes, PageType::HistoryEntries).unwrap();
    assert_eq!(
        row,
        Row::HistoryEntry(HistoryEntry { track_id: 1, playlist_id: 2, entry_index: 3 })
    );
    assert_eq!(n, 12);
    assert_eq!(row.encode().unwrap(), bytes.to_vec());
    // The same bytes as a genre: an id and a string with the tag 2.
    assert_eq!(Row::decode(&bytes, PageType::Genres), Err(format(FormatReason::StringTag)));
    let bytes = [0x2A, 0, 0, 0, 0x09, b'f', b'o', b'o'];
    for kind in [
        PageType::Genres,
        PageType::Labels,
        PageType::Artwork,
        PageType::HistoryPlaylists,
    ] {
        let (row, n) = Row::decode(&bytes, kind).unwrap();
        assert_eq!(n, 8);
        assert_eq!(row.page_type(), kind);
        assert_eq!(row.encode().unwrap(), bytes.to_vec());
    }
    let (row, _) = Row::decode(&track_bytes(&track_strings()), PageType::Tracks).unwrap();
    assert!(matches!(row, Row::Track(_)));
}

#[test]
fn rows_of_unknown_kind_cannot_be_read() {
    let bytes = [0u8; 64];
    assert_eq!(Row::decode(&bytes, PageType::Unknown(9)), Err(PdbError::UnsupportedVariant));
    assert_eq!(Row::decode(&bytes, PageType::Unknown(16)), Err(PdbError::UnsupportedVariant));
    assert_eq!(Row::decode(&[], PageType::Unknown(0)), Err(PdbError::UnsupportedVariant));
}

#[test]
fn page_types_have_their_numbers() {
    let known = [
        (0, PageType::Tracks),
        (1, PageType::Genres),
        (2, PageType::Artists),
        (3, PageType::Albums),
        (4, PageType::Labels),
        (5, PageType::Keys),
        (6, PageType::Colors),
        (7, PageType::PlaylistTree),
        (8, PageType::PlaylistEntries),
        (11, PageType::HistoryPlaylists),
        (12, PageType::HistoryEntries),
        (13, PageType::Artwork),
    ];
    for (raw, kind) in known {
        assert_eq!(PageType::from_raw(raw), kind);
        assert_eq!(kind.raw(), raw);
    }
    for raw in [9, 10, 14, 15, 16, 19, 0xFFFF_FFFF] {
        assert_eq!(PageType::from_raw(raw), PageType::Unknown(raw));
        assert_eq!(PageType::Unknown(raw).raw(), raw);
    }
}

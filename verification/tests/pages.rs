use rekordcrate::pdb::page::{has_no_stray_bits, is_bit_set, Page, RowGroup, Slot};
use rekordcrate::pdb::row::genre::Genre;
use rekordcrate::pdb::row::label::Label;
use rekordcrate::pdb::row::{PageType, Row};
use rekordcrate::pdb::string::{DeviceString, StringForm};
use rekordcrate::pdb::{FormatReason, PdbError};

fn format(reason: FormatReason) -> PdbError {
    PdbError::Format { reason }
}

fn genre(id: u32, name: &str) -> Row {
    Row::Genre(Genre {
        id,
        name: DeviceString { form: StringForm::Short, text: name.to_string() },
    })
}

fn genre_bytes(id: u32, name: &str) -> Vec<u8> {
    let mut bytes = id.to_le_bytes().to_vec();
    bytes.push((((name.len() + 1) << 1) | 1) as u8);
    bytes.extend(name.as_bytes());
    bytes
}

/// A page of genres. Every slot is a presence bit, a heap offset and the
/// bytes of the row; what no row covers is filled with `0xEE`.
fn page(page_size: usize, slots: &[(bool, u16, Vec<u8>)]) -> Vec<u8> {
    let n = slots.len();
    let mut p = vec![0xEEu8; page_size];
    p[0..4].copy_from_slice(&[0, 0, 0, 0]);
    p[4..8].copy_from_slice(&5u32.to_le_bytes());
    p[8..12].copy_from_slice(&1u32.to_le_bytes());
    p[12..16].copy_from_slice(&6u32.to_le_bytes());
    p[16..20].copy_from_slice(&0x01020304u32.to_le_bytes());
    p[20..24].copy_from_slice(&0x05060708u32.to_le_bytes());
    p[24] = if n < 256 { n as u8 } else { 0xFF };
    p[25] = 0x09;
    p[26] = 0x0A;
    p[27] = 0x24;
    p[28..30].copy_from_slice(&0x0B0Cu16.to_le_bytes());
    p[30..32].copy_from_slice(&0x0D0Eu16.to_le_bytes());
    p[32..34].copy_from_slice(&0x0F10u16.to_le_bytes());
    p[34..36].copy_from_slice(&(if n < 256 { 0 } else { n as u16 }).to_le_bytes());
    p[36..38].copy_from_slice(&0x1112u16.to_le_bytes());
    p[38..40].copy_from_slice(&0x1314u16.to_le_bytes());
    let groups = if n == 0 { 1 } else { (n - 1) / 16 + 1 };
    for g in 0..groups {
        let end = page_size - 36 * g;
        let mut flags: u16 = 0;
        for i in 0..16 {
            let k = 16 * g + i;
            if k >= n {
                break;
            }
            let (present, offset, bytes) = &slots[k];
            if *present {
                flags |= 1 << i;
                let at = 40 + *offset as usize;
                p[at..at + bytes.len()].copy_from_slice(bytes);
            }
            let at = end - 4 - 2 * (i + 1);
            p[at..at + 2].copy_from_slice(&offset.to_le_bytes());
        }
        p[end - 4..end - 2].copy_from_slice(&flags.to_le_bytes());
        p[end - 2..end].copy_from_slice(&(0x2000 + g as u16).to_le_bytes());
    }
    p
}

fn slots_of(page: &Page) -> Vec<&Slot> {
    page.row_groups.iter().flat_map(|g| g.slots.iter()).collect()
}

#[test]
fn presence_bitmask_selects_the_rows() {
    let bytes = page(
        96,
        &[
            (true, 0, genre_bytes(1, "A")),
            (false, 6, vec![]),
            (true, 12, genre_bytes(3, "C")),
        ],
    );
    let page = Page::decode(&bytes, PageType::Genres).unwrap();
    assert_eq!(page.row_groups.len(), 1);
    let group = &page.row_groups[0];
    assert_eq!(group.presence, 0b0101);
    assert_eq!(group.unknown, 0x2000);
    assert_eq!(group.slots.len(), 3);
    assert_eq!(group.slots[0], Slot::Present { gap: vec![], row: genre(1, "A") });
    assert_eq!(group.slots[1], Slot::Absent { offset: 6 });
    assert_eq!(group.slots[2], Slot::Present { gap: vec![0xEE; 6], row: genre(3, "C") });
    assert_eq!(group.present_rows(), vec![&genre(1, "A"), &genre(3, "C")]);
    assert_eq!(page.encode().unwrap(), bytes);
}

#[test]
fn page_header_fields_are_read() {
    let bytes = page(96, &[(true, 0, genre_bytes(1, "A"))]);
    let page = Page::decode(&bytes, PageType::Genres).unwrap();
    assert_eq!(page.page_index, 5);
    assert_eq!(page.page_type, PageType::Genres);
    assert_eq!(page.next_page, 6);
    assert_eq!(page.unknown1, 0x01020304);
    assert_eq!(page.unknown2, 0x05060708);
    assert_eq!(page.num_rows_small, 1);
    assert_eq!(page.unknown3, 0x09);
    assert_eq!(page.unknown4, 0x0A);
    assert_eq!(page.page_flags, 0x24);
    assert_eq!(page.free_size, 0x0B0C);
    assert_eq!(page.used_size, 0x0D0E);
    assert_eq!(page.unknown5, 0x0F10);
    assert_eq!(page.num_rows_large, 0);
    assert_eq!(page.unknown6, 0x1112);
    assert_eq!(page.unknown7, 0x1314);
    assert_eq!(page.row_count(), 1);
    // The heap has 96 - 40 - 6 bytes, of which the row takes six.
    assert_eq!(page.free, vec![0xEE; 44]);
}

#[test]
fn page_without_rows_has_one_empty_group() {
    let bytes = page(64, &[]);
    let page = Page::decode(&bytes, PageType::Genres).unwrap();
    assert_eq!(page.row_count(), 0);
    assert_eq!(page.row_groups.len(), 1);
    assert_eq!(page.row_groups[0].slots.len(), 0);
    assert_eq!(page.row_groups[0].presence, 0);
    assert_eq!(page.row_groups[0].present_rows(), Vec::<&Row>::new());
    assert_eq!(page.free, vec![0xEE; 20]);
    assert_eq!(page.encode().unwrap(), bytes);
}

#[test]
fn last_group_may_be_partly_filled() {
    let mut slots = Vec::new();
    for k in 0..17u32 {
        slots.push((k != 4, (6 * k) as u16, genre_bytes(k, "x")));
    }
    let bytes = page(256, &slots);
    let page = Page::decode(&bytes, PageType::Genres).unwrap();
    assert_eq!(page.row_count(), 17);
    assert_eq!(page.row_groups.len(), 2);
    assert_eq!(page.row_groups[0].slots.len(), 16);
    assert_eq!(page.row_groups[0].presence, 0xFFEF);
    assert_eq!(page.row_groups[0].present_rows().len(), 15);
    assert_eq!(page.row_groups[1].slots.len(), 1);
    assert_eq!(page.row_groups[1].presence, 0x0001);
    assert_eq!(page.row_groups[1].unknown, 0x2001);
    assert_eq!(page.row_groups[1].present_rows(), vec![&genre(16, "x")]);
    assert_eq!(slots_of(&page)[4], &Slot::Absent { offset: 24 });
    assert_eq!(slots_of(&page)[5], &Slot::Present { gap: vec![0xEE; 6], row: genre(5, "x") });
    assert_eq!(page.encode().unwrap(), bytes);
}

#[test]
fn sixteen_rows_fill_one_group() {
    let mut slots = Vec::new();
    for k in 0..16u32 {
        slots.push((true, (6 * k) as u16, genre_bytes(k, "x")));
    }
    let bytes = page(256, &slots);
    let page = Page::decode(&bytes, PageType::Genres).unwrap();
    assert_eq!(page.row_groups.len(), 1);
    assert_eq!(page.row_groups[0].presence, 0xFFFF);
    assert_eq!(page.row_groups[0].present_rows().len(), 16);
    assert_eq!(page.encode().unwrap(), bytes);
}

#[test]
fn large_row_counter_is_used_where_it_is_larger() {
    let mut slots = Vec::new();
    for k in 0..300u32 {
        slots.push((k % 7 != 0, (6 * k) as u16, genre_bytes(k, "x")));
    }
    let bytes = page(4096, &slots);
    let page = Page::decode(&bytes, PageType::Genres).unwrap();
    assert_eq!(page.num_rows_small, 0xFF);
    assert_eq!(page.num_rows_large, 300);
    assert_eq!(page.row_count(), 300);
    assert_eq!(page.row_groups.len(), 19);
    assert_eq!(page.row_groups[18].slots.len(), 12);
    let present: usize = page.row_groups.iter().map(|g| g.present_rows().len()).sum();
    assert_eq!(present, 300 - 43);
    assert_eq!(page.encode().unwrap(), bytes);
    // The value 0x1fff says that the large counter is not in use.
    let mut bytes = self::page(96, &[(true, 0, genre_bytes(1, "A"))]);
    bytes[34..36].copy_from_slice(&0x1FFFu16.to_le_bytes());
    let page = Page::decode(&bytes, PageType::Genres).unwrap();
    assert_eq!(page.row_count(), 1);
    assert_eq!(page.encode().unwrap(), bytes);
}

#[test]
fn bits_without_an_entry_are_refused() {
    let mut bytes = page(96, &[(true, 0, genre_bytes(1, "A"))]);
    bytes[92] = 0x01;
    bytes[93] = 0x80;
    assert_eq!(Page::decode(&bytes, PageType::Genres), Err(format(FormatReason::Presence)));
    bytes[93] = 0x00;
    bytes[92] = 0x03;
    assert_eq!(Page::decode(&bytes, PageType::Genres), Err(format(FormatReason::Presence)));
    bytes[92] = 0x01;
    let page = Page::decode(&bytes, PageType::Genres).unwrap();
    assert_eq!(page.row_groups[0].presence, 0x0001);
    // A page without rows has no bit to set.
    let mut bytes = self::page(64, &[]);
    bytes[60] = 0x01;
    assert_eq!(Page::decode(&bytes, PageType::Genres), Err(format(FormatReason::Presence)));
    // Written pages have none either.
    let mut wrong = page.clone();
    wrong.row_groups[0].presence = 0x8001;
    assert_eq!(wrong.encode(), Err(format(FormatReason::Shape)));
}

#[test]
fn stray_bits_are_found() {
    assert!(has_no_stray_bits(0b0101, 3));
    assert!(!has_no_stray_bits(0b0101, 2));
    assert!(has_no_stray_bits(0xFFFF, 16));
    assert!(!has_no_stray_bits(0x8000, 15));
    assert!(has_no_stray_bits(0, 0));
    assert!(!has_no_stray_bits(1, 0));
}

#[test]
fn short_page_is_refused() {
    let bytes = page(64, &[]);
    assert_eq!(Page::decode(&bytes[..39], PageType::Genres), Err(format(FormatReason::Truncated)));
    assert_eq!(Page::decode(&[], PageType::Genres), Err(format(FormatReason::Truncated)));
    // A header alone has no room for the index of the one empty group.
    assert_eq!(Page::decode(&bytes[..43], PageType::Genres), Err(format(FormatReason::RowIndex)));
    let mut smallest = bytes[..44].to_vec();
    smallest[40..44].copy_from_slice(&[0, 0, 0x34, 0x12]);
    let page = Page::decode(&smallest, PageType::Genres).unwrap();
    assert_eq!(page.row_groups[0].unknown, 0x1234);
    assert_eq!(page.encode().unwrap(), smallest);
}

#[test]
fn page_with_wrong_magic_is_refused() {
    let mut bytes = page(64, &[]);
    bytes[2] = 1;
    assert_eq!(Page::decode(&bytes, PageType::Genres), Err(format(FormatReason::Magic)));
}

#[test]
fn page_of_another_table_is_refused() {
    let bytes = page(64, &[]);
    assert_eq!(Page::decode(&bytes, PageType::Labels), Err(format(FormatReason::PageType)));
    assert_eq!(Page::decode(&bytes, PageType::Unknown(2)), Err(format(FormatReason::PageType)));
    // The number decides, not the name.
    assert!(Page::decode(&bytes, PageType::Unknown(1)).is_ok());
}

#[test]
fn page_with_rows_of_unknown_kind_is_refused() {
    let mut bytes = page(96, &[(true, 0, genre_bytes(1, "A"))]);
    bytes[8] = 9;
    assert_eq!(Page::decode(&bytes, PageType::Unknown(9)), Err(PdbError::UnsupportedVariant));
    // Without rows there is nothing to read.
    let mut bytes = page(64, &[]);
    bytes[8] = 9;
    let page = Page::decode(&bytes, PageType::Unknown(9)).unwrap();
    assert_eq!(page.encode().unwrap(), bytes);
}

#[test]
fn row_index_that_does_not_fit_is_refused() {
    let mut bytes = page(64, &[]);
    // Twenty rows need 2 * 20 + 4 * 2 bytes of index.
    bytes[24] = 20;
    assert_eq!(Page::decode(&bytes, PageType::Genres), Err(format(FormatReason::RowIndex)));
}

#[test]
fn rows_that_overlap_or_leave_the_heap_are_refused() {
    let bytes = page(96, &[(true, 0, genre_bytes(1, "A")), (true, 5, genre_bytes(2, "B"))]);
    assert_eq!(Page::decode(&bytes, PageType::Genres), Err(format(FormatReason::RowOffset)));
    let bytes = page(96, &[(true, 6, genre_bytes(1, "A")), (true, 0, genre_bytes(2, "B"))]);
    assert_eq!(Page::decode(&bytes, PageType::Genres), Err(format(FormatReason::RowOffset)));
    // The heap of this page has 96 - 40 - 6 = 50 bytes.
    let mut bytes = page(96, &[(true, 0, genre_bytes(1, "A"))]);
    bytes[90..92].copy_from_slice(&51u16.to_le_bytes());
    assert_eq!(Page::decode(&bytes, PageType::Genres), Err(format(FormatReason::RowOffset)));
    bytes[90..92].copy_from_slice(&50u16.to_le_bytes());
    assert_eq!(Page::decode(&bytes, PageType::Genres), Err(format(FormatReason::Truncated)));
}

#[test]
fn row_that_reaches_into_the_index_is_refused() {
    // The string of the row says that it has nine bytes, the heap has five
    // left for it.
    let mut row = genre_bytes(1, "A");
    row[4] = (9 << 1) | 1;
    let mut bytes = page(96, &[(true, 41, vec![])]);
    bytes[40 + 41..40 + 41 + 6].copy_from_slice(&row);
    assert_eq!(Page::decode(&bytes, PageType::Genres), Err(format(FormatReason::StringLength)));
}

#[test]
fn page_cut_in_its_row_index_is_refused() {
    let whole = page(
        96,
        &[(true, 0, genre_bytes(1, "A")), (true, 6, genre_bytes(2, "B"))],
    );
    assert!(Page::decode(&whole, PageType::Genres).is_ok());
    // Two rows need eight bytes of index behind the header.
    for len in 40..48 {
        assert_eq!(
            Page::decode(&whole[..len], PageType::Genres),
            Err(format(FormatReason::RowIndex)),
            "length {}",
            len
        );
    }
    // Cut behind the first row, the index is read from the bytes of the
    // second row, which have bits set for rows that the page has not.
    assert_eq!(
        Page::decode(&whole[..49], PageType::Genres),
        Err(format(FormatReason::Presence))
    );
}

#[test]
fn page_of_wrong_shape_cannot_be_written() {
    let bytes = page(96, &[(true, 0, genre_bytes(1, "A")), (false, 9, vec![])]);
    let page = Page::decode(&bytes, PageType::Genres).unwrap();

    let mut wrong = page.clone();
    wrong.num_rows_small = 3;
    assert_eq!(wrong.encode(), Err(format(FormatReason::Shape)));

    let mut wrong = page.clone();
    wrong.row_groups.push(RowGroup { slots: vec![], presence: 0, unknown: 0 });
    assert_eq!(wrong.encode(), Err(format(FormatReason::Shape)));

    let mut wrong = page.clone();
    wrong.row_groups[0].presence = 0b11;
    assert_eq!(wrong.encode(), Err(format(FormatReason::Shape)));

    let mut wrong = page.clone();
    wrong.row_groups[0].slots[1] = Slot::Present { gap: vec![], row: genre(2, "B") };
    assert_eq!(wrong.encode(), Err(format(FormatReason::Shape)));

    let mut wrong = page.clone();
    wrong.num_rows_small = 17;
    assert_eq!(wrong.encode(), Err(format(FormatReason::Shape)));

    // A row of another kind than the page.
    let label = Row::Label(Label {
        id: 1,
        name: DeviceString { form: StringForm::Short, text: "A".to_string() },
    });
    let mut wrong = page.clone();
    wrong.row_groups[0].slots[0] = Slot::Present { gap: vec![], row: label };
    assert_eq!(wrong.encode(), Err(format(FormatReason::Shape)));
    let mut wrong = page.clone();
    wrong.page_type = PageType::Labels;
    assert_eq!(wrong.encode(), Err(format(FormatReason::Shape)));
}

#[test]
fn page_with_rows_that_cannot_be_written_is_refused() {
    let bytes = page(96, &[(true, 0, genre_bytes(1, "A")), (true, 6, genre_bytes(2, "B"))]);
    let page = Page::decode(&bytes, PageType::Genres).unwrap();

    let mut wrong = page.clone();
    wrong.row_groups[0].slots[1] = Slot::Present { gap: vec![], row: genre(2, "é") };
    assert_eq!(wrong.encode(), Err(format(FormatReason::StringCharacter)));

    let mut wrong = page.clone();
    wrong.row_groups[0].slots[1] = Slot::Present { gap: vec![0; 65530], row: genre(2, "B") };
    assert_eq!(wrong.encode(), Err(format(FormatReason::Overflow)));

    let mut fits = page.clone();
    fits.row_groups[0].slots[1] = Slot::Present { gap: vec![0; 65529], row: genre(2, "B") };
    let written = fits.encode().unwrap();
    assert_eq!(written.len(), 40 + 6 + 65529 + 6 + page.free.len() + 8);
    assert_eq!(&written[written.len() - 8..written.len() - 4], &[0xFF, 0xFF, 0x00, 0x00]);
}

#[test]
fn written_page_has_the_rows_behind_each_other() {
    let page = Page {
        page_index: 2,
        page_type: PageType::Genres,
        next_page: 3,
        unknown1: 0,
        unknown2: 0,
        num_rows_small: 3,
        unknown3: 0,
        unknown4: 0,
        page_flags: 0x24,
        free_size: 4,
        used_size: 12,
        unknown5: 0,
        num_rows_large: 0,
        unknown6: 0,
        unknown7: 0,
        row_groups: vec![RowGroup {
            slots: vec![
                Slot::Present { gap: vec![], row: genre(1, "A") },
                Slot::Absent { offset: 0x0102 },
                Slot::Present { gap: vec![0xAA, 0xBB], row: genre(2, "B") },
            ],
            presence: 0b101,
            unknown: 0x0304,
        }],
        free: vec![0xCC; 4],
    };
    let mut expected = vec![
        0, 0, 0, 0, 2, 0, 0, 0, 1, 0, 0, 0, 3, 0, 0, 0, 0, 0, 0, 0, 0, 0, 0, 0, 3, 0, 0, 0x24, 4, 0,
        12, 0, 0, 0, 0, 0, 0, 0, 0, 0,
    ];
    expected.extend([1, 0, 0, 0, 5, b'A']);
    expected.extend([0xAA, 0xBB]);
    expected.extend([2, 0, 0, 0, 5, b'B']);
    expected.extend([0xCC; 4]);
    expected.extend([8, 0, 0x02, 0x01, 0, 0]);
    expected.extend([0b101, 0, 0x04, 0x03]);
    let written = page.encode().unwrap();
    assert_eq!(written, expected);
    assert_eq!(Page::decode(&written, PageType::Genres).unwrap(), page);
}

#[test]
fn bits_are_counted_from_the_least_significant() {
    assert!(is_bit_set(0b0101, 0));
    assert!(!is_bit_set(0b0101, 1));
    assert!(is_bit_set(0b0101, 2));
    assert!(!is_bit_set(0b0101, 3));
    assert!(is_bit_set(0x8000, 15));
    assert!(!is_bit_set(0x7FFF, 15));
}

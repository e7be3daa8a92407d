use rekordcrate::pdb::database::{Database, PageEntry};
use rekordcrate::pdb::header::{Header, Table};
use rekordcrate::pdb::page::Page;
use rekordcrate::pdb::row::{PageType, Row};
use rekordcrate::pdb::{FormatReason, PdbError};

const PAGE: usize = 96;

fn format(reason: FormatReason) -> PdbError {
    PdbError::Format { reason }
}

fn genre_bytes(id: u32, name: &str) -> Vec<u8> {
    let mut bytes = id.to_le_bytes().to_vec();
    bytes.push((((name.len() + 1) << 1) | 1) as u8);
    bytes.extend(name.as_bytes());
    bytes
}

/// A page of `PAGE` bytes with the given rows, all present, one behind the other.
fn page(index: u32, kind: u32, next: u32, rows: &[Vec<u8>]) -> Vec<u8> {
    let mut p = vec![0u8; PAGE];
    p[4..8].copy_from_slice(&index.to_le_bytes());
    p[8..12].copy_from_slice(&kind.to_le_bytes());
    p[12..16].copy_from_slice(&next.to_le_bytes());
    p[24] = rows.len() as u8;
    p[27] = 0x24;
    let mut at = 0usize;
    let mut flags = 0u16;
    for (i, row) in rows.iter().enumerate() {
        p[40 + at..40 + at + row.len()].copy_from_slice(row);
        let entry = PAGE - 4 - 2 * (i + 1);
        p[entry..entry + 2].copy_from_slice(&(at as u16).to_le_bytes());
        flags |= 1 << i;
        at += row.len();
    }
    p[PAGE - 4..PAGE - 2].copy_from_slice(&flags.to_le_bytes());
    p
}

fn entry(page_type: PageType, empty_candidate: u32, first_page: u32, last_page: u32) -> Table {
    Table { page_type, empty_candidate, first_page, last_page }
}

fn header(tables: &[(u32, u32, u32)]) -> Vec<u8> {
    header_of_size(PAGE, tables)
}

fn header_of_size(page_size: usize, tables: &[(u32, u32, u32)]) -> Vec<u8> {
    let mut h = vec![0xABu8; page_size];
    h[0..4].copy_from_slice(&[0; 4]);
    h[4..8].copy_from_slice(&(page_size as u32).to_le_bytes());
    h[8..12].copy_from_slice(&(tables.len() as u32).to_le_bytes());
    h[12..16].copy_from_slice(&7u32.to_le_bytes());
    h[16..20].copy_from_slice(&5u32.to_le_bytes());
    h[20..24].copy_from_slice(&34u32.to_le_bytes());
    h[24..28].copy_from_slice(&[0; 4]);
    for (i, (kind, first, last)) in tables.iter().enumerate() {
        let at = 28 + 16 * i;
        h[at..at + 4].copy_from_slice(&kind.to_le_bytes());
        h[at + 4..at + 8].copy_from_slice(&(100 + i as u32).to_le_bytes());
        h[at + 8..at + 12].copy_from_slice(&first.to_le_bytes());
        h[at + 12..at + 16].copy_from_slice(&last.to_le_bytes());
    }
    h
}

/// A file with a table of genres on the pages 1, 3 and 2, in this order, a
/// table of labels on page 5, and page 4 in no table.
fn sample() -> Vec<u8> {
    let mut file = header(&[(1, 1, 2), (4, 5, 5)]);
    file.extend(page(1, 1, 3, &[genre_bytes(1, "A"), genre_bytes(2, "B")]));
    file.extend(page(2, 1, 6, &[genre_bytes(4, "D")]));
    file.extend(page(3, 1, 2, &[genre_bytes(3, "C")]));
    file.extend(vec![0x5A; PAGE]);
    file.extend(page(5, 4, 9, &[genre_bytes(7, "L")]));
    file
}

fn rows_of(pages: &[Page]) -> Vec<String> {
    let mut names = Vec::new();
    for page in pages {
        for group in &page.row_groups {
            for row in group.present_rows() {
                match row {
                    Row::Genre(r) => names.push(r.name.text.clone()),
                    Row::Label(r) => names.push(r.name.text.clone()),
                    _ => panic!("unexpected row"),
                }
            }
        }
    }
    names
}

#[test]
fn header_is_read_and_written() {
    let file = sample();
    let header = Header::read(&file).unwrap();
    assert_eq!(header.page_size, 96);
    assert_eq!(header.next_unused_page, 7);
    assert_eq!(header.unknown, 5);
    assert_eq!(header.sequence, 34);
    assert_eq!(
        header.tables,
        vec![
            entry(PageType::Genres, 100, 1, 2),
            entry(PageType::Labels, 101, 5, 5),
        ]
    );
    assert_eq!(header.write().unwrap(), file[..28 + 32].to_vec());
    // The header alone is enough.
    assert_eq!(Header::read(&file[..60]).unwrap(), header);
}

#[test]
fn header_that_ends_early_is_refused() {
    let file = sample();
    assert_eq!(Header::read(&file[..27]), Err(format(FormatReason::Truncated)));
    assert_eq!(Header::read(&file[..59]), Err(format(FormatReason::Truncated)));
    assert_eq!(Header::read(&[]), Err(format(FormatReason::Truncated)));
}

#[test]
fn header_with_wrong_magic_is_refused() {
    let mut file = sample();
    file[0] = 1;
    assert_eq!(Header::read(&file), Err(format(FormatReason::Magic)));
    let mut file = sample();
    file[27] = 1;
    assert_eq!(Header::read(&file), Err(format(FormatReason::Magic)));
}

#[test]
fn header_with_implausible_page_size_is_refused() {
    let mut file = sample();
    file[4..8].copy_from_slice(&43u32.to_le_bytes());
    assert_eq!(Header::read(&file), Err(format(FormatReason::PageSize)));
    let mut file = sample();
    file[4..8].copy_from_slice(&0u32.to_le_bytes());
    assert_eq!(Header::read(&file), Err(format(FormatReason::PageSize)));
    // Two tables need 60 bytes of header.
    let mut file = sample();
    file[4..8].copy_from_slice(&59u32.to_le_bytes());
    assert_eq!(Header::read(&file), Err(format(FormatReason::PageSize)));
    file[4..8].copy_from_slice(&60u32.to_le_bytes());
    assert!(Header::read(&file).is_ok());
    // More tables than any page size can hold.
    let mut file = sample();
    file[8..12].copy_from_slice(&0xFFFF_FFFFu32.to_le_bytes());
    assert_eq!(Header::read(&file), Err(format(FormatReason::PageSize)));
}

#[test]
fn tables_are_found_by_their_kind() {
    let file = header_of_size(128, &[(1, 1, 1), (7, 2, 2), (1, 3, 3), (9, 4, 4), (7, 5, 5)]);
    let header = Header::read(&file).unwrap();
    let found = header.tables_of_type(PageType::PlaylistTree);
    assert_eq!(found.len(), 2);
    assert_eq!((found[0].first_page, found[1].first_page), (2, 5));
    assert!(found.iter().all(|t| t.page_type == PageType::PlaylistTree));
    let found = header.tables_of_type(PageType::Genres);
    assert_eq!((found[0].first_page, found[1].first_page), (1, 3));
    assert_eq!(header.tables_of_type(PageType::Unknown(9)).len(), 1);
    assert_eq!(header.tables_of_type(PageType::Tracks), vec![]);
}

#[test]
fn page_chain_is_followed_in_its_order() {
    let file = sample();
    let header = Header::read(&file).unwrap();
    let pages = header.read_pages(&file, &header.tables[0]).unwrap();
    let indexes: Vec<u32> = pages.iter().map(|p| p.page_index).collect();
    assert_eq!(indexes, vec![1, 3, 2]);
    assert_eq!(rows_of(&pages), vec!["A", "B", "C", "D"]);
    for page in &pages {
        assert_eq!(page.page_type, PageType::Genres);
    }
    let pages = header.read_pages(&file, &header.tables[1]).unwrap();
    assert_eq!(pages.len(), 1);
    assert_eq!(pages[0].page_index, 5);
    assert_eq!(rows_of(&pages), vec!["L"]);
    // Reading again gives the same pages.
    assert_eq!(header.read_pages(&file, &header.tables[1]).unwrap(), pages);
}

#[test]
fn chain_that_leaves_the_file_is_refused() {
    let mut file = sample();
    let header = Header::read(&file).unwrap();
    let table = entry(PageType::Genres, 0, 1, 6);
    // Page 2 names page 6 as the next, and the file has the pages 0 to 5.
    assert_eq!(header.read_pages(&file, &table), Err(format(FormatReason::ChainBounds)));
    let table = entry(PageType::Genres, 0, 6, 6);
    assert_eq!(header.read_pages(&file, &table), Err(format(FormatReason::ChainBounds)));
    file.truncate(6 * PAGE - 1);
    assert_eq!(
        header.read_pages(&file, &header.tables[1]),
        Err(format(FormatReason::ChainBounds))
    );
}

#[test]
fn chain_that_does_not_end_is_refused() {
    let mut file = sample();
    // Page 2 names page 1 as the next: 1, 3, 2, 1, 3, 2, ...
    file[2 * PAGE + 12..2 * PAGE + 16].copy_from_slice(&1u32.to_le_bytes());
    let header = Header::read(&file).unwrap();
    let table = entry(PageType::Genres, 0, 1, 5);
    assert_eq!(header.read_pages(&file, &table), Err(format(FormatReason::ChainLoop)));
    // The chain of the table itself ends at page 2 before it comes back.
    assert_eq!(header.read_pages(&file, &header.tables[0]).unwrap().len(), 3);
}

#[test]
fn page_under_a_wrong_index_is_refused() {
    let mut file = sample();
    file[3 * PAGE + 4] = 2;
    let header = Header::read(&file).unwrap();
    assert_eq!(
        header.read_pages(&file, &header.tables[0]),
        Err(format(FormatReason::PageIndex))
    );
}

#[test]
fn page_of_another_kind_in_a_chain_is_refused() {
    let mut file = sample();
    file[3 * PAGE + 8] = 4;
    let header = Header::read(&file).unwrap();
    assert_eq!(
        header.read_pages(&file, &header.tables[0]),
        Err(format(FormatReason::PageType))
    );
    let table = entry(PageType::Labels, 0, 1, 2);
    assert_eq!(header.read_pages(&file, &table), Err(format(FormatReason::PageType)));
}

#[test]
fn pages_are_not_read_with_a_page_size_below_the_smallest() {
    let file = sample();
    let mut header = Header::read(&file).unwrap();
    let table = header.tables[0];
    header.page_size = 0;
    assert_eq!(header.read_pages(&file, &table), Err(format(FormatReason::PageSize)));
    header.page_size = 43;
    assert_eq!(header.read_pages(&file, &table), Err(format(FormatReason::PageSize)));
}

#[test]
fn file_round_trips() {
    let file = sample();
    let db = Database::read(&file).unwrap();
    assert_eq!(db.header, Header::read(&file).unwrap());
    assert_eq!(db.reserved, vec![0xAB; 36]);
    assert_eq!(db.pages.len(), 5);
    assert!(matches!(db.pages[0], PageEntry::Linked(_)));
    assert!(matches!(db.pages[1], PageEntry::Linked(_)));
    assert!(matches!(db.pages[2], PageEntry::Linked(_)));
    assert_eq!(db.pages[3], PageEntry::Loose(vec![0x5A; PAGE]));
    assert!(matches!(db.pages[4], PageEntry::Linked(_)));
    if let PageEntry::Linked(page) = &db.pages[2] {
        assert_eq!(page.page_index, 3);
        assert_eq!(rows_of(std::slice::from_ref(page)), vec!["C"]);
    }
    assert_eq!(db.write().unwrap(), file);
}

#[test]
fn file_of_a_header_alone_round_trips() {
    let file = header(&[]);
    let db = Database::read(&file).unwrap();
    assert_eq!(db.pages.len(), 0);
    assert_eq!(db.reserved.len(), PAGE - 28);
    assert_eq!(db.write().unwrap(), file);
}

#[test]
fn file_with_rows_in_every_form_round_trips() {
    let mut wide = 9u32.to_le_bytes().to_vec();
    wide.extend([0x90, 0x0A, 0x00, 0x00, 0xE5, 0x65, 0x2C, 0x67, 0x9E, 0x8A]);
    let mut long = 10u32.to_le_bytes().to_vec();
    long.extend([0x40, 0x06, 0x00, 0x00, b'o', b'k']);
    let mut file = header(&[(1, 1, 1)]);
    file.extend(page(1, 1, 0, &[wide, long, genre_bytes(11, "")]));
    let db = Database::read(&file).unwrap();
    if let PageEntry::Linked(page) = &db.pages[0] {
        assert_eq!(rows_of(std::slice::from_ref(page)), vec!["日本語", "ok", ""]);
    } else {
        panic!("the page belongs to a table");
    }
    assert_eq!(db.write().unwrap(), file);
}

#[test]
fn truncated_file_is_refused() {
    let file = sample();
    // In the middle of the row group of the last page.
    let cut = &file[..file.len() - 3];
    assert_eq!(Database::read(cut), Err(format(FormatReason::Truncated)));
    // In the heap of a page in the middle of a chain.
    let cut = &file[..3 * PAGE + 50];
    assert_eq!(Database::read(cut), Err(format(FormatReason::Truncated)));
    // At the end of a page, so that a chain leaves the file.
    let cut = &file[..5 * PAGE];
    assert_eq!(Database::read(cut), Err(format(FormatReason::ChainBounds)));
    // In the header page.
    assert_eq!(Database::read(&file[..90]), Err(format(FormatReason::Truncated)));
    assert_eq!(Database::read(&file[..20]), Err(format(FormatReason::Truncated)));
    for len in 0..file.len() {
        let r = Database::read(&file[..len]);
        assert!(matches!(r, Err(PdbError::Format { .. })), "length {}", len);
    }
}

#[test]
fn file_with_a_broken_chain_is_refused() {
    let mut file = sample();
    file[5 * PAGE] = 1;
    assert_eq!(Database::read(&file), Err(format(FormatReason::Magic)));
    let mut file = sample();
    file[3 * PAGE + 44] = 0x02;
    assert_eq!(Database::read(&file), Err(format(FormatReason::StringTag)));
}

#[test]
fn file_with_rows_of_unknown_kind_is_refused() {
    let mut file = header(&[(9, 1, 1)]);
    file.extend(page(1, 9, 0, &[genre_bytes(1, "A")]));
    assert_eq!(Database::read(&file), Err(PdbError::UnsupportedVariant));
    let mut file = header(&[(9, 1, 1)]);
    file.extend(page(1, 9, 0, &[]));
    assert_eq!(Database::read(&file).unwrap().write().unwrap(), file);
}

#[test]
fn database_of_wrong_sizes_cannot_be_written() {
    let file = sample();
    let db = Database::read(&file).unwrap();

    let mut wrong = db.clone();
    wrong.reserved.pop();
    assert_eq!(wrong.write(), Err(format(FormatReason::PageSize)));

    let mut wrong = db.clone();
    wrong.pages[3] = PageEntry::Loose(vec![0; PAGE + 1]);
    assert_eq!(wrong.write(), Err(format(FormatReason::PageSize)));

    let mut wrong = db.clone();
    if let PageEntry::Linked(page) = &mut wrong.pages[0] {
        page.free.push(0);
    }
    assert_eq!(wrong.write(), Err(format(FormatReason::PageSize)));

    let mut wrong = db.clone();
    if let PageEntry::Linked(page) = &mut wrong.pages[0] {
        page.num_rows_small = 1;
    }
    assert_eq!(wrong.write(), Err(format(FormatReason::Shape)));

    let mut wrong = db.clone();
    wrong.header.page_size = 95;
    assert_eq!(wrong.write(), Err(format(FormatReason::PageSize)));
}

#[test]
fn changed_database_is_written_with_the_change() {
    let file = sample();
    let mut db = Database::read(&file).unwrap();
    db.header.sequence = 35;
    db.pages[3] = PageEntry::Loose(vec![0x11; PAGE]);
    let mut expected = file.clone();
    expected[20] = 35;
    expected[4 * PAGE..5 * PAGE].copy_from_slice(&[0x11; PAGE]);
    assert_eq!(db.write().unwrap(), expected);
}

use rekordcrate::pdb::page::Page;
use rekordcrate::pdb::row::playlist_tree_node::PlaylistTreeNode;
use rekordcrate::pdb::row::PageType;
use rekordcrate::pdb::string::{DeviceString, StringForm};
use rekordcrate::pdb::{FormatReason, PdbError};
use rekordcrate::playlist::{
    build_tree, list_playlists, nodes_of_pages, playlist_pages, render, TreeEntry,
};

const PAGE: usize = 128;

fn node(id: u32, parent_id: u32, folder: bool, name: &str) -> PlaylistTreeNode {
    PlaylistTreeNode {
        parent_id,
        unknown: 0,
        sort_index: 0,
        id,
        node_is_folder: if folder { 1 } else { 0 },
        name: DeviceString { form: StringForm::Short, text: name.to_string() },
    }
}

fn entry(level: usize, id: u32, is_folder: bool, name: &str) -> TreeEntry {
    TreeEntry { level, id, is_folder, name: name.to_string() }
}

fn node_bytes(id: u32, parent_id: u32, folder: bool, name: &str) -> Vec<u8> {
    node(id, parent_id, folder, name).encode().unwrap()
}

fn page(index: u32, kind: u32, next: u32, rows: &[(bool, Vec<u8>)]) -> Vec<u8> {
    let mut p = vec![0u8; PAGE];
    p[4..8].copy_from_slice(&index.to_le_bytes());
    p[8..12].copy_from_slice(&kind.to_le_bytes());
    p[12..16].copy_from_slice(&next.to_le_bytes());
    p[24] = rows.len() as u8;
    let mut at = 0usize;
    let mut flags = 0u16;
    for (i, (present, row)) in rows.iter().enumerate() {
        p[40 + at..40 + at + row.len()].copy_from_slice(row);
        let entry = PAGE - 4 - 2 * (i + 1);
        p[entry..entry + 2].copy_from_slice(&(at as u16).to_le_bytes());
        if *present {
            flags |= 1 << i;
        }
        at += row.len();
    }
    p[PAGE - 4..PAGE - 2].copy_from_slice(&flags.to_le_bytes());
    p
}

fn header(tables: &[(u32, u32, u32)]) -> Vec<u8> {
    let mut h = vec![0u8; PAGE];
    h[4..8].copy_from_slice(&(PAGE as u32).to_le_bytes());
    h[8..12].copy_from_slice(&(tables.len() as u32).to_le_bytes());
    for (i, (kind, first, last)) in tables.iter().enumerate() {
        let at = 28 + 16 * i;
        h[at..at + 4].copy_from_slice(&kind.to_le_bytes());
        h[at + 8..at + 12].copy_from_slice(&first.to_le_bytes());
        h[at + 12..at + 16].copy_from_slice(&last.to_le_bytes());
    }
    h
}

/// A file with a genre table on page 1 and a playlist tree on the pages 3
/// and 2, in this order.
fn sample() -> Vec<u8> {
    let mut genre = 1u32.to_le_bytes().to_vec();
    genre.extend([0x05, b'G']);
    let mut file = header(&[(1, 1, 1), (7, 3, 2)]);
    file.extend(page(1, 1, 0, &[(true, genre)]));
    file.extend(page(
        2,
        7,
        0,
        &[(true, node_bytes(4, 1, false, "Warmup")), (true, node_bytes(5, 0, false, "Favourites"))],
    ));
    file.extend(page(
        3,
        7,
        2,
        &[
            (true, node_bytes(1, 0, true, "Sets")),
            (false, node_bytes(2, 0, true, "Gone")),
            (true, node_bytes(3, 1, false, "Peak")),
        ],
    ));
    file
}

#[test]
fn playlist_tree_is_built_from_parent_links() {
    let nodes = vec![node(1, 0, true, "Root"), node(2, 1, false, "Child")];
    let tree = build_tree(&nodes);
    assert_eq!(tree, vec![entry(0, 1, true, "Root"), entry(1, 2, false, "Child")]);
    let top: Vec<&TreeEntry> = tree.iter().filter(|e| e.level == 0).collect();
    assert_eq!(top.len(), 1);
    assert_eq!(top[0].name, "Root");
    let children: Vec<&TreeEntry> = tree.iter().filter(|e| e.level == 1).collect();
    assert_eq!(children.len(), 1);
    assert_eq!(children[0].name, "Child");
}

#[test]
fn playlist_tree_keeps_the_order_of_the_rows() {
    let nodes = vec![
        node(5, 2, false, "e"),
        node(1, 0, true, "a"),
        node(2, 1, true, "b"),
        node(3, 0, false, "c"),
        node(4, 1, false, "d"),
        node(6, 2, false, "f"),
    ];
    let tree = build_tree(&nodes);
    assert_eq!(
        tree,
        vec![
            entry(0, 1, true, "a"),
            entry(1, 2, true, "b"),
            entry(2, 5, false, "e"),
            entry(2, 6, false, "f"),
            entry(1, 4, false, "d"),
            entry(0, 3, false, "c"),
        ]
    );
}

#[test]
fn playlist_tree_of_no_rows_is_empty() {
    assert_eq!(build_tree(&vec![]), vec![]);
    assert_eq!(render(&vec![]), Vec::<String>::new());
}

#[test]
fn nodes_outside_the_tree_are_not_listed() {
    let nodes = vec![node(1, 0, false, "in"), node(2, 9, false, "out"), node(3, 2, false, "out")];
    assert_eq!(build_tree(&nodes), vec![entry(0, 1, false, "in")]);
}

#[test]
fn nodes_with_the_same_id_are_listed_once_each() {
    // What names the id 1 as its folder is listed under the first node with
    // that id, and nowhere else.
    let nodes = vec![node(1, 0, true, "a"), node(1, 0, true, "b"), node(2, 1, false, "c")];
    assert_eq!(
        build_tree(&nodes),
        vec![entry(0, 1, true, "a"), entry(1, 2, false, "c"), entry(0, 1, true, "b")]
    );
}

#[test]
fn circle_of_folders_is_cut_off() {
    // The node 1 holds the node 0, which holds the node 1 again.
    let nodes = vec![node(1, 0, true, "a"), node(0, 1, true, "b")];
    assert_eq!(build_tree(&nodes), vec![entry(0, 1, true, "a"), entry(1, 0, true, "b")]);
    // A node that holds itself.
    let nodes = vec![node(0, 0, true, "a")];
    assert_eq!(build_tree(&nodes), vec![entry(0, 0, true, "a")]);
}

#[test]
fn rows_in_a_circle_are_listed_once_each() {
    let nodes = vec![node(0, 0, true, "Loop"), node(5, 0, false, "X")];
    assert_eq!(build_tree(&nodes), vec![entry(0, 0, true, "Loop"), entry(0, 5, false, "X")]);
    let nodes = vec![node(0, 0, true, "a"), node(0, 0, true, "b"), node(0, 0, true, "c")];
    assert_eq!(
        build_tree(&nodes),
        vec![entry(0, 0, true, "a"), entry(0, 0, true, "b"), entry(0, 0, true, "c")]
    );
    let nodes: Vec<_> = (0..16).map(|_| node(0, 0, true, "x")).collect();
    assert_eq!(build_tree(&nodes).len(), 16);
    // A circle that is not reached from the top folder is not listed.
    let nodes = vec![node(1, 2, true, "a"), node(2, 1, true, "b"), node(3, 0, false, "c")];
    assert_eq!(build_tree(&nodes), vec![entry(0, 3, false, "c")]);
}

#[test]
fn listing_has_no_more_lines_than_rows() {
    // Every row names every id as its folder in turn.
    let mut nodes = Vec::new();
    for id in 0..40u32 {
        for parent in 0..5u32 {
            nodes.push(node(id % 7, parent, true, "x"));
        }
    }
    let tree = build_tree(&nodes);
    assert!(tree.len() <= nodes.len());
    assert_eq!(tree.len(), 200);
}

#[test]
fn deep_tree_is_listed_to_its_end() {
    let count: u32 = 200_000;
    let nodes: Vec<_> = (0..count).map(|i| node(i + 1, i, true, "x")).collect();
    let tree = build_tree(&nodes);
    assert_eq!(tree.len(), count as usize);
    assert_eq!(tree[0].level, 0);
    assert_eq!(tree[tree.len() - 1].level, count as usize - 1);
    assert_eq!(tree[tree.len() - 1].id, count);
}

#[test]
fn tree_lines_are_indented_by_four_spaces() {
    let tree = vec![
        entry(0, 1, true, "Root"),
        entry(1, 2, false, "Child"),
        entry(2, 3, false, ""),
        entry(0, 4, false, "日本語"),
    ];
    assert_eq!(
        render(&tree),
        vec![
            "\u{1F5C0} Root".to_string(),
            "    \u{1F5CE} Child".to_string(),
            "        \u{1F5CE} ".to_string(),
            "\u{1F5CE} 日本語".to_string(),
        ]
    );
    assert_eq!(tree[1].line(), "    🗎 Child");
    assert_eq!(tree[0].line(), "🗀 Root");
}

#[test]
fn nodes_are_collected_from_the_present_rows() {
    let file = sample();
    let pages = playlist_pages(&file).unwrap();
    let indexes: Vec<u32> = pages.iter().map(|p| p.page_index).collect();
    assert_eq!(indexes, vec![3, 2]);
    let nodes = nodes_of_pages(&pages);
    assert_eq!(
        nodes,
        vec![
            node(1, 0, true, "Sets"),
            node(3, 1, false, "Peak"),
            node(4, 1, false, "Warmup"),
            node(5, 0, false, "Favourites"),
        ]
    );
}

#[test]
fn rows_of_other_kinds_are_passed_over() {
    let mut genre = 1u32.to_le_bytes().to_vec();
    genre.extend([0x05, b'G']);
    let bytes = page(1, 1, 0, &[(true, genre)]);
    let other = Page::decode(&bytes, PageType::Genres).unwrap();
    let bytes = page(2, 7, 0, &[(true, node_bytes(1, 0, false, "x"))]);
    let tree = Page::decode(&bytes, PageType::PlaylistTree).unwrap();
    assert_eq!(nodes_of_pages(&vec![other.clone()]), vec![]);
    assert_eq!(nodes_of_pages(&vec![other, tree]), vec![node(1, 0, false, "x")]);
    assert_eq!(nodes_of_pages(&vec![]), vec![]);
}

#[test]
fn playlists_of_a_file_are_listed() {
    let file = sample();
    assert_eq!(
        list_playlists(&file).unwrap(),
        vec![
            "\u{1F5C0} Sets".to_string(),
            "    \u{1F5CE} Peak".to_string(),
            "    \u{1F5CE} Warmup".to_string(),
            "\u{1F5CE} Favourites".to_string(),
        ]
    );
}

#[test]
fn rows_of_a_group_with_two_bits_give_two_lines() {
    // The bits 0 and 2 are set; the row of entry 1 was deleted.
    let mut file = header(&[(7, 1, 1)]);
    file.extend(page(
        1,
        7,
        0,
        &[
            (true, node_bytes(1, 0, false, "First")),
            (false, node_bytes(2, 0, false, "Gone")),
            (true, node_bytes(3, 0, false, "Third")),
        ],
    ));
    let pages = playlist_pages(&file).unwrap();
    assert_eq!(pages[0].row_groups[0].presence, 0b0101);
    assert_eq!(pages[0].row_groups[0].present_rows().len(), 2);
    assert_eq!(
        list_playlists(&file).unwrap(),
        vec!["\u{1F5CE} First".to_string(), "\u{1F5CE} Third".to_string()]
    );
}

#[test]
fn file_without_playlist_tables_has_no_playlists() {
    let mut genre = 1u32.to_le_bytes().to_vec();
    genre.extend([0x05, b'G']);
    let mut file = header(&[(1, 1, 1)]);
    file.extend(page(1, 1, 0, &[(true, genre)]));
    assert_eq!(playlist_pages(&file).unwrap(), vec![]);
    assert_eq!(list_playlists(&file).unwrap(), Vec::<String>::new());
    // Tables of other kinds are not looked at, broken or not.
    file[PAGE] = 0xFF;
    assert_eq!(list_playlists(&file).unwrap(), Vec::<String>::new());
}

#[test]
fn playlists_of_a_broken_file_are_not_listed() {
    let file = sample();
    assert_eq!(
        list_playlists(&file[..20]),
        Err(PdbError::Format { reason: FormatReason::Truncated })
    );
    assert_eq!(
        list_playlists(&file[..3 * PAGE]),
        Err(PdbError::Format { reason: FormatReason::ChainBounds })
    );
    let mut broken = file.clone();
    broken[3 * PAGE + 8] = 1;
    assert_eq!(
        list_playlists(&broken),
        Err(PdbError::Format { reason: FormatReason::PageType })
    );
    let mut broken = file.clone();
    broken[2 * PAGE + 40 + 20] = 0x02;
    assert_eq!(
        playlist_pages(&broken),
        Err(PdbError::Format { reason: FormatReason::StringTag })
    );
}

//! The rows of the database, one kind for each kind of table.
//!
//! Nothing in the bytes of a row says of which kind it is: the page type of
//! the table that holds the row decides how its bytes are read.

pub mod album;
pub mod artist;
pub mod artwork;
pub mod color;
pub mod genre;
pub mod history_entry;
pub mod history_playlist;
pub mod key;
pub mod label;
pub mod playlist_entry;
pub mod playlist_tree_node;
pub mod track;

use crate::pdb::row::album::Album;
use crate::pdb::row::artist::Artist;
use crate::pdb::row::artwork::Artwork;
use crate::pdb::row::color::Color;
use crate::pdb::row::genre::Genre;
use crate::pdb::row::history_entry::HistoryEntry;
use crate::pdb::row::history_playlist::HistoryPlaylist;
use crate::pdb::row::key::Key;
use crate::pdb::row::label::Label;
use crate::pdb::row::playlist_entry::PlaylistEntry;
use crate::pdb::row::playlist_tree_node::PlaylistTreeNode;
use crate::pdb::row::track::Track;
use crate::pdb::PdbError;
use vstd::prelude::*;

verus! {

/// The kind of rows that a table, and each page of it, holds.
#[derive(Debug, Clone, Copy, PartialEq, Eq, Structural)]
pub enum PageType {
    /// Tracks.
    Tracks,
    /// Musical genres.
    Genres,
    /// Artists.
    Artists,
    /// Albums.
    Albums,
    /// Record labels.
    Labels,
    /// Musical keys.
    Keys,
    /// Color labels.
    Colors,
    /// Nodes of the playlist tree.
    PlaylistTree,
    /// Entries of the playlists.
    PlaylistEntries,
    /// History playlists.
    HistoryPlaylists,
    /// Entries of the history playlists.
    HistoryEntries,
    /// Artwork references.
    Artwork,
    /// A kind that has no name here; the number is the one in the file.
    Unknown(u32),
}

impl PageType {
    /// The kind that a number in the file stands for.
    pub open spec fn of_raw(raw: u32) -> PageType {
        if raw == 0 {
            PageType::Tracks
        } else if raw == 1 {
            PageType::Genres
        } else if raw == 2 {
            PageType::Artists
        } else if raw == 3 {
            PageType::Albums
        } else if raw == 4 {
            PageType::Labels
        } else if raw == 5 {
            PageType::Keys
        } else if raw == 6 {
            PageType::Colors
        } else if raw == 7 {
            PageType::PlaylistTree
        } else if raw == 8 {
            PageType::PlaylistEntries
        } else if raw == 11 {
            PageType::HistoryPlaylists
        } else if raw == 12 {
            PageType::HistoryEntries
        } else if raw == 13 {
            PageType::Artwork
        } else {
            PageType::Unknown(raw)
        }
    }

    /// The number that stands for this kind in the file.
    pub open spec fn raw_spec(&self) -> u32 {
        match *self {
            PageType::Tracks => 0,
            PageType::Genres => 1,
            PageType::Artists => 2,
            PageType::Albums => 3,
            PageType::Labels => 4,
            PageType::Keys => 5,
            PageType::Colors => 6,
            PageType::PlaylistTree => 7,
            PageType::PlaylistEntries => 8,
            PageType::HistoryPlaylists => 11,
            PageType::HistoryEntries => 12,
            PageType::Artwork => 13,
            PageType::Unknown(raw) => raw,
        }
    }

    /// The kind that a number in the file stands for.
    pub fn from_raw(raw: u32) -> (t: PageType)
        ensures
            t == PageType::of_raw(raw),
            t.raw_spec() == raw,
    {
        match raw {
            0 => PageType::Tracks,
            1 => PageType::Genres,
            2 => PageType::Artists,
            3 => PageType::Albums,
            4 => PageType::Labels,
            5 => PageType::Keys,
            6 => PageType::Colors,
            7 => PageType::PlaylistTree,
            8 => PageType::PlaylistEntries,
            11 => PageType::HistoryPlaylists,
            12 => PageType::HistoryEntries,
            13 => PageType::Artwork,
            x => PageType::Unknown(x),
        }
    }

    /// The number that stands for this kind in the file.
    #[verifier::when_used_as_spec(raw_spec)]
    pub fn raw(&self) -> (raw: u32)
        ensures
            raw == self.raw_spec(),
    {
        match *self {
            PageType::Tracks => 0,
            PageType::Genres => 1,
            PageType::Artists => 2,
            PageType::Albums => 3,
            PageType::Labels => 4,
            PageType::Keys => 5,
            PageType::Colors => 6,
            PageType::PlaylistTree => 7,
            PageType::PlaylistEntries => 8,
            PageType::HistoryPlaylists => 11,
            PageType::HistoryEntries => 12,
            PageType::Artwork => 13,
            PageType::Unknown(raw) => raw,
        }
    }
}

/// A row of one of the known kinds.
#[derive(Debug, Clone, PartialEq, Eq)]
pub enum Row {
    /// A row of the album table.
    Album(Album),
    /// A row of the artist table.
    Artist(Artist),
    /// A row of the artwork table.
    Artwork(Artwork),
    /// A row of the color table.
    Color(Color),
    /// A row of the genre table.
    Genre(Genre),
    /// A row of the table of history playlists.
    HistoryPlaylist(HistoryPlaylist),
    /// A row of the table of history entries.
    HistoryEntry(HistoryEntry),
    /// A row of the key table.
    Key(Key),
    /// A row of the label table.
    Label(Label),
    /// A row of the playlist tree.
    PlaylistTreeNode(PlaylistTreeNode),
    /// A row of the table of playlist entries.
    PlaylistEntry(PlaylistEntry),
    /// A row of the track table.
    Track(Track),
}

impl Row {
    /// Why `b` does not start with a row of a table of kind `t`, or `None`
    /// if it does. A kind without a known layout has no rows that can be read.
    pub open spec fn decode_error(b: Seq<u8>, t: PageType) -> Option<PdbError> {
        match t {
            PageType::Tracks => Track::decode_error(b),
            PageType::Genres => Genre::decode_error(b),
            PageType::Artists => Artist::decode_error(b),
            PageType::Albums => Album::decode_error(b),
            PageType::Labels => Label::decode_error(b),
            PageType::Keys => Key::decode_error(b),
            PageType::Colors => Color::decode_error(b),
            PageType::PlaylistTree => PlaylistTreeNode::decode_error(b),
            PageType::PlaylistEntries => PlaylistEntry::decode_error(b),
            PageType::HistoryPlaylists => HistoryPlaylist::decode_error(b),
            PageType::HistoryEntries => HistoryEntry::decode_error(b),
            PageType::Artwork => Artwork::decode_error(b),
            PageType::Unknown(_) => Some(PdbError::UnsupportedVariant),
        }
    }

    /// The number of bytes that the row at the start of `b` occupies.
    pub open spec fn decoded_len(b: Seq<u8>, t: PageType) -> int {
        match t {
            PageType::Tracks => Track::decoded_len(b),
            PageType::Genres => Genre::decoded_len(b),
            PageType::Artists => Artist::decoded_len(b),
            PageType::Albums => Album::decoded_len(b),
            PageType::Labels => Label::decoded_len(b),
            PageType::Keys => Key::decoded_len(b),
            PageType::Colors => Color::decoded_len(b),
            PageType::PlaylistTree => PlaylistTreeNode::decoded_len(b),
            PageType::PlaylistEntries => PlaylistEntry::decoded_len(b),
            PageType::HistoryPlaylists => HistoryPlaylist::decoded_len(b),
            PageType::HistoryEntries => HistoryEntry::decoded_len(b),
            PageType::Artwork => Artwork::decoded_len(b),
            PageType::Unknown(_) => 0,
        }
    }

    /// The kind of table that holds rows of this variant.
    pub open spec fn page_type_spec(&self) -> PageType {
        match self {
            Row::Album(_) => PageType::Albums,
            Row::Artist(_) => PageType::Artists,
            Row::Artwork(_) => PageType::Artwork,
            Row::Color(_) => PageType::Colors,
            Row::Genre(_) => PageType::Genres,
            Row::HistoryPlaylist(_) => PageType::HistoryPlaylists,
            Row::HistoryEntry(_) => PageType::HistoryEntries,
            Row::Key(_) => PageType::Keys,
            Row::Label(_) => PageType::Labels,
            Row::PlaylistTreeNode(_) => PageType::PlaylistTree,
            Row::PlaylistEntry(_) => PageType::PlaylistEntries,
            Row::Track(_) => PageType::Tracks,
        }
    }

    /// Whether this row is what `b` starts with, read as a row of a table of
    /// kind `t`: it is of the variant of that kind and holds what `b` says.
    pub open spec fn parsed_from(&self, b: Seq<u8>, t: PageType) -> bool {
        &&& self.page_type_spec() == t
        &&& match self {
            Row::Album(r) => r.parsed_from(b),
            Row::Artist(r) => r.parsed_from(b),
            Row::Artwork(r) => r.parsed_from(b),
            Row::Color(r) => r.parsed_from(b),
            Row::Genre(r) => r.parsed_from(b),
            Row::HistoryPlaylist(r) => r.parsed_from(b),
            Row::HistoryEntry(r) => r.parsed_from(b),
            Row::Key(r) => r.parsed_from(b),
            Row::Label(r) => r.parsed_from(b),
            Row::PlaylistTreeNode(r) => r.parsed_from(b),
            Row::PlaylistEntry(r) => r.parsed_from(b),
            Row::Track(r) => r.parsed_from(b),
        }
    }

    /// The bytes of this row, or the reason why it cannot be written.
    pub open spec fn encoding(&self) -> Result<Seq<u8>, PdbError> {
        match self {
            Row::Album(r) => r.encoding(),
            Row::Artist(r) => r.encoding(),
            Row::Artwork(r) => r.encoding(),
            Row::Color(r) => r.encoding(),
            Row::Genre(r) => r.encoding(),
            Row::HistoryPlaylist(r) => r.encoding(),
            Row::HistoryEntry(r) => r.encoding(),
            Row::Key(r) => r.encoding(),
            Row::Label(r) => r.encoding(),
            Row::PlaylistTreeNode(r) => r.encoding(),
            Row::PlaylistEntry(r) => r.encoding(),
            Row::Track(r) => r.encoding(),
        }
    }

    /// Writing a row that was read from `b` gives the bytes of `b` that the
    /// row occupies.
    pub proof fn lemma_round_trip(&self, b: Seq<u8>, t: PageType)
        requires
            Self::decode_error(b, t) is None,
            self.parsed_from(b, t),
        ensures
            self.encoding() == Ok::<Seq<u8>, PdbError>(b.subrange(0, Self::decoded_len(b, t))),
    {
        match self {
            Row::Album(r) => r.lemma_round_trip(b),
            Row::Artist(r) => r.lemma_round_trip(b),
            Row::Artwork(r) => r.lemma_round_trip(b),
            Row::Color(r) => r.lemma_round_trip(b),
            Row::Genre(r) => r.lemma_round_trip(b),
            Row::HistoryPlaylist(r) => r.lemma_round_trip(b),
            Row::HistoryEntry(r) => r.lemma_round_trip(b),
            Row::Key(r) => r.lemma_round_trip(b),
            Row::Label(r) => r.lemma_round_trip(b),
            Row::PlaylistTreeNode(r) => r.lemma_round_trip(b),
            Row::PlaylistEntry(r) => r.lemma_round_trip(b),
            Row::Track(r) => r.lemma_round_trip(b),
        }
    }

    /// A row that can be read occupies at least one byte and no more than there are.
    pub proof fn lemma_decoded_len_bounds(b: Seq<u8>, t: PageType)
        requires
            Self::decode_error(b, t) is None,
        ensures
            0 < Self::decoded_len(b, t) <= b.len(),
    {
        if t is Tracks {
            Track::lemma_decoded_len_bounds(b);
        }
    }

    /// Reads the row at the start of `bytes` as a row of a table of kind
    /// `page_type`, and says how many bytes it occupies.
    pub fn decode(bytes: &[u8], page_type: PageType) -> (r: Result<(Row, usize), PdbError>)
        ensures
            match r {
                Ok((row, n)) => {
                    &&& Self::decode_error(bytes@, page_type) is None
                    &&& n == Self::decoded_len(bytes@, page_type)
                    &&& row.parsed_from(bytes@, page_type)
                    &&& row.encoding() == Ok::<Seq<u8>, PdbError>(bytes@.subrange(0, n as int))
                },
                Err(e) => Self::decode_error(bytes@, page_type) == Some(e),
            },
    {
        match page_type {
            PageType::Tracks => match Track::decode(bytes) {
                Ok((r, n)) => Ok((Row::Track(r), n)),
                Err(e) => Err(e),
            },
            PageType::Genres => match Genre::decode(bytes) {
                Ok((r, n)) => Ok((Row::Genre(r), n)),
                Err(e) => Err(e),
            },
            PageType::Artists => match Artist::decode(bytes) {
                Ok((r, n)) => Ok((Row::Artist(r), n)),
                Err(e) => Err(e),
            },
            PageType::Albums => match Album::decode(bytes) {
                Ok((r, n)) => Ok((Row::Album(r), n)),
                Err(e) => Err(e),
            },
            PageType::Labels => match Label::decode(bytes) {
                Ok((r, n)) => Ok((Row::Label(r), n)),
                Err(e) => Err(e),
            },
            PageType::Keys => match Key::decode(bytes) {
                Ok((r, n)) => Ok((Row::Key(r), n)),
                Err(e) => Err(e),
            },
            PageType::Colors => match Color::decode(bytes) {
                Ok((r, n)) => Ok((Row::Color(r), n)),
                Err(e) => Err(e),
            },
            PageType::PlaylistTree => match PlaylistTreeNode::decode(bytes) {
                Ok((r, n)) => Ok((Row::PlaylistTreeNode(r), n)),
                Err(e) => Err(e),
            },
            PageType::PlaylistEntries => match PlaylistEntry::decode(bytes) {
                Ok((r, n)) => Ok((Row::PlaylistEntry(r), n)),
                Err(e) => Err(e),
            },
            PageType::HistoryPlaylists => match HistoryPlaylist::decode(bytes) {
                Ok((r, n)) => Ok((Row::HistoryPlaylist(r), n)),
                Err(e) => Err(e),
            },
            PageType::HistoryEntries => match HistoryEntry::decode(bytes) {
                Ok((r, n)) => Ok((Row::HistoryEntry(r), n)),
                Err(e) => Err(e),
            },
            PageType::Artwork => match Artwork::decode(bytes) {
                Ok((r, n)) => Ok((Row::Artwork(r), n)),
                Err(e) => Err(e),
            },
            PageType::Unknown(_) => Err(PdbError::UnsupportedVariant),
        }
    }

    /// Writes the row.
    pub fn encode(&self) -> (r: Result<Vec<u8>, PdbError>)
        ensures
            match r {
                Ok(v) => self.encoding() == Ok::<Seq<u8>, PdbError>(v@),
                Err(e) => self.encoding() == Err::<Seq<u8>, PdbError>(e),
            },
    {
        match self {
            Row::Album(r) => r.encode(),
            Row::Artist(r) => r.encode(),
            Row::Artwork(r) => r.encode(),
            Row::Color(r) => r.encode(),
            Row::Genre(r) => r.encode(),
            Row::HistoryPlaylist(r) => r.encode(),
            Row::HistoryEntry(r) => r.encode(),
            Row::Key(r) => r.encode(),
            Row::Label(r) => r.encode(),
            Row::PlaylistTreeNode(r) => r.encode(),
            Row::PlaylistEntry(r) => r.encode(),
            Row::Track(r) => r.encode(),
        }
    }

    /// The kind of table that holds rows of this variant.
    #[verifier::when_used_as_spec(page_type_spec)]
    pub fn page_type(&self) -> (t: PageType)
        ensures
            t == self.page_type_spec(),
    {
        match self {
            Row::Album(_) => PageType::Albums,
            Row::Artist(_) => PageType::Artists,
            Row::Artwork(_) => PageType::Artwork,
            Row::Color(_) => PageType::Colors,
            Row::Genre(_) => PageType::Genres,
            Row::HistoryPlaylist(_) => PageType::HistoryPlaylists,
            Row::HistoryEntry(_) => PageType::HistoryEntries,
            Row::Key(_) => PageType::Keys,
            Row::Label(_) => PageType::Labels,
            Row::PlaylistTreeNode(_) => PageType::PlaylistTree,
            Row::PlaylistEntry(_) => PageType::PlaylistEntries,
            Row::Track(_) => PageType::Tracks,
        }
    }
}

} // verus!

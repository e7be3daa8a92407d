//! Track rows.
//!
//! A track row has a fixed part of 94 bytes, a table of 21 string offsets
//! and then the 21 strings, each starting where the one before it ends.

use crate::bytes::{
    lemma_extend_u16, lemma_extend_u32, lemma_extend_u8, lemma_u16_bytes_of_read, push_u16,
    push_u32, push_u8, read_u16, read_u32, read_u8, u16_at, u16_bytes, u32_at, u32_bytes,
};
use crate::pdb::string::{lemma_string_round_trip, string_error, string_len, DeviceString};
use crate::pdb::{format_error, FormatReason, PdbError};
use crate::util::ColorIndex;
use vstd::prelude::*;
use vstd::slice::slice_subrange;

verus! {

/// Number of strings in a track row.
pub const TRACK_STRINGS: usize = 21;

/// Offset of the table of string offsets in a track row.
pub const TRACK_OFFSETS_AT: usize = 94;

/// Offset of the first string in a track row.
pub const TRACK_STRINGS_AT: usize = 136;

/// Index of the ISRC among the strings of a track.
pub const TRACK_ISRC: usize = 0;

/// Index of the date on which the track was added.
pub const TRACK_DATE_ADDED: usize = 10;

/// Index of the release date.
pub const TRACK_RELEASE_DATE: usize = 11;

/// Index of the name of the mix.
pub const TRACK_MIX_NAME: usize = 12;

/// Index of the path of the analysis file.
pub const TRACK_ANALYZE_PATH: usize = 14;

/// Index of the date of the analysis.
pub const TRACK_ANALYZE_DATE: usize = 15;

/// Index of the comment.
pub const TRACK_COMMENT: usize = 16;

/// Index of the title.
pub const TRACK_TITLE: usize = 17;

/// Index of the name of the audio file.
pub const TRACK_FILENAME: usize = 19;

/// Index of the path of the audio file.
pub const TRACK_FILE_PATH: usize = 20;

/// A track.
#[derive(Debug, Clone, PartialEq, Eq)]
pub struct Track {
    /// Unknown field, usually `0x24`.
    pub subtype: u16,
    /// Position of the row in its page, shifted left by five bits.
    pub index_shift: u16,
    /// Unknown bit field.
    pub bitmask: u32,
    /// Sample rate in Hz.
    pub sample_rate: u32,
    /// Id of the composer in the artist table.
    pub composer_id: u32,
    /// Size of the audio file in bytes.
    pub file_size: u32,
    /// Unknown field.
    pub unknown2: u32,
    /// Unknown field.
    pub unknown3: u16,
    /// Unknown field.
    pub unknown4: u16,
    /// Id of the artwork.
    pub artwork_id: u32,
    /// Id of the musical key.
    pub key_id: u32,
    /// Id of the original artist.
    pub orig_artist_id: u32,
    /// Id of the record label.
    pub label_id: u32,
    /// Id of the remixer.
    pub remixer_id: u32,
    /// Bit rate of the audio file.
    pub bitrate: u32,
    /// Position of the track on its album.
    pub track_number: u32,
    /// Tempo in hundredths of a beat per minute.
    pub tempo: u32,
    /// Id of the genre.
    pub genre_id: u32,
    /// Id of the album.
    pub album_id: u32,
    /// Id of the artist.
    pub artist_id: u32,
    /// Id of this row.
    pub id: u32,
    /// Number of the disc that the track is on.
    pub disc_number: u16,
    /// How often the track was played.
    pub play_count: u16,
    /// Year of release.
    pub year: u16,
    /// Bits per sample.
    pub sample_depth: u16,
    /// Playing time in seconds.
    pub duration: u16,
    /// Unknown field, usually `0x29`.
    pub unknown5: u16,
    /// Number of the color label.
    pub color_id: u8,
    /// Rating, from zero to five stars.
    pub rating: u8,
    /// Unknown field, usually `1`.
    pub unknown6: u16,
    /// Unknown field, usually `2` or `3`.
    pub unknown7: u16,
    /// The strings of the track, in the order of the offset table; the
    /// constants `TRACK_TITLE` and so on name the known ones.
    pub strings: Vec<DeviceString>,
}

impl Track {
    /// Whether the fields in front of the offset table hold what `b` says.
    pub open spec fn fixed_parsed_from(&self, b: Seq<u8>) -> bool {
        &&& self.subtype == u16_at(b, 0)
        &&& self.index_shift == u16_at(b, 2)
        &&& self.bitmask == u32_at(b, 4)
        &&& self.sample_rate == u32_at(b, 8)
        &&& self.composer_id == u32_at(b, 12)
        &&& self.file_size == u32_at(b, 16)
        &&& self.unknown2 == u32_at(b, 20)
        &&& self.unknown3 == u16_at(b, 24)
        &&& self.unknown4 == u16_at(b, 26)
        &&& self.artwork_id == u32_at(b, 28)
        &&& self.key_id == u32_at(b, 32)
        &&& self.orig_artist_id == u32_at(b, 36)
        &&& self.label_id == u32_at(b, 40)
        &&& self.remixer_id == u32_at(b, 44)
        &&& self.bitrate == u32_at(b, 48)
        &&& self.track_number == u32_at(b, 52)
        &&& self.tempo == u32_at(b, 56)
        &&& self.genre_id == u32_at(b, 60)
        &&& self.album_id == u32_at(b, 64)
        &&& self.artist_id == u32_at(b, 68)
        &&& self.id == u32_at(b, 72)
        &&& self.disc_number == u16_at(b, 76)
        &&& self.play_count == u16_at(b, 78)
        &&& self.year == u16_at(b, 80)
        &&& self.sample_depth == u16_at(b, 82)
        &&& self.duration == u16_at(b, 84)
        &&& self.unknown5 == u16_at(b, 86)
        &&& self.color_id == b[88]
        &&& self.rating == b[89]
        &&& self.unknown6 == u16_at(b, 90)
        &&& self.unknown7 == u16_at(b, 92)
    }

    /// The bytes of the fields in front of the offset table.
    pub open spec fn fixed_bytes(&self) -> Seq<u8> {
        u16_bytes(self.subtype) + u16_bytes(self.index_shift) + u32_bytes(self.bitmask)
            + u32_bytes(self.sample_rate) + u32_bytes(self.composer_id)
            + u32_bytes(self.file_size) + u32_bytes(self.unknown2) + u16_bytes(self.unknown3)
            + u16_bytes(self.unknown4) + u32_bytes(self.artwork_id) + u32_bytes(self.key_id)
            + u32_bytes(self.orig_artist_id) + u32_bytes(self.label_id)
            + u32_bytes(self.remixer_id) + u32_bytes(self.bitrate) + u32_bytes(self.track_number)
            + u32_bytes(self.tempo) + u32_bytes(self.genre_id) + u32_bytes(self.album_id)
            + u32_bytes(self.artist_id) + u32_bytes(self.id) + u16_bytes(self.disc_number)
            + u16_bytes(self.play_count) + u16_bytes(self.year) + u16_bytes(self.sample_depth)
            + u16_bytes(self.duration) + u16_bytes(self.unknown5) + seq![self.color_id]
            + seq![self.rating] + u16_bytes(self.unknown6) + u16_bytes(self.unknown7)
    }

    /// The offset at which string `i` starts: the first behind the offset
    /// table, each other one behind the string in front of it.
    pub open spec fn string_start(b: Seq<u8>, i: int) -> int
        decreases i,
    {
        if i <= 0 {
            TRACK_STRINGS_AT as int
        } else {
            let p = Self::string_start(b, i - 1);
            p + string_len(b.skip(p))
        }
    }

    /// The first thing that is wrong with one of the first `n` strings: an
    /// offset in the table that is not where the string has to start, or a
    /// string that cannot be read.
    pub open spec fn strings_error(b: Seq<u8>, n: int) -> Option<PdbError>
        decreases n,
    {
        if n <= 0 {
            None
        } else {
            match Self::strings_error(b, n - 1) {
                Some(e) => Some(e),
                None => {
                    let p = Self::string_start(b, n - 1);
                    if u16_at(b, TRACK_OFFSETS_AT + 2 * (n - 1)) != p {
                        Some(format_error(FormatReason::StringOffset))
                    } else {
                        string_error(b.skip(p))
                    }
                },
            }
        }
    }

    /// Why `b` does not start with a track row, or `None` if it does.
    pub open spec fn decode_error(b: Seq<u8>) -> Option<PdbError> {
        if b.len() < TRACK_STRINGS_AT {
            Some(format_error(FormatReason::Truncated))
        } else {
            Self::strings_error(b, TRACK_STRINGS as int)
        }
    }

    /// The number of bytes that the row at the start of `b` occupies.
    pub open spec fn decoded_len(b: Seq<u8>) -> int {
        Self::string_start(b, TRACK_STRINGS as int)
    }

    /// Whether this row is what `b` starts with.
    pub open spec fn parsed_from(&self, b: Seq<u8>) -> bool {
        &&& self.fixed_parsed_from(b)
        &&& self.strings@.len() == TRACK_STRINGS
        &&& forall|i: int|
            0 <= i < TRACK_STRINGS ==> (#[trigger] self.strings@[i]).parsed_from(
                b.skip(Self::string_start(b, i)),
            )
    }

    /// The bytes of the first `n` strings, one behind the other. Fails where
    /// a string cannot be written, or would start too far into the row for
    /// the offset table to say where.
    pub open spec fn strings_bytes(strings: Seq<DeviceString>, n: int) -> Result<
        Seq<u8>,
        PdbError,
    >
        decreases n,
    {
        if n <= 0 {
            Ok(Seq::empty())
        } else {
            match Self::strings_bytes(strings, n - 1) {
                Err(e) => Err(e),
                Ok(front) => if TRACK_STRINGS_AT + front.len() > 0xFFFF {
                    Err(format_error(FormatReason::Overflow))
                } else {
                    match strings[n - 1].encoding() {
                        Err(e) => Err(e),
                        Ok(s) => Ok(front + s),
                    }
                },
            }
        }
    }

    /// The first `n` entries of the offset table.
    pub open spec fn offsets_bytes(strings: Seq<DeviceString>, n: int) -> Seq<u8>
        decreases n,
    {
        if n <= 0 {
            Seq::empty()
        } else {
            Self::offsets_bytes(strings, n - 1) + u16_bytes(
                (TRACK_STRINGS_AT + Self::strings_bytes(strings, n - 1).unwrap().len()) as u16,
            )
        }
    }

    /// The bytes of this row, or the reason why it cannot be written.
    pub open spec fn encoding(&self) -> Result<Seq<u8>, PdbError> {
        if self.strings@.len() != TRACK_STRINGS {
            Err(format_error(FormatReason::Shape))
        } else {
            match Self::strings_bytes(self.strings@, TRACK_STRINGS as int) {
                Err(e) => Err(e),
                Ok(tail) => Ok(
                    self.fixed_bytes() + Self::offsets_bytes(self.strings@, TRACK_STRINGS as int)
                        + tail,
                ),
            }
        }
    }

    /// An error among the first strings is the error of the whole table.
    proof fn lemma_strings_error_stays(b: Seq<u8>, n: int, m: int)
        requires
            0 <= n <= m,
            Self::strings_error(b, n) is Some,
        ensures
            Self::strings_error(b, m) == Self::strings_error(b, n),
        decreases m - n,
    {
        if n < m {
            Self::lemma_strings_error_stays(b, n, m - 1);
        }
    }

    /// Where the strings can be read, each starts inside `b`.
    proof fn lemma_string_start_bounds(b: Seq<u8>, n: int)
        requires
            0 <= n,
            b.len() >= TRACK_STRINGS_AT,
            Self::strings_error(b, n) is None,
        ensures
            TRACK_STRINGS_AT <= Self::string_start(b, n) <= b.len(),
        decreases n,
    {
        if n > 0 {
            Self::lemma_string_start_bounds(b, n - 1);
        }
    }

    /// A track row that can be read ends inside `b`.
    pub proof fn lemma_decoded_len_bounds(b: Seq<u8>)
        requires
            Self::decode_error(b) is None,
        ensures
            TRACK_STRINGS_AT <= Self::decoded_len(b) <= b.len(),
    {
        Self::lemma_string_start_bounds(b, TRACK_STRINGS as int);
    }

    /// The fixed part that was read from `b` is written as the first bytes of `b`.
    proof fn lemma_fixed_round_trip(&self, b: Seq<u8>)
        requires
            b.len() >= TRACK_OFFSETS_AT,
            self.fixed_parsed_from(b),
        ensures
            self.fixed_bytes() == b.subrange(0, TRACK_OFFSETS_AT as int),
    {
        let p = Seq::<u8>::empty();
        assert(p =~= b.subrange(0, 0));
        lemma_extend_u16(p, b, 0, self.subtype);
        let p = p + u16_bytes(self.subtype);
        lemma_extend_u16(p, b, 2, self.index_shift);
        let p = p + u16_bytes(self.index_shift);
        lemma_extend_u32(p, b, 4, self.bitmask);
        let p = p + u32_bytes(self.bitmask);
        lemma_extend_u32(p, b, 8, self.sample_rate);
        let p = p + u32_bytes(self.sample_rate);
        lemma_extend_u32(p, b, 12, self.composer_id);
        let p = p + u32_bytes(self.composer_id);
        lemma_extend_u32(p, b, 16, self.file_size);
        let p = p + u32_bytes(self.file_size);
        lemma_extend_u32(p, b, 20, self.unknown2);
        let p = p + u32_bytes(self.unknown2);
        lemma_extend_u16(p, b, 24, self.unknown3);
        let p = p + u16_bytes(self.unknown3);
        lemma_extend_u16(p, b, 26, self.unknown4);
        let p = p + u16_bytes(self.unknown4);
        lemma_extend_u32(p, b, 28, self.artwork_id);
        let p = p + u32_bytes(self.artwork_id);
        lemma_extend_u32(p, b, 32, self.key_id);
        let p = p + u32_bytes(self.key_id);
        lemma_extend_u32(p, b, 36, self.orig_artist_id);
        let p = p + u32_bytes(self.orig_artist_id);
        lemma_extend_u32(p, b, 40, self.label_id);
        let p = p + u32_bytes(self.label_id);
        lemma_extend_u32(p, b, 44, self.remixer_id);
        let p = p + u32_bytes(self.remixer_id);
        lemma_extend_u32(p, b, 48, self.bitrate);
        let p = p + u32_bytes(self.bitrate);
        lemma_extend_u32(p, b, 52, self.track_number);
        let p = p + u32_bytes(self.track_number);
        lemma_extend_u32(p, b, 56, self.tempo);
        let p = p + u32_bytes(self.tempo);
        lemma_extend_u32(p, b, 60, self.genre_id);
        let p = p + u32_bytes(self.genre_id);
        lemma_extend_u32(p, b, 64, self.album_id);
        let p = p + u32_bytes(self.album_id);
        lemma_extend_u32(p, b, 68, self.artist_id);
        let p = p + u32_bytes(self.artist_id);
        lemma_extend_u32(p, b, 72, self.id);
        let p = p + u32_bytes(self.id);
        lemma_extend_u16(p, b, 76, self.disc_number);
        let p = p + u16_bytes(self.disc_number);
        lemma_extend_u16(p, b, 78, self.play_count);
        let p = p + u16_bytes(self.play_count);
        lemma_extend_u16(p, b, 80, self.year);
        let p = p + u16_bytes(self.year);
        lemma_extend_u16(p, b, 82, self.sample_depth);
        let p = p + u16_bytes(self.sample_depth);
        lemma_extend_u16(p, b, 84, self.duration);
        let p = p + u16_bytes(self.duration);
        lemma_extend_u16(p, b, 86, self.unknown5);
        let p = p + u16_bytes(self.unknown5);
        lemma_extend_u8(p, b, 88, self.color_id);
        let p = p + seq![self.color_id];
        lemma_extend_u8(p, b, 89, self.rating);
        let p = p + seq![self.rating];
        lemma_extend_u16(p, b, 90, self.unknown6);
        let p = p + u16_bytes(self.unknown6);
        lemma_extend_u16(p, b, 92, self.unknown7);
        let p = p + u16_bytes(self.unknown7);
        assert(Seq::<u8>::empty() + u16_bytes(self.subtype) =~= u16_bytes(self.subtype));
    }

    /// The first `n` strings and offsets that were read from `b` are written
    /// as the bytes of `b` that hold them.
    proof fn lemma_strings_round_trip(&self, b: Seq<u8>, n: int)
        requires
            0 <= n <= TRACK_STRINGS,
            b.len() >= TRACK_STRINGS_AT,
            Self::strings_error(b, n) is None,
            self.parsed_from(b),
        ensures
            Self::strings_bytes(self.strings@, n) == Ok::<Seq<u8>, PdbError>(
                b.subrange(TRACK_STRINGS_AT as int, Self::string_start(b, n)),
            ),
            Self::offsets_bytes(self.strings@, n) == b.subrange(
                TRACK_OFFSETS_AT as int,
                TRACK_OFFSETS_AT + 2 * n,
            ),
        decreases n,
    {
        if n <= 0 {
            assert(b.subrange(TRACK_STRINGS_AT as int, TRACK_STRINGS_AT as int) =~= Seq::<
                u8,
            >::empty());
            assert(b.subrange(TRACK_OFFSETS_AT as int, TRACK_OFFSETS_AT as int) =~= Seq::<
                u8,
            >::empty());
        } else {
            self.lemma_strings_round_trip(b, n - 1);
            Self::lemma_string_start_bounds(b, n - 1);
            Self::lemma_string_start_bounds(b, n);
            let p = Self::string_start(b, n - 1);
            let q = Self::string_start(b, n);
            let s = self.strings@[n - 1];
            assert(s.parsed_from(b.skip(p)));
            lemma_string_round_trip(b.skip(p));
            assert(b.skip(p).subrange(0, q - p) =~= b.subrange(p, q));
            assert(b.subrange(TRACK_STRINGS_AT as int, p) + b.subrange(p, q) =~= b.subrange(
                TRACK_STRINGS_AT as int,
                q,
            ));
            lemma_u16_bytes_of_read(b, TRACK_OFFSETS_AT + 2 * (n - 1));
            assert(b.subrange(TRACK_OFFSETS_AT as int, TRACK_OFFSETS_AT + 2 * (n - 1))
                + b.subrange(TRACK_OFFSETS_AT + 2 * (n - 1), TRACK_OFFSETS_AT + 2 * n)
                =~= b.subrange(TRACK_OFFSETS_AT as int, TRACK_OFFSETS_AT + 2 * n));
        }
    }

    /// Writing a row that was read from `b` gives the bytes of `b` that the
    /// row occupies.
    pub proof fn lemma_round_trip(&self, b: Seq<u8>)
        requires
            Self::decode_error(b) is None,
            self.parsed_from(b),
        ensures
            self.encoding() == Ok::<Seq<u8>, PdbError>(b.subrange(0, Self::decoded_len(b))),
    {
        let n = TRACK_STRINGS as int;
        self.lemma_fixed_round_trip(b);
        self.lemma_strings_round_trip(b, n);
        Self::lemma_string_start_bounds(b, n);
        let q = Self::string_start(b, n);
        assert(b.subrange(0, TRACK_OFFSETS_AT as int) + b.subrange(
            TRACK_OFFSETS_AT as int,
            TRACK_STRINGS_AT as int,
        ) + b.subrange(TRACK_STRINGS_AT as int, q) =~= b.subrange(0, q));
    }

    /// Reads the row at the start of `bytes`, and says how many bytes it occupies.
    pub fn decode(bytes: &[u8]) -> (r: Result<(Track, usize), PdbError>)
        ensures
            match r {
                Ok((row, n)) => {
                    &&& Self::decode_error(bytes@) is None
                    &&& n == Self::decoded_len(bytes@)
                    &&& row.parsed_from(bytes@)
                    &&& row.encoding() == Ok::<Seq<u8>, PdbError>(bytes@.subrange(0, n as int))
                },
                Err(e) => Self::decode_error(bytes@) == Some(e),
            },
    {
        if bytes.len() < TRACK_STRINGS_AT {
            return Err(PdbError::Format { reason: FormatReason::Truncated });
        }
        let subtype = read_u16(bytes, 0);
        let index_shift = read_u16(bytes, 2);
        let bitmask = read_u32(bytes, 4);
        let sample_rate = read_u32(bytes, 8);
        let composer_id = read_u32(bytes, 12);
        let file_size = read_u32(bytes, 16);
        let unknown2 = read_u32(bytes, 20);
        let unknown3 = read_u16(bytes, 24);
        let unknown4 = read_u16(bytes, 26);
        let artwork_id = read_u32(bytes, 28);
        let key_id = read_u32(bytes, 32);
        let orig_artist_id = read_u32(bytes, 36);
        let label_id = read_u32(bytes, 40);
        let remixer_id = read_u32(bytes, 44);
        let bitrate = read_u32(bytes, 48);
        let track_number = read_u32(bytes, 52);
        let tempo = read_u32(bytes, 56);
        let genre_id = read_u32(bytes, 60);
        let album_id = read_u32(bytes, 64);
        let artist_id = read_u32(bytes, 68);
        let id = read_u32(bytes, 72);
        let disc_number = read_u16(bytes, 76);
        let play_count = read_u16(bytes, 78);
        let year = read_u16(bytes, 80);
        let sample_depth = read_u16(bytes, 82);
        let duration = read_u16(bytes, 84);
        let unknown5 = read_u16(bytes, 86);
        let color_id = read_u8(bytes, 88);
        let rating = read_u8(bytes, 89);
        let unknown6 = read_u16(bytes, 90);
        let unknown7 = read_u16(bytes, 92);
        let mut strings: Vec<DeviceString> = Vec::new();
        let mut pos: usize = TRACK_STRINGS_AT;
        let mut i: usize = 0;
        while i < TRACK_STRINGS
            invariant
                0 <= i <= TRACK_STRINGS,
                bytes@.len() >= TRACK_STRINGS_AT,
                Self::strings_error(bytes@, i as int) is None,
                pos == Self::string_start(bytes@, i as int),
                TRACK_STRINGS_AT <= pos <= bytes@.len(),
                strings@.len() == i,
                forall|j: int|
                    0 <= j < i ==> (#[trigger] strings@[j]).parsed_from(
                        bytes@.skip(Self::string_start(bytes@, j)),
                    ),
            decreases TRACK_STRINGS - i,
        {
            proof {
                if Self::strings_error(bytes@, i + 1) is Some {
                    Self::lemma_strings_error_stays(bytes@, i + 1, TRACK_STRINGS as int);
                }
            }
            let declared = read_u16(bytes, TRACK_OFFSETS_AT + 2 * i);
            if declared as usize != pos {
                return Err(PdbError::Format { reason: FormatReason::StringOffset });
            }
            let (s, n) = match DeviceString::decode(slice_subrange(bytes, pos, bytes.len())) {
                Ok(v) => v,
                Err(e) => return Err(e),
            };
            strings.push(s);
            pos = pos + n;
            i += 1;
        }
        let row = Track {
            subtype, index_shift, bitmask, sample_rate, composer_id, file_size, unknown2,
            unknown3, unknown4, artwork_id, key_id, orig_artist_id, label_id, remixer_id,
            bitrate, track_number, tempo, genre_id, album_id, artist_id, id, disc_number,
            play_count, year, sample_depth, duration, unknown5, color_id, rating, unknown6,
            unknown7, strings,
        };
        proof {
            row.lemma_round_trip(bytes@);
        }
        Ok((row, pos))
    }

    /// Writes the row. Fails if it does not have 21 strings, if a string
    /// cannot be written, or if a string would start behind offset 65535.
    pub fn encode(&self) -> (r: Result<Vec<u8>, PdbError>)
        ensures
            match r {
                Ok(v) => self.encoding() == Ok::<Seq<u8>, PdbError>(v@),
                Err(e) => self.encoding() == Err::<Seq<u8>, PdbError>(e),
            },
    {
        if self.strings.len() != TRACK_STRINGS {
            return Err(PdbError::Format { reason: FormatReason::Shape });
        }
        let mut offsets: Vec<u8> = Vec::new();
        let mut tail: Vec<u8> = Vec::new();
        let mut i: usize = 0;
        while i < TRACK_STRINGS
            invariant
                0 <= i <= TRACK_STRINGS,
                self.strings@.len() == TRACK_STRINGS,
                Self::strings_bytes(self.strings@, i as int) == Ok::<Seq<u8>, PdbError>(tail@),
                offsets@ == Self::offsets_bytes(self.strings@, i as int),
            decreases TRACK_STRINGS - i,
        {
            proof {
                if Self::strings_bytes(self.strings@, i + 1) is Err {
                    Self::lemma_strings_bytes_error_stays(
                        self.strings@,
                        i + 1,
                        TRACK_STRINGS as int,
                    );
                }
            }
            if tail.len() > 0xFFFF - TRACK_STRINGS_AT {
                return Err(PdbError::Format { reason: FormatReason::Overflow });
            }
            let mut s = match self.strings[i].encode() {
                Ok(v) => v,
                Err(e) => return Err(e),
            };
            push_u16(&mut offsets, (TRACK_STRINGS_AT + tail.len()) as u16);
            tail.append(&mut s);
            i += 1;
        }
        let mut out: Vec<u8> = Vec::new();
        push_u16(&mut out, self.subtype);
        assert(out@ =~= u16_bytes(self.subtype));
        push_u16(&mut out, self.index_shift);
        push_u32(&mut out, self.bitmask);
        push_u32(&mut out, self.sample_rate);
        push_u32(&mut out, self.composer_id);
        push_u32(&mut out, self.file_size);
        push_u32(&mut out, self.unknown2);
        push_u16(&mut out, self.unknown3);
        push_u16(&mut out, self.unknown4);
        push_u32(&mut out, self.artwork_id);
        push_u32(&mut out, self.key_id);
        push_u32(&mut out, self.orig_artist_id);
        push_u32(&mut out, self.label_id);
        push_u32(&mut out, self.remixer_id);
        push_u32(&mut out, self.bitrate);
        push_u32(&mut out, self.track_number);
        push_u32(&mut out, self.tempo);
        push_u32(&mut out, self.genre_id);
        push_u32(&mut out, self.album_id);
        push_u32(&mut out, self.artist_id);
        push_u32(&mut out, self.id);
        push_u16(&mut out, self.disc_number);
        push_u16(&mut out, self.play_count);
        push_u16(&mut out, self.year);
        push_u16(&mut out, self.sample_depth);
        push_u16(&mut out, self.duration);
        push_u16(&mut out, self.unknown5);
        push_u8(&mut out, self.color_id);
        push_u8(&mut out, self.rating);
        push_u16(&mut out, self.unknown6);
        push_u16(&mut out, self.unknown7);
        out.append(&mut offsets);
        out.append(&mut tail);
        Ok(out)
    }

    /// An error among the first strings is the error of writing all of them.
    proof fn lemma_strings_bytes_error_stays(strings: Seq<DeviceString>, n: int, m: int)
        requires
            0 <= n <= m,
            Self::strings_bytes(strings, n) is Err,
        ensures
            Self::strings_bytes(strings, m) == Self::strings_bytes(strings, n),
        decreases m - n,
    {
        if n < m {
            Self::lemma_strings_bytes_error_stays(strings, n, m - 1);
        }
    }

    /// The string with the given index, if the track has one.
    pub fn string(&self, index: usize) -> (r: Option<&DeviceString>)
        ensures
            r == (if index < self.strings@.len() {
                Some(&self.strings@[index as int])
            } else {
                None::<&DeviceString>
            }),
    {
        if index < self.strings.len() {
            Some(&self.strings[index])
        } else {
            None
        }
    }

    /// The color that the track is labelled with.
    pub fn color(&self) -> (c: ColorIndex)
        ensures
            c == ColorIndex::of_id(self.color_id as u16),
    {
        ColorIndex::from(self.color_id as u16)
    }
}

} // verus!

//! History entry rows.

use crate::bytes::{lemma_extend_u32, push_u32, read_u32, u32_at, u32_bytes};
use crate::pdb::{format_error, FormatReason, PdbError};
use vstd::prelude::*;

verus! {

/// The place of one track in a history playlist.
#[derive(Debug, Clone, PartialEq, Eq)]
pub struct HistoryEntry {
    /// Id of the track.
    pub track_id: u32,
    /// Id of the history playlist.
    pub playlist_id: u32,
    /// Position within the playlist.
    pub entry_index: u32,
}

impl HistoryEntry {
    /// Whether the fields in front of the end hold what `b` says.
    pub open spec fn fixed_parsed_from(&self, b: Seq<u8>) -> bool {
        &&& self.track_id == u32_at(b, 0)
        &&& self.playlist_id == u32_at(b, 4)
        &&& self.entry_index == u32_at(b, 8)
    }

    /// The bytes of the fields in front of the end.
    pub open spec fn fixed_bytes(&self) -> Seq<u8> {
        u32_bytes(self.track_id) + u32_bytes(self.playlist_id) + u32_bytes(self.entry_index)
    }

    /// Why `b` does not start with a row of this kind, or `None` if it does.
    pub open spec fn decode_error(b: Seq<u8>) -> Option<PdbError> {
        if b.len() < 12 {
            Some(format_error(FormatReason::Truncated))
        } else {
            None
        }
    }

    /// The number of bytes that the row at the start of `b` occupies.
    pub open spec fn decoded_len(b: Seq<u8>) -> int {
        12
    }

    /// Whether this row is what `b` starts with.
    pub open spec fn parsed_from(&self, b: Seq<u8>) -> bool {
        self.fixed_parsed_from(b)
    }

    /// The bytes of this row, or the reason why it cannot be written.
    pub open spec fn encoding(&self) -> Result<Seq<u8>, PdbError> {
        Ok(self.fixed_bytes())
    }

    /// Writing a row that was read from `b` gives the bytes of `b` that the
    /// row occupies.
    pub proof fn lemma_round_trip(&self, b: Seq<u8>)
        requires
            Self::decode_error(b) is None,
            self.parsed_from(b),
        ensures
            self.encoding() == Ok::<Seq<u8>, PdbError>(b.subrange(0, Self::decoded_len(b))),
    {
        let p = Seq::<u8>::empty();
        assert(p =~= b.subrange(0, 0));
        lemma_extend_u32(p, b, 0, self.track_id);
        let p = p + u32_bytes(self.track_id);
        lemma_extend_u32(p, b, 4, self.playlist_id);
        let p = p + u32_bytes(self.playlist_id);
        lemma_extend_u32(p, b, 8, self.entry_index);
        let p = p + u32_bytes(self.entry_index);
        assert(Seq::<u8>::empty() + u32_bytes(self.track_id) =~= u32_bytes(self.track_id));
    }

    /// Reads the row at the start of `bytes`, and says how many bytes it occupies.
    pub fn decode(bytes: &[u8]) -> (r: Result<(HistoryEntry, usize), PdbError>)
        ensures
            match r {
                Ok((row, n)) => {
                    &&& Self::decode_error(bytes@) is None
                    &&& n == Self::decoded_len(bytes@)
                    &&& row.parsed_from(bytes@)
                    &&& row.encoding() == Ok::<Seq<u8>, PdbError>(bytes@.subrange(0, n as int))
                },
                Err(e) => Self::decode_error(bytes@) == Some(e),
            },
    {
        if bytes.len() < 12 {
            return Err(PdbError::Format { reason: FormatReason::Truncated });
        }
        let track_id = read_u32(bytes, 0);
        let playlist_id = read_u32(bytes, 4);
        let entry_index = read_u32(bytes, 8);
        let row = HistoryEntry { track_id, playlist_id, entry_index };
        proof {
            row.lemma_round_trip(bytes@);
        }
        Ok((row, 12))
    }

    /// Writes the row.
    pub fn encode(&self) -> (r: Result<Vec<u8>, PdbError>)
        ensures
            match r {
                Ok(v) => self.encoding() == Ok::<Seq<u8>, PdbError>(v@),
                Err(e) => self.encoding() == Err::<Seq<u8>, PdbError>(e),
            },
    {
        let mut out: Vec<u8> = Vec::new();
        push_u32(&mut out, self.track_id);
        assert(out@ =~= u32_bytes(self.track_id));
        push_u32(&mut out, self.playlist_id);
        push_u32(&mut out, self.entry_index);
        Ok(out)
    }
}

} // verus!

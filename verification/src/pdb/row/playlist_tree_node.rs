//! Playlist tree rows.

use crate::bytes::{lemma_extend_u32, push_u32, read_u32, u32_at, u32_bytes};
use crate::pdb::string::{lemma_string_round_trip, string_error, string_len, DeviceString};
use crate::pdb::{format_error, FormatReason, PdbError};
use vstd::prelude::*;
use vstd::slice::slice_subrange;

verus! {

/// A node of the playlist tree: a playlist or a folder of playlists.
#[derive(Debug, Clone, PartialEq, Eq)]
pub struct PlaylistTreeNode {
    /// Id of the folder that holds this node; `0` at the top level.
    pub parent_id: u32,
    /// Unknown field.
    pub unknown: u32,
    /// Position among the nodes of the same folder.
    pub sort_index: u32,
    /// Id of this row.
    pub id: u32,
    /// Not zero if the node is a folder.
    pub node_is_folder: u32,
    /// Name of the playlist or folder.
    pub name: DeviceString,
}

impl PlaylistTreeNode {
    /// Whether the fields in front of the string hold what `b` says.
    pub open spec fn fixed_parsed_from(&self, b: Seq<u8>) -> bool {
        &&& self.parent_id == u32_at(b, 0)
        &&& self.unknown == u32_at(b, 4)
        &&& self.sort_index == u32_at(b, 8)
        &&& self.id == u32_at(b, 12)
        &&& self.node_is_folder == u32_at(b, 16)
    }

    /// The bytes of the fields in front of the string.
    pub open spec fn fixed_bytes(&self) -> Seq<u8> {
        u32_bytes(self.parent_id) + u32_bytes(self.unknown) + u32_bytes(self.sort_index)
            + u32_bytes(self.id) + u32_bytes(self.node_is_folder)
    }

    /// Why `b` does not start with a row of this kind, or `None` if it does.
    pub open spec fn decode_error(b: Seq<u8>) -> Option<PdbError> {
        if b.len() < 20 {
            Some(format_error(FormatReason::Truncated))
        } else {
            string_error(b.skip(20))
        }
    }

    /// The number of bytes that the row at the start of `b` occupies.
    pub open spec fn decoded_len(b: Seq<u8>) -> int {
        20 + string_len(b.skip(20))
    }

    /// Whether this row is what `b` starts with.
    pub open spec fn parsed_from(&self, b: Seq<u8>) -> bool {
        &&& self.fixed_parsed_from(b)
        &&& self.name.parsed_from(b.skip(20))
    }

    /// The bytes of this row, or the reason why it cannot be written.
    pub open spec fn encoding(&self) -> Result<Seq<u8>, PdbError> {
        match self.name.encoding() {
            Ok(name) => Ok(self.fixed_bytes() + name),
            Err(e) => Err(e),
        }
    }

    /// Writing a row that was read from `b` gives the bytes of `b` that the
    /// row occupies.
    pub proof fn lemma_round_trip(&self, b: Seq<u8>)
        requires
            Self::decode_error(b) is None,
            self.parsed_from(b),
        ensures
            self.encoding() == Ok::<Seq<u8>, PdbError>(b.subrange(0, Self::decoded_len(b))),
    {
        let p = Seq::<u8>::empty();
        assert(p =~= b.subrange(0, 0));
        lemma_extend_u32(p, b, 0, self.parent_id);
        let p = p + u32_bytes(self.parent_id);
        lemma_extend_u32(p, b, 4, self.unknown);
        let p = p + u32_bytes(self.unknown);
        lemma_extend_u32(p, b, 8, self.sort_index);
        let p = p + u32_bytes(self.sort_index);
        lemma_extend_u32(p, b, 12, self.id);
        let p = p + u32_bytes(self.id);
        lemma_extend_u32(p, b, 16, self.node_is_folder);
        let p = p + u32_bytes(self.node_is_folder);
        assert(Seq::<u8>::empty() + u32_bytes(self.parent_id) =~= u32_bytes(self.parent_id));
        lemma_string_round_trip(b.skip(20));
        let n = string_len(b.skip(20));
        assert(b.skip(20).subrange(0, n) =~= b.subrange(20, 20 + n));
        assert(b.subrange(0, 20) + b.subrange(20, 20 + n) =~= b.subrange(0, 20 + n));
    }

    /// Reads the row at the start of `bytes`, and says how many bytes it occupies.
    pub fn decode(bytes: &[u8]) -> (r: Result<(PlaylistTreeNode, usize), PdbError>)
        ensures
            match r {
                Ok((row, n)) => {
                    &&& Self::decode_error(bytes@) is None
                    &&& n == Self::decoded_len(bytes@)
                    &&& row.parsed_from(bytes@)
                    &&& row.encoding() == Ok::<Seq<u8>, PdbError>(bytes@.subrange(0, n as int))
                },
                Err(e) => Self::decode_error(bytes@) == Some(e),
            },
    {
        if bytes.len() < 20 {
            return Err(PdbError::Format { reason: FormatReason::Truncated });
        }
        let parent_id = read_u32(bytes, 0);
        let unknown = read_u32(bytes, 4);
        let sort_index = read_u32(bytes, 8);
        let id = read_u32(bytes, 12);
        let node_is_folder = read_u32(bytes, 16);
        let (name, n) = match DeviceString::decode(slice_subrange(bytes, 20, bytes.len())) {
            Ok(v) => v,
            Err(e) => return Err(e),
        };
        let row = PlaylistTreeNode { parent_id, unknown, sort_index, id, node_is_folder, name };
        proof {
            row.lemma_round_trip(bytes@);
        }
        Ok((row, 20 + n))
    }

    /// Writes the row. Fails if the string cannot be written.
    pub fn encode(&self) -> (r: Result<Vec<u8>, PdbError>)
        ensures
            match r {
                Ok(v) => self.encoding() == Ok::<Seq<u8>, PdbError>(v@),
                Err(e) => self.encoding() == Err::<Seq<u8>, PdbError>(e),
            },
    {
        let mut name = match self.name.encode() {
            Ok(v) => v,
            Err(e) => return Err(e),
        };
        let mut out: Vec<u8> = Vec::new();
        push_u32(&mut out, self.parent_id);
        assert(out@ =~= u32_bytes(self.parent_id));
        push_u32(&mut out, self.unknown);
        push_u32(&mut out, self.sort_index);
        push_u32(&mut out, self.id);
        push_u32(&mut out, self.node_is_folder);
        out.append(&mut name);
        Ok(out)
    }

    /// Whether the node is a folder rather than a playlist.
    pub open spec fn is_folder_spec(&self) -> bool {
        self.node_is_folder > 0
    }

    /// Whether the node is a folder rather than a playlist.
    #[verifier::when_used_as_spec(is_folder_spec)]
    pub fn is_folder(&self) -> (r: bool)
        ensures
            r == self.is_folder_spec(),
    {
        self.node_is_folder > 0
    }
}

} // verus!

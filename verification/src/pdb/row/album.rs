//! Album rows.

use crate::bytes::{
    lemma_extend_u16, lemma_extend_u32, lemma_extend_u8, push_u16, push_u32, push_u8, read_u16,
    read_u32, read_u8, u16_at, u16_bytes, u32_at, u32_bytes,
};
use crate::pdb::string::{lemma_string_round_trip, string_error, string_len, DeviceString};
use crate::pdb::{format_error, FormatReason, PdbError};
use vstd::prelude::*;
use vstd::slice::slice_subrange;

verus! {

/// An album, as tracks refer to it.
#[derive(Debug, Clone, PartialEq, Eq)]
pub struct Album {
    /// Unknown field, usually `0x80`.
    pub unknown1: u16,
    /// Position of the row in its page, shifted left by five bits.
    pub index_shift: u16,
    /// Unknown field.
    pub unknown2: u32,
    /// Id of the album artist.
    pub artist_id: u32,
    /// Id of this row.
    pub id: u32,
    /// Unknown field.
    pub unknown3: u32,
    /// Unknown field.
    pub unknown4: u8,
    /// Name of the album.
    pub name: DeviceString,
}

impl Album {
    /// Whether the fields in front of the string hold what `b` says.
    pub open spec fn fixed_parsed_from(&self, b: Seq<u8>) -> bool {
        &&& self.unknown1 == u16_at(b, 0)
        &&& self.index_shift == u16_at(b, 2)
        &&& self.unknown2 == u32_at(b, 4)
        &&& self.artist_id == u32_at(b, 8)
        &&& self.id == u32_at(b, 12)
        &&& self.unknown3 == u32_at(b, 16)
        &&& self.unknown4 == b[20]
    }

    /// The bytes of the fields in front of the string.
    pub open spec fn fixed_bytes(&self) -> Seq<u8> {
        u16_bytes(self.unknown1) + u16_bytes(self.index_shift) + u32_bytes(self.unknown2)
            + u32_bytes(self.artist_id) + u32_bytes(self.id) + u32_bytes(self.unknown3)
            + seq![self.unknown4] + seq![22u8]
    }

    /// Why `b` does not start with a row of this kind, or `None` if it does.
    pub open spec fn decode_error(b: Seq<u8>) -> Option<PdbError> {
        if b.len() < 22 {
            Some(format_error(FormatReason::Truncated))
        } else if b[21] != 22 {
            Some(format_error(FormatReason::StringOffset))
        } else {
            string_error(b.skip(22))
        }
    }

    /// The number of bytes that the row at the start of `b` occupies.
    pub open spec fn decoded_len(b: Seq<u8>) -> int {
        22 + string_len(b.skip(22))
    }

    /// Whether this row is what `b` starts with.
    pub open spec fn parsed_from(&self, b: Seq<u8>) -> bool {
        &&& self.fixed_parsed_from(b)
        &&& self.name.parsed_from(b.skip(22))
    }

    /// The bytes of this row, or the reason why it cannot be written.
    pub open spec fn encoding(&self) -> Result<Seq<u8>, PdbError> {
        match self.name.encoding() {
            Ok(name) => Ok(self.fixed_bytes() + name),
            Err(e) => Err(e),
        }
    }

    /// Writing a row that was read from `b` gives the bytes of `b` that the
    /// row occupies.
    pub proof fn lemma_round_trip(&self, b: Seq<u8>)
        requires
            Self::decode_error(b) is None,
            self.parsed_from(b),
        ensures
            self.encoding() == Ok::<Seq<u8>, PdbError>(b.subrange(0, Self::decoded_len(b))),
    {
        let p = Seq::<u8>::empty();
        assert(p =~= b.subrange(0, 0));
        lemma_extend_u16(p, b, 0, self.unknown1);
        let p = p + u16_bytes(self.unknown1);
        lemma_extend_u16(p, b, 2, self.index_shift);
        let p = p + u16_bytes(self.index_shift);
        lemma_extend_u32(p, b, 4, self.unknown2);
        let p = p + u32_bytes(self.unknown2);
        lemma_extend_u32(p, b, 8, self.artist_id);
        let p = p + u32_bytes(self.artist_id);
        lemma_extend_u32(p, b, 12, self.id);
        let p = p + u32_bytes(self.id);
        lemma_extend_u32(p, b, 16, self.unknown3);
        let p = p + u32_bytes(self.unknown3);
        lemma_extend_u8(p, b, 20, self.unknown4);
        let p = p + seq![self.unknown4];
        lemma_extend_u8(p, b, 21, 22u8);
        let p = p + seq![22u8];
        assert(Seq::<u8>::empty() + u16_bytes(self.unknown1) =~= u16_bytes(self.unknown1));
        lemma_string_round_trip(b.skip(22));
        let n = string_len(b.skip(22));
        assert(b.skip(22).subrange(0, n) =~= b.subrange(22, 22 + n));
        assert(b.subrange(0, 22) + b.subrange(22, 22 + n) =~= b.subrange(0, 22 + n));
    }

    /// Reads the row at the start of `bytes`, and says how many bytes it occupies.
    pub fn decode(bytes: &[u8]) -> (r: Result<(Album, usize), PdbError>)
        ensures
            match r {
                Ok((row, n)) => {
                    &&& Self::decode_error(bytes@) is None
                    &&& n == Self::decoded_len(bytes@)
                    &&& row.parsed_from(bytes@)
                    &&& row.encoding() == Ok::<Seq<u8>, PdbError>(bytes@.subrange(0, n as int))
                },
                Err(e) => Self::decode_error(bytes@) == Some(e),
            },
    {
        if bytes.len() < 22 {
            return Err(PdbError::Format { reason: FormatReason::Truncated });
        }
        if read_u8(bytes, 21) != 22 {
            return Err(PdbError::Format { reason: FormatReason::StringOffset });
        }
        let unknown1 = read_u16(bytes, 0);
        let index_shift = read_u16(bytes, 2);
        let unknown2 = read_u32(bytes, 4);
        let artist_id = read_u32(bytes, 8);
        let id = read_u32(bytes, 12);
        let unknown3 = read_u32(bytes, 16);
        let unknown4 = read_u8(bytes, 20);
        let (name, n) = match DeviceString::decode(slice_subrange(bytes, 22, bytes.len())) {
            Ok(v) => v,
            Err(e) => return Err(e),
        };
        let row = Album {
            unknown1, index_shift, unknown2, artist_id, id, unknown3, unknown4, name,
        };
        proof {
            row.lemma_round_trip(bytes@);
        }
        Ok((row, 22 + n))
    }

    /// Writes the row. Fails if the string cannot be written.
    pub fn encode(&self) -> (r: Result<Vec<u8>, PdbError>)
        ensures
            match r {
                Ok(v) => self.encoding() == Ok::<Seq<u8>, PdbError>(v@),
                Err(e) => self.encoding() == Err::<Seq<u8>, PdbError>(e),
            },
    {
        let mut name = match self.name.encode() {
            Ok(v) => v,
            Err(e) => return Err(e),
        };
        let mut out: Vec<u8> = Vec::new();
        push_u16(&mut out, self.unknown1);
        assert(out@ =~= u16_bytes(self.unknown1));
        push_u16(&mut out, self.index_shift);
        push_u32(&mut out, self.unknown2);
        push_u32(&mut out, self.artist_id);
        push_u32(&mut out, self.id);
        push_u32(&mut out, self.unknown3);
        push_u8(&mut out, self.unknown4);
        push_u8(&mut out, 22);
        out.append(&mut name);
        Ok(out)
    }
}

} // verus!

//! Artist rows.
//!
//! An artist row comes in two layouts. Rows of subtype `0x64` have a 16-bit
//! offset of the name behind the fixed part; in all other rows the 8-bit
//! offset in the fixed part says where the name is. Either way the name
//! follows the last offset directly.

use crate::bytes::{
    lemma_extend_u16, lemma_extend_u32, lemma_extend_u8, push_u16, push_u32, push_u8, read_u16,
    read_u32, read_u8, u16_at, u16_bytes, u32_at, u32_bytes,
};
use crate::pdb::string::{lemma_string_round_trip, string_error, string_len, DeviceString};
use crate::pdb::{format_error, FormatReason, PdbError};
use vstd::prelude::*;
use vstd::slice::slice_subrange;

verus! {

/// Subtype of the artist rows whose name is found through a 16-bit offset.
pub const ARTIST_FAR: u16 = 0x64;

/// An artist.
#[derive(Debug, Clone, PartialEq, Eq)]
pub struct Artist {
    /// Layout of the row: `0x64` for a 16-bit name offset, usually `0x60` otherwise.
    pub subtype: u16,
    /// Position of the row in its page, shifted left by five bits.
    pub index_shift: u16,
    /// Id of this row.
    pub id: u32,
    /// Unknown field, usually `3`.
    pub unknown1: u8,
    /// The 8-bit offset of the name. It is `10` where it is in use, and kept
    /// as it was found where the 16-bit offset is used in its place.
    pub ofs_name_near: u8,
    /// Name of the artist.
    pub name: DeviceString,
}

impl Artist {
    /// The offset of the name in a row of the given subtype.
    pub open spec fn name_at(subtype: u16) -> int {
        if subtype == ARTIST_FAR {
            12
        } else {
            10
        }
    }

    /// Whether the fields in front of the name hold what `b` says.
    pub open spec fn fixed_parsed_from(&self, b: Seq<u8>) -> bool {
        &&& self.subtype == u16_at(b, 0)
        &&& self.index_shift == u16_at(b, 2)
        &&& self.id == u32_at(b, 4)
        &&& self.unknown1 == b[8]
        &&& self.ofs_name_near == b[9]
    }

    /// The bytes of the fields in front of the name, the offset of the name included.
    pub open spec fn fixed_bytes(&self) -> Seq<u8> {
        let common = u16_bytes(self.subtype) + u16_bytes(self.index_shift) + u32_bytes(self.id)
            + seq![self.unknown1] + seq![self.ofs_name_near];
        if self.subtype == ARTIST_FAR {
            common + u16_bytes(12)
        } else {
            common
        }
    }

    /// Why `b` does not start with an artist row, or `None` if it does.
    pub open spec fn decode_error(b: Seq<u8>) -> Option<PdbError> {
        if b.len() < 10 {
            Some(format_error(FormatReason::Truncated))
        } else if u16_at(b, 0) == ARTIST_FAR {
            if b.len() < 12 {
                Some(format_error(FormatReason::Truncated))
            } else if u16_at(b, 10) != 12 {
                Some(format_error(FormatReason::StringOffset))
            } else {
                string_error(b.skip(12))
            }
        } else if b[9] != 10 {
            Some(format_error(FormatReason::StringOffset))
        } else {
            string_error(b.skip(10))
        }
    }

    /// The number of bytes that the row at the start of `b` occupies.
    pub open spec fn decoded_len(b: Seq<u8>) -> int {
        let at = Self::name_at(u16_at(b, 0));
        at + string_len(b.skip(at))
    }

    /// Whether this row is what `b` starts with.
    pub open spec fn parsed_from(&self, b: Seq<u8>) -> bool {
        &&& self.fixed_parsed_from(b)
        &&& self.name.parsed_from(b.skip(Self::name_at(u16_at(b, 0))))
    }

    /// The bytes of this row, or the reason why it cannot be written: an
    /// 8-bit offset that is in use and is not `10`, or a name that cannot be
    /// written.
    pub open spec fn encoding(&self) -> Result<Seq<u8>, PdbError> {
        if self.subtype != ARTIST_FAR && self.ofs_name_near != 10 {
            Err(format_error(FormatReason::StringOffset))
        } else {
            match self.name.encoding() {
                Ok(name) => Ok(self.fixed_bytes() + name),
                Err(e) => Err(e),
            }
        }
    }

    /// Writing a row that was read from `b` gives the bytes of `b` that the
    /// row occupies.
    pub proof fn lemma_round_trip(&self, b: Seq<u8>)
        requires
            Self::decode_error(b) is None,
            self.parsed_from(b),
        ensures
            self.encoding() == Ok::<Seq<u8>, PdbError>(b.subrange(0, Self::decoded_len(b))),
    {
        let at = Self::name_at(self.subtype);
        let p = Seq::<u8>::empty();
        assert(p =~= b.subrange(0, 0));
        lemma_extend_u16(p, b, 0, self.subtype);
        let p = p + u16_bytes(self.subtype);
        lemma_extend_u16(p, b, 2, self.index_shift);
        let p = p + u16_bytes(self.index_shift);
        lemma_extend_u32(p, b, 4, self.id);
        let p = p + u32_bytes(self.id);
        lemma_extend_u8(p, b, 8, self.unknown1);
        let p = p + seq![self.unknown1];
        lemma_extend_u8(p, b, 9, self.ofs_name_near);
        let p = p + seq![self.ofs_name_near];
        assert(Seq::<u8>::empty() + u16_bytes(self.subtype) =~= u16_bytes(self.subtype));
        if self.subtype == ARTIST_FAR {
            lemma_extend_u16(p, b, 10, 12);
        }
        assert(self.fixed_bytes() == b.subrange(0, at));
        lemma_string_round_trip(b.skip(at));
        let n = string_len(b.skip(at));
        assert(b.skip(at).subrange(0, n) =~= b.subrange(at, at + n));
        assert(b.subrange(0, at) + b.subrange(at, at + n) =~= b.subrange(0, at + n));
    }

    /// Reads the row at the start of `bytes`, and says how many bytes it occupies.
    pub fn decode(bytes: &[u8]) -> (r: Result<(Artist, usize), PdbError>)
        ensures
            match r {
                Ok((row, n)) => {
                    &&& Self::decode_error(bytes@) is None
                    &&& n == Self::decoded_len(bytes@)
                    &&& row.parsed_from(bytes@)
                    &&& row.encoding() == Ok::<Seq<u8>, PdbError>(bytes@.subrange(0, n as int))
                },
                Err(e) => Self::decode_error(bytes@) == Some(e),
            },
    {
        if bytes.len() < 10 {
            return Err(PdbError::Format { reason: FormatReason::Truncated });
        }
        let subtype = read_u16(bytes, 0);
        let index_shift = read_u16(bytes, 2);
        let id = read_u32(bytes, 4);
        let unknown1 = read_u8(bytes, 8);
        let ofs_name_near = read_u8(bytes, 9);
        let at: usize = if subtype == ARTIST_FAR {
            if bytes.len() < 12 {
                return Err(PdbError::Format { reason: FormatReason::Truncated });
            }
            if read_u16(bytes, 10) != 12 {
                return Err(PdbError::Format { reason: FormatReason::StringOffset });
            }
            12
        } else {
            if ofs_name_near != 10 {
                return Err(PdbError::Format { reason: FormatReason::StringOffset });
            }
            10
        };
        let (name, n) = match DeviceString::decode(slice_subrange(bytes, at, bytes.len())) {
            Ok(v) => v,
            Err(e) => return Err(e),
        };
        let row = Artist { subtype, index_shift, id, unknown1, ofs_name_near, name };
        proof {
            row.lemma_round_trip(bytes@);
        }
        Ok((row, at + n))
    }

    /// Writes the row. Fails if the 8-bit offset is in use and is not `10`,
    /// or if the name cannot be written.
    pub fn encode(&self) -> (r: Result<Vec<u8>, PdbError>)
        ensures
            match r {
                Ok(v) => self.encoding() == Ok::<Seq<u8>, PdbError>(v@),
                Err(e) => self.encoding() == Err::<Seq<u8>, PdbError>(e),
            },
    {
        if self.subtype != ARTIST_FAR && self.ofs_name_near != 10 {
            return Err(PdbError::Format { reason: FormatReason::StringOffset });
        }
        let mut name = match self.name.encode() {
            Ok(v) => v,
            Err(e) => return Err(e),
        };
        let mut out: Vec<u8> = Vec::new();
        push_u16(&mut out, self.subtype);
        assert(out@ =~= u16_bytes(self.subtype));
        push_u16(&mut out, self.index_shift);
        push_u32(&mut out, self.id);
        push_u8(&mut out, self.unknown1);
        push_u8(&mut out, self.ofs_name_near);
        if self.subtype == ARTIST_FAR {
            push_u16(&mut out, 12);
        }
        out.append(&mut name);
        Ok(out)
    }
}

} // verus!

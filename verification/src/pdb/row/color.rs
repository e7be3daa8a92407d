//! Color rows.

use crate::bytes::{
    lemma_extend_u16, lemma_extend_u32, lemma_extend_u8, push_u16, push_u32, push_u8, read_u16,
    read_u32, read_u8, u16_at, u16_bytes, u32_at, u32_bytes,
};
use crate::pdb::string::{lemma_string_round_trip, string_error, string_len, DeviceString};
use crate::pdb::{format_error, FormatReason, PdbError};
use crate::util::ColorIndex;
use vstd::prelude::*;
use vstd::slice::slice_subrange;

verus! {

/// A color that tracks can be labelled with.
#[derive(Debug, Clone, PartialEq, Eq)]
pub struct Color {
    /// Unknown field.
    pub unknown1: u32,
    /// Unknown field.
    pub unknown2: u8,
    /// Number of the color.
    pub color_id: u8,
    /// Unknown field.
    pub unknown3: u16,
    /// Name of the color.
    pub name: DeviceString,
}

impl Color {
    /// Whether the fields in front of the string hold what `b` says.
    pub open spec fn fixed_parsed_from(&self, b: Seq<u8>) -> bool {
        &&& self.unknown1 == u32_at(b, 0)
        &&& self.unknown2 == b[4]
        &&& self.color_id == b[5]
        &&& self.unknown3 == u16_at(b, 6)
    }

    /// The bytes of the fields in front of the string.
    pub open spec fn fixed_bytes(&self) -> Seq<u8> {
        u32_bytes(self.unknown1) + seq![self.unknown2] + seq![self.color_id]
            + u16_bytes(self.unknown3)
    }

    /// Why `b` does not start with a row of this kind, or `None` if it does.
    pub open spec fn decode_error(b: Seq<u8>) -> Option<PdbError> {
        if b.len() < 8 {
            Some(format_error(FormatReason::Truncated))
        } else {
            string_error(b.skip(8))
        }
    }

    /// The number of bytes that the row at the start of `b` occupies.
    pub open spec fn decoded_len(b: Seq<u8>) -> int {
        8 + string_len(b.skip(8))
    }

    /// Whether this row is what `b` starts with.
    pub open spec fn parsed_from(&self, b: Seq<u8>) -> bool {
        &&& self.fixed_parsed_from(b)
        &&& self.name.parsed_from(b.skip(8))
    }

    /// The bytes of this row, or the reason why it cannot be written.
    pub open spec fn encoding(&self) -> Result<Seq<u8>, PdbError> {
        match self.name.encoding() {
            Ok(name) => Ok(self.fixed_bytes() + name),
            Err(e) => Err(e),
        }
    }

    /// Writing a row that was read from `b` gives the bytes of `b` that the
    /// row occupies.
    pub proof fn lemma_round_trip(&self, b: Seq<u8>)
        requires
            Self::decode_error(b) is None,
            self.parsed_from(b),
        ensures
            self.encoding() == Ok::<Seq<u8>, PdbError>(b.subrange(0, Self::decoded_len(b))),
    {
        let p = Seq::<u8>::empty();
        assert(p =~= b.subrange(0, 0));
        lemma_extend_u32(p, b, 0, self.unknown1);
        let p = p + u32_bytes(self.unknown1);
        lemma_extend_u8(p, b, 4, self.unknown2);
        let p = p + seq![self.unknown2];
        lemma_extend_u8(p, b, 5, self.color_id);
        let p = p + seq![self.color_id];
        lemma_extend_u16(p, b, 6, self.unknown3);
        let p = p + u16_bytes(self.unknown3);
        assert(Seq::<u8>::empty() + u32_bytes(self.unknown1) =~= u32_bytes(self.unknown1));
        lemma_string_round_trip(b.skip(8));
        let n = string_len(b.skip(8));
        assert(b.skip(8).subrange(0, n) =~= b.subrange(8, 8 + n));
        assert(b.subrange(0, 8) + b.subrange(8, 8 + n) =~= b.subrange(0, 8 + n));
    }

    /// Reads the row at the start of `bytes`, and says how many bytes it occupies.
    pub fn decode(bytes: &[u8]) -> (r: Result<(Color, usize), PdbError>)
        ensures
            match r {
                Ok((row, n)) => {
                    &&& Self::decode_error(bytes@) is None
                    &&& n == Self::decoded_len(bytes@)
                    &&& row.parsed_from(bytes@)
                    &&& row.encoding() == Ok::<Seq<u8>, PdbError>(bytes@.subrange(0, n as int))
                },
                Err(e) => Self::decode_error(bytes@) == Some(e),
            },
    {
        if bytes.len() < 8 {
            return Err(PdbError::Format { reason: FormatReason::Truncated });
        }
        let unknown1 = read_u32(bytes, 0);
        let unknown2 = read_u8(bytes, 4);
        let color_id = read_u8(bytes, 5);
        let unknown3 = read_u16(bytes, 6);
        let (name, n) = match DeviceString::decode(slice_subrange(bytes, 8, bytes.len())) {
            Ok(v) => v,
            Err(e) => return Err(e),
        };
        let row = Color { unknown1, unknown2, color_id, unknown3, name };
        proof {
            row.lemma_round_trip(bytes@);
        }
        Ok((row, 8 + n))
    }

    /// Writes the row. Fails if the string cannot be written.
    pub fn encode(&self) -> (r: Result<Vec<u8>, PdbError>)
        ensures
            match r {
                Ok(v) => self.encoding() == Ok::<Seq<u8>, PdbError>(v@),
                Err(e) => self.encoding() == Err::<Seq<u8>, PdbError>(e),
            },
    {
        let mut name = match self.name.encode() {
            Ok(v) => v,
            Err(e) => return Err(e),
        };
        let mut out: Vec<u8> = Vec::new();
        push_u32(&mut out, self.unknown1);
        assert(out@ =~= u32_bytes(self.unknown1));
        push_u8(&mut out, self.unknown2);
        push_u8(&mut out, self.color_id);
        push_u16(&mut out, self.unknown3);
        out.append(&mut name);
        Ok(out)
    }

    /// The color that the number stands for.
    pub fn color(&self) -> (c: ColorIndex)
        ensures
            c == ColorIndex::of_id(self.color_id as u16),
    {
        ColorIndex::from(self.color_id as u16)
    }
}

} // verus!

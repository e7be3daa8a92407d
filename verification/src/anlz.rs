//! Reader for Rekordbox analysis (`ANLZXXXX.DAT`) files.
//!
//! An analysis file is a file header and a sequence of sections. Both start
//! with a tag of four bytes and two big-endian lengths: the length of the
//! header, these twelve bytes included, and the length of the whole, which
//! for the file header is the length of the file. The sections hold
//! waveforms, beat grids, cue points and the like; what is in a section is
//! not interpreted here, only kept.

use crate::bytes::{
    lemma_u32_be_bytes_of_read, push_slice, push_u32_be, read_u32_be, u32_be_at, u32_be_bytes,
};
use vstd::prelude::*;
use vstd::slice::{slice_subrange, slice_to_vec};

verus! {

/// Length of a tag and the two lengths behind it.
pub const FRAME_LEN: usize = 12;

/// The tag of the file header, `PMAI`.
pub const FILE_TAG: u32 = 0x504D_4149;

/// What is wrong with the bytes of an analysis file.
#[derive(Debug, Clone, Copy, PartialEq, Eq, Structural)]
pub enum AnlzError {
    /// The file or a section ends before its tag and lengths do.
    Truncated,
    /// The file does not start with the tag of an analysis file.
    Magic,
    /// A header is shorter than its tag and lengths or longer than the
    /// whole, the length of the file is not the one that its header
    /// announces, or a section is longer than what is left of the file.
    Length,
    /// A length does not fit into 32 bits.
    Overflow,
}

/// A section of an analysis file.
#[derive(Debug, Clone, PartialEq, Eq)]
pub struct Section {
    /// The tag of the section, its four bytes read as a big-endian number.
    pub kind: u32,
    /// The header of the section behind its tag and lengths.
    pub header: Vec<u8>,
    /// What follows the header.
    pub content: Vec<u8>,
}

/// An analysis file.
#[derive(Debug, Clone, PartialEq, Eq)]
pub struct AnalysisFile {
    /// The file header behind its tag and lengths.
    pub header: Vec<u8>,
    /// The sections, in the order of the file.
    pub sections: Vec<Section>,
}

/// The length of the header of the frame at `pos`.
pub open spec fn frame_header_len(b: Seq<u8>, pos: int) -> int {
    u32_be_at(b, pos + 4) as int
}

/// The length of the whole frame at `pos`.
pub open spec fn frame_len(b: Seq<u8>, pos: int) -> int {
    u32_be_at(b, pos + 8) as int
}

/// Why no section starts at `pos` of `b`, or `None` if one does.
pub open spec fn section_error(b: Seq<u8>, pos: int) -> Option<AnlzError> {
    if b.len() - pos < FRAME_LEN {
        Some(AnlzError::Truncated)
    } else if frame_header_len(b, pos) < FRAME_LEN || frame_len(b, pos) < frame_header_len(b, pos)
        || b.len() - pos < frame_len(b, pos) {
        Some(AnlzError::Length)
    } else {
        None
    }
}

/// The first error among the sections of `b` from `pos` on, or `None` if
/// sections fill `b` from `pos` to its end.
#[verifier::opaque]
pub open spec fn sections_error(b: Seq<u8>, pos: int) -> Option<AnlzError>
    decreases b.len() - pos,
{
    if pos < 0 || pos >= b.len() {
        None
    } else if section_error(b, pos) is Some {
        section_error(b, pos)
    } else {
        sections_error(b, pos + frame_len(b, pos))
    }
}

/// Why `b` is not an analysis file, or `None` if it is one. The checks are
/// made in the order written and the first that fails decides.
#[verifier::opaque]
pub open spec fn file_error(b: Seq<u8>) -> Option<AnlzError> {
    if b.len() < FRAME_LEN {
        Some(AnlzError::Truncated)
    } else if u32_be_at(b, 0) != FILE_TAG {
        Some(AnlzError::Magic)
    } else if frame_header_len(b, 0) < FRAME_LEN || frame_len(b, 0) < frame_header_len(b, 0)
        || b.len() != frame_len(b, 0) {
        Some(AnlzError::Length)
    } else {
        sections_error(b, frame_header_len(b, 0))
    }
}

impl Section {
    /// Whether this section is the one that starts at `pos` of `b`.
    pub open spec fn parsed_from(&self, b: Seq<u8>, pos: int) -> bool {
        &&& self.kind == u32_be_at(b, pos)
        &&& self.header@ == b.subrange(pos + FRAME_LEN, pos + frame_header_len(b, pos))
        &&& self.content@ == b.subrange(pos + frame_header_len(b, pos), pos + frame_len(b, pos))
    }

    /// The bytes of the section, or `None` if a length does not fit into 32 bits.
    pub open spec fn encoding(&self) -> Option<Seq<u8>> {
        if FRAME_LEN + self.header@.len() + self.content@.len() > u32::MAX {
            None
        } else {
            Some(
                u32_be_bytes(self.kind) + u32_be_bytes((FRAME_LEN + self.header@.len()) as u32)
                    + u32_be_bytes(
                    (FRAME_LEN + self.header@.len() + self.content@.len()) as u32,
                ) + self.header@ + self.content@,
            )
        }
    }

    /// Writing the section that was read at `pos` of `b` gives the bytes of
    /// `b` that it occupies.
    pub proof fn lemma_round_trip(&self, b: Seq<u8>, pos: int)
        requires
            0 <= pos,
            section_error(b, pos) is None,
            self.parsed_from(b, pos),
        ensures
            self.encoding() == Some(b.subrange(pos, pos + frame_len(b, pos))),
    {
        lemma_u32_be_bytes_of_read(b, pos);
        lemma_u32_be_bytes_of_read(b, pos + 4);
        lemma_u32_be_bytes_of_read(b, pos + 8);
        let head = frame_header_len(b, pos);
        let len = frame_len(b, pos);
        assert(b.subrange(pos, pos + 4) + b.subrange(pos + 4, pos + 8) + b.subrange(
            pos + 8,
            pos + 12,
        ) + b.subrange(pos + 12, pos + head) + b.subrange(pos + head, pos + len) =~= b.subrange(
            pos,
            pos + len,
        ));
    }
}

/// The offset in `b` at which the first `n` of the sections end, if they
/// are the sections that lie in `b` one behind the other from `from` on.
pub open spec fn sections_end(sections: Seq<Section>, b: Seq<u8>, from: int, n: int) -> Option<
    int,
>
    decreases n,
{
    if n <= 0 {
        Some(from)
    } else {
        match sections_end(sections, b, from, n - 1) {
            None => None,
            Some(pos) => if pos < b.len() && section_error(b, pos) is None && sections[n
                - 1].parsed_from(b, pos) {
                Some(pos + frame_len(b, pos))
            } else {
                None
            },
        }
    }
}

/// The sections from `pos` on are the section at `pos` and those behind it.
pub proof fn lemma_sections_error_unfold(b: Seq<u8>, pos: int)
    ensures
        sections_error(b, pos) == if pos < 0 || pos >= b.len() {
            None
        } else if section_error(b, pos) is Some {
            section_error(b, pos)
        } else {
            sections_error(b, pos + frame_len(b, pos))
        },
{
    reveal(sections_error);
}

/// Where the first sections end depends on those sections alone.
proof fn lemma_sections_end_of_front(
    a: Seq<Section>,
    c: Seq<Section>,
    b: Seq<u8>,
    from: int,
    n: int,
)
    requires
        0 <= n <= a.len(),
        n <= c.len(),
        forall|i: int| 0 <= i < n ==> a[i] == c[i],
    ensures
        sections_end(a, b, from, n) == sections_end(c, b, from, n),
    decreases n,
{
    if n > 0 {
        lemma_sections_end_of_front(a, c, b, from, n - 1);
    }
}

/// The bytes of the first `n` sections, one behind the other, or `None` if
/// one of them cannot be written.
pub open spec fn sections_bytes(sections: Seq<Section>, n: int) -> Option<Seq<u8>>
    decreases n,
{
    if n <= 0 {
        Some(Seq::empty())
    } else {
        match (sections_bytes(sections, n - 1), sections[n - 1].encoding()) {
            (Some(front), Some(bytes)) => Some(front + bytes),
            _ => None,
        }
    }
}

/// What cannot be written among the first sections cannot be written among all.
proof fn lemma_sections_bytes_none_stays(sections: Seq<Section>, n: int, m: int)
    requires
        0 <= n <= m,
        sections_bytes(sections, n) is None,
    ensures
        sections_bytes(sections, m) is None,
    decreases m - n,
{
    if n < m {
        lemma_sections_bytes_none_stays(sections, n, m - 1);
    }
}

impl AnalysisFile {
    /// Whether this file is what `b` holds: its header is the one of `b`,
    /// and its sections are the sections that fill `b` behind the header.
    pub open spec fn parsed_from(&self, b: Seq<u8>) -> bool {
        &&& self.header@ == b.subrange(FRAME_LEN as int, frame_header_len(b, 0))
        &&& sections_end(
            self.sections@,
            b,
            frame_header_len(b, 0),
            self.sections@.len() as int,
        ) == Some(b.len() as int)
    }

    /// The bytes of the file, or the reason why it cannot be written: a
    /// length does not fit into 32 bits.
    pub open spec fn encoding(&self) -> Result<Seq<u8>, AnlzError> {
        match sections_bytes(self.sections@, self.sections@.len() as int) {
            None => Err(AnlzError::Overflow),
            Some(rest) => if FRAME_LEN + self.header@.len() + rest.len() > u32::MAX {
                Err(AnlzError::Overflow)
            } else {
                Ok(
                    u32_be_bytes(FILE_TAG) + u32_be_bytes((FRAME_LEN + self.header@.len()) as u32)
                        + u32_be_bytes((FRAME_LEN + self.header@.len() + rest.len()) as u32)
                        + self.header@ + rest,
                )
            },
        }
    }
}

/// The first sections that were read from `b` are written as the bytes of
/// `b` that they occupy.
pub proof fn lemma_sections_round_trip(sections: Seq<Section>, b: Seq<u8>, from: int, n: int)
    requires
        0 <= from <= b.len(),
        0 <= n,
        sections_end(sections, b, from, n) is Some,
    ensures
        from <= sections_end(sections, b, from, n).unwrap() <= b.len(),
        sections_bytes(sections, n) == Some(
            b.subrange(from, sections_end(sections, b, from, n).unwrap()),
        ),
    decreases n,
{
    if n > 0 {
        lemma_sections_round_trip(sections, b, from, n - 1);
        let pos = sections_end(sections, b, from, n - 1).unwrap();
        let next = pos + frame_len(b, pos);
        sections[n - 1].lemma_round_trip(b, pos);
        assert(b.subrange(from, pos) + b.subrange(pos, next) =~= b.subrange(from, next));
    } else {
        assert(b.subrange(from, from) =~= Seq::<u8>::empty());
    }
}

impl Section {
    /// Writes the section. Fails if a length does not fit into 32 bits.
    pub fn encode(&self) -> (r: Option<Vec<u8>>)
        ensures
            match r {
                Some(v) => self.encoding() == Some(v@),
                None => self.encoding() is None,
            },
    {
        let most = u32::MAX as usize - FRAME_LEN;
        if self.header.len() > most || self.content.len() > most - self.header.len() {
            return None;
        }
        let head = FRAME_LEN + self.header.len();
        let mut out: Vec<u8> = Vec::new();
        push_u32_be(&mut out, self.kind);
        assert(out@ =~= u32_be_bytes(self.kind));
        push_u32_be(&mut out, head as u32);
        push_u32_be(&mut out, (head + self.content.len()) as u32);
        push_slice(&mut out, self.header.as_slice(), 0, self.header.len());
        assert(self.header@.subrange(0, self.header@.len() as int) =~= self.header@);
        push_slice(&mut out, self.content.as_slice(), 0, self.content.len());
        assert(self.content@.subrange(0, self.content@.len() as int) =~= self.content@);
        Some(out)
    }
}

impl AnalysisFile {
    /// Writing a file that was read from `b` gives `b`.
    pub proof fn lemma_round_trip(&self, b: Seq<u8>)
        requires
            file_error(b) is None,
            self.parsed_from(b),
        ensures
            self.encoding() == Ok::<Seq<u8>, AnlzError>(b),
    {
        reveal(file_error);
        let head = frame_header_len(b, 0);
        lemma_sections_round_trip(self.sections@, b, head, self.sections@.len() as int);
        lemma_u32_be_bytes_of_read(b, 0);
        lemma_u32_be_bytes_of_read(b, 4);
        lemma_u32_be_bytes_of_read(b, 8);
        assert(b.subrange(0, 4) + b.subrange(4, 8) + b.subrange(8, 12) + b.subrange(12, head)
            + b.subrange(head, b.len() as int) =~= b);
    }

    /// Reads an analysis file.
    pub fn read(bytes: &[u8]) -> (r: Result<AnalysisFile, AnlzError>)
        ensures
            match r {
                Ok(file) => {
                    &&& file_error(bytes@) is None
                    &&& file.parsed_from(bytes@)
                    &&& file.encoding() == Ok::<Seq<u8>, AnlzError>(bytes@)
                },
                Err(e) => file_error(bytes@) == Some(e),
            },
    {
        proof {
            reveal(file_error);
        }
        if bytes.len() < FRAME_LEN {
            return Err(AnlzError::Truncated);
        }
        if read_u32_be(bytes, 0) != FILE_TAG {
            return Err(AnlzError::Magic);
        }
        let head = read_u32_be(bytes, 4) as usize;
        let whole = read_u32_be(bytes, 8) as usize;
        if head < FRAME_LEN || whole < head || bytes.len() != whole {
            return Err(AnlzError::Length);
        }
        let header = slice_to_vec(slice_subrange(bytes, FRAME_LEN, head));
        let ghost b = bytes@;
        let mut sections: Vec<Section> = Vec::new();
        let mut pos: usize = head;
        while pos < bytes.len()
            invariant
                b == bytes@,
                FRAME_LEN <= head <= pos <= b.len(),
                file_error(b) == sections_error(b, pos as int),
                sections_end(sections@, b, head as int, sections@.len() as int) == Some(
                    pos as int,
                ),
            decreases b.len() - pos,
        {
            proof {
                lemma_sections_error_unfold(b, pos as int);
            }
            if bytes.len() - pos < FRAME_LEN {
                return Err(AnlzError::Truncated);
            }
            let kind = read_u32_be(bytes, pos);
            let section_head = read_u32_be(bytes, pos + 4) as usize;
            let len = read_u32_be(bytes, pos + 8) as usize;
            if section_head < FRAME_LEN || len < section_head || bytes.len() - pos < len {
                return Err(AnlzError::Length);
            }
            let section = Section {
                kind,
                header: slice_to_vec(slice_subrange(bytes, pos + FRAME_LEN, pos + section_head)),
                content: slice_to_vec(slice_subrange(bytes, pos + section_head, pos + len)),
            };
            assert(section.parsed_from(b, pos as int));
            let ghost before = sections@;
            sections.push(section);
            proof {
                assert(sections@[before.len() as int] == section);
                lemma_sections_end_of_front(
                    before,
                    sections@,
                    b,
                    head as int,
                    before.len() as int,
                );
            }
            pos = pos + len;
        }
        let file = AnalysisFile { header, sections };
        proof {
            lemma_sections_error_unfold(b, pos as int);
            file.lemma_round_trip(b);
        }
        Ok(file)
    }

    /// Writes the file. Fails if a length does not fit into 32 bits.
    pub fn write(&self) -> (r: Result<Vec<u8>, AnlzError>)
        ensures
            match r {
                Ok(v) => self.encoding() == Ok::<Seq<u8>, AnlzError>(v@),
                Err(e) => self.encoding() == Err::<Seq<u8>, AnlzError>(e),
            },
    {
        let mut rest: Vec<u8> = Vec::new();
        let mut i: usize = 0;
        while i < self.sections.len()
            invariant
                0 <= i <= self.sections@.len(),
                sections_bytes(self.sections@, i as int) == Some(rest@),
            decreases self.sections@.len() - i,
        {
            let mut bytes = match self.sections[i].encode() {
                Some(v) => v,
                None => {
                    proof {
                        lemma_sections_bytes_none_stays(
                            self.sections@,
                            i + 1,
                            self.sections@.len() as int,
                        );
                    }
                    return Err(AnlzError::Overflow);
                },
            };
            rest.append(&mut bytes);
            i += 1;
        }
        let most = u32::MAX as usize - FRAME_LEN;
        if self.header.len() > most || rest.len() > most - self.header.len() {
            return Err(AnlzError::Overflow);
        }
        let head = FRAME_LEN + self.header.len();
        let mut out: Vec<u8> = Vec::new();
        push_u32_be(&mut out, FILE_TAG);
        assert(out@ =~= u32_be_bytes(FILE_TAG));
        push_u32_be(&mut out, head as u32);
        push_u32_be(&mut out, (head + rest.len()) as u32);
        push_slice(&mut out, self.header.as_slice(), 0, self.header.len());
        assert(self.header@.subrange(0, self.header@.len() as int) =~= self.header@);
        out.append(&mut rest);
        Ok(out)
    }
}

} // verus!

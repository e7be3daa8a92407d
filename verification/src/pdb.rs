//! Codec for Pioneer Database (`.PDB`) files.
//!
//! A database file is a sequence of pages of one fixed size; the page with
//! index `i` starts at `i` times the page size. The first page holds the
//! file header with the table directory. Every table names the first and the
//! last page of a chain of pages that hold its rows, and the kind of the
//! table decides how the bytes of its rows are read. Inside a page, rows lie
//! in a heap behind the page header and are found through groups of up to
//! sixteen row offsets, written backward from the end of the page, each
//! group with a bitmask that says which of its rows are present.
//!
//! The modules follow the layers of the format: [`string`] for the strings
//! inside rows, [`row`] for the rows, [`page`] for pages and row groups,
//! [`header`] for the file header and the page chains, and [`database`] for
//! a whole file.
//!
//! Decoding keeps every byte, so that encoding what was decoded gives the
//! file back: fields without a known meaning are fields of the decoded
//! values, and the bytes between rows, behind the last row of a page, behind
//! the table directory and in pages outside all chains are kept as they are.
//! What would not be written back as it was found is refused: a string that
//! does not start where the field in front of it ends, and a row that starts
//! in front of the end of the row before it.
//!
//! All integers are little-endian. Every offset and length is checked
//! against the buffer before it is used.

pub mod database;
pub mod header;
pub mod page;
pub mod row;
pub mod string;

use vstd::prelude::*;

verus! {

/// What is wrong with the bytes of a database file.
#[derive(Debug, Clone, Copy, PartialEq, Eq, Structural)]
pub enum FormatReason {
    /// The buffer ends before the structure does.
    Truncated,
    /// A field with a fixed value holds another value.
    Magic,
    /// The page size cannot hold a page, or the buffer is no whole number of pages.
    PageSize,
    /// The tag byte of a string names no known form, or its padding byte is set.
    StringTag,
    /// The length of a string is smaller than its own header, larger than the
    /// form allows, or reaches past the end of the buffer.
    StringLength,
    /// A string holds a byte outside ASCII in a single-byte form, or an
    /// ill-formed UTF-16 sequence in the wide form.
    StringCharacter,
    /// A string does not start where the previous field ends.
    StringOffset,
    /// A length or offset does not fit the field that has to hold it.
    Overflow,
    /// A value has not the parts that its kind has: the number of strings of
    /// a track, the number of rows and row groups of a page, the bits for
    /// the rows of a group, the kind of the rows of a page.
    Shape,
    /// The row index of a page does not fit into the page.
    RowIndex,
    /// A bit of a presence bitmask is set for which the group has no row.
    Presence,
    /// A row starts before the end of the row in front of it, or outside the heap.
    RowOffset,
    /// A page does not carry the page type of the table that it is chained into.
    PageType,
    /// A page does not carry the index under which it was found.
    PageIndex,
    /// A page chain leaves the file.
    ChainBounds,
    /// A page chain comes back to a page that it has already visited.
    ChainLoop,
}

/// The ways in which decoding or encoding a database can fail.
#[derive(Debug, Clone, Copy, PartialEq, Eq, Structural)]
pub enum PdbError {
    /// The bytes do not have the shape of the format.
    Format { reason: FormatReason },
    /// A row was asked for in a table whose page type has no known row layout.
    UnsupportedVariant,
}

/// The format error with the given reason.
pub open spec fn format_error(reason: FormatReason) -> PdbError {
    PdbError::Format { reason }
}

} // verus!

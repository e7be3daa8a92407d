//! Pages and the groups of rows in them.
//!
//! A page starts with a header of 40 bytes. The heap with the rows follows.
//! The row index stands at the end of the page and is read from the end
//! backward: the last four bytes are the presence bitmask and an unknown
//! field of the first group of rows, in front of them stand the 16-bit heap
//! offsets of its rows, the offset of the first row last; in front of those
//! stands the second group, and so on. Every group but the last has sixteen
//! rows. A page without rows still has one group, which is empty.
//!
//! The rows that are present lie in the heap in the order of the index. What
//! lies between them, and behind the last of them, is kept as it is.

use crate::bytes::{
    lemma_extend_u16, lemma_extend_u32, lemma_extend_u8, lemma_u16_bytes_of_read, push_slice,
    push_u16, push_u32, push_u8, read_u16, read_u32, read_u8, u16_at, u16_bytes, u32_at,
    u32_bytes,
};
use crate::pdb::row::{PageType, Row};
use crate::pdb::{format_error, FormatReason, PdbError};
use vstd::prelude::*;
use vstd::slice::{slice_subrange, slice_to_vec};

verus! {

/// Length of the page header in bytes.
pub const PAGE_HEADER_LEN: usize = 40;

/// Number of rows in a full group.
pub const GROUP_ROWS: usize = 16;

/// Length in bytes of the index entry of a full group.
pub const GROUP_LEN: usize = 36;

/// Value of the 16-bit row counter that says that it is not in use.
pub const NO_LARGE_COUNT: u16 = 0x1fff;

/// Whether bit `i` of `flags` is set.
pub open spec fn bit_set(flags: u16, i: int) -> bool {
    (flags >> (i as u16)) & 1u16 == 1u16
}

/// Whether bit `i` of `flags` is set.
pub fn is_bit_set(flags: u16, i: usize) -> (r: bool)
    requires
        i < 16,
    ensures
        r == bit_set(flags, i as int),
{
    (flags >> (i as u16)) & 1u16 == 1u16
}

/// Whether no bit of `flags` from bit `n` on is set.
pub open spec fn no_stray_bits(flags: u16, n: int) -> bool {
    forall|i: int| n <= i < GROUP_ROWS ==> !#[trigger] bit_set(flags, i)
}

/// Whether no bit of `flags` from bit `n` on is set.
pub fn has_no_stray_bits(flags: u16, n: usize) -> (r: bool)
    requires
        n <= GROUP_ROWS,
    ensures
        r == no_stray_bits(flags, n as int),
{
    let mut i: usize = n;
    while i < GROUP_ROWS
        invariant
            n <= i <= GROUP_ROWS,
            forall|j: int| n <= j < i ==> !#[trigger] bit_set(flags, j),
        decreases GROUP_ROWS - i,
    {
        if is_bit_set(flags, i) {
            return false;
        }
        i += 1;
    }
    true
}

/// The number of rows that the two counters of a page header stand for: the
/// 16-bit counter where it is in use and larger than the 8-bit counter.
pub open spec fn row_count_of(small: u8, large: u16) -> int {
    if large > small && large != NO_LARGE_COUNT {
        large as int
    } else {
        small as int
    }
}

/// The number of groups that hold `rows` rows: one for every sixteen rows,
/// and one for no rows at all.
pub open spec fn group_count(rows: int) -> int {
    if rows <= 0 {
        1
    } else {
        (rows - 1) / 16 + 1
    }
}

/// The number of rows in group `g` of a page with `rows` rows.
pub open spec fn group_rows(rows: int, g: int) -> int {
    if rows - 16 * g >= 16 {
        16
    } else {
        rows - 16 * g
    }
}

/// The length in bytes of the row index of a page with `rows` rows.
pub open spec fn index_len(rows: int) -> int {
    2 * rows + 4 * group_count(rows)
}

/// The number of rows of the page `b`.
pub open spec fn page_rows(b: Seq<u8>) -> int {
    row_count_of(b[24], u16_at(b, 34))
}

/// The heap of the page `b`: what lies between the header and the row index.
pub open spec fn page_heap(b: Seq<u8>) -> Seq<u8> {
    b.subrange(PAGE_HEADER_LEN as int, b.len() - index_len(page_rows(b)))
}

/// The offset in the page at which the index entry of group `g` ends.
pub open spec fn group_end(b: Seq<u8>, g: int) -> int {
    b.len() - GROUP_LEN * g
}

/// The presence bitmask of group `g`.
pub open spec fn group_presence(b: Seq<u8>, g: int) -> u16 {
    u16_at(b, group_end(b, g) - 4)
}

/// The unknown field of group `g`.
pub open spec fn group_unknown(b: Seq<u8>, g: int) -> u16 {
    u16_at(b, group_end(b, g) - 2)
}

/// The offset in the page at which the heap offset of row `i` of group `g` stands.
pub open spec fn slot_offset_at(b: Seq<u8>, g: int, i: int) -> int {
    group_end(b, g) - 4 - 2 * (i + 1)
}

/// The heap offset of row `i` of group `g`.
pub open spec fn slot_offset(b: Seq<u8>, g: int, i: int) -> u16 {
    u16_at(b, slot_offset_at(b, g, i))
}

/// Whether row `i` of group `g` is present.
pub open spec fn slot_present(b: Seq<u8>, g: int, i: int) -> bool {
    bit_set(group_presence(b, g), i)
}

/// The end of row `i` of group `g` in the heap, given the end of the rows in
/// front of it; an absent row ends where the rows in front of it end. Fails
/// if the row starts in front of that end or behind the heap, or cannot be read.
pub open spec fn cursor_step(b: Seq<u8>, t: PageType, g: int, i: int, before: int) -> Result<
    int,
    PdbError,
> {
    let heap = page_heap(b);
    let start = slot_offset(b, g, i) as int;
    if !slot_present(b, g, i) {
        Ok(before)
    } else if start < before || start > heap.len() {
        Err(format_error(FormatReason::RowOffset))
    } else {
        match Row::decode_error(heap.skip(start), t) {
            Some(e) => Err(e),
            None => Ok(start + Row::decoded_len(heap.skip(start), t)),
        }
    }
}

/// The end in the heap of the rows in front of row `i` of group `g`, or the
/// first error met on the way there.
#[verifier::opaque]
pub open spec fn cursor(b: Seq<u8>, t: PageType, g: int, i: int) -> Result<int, PdbError>
    decreases g, i,
{
    if i > 0 {
        match cursor(b, t, g, i - 1) {
            Err(e) => Err(e),
            Ok(before) => cursor_step(b, t, g, i - 1, before),
        }
    } else if g > 0 {
        cursor(b, t, g - 1, GROUP_ROWS as int)
    } else {
        Ok(0)
    }
}

/// The end in the heap of the last row of the page, or the first error met
/// in reading the rows.
pub open spec fn cursor_end(b: Seq<u8>, t: PageType) -> Result<int, PdbError> {
    let rows = page_rows(b);
    let last = group_count(rows) - 1;
    cursor(b, t, last, group_rows(rows, last))
}

/// Why `b` is not a page of a table of kind `t`, or `None` if it is one.
/// The checks are made in the order written and the first that fails decides.
#[verifier::opaque]
pub open spec fn page_error(b: Seq<u8>, t: PageType) -> Option<PdbError> {
    if b.len() < PAGE_HEADER_LEN {
        Some(format_error(FormatReason::Truncated))
    } else if u32_at(b, 0) != 0 {
        Some(format_error(FormatReason::Magic))
    } else if u32_at(b, 8) != t.raw() {
        Some(format_error(FormatReason::PageType))
    } else if PAGE_HEADER_LEN + index_len(page_rows(b)) > b.len() {
        Some(format_error(FormatReason::RowIndex))
    } else if !no_stray_bits(
        group_presence(b, group_count(page_rows(b)) - 1),
        group_rows(page_rows(b), group_count(page_rows(b)) - 1),
    ) {
        Some(format_error(FormatReason::Presence))
    } else {
        match cursor_end(b, t) {
            Err(e) => Some(e),
            Ok(_) => None,
        }
    }
}

/// One entry of a group of rows.
#[derive(Debug, Clone, PartialEq, Eq)]
pub enum Slot {
    /// No row: the bit of the entry is not set. The heap offset of the entry
    /// is kept as it is.
    Absent { offset: u16 },
    /// A row, and the bytes of the heap between the row in front of it and itself.
    Present { gap: Vec<u8>, row: Row },
}

impl Slot {
    /// Whether this entry is entry `i` of group `g` of the page `b`.
    pub open spec fn parsed_from(&self, b: Seq<u8>, t: PageType, g: int, i: int) -> bool {
        let heap = page_heap(b);
        let start = slot_offset(b, g, i);
        if slot_present(b, g, i) {
            match self {
                Slot::Present { gap, row } => {
                    &&& gap@ == heap.subrange(cursor(b, t, g, i).unwrap(), start as int)
                    &&& row.parsed_from(heap.skip(start as int), t)
                },
                Slot::Absent { .. } => false,
            }
        } else {
            match self {
                Slot::Present { .. } => false,
                Slot::Absent { offset } => *offset == start,
            }
        }
    }
}

/// A group of up to sixteen rows of a page.
#[derive(Debug, Clone, PartialEq, Eq)]
pub struct RowGroup {
    /// The entries of the group, absent rows included.
    pub slots: Vec<Slot>,
    /// The presence bitmask: bit `i` is set if and only if entry `i` holds a
    /// row. No bit is set for which the group has no entry.
    pub presence: u16,
    /// Unknown field.
    pub unknown: u16,
}

impl RowGroup {
    /// The rows among the first `n` entries, in the order of the entries.
    pub open spec fn rows_upto(slots: Seq<Slot>, n: int) -> Seq<Row>
        decreases n,
    {
        if n <= 0 {
            Seq::empty()
        } else {
            match slots[n - 1] {
                Slot::Present { gap, row } => Self::rows_upto(slots, n - 1).push(row),
                Slot::Absent { .. } => Self::rows_upto(slots, n - 1),
            }
        }
    }

    /// The rows of the group that are present, in the order of their entries.
    pub open spec fn present_rows_spec(&self) -> Seq<Row> {
        Self::rows_upto(self.slots@, self.slots@.len() as int)
    }

    /// Whether the bitmask says of every entry whether it holds a row, and
    /// has no bit set for which the group has no entry.
    pub open spec fn presence_matches(&self) -> bool {
        &&& forall|i: int|
            0 <= i < self.slots@.len() ==> (bit_set(self.presence, i) <==> (
            #[trigger] self.slots@[i]) is Present)
        &&& no_stray_bits(self.presence, self.slots@.len() as int)
    }

    /// Whether every row of the group is of the variant of the kind `t`.
    pub open spec fn rows_are_of(&self, t: PageType) -> bool {
        forall|i: int|
            0 <= i < self.slots@.len() ==> ((#[trigger] self.slots@[i]) matches Slot::Present {
                row,
                ..
            } ==> row.page_type() == t)
    }

    /// Whether this group is group `g` of the page `b`.
    pub open spec fn parsed_from(&self, b: Seq<u8>, t: PageType, g: int) -> bool {
        &&& self.slots@.len() == group_rows(page_rows(b), g)
        &&& self.presence == group_presence(b, g)
        &&& self.unknown == group_unknown(b, g)
        &&& forall|i: int|
            0 <= i < self.slots@.len() ==> (#[trigger] self.slots@[i]).parsed_from(b, t, g, i)
    }

    /// The rows of the group that are present, in ascending order of their
    /// entries. An absent entry gives nothing.
    pub fn present_rows(&self) -> (rows: Vec<&Row>)
        ensures
            rows@.len() == self.present_rows_spec().len(),
            forall|j: int|
                0 <= j < rows@.len() ==> *(#[trigger] rows@[j]) == self.present_rows_spec()[j],
    {
        let mut rows: Vec<&Row> = Vec::new();
        let mut i: usize = 0;
        while i < self.slots.len()
            invariant
                0 <= i <= self.slots@.len(),
                rows@.len() == Self::rows_upto(self.slots@, i as int).len(),
                forall|j: int|
                    0 <= j < rows@.len() ==> *(#[trigger] rows@[j]) == Self::rows_upto(
                        self.slots@,
                        i as int,
                    )[j],
            decreases self.slots@.len() - i,
        {
            match &self.slots[i] {
                Slot::Present { gap, row } => {
                    rows.push(row);
                },
                Slot::Absent { .. } => {},
            }
            i += 1;
        }
        rows
    }
}

/// The bits among the first `n` of `flags` that are set, in ascending order.
pub open spec fn set_bits(flags: u16, n: int) -> Seq<int>
    decreases n,
{
    if n <= 0 {
        Seq::empty()
    } else if bit_set(flags, n - 1) {
        set_bits(flags, n - 1).push(n - 1)
    } else {
        set_bits(flags, n - 1)
    }
}

/// The bits that [`set_bits`] lists are the bits that are set, each once and
/// in ascending order.
pub proof fn lemma_set_bits(flags: u16, n: int)
    requires
        0 <= n,
    ensures
        set_bits(flags, n).len() <= n,
        forall|j: int|
            0 <= j < set_bits(flags, n).len() ==> 0 <= (#[trigger] set_bits(flags, n)[j]) < n
                && bit_set(flags, set_bits(flags, n)[j]),
        forall|i: int, j: int|
            0 <= i < j < set_bits(flags, n).len() ==> set_bits(flags, n)[i] < set_bits(
                flags,
                n,
            )[j],
        forall|i: int|
            0 <= i < n && bit_set(flags, i) ==> exists|j: int|
                0 <= j < set_bits(flags, n).len() && #[trigger] set_bits(flags, n)[j] == i,
    decreases n,
{
    if n > 0 {
        lemma_set_bits(flags, n - 1);
        let front = set_bits(flags, n - 1);
        let all = set_bits(flags, n);
        if bit_set(flags, n - 1) {
            assert(all == front.push(n - 1));
            assert forall|j: int| 0 <= j < all.len() implies 0 <= (#[trigger] all[j]) < n
                && bit_set(flags, all[j]) by {
                if j < front.len() {
                    assert(all[j] == front[j]);
                }
            }
            assert forall|i: int, j: int| 0 <= i < j < all.len() implies all[i] < all[j] by {
                assert(all[i] == front[i]);
                if j < front.len() {
                    assert(all[j] == front[j]);
                }
            }
            assert forall|i: int| 0 <= i < n && bit_set(flags, i) implies exists|j: int|
                0 <= j < all.len() && #[trigger] all[j] == i by {
                if i < n - 1 {
                    let j = choose|j: int| 0 <= j < front.len() && #[trigger] front[j] == i;
                    assert(all[j] == i);
                } else {
                    assert(all[front.len() as int] == i);
                }
            }
        } else {
            assert(all == front);
        }
    }
}

/// The rows that are present in a group are the rows of the entries whose
/// bit is set in the bitmask, in ascending order of the entries; there are
/// as many of them as bits are set, and no more than sixteen. An entry whose
/// bit is not set gives no row, whatever entries follow it.
pub proof fn lemma_present_rows_by_bits(group: RowGroup)
    requires
        group.presence_matches(),
        group.slots@.len() <= GROUP_ROWS,
    ensures
        ({
            let rows = group.present_rows_spec();
            let bits = set_bits(group.presence, GROUP_ROWS as int);
            &&& rows.len() == bits.len() <= GROUP_ROWS
            &&& forall|j: int|
                0 <= j < rows.len() ==> {
                    &&& 0 <= (#[trigger] bits[j]) < group.slots@.len()
                    &&& group.slots@[bits[j]] is Present
                    &&& group.slots@[bits[j]]->row == rows[j]
                }
        }),
{
    let n = group.slots@.len() as int;
    lemma_rows_by_bits(group, n);
    lemma_set_bits_behind(group.presence, n, GROUP_ROWS as int);
    lemma_set_bits(group.presence, GROUP_ROWS as int);
}

/// The rows among the first `n` entries of a group are the rows of the
/// entries among them whose bit is set.
proof fn lemma_rows_by_bits(group: RowGroup, n: int)
    requires
        group.presence_matches(),
        0 <= n <= group.slots@.len(),
    ensures
        RowGroup::rows_upto(group.slots@, n).len() == set_bits(group.presence, n).len(),
        forall|j: int|
            0 <= j < set_bits(group.presence, n).len() ==> {
                &&& 0 <= (#[trigger] set_bits(group.presence, n)[j]) < n
                &&& group.slots@[set_bits(group.presence, n)[j]] is Present
                &&& group.slots@[set_bits(group.presence, n)[j]]->row == RowGroup::rows_upto(
                    group.slots@,
                    n,
                )[j]
            },
    decreases n,
{
    if n > 0 {
        lemma_rows_by_bits(group, n - 1);
        let front = set_bits(group.presence, n - 1);
        let all = set_bits(group.presence, n);
        let rows = RowGroup::rows_upto(group.slots@, n);
        let slot = group.slots@[n - 1];
        assert(bit_set(group.presence, n - 1) <==> slot is Present);
        if bit_set(group.presence, n - 1) {
            assert(all == front.push(n - 1));
            assert forall|j: int| 0 <= j < all.len() implies {
                &&& 0 <= (#[trigger] all[j]) < n
                &&& group.slots@[all[j]] is Present
                &&& group.slots@[all[j]]->row == rows[j]
            } by {
                if j < front.len() {
                    assert(all[j] == front[j]);
                }
            }
        } else {
            assert(all == front);
        }
    }
}

/// Where no bit is set from bit `n` on, the bits that are set are among the
/// first `n`.
proof fn lemma_set_bits_behind(flags: u16, n: int, m: int)
    requires
        0 <= n <= m <= GROUP_ROWS,
        no_stray_bits(flags, n),
    ensures
        set_bits(flags, m) == set_bits(flags, n),
    decreases m - n,
{
    if n < m {
        lemma_set_bits_behind(flags, n, m - 1);
        assert(!bit_set(flags, m - 1));
    }
}

/// A group whose bitmask has the bits 0 and 2 set and no others has two
/// rows that are present: the row of its first entry, and then the row of
/// its third entry.
pub proof fn lemma_present_rows_of_mask_five(group: RowGroup)
    requires
        group.presence_matches(),
        group.slots@.len() <= GROUP_ROWS,
        group.presence == 5,
    ensures
        group.slots@.len() >= 3,
        group.slots@[0] is Present,
        group.slots@[1] is Absent,
        group.slots@[2] is Present,
        group.present_rows_spec() == seq![group.slots@[0]->row, group.slots@[2]->row],
{
    let flags: u16 = 5;
    assert((5u16 >> 0u16) & 1u16 == 1u16) by (bit_vector);
    assert((5u16 >> 1u16) & 1u16 != 1u16) by (bit_vector);
    assert((5u16 >> 2u16) & 1u16 == 1u16) by (bit_vector);
    assert(forall|i: u16| 3 <= i < 16 ==> #[trigger] (5u16 >> i) & 1u16 != 1u16) by (bit_vector);
    assert(bit_set(flags, 0));
    assert(!bit_set(flags, 1));
    assert(bit_set(flags, 2));
    assert forall|i: int| 3 <= i < 16 implies !#[trigger] bit_set(flags, i) by {
        let k = i as u16;
        assert((5u16 >> k) & 1u16 != 1u16);
    }
    if group.slots@.len() < 3 {
        assert(!bit_set(group.presence, 2));
    }
    assert(set_bits(flags, 0) =~= Seq::<int>::empty());
    assert(set_bits(flags, 1) =~= seq![0int]);
    assert(set_bits(flags, 2) =~= seq![0int]);
    assert(set_bits(flags, 3) =~= seq![0int, 2int]);
    assert(no_stray_bits(flags, 3));
    lemma_set_bits_behind(flags, 3, GROUP_ROWS as int);
    lemma_present_rows_by_bits(group);
    let rows = group.present_rows_spec();
    let bits = set_bits(flags, GROUP_ROWS as int);
    assert(bits[0] == 0 && bits[1] == 2);
    assert(rows =~= seq![group.slots@[0]->row, group.slots@[2]->row]);
}

/// A page of a table.
#[derive(Debug, Clone, PartialEq, Eq)]
pub struct Page {
    /// Index of the page in the file.
    pub page_index: u32,
    /// The kind of rows that the page holds.
    pub page_type: PageType,
    /// Index of the next page of the same table.
    pub next_page: u32,
    /// Unknown field.
    pub unknown1: u32,
    /// Unknown field.
    pub unknown2: u32,
    /// 8-bit counter of the rows of the page.
    pub num_rows_small: u8,
    /// Unknown field.
    pub unknown3: u8,
    /// Unknown field.
    pub unknown4: u8,
    /// Flags of the page.
    pub page_flags: u8,
    /// Number of bytes of the heap that are free.
    pub free_size: u16,
    /// Number of bytes of the heap that are in use.
    pub used_size: u16,
    /// Unknown field.
    pub unknown5: u16,
    /// 16-bit counter of the rows of the page.
    pub num_rows_large: u16,
    /// Unknown field.
    pub unknown6: u16,
    /// Unknown field.
    pub unknown7: u16,
    /// The groups of rows, the group of the first row first.
    pub row_groups: Vec<RowGroup>,
    /// The bytes of the heap behind the last row.
    pub free: Vec<u8>,
}

impl Page {
    /// The number of rows of the page, absent rows included.
    pub open spec fn row_count_spec(&self) -> int {
        row_count_of(self.num_rows_small, self.num_rows_large)
    }

    /// Whether the header fields hold what `b` says.
    pub open spec fn header_parsed_from(&self, b: Seq<u8>) -> bool {
        &&& self.page_index == u32_at(b, 4)
        &&& self.next_page == u32_at(b, 12)
        &&& self.unknown1 == u32_at(b, 16)
        &&& self.unknown2 == u32_at(b, 20)
        &&& self.num_rows_small == b[24]
        &&& self.unknown3 == b[25]
        &&& self.unknown4 == b[26]
        &&& self.page_flags == b[27]
        &&& self.free_size == u16_at(b, 28)
        &&& self.used_size == u16_at(b, 30)
        &&& self.unknown5 == u16_at(b, 32)
        &&& self.num_rows_large == u16_at(b, 34)
        &&& self.unknown6 == u16_at(b, 36)
        &&& self.unknown7 == u16_at(b, 38)
    }

    /// Whether this page is what `b` holds, read as a page of a table of kind `t`.
    #[verifier::opaque]
    pub open spec fn parsed_from(&self, b: Seq<u8>, t: PageType) -> bool {
        &&& self.page_type == t
        &&& self.header_parsed_from(b)
        &&& self.row_groups@.len() == group_count(page_rows(b))
        &&& forall|g: int|
            0 <= g < self.row_groups@.len() ==> (#[trigger] self.row_groups@[g]).parsed_from(
                b,
                t,
                g,
            )
        &&& self.free@ == page_heap(b).skip(cursor_end(b, t).unwrap())
    }

    /// The number of rows of the page, absent rows included.
    pub fn row_count(&self) -> (n: usize)
        ensures
            n == self.row_count_spec(),
    {
        if self.num_rows_large as usize > self.num_rows_small as usize && self.num_rows_large
            != NO_LARGE_COUNT {
            self.num_rows_large as usize
        } else {
            self.num_rows_small as usize
        }
    }
}

/// An error on the way to an entry is the error of every entry behind it in
/// the same group.
pub proof fn lemma_cursor_error_in_group(b: Seq<u8>, t: PageType, g: int, i: int, j: int)
    requires
        0 <= i <= j,
        cursor(b, t, g, i) is Err,
    ensures
        cursor(b, t, g, j) == cursor(b, t, g, i),
    decreases j - i,
{
    reveal(cursor);
    if i < j {
        lemma_cursor_error_in_group(b, t, g, i, j - 1);
    }
}

/// An error on the way to an entry is the error of every entry of the
/// groups behind it.
pub proof fn lemma_cursor_error_stays(b: Seq<u8>, t: PageType, g: int, i: int, h: int, j: int)
    requires
        0 <= g <= h,
        0 <= i <= GROUP_ROWS,
        0 <= j,
        g < h || i <= j,
        cursor(b, t, g, i) is Err,
    ensures
        cursor(b, t, h, j) == cursor(b, t, g, i),
    decreases h - g,
{
    if g == h {
        lemma_cursor_error_in_group(b, t, g, i, j);
    } else {
        lemma_cursor_error_in_group(b, t, g, i, GROUP_ROWS as int);
        lemma_cursor_next_group(b, t, g);
        lemma_cursor_error_stays(b, t, g + 1, 0, h, j);
    }
}

/// The rows in front of a group end where the last row of the group in
/// front of it ends.
pub proof fn lemma_cursor_next_group(b: Seq<u8>, t: PageType, g: int)
    requires
        0 <= g,
    ensures
        cursor(b, t, g + 1, 0) == cursor(b, t, g, GROUP_ROWS as int),
{
    reveal(cursor);
}

/// The rows in front of an entry end where the entry in front of it ends,
/// and nothing lies in front of the first entry of the first group.
pub proof fn lemma_cursor_unfold(b: Seq<u8>, t: PageType, g: int, i: int)
    ensures
        i > 0 ==> cursor(b, t, g, i) == match cursor(b, t, g, i - 1) {
            Err(e) => Err(e),
            Ok(before) => cursor_step(b, t, g, i - 1, before),
        },
        i <= 0 && g <= 0 ==> cursor(b, t, g, i) == Ok::<int, PdbError>(0),
{
    reveal(cursor);
}

/// The index entry of every group of a page lies behind the heap.
pub proof fn lemma_group_in_index(rows: int, g: int)
    requires
        0 <= rows,
        0 <= g < group_count(rows),
    ensures
        0 <= group_rows(rows, g) <= GROUP_ROWS,
        rows > 0 ==> group_rows(rows, g) > 0,
        g < group_count(rows) - 1 ==> group_rows(rows, g) == GROUP_ROWS,
        GROUP_LEN * g + 4 + 2 * group_rows(rows, g) <= index_len(rows),
        g == group_count(rows) - 1 ==> GROUP_LEN * g + 4 + 2 * group_rows(rows, g) == index_len(
            rows,
        ),
{
}

/// Reads the entries of group `g`, which has `n` entries, of the page
/// `bytes` with the heap `heap`; the rows in front of the group end at `at`.
/// Gives the group and the end of its last row.
fn decode_group(
    bytes: &[u8],
    heap: &[u8],
    page_type: PageType,
    g: usize,
    n: usize,
    at: usize,
) -> (r: Result<(RowGroup, usize), PdbError>)
    requires
        bytes@.len() >= PAGE_HEADER_LEN,
        PAGE_HEADER_LEN + index_len(page_rows(bytes@)) <= bytes@.len(),
        heap@ == page_heap(bytes@),
        0 <= g < group_count(page_rows(bytes@)),
        n == group_rows(page_rows(bytes@), g as int),
        cursor(bytes@, page_type, g as int, 0) == Ok::<int, PdbError>(at as int),
        at <= heap@.len(),
    ensures
        match r {
            Ok((group, end)) => {
                &&& group.parsed_from(bytes@, page_type, g as int)
                &&& cursor(bytes@, page_type, g as int, n as int) == Ok::<int, PdbError>(
                    end as int,
                )
                &&& end <= heap@.len()
            },
            Err(e) => cursor(bytes@, page_type, g as int, n as int) == Err::<int, PdbError>(e),
        },
{
    proof {
        lemma_group_in_index(page_rows(bytes@), g as int);
    }
    let end_of_group: usize = bytes.len() - GROUP_LEN * g;
    let presence = read_u16(bytes, end_of_group - 4);
    let unknown = read_u16(bytes, end_of_group - 2);
    let mut slots: Vec<Slot> = Vec::new();
    let mut at: usize = at;
    let mut i: usize = 0;
    while i < n
        invariant
            0 <= i <= n <= GROUP_ROWS,
            bytes@.len() >= PAGE_HEADER_LEN,
            PAGE_HEADER_LEN + index_len(page_rows(bytes@)) <= bytes@.len(),
            GROUP_LEN * g + 4 + 2 * n <= index_len(page_rows(bytes@)),
            end_of_group == group_end(bytes@, g as int),
            presence == group_presence(bytes@, g as int),
            heap@ == page_heap(bytes@),
            cursor(bytes@, page_type, g as int, i as int) == Ok::<int, PdbError>(at as int),
            at <= heap@.len(),
            slots@.len() == i,
            forall|j: int|
                0 <= j < i ==> (#[trigger] slots@[j]).parsed_from(bytes@, page_type, g as int, j),
        decreases n - i,
    {
        proof {
            lemma_cursor_unfold(bytes@, page_type, g as int, i + 1);
            if cursor(bytes@, page_type, g as int, i + 1) is Err {
                lemma_cursor_error_in_group(bytes@, page_type, g as int, i + 1, n as int);
            }
        }
        let offset = read_u16(bytes, end_of_group - 4 - 2 * (i + 1));
        if is_bit_set(presence, i) {
            let start = offset as usize;
            if start < at || start > heap.len() {
                return Err(PdbError::Format { reason: FormatReason::RowOffset });
            }
            let (row, len) = match Row::decode(
                slice_subrange(heap, start, heap.len()),
                page_type,
            ) {
                Ok(v) => v,
                Err(e) => return Err(e),
            };
            proof {
                Row::lemma_decoded_len_bounds(heap@.skip(start as int), page_type);
            }
            let gap = slice_to_vec(slice_subrange(heap, at, start));
            slots.push(Slot::Present { gap, row });
            at = start + len;
        } else {
            slots.push(Slot::Absent { offset });
        }
        i += 1;
    }
    Ok((RowGroup { slots, presence, unknown }, at))
}

impl Page {
    /// Reads a page of a table of kind `page_type`. `bytes` is the whole
    /// page: the row index is looked for at its end.
    pub fn decode(bytes: &[u8], page_type: PageType) -> (r: Result<Page, PdbError>)
        ensures
            match r {
                Ok(page) => {
                    &&& page_error(bytes@, page_type) is None
                    &&& page.parsed_from(bytes@, page_type)
                    &&& page.encoding() == Ok::<Seq<u8>, PdbError>(bytes@)
                },
                Err(e) => page_error(bytes@, page_type) == Some(e),
            },
    {
        proof {
            reveal(page_error);
            reveal(Page::parsed_from);
        }
        if bytes.len() < PAGE_HEADER_LEN {
            return Err(PdbError::Format { reason: FormatReason::Truncated });
        }
        if read_u32(bytes, 0) != 0 {
            return Err(PdbError::Format { reason: FormatReason::Magic });
        }
        if read_u32(bytes, 8) != page_type.raw() {
            return Err(PdbError::Format { reason: FormatReason::PageType });
        }
        let page_index = read_u32(bytes, 4);
        let next_page = read_u32(bytes, 12);
        let unknown1 = read_u32(bytes, 16);
        let unknown2 = read_u32(bytes, 20);
        let num_rows_small = read_u8(bytes, 24);
        let unknown3 = read_u8(bytes, 25);
        let unknown4 = read_u8(bytes, 26);
        let page_flags = read_u8(bytes, 27);
        let free_size = read_u16(bytes, 28);
        let used_size = read_u16(bytes, 30);
        let unknown5 = read_u16(bytes, 32);
        let num_rows_large = read_u16(bytes, 34);
        let unknown6 = read_u16(bytes, 36);
        let unknown7 = read_u16(bytes, 38);
        let rows: usize = if num_rows_large as usize > num_rows_small as usize && num_rows_large
            != NO_LARGE_COUNT {
            num_rows_large as usize
        } else {
            num_rows_small as usize
        };
        let groups: usize = if rows == 0 {
            1
        } else {
            (rows - 1) / GROUP_ROWS + 1
        };
        let index: usize = 2 * rows + 4 * groups;
        if PAGE_HEADER_LEN + index > bytes.len() {
            return Err(PdbError::Format { reason: FormatReason::RowIndex });
        }
        proof {
            lemma_group_in_index(rows as int, groups - 1);
        }
        let last_rows: usize = rows - GROUP_ROWS * (groups - 1);
        let last_presence = read_u16(bytes, bytes.len() - GROUP_LEN * (groups - 1) - 4);
        if !has_no_stray_bits(last_presence, last_rows) {
            return Err(PdbError::Format { reason: FormatReason::Presence });
        }
        let heap = slice_subrange(bytes, PAGE_HEADER_LEN, bytes.len() - index);
        let mut row_groups: Vec<RowGroup> = Vec::new();
        let mut at: usize = 0;
        let mut g: usize = 0;
        proof {
            lemma_cursor_unfold(bytes@, page_type, 0, 0);
        }
        while g < groups
            invariant
                0 <= g <= groups,
                rows == page_rows(bytes@),
                groups == group_count(rows as int),
                bytes@.len() >= PAGE_HEADER_LEN,
                u32_at(bytes@, 0) == 0,
                u32_at(bytes@, 8) == page_type.raw(),
                no_stray_bits(
                    group_presence(bytes@, groups - 1),
                    group_rows(rows as int, groups - 1),
                ),
                PAGE_HEADER_LEN + index_len(page_rows(bytes@)) <= bytes@.len(),
                heap@ == page_heap(bytes@),
                at <= heap@.len(),
                g < groups ==> cursor(bytes@, page_type, g as int, 0) == Ok::<int, PdbError>(
                    at as int,
                ),
                g == groups ==> cursor_end(bytes@, page_type) == Ok::<int, PdbError>(at as int),
                row_groups@.len() == g,
                forall|h: int|
                    0 <= h < g ==> (#[trigger] row_groups@[h]).parsed_from(
                        bytes@,
                        page_type,
                        h,
                    ),
            decreases groups - g,
        {
            proof {
                lemma_group_in_index(rows as int, g as int);
            }
            let n: usize = if rows - GROUP_ROWS * g >= GROUP_ROWS {
                GROUP_ROWS
            } else {
                rows - GROUP_ROWS * g
            };
            match decode_group(bytes, heap, page_type, g, n, at) {
                Ok((group, end)) => {
                    proof {
                        lemma_cursor_next_group(bytes@, page_type, g as int);
                    }
                    row_groups.push(group);
                    at = end;
                },
                Err(e) => {
                    proof {
                        reveal(page_error);
                        let last = groups - 1;
                        lemma_cursor_error_stays(
                            bytes@,
                            page_type,
                            g as int,
                            n as int,
                            last as int,
                            group_rows(rows as int, last as int),
                        );
                    }
                    return Err(e);
                },
            }
            g += 1;
        }
        let free = slice_to_vec(slice_subrange(heap, at, heap.len()));
        let page = Page {
            page_index,
            page_type,
            next_page,
            unknown1,
            unknown2,
            num_rows_small,
            unknown3,
            unknown4,
            page_flags,
            free_size,
            used_size,
            unknown5,
            num_rows_large,
            unknown6,
            unknown7,
            row_groups,
            free,
        };
        proof {
            page.lemma_round_trip(bytes@, page_type);
        }
        Ok(page)
    }
}

/// The heap after one more entry: the heap in front of it, and for a row its
/// gap and its bytes. Fails if the row would start behind what a 16-bit
/// offset can say, or cannot be written.
pub open spec fn heap_step(slot: Slot, before: Seq<u8>) -> Result<Seq<u8>, PdbError> {
    match slot {
        Slot::Absent { .. } => Ok(before),
        Slot::Present { gap, row } => if before.len() + gap@.len() > 0xFFFF {
            Err(format_error(FormatReason::Overflow))
        } else {
            match row.encoding() {
                Err(e) => Err(e),
                Ok(bytes) => Ok(before + gap@ + bytes),
            }
        },
    }
}

/// The bytes of the heap in front of entry `i` of group `g`, or the first
/// error met in writing them.
#[verifier::opaque]
pub open spec fn heap_upto(groups: Seq<RowGroup>, g: int, i: int) -> Result<Seq<u8>, PdbError>
    decreases g, i,
{
    if i > 0 {
        match heap_upto(groups, g, i - 1) {
            Err(e) => Err(e),
            Ok(before) => heap_step(groups[g].slots@[i - 1], before),
        }
    } else if g > 0 {
        heap_upto(groups, g - 1, GROUP_ROWS as int)
    } else {
        Ok(Seq::empty())
    }
}

/// The heap offset that the index has for entry `i` of group `g`: the place
/// where its row starts, or for an absent row the offset that was kept.
pub open spec fn slot_start(groups: Seq<RowGroup>, g: int, i: int) -> u16 {
    match groups[g].slots@[i] {
        Slot::Absent { offset } => offset,
        Slot::Present { gap, row } => (heap_upto(groups, g, i).unwrap().len() + gap@.len()) as u16,
    }
}

/// The first `m` heap offsets of the index entry of group `g` as they stand
/// in the page, which is the offsets of its last `m` rows, the last row first.
pub open spec fn offsets_upto(groups: Seq<RowGroup>, g: int, m: int) -> Seq<u8>
    decreases m,
{
    if m <= 0 {
        Seq::empty()
    } else {
        offsets_upto(groups, g, m - 1) + u16_bytes(
            slot_start(groups, g, groups[g].slots@.len() - m),
        )
    }
}

/// The index entry of group `g`: its heap offsets, its bitmask and its unknown field.
pub open spec fn group_bytes(groups: Seq<RowGroup>, g: int) -> Seq<u8> {
    offsets_upto(groups, g, groups[g].slots@.len() as int) + u16_bytes(groups[g].presence)
        + u16_bytes(groups[g].unknown)
}

/// The index entries of the last `j` groups as they stand in the page, the
/// last group first.
pub open spec fn index_upto(groups: Seq<RowGroup>, j: int) -> Seq<u8>
    decreases j,
{
    if j <= 0 {
        Seq::empty()
    } else {
        index_upto(groups, j - 1) + group_bytes(groups, groups.len() - j)
    }
}

/// The heap in front of an entry is the heap in front of the entry before
/// it and that entry, and nothing lies in front of the first entry of the
/// first group.
pub proof fn lemma_heap_unfold(groups: Seq<RowGroup>, g: int, i: int)
    ensures
        i > 0 ==> heap_upto(groups, g, i) == match heap_upto(groups, g, i - 1) {
            Err(e) => Err(e),
            Ok(before) => heap_step(groups[g].slots@[i - 1], before),
        },
        i <= 0 && g > 0 ==> heap_upto(groups, g, i) == heap_upto(
            groups,
            g - 1,
            GROUP_ROWS as int,
        ),
        i <= 0 && g <= 0 ==> heap_upto(groups, g, i) == Ok::<Seq<u8>, PdbError>(Seq::empty()),
{
    reveal(heap_upto);
}

/// An error in writing the heap up to an entry is the error of writing it
/// up to every entry behind that one in the same group.
pub proof fn lemma_heap_error_in_group(groups: Seq<RowGroup>, g: int, i: int, j: int)
    requires
        0 <= i <= j,
        heap_upto(groups, g, i) is Err,
    ensures
        heap_upto(groups, g, j) == heap_upto(groups, g, i),
    decreases j - i,
{
    if i < j {
        lemma_heap_error_in_group(groups, g, i, j - 1);
        lemma_heap_unfold(groups, g, j);
    }
}

/// An error in writing the heap up to an entry is the error of writing it
/// up to every entry of the groups behind that one.
pub proof fn lemma_heap_error_stays(groups: Seq<RowGroup>, g: int, i: int, h: int, j: int)
    requires
        0 <= g <= h,
        0 <= i <= GROUP_ROWS,
        0 <= j,
        g < h || i <= j,
        heap_upto(groups, g, i) is Err,
    ensures
        heap_upto(groups, h, j) == heap_upto(groups, g, i),
    decreases h - g,
{
    if g == h {
        lemma_heap_error_in_group(groups, g, i, j);
    } else {
        lemma_heap_error_in_group(groups, g, i, GROUP_ROWS as int);
        lemma_heap_unfold(groups, g + 1, 0);
        lemma_heap_error_stays(groups, g + 1, 0, h, j);
    }
}

impl Page {
    /// The bytes of the page header.
    pub open spec fn header_bytes(&self) -> Seq<u8> {
        u32_bytes(0) + u32_bytes(self.page_index) + u32_bytes(self.page_type.raw()) + u32_bytes(
            self.next_page,
        ) + u32_bytes(self.unknown1) + u32_bytes(self.unknown2) + seq![self.num_rows_small]
            + seq![self.unknown3] + seq![self.unknown4] + seq![self.page_flags] + u16_bytes(
            self.free_size,
        ) + u16_bytes(self.used_size) + u16_bytes(self.unknown5) + u16_bytes(self.num_rows_large)
            + u16_bytes(self.unknown6) + u16_bytes(self.unknown7)
    }

    /// Whether the page has the groups and entries that its row counters
    /// ask for, bitmasks that say which entries hold a row, and no rows but
    /// of its own kind.
    pub open spec fn has_shape(&self) -> bool {
        let rows = self.row_count_spec();
        &&& self.row_groups@.len() == group_count(rows)
        &&& forall|g: int|
            0 <= g < self.row_groups@.len() ==> {
                &&& (#[trigger] self.row_groups@[g]).slots@.len() == group_rows(rows, g)
                &&& self.row_groups@[g].presence_matches()
                &&& self.row_groups@[g].rows_are_of(self.page_type)
            }
    }

    /// Whether `starts` lists, for each of the first `n` groups, the heap
    /// offsets of its entries.
    pub open spec fn starts_listed(&self, starts: Seq<Vec<u16>>, n: int) -> bool {
        &&& starts.len() == n
        &&& forall|g: int|
            0 <= g < n ==> {
                &&& (#[trigger] starts[g])@.len() == self.row_groups@[g].slots@.len()
                &&& forall|i: int|
                    0 <= i < starts[g]@.len() ==> #[trigger] starts[g]@[i] == slot_start(
                        self.row_groups@,
                        g,
                        i,
                    )
            }
    }

    /// The bytes of the heap up to the end of the last row, or the first
    /// error met in writing the rows.
    pub open spec fn heap_bytes(&self) -> Result<Seq<u8>, PdbError> {
        let last = self.row_groups@.len() - 1;
        heap_upto(self.row_groups@, last, self.row_groups@[last].slots@.len() as int)
    }

    /// The bytes of this page, or the reason why it cannot be written: it
    /// has not the shape that its row counters and its kind ask for, a row
    /// cannot be written, or a row would start behind offset 65535 of the
    /// heap.
    #[verifier::opaque]
    pub open spec fn encoding(&self) -> Result<Seq<u8>, PdbError> {
        if !self.has_shape() {
            Err(format_error(FormatReason::Shape))
        } else {
            match self.heap_bytes() {
                Err(e) => Err(e),
                Ok(heap) => Ok(
                    self.header_bytes() + heap + self.free@ + index_upto(
                        self.row_groups@,
                        self.row_groups@.len() as int,
                    ),
                ),
            }
        }
    }
}

/// In a page that can be read, the rows in front of every entry can be read.
pub proof fn lemma_cursor_ok(b: Seq<u8>, t: PageType, g: int, i: int)
    requires
        page_error(b, t) is None,
        0 <= g < group_count(page_rows(b)),
        0 <= i <= group_rows(page_rows(b), g),
    ensures
        cursor(b, t, g, i) is Ok,
{
    reveal(page_error);
    let rows = page_rows(b);
    let last = group_count(rows) - 1;
    lemma_group_in_index(rows, g);
    lemma_group_in_index(rows, last);
    if cursor(b, t, g, i) is Err {
        lemma_cursor_error_stays(b, t, g, i, last, group_rows(rows, last));
    }
}

impl Page {
    /// The header that was read from `b` is written as the first 40 bytes of `b`.
    proof fn lemma_header_round_trip(&self, b: Seq<u8>, t: PageType)
        requires
            b.len() >= PAGE_HEADER_LEN,
            u32_at(b, 0) == 0,
            u32_at(b, 8) == t.raw(),
            self.page_type == t,
            self.header_parsed_from(b),
        ensures
            self.header_bytes() == b.subrange(0, PAGE_HEADER_LEN as int),
    {
        let p = Seq::<u8>::empty();
        assert(p =~= b.subrange(0, 0));
        lemma_extend_u32(p, b, 0, 0);
        let p = p + u32_bytes(0);
        lemma_extend_u32(p, b, 4, self.page_index);
        let p = p + u32_bytes(self.page_index);
        lemma_extend_u32(p, b, 8, self.page_type.raw());
        let p = p + u32_bytes(self.page_type.raw());
        lemma_extend_u32(p, b, 12, self.next_page);
        let p = p + u32_bytes(self.next_page);
        lemma_extend_u32(p, b, 16, self.unknown1);
        let p = p + u32_bytes(self.unknown1);
        lemma_extend_u32(p, b, 20, self.unknown2);
        let p = p + u32_bytes(self.unknown2);
        lemma_extend_u8(p, b, 24, self.num_rows_small);
        let p = p + seq![self.num_rows_small];
        lemma_extend_u8(p, b, 25, self.unknown3);
        let p = p + seq![self.unknown3];
        lemma_extend_u8(p, b, 26, self.unknown4);
        let p = p + seq![self.unknown4];
        lemma_extend_u8(p, b, 27, self.page_flags);
        let p = p + seq![self.page_flags];
        lemma_extend_u16(p, b, 28, self.free_size);
        let p = p + u16_bytes(self.free_size);
        lemma_extend_u16(p, b, 30, self.used_size);
        let p = p + u16_bytes(self.used_size);
        lemma_extend_u16(p, b, 32, self.unknown5);
        let p = p + u16_bytes(self.unknown5);
        lemma_extend_u16(p, b, 34, self.num_rows_large);
        let p = p + u16_bytes(self.num_rows_large);
        lemma_extend_u16(p, b, 36, self.unknown6);
        let p = p + u16_bytes(self.unknown6);
        lemma_extend_u16(p, b, 38, self.unknown7);
        assert(Seq::<u8>::empty() + u32_bytes(0) =~= u32_bytes(0));
    }

    /// The heap in front of an entry of a page that was read from `b` is
    /// written as the bytes of the heap of `b` in front of that entry.
    proof fn lemma_heap_round_trip(&self, b: Seq<u8>, t: PageType, g: int, i: int)
        requires
            page_error(b, t) is None,
            self.parsed_from(b, t),
            0 <= g < group_count(page_rows(b)),
            0 <= i <= group_rows(page_rows(b), g),
        ensures
            cursor(b, t, g, i) is Ok,
            0 <= cursor(b, t, g, i).unwrap() <= page_heap(b).len(),
            heap_upto(self.row_groups@, g, i) == Ok::<Seq<u8>, PdbError>(
                page_heap(b).subrange(0, cursor(b, t, g, i).unwrap()),
            ),
        decreases g, i,
    {
        reveal(page_error);
        reveal(Page::parsed_from);
        let rows = page_rows(b);
        let heap = page_heap(b);
        let groups = self.row_groups@;
        lemma_cursor_ok(b, t, g, i);
        lemma_group_in_index(rows, g);
        lemma_heap_unfold(groups, g, i);
        lemma_cursor_unfold(b, t, g, i);
        if i > 0 {
            self.lemma_heap_round_trip(b, t, g, i - 1);
            let before = cursor(b, t, g, i - 1).unwrap();
            let slot = groups[g].slots@[i - 1];
            assert(groups[g].parsed_from(b, t, g));
            assert(slot.parsed_from(b, t, g, i - 1));
            match slot {
                Slot::Absent { .. } => {},
                Slot::Present { gap, row } => {
                    let start = slot_offset(b, g, i - 1) as int;
                    let len = Row::decoded_len(heap.skip(start), t);
                    Row::lemma_decoded_len_bounds(heap.skip(start), t);
                    row.lemma_round_trip(heap.skip(start), t);
                    assert(heap.skip(start).subrange(0, len) =~= heap.subrange(
                        start,
                        start + len,
                    ));
                    assert(heap.subrange(0, before) + heap.subrange(before, start)
                        + heap.subrange(start, start + len) =~= heap.subrange(0, start + len));
                },
            }
        } else if g > 0 {
            lemma_group_in_index(rows, g - 1);
            self.lemma_heap_round_trip(b, t, g - 1, GROUP_ROWS as int);
            lemma_cursor_next_group(b, t, g - 1);
        } else {
            assert(heap.subrange(0, 0) =~= Seq::<u8>::empty());
        }
    }

    /// The heap offset that is written for an entry of a page that was read
    /// from `b` is the one that `b` has for it.
    proof fn lemma_slot_start(&self, b: Seq<u8>, t: PageType, g: int, i: int)
        requires
            page_error(b, t) is None,
            self.parsed_from(b, t),
            0 <= g < group_count(page_rows(b)),
            0 <= i < group_rows(page_rows(b), g),
        ensures
            slot_start(self.row_groups@, g, i) == slot_offset(b, g, i),
    {
        reveal(page_error);
        reveal(Page::parsed_from);
        let groups = self.row_groups@;
        self.lemma_heap_round_trip(b, t, g, i);
        lemma_cursor_ok(b, t, g, i + 1);
        lemma_cursor_unfold(b, t, g, i + 1);
        assert(groups[g].parsed_from(b, t, g));
        assert(groups[g].slots@[i].parsed_from(b, t, g, i));
    }

    /// The first heap offsets of an index entry of a page that was read from
    /// `b` are written as the bytes of `b` that hold them.
    proof fn lemma_offsets_round_trip(&self, b: Seq<u8>, t: PageType, g: int, m: int)
        requires
            page_error(b, t) is None,
            self.parsed_from(b, t),
            0 <= g < group_count(page_rows(b)),
            0 <= m <= group_rows(page_rows(b), g),
        ensures
            offsets_upto(self.row_groups@, g, m) == b.subrange(
                slot_offset_at(b, g, group_rows(page_rows(b), g) - 1),
                slot_offset_at(b, g, group_rows(page_rows(b), g) - 1) + 2 * m,
            ),
        decreases m,
    {
        reveal(page_error);
        reveal(Page::parsed_from);
        let groups = self.row_groups@;
        let n = group_rows(page_rows(b), g);
        let from = slot_offset_at(b, g, n - 1);
        lemma_group_in_index(page_rows(b), g);
        assert(groups[g].parsed_from(b, t, g));
        if m > 0 {
            self.lemma_offsets_round_trip(b, t, g, m - 1);
            self.lemma_slot_start(b, t, g, n - m);
            lemma_u16_bytes_of_read(b, from + 2 * (m - 1));
            assert(b.subrange(from, from + 2 * (m - 1)) + b.subrange(
                from + 2 * (m - 1),
                from + 2 * m,
            ) =~= b.subrange(from, from + 2 * m));
        } else {
            assert(b.subrange(from, from) =~= Seq::<u8>::empty());
        }
    }

    /// The index entry of a group of a page that was read from `b` is
    /// written as the bytes of `b` that hold it.
    proof fn lemma_group_round_trip(&self, b: Seq<u8>, t: PageType, g: int)
        requires
            page_error(b, t) is None,
            self.parsed_from(b, t),
            0 <= g < group_count(page_rows(b)),
        ensures
            group_bytes(self.row_groups@, g) == b.subrange(
                slot_offset_at(b, g, group_rows(page_rows(b), g) - 1),
                group_end(b, g),
            ),
    {
        reveal(page_error);
        reveal(Page::parsed_from);
        let groups = self.row_groups@;
        let n = group_rows(page_rows(b), g);
        let from = slot_offset_at(b, g, n - 1);
        let end = group_end(b, g);
        lemma_group_in_index(page_rows(b), g);
        assert(groups[g].parsed_from(b, t, g));
        self.lemma_offsets_round_trip(b, t, g, n);
        lemma_u16_bytes_of_read(b, end - 4);
        lemma_u16_bytes_of_read(b, end - 2);
        assert(b.subrange(from, end - 4) + b.subrange(end - 4, end - 2) + b.subrange(
            end - 2,
            end,
        ) =~= b.subrange(from, end));
    }

    /// The index entries of the last groups of a page that was read from `b`
    /// are written as the bytes of `b` that hold them.
    proof fn lemma_index_round_trip(&self, b: Seq<u8>, t: PageType, j: int)
        requires
            page_error(b, t) is None,
            self.parsed_from(b, t),
            0 <= j <= group_count(page_rows(b)),
        ensures
            index_upto(self.row_groups@, j) == b.subrange(
                b.len() - index_len(page_rows(b)),
                if j == 0 {
                    b.len() - index_len(page_rows(b))
                } else {
                    group_end(b, group_count(page_rows(b)) - j)
                },
            ),
        decreases j,
    {
        reveal(page_error);
        reveal(Page::parsed_from);
        let rows = page_rows(b);
        let count = group_count(rows);
        let from = b.len() - index_len(rows);
        if j > 0 {
            let g = count - j;
            self.lemma_index_round_trip(b, t, j - 1);
            self.lemma_group_round_trip(b, t, g);
            lemma_group_in_index(rows, g);
            let mid = slot_offset_at(b, g, group_rows(rows, g) - 1);
            assert(b.subrange(from, mid) + b.subrange(mid, group_end(b, g)) =~= b.subrange(
                from,
                group_end(b, g),
            ));
        } else {
            assert(b.subrange(from, from) =~= Seq::<u8>::empty());
        }
    }

    /// A page that was read from `b` has the shape that its counters and
    /// its kind ask for: in every group the bitmask says which entries hold
    /// a row.
    pub proof fn lemma_shape(&self, b: Seq<u8>, t: PageType)
        requires
            page_error(b, t) is None,
            self.parsed_from(b, t),
        ensures
            self.has_shape(),
    {
        reveal(page_error);
        reveal(Page::parsed_from);
        assert forall|g: int| 0 <= g < self.row_groups@.len() implies {
            &&& (#[trigger] self.row_groups@[g]).slots@.len() == group_rows(
                self.row_count_spec(),
                g,
            )
            &&& self.row_groups@[g].presence_matches()
            &&& self.row_groups@[g].rows_are_of(self.page_type)
        } by {
            let group = self.row_groups@[g];
            assert(group.parsed_from(b, t, g));
            assert forall|i: int| 0 <= i < group.slots@.len() implies (bit_set(
                group.presence,
                i,
            ) <==> (#[trigger] group.slots@[i]) is Present) by {
                assert(group.slots@[i].parsed_from(b, t, g, i));
            }
            assert forall|i: int| 0 <= i < group.slots@.len() implies ((
            #[trigger] group.slots@[i]) matches Slot::Present { row, .. } ==> row.page_type()
                == t) by {
                assert(group.slots@[i].parsed_from(b, t, g, i));
            }
            lemma_group_in_index(page_rows(b), g);
        }
    }

    /// A page that was read from `b` has the index and names the next page
    /// that `b` says, and is of the kind it was read as.
    pub proof fn lemma_links(&self, b: Seq<u8>, t: PageType)
        requires
            self.parsed_from(b, t),
        ensures
            self.page_index == u32_at(b, 4),
            self.next_page == u32_at(b, 12),
            self.page_type == t,
    {
        reveal(Page::parsed_from);
    }

    /// A page that can be read carries the number of its kind.
    pub proof fn lemma_page_type(b: Seq<u8>, t: PageType)
        requires
            page_error(b, t) is None,
        ensures
            b.len() >= PAGE_HEADER_LEN,
            u32_at(b, 8) == t.raw(),
    {
        reveal(page_error);
    }

    /// Writing a page that was read from `b` gives `b`.
    pub proof fn lemma_round_trip(&self, b: Seq<u8>, t: PageType)
        requires
            page_error(b, t) is None,
            self.parsed_from(b, t),
        ensures
            self.encoding() == Ok::<Seq<u8>, PdbError>(b),
    {
        reveal(page_error);
        reveal(Page::parsed_from);
        reveal(Page::encoding);
        let rows = page_rows(b);
        let count = group_count(rows);
        let last = count - 1;
        let heap = page_heap(b);
        lemma_group_in_index(rows, last);
        self.lemma_shape(b, t);
        self.lemma_header_round_trip(b, t);
        self.lemma_heap_round_trip(b, t, last, group_rows(rows, last));
        self.lemma_index_round_trip(b, t, count);
        assert(self.row_groups@[last].parsed_from(b, t, last));
        let end = cursor_end(b, t).unwrap();
        let from = b.len() - index_len(rows);
        assert(heap.subrange(0, end) + heap.skip(end) =~= heap);
        assert(b.subrange(0, PAGE_HEADER_LEN as int) + heap + b.subrange(from, b.len() as int)
            =~= b);
        assert(b.subrange(0, PAGE_HEADER_LEN as int) + heap.subrange(0, end) + heap.skip(end)
            + b.subrange(from, b.len() as int) =~= b);
    }
}

impl RowGroup {
    /// Whether the bitmask says of every entry whether it holds a row, and
    /// every row is of the variant of the kind `t`.
    fn check_slots(&self, t: PageType) -> (r: bool)
        requires
            self.slots@.len() <= GROUP_ROWS,
        ensures
            r == (self.presence_matches() && self.rows_are_of(t)),
    {
        let mut i: usize = 0;
        while i < self.slots.len()
            invariant
                0 <= i <= self.slots@.len() <= GROUP_ROWS,
                forall|j: int|
                    0 <= j < i ==> (bit_set(self.presence, j) <==> (
                    #[trigger] self.slots@[j]) is Present),
                forall|j: int|
                    0 <= j < i ==> ((#[trigger] self.slots@[j]) matches Slot::Present {
                        row,
                        ..
                    } ==> row.page_type() == t),
            decreases self.slots@.len() - i,
        {
            let fits = match &self.slots[i] {
                Slot::Present { row, .. } => is_bit_set(self.presence, i) && row.page_type() == t,
                Slot::Absent { .. } => !is_bit_set(self.presence, i),
            };
            if !fits {
                return false;
            }
            i += 1;
        }
        has_no_stray_bits(self.presence, self.slots.len())
    }
}

impl Page {
    /// Whether the page has the groups and entries that its row counters
    /// ask for, and bitmasks that say which entries hold a row.
    fn check_shape(&self) -> (r: bool)
        ensures
            r == self.has_shape(),
    {
        let rows = self.row_count();
        let groups: usize = if rows == 0 {
            1
        } else {
            (rows - 1) / GROUP_ROWS + 1
        };
        if self.row_groups.len() != groups {
            return false;
        }
        let mut g: usize = 0;
        while g < groups
            invariant
                0 <= g <= groups,
                rows == self.row_count_spec(),
                groups == group_count(rows as int),
                self.row_groups@.len() == groups,
                forall|h: int|
                    0 <= h < g ==> {
                        &&& (#[trigger] self.row_groups@[h]).slots@.len() == group_rows(
                            rows as int,
                            h,
                        )
                        &&& self.row_groups@[h].presence_matches()
                        &&& self.row_groups@[h].rows_are_of(self.page_type)
                    },
            decreases groups - g,
        {
            proof {
                lemma_group_in_index(rows as int, g as int);
            }
            let n: usize = if rows - GROUP_ROWS * g >= GROUP_ROWS {
                GROUP_ROWS
            } else {
                rows - GROUP_ROWS * g
            };
            if self.row_groups[g].slots.len() != n {
                return false;
            }
            if !self.row_groups[g].check_slots(self.page_type) {
                return false;
            }
            g += 1;
        }
        true
    }

    /// Appends the rows of group `g` to the heap, and lists the heap offsets
    /// of the entries of the group.
    fn encode_group(&self, g: usize, heap: &mut Vec<u8>) -> (r: Result<Vec<u16>, PdbError>)
        requires
            g < self.row_groups@.len(),
            self.row_groups@[g as int].slots@.len() <= GROUP_ROWS,
            heap_upto(self.row_groups@, g as int, 0) == Ok::<Seq<u8>, PdbError>(old(heap)@),
        ensures
            match r {
                Ok(starts) => {
                    &&& heap_upto(
                        self.row_groups@,
                        g as int,
                        self.row_groups@[g as int].slots@.len() as int,
                    ) == Ok::<Seq<u8>, PdbError>(final(heap)@)
                    &&& starts@.len() == self.row_groups@[g as int].slots@.len()
                    &&& forall|i: int|
                        0 <= i < starts@.len() ==> #[trigger] starts@[i] == slot_start(
                            self.row_groups@,
                            g as int,
                            i,
                        )
                },
                Err(e) => heap_upto(
                    self.row_groups@,
                    g as int,
                    self.row_groups@[g as int].slots@.len() as int,
                ) == Err::<Seq<u8>, PdbError>(e),
            },
    {
        let ghost groups = self.row_groups@;
        let group = &self.row_groups[g];
        let n = group.slots.len();
        let mut starts: Vec<u16> = Vec::new();
        let mut i: usize = 0;
        while i < n
            invariant
                0 <= i <= n <= GROUP_ROWS,
                groups == self.row_groups@,
                g < groups.len(),
                *group == groups[g as int],
                n == group.slots@.len(),
                heap_upto(groups, g as int, i as int) == Ok::<Seq<u8>, PdbError>(heap@),
                starts@.len() == i,
                forall|j: int|
                    0 <= j < i ==> #[trigger] starts@[j] == slot_start(groups, g as int, j),
            decreases n - i,
        {
            proof {
                lemma_heap_unfold(groups, g as int, i + 1);
                if heap_upto(groups, g as int, i + 1) is Err {
                    lemma_heap_error_in_group(groups, g as int, i + 1, n as int);
                }
            }
            match &group.slots[i] {
                Slot::Absent { offset } => {
                    starts.push(*offset);
                },
                Slot::Present { gap, row } => {
                    if gap.len() > 0xFFFF || heap.len() > 0xFFFF - gap.len() {
                        return Err(PdbError::Format { reason: FormatReason::Overflow });
                    }
                    let mut bytes = match row.encode() {
                        Ok(v) => v,
                        Err(e) => return Err(e),
                    };
                    let start = heap.len() + gap.len();
                    push_slice(heap, gap.as_slice(), 0, gap.len());
                    assert(gap@.subrange(0, gap@.len() as int) =~= gap@);
                    heap.append(&mut bytes);
                    starts.push(start as u16);
                },
            }
            i += 1;
        }
        Ok(starts)
    }

    /// Writes the heap up to the end of the last row, and lists the heap
    /// offsets of the entries, group by group.
    fn encode_heap(&self) -> (r: Result<(Vec<u8>, Vec<Vec<u16>>), PdbError>)
        requires
            self.has_shape(),
        ensures
            match r {
                Ok((heap, starts)) => {
                    &&& self.heap_bytes() == Ok::<Seq<u8>, PdbError>(heap@)
                    &&& self.starts_listed(starts@, self.row_groups@.len() as int)
                },
                Err(e) => self.heap_bytes() == Err::<Seq<u8>, PdbError>(e),
            },
    {
        let ghost rows = self.row_count_spec();
        let ghost groups = self.row_groups@;
        let count = self.row_groups.len();
        let mut heap: Vec<u8> = Vec::new();
        let mut starts: Vec<Vec<u16>> = Vec::new();
        let mut g: usize = 0;
        proof {
            lemma_heap_unfold(groups, 0, 0);
        }
        while g < count
            invariant
                0 <= g <= count,
                self.has_shape(),
                rows == self.row_count_spec(),
                0 <= rows,
                groups == self.row_groups@,
                count == group_count(rows),
                g < count ==> heap_upto(groups, g as int, 0) == Ok::<Seq<u8>, PdbError>(heap@),
                g == count ==> self.heap_bytes() == Ok::<Seq<u8>, PdbError>(heap@),
                self.starts_listed(starts@, g as int),
            decreases count - g,
        {
            proof {
                lemma_group_in_index(rows, g as int);
                lemma_group_in_index(rows, count - 1);
            }
            match self.encode_group(g, &mut heap) {
                Ok(list) => {
                    starts.push(list);
                },
                Err(e) => {
                    proof {
                        let last = count - 1;
                        lemma_heap_error_stays(
                            groups,
                            g as int,
                            group_rows(rows, g as int),
                            last,
                            group_rows(rows, last),
                        );
                    }
                    return Err(e);
                },
            }
            proof {
                if g + 1 < count {
                    lemma_heap_unfold(groups, g + 1, 0);
                }
            }
            g += 1;
        }
        Ok((heap, starts))
    }

    /// Writes the row index from the heap offsets of the entries.
    fn encode_index(&self, starts: &Vec<Vec<u16>>) -> (out: Vec<u8>)
        requires
            self.starts_listed(starts@, self.row_groups@.len() as int),
        ensures
            out@ == index_upto(self.row_groups@, self.row_groups@.len() as int),
    {
        let ghost groups = self.row_groups@;
        let count = self.row_groups.len();
        let mut out: Vec<u8> = Vec::new();
        let mut j: usize = 0;
        while j < count
            invariant
                0 <= j <= count,
                groups == self.row_groups@,
                count == groups.len(),
                self.starts_listed(starts@, count as int),
                out@ == index_upto(groups, j as int),
            decreases count - j,
        {
            let g = count - 1 - j;
            let group = &self.row_groups[g];
            let list = &starts[g];
            let n = group.slots.len();
            let ghost front = out@;
            let mut m: usize = 0;
            assert(front + offsets_upto(groups, g as int, 0) =~= front);
            while m < n
                invariant
                    0 <= m <= n,
                    0 <= g < groups.len(),
                    n == groups[g as int].slots@.len(),
                    list@.len() == n,
                    forall|i: int|
                        0 <= i < n ==> #[trigger] list@[i] == slot_start(groups, g as int, i),
                    out@ == front + offsets_upto(groups, g as int, m as int),
                decreases n - m,
            {
                push_u16(&mut out, list[n - 1 - m]);
                m += 1;
                assert(out@ =~= front + offsets_upto(groups, g as int, m as int));
            }
            push_u16(&mut out, group.presence);
            push_u16(&mut out, group.unknown);
            j += 1;
            assert(out@ =~= index_upto(groups, j as int));
        }
        out
    }

    /// Writes the page. Fails if the page has not the groups and entries
    /// that its row counters ask for, if a bitmask does not say which
    /// entries hold a row, if a row is of another kind than the page, if a
    /// row cannot be written, or if a row would start behind offset 65535 of
    /// the heap.
    pub fn encode(&self) -> (r: Result<Vec<u8>, PdbError>)
        ensures
            match r {
                Ok(v) => self.encoding() == Ok::<Seq<u8>, PdbError>(v@),
                Err(e) => self.encoding() == Err::<Seq<u8>, PdbError>(e),
            },
    {
        proof {
            reveal(Page::encoding);
        }
        if !self.check_shape() {
            return Err(PdbError::Format { reason: FormatReason::Shape });
        }
        let (mut heap, starts) = match self.encode_heap() {
            Ok(v) => v,
            Err(e) => return Err(e),
        };
        let mut index = self.encode_index(&starts);
        let mut out: Vec<u8> = Vec::new();
        push_u32(&mut out, 0);
        assert(out@ =~= u32_bytes(0));
        push_u32(&mut out, self.page_index);
        push_u32(&mut out, self.page_type.raw());
        push_u32(&mut out, self.next_page);
        push_u32(&mut out, self.unknown1);
        push_u32(&mut out, self.unknown2);
        push_u8(&mut out, self.num_rows_small);
        push_u8(&mut out, self.unknown3);
        push_u8(&mut out, self.unknown4);
        push_u8(&mut out, self.page_flags);
        push_u16(&mut out, self.free_size);
        push_u16(&mut out, self.used_size);
        push_u16(&mut out, self.unknown5);
        push_u16(&mut out, self.num_rows_large);
        push_u16(&mut out, self.unknown6);
        push_u16(&mut out, self.unknown7);
        out.append(&mut heap);
        push_slice(&mut out, self.free.as_slice(), 0, self.free.len());
        assert(self.free@.subrange(0, self.free@.len() as int) =~= self.free@);
        out.append(&mut index);
        Ok(out)
    }
}

} // verus!

//! The file header with the table directory, and the page chains of the tables.
//!
//! The header stands at the start of the file: seven 32-bit fields, among
//! them the page size and the number of tables, and then sixteen bytes for
//! every table. The page with index `i` occupies the bytes from `i` times
//! the page size up to the next page.
//!
//! The pages of a table form a chain: the table names the first and the
//! last page, and each page names the next.

use crate::bytes::{lemma_extend_u32, push_u32, read_u32, u32_at, u32_bytes};
use crate::pdb::page::{page_error, Page};
use crate::pdb::row::PageType;
use crate::pdb::{format_error, FormatReason, PdbError};
use vstd::prelude::*;
use vstd::slice::slice_subrange;

verus! {

/// Length in bytes of the header in front of the table directory.
pub const HEADER_LEN: usize = 28;

/// Length in bytes of one entry of the table directory.
pub const TABLE_LEN: usize = 16;

/// The smallest page size: a page header and the index of an empty page.
pub const MIN_PAGE_SIZE: u32 = 44;

/// One entry of the table directory: a kind of rows, and the chain of pages
/// that holds them.
#[derive(Debug, Clone, Copy, PartialEq, Eq, Structural)]
pub struct Table {
    /// The kind of rows in the pages of the table.
    pub page_type: PageType,
    /// Index of the page that the table will grow into next.
    pub empty_candidate: u32,
    /// Index of the first page of the chain.
    pub first_page: u32,
    /// Index of the last page of the chain.
    pub last_page: u32,
}

impl Table {
    /// The directory entry that stands at offset `pos` of `b`.
    pub open spec fn at(b: Seq<u8>, pos: int) -> Table {
        Table {
            page_type: PageType::of_raw(u32_at(b, pos)),
            empty_candidate: u32_at(b, pos + 4),
            first_page: u32_at(b, pos + 8),
            last_page: u32_at(b, pos + 12),
        }
    }

    /// The bytes of the directory entry.
    pub open spec fn bytes(&self) -> Seq<u8> {
        u32_bytes(self.page_type.raw()) + u32_bytes(self.empty_candidate) + u32_bytes(
            self.first_page,
        ) + u32_bytes(self.last_page)
    }

    /// The entry that was read at `pos` is written as the bytes at `pos`.
    pub proof fn lemma_round_trip(b: Seq<u8>, pos: int)
        requires
            0 <= pos,
            pos + TABLE_LEN <= b.len(),
        ensures
            Table::at(b, pos).bytes() == b.subrange(pos, pos + TABLE_LEN),
    {
        let t = Table::at(b, pos);
        let c = b.skip(pos);
        assert(u32_at(c, 0) == u32_at(b, pos));
        assert(u32_at(c, 4) == u32_at(b, pos + 4));
        assert(u32_at(c, 8) == u32_at(b, pos + 8));
        assert(u32_at(c, 12) == u32_at(b, pos + 12));
        let p = Seq::<u8>::empty();
        assert(p =~= c.subrange(0, 0));
        lemma_extend_u32(p, c, 0, t.page_type.raw());
        let p = p + u32_bytes(t.page_type.raw());
        lemma_extend_u32(p, c, 4, t.empty_candidate);
        let p = p + u32_bytes(t.empty_candidate);
        lemma_extend_u32(p, c, 8, t.first_page);
        let p = p + u32_bytes(t.first_page);
        lemma_extend_u32(p, c, 12, t.last_page);
        assert(Seq::<u8>::empty() + u32_bytes(t.page_type.raw()) =~= u32_bytes(
            t.page_type.raw(),
        ));
        assert(c.subrange(0, TABLE_LEN as int) =~= b.subrange(pos, pos + TABLE_LEN));
    }
}

/// The file header.
#[derive(Debug, Clone, PartialEq, Eq)]
pub struct Header {
    /// Size in bytes of every page of the file.
    pub page_size: u32,
    /// Index of the first page behind the pages in use.
    pub next_unused_page: u32,
    /// Unknown field.
    pub unknown: u32,
    /// Counter of the changes made to the file.
    pub sequence: u32,
    /// The table directory.
    pub tables: Vec<Table>,
}

/// The number of tables that the header at the start of `b` announces.
pub open spec fn header_tables(b: Seq<u8>) -> int {
    u32_at(b, 8) as int
}

/// The number of bytes that the header at the start of `b` occupies, the
/// table directory included.
pub open spec fn header_len(b: Seq<u8>) -> int {
    HEADER_LEN + TABLE_LEN * header_tables(b)
}

/// Why `b` does not start with a file header, or `None` if it does. The
/// checks are made in the order written and the first that fails decides.
pub open spec fn header_error(b: Seq<u8>) -> Option<PdbError> {
    if b.len() < HEADER_LEN {
        Some(format_error(FormatReason::Truncated))
    } else if u32_at(b, 0) != 0 || u32_at(b, 24) != 0 {
        Some(format_error(FormatReason::Magic))
    } else if u32_at(b, 4) < MIN_PAGE_SIZE || header_len(b) > u32_at(b, 4) {
        Some(format_error(FormatReason::PageSize))
    } else if b.len() < header_len(b) {
        Some(format_error(FormatReason::Truncated))
    } else {
        None
    }
}

/// The bytes of the first `n` entries of a table directory.
pub open spec fn tables_bytes(tables: Seq<Table>, n: int) -> Seq<u8>
    decreases n,
{
    if n <= 0 {
        Seq::empty()
    } else {
        tables_bytes(tables, n - 1) + tables[n - 1].bytes()
    }
}

/// The bytes of page `index` of a file with pages of `page_size` bytes.
pub open spec fn page_bytes(file: Seq<u8>, page_size: int, index: int) -> Seq<u8> {
    file.subrange(index * page_size, index * page_size + page_size)
}

/// Whether page `index` lies inside the file.
pub open spec fn page_in_file(file: Seq<u8>, page_size: int, index: int) -> bool {
    index * page_size + page_size <= file.len()
}

/// The index that the page at `index` names as the next of its chain.
pub open spec fn next_of(file: Seq<u8>, page_size: int, index: int) -> u32 {
    u32_at(page_bytes(file, page_size, index), 12)
}

/// The indexes of the pages of the chain that starts at page `from` and ends
/// at page `last`, in the order of the chain, or the reason why there is no
/// such chain: a page outside the file, a page that cannot be read as a
/// page of kind `t`, a page that does not carry its own index, or no end
/// after `limit` pages.
pub open spec fn chain(
    file: Seq<u8>,
    page_size: int,
    t: PageType,
    from: u32,
    last: u32,
    limit: nat,
) -> Result<Seq<u32>, PdbError>
    decreases limit,
{
    let b = page_bytes(file, page_size, from as int);
    if limit == 0 {
        Err(format_error(FormatReason::ChainLoop))
    } else if !page_in_file(file, page_size, from as int) {
        Err(format_error(FormatReason::ChainBounds))
    } else if page_error(b, t) is Some {
        Err(page_error(b, t).unwrap())
    } else if u32_at(b, 4) != from {
        Err(format_error(FormatReason::PageIndex))
    } else if from == last {
        Ok(seq![from])
    } else {
        match chain(file, page_size, t, u32_at(b, 12), last, (limit - 1) as nat) {
            Err(e) => Err(e),
            Ok(rest) => Ok(seq![from] + rest),
        }
    }
}

/// The number of whole pages of `page_size` bytes in a file of `len` bytes.
pub open spec fn page_count(len: int, page_size: int) -> int {
    len / page_size
}

impl Header {
    /// Whether this header is what `b` starts with.
    pub open spec fn parsed_from(&self, b: Seq<u8>) -> bool {
        &&& self.page_size == u32_at(b, 4)
        &&& self.next_unused_page == u32_at(b, 12)
        &&& self.unknown == u32_at(b, 16)
        &&& self.sequence == u32_at(b, 20)
        &&& self.tables@.len() == header_tables(b)
        &&& forall|i: int|
            0 <= i < self.tables@.len() ==> #[trigger] self.tables@[i] == Table::at(
                b,
                HEADER_LEN + TABLE_LEN * i,
            )
    }

    /// The bytes of the header, or the reason why it cannot be written: it
    /// has more tables than the counter of the tables can say.
    pub open spec fn encoding(&self) -> Result<Seq<u8>, PdbError> {
        if self.tables@.len() > u32::MAX {
            Err(format_error(FormatReason::Overflow))
        } else {
            Ok(
                u32_bytes(0) + u32_bytes(self.page_size) + u32_bytes(self.tables@.len() as u32)
                    + u32_bytes(self.next_unused_page) + u32_bytes(self.unknown) + u32_bytes(
                    self.sequence,
                ) + u32_bytes(0) + tables_bytes(self.tables@, self.tables@.len() as int),
            )
        }
    }

    /// The chain of page indexes of a table of this header in `file`.
    pub open spec fn chain_of(&self, file: Seq<u8>, table: Table) -> Result<Seq<u32>, PdbError> {
        if self.page_size < MIN_PAGE_SIZE {
            Err(format_error(FormatReason::PageSize))
        } else {
            chain(
                file,
                self.page_size as int,
                table.page_type,
                table.first_page,
                table.last_page,
                page_count(file.len() as int, self.page_size as int) as nat,
            )
        }
    }

    /// The first entries of the directory that was read from `b` are written
    /// as the bytes of `b` that hold them.
    proof fn lemma_tables_round_trip(&self, b: Seq<u8>, n: int)
        requires
            self.parsed_from(b),
            0 <= n <= self.tables@.len(),
            header_len(b) <= b.len(),
        ensures
            tables_bytes(self.tables@, n) == b.subrange(
                HEADER_LEN as int,
                HEADER_LEN + TABLE_LEN * n,
            ),
        decreases n,
    {
        if n > 0 {
            let pos = HEADER_LEN + TABLE_LEN * (n - 1);
            self.lemma_tables_round_trip(b, n - 1);
            Table::lemma_round_trip(b, pos);
            assert(b.subrange(HEADER_LEN as int, pos) + b.subrange(pos, pos + TABLE_LEN)
                =~= b.subrange(HEADER_LEN as int, HEADER_LEN + TABLE_LEN * n));
        } else {
            assert(b.subrange(HEADER_LEN as int, HEADER_LEN as int) =~= Seq::<u8>::empty());
        }
    }

    /// Writing a header that was read from `b` gives the bytes of `b` that
    /// the header occupies.
    pub proof fn lemma_round_trip(&self, b: Seq<u8>)
        requires
            header_error(b) is None,
            self.parsed_from(b),
        ensures
            self.encoding() == Ok::<Seq<u8>, PdbError>(b.subrange(0, header_len(b))),
    {
        let n = self.tables@.len() as int;
        self.lemma_tables_round_trip(b, n);
        let p = Seq::<u8>::empty();
        assert(p =~= b.subrange(0, 0));
        lemma_extend_u32(p, b, 0, 0);
        let p = p + u32_bytes(0);
        lemma_extend_u32(p, b, 4, self.page_size);
        let p = p + u32_bytes(self.page_size);
        lemma_extend_u32(p, b, 8, n as u32);
        let p = p + u32_bytes(n as u32);
        lemma_extend_u32(p, b, 12, self.next_unused_page);
        let p = p + u32_bytes(self.next_unused_page);
        lemma_extend_u32(p, b, 16, self.unknown);
        let p = p + u32_bytes(self.unknown);
        lemma_extend_u32(p, b, 20, self.sequence);
        let p = p + u32_bytes(self.sequence);
        lemma_extend_u32(p, b, 24, 0);
        let p = p + u32_bytes(0);
        assert(Seq::<u8>::empty() + u32_bytes(0) =~= u32_bytes(0));
        assert(b.subrange(0, HEADER_LEN as int) + b.subrange(
            HEADER_LEN as int,
            HEADER_LEN + TABLE_LEN * n,
        ) =~= b.subrange(0, header_len(b)));
    }

    /// Reads the header at the start of `bytes`. Only the header itself is
    /// looked at, not the pages behind it.
    pub fn read(bytes: &[u8]) -> (r: Result<Header, PdbError>)
        ensures
            match r {
                Ok(header) => {
                    &&& header_error(bytes@) is None
                    &&& header.parsed_from(bytes@)
                    &&& header.encoding() == Ok::<Seq<u8>, PdbError>(
                        bytes@.subrange(0, header_len(bytes@)),
                    )
                },
                Err(e) => header_error(bytes@) == Some(e),
            },
    {
        if bytes.len() < HEADER_LEN {
            return Err(PdbError::Format { reason: FormatReason::Truncated });
        }
        if read_u32(bytes, 0) != 0 || read_u32(bytes, 24) != 0 {
            return Err(PdbError::Format { reason: FormatReason::Magic });
        }
        let page_size = read_u32(bytes, 4);
        let num_tables = read_u32(bytes, 8);
        let len: u64 = HEADER_LEN as u64 + TABLE_LEN as u64 * num_tables as u64;
        if page_size < MIN_PAGE_SIZE || len > page_size as u64 {
            return Err(PdbError::Format { reason: FormatReason::PageSize });
        }
        if (bytes.len() as u64) < len {
            return Err(PdbError::Format { reason: FormatReason::Truncated });
        }
        let next_unused_page = read_u32(bytes, 12);
        let unknown = read_u32(bytes, 16);
        let sequence = read_u32(bytes, 20);
        let count = num_tables as usize;
        let mut tables: Vec<Table> = Vec::new();
        let mut i: usize = 0;
        while i < count
            invariant
                0 <= i <= count,
                count == header_tables(bytes@),
                HEADER_LEN + TABLE_LEN * count <= bytes@.len() <= usize::MAX,
                tables@.len() == i,
                forall|j: int|
                    0 <= j < i ==> #[trigger] tables@[j] == Table::at(
                        bytes@,
                        HEADER_LEN + TABLE_LEN * j,
                    ),
            decreases count - i,
        {
            let pos = HEADER_LEN + TABLE_LEN * i;
            tables.push(
                Table {
                    page_type: PageType::from_raw(read_u32(bytes, pos)),
                    empty_candidate: read_u32(bytes, pos + 4),
                    first_page: read_u32(bytes, pos + 8),
                    last_page: read_u32(bytes, pos + 12),
                },
            );
            i += 1;
        }
        let header = Header { page_size, next_unused_page, unknown, sequence, tables };
        proof {
            header.lemma_round_trip(bytes@);
        }
        Ok(header)
    }

    /// Writes the header with its table directory. Fails if there are more
    /// tables than the counter of the tables can say.
    pub fn write(&self) -> (r: Result<Vec<u8>, PdbError>)
        ensures
            match r {
                Ok(v) => self.encoding() == Ok::<Seq<u8>, PdbError>(v@),
                Err(e) => self.encoding() == Err::<Seq<u8>, PdbError>(e),
            },
    {
        if self.tables.len() > u32::MAX as usize {
            return Err(PdbError::Format { reason: FormatReason::Overflow });
        }
        let mut out: Vec<u8> = Vec::new();
        push_u32(&mut out, 0);
        assert(out@ =~= u32_bytes(0));
        push_u32(&mut out, self.page_size);
        push_u32(&mut out, self.tables.len() as u32);
        push_u32(&mut out, self.next_unused_page);
        push_u32(&mut out, self.unknown);
        push_u32(&mut out, self.sequence);
        push_u32(&mut out, 0);
        let ghost front = out@;
        let mut i: usize = 0;
        assert(front + tables_bytes(self.tables@, 0) =~= front);
        while i < self.tables.len()
            invariant
                0 <= i <= self.tables@.len(),
                out@ == front + tables_bytes(self.tables@, i as int),
            decreases self.tables@.len() - i,
        {
            let table = &self.tables[i];
            let ghost before = out@;
            push_u32(&mut out, table.page_type.raw());
            push_u32(&mut out, table.empty_candidate);
            push_u32(&mut out, table.first_page);
            push_u32(&mut out, table.last_page);
            i += 1;
            assert(out@ =~= before + table.bytes());
            assert(out@ =~= front + tables_bytes(self.tables@, i as int));
        }
        Ok(out)
    }

    /// The tables of the directory that hold rows of the given kind, in the
    /// order of the directory.
    pub fn tables_of_type(&self, page_type: PageType) -> (found: Vec<Table>)
        ensures
            found@ == self.tables@.filter(|t: Table| t.page_type == page_type),
    {
        let mut found: Vec<Table> = Vec::new();
        let mut i: usize = 0;
        assert(self.tables@.subrange(0, 0) =~= Seq::<Table>::empty());
        while i < self.tables.len()
            invariant
                0 <= i <= self.tables@.len(),
                found@ == self.tables@.subrange(0, i as int).filter(
                    |t: Table| t.page_type == page_type,
                ),
            decreases self.tables@.len() - i,
        {
            let table = self.tables[i];
            proof {
                let pred = |t: Table| t.page_type == page_type;
                let front = self.tables@.subrange(0, i as int);
                assert(self.tables@.subrange(0, i + 1) =~= front.push(table));
                assert(front.push(table).drop_last() =~= front);
                reveal(Seq::filter);
            }
            if table.page_type == page_type {
                found.push(table);
            }
            i += 1;
        }
        assert(self.tables@.subrange(0, i as int) =~= self.tables@);
        found
    }
}

/// Whether `pages` are the pages of `file` with the indexes `indexes`, each
/// read as a page of kind `t`.
pub open spec fn pages_parsed_from(
    pages: Seq<Page>,
    file: Seq<u8>,
    page_size: int,
    t: PageType,
    indexes: Seq<u32>,
) -> bool {
    &&& pages.len() == indexes.len()
    &&& forall|k: int|
        0 <= k < pages.len() ==> (#[trigger] pages[k]).parsed_from(
            page_bytes(file, page_size, indexes[k] as int),
            t,
        )
}

/// A chain starts with the page it was asked to start at and ends with the
/// page it was asked to end at, which comes nowhere else in it; every page
/// but the last is followed by the page that it names as the next; and
/// every page lies in the file, can be read and carries its own index.
pub proof fn lemma_chain_links(
    file: Seq<u8>,
    page_size: int,
    t: PageType,
    from: u32,
    last: u32,
    limit: nat,
)
    requires
        chain(file, page_size, t, from, last, limit) is Ok,
    ensures
        ({
            let s = chain(file, page_size, t, from, last, limit).unwrap();
            &&& 1 <= s.len() <= limit
            &&& s[0] == from
            &&& s[s.len() - 1] == last
            &&& forall|k: int| 0 <= k < s.len() - 1 ==> #[trigger] s[k] != last
            &&& forall|k: int|
                0 <= k < s.len() - 1 ==> s[k + 1] == next_of(
                    file,
                    page_size,
                    #[trigger] s[k] as int,
                )
            &&& forall|k: int|
                0 <= k < s.len() ==> {
                    &&& page_in_file(file, page_size, #[trigger] s[k] as int)
                    &&& page_error(page_bytes(file, page_size, s[k] as int), t) is None
                    &&& u32_at(page_bytes(file, page_size, s[k] as int), 4) == s[k]
                }
        }),
    decreases limit,
{
    let s = chain(file, page_size, t, from, last, limit).unwrap();
    if from != last {
        let next = next_of(file, page_size, from as int);
        lemma_chain_links(file, page_size, t, next, last, (limit - 1) as nat);
        let rest = chain(file, page_size, t, next, last, (limit - 1) as nat).unwrap();
        assert(s == seq![from] + rest);
        assert forall|k: int| 0 <= k < s.len() - 1 implies #[trigger] s[k] != last by {
            if k > 0 {
                assert(s[k] == rest[k - 1]);
            }
        }
        assert forall|k: int| 0 <= k < s.len() - 1 implies s[k + 1] == next_of(
            file,
            page_size,
            #[trigger] s[k] as int,
        ) by {
            assert(s[k + 1] == rest[k]);
            if k > 0 {
                assert(s[k] == rest[k - 1]);
            }
        }
        assert forall|k: int| 0 <= k < s.len() implies {
            &&& page_in_file(file, page_size, #[trigger] s[k] as int)
            &&& page_error(page_bytes(file, page_size, s[k] as int), t) is None
            &&& u32_at(page_bytes(file, page_size, s[k] as int), 4) == s[k]
        } by {
            if k > 0 {
                assert(s[k] == rest[k - 1]);
            }
        }
    }
}

/// Where a chain ends, it is the same chain whatever the limit was.
pub proof fn lemma_chain_any_limit(
    file: Seq<u8>,
    page_size: int,
    t: PageType,
    from: u32,
    last: u32,
    limit: nat,
    other: nat,
)
    requires
        chain(file, page_size, t, from, last, limit) is Ok,
        chain(file, page_size, t, from, last, other) is Ok,
    ensures
        chain(file, page_size, t, from, last, limit) == chain(
            file,
            page_size,
            t,
            from,
            last,
            other,
        ),
    decreases limit,
{
    if from != last {
        let next = next_of(file, page_size, from as int);
        lemma_chain_any_limit(
            file,
            page_size,
            t,
            next,
            last,
            (limit - 1) as nat,
            (other - 1) as nat,
        );
    }
}

/// The pages of a chain from any of its pages on are the chain that starts
/// at that page.
pub proof fn lemma_chain_from_inside(
    file: Seq<u8>,
    page_size: int,
    t: PageType,
    from: u32,
    last: u32,
    limit: nat,
    k: int,
)
    requires
        chain(file, page_size, t, from, last, limit) is Ok,
        0 <= k < chain(file, page_size, t, from, last, limit).unwrap().len(),
    ensures
        k <= limit,
        chain(
            file,
            page_size,
            t,
            chain(file, page_size, t, from, last, limit).unwrap()[k],
            last,
            (limit - k) as nat,
        ) == Ok::<Seq<u32>, PdbError>(
            chain(file, page_size, t, from, last, limit).unwrap().skip(k),
        ),
    decreases k,
{
    let s = chain(file, page_size, t, from, last, limit).unwrap();
    if k == 0 {
        assert(s.skip(0) =~= s);
    } else {
        let next = next_of(file, page_size, from as int);
        let rest = chain(file, page_size, t, next, last, (limit - 1) as nat).unwrap();
        assert(s == seq![from] + rest);
        lemma_chain_from_inside(file, page_size, t, next, last, (limit - 1) as nat, k - 1);
        assert(s[k] == rest[k - 1]);
        assert(s.skip(k) =~= rest.skip(k - 1));
    }
}

/// A chain visits no page twice.
pub proof fn lemma_chain_no_repeats(
    file: Seq<u8>,
    page_size: int,
    t: PageType,
    from: u32,
    last: u32,
    limit: nat,
)
    requires
        chain(file, page_size, t, from, last, limit) is Ok,
    ensures
        ({
            let s = chain(file, page_size, t, from, last, limit).unwrap();
            forall|a: int, b: int| 0 <= a < b < s.len() ==> s[a] != s[b]
        }),
{
    let s = chain(file, page_size, t, from, last, limit).unwrap();
    assert forall|a: int, b: int| 0 <= a < b < s.len() implies s[a] != s[b] by {
        if s[a] == s[b] {
            lemma_chain_from_inside(file, page_size, t, from, last, limit, a);
            lemma_chain_from_inside(file, page_size, t, from, last, limit, b);
            lemma_chain_any_limit(
                file,
                page_size,
                t,
                s[a],
                last,
                (limit - a) as nat,
                (limit - b) as nat,
            );
            assert(s.skip(a).len() == s.skip(b).len());
        }
    }
}

/// Reading the pages of a table visits every page of its chain once, with
/// no gaps and no repeats: the first page read is the first page of the
/// table, every page read but the last is followed by the page that it
/// names as the next, the last page read is the last page of the table, no
/// two pages read have the same index, and every page is of the kind of
/// the table.
pub proof fn lemma_pages_visited_once(
    header: Header,
    file: Seq<u8>,
    table: Table,
    pages: Seq<Page>,
)
    requires
        header.chain_of(file, table) is Ok,
        pages_parsed_from(
            pages,
            file,
            header.page_size as int,
            table.page_type,
            header.chain_of(file, table).unwrap(),
        ),
    ensures
        pages.len() >= 1,
        pages[0].page_index == table.first_page,
        pages[pages.len() - 1].page_index == table.last_page,
        forall|k: int|
            0 <= k < pages.len() - 1 ==> pages[k + 1].page_index == (#[trigger] pages[k]).next_page,
        forall|a: int, b: int|
            0 <= a < b < pages.len() ==> pages[a].page_index != pages[b].page_index,
        forall|k: int| 0 <= k < pages.len() ==> (#[trigger] pages[k]).page_type == table.page_type,
{
    let size = header.page_size as int;
    let limit = page_count(file.len() as int, size) as nat;
    let s = chain(file, size, table.page_type, table.first_page, table.last_page, limit).unwrap();
    lemma_chain_links(file, size, table.page_type, table.first_page, table.last_page, limit);
    lemma_chain_no_repeats(file, size, table.page_type, table.first_page, table.last_page, limit);
    assert forall|k: int| 0 <= k < pages.len() implies {
        &&& (#[trigger] pages[k]).page_index == s[k]
        &&& pages[k].page_type == table.page_type
        &&& pages[k].next_page == next_of(file, size, s[k] as int)
    } by {
        pages[k].lemma_links(page_bytes(file, size, s[k] as int), table.page_type);
    }
    assert forall|k: int| 0 <= k < pages.len() - 1 implies pages[k + 1].page_index == (
    #[trigger] pages[k]).next_page by {
        assert(pages[k + 1].page_index == s[k + 1]);
    }
    assert forall|a: int, b: int| 0 <= a < b < pages.len() implies pages[a].page_index
        != pages[b].page_index by {
        assert(pages[a].page_index == s[a]);
        assert(pages[b].page_index == s[b]);
    }
}

impl Header {
    /// Reads the pages of a table from `bytes`, which is the whole file: the
    /// page that the table names as its first, then the page that each page
    /// names as the next, up to the page that the table names as its last.
    ///
    /// Every page has to lie in the file, to carry the index under which it
    /// was found and the page type of the table, and to be readable as a
    /// page of that type. A chain of more pages than the file has does not
    /// end and is refused.
    pub fn read_pages(&self, bytes: &[u8], table: &Table) -> (r: Result<Vec<Page>, PdbError>)
        ensures
            match r {
                Ok(pages) => {
                    &&& self.chain_of(bytes@, *table) is Ok
                    &&& pages_parsed_from(
                        pages@,
                        bytes@,
                        self.page_size as int,
                        table.page_type,
                        self.chain_of(bytes@, *table).unwrap(),
                    )
                },
                Err(e) => self.chain_of(bytes@, *table) == Err::<Seq<u32>, PdbError>(e),
            },
    {
        if self.page_size < MIN_PAGE_SIZE {
            return Err(PdbError::Format { reason: FormatReason::PageSize });
        }
        let page_size = self.page_size as usize;
        let page_type = table.page_type;
        let last = table.last_page;
        let ghost file = bytes@;
        let ghost size = self.page_size as int;
        let ghost whole = self.chain_of(file, *table);
        let ghost mut done: Seq<u32> = Seq::empty();
        let mut pages: Vec<Page> = Vec::new();
        let mut left: usize = bytes.len() / page_size;
        let mut from: u32 = table.first_page;
        assert(done + chain(file, size, page_type, from, last, left as nat).unwrap() =~= chain(
            file,
            size,
            page_type,
            from,
            last,
            left as nat,
        ).unwrap());
        loop
            invariant
                file == bytes@,
                size == self.page_size,
                size == page_size,
                size >= MIN_PAGE_SIZE,
                whole == self.chain_of(file, *table),
                whole == match chain(file, size, page_type, from, last, left as nat) {
                    Err(e) => Err::<Seq<u32>, PdbError>(e),
                    Ok(rest) => Ok(done + rest),
                },
                page_type == table.page_type,
                pages_parsed_from(pages@, file, size, page_type, done),
            decreases left,
        {
            if left == 0 {
                return Err(PdbError::Format { reason: FormatReason::ChainLoop });
            }
            assert(from as int * size <= 0xFFFF_FFFF * 0xFFFF_FFFF) by (nonlinear_arith)
                requires
                    0 <= from <= 0xFFFF_FFFF,
                    0 <= size <= 0xFFFF_FFFF,
            ;
            let start: u64 = from as u64 * page_size as u64;
            let end: u64 = start + page_size as u64;
            if end > bytes.len() as u64 {
                return Err(PdbError::Format { reason: FormatReason::ChainBounds });
            }
            let page = match Page::decode(
                slice_subrange(bytes, start as usize, end as usize),
                page_type,
            ) {
                Ok(page) => page,
                Err(e) => return Err(e),
            };
            proof {
                page.lemma_links(page_bytes(file, size, from as int), page_type);
            }
            if page.page_index != from {
                return Err(PdbError::Format { reason: FormatReason::PageIndex });
            }
            let next = page.next_page;
            pages.push(page);
            proof {
                let rest = chain(file, size, page_type, next, last, (left - 1) as nat);
                if from != last && rest is Ok {
                    assert(done + (seq![from] + rest.unwrap()) =~= done.push(from)
                        + rest.unwrap());
                }
                if from == last {
                    assert(done + seq![from] =~= done.push(from));
                }
                done = done.push(from);
            }
            if from == last {
                return Ok(pages);
            }
            from = next;
            left = left - 1;
        }
    }
}

} // verus!

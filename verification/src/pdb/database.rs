//! A whole database file, read at once and written at once.
//!
//! The file is a whole number of pages. The first page holds the header and
//! the table directory; what lies behind them in that page is kept as it is.
//! Every other page is read as a page of the table whose chain it belongs
//! to, or, if it belongs to no chain, kept as it is.

use crate::bytes::{push_slice, u32_at};
use crate::pdb::header::{
    chain, header_error, header_len, header_tables, lemma_chain_links, page_bytes, page_count,
    page_in_file, pages_parsed_from, Header, Table, HEADER_LEN, MIN_PAGE_SIZE, TABLE_LEN,
};
use crate::pdb::page::{page_error, Page};
use crate::pdb::row::PageType;
use crate::pdb::{format_error, FormatReason, PdbError};
use vstd::prelude::*;
use vstd::slice::{slice_subrange, slice_to_vec};

verus! {

/// A page of the file behind the first.
#[derive(Debug, Clone, PartialEq, Eq)]
pub enum PageEntry {
    /// A page of the chain of a table.
    Linked(Page),
    /// A page that belongs to no chain, as the bytes that it holds.
    Loose(Vec<u8>),
}

impl PageEntry {
    /// The bytes of the page, or the reason why it cannot be written.
    pub open spec fn encoding(&self) -> Result<Seq<u8>, PdbError> {
        match self {
            PageEntry::Linked(page) => page.encoding(),
            PageEntry::Loose(raw) => Ok(raw@),
        }
    }

    /// Whether this entry is what the page `b` holds.
    pub open spec fn parsed_from(&self, b: Seq<u8>) -> bool {
        match self {
            PageEntry::Linked(page) => {
                &&& page_error(b, PageType::of_raw(u32_at(b, 8))) is None
                &&& page.parsed_from(b, PageType::of_raw(u32_at(b, 8)))
            },
            PageEntry::Loose(raw) => raw@ == b,
        }
    }
}

/// A database file.
#[derive(Debug, Clone, PartialEq, Eq)]
pub struct Database {
    /// The file header.
    pub header: Header,
    /// The bytes of the first page behind the table directory.
    pub reserved: Vec<u8>,
    /// The pages behind the first: the entry at position `k` is the page
    /// with index `k + 1`.
    pub pages: Vec<PageEntry>,
}

/// The page size that the header of `file` announces.
pub open spec fn file_page_size(file: Seq<u8>) -> int {
    u32_at(file, 4) as int
}

/// Entry `i` of the table directory of `file`.
pub open spec fn file_table(file: Seq<u8>, i: int) -> Table {
    Table::at(file, HEADER_LEN + TABLE_LEN * i)
}

/// The chain of table `i` of `file`.
pub open spec fn file_chain(file: Seq<u8>, i: int) -> Result<Seq<u32>, PdbError> {
    let table = file_table(file, i);
    chain(
        file,
        file_page_size(file),
        table.page_type,
        table.first_page,
        table.last_page,
        page_count(file.len() as int, file_page_size(file)) as nat,
    )
}

/// The first error among the chains of the first `n` tables of `file`.
pub open spec fn chains_error(file: Seq<u8>, n: int) -> Option<PdbError>
    decreases n,
{
    if n <= 0 {
        None
    } else {
        match chains_error(file, n - 1) {
            Some(e) => Some(e),
            None => match file_chain(file, n - 1) {
                Err(e) => Some(e),
                Ok(_) => None,
            },
        }
    }
}

/// Whether `index` is one of the page indexes `indexes`.
pub open spec fn in_chain(indexes: Seq<u32>, index: int) -> bool {
    exists|j: int| 0 <= j < indexes.len() && #[trigger] indexes[j] == index
}

/// Whether the page `index` belongs to the chain of one of the first `n`
/// tables of `file`.
pub open spec fn linked(file: Seq<u8>, n: int, index: int) -> bool
    decreases n,
{
    n > 0 && (linked(file, n - 1, index) || in_chain(file_chain(file, n - 1).unwrap(), index))
}

/// Why `file` is not a database, or `None` if it is one: its header cannot
/// be read, it is not a whole number of pages, or the chain of one of its
/// tables cannot be read. The first that fails decides.
pub open spec fn file_error(file: Seq<u8>) -> Option<PdbError> {
    if header_error(file) is Some {
        header_error(file)
    } else if file.len() < file_page_size(file) || file.len() as int % file_page_size(file) != 0 {
        Some(format_error(FormatReason::Truncated))
    } else {
        chains_error(file, header_tables(file))
    }
}

/// The bytes of the first `n` entries, one page behind the other. Fails if
/// an entry cannot be written or is not as long as a page.
pub open spec fn entries_bytes(pages: Seq<PageEntry>, page_size: int, n: int) -> Result<
    Seq<u8>,
    PdbError,
>
    decreases n,
{
    if n <= 0 {
        Ok(Seq::empty())
    } else {
        match entries_bytes(pages, page_size, n - 1) {
            Err(e) => Err(e),
            Ok(front) => match pages[n - 1].encoding() {
                Err(e) => Err(e),
                Ok(bytes) => if bytes.len() != page_size {
                    Err(format_error(FormatReason::PageSize))
                } else {
                    Ok(front + bytes)
                },
            },
        }
    }
}

/// An error among the first entries is the error of writing all of them.
pub proof fn lemma_entries_error_stays(pages: Seq<PageEntry>, page_size: int, n: int, m: int)
    requires
        0 <= n <= m,
        entries_bytes(pages, page_size, n) is Err,
    ensures
        entries_bytes(pages, page_size, m) == entries_bytes(pages, page_size, n),
    decreases m - n,
{
    if n < m {
        lemma_entries_error_stays(pages, page_size, n, m - 1);
    }
}

/// An error among the chains of the first tables is the error of all chains.
pub proof fn lemma_chains_error_stays(file: Seq<u8>, n: int, m: int)
    requires
        0 <= n <= m,
        chains_error(file, n) is Some,
    ensures
        chains_error(file, m) == chains_error(file, n),
    decreases m - n,
{
    if n < m {
        lemma_chains_error_stays(file, n, m - 1);
    }
}

/// Where page `k` of a file starts and ends.
pub proof fn lemma_page_bounds(len: int, page_size: int, k: int)
    requires
        0 < page_size,
        0 <= len,
        0 <= k < page_count(len, page_size),
    ensures
        0 <= k * page_size,
        k * page_size + page_size <= len,
        (k + 1) * page_size == k * page_size + page_size,
{
    let n = len / page_size;
    vstd::arithmetic::div_mod::lemma_fundamental_div_mod(len, page_size);
    vstd::arithmetic::div_mod::lemma_mod_bound(len, page_size);
    assert(k * page_size + page_size <= n * page_size) by (nonlinear_arith)
        requires
            0 <= k < n,
            0 < page_size,
    ;
    assert(page_size * n == n * page_size) by (nonlinear_arith);
    assert((k + 1) * page_size == k * page_size + page_size) by (nonlinear_arith);
    assert(0 <= k * page_size) by (nonlinear_arith)
        requires
            0 <= k,
            0 < page_size,
    ;
}

/// A file of a whole number of pages ends where its last page ends.
pub proof fn lemma_file_end(len: int, page_size: int)
    requires
        0 < page_size,
        0 <= len,
        len % page_size == 0,
    ensures
        page_count(len, page_size) * page_size == len,
        0 <= page_count(len, page_size),
{
    vstd::arithmetic::div_mod::lemma_fundamental_div_mod(len, page_size);
    let n = len / page_size;
    assert(page_size * n == n * page_size) by (nonlinear_arith);
    assert(0 <= n) by (nonlinear_arith)
        requires
            n * page_size == len,
            0 <= len,
            0 < page_size,
    ;
}

impl Database {
    /// Whether this database is what `file` holds.
    pub open spec fn parsed_from(&self, file: Seq<u8>) -> bool {
        let size = file_page_size(file);
        &&& self.header.parsed_from(file)
        &&& self.reserved@ == file.subrange(header_len(file), size)
        &&& self.pages@.len() + 1 == page_count(file.len() as int, size)
        &&& forall|k: int|
            0 <= k < self.pages@.len() ==> {
                &&& (#[trigger] self.pages@[k]).parsed_from(page_bytes(file, size, k + 1))
                &&& self.pages@[k] is Linked <==> linked(file, header_tables(file), k + 1)
            }
    }

    /// The bytes of the file, or the reason why it cannot be written: the
    /// header cannot be written or does not fill the first page together
    /// with the bytes kept behind it, or a page cannot be written or has not
    /// the size of a page.
    pub open spec fn encoding(&self) -> Result<Seq<u8>, PdbError> {
        match self.header.encoding() {
            Err(e) => Err(e),
            Ok(head) => if head.len() + self.reserved@.len() != self.header.page_size {
                Err(format_error(FormatReason::PageSize))
            } else {
                match entries_bytes(
                    self.pages@,
                    self.header.page_size as int,
                    self.pages@.len() as int,
                ) {
                    Err(e) => Err(e),
                    Ok(rest) => Ok(head + self.reserved@ + rest),
                }
            },
        }
    }

    /// The first entries of a database that was read from `file` are written
    /// as the pages of `file` that they were read from.
    proof fn lemma_entries_round_trip(&self, file: Seq<u8>, n: int)
        requires
            file_page_size(file) > 0,
            self.header.page_size == file_page_size(file),
            self.pages@.len() + 1 == page_count(file.len() as int, file_page_size(file)),
            forall|k: int|
                0 <= k < self.pages@.len() ==> (#[trigger] self.pages@[k]).parsed_from(
                    page_bytes(file, file_page_size(file), k + 1),
                ),
            0 <= n <= self.pages@.len(),
        ensures
            (n + 1) * file_page_size(file) <= file.len(),
            entries_bytes(self.pages@, file_page_size(file), n) == Ok::<Seq<u8>, PdbError>(
                file.subrange(file_page_size(file), (n + 1) * file_page_size(file)),
            ),
        decreases n,
    {
        let size = file_page_size(file);
        lemma_page_bounds(file.len() as int, size, n);
        assert(1 * size == size) by (nonlinear_arith);
        if n > 0 {
            self.lemma_entries_round_trip(file, n - 1);
            let b = page_bytes(file, size, n);
            let entry = self.pages@[n - 1];
            assert(entry.parsed_from(b));
            match entry {
                PageEntry::Linked(page) => {
                    page.lemma_round_trip(b, PageType::of_raw(u32_at(b, 8)));
                },
                PageEntry::Loose(raw) => {},
            }
            assert(size <= n * size) by (nonlinear_arith)
                requires
                    1 <= n,
                    0 < size,
            ;
            assert(file.subrange(size, n * size) + file.subrange(n * size, n * size + size)
                =~= file.subrange(size, (n + 1) * size));
        } else {
            assert(file.subrange(size, size) =~= Seq::<u8>::empty());
        }
    }

    /// Writing a database that was read from `file` gives `file`.
    pub proof fn lemma_round_trip(&self, file: Seq<u8>)
        requires
            file_error(file) is None,
            self.parsed_from(file),
        ensures
            self.encoding() == Ok::<Seq<u8>, PdbError>(file),
    {
        let size = file_page_size(file);
        let n = self.pages@.len() as int;
        self.header.lemma_round_trip(file);
        self.lemma_entries_round_trip(file, n);
        lemma_file_end(file.len() as int, size);
        assert(file.subrange(0, header_len(file)) + file.subrange(header_len(file), size)
            + file.subrange(size, file.len() as int) =~= file);
    }

    /// Writes the file. Fails if the header cannot be written or does not
    /// fill the first page together with the bytes kept behind it, or if a
    /// page cannot be written or has not the size of a page.
    pub fn write(&self) -> (r: Result<Vec<u8>, PdbError>)
        ensures
            match r {
                Ok(v) => self.encoding() == Ok::<Seq<u8>, PdbError>(v@),
                Err(e) => self.encoding() == Err::<Seq<u8>, PdbError>(e),
            },
    {
        let mut out = match self.header.write() {
            Ok(v) => v,
            Err(e) => return Err(e),
        };
        let page_size = self.header.page_size as usize;
        if out.len() > page_size || self.reserved.len() != page_size - out.len() {
            return Err(PdbError::Format { reason: FormatReason::PageSize });
        }
        push_slice(&mut out, self.reserved.as_slice(), 0, self.reserved.len());
        assert(self.reserved@.subrange(0, self.reserved@.len() as int) =~= self.reserved@);
        let ghost front = out@;
        let mut i: usize = 0;
        assert(front + Seq::<u8>::empty() =~= front);
        while i < self.pages.len()
            invariant
                0 <= i <= self.pages@.len(),
                page_size == self.header.page_size,
                self.header.encoding() is Ok,
                front == self.header.encoding().unwrap() + self.reserved@,
                front.len() == page_size,
                entries_bytes(self.pages@, page_size as int, i as int) is Ok,
                out@ == front + entries_bytes(self.pages@, page_size as int, i as int).unwrap(),
            decreases self.pages@.len() - i,
        {
            proof {
                if entries_bytes(self.pages@, page_size as int, i + 1) is Err {
                    lemma_entries_error_stays(
                        self.pages@,
                        page_size as int,
                        i + 1,
                        self.pages@.len() as int,
                    );
                }
            }
            let ghost before = out@;
            let ghost rest = entries_bytes(self.pages@, page_size as int, i as int).unwrap();
            match &self.pages[i] {
                PageEntry::Linked(page) => {
                    let mut bytes = match page.encode() {
                        Ok(v) => v,
                        Err(e) => return Err(e),
                    };
                    if bytes.len() != page_size {
                        return Err(PdbError::Format { reason: FormatReason::PageSize });
                    }
                    let ghost added = bytes@;
                    out.append(&mut bytes);
                    assert(out@ =~= front + (rest + added));
                },
                PageEntry::Loose(raw) => {
                    if raw.len() != page_size {
                        return Err(PdbError::Format { reason: FormatReason::PageSize });
                    }
                    push_slice(&mut out, raw.as_slice(), 0, raw.len());
                    assert(raw@.subrange(0, raw@.len() as int) =~= raw@);
                    assert(out@ =~= front + (rest + raw@));
                },
            }
            i += 1;
        }
        Ok(out)
    }
}

/// A page that lies in the file has an index below the number of pages.
pub proof fn lemma_index_in_file(len: int, page_size: int, index: int)
    requires
        0 < page_size,
        0 <= len,
        0 <= index,
        index * page_size + page_size <= len,
    ensures
        index < page_count(len, page_size),
{
    let n = len / page_size;
    let r = len % page_size;
    vstd::arithmetic::div_mod::lemma_fundamental_div_mod(len, page_size);
    vstd::arithmetic::div_mod::lemma_mod_bound(len, page_size);
    assert(index < n) by (nonlinear_arith)
        requires
            index * page_size + page_size <= len,
            len == page_size * n + r,
            0 <= r < page_size,
            0 < page_size,
    ;
}

/// The kind of a table of the directory is the kind that the number of the
/// kind stands for.
pub proof fn lemma_kind_of_raw(raw: u32)
    ensures
        PageType::of_raw(PageType::of_raw(raw).raw()) == PageType::of_raw(raw),
        PageType::of_raw(raw).raw() == raw,
{
}

/// Puts the pages of the chain of table `i` in their places among the
/// entries, as linked pages.
fn link_chain(
    pages: &mut Vec<PageEntry>,
    chain_pages: Vec<Page>,
    Ghost(file): Ghost<Seq<u8>>,
    Ghost(i): Ghost<int>,
)
    requires
        header_error(file) is None,
        file.len() >= file_page_size(file),
        0 <= i < header_tables(file),
        file_chain(file, i) is Ok,
        pages_parsed_from(
            chain_pages@,
            file,
            file_page_size(file),
            file_table(file, i).page_type,
            file_chain(file, i).unwrap(),
        ),
        old(pages)@.len() + 1 == page_count(file.len() as int, file_page_size(file)),
        forall|k: int|
            0 <= k < old(pages)@.len() ==> {
                &&& (#[trigger] old(pages)@[k]).parsed_from(
                    page_bytes(file, file_page_size(file), k + 1),
                )
                &&& old(pages)@[k] is Linked <==> linked(file, i, k + 1)
            },
    ensures
        final(pages)@.len() == old(pages)@.len(),
        forall|k: int|
            0 <= k < final(pages)@.len() ==> {
                &&& (#[trigger] final(pages)@[k]).parsed_from(
                    page_bytes(file, file_page_size(file), k + 1),
                )
                &&& final(pages)@[k] is Linked <==> linked(file, i + 1, k + 1)
            },
{
    let ghost size = file_page_size(file);
    let ghost table = file_table(file, i);
    let ghost indexes = file_chain(file, i).unwrap();
    let ghost count = pages@.len();
    let mut chain_pages = chain_pages;
    proof {
        lemma_chain_links(
            file,
            size,
            table.page_type,
            table.first_page,
            table.last_page,
            page_count(file.len() as int, size) as nat,
        );
        assert(indexes.subrange(indexes.len() as int, indexes.len() as int) =~= Seq::<
            u32,
        >::empty());
    }
    while chain_pages.len() > 0
        invariant
            size == file_page_size(file),
            size >= MIN_PAGE_SIZE,
            file.len() >= size,
            table == file_table(file, i),
            file_chain(file, i) == Ok::<Seq<u32>, PdbError>(indexes),
            chain_pages@.len() <= indexes.len(),
            forall|j: int|
                0 <= j < chain_pages@.len() ==> (#[trigger] chain_pages@[j]).parsed_from(
                    page_bytes(file, size, indexes[j] as int),
                    table.page_type,
                ),
            forall|j: int|
                0 <= j < indexes.len() ==> {
                    &&& page_in_file(file, size, #[trigger] indexes[j] as int)
                    &&& page_error(page_bytes(file, size, indexes[j] as int), table.page_type)
                        is None
                    &&& u32_at(page_bytes(file, size, indexes[j] as int), 4) == indexes[j]
                },
            table.page_type == PageType::of_raw(u32_at(file, HEADER_LEN + TABLE_LEN * i)),
            pages@.len() == count,
            count + 1 == page_count(file.len() as int, size),
            forall|k: int|
                0 <= k < pages@.len() ==> {
                    &&& (#[trigger] pages@[k]).parsed_from(page_bytes(file, size, k + 1))
                    &&& pages@[k] is Linked <==> (linked(file, i, k + 1) || in_chain(
                        indexes.subrange(chain_pages@.len() as int, indexes.len() as int),
                        k + 1,
                    ))
                },
        decreases chain_pages@.len(),
    {
        let ghost j = chain_pages@.len() - 1;
        let ghost before = indexes.subrange(j + 1, indexes.len() as int);
        let ghost after = indexes.subrange(j, indexes.len() as int);
        let page = chain_pages.pop().unwrap();
        let index = page.page_index as usize;
        proof {
            let b = page_bytes(file, size, indexes[j] as int);
            page.lemma_links(b, table.page_type);
            Page::lemma_page_type(b, table.page_type);
            lemma_kind_of_raw(u32_at(file, HEADER_LEN + TABLE_LEN * i));
            lemma_index_in_file(file.len() as int, size, indexes[j] as int);
            if indexes[j] == 0 {
                assert(0 * size == 0) by (nonlinear_arith);
                assert(u32_at(b, 4) == u32_at(file, 4));
            }
            assert forall|v: int| in_chain(after, v) <==> (v == indexes[j] || in_chain(
                before,
                v,
            )) by {
                if in_chain(before, v) {
                    let w = choose|w: int| 0 <= w < before.len() && before[w] == v;
                    assert(after[w + 1] == v);
                }
                if v == indexes[j] {
                    assert(after[0] == v);
                }
                if in_chain(after, v) {
                    let w = choose|w: int| 0 <= w < after.len() && after[w] == v;
                    if w > 0 {
                        assert(before[w - 1] == v);
                    }
                }
            }
            assert(PageEntry::Linked(page).parsed_from(page_bytes(file, size, index as int)));
        }
        let ghost old_pages = pages@;
        pages[index - 1] = PageEntry::Linked(page);
        assert forall|k: int| 0 <= k < pages@.len() implies {
            &&& (#[trigger] pages@[k]).parsed_from(page_bytes(file, size, k + 1))
            &&& pages@[k] is Linked <==> (linked(file, i, k + 1) || in_chain(after, k + 1))
        } by {
            if k != index - 1 {
                assert(pages@[k] == old_pages[k]);
            }
        }
    }
    proof {
        assert(indexes.subrange(0, indexes.len() as int) =~= indexes);
    }
}

/// A file that is cut off inside a page is refused as truncated, whatever
/// the cut leaves of it.
pub proof fn lemma_cut_file_is_refused(file: Seq<u8>, n: int)
    requires
        file_error(file) is None,
        0 <= n < file.len(),
        n % file_page_size(file) != 0,
    ensures
        file_error(file.subrange(0, n)) == Some(format_error(FormatReason::Truncated)),
{
    let cut = file.subrange(0, n);
    if n >= HEADER_LEN {
        assert(u32_at(cut, 0) == u32_at(file, 0));
        assert(u32_at(cut, 4) == u32_at(file, 4));
        assert(u32_at(cut, 8) == u32_at(file, 8));
        assert(u32_at(cut, 24) == u32_at(file, 24));
    }
}

impl Database {
    /// Reads a whole file.
    ///
    /// The header is read first. Then the pages of every table are read by
    /// following its chain, in the order of the table directory; the first
    /// chain that cannot be read makes the whole file unreadable. The pages
    /// that no chain has reached are kept as bytes.
    pub fn read(bytes: &[u8]) -> (r: Result<Database, PdbError>)
        ensures
            match r {
                Ok(db) => {
                    &&& file_error(bytes@) is None
                    &&& db.parsed_from(bytes@)
                    &&& db.encoding() == Ok::<Seq<u8>, PdbError>(bytes@)
                },
                Err(e) => file_error(bytes@) == Some(e),
            },
    {
        let header = match Header::read(bytes) {
            Ok(h) => h,
            Err(e) => return Err(e),
        };
        let page_size = header.page_size as usize;
        if bytes.len() < page_size || bytes.len() % page_size != 0 {
            return Err(PdbError::Format { reason: FormatReason::Truncated });
        }
        let ghost file = bytes@;
        let ghost size = file_page_size(file);
        let head = HEADER_LEN + TABLE_LEN * header.tables.len();
        let reserved = slice_to_vec(slice_subrange(bytes, head, page_size));
        let count = bytes.len() / page_size;
        proof {
            lemma_file_end(file.len() as int, size);
            assert(count >= 1) by (nonlinear_arith)
                requires
                    count * size == file.len(),
                    file.len() >= size,
                    size > 0,
            ;
        }
        let mut pages: Vec<PageEntry> = Vec::new();
        let mut k: usize = 1;
        while k < count
            invariant
                1 <= k <= count,
                file == bytes@,
                file.len() <= usize::MAX,
                size == page_size,
                size > 0,
                count == page_count(file.len() as int, size),
                pages@.len() == k - 1,
                forall|j: int|
                    0 <= j < pages@.len() ==> {
                        &&& (#[trigger] pages@[j]).parsed_from(page_bytes(file, size, j + 1))
                        &&& pages@[j] is Loose
                    },
            decreases count - k,
        {
            proof {
                lemma_page_bounds(file.len() as int, size, k as int);
            }
            let start = k * page_size;
            let raw = slice_to_vec(slice_subrange(bytes, start, start + page_size));
            pages.push(PageEntry::Loose(raw));
            k += 1;
        }
        let mut i: usize = 0;
        while i < header.tables.len()
            invariant
                0 <= i <= header.tables@.len(),
                file == bytes@,
                size == file_page_size(file),
                header_error(file) is None,
                file.len() >= size,
                file.len() as int % size == 0,
                header.parsed_from(file),
                chains_error(file, i as int) is None,
                pages@.len() + 1 == page_count(file.len() as int, size),
                forall|k: int|
                    0 <= k < pages@.len() ==> {
                        &&& (#[trigger] pages@[k]).parsed_from(page_bytes(file, size, k + 1))
                        &&& pages@[k] is Linked <==> linked(file, i as int, k + 1)
                    },
            decreases header.tables@.len() - i,
        {
            proof {
                assert(header.tables@[i as int] == file_table(file, i as int));
                if chains_error(file, i + 1) is Some {
                    lemma_chains_error_stays(file, i + 1, header_tables(file));
                }
            }
            let chain_pages = match header.read_pages(bytes, &header.tables[i]) {
                Ok(v) => v,
                Err(e) => return Err(e),
            };
            link_chain(&mut pages, chain_pages, Ghost(file), Ghost(i as int));
            i += 1;
        }
        let db = Database { header, reserved, pages };
        proof {
            db.lemma_round_trip(file);
        }
        Ok(db)
    }
}

} // verus!

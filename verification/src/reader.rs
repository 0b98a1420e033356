//! The validating decoder. `BBFReader::new` bootstraps from the header and
//! the footer, range-checks every table pointer against the total file
//! length with overflow-safe arithmetic, and then exposes random-access
//! views into tables, strings and asset payloads. String-pool and
//! asset-payload bounds are checked lazily, per access, never eagerly.

use crate::hashing::xxh3_of;
use crate::hashing::xxh3_hash;
use crate::layout::decode_asset_entry;
use crate::layout::decode_footer;
use crate::layout::decode_header;
use crate::layout::decode_metadata;
use crate::layout::decode_page_entry;
use crate::layout::decode_section;
use crate::layout::spec_parse_asset_entry;
use crate::layout::spec_parse_footer;
use crate::layout::spec_parse_header;
use crate::layout::spec_parse_metadata;
use crate::layout::spec_parse_page_entry;
use crate::layout::spec_parse_section;
use crate::layout::BBFAssetEntry;
use crate::layout::BBFFooter;
use crate::layout::BBFHeader;
use crate::layout::BBFMetadata;
use crate::layout::BBFPageEntry;
use crate::layout::BBFSection;
use crate::layout::ASSET_ENTRY_SIZE;
use crate::layout::BBF_MAGIC;
use crate::layout::FOOTER_SIZE;
use crate::layout::HEADER_SIZE;
use crate::layout::METADATA_SIZE;
use crate::layout::PAGE_ENTRY_SIZE;
use crate::layout::SECTION_SIZE;
use crate::text::bytes_to_str;
use crate::text::first_nul;
use crate::text::spec_first_nul;
use vstd::prelude::*;
use vstd::string::StringSliceAdditionalSpecFns;
use vstd::utf8::valid_utf8;

verus! {

broadcast use vstd::std_specs::vec::axiom_spec_len;

/// The structural errors a BBF file can fail with.
#[derive(Clone, Copy, PartialEq, Eq, Structural, Debug)]
pub enum BBFError {
    /// A magic constant does not match.
    InvalidMagic,
    /// The file is shorter than what its own fields claim.
    FileTooShort,
    /// A table pointer is inconsistent or overflows.
    TableError,
    /// An index is past the table it indexes.
    OutOfBounds,
}

impl BBFError {
    /// A short human-readable description of the error.
    pub fn message(&self) -> &'static str {
        match *self {
            BBFError::InvalidMagic => "Invalid BBF Magic",
            BBFError::FileTooShort => "File too short or corrupted header",
            BBFError::TableError => "Table error or invalid offsets",
            BBFError::OutOfBounds => "Index out of bounds",
        }
    }
}

/// The outcome of the eager range check on one table: `TableError` when
/// `offset + count * row_size` overflows a 64-bit accumulator,
/// `FileTooShort` when the end lies past the file.
pub open spec fn spec_check_range(offset: u64, count: u32, size: int, total: int) -> Option<
    BBFError,
> {
    if count * size > u64::MAX {
        Some(BBFError::TableError)
    } else if offset + count * size > u64::MAX {
        Some(BBFError::TableError)
    } else if offset + count * size > total {
        Some(BBFError::FileTooShort)
    } else {
        None
    }
}

/// What opening `data` yields: the parsed header and footer when every
/// structural check passes, and the exact error otherwise. The checks, in
/// order: total length, header magic, footer magic, pool-before-tables, and
/// the four per-table range checks.
pub open spec fn spec_open_result(data: Seq<u8>) -> Result<(BBFHeader, BBFFooter), BBFError> {
    let total = data.len() as int;
    if total < HEADER_SIZE + FOOTER_SIZE {
        Err(BBFError::FileTooShort)
    } else {
        let h = spec_parse_header(data.subrange(0, HEADER_SIZE as int));
        let f = spec_parse_footer(data.subrange(total - FOOTER_SIZE, total));
        if h.magic != BBF_MAGIC {
            Err(BBFError::InvalidMagic)
        } else if f.magic != BBF_MAGIC {
            Err(BBFError::InvalidMagic)
        } else if f.string_pool_offset > f.asset_table_offset || f.asset_table_offset > total {
            Err(BBFError::TableError)
        } else {
            match spec_check_range(f.asset_table_offset, f.asset_count, ASSET_ENTRY_SIZE as int, total) {
                Some(e) => Err(e),
                None => match spec_check_range(
                    f.page_table_offset,
                    f.page_count,
                    PAGE_ENTRY_SIZE as int,
                    total,
                ) {
                    Some(e) => Err(e),
                    None => match spec_check_range(
                        f.section_table_offset,
                        f.section_count,
                        SECTION_SIZE as int,
                        total,
                    ) {
                        Some(e) => Err(e),
                        None => match spec_check_range(
                            f.meta_table_offset,
                            f.key_count,
                            METADATA_SIZE as int,
                            total,
                        ) {
                            Some(e) => Err(e),
                            None => Ok((h, f)),
                        },
                    },
                },
            }
        }
    }
}

/// An immutable, validated view over one BBF file held in memory.
pub struct BBFReader {
    pub data: Vec<u8>,
    pub header: BBFHeader,
    pub footer: BBFFooter,
}

impl BBFReader {
    /// A reader is well formed exactly when its header and footer are the
    /// successful parse of its own buffer.
    pub open spec fn wf(&self) -> bool {
        spec_open_result(self.data@) == Ok::<(BBFHeader, BBFFooter), BBFError>(
            (self.header, self.footer),
        )
    }

    /// The string pool region: `[string_pool_offset, asset_table_offset)`.
    pub open spec fn spec_pool(&self) -> Seq<u8> {
        self.data@.subrange(
            self.footer.string_pool_offset as int,
            self.footer.asset_table_offset as int,
        )
    }
}

/// All the bounds that a well-formed reader's eager validation guarantees,
/// unpacked for use at every accessor.
pub proof fn lemma_reader_bounds(r: &BBFReader)
    requires
        r.wf(),
    ensures
        r.data@.len() >= HEADER_SIZE + FOOTER_SIZE,
        r.footer.string_pool_offset <= r.footer.asset_table_offset,
        r.footer.asset_table_offset <= r.data@.len(),
        r.footer.asset_table_offset + r.footer.asset_count * ASSET_ENTRY_SIZE <= r.data@.len(),
        r.footer.page_table_offset + r.footer.page_count * PAGE_ENTRY_SIZE <= r.data@.len(),
        r.footer.section_table_offset + r.footer.section_count * SECTION_SIZE <= r.data@.len(),
        r.footer.meta_table_offset + r.footer.key_count * METADATA_SIZE <= r.data@.len(),
        r.header == spec_parse_header(r.data@.subrange(0, HEADER_SIZE as int)),
        r.footer == spec_parse_footer(
            r.data@.subrange(r.data@.len() - FOOTER_SIZE, r.data@.len() as int),
        ),
        r.header.magic == BBF_MAGIC,
        r.footer.magic == BBF_MAGIC,
{
}

/// Overflow-safe range check for one table, exactly as specified by
/// `spec_check_range`.
fn check_range(offset: u64, count: u32, size: u64, total: u64) -> (r: Option<BBFError>)
    requires
        0 < size <= 64,
    ensures
        r == spec_check_range(offset, count, size as int, total as int),
{
    proof {
        assert(count * (size as int) <= 0xFFFF_FFFFu64 * 64) by (nonlinear_arith)
            requires
                count <= 0xFFFF_FFFFu32 && 0 < size <= 64,
        ;
    }
    let bytes = (count as u64) * size;
    if offset > u64::MAX - bytes {
        return Some(BBFError::TableError);
    }
    if offset + bytes > total {
        return Some(BBFError::FileTooShort);
    }
    None
}

impl BBFReader {
    /// Validates and opens the file held in `data`. The file must be at
    /// least header plus footer long, carry the magic at both ends, place
    /// the string pool before the asset table inside the file, and every
    /// table's `offset + count * row_size` must fit the file without 64-bit
    /// overflow. The specific failed check is reported, in that order.
    pub fn new(data: Vec<u8>) -> (r: Result<BBFReader, BBFError>)
        ensures
            match spec_open_result(data@) {
                Ok(hf) => match r {
                    Ok(rd) => rd.data@ == data@ && rd.header == hf.0 && rd.footer == hf.1
                        && rd.wf(),
                    Err(_) => false,
                },
                Err(e) => r == Err::<BBFReader, BBFError>(e),
            },
    {
        let total = data.len();
        if total < HEADER_SIZE + FOOTER_SIZE {
            return Err(BBFError::FileTooShort);
        }
        let header = decode_header(vstd::slice::slice_subrange(data.as_slice(), 0, HEADER_SIZE));
        let footer = decode_footer(
            vstd::slice::slice_subrange(data.as_slice(), total - FOOTER_SIZE, total),
        );
        if header.magic != BBF_MAGIC {
            return Err(BBFError::InvalidMagic);
        }
        if footer.magic != BBF_MAGIC {
            return Err(BBFError::InvalidMagic);
        }
        if footer.string_pool_offset > footer.asset_table_offset || footer.asset_table_offset
            > total as u64 {
            return Err(BBFError::TableError);
        }
        if let Some(e) = check_range(
            footer.asset_table_offset,
            footer.asset_count,
            ASSET_ENTRY_SIZE as u64,
            total as u64,
        ) {
            return Err(e);
        }
        if let Some(e) = check_range(
            footer.page_table_offset,
            footer.page_count,
            PAGE_ENTRY_SIZE as u64,
            total as u64,
        ) {
            return Err(e);
        }
        if let Some(e) = check_range(
            footer.section_table_offset,
            footer.section_count,
            SECTION_SIZE as u64,
            total as u64,
        ) {
            return Err(e);
        }
        if let Some(e) = check_range(
            footer.meta_table_offset,
            footer.key_count,
            METADATA_SIZE as u64,
            total as u64,
        ) {
            return Err(e);
        }
        Ok(BBFReader { data, header, footer })
    }

    /// Number of logical pages in the file.
    pub fn page_count(&self) -> (r: u32)
        ensures
            r == self.footer.page_count,
    {
        self.footer.page_count
    }

    /// Number of distinct stored assets in the file.
    pub fn asset_count(&self) -> (r: u32)
        ensures
            r == self.footer.asset_count,
    {
        self.footer.asset_count
    }

    /// Reads the NUL-terminated UTF-8 string at `offset` inside the string
    /// pool: `None` if the offset is past the pool or the bytes up to the
    /// next NUL (or the pool's end) are not valid UTF-8 — never a panic.
    pub fn get_string(&self, offset: u32) -> (res: Option<&str>)
        requires
            self.wf(),
        ensures
            ({
                let pool = self.spec_pool();
                if offset >= pool.len() {
                    res is None
                } else {
                    let suffix = pool.subrange(offset as int, pool.len() as int);
                    let seg = suffix.subrange(0, spec_first_nul(suffix));
                    &&& res is Some <==> valid_utf8(seg)
                    &&& (res matches Some(s) ==> s.spec_bytes() == seg)
                }
            }),
    {
        proof {
            lemma_reader_bounds(self);
        }
        let total = self.data.len();
        proof {
            assert(self.data@.len() == total);
            assert(self.footer.asset_table_offset <= total);
        }
        let pool_start = self.footer.string_pool_offset as usize;
        let pool_end = self.footer.asset_table_offset as usize;
        let pool = vstd::slice::slice_subrange(self.data.as_slice(), pool_start, pool_end);
        let offset = offset as usize;
        if offset >= pool.len() {
            return None;
        }
        let suffix = vstd::slice::slice_subrange(pool, offset, pool.len());
        let end = first_nul(suffix);
        proof {
            crate::text::lemma_first_nul(suffix@);
        }
        let seg = vstd::slice::slice_subrange(suffix, 0, end);
        bytes_to_str(seg)
    }

    /// The asset row at `index`, parsed from the asset table.
    pub open spec fn spec_asset_at(&self, i: int) -> BBFAssetEntry {
        let base = self.footer.asset_table_offset as int;
        spec_parse_asset_entry(
            self.data@.subrange(
                base + i * ASSET_ENTRY_SIZE,
                base + (i + 1) * ASSET_ENTRY_SIZE,
            ),
        )
    }

    /// The page row at `index`, parsed from the page table.
    pub open spec fn spec_page_at(&self, i: int) -> BBFPageEntry {
        let base = self.footer.page_table_offset as int;
        spec_parse_page_entry(
            self.data@.subrange(base + i * PAGE_ENTRY_SIZE, base + (i + 1) * PAGE_ENTRY_SIZE),
        )
    }

    /// The section row at `index`, parsed from the section table.
    pub open spec fn spec_section_at(&self, i: int) -> BBFSection {
        let base = self.footer.section_table_offset as int;
        spec_parse_section(
            self.data@.subrange(base + i * SECTION_SIZE, base + (i + 1) * SECTION_SIZE),
        )
    }

    /// The metadata row at `index`, parsed from the metadata table.
    pub open spec fn spec_metadata_at(&self, i: int) -> BBFMetadata {
        let base = self.footer.meta_table_offset as int;
        spec_parse_metadata(
            self.data@.subrange(base + i * METADATA_SIZE, base + (i + 1) * METADATA_SIZE),
        )
    }

    /// All asset rows, parsed in order from the asset table.
    pub fn assets(&self) -> (res: Vec<BBFAssetEntry>)
        requires
            self.wf(),
        ensures
            res@.len() == self.footer.asset_count,
            forall|i: int| 0 <= i < res@.len() ==> res@[i] == self.spec_asset_at(i),
    {
        proof {
            lemma_reader_bounds(self);
        }
        let total = self.data.len();
        proof {
            assert(self.data@.len() == total);
            assert(self.footer.asset_table_offset <= total);
        }
        let count = self.footer.asset_count as usize;
        let base = self.footer.asset_table_offset as usize;
        let mut res: Vec<BBFAssetEntry> = Vec::new();
        let mut i: usize = 0;
        while i < count
            invariant
                i <= count,
                self.wf(),
                res@.len() == i,
                base == self.footer.asset_table_offset,
                count == self.footer.asset_count,
                base + count * ASSET_ENTRY_SIZE <= self.data@.len(),
                self.data@.len() <= usize::MAX,
                forall|j: int| 0 <= j < i ==> res@[j] == self.spec_asset_at(j),
            decreases count - i,
        {
            proof {
                assert(i * ASSET_ENTRY_SIZE + ASSET_ENTRY_SIZE == (i + 1) * ASSET_ENTRY_SIZE
                    && (i + 1) * ASSET_ENTRY_SIZE <= count * ASSET_ENTRY_SIZE && 0 <= i
                    * ASSET_ENTRY_SIZE) by (nonlinear_arith)
                    requires
                        0 <= i < count,
                ;
            }
            let row = vstd::slice::slice_subrange(
                self.data.as_slice(),
                base + i * ASSET_ENTRY_SIZE,
                base + (i + 1) * ASSET_ENTRY_SIZE,
            );
            let e = decode_asset_entry(row);
            res.push(e);
            i = i + 1;
        }
        res
    }

    /// All page rows, parsed in order from the page table.
    pub fn pages(&self) -> (res: Vec<BBFPageEntry>)
        requires
            self.wf(),
        ensures
            res@.len() == self.footer.page_count,
            forall|i: int| 0 <= i < res@.len() ==> res@[i] == self.spec_page_at(i),
    {
        proof {
            lemma_reader_bounds(self);
        }
        let total = self.data.len();
        proof {
            assert(self.data@.len() == total);
            assert(self.footer.page_table_offset <= total);
        }
        let count = self.footer.page_count as usize;
        let base = self.footer.page_table_offset as usize;
        let mut res: Vec<BBFPageEntry> = Vec::new();
        let mut i: usize = 0;
        while i < count
            invariant
                i <= count,
                self.wf(),
                res@.len() == i,
                base == self.footer.page_table_offset,
                count == self.footer.page_count,
                base + count * PAGE_ENTRY_SIZE <= self.data@.len(),
                self.data@.len() <= usize::MAX,
                forall|j: int| 0 <= j < i ==> res@[j] == self.spec_page_at(j),
            decreases count - i,
        {
            proof {
                assert(i * PAGE_ENTRY_SIZE + PAGE_ENTRY_SIZE == (i + 1) * PAGE_ENTRY_SIZE && (i
                    + 1) * PAGE_ENTRY_SIZE <= count * PAGE_ENTRY_SIZE && 0 <= i * PAGE_ENTRY_SIZE)
                    by (nonlinear_arith)
                    requires
                        0 <= i < count,
                ;
            }
            let row = vstd::slice::slice_subrange(
                self.data.as_slice(),
                base + i * PAGE_ENTRY_SIZE,
                base + (i + 1) * PAGE_ENTRY_SIZE,
            );
            let e = decode_page_entry(row);
            res.push(e);
            i = i + 1;
        }
        res
    }

    /// All section rows, parsed in order from the section table.
    pub fn sections(&self) -> (res: Vec<BBFSection>)
        requires
            self.wf(),
        ensures
            res@.len() == self.footer.section_count,
            forall|i: int| 0 <= i < res@.len() ==> res@[i] == self.spec_section_at(i),
    {
        proof {
            lemma_reader_bounds(self);
        }
        let total = self.data.len();
        proof {
            assert(self.data@.len() == total);
            assert(self.footer.section_table_offset <= total);
        }
        let count = self.footer.section_count as usize;
        let base = self.footer.section_table_offset as usize;
        let mut res: Vec<BBFSection> = Vec::new();
        let mut i: usize = 0;
        while i < count
            invariant
                i <= count,
                self.wf(),
                res@.len() == i,
                base == self.footer.section_table_offset,
                count == self.footer.section_count,
                base + count * SECTION_SIZE <= self.data@.len(),
                self.data@.len() <= usize::MAX,
                forall|j: int| 0 <= j < i ==> res@[j] == self.spec_section_at(j),
            decreases count - i,
        {
            proof {
                assert(i * SECTION_SIZE + SECTION_SIZE == (i + 1) * SECTION_SIZE && (i + 1)
                    * SECTION_SIZE <= count * SECTION_SIZE && 0 <= i * SECTION_SIZE)
                    by (nonlinear_arith)
                    requires
                        0 <= i < count,
                ;
            }
            let row = vstd::slice::slice_subrange(
                self.data.as_slice(),
                base + i * SECTION_SIZE,
                base + (i + 1) * SECTION_SIZE,
            );
            let e = decode_section(row);
            res.push(e);
            i = i + 1;
        }
        res
    }

    /// All metadata rows, parsed in order from the metadata table.
    pub fn metadata(&self) -> (res: Vec<BBFMetadata>)
        requires
            self.wf(),
        ensures
            res@.len() == self.footer.key_count,
            forall|i: int| 0 <= i < res@.len() ==> res@[i] == self.spec_metadata_at(i),
    {
        proof {
            lemma_reader_bounds(self);
        }
        let total = self.data.len();
        proof {
            assert(self.data@.len() == total);
            assert(self.footer.meta_table_offset <= total);
        }
        let count = self.footer.key_count as usize;
        let base = self.footer.meta_table_offset as usize;
        let mut res: Vec<BBFMetadata> = Vec::new();
        let mut i: usize = 0;
        while i < count
            invariant
                i <= count,
                self.wf(),
                res@.len() == i,
                base == self.footer.meta_table_offset,
                count == self.footer.key_count,
                base + count * METADATA_SIZE <= self.data@.len(),
                self.data@.len() <= usize::MAX,
                forall|j: int| 0 <= j < i ==> res@[j] == self.spec_metadata_at(j),
            decreases count - i,
        {
            proof {
                assert(i * METADATA_SIZE + METADATA_SIZE == (i + 1) * METADATA_SIZE && (i + 1)
                    * METADATA_SIZE <= count * METADATA_SIZE && 0 <= i * METADATA_SIZE)
                    by (nonlinear_arith)
                    requires
                        0 <= i < count,
                ;
            }
            let row = vstd::slice::slice_subrange(
                self.data.as_slice(),
                base + i * METADATA_SIZE,
                base + (i + 1) * METADATA_SIZE,
            );
            let e = decode_metadata(row);
            res.push(e);
            i = i + 1;
        }
        res
    }

    /// The title characters of section row `i`, as `get_string` recovers
    /// them: the decoded pool bytes from the recorded offset up to the next
    /// NUL; empty when the offset is out of range or the bytes are invalid.
    pub open spec fn spec_title_at(&self, i: int) -> Seq<char> {
        let off = self.spec_section_at(i).section_title_offset;
        let pool = self.spec_pool();
        if off >= pool.len() {
            Seq::empty()
        } else {
            let suffix = pool.subrange(off as int, pool.len() as int);
            let seg = suffix.subrange(0, spec_first_nul(suffix));
            if valid_utf8(seg) {
                vstd::utf8::decode_utf8(seg)
            } else {
                Seq::empty()
            }
        }
    }

    /// Every section's title and start page, in definition order; a title
    /// that cannot be recovered becomes the empty string.
    pub fn section_titles(&self) -> (res: Vec<(String, u32)>)
        requires
            self.wf(),
        ensures
            res@.len() == self.footer.section_count,
            forall|i: int|
                0 <= i < res@.len() ==> (#[trigger] res@[i]).0@ == self.spec_title_at(i)
                    && res@[i].1 == self.spec_section_at(i).section_start_index,
    {
        let secs = self.sections();
        let count = secs.len();
        let mut res: Vec<(String, u32)> = Vec::new();
        let mut i: usize = 0;
        while i < count
            invariant
                i <= count,
                self.wf(),
                secs@.len() == count,
                count == self.footer.section_count,
                forall|j: int| 0 <= j < count ==> #[trigger] secs@[j] == self.spec_section_at(j),
                res@.len() == i,
                forall|j: int|
                    0 <= j < i ==> (#[trigger] res@[j]).0@ == self.spec_title_at(j) && res@[j].1
                        == self.spec_section_at(j).section_start_index,
            decreases count - i,
        {
            let title: String = match self.get_string(secs[i].section_title_offset) {
                Some(s) => {
                    proof {
                        vstd::utf8::encode_utf8_decode_utf8(s@);
                    }
                    s.to_owned()
                },
                None => String::new(),
            };
            proof {
                assert(title@ == self.spec_title_at(i as int));
            }
            res.push((title, secs[i].section_start_index));
            i = i + 1;
        }
        res
    }

    /// What `get_asset` returns: the payload byte range of the asset at
    /// `index`, or the exact error: `OutOfBounds` past the table or on
    /// 64-bit overflow of `offset + length`, `FileTooShort` when the range
    /// lies past the file.
    pub open spec fn spec_get_asset(&self, index: u32) -> Result<Seq<u8>, BBFError> {
        if index >= self.footer.asset_count {
            Err(BBFError::OutOfBounds)
        } else {
            let e = self.spec_asset_at(index as int);
            if e.offset + e.length > u64::MAX {
                Err(BBFError::OutOfBounds)
            } else if e.offset + e.length > self.data@.len() {
                Err(BBFError::FileTooShort)
            } else {
                Ok(self.data@.subrange(e.offset as int, e.offset + e.length))
            }
        }
    }

    /// The payload bytes of the asset at `index`, bounds-checked lazily with
    /// overflow-checked addition.
    pub fn get_asset(&self, index: u32) -> (res: Result<&[u8], BBFError>)
        requires
            self.wf(),
        ensures
            match res {
                Ok(b) => self.spec_get_asset(index) == Ok::<Seq<u8>, BBFError>(b@),
                Err(e) => self.spec_get_asset(index) == Err::<Seq<u8>, BBFError>(e),
            },
    {
        proof {
            lemma_reader_bounds(self);
        }
        if index >= self.footer.asset_count {
            return Err(BBFError::OutOfBounds);
        }
        let total = self.data.len();
        proof {
            assert(self.data@.len() == total);
            assert(self.footer.asset_table_offset <= total);
        }
        let base = self.footer.asset_table_offset as usize;
        let i = index as usize;
        proof {
            assert(i * ASSET_ENTRY_SIZE + ASSET_ENTRY_SIZE == (i + 1) * ASSET_ENTRY_SIZE && (i + 1)
                * ASSET_ENTRY_SIZE <= self.footer.asset_count * ASSET_ENTRY_SIZE && 0 <= i
                * ASSET_ENTRY_SIZE) by (nonlinear_arith)
                requires
                    0 <= i < self.footer.asset_count,
            ;
        }
        let row = vstd::slice::slice_subrange(
            self.data.as_slice(),
            base + i * ASSET_ENTRY_SIZE,
            base + (i + 1) * ASSET_ENTRY_SIZE,
        );
        let e = decode_asset_entry(row);
        if e.offset > u64::MAX - e.length {
            return Err(BBFError::OutOfBounds);
        }
        if e.offset + e.length > self.data.len() as u64 {
            return Err(BBFError::FileTooShort);
        }
        let start = e.offset as usize;
        let end = (e.offset + e.length) as usize;
        Ok(vstd::slice::slice_subrange(self.data.as_slice(), start, end))
    }

    /// Whether the directory hash in the footer matches the hash of the
    /// index region actually in the file: the bytes from the string pool's
    /// start up to the footer. A pool start past that region is corruption
    /// and fails the check.
    pub open spec fn spec_directory_ok(&self) -> bool {
        let region_end = self.data@.len() - FOOTER_SIZE;
        &&& self.footer.string_pool_offset <= region_end
        &&& xxh3_of(self.data@.subrange(self.footer.string_pool_offset as int, region_end))
            == self.footer.index_hash
    }

    /// Recomputes the directory hash over the index region and compares it
    /// with the footer's. Detects corruption of the pool or any table,
    /// independently of payload corruption.
    pub fn verify_directory(&self) -> (r: bool)
        requires
            self.wf(),
        ensures
            r == self.spec_directory_ok(),
    {
        proof {
            lemma_reader_bounds(self);
        }
        let region_end = self.data.len() - FOOTER_SIZE;
        if self.footer.string_pool_offset > region_end as u64 {
            return false;
        }
        let start = self.footer.string_pool_offset as usize;
        let region = vstd::slice::slice_subrange(self.data.as_slice(), start, region_end);
        let digest = xxh3_hash(region);
        digest == self.footer.index_hash
    }

    /// What `verify_asset` returns: whether the stored payload still hashes
    /// to the hash recorded in its asset row, or the error `get_asset` would
    /// give for that index.
    pub open spec fn spec_verify_asset(&self, index: u32) -> Result<bool, BBFError> {
        match self.spec_get_asset(index) {
            Ok(payload) => Ok(
                xxh3_of(payload) == self.spec_asset_at(index as int).xxh3_hash,
            ),
            Err(e) => Err(e),
        }
    }

    /// Recomputes the content hash of one asset's payload and compares it
    /// with the hash recorded in the asset's row.
    pub fn verify_asset(&self, index: u32) -> (r: Result<bool, BBFError>)
        requires
            self.wf(),
        ensures
            r == self.spec_verify_asset(index),
    {
        proof {
            lemma_reader_bounds(self);
        }
        if index >= self.footer.asset_count {
            return Err(BBFError::OutOfBounds);
        }
        let total = self.data.len();
        proof {
            assert(self.data@.len() == total);
            assert(self.footer.asset_table_offset <= total);
        }
        let base = self.footer.asset_table_offset as usize;
        let i = index as usize;
        proof {
            assert(i * ASSET_ENTRY_SIZE + ASSET_ENTRY_SIZE == (i + 1) * ASSET_ENTRY_SIZE && (i + 1)
                * ASSET_ENTRY_SIZE <= self.footer.asset_count * ASSET_ENTRY_SIZE && 0 <= i
                * ASSET_ENTRY_SIZE) by (nonlinear_arith)
                requires
                    0 <= i < self.footer.asset_count,
            ;
        }
        let row = vstd::slice::slice_subrange(
            self.data.as_slice(),
            base + i * ASSET_ENTRY_SIZE,
            base + (i + 1) * ASSET_ENTRY_SIZE,
        );
        let e = decode_asset_entry(row);
        match self.get_asset(index) {
            Ok(payload) => {
                let digest = xxh3_hash(payload);
                Ok(digest == e.xxh3_hash)
            },
            Err(err) => Err(err),
        }
    }
}

} // verus!

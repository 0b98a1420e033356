//! The format-level guarantees, stated over the builder's mathematical state
//! and the reader's parse functions and proved once and for all: a finalized
//! file always opens, every table row, string and payload is recovered
//! exactly, both integrity checks pass on an untampered file, deduplication
//! is idempotent, and payload tampering is isolated from the directory hash
//! and from other assets' checks.

use crate::builder::spec_add_page;
use crate::builder::spec_file_bytes;
use crate::builder::spec_find_hash;
use crate::builder::lemma_find_hash;
use crate::builder::lemma_find_hash_valid;
use crate::builder::spec_footer_of;
use crate::builder::spec_index_region;
use crate::builder::spec_total_size;
use crate::builder::BuilderModel;
use crate::builder::WIRE_MAX;
use crate::hashing::xxh3_of;
use crate::layout::asset_row_enc;
use crate::layout::lemma_asset_entry_roundtrip;
use crate::layout::lemma_asset_rows_uniform;
use crate::layout::lemma_footer_roundtrip;
use crate::layout::lemma_header_roundtrip;
use crate::layout::lemma_metadata_roundtrip;
use crate::layout::lemma_metadata_rows_uniform;
use crate::layout::lemma_page_entry_roundtrip;
use crate::layout::lemma_page_rows_uniform;
use crate::layout::lemma_section_roundtrip;
use crate::layout::lemma_section_rows_uniform;
use crate::layout::lemma_table_bytes_len;
use crate::layout::lemma_table_bytes_row;
use crate::layout::metadata_row_enc;
use crate::layout::page_row_enc;
use crate::layout::section_row_enc;
use crate::layout::spec_footer_bytes;
use crate::layout::spec_standard_header;
use crate::layout::spec_table_bytes;
use crate::layout::BBFFooter;
use crate::layout::BBFPageEntry;
use crate::layout::ASSET_ENTRY_SIZE;
use crate::layout::FOOTER_SIZE;
use crate::layout::HEADER_SIZE;
use crate::layout::METADATA_SIZE;
use crate::layout::PAGE_ENTRY_SIZE;
use crate::layout::SECTION_SIZE;
use crate::reader::spec_open_result;
use crate::reader::BBFError;
use crate::reader::BBFReader;
use vstd::prelude::*;

verus! {

/// The finalized file is exactly `spec_total_size` bytes long, and its
/// regions sit at the offsets the footer records.
pub proof fn lemma_file_len(m: BuilderModel)
    requires
        m.wf(),
    ensures
        spec_file_bytes(m).len() == spec_total_size(m),
        spec_index_region(m).len() == spec_total_size(m) - m.out.len() - FOOTER_SIZE,
{
    lemma_asset_rows_uniform(m.assets);
    lemma_page_rows_uniform(m.pages);
    lemma_section_rows_uniform(m.sections);
    lemma_metadata_rows_uniform(m.metadata);
    lemma_table_bytes_len(m.assets, asset_row_enc(), ASSET_ENTRY_SIZE as nat);
    lemma_table_bytes_len(m.pages, page_row_enc(), PAGE_ENTRY_SIZE as nat);
    lemma_table_bytes_len(m.sections, section_row_enc(), SECTION_SIZE as nat);
    lemma_table_bytes_len(m.metadata, metadata_row_enc(), METADATA_SIZE as nat);
    lemma_footer_roundtrip(spec_footer_of(m));
}

/// Round trip, part one: a finalized file opens. Validation accepts it and
/// parses back exactly the standard header and the footer the builder wrote.
pub proof fn lemma_finalized_file_opens(m: BuilderModel)
    requires
        m.wf(),
        spec_total_size(m) <= u64::MAX,
    ensures
        spec_open_result(spec_file_bytes(m)) == Ok::<(
            crate::layout::BBFHeader,
            BBFFooter,
        ), BBFError>((spec_standard_header(), spec_footer_of(m))),
{
    let file = spec_file_bytes(m);
    let f = spec_footer_of(m);
    let total = file.len() as int;
    lemma_file_len(m);
    lemma_header_roundtrip(spec_standard_header());
    lemma_footer_roundtrip(f);
    // The header region of the file is the builder's header.
    assert(file.subrange(0, HEADER_SIZE as int) =~= m.out.subrange(0, HEADER_SIZE as int));
    // The footer region of the file is the footer image.
    assert(file.subrange(total - FOOTER_SIZE, total) =~= spec_footer_bytes(f));
    // Table sizes, for the range checks.
    lemma_asset_rows_uniform(m.assets);
    lemma_page_rows_uniform(m.pages);
    lemma_section_rows_uniform(m.sections);
    lemma_metadata_rows_uniform(m.metadata);
    lemma_table_bytes_len(m.assets, asset_row_enc(), ASSET_ENTRY_SIZE as nat);
    lemma_table_bytes_len(m.pages, page_row_enc(), PAGE_ENTRY_SIZE as nat);
    lemma_table_bytes_len(m.sections, section_row_enc(), SECTION_SIZE as nat);
    lemma_table_bytes_len(m.metadata, metadata_row_enc(), METADATA_SIZE as nat);
    assert(f.asset_count * ASSET_ENTRY_SIZE == ASSET_ENTRY_SIZE * m.assets.len())
        by (nonlinear_arith)
        requires
            f.asset_count == m.assets.len(),
    ;
    assert(f.page_count * PAGE_ENTRY_SIZE == PAGE_ENTRY_SIZE * m.pages.len()) by (nonlinear_arith)
        requires
            f.page_count == m.pages.len(),
    ;
    assert(f.section_count * SECTION_SIZE == SECTION_SIZE * m.sections.len()) by (nonlinear_arith)
        requires
            f.section_count == m.sections.len(),
    ;
    assert(f.key_count * METADATA_SIZE == METADATA_SIZE * m.metadata.len()) by (nonlinear_arith)
        requires
            f.key_count == m.metadata.len(),
    ;
}

/// Round trip, part two: a reader over a finalized file recovers the
/// builder's state exactly — every table row, the string pool, every
/// asset's payload bytes — and both integrity checks pass: the directory
/// hash matches, and every asset's content hash matches its payload. Every
/// NUL-free interned string is recovered by a string-pool lookup at its
/// recorded offset.
pub proof fn lemma_roundtrip(m: BuilderModel, r: BBFReader)
    requires
        m.wf(),
        spec_total_size(m) <= u64::MAX,
        r.data@ == spec_file_bytes(m),
        r.header == spec_standard_header(),
        r.footer == spec_footer_of(m),
    ensures
        r.wf(),
        r.footer.asset_count == m.assets.len(),
        r.footer.page_count == m.pages.len(),
        r.footer.section_count == m.sections.len(),
        r.footer.key_count == m.metadata.len(),
        forall|i: int| 0 <= i < m.assets.len() ==> r.spec_asset_at(i) == m.assets[i],
        forall|i: int| 0 <= i < m.pages.len() ==> r.spec_page_at(i) == m.pages[i],
        forall|i: int| 0 <= i < m.sections.len() ==> r.spec_section_at(i) == m.sections[i],
        forall|i: int| 0 <= i < m.metadata.len() ==> r.spec_metadata_at(i) == m.metadata[i],
        r.spec_pool() == m.pool,
        forall|i: u32|
            i < m.assets.len() ==> r.spec_get_asset(i) == Ok::<Seq<u8>, BBFError>(
                m.out.subrange(
                    #[trigger] m.assets[i as int].offset as int,
                    m.assets[i as int].offset + m.assets[i as int].length,
                ),
            ),
        r.spec_directory_ok(),
        forall|i: u32| i < m.assets.len() ==> r.spec_verify_asset(i) == Ok::<bool, BBFError>(true),
        forall|k: int|
            0 <= k < m.interned.len() ==> {
                let (b, off) = #[trigger] m.interned[k];
                let chars = vstd::utf8::decode_utf8(b);
                (forall|x: int| 0 <= x < chars.len() ==> chars[x] != '\0') ==> {
                    let suffix = m.pool.subrange(off as int, m.pool.len() as int);
                    &&& off < m.pool.len()
                    &&& crate::text::spec_first_nul(suffix) == b.len()
                    &&& suffix.subrange(0, crate::text::spec_first_nul(suffix)) == b
                    &&& vstd::utf8::valid_utf8(b)
                }
            },
{
    let file = spec_file_bytes(m);
    let f = spec_footer_of(m);
    let total = file.len() as int;
    lemma_file_len(m);
    lemma_finalized_file_opens(m);
    assert(r.wf());
    // Region lengths and offsets.
    lemma_asset_rows_uniform(m.assets);
    lemma_page_rows_uniform(m.pages);
    lemma_section_rows_uniform(m.sections);
    lemma_metadata_rows_uniform(m.metadata);
    lemma_table_bytes_len(m.assets, asset_row_enc(), ASSET_ENTRY_SIZE as nat);
    lemma_table_bytes_len(m.pages, page_row_enc(), PAGE_ENTRY_SIZE as nat);
    lemma_table_bytes_len(m.sections, section_row_enc(), SECTION_SIZE as nat);
    lemma_table_bytes_len(m.metadata, metadata_row_enc(), METADATA_SIZE as nat);
    lemma_footer_roundtrip(f);
    let base = m.out.len() as int;
    let table_a = spec_table_bytes(m.assets, asset_row_enc());
    let table_p = spec_table_bytes(m.pages, page_row_enc());
    let table_s = spec_table_bytes(m.sections, section_row_enc());
    let table_m = spec_table_bytes(m.metadata, metadata_row_enc());
    let asset_off = base + m.pool.len();
    let page_off = asset_off + table_a.len();
    let sec_off = page_off + table_p.len();
    let meta_off = sec_off + table_s.len();
    // The string pool is recovered whole.
    assert(r.spec_pool() =~= m.pool);
    // Every asset row is recovered.
    assert forall|i: int| 0 <= i < m.assets.len() implies r.spec_asset_at(i) == m.assets[i] by {
        lemma_table_bytes_row(m.assets, asset_row_enc(), ASSET_ENTRY_SIZE as nat, i);
        assert(ASSET_ENTRY_SIZE * i >= 0 && ASSET_ENTRY_SIZE * i + ASSET_ENTRY_SIZE
            == ASSET_ENTRY_SIZE * (i + 1) && ASSET_ENTRY_SIZE * (i + 1) <= ASSET_ENTRY_SIZE
            * m.assets.len()) by (nonlinear_arith)
            requires
                0 <= i < m.assets.len(),
        ;
        assert(file.subrange(
            asset_off + i * ASSET_ENTRY_SIZE,
            asset_off + (i + 1) * ASSET_ENTRY_SIZE,
        ) =~= table_a.subrange(ASSET_ENTRY_SIZE * i, ASSET_ENTRY_SIZE * (i + 1)));
        lemma_asset_entry_roundtrip(m.assets[i]);
    }
    // Every page row is recovered.
    assert forall|i: int| 0 <= i < m.pages.len() implies r.spec_page_at(i) == m.pages[i] by {
        lemma_table_bytes_row(m.pages, page_row_enc(), PAGE_ENTRY_SIZE as nat, i);
        assert(PAGE_ENTRY_SIZE * i >= 0 && PAGE_ENTRY_SIZE * i + PAGE_ENTRY_SIZE == PAGE_ENTRY_SIZE
            * (i + 1) && PAGE_ENTRY_SIZE * (i + 1) <= PAGE_ENTRY_SIZE * m.pages.len())
            by (nonlinear_arith)
            requires
                0 <= i < m.pages.len(),
        ;
        assert(file.subrange(
            page_off + i * PAGE_ENTRY_SIZE,
            page_off + (i + 1) * PAGE_ENTRY_SIZE,
        ) =~= table_p.subrange(PAGE_ENTRY_SIZE * i, PAGE_ENTRY_SIZE * (i + 1)));
        lemma_page_entry_roundtrip(m.pages[i]);
    }
    // Every section row is recovered.
    assert forall|i: int| 0 <= i < m.sections.len() implies r.spec_section_at(i)
        == m.sections[i] by {
        lemma_table_bytes_row(m.sections, section_row_enc(), SECTION_SIZE as nat, i);
        assert(SECTION_SIZE * i >= 0 && SECTION_SIZE * i + SECTION_SIZE == SECTION_SIZE * (i + 1)
            && SECTION_SIZE * (i + 1) <= SECTION_SIZE * m.sections.len()) by (nonlinear_arith)
            requires
                0 <= i < m.sections.len(),
        ;
        assert(file.subrange(sec_off + i * SECTION_SIZE, sec_off + (i + 1) * SECTION_SIZE)
            =~= table_s.subrange(SECTION_SIZE * i, SECTION_SIZE * (i + 1)));
        lemma_section_roundtrip(m.sections[i]);
    }
    // Every metadata row is recovered.
    assert forall|i: int| 0 <= i < m.metadata.len() implies r.spec_metadata_at(i)
        == m.metadata[i] by {
        lemma_table_bytes_row(m.metadata, metadata_row_enc(), METADATA_SIZE as nat, i);
        assert(METADATA_SIZE * i >= 0 && METADATA_SIZE * i + METADATA_SIZE == METADATA_SIZE * (i
            + 1) && METADATA_SIZE * (i + 1) <= METADATA_SIZE * m.metadata.len())
            by (nonlinear_arith)
            requires
                0 <= i < m.metadata.len(),
        ;
        assert(file.subrange(meta_off + i * METADATA_SIZE, meta_off + (i + 1) * METADATA_SIZE)
            =~= table_m.subrange(METADATA_SIZE * i, METADATA_SIZE * (i + 1)));
        lemma_metadata_roundtrip(m.metadata[i]);
    }
    // Every payload is recovered and hashes back to its recorded hash.
    assert forall|i: u32| i < m.assets.len() implies r.spec_get_asset(i) == Ok::<
        Seq<u8>,
        BBFError,
    >(
        m.out.subrange(
            #[trigger] m.assets[i as int].offset as int,
            m.assets[i as int].offset + m.assets[i as int].length,
        ),
    ) && r.spec_verify_asset(i) == Ok::<bool, BBFError>(true) by {
        let e = m.assets[i as int];
        assert(r.spec_asset_at(i as int) == e);
        assert(e.offset + e.length <= m.out.len() <= total);
        assert(file.subrange(e.offset as int, e.offset + e.length) =~= m.out.subrange(
            e.offset as int,
            e.offset + e.length,
        ));
    }
    // The directory hash covers exactly the index region, which is intact.
    assert(file.subrange(f.string_pool_offset as int, total - FOOTER_SIZE) =~= spec_index_region(
        m,
    ));
    assert(r.spec_directory_ok());
    // Every NUL-free interned string is recovered by a pool lookup.
    assert forall|k: int| 0 <= k < m.interned.len() implies {
        let (b, off) = #[trigger] m.interned[k];
        let chars = vstd::utf8::decode_utf8(b);
        (forall|x: int| 0 <= x < chars.len() ==> chars[x] != '\0') ==> {
            let suffix = m.pool.subrange(off as int, m.pool.len() as int);
            &&& off < m.pool.len()
            &&& crate::text::spec_first_nul(suffix) == b.len()
            &&& suffix.subrange(0, crate::text::spec_first_nul(suffix)) == b
            &&& vstd::utf8::valid_utf8(b)
        }
    } by {
        let (b, off) = m.interned[k];
        let chars = vstd::utf8::decode_utf8(b);
        if forall|x: int| 0 <= x < chars.len() ==> chars[x] != '\0' {
            // A NUL-free title encodes to NUL-free bytes.
            vstd::utf8::decode_utf8_encode_utf8(b);
            crate::text::lemma_encode_no_nul(chars);
            assert(forall|x: int| 0 <= x < b.len() ==> b[x] != 0);
            let suffix = m.pool.subrange(off as int, m.pool.len() as int);
            assert(forall|x: int|
                0 <= x < b.len() ==> suffix[x] == m.pool.subrange(off as int, off + b.len())[x]);
            assert(suffix[b.len() as int] == m.pool[off + b.len()]);
            crate::text::lemma_first_nul_unique(suffix, b.len() as int);
            assert(suffix.subrange(0, b.len() as int) =~= b);
        }
    }
}

/// Dedup idempotence: adding byte-identical content twice never increases
/// the asset count or rewrites a byte — the second call only appends a page
/// row referencing the same asset index as the first.
pub proof fn lemma_dedup_idempotent(
    m: BuilderModel,
    data: Seq<u8>,
    code1: u8,
    code2: u8,
    flags1: u32,
    flags2: u32,
)
    requires
        m.wf(),
        m.assets.len() < WIRE_MAX,
        m.pages.len() + 1 < WIRE_MAX,
    ensures
        ({
            let first = spec_add_page(m, data, code1, flags1);
            let second = spec_add_page(first.0, data, code2, flags2);
            &&& second.0.assets == first.0.assets
            &&& second.0.out == first.0.out
            &&& second.0.pool == first.0.pool
            &&& second.1 == first.1
            &&& second.0.pages == first.0.pages.push(
                BBFPageEntry { asset_index: first.1, flags: flags2 },
            )
        }),
{
    let h = xxh3_of(data);
    let first = spec_add_page(m, data, code1, flags1);
    let m1 = first.0;
    lemma_find_hash_valid(m.assets, h);
    match spec_find_hash(m.assets, h) {
        Some(i) => {
            assert(m1.assets == m.assets);
            assert(spec_find_hash(m1.assets, h) == Some(i));
        },
        None => {
            // The first call appended an asset carrying hash `h` at the end;
            // the second finds exactly that one.
            let n = m.assets.len() as int;
            assert(m1.assets[n].xxh3_hash == h);
            assert(forall|j: int|
                0 <= j < n ==> (#[trigger] m1.assets[j]).xxh3_hash == m.assets[j].xxh3_hash);
            lemma_find_hash(m1.assets, h, n);
            assert(spec_find_hash(m1.assets, h) == Some(n));
            assert(first.1 == n as u32);
        },
    }
}

/// Tamper isolation: changing bytes only inside the payload region — e.g.
/// flipping a byte of one asset's payload — leaves the file opening with the
/// same header and footer, leaves the directory-hash check's verdict
/// unchanged, and leaves the verdict of every asset whose payload range is
/// disjoint from the change unchanged.
pub proof fn lemma_tamper_isolation(r1: BBFReader, r2: BBFReader, lo: int, hi: int)
    requires
        r1.wf(),
        r2.data@.len() == r1.data@.len(),
        r2.header == r1.header,
        r2.footer == r1.footer,
        forall|k: int| 0 <= k < r1.data@.len() && !(lo <= k < hi) ==> r1.data@[k] == r2.data@[k],
        HEADER_SIZE <= lo <= hi,
        hi <= r1.footer.string_pool_offset,
        hi <= r1.data@.len() - FOOTER_SIZE,
    ensures
        r2.wf(),
        r2.spec_directory_ok() == r1.spec_directory_ok(),
        forall|i: u32|
            i < r1.footer.asset_count ==> #[trigger] r2.spec_asset_at(i as int)
                == r1.spec_asset_at(i as int),
        forall|i: u32|
            i < r1.footer.asset_count && (r1.spec_asset_at(i as int).offset
                + r1.spec_asset_at(i as int).length <= lo || hi <= r1.spec_asset_at(
                i as int,
            ).offset) ==> #[trigger] r2.spec_verify_asset(i) == r1.spec_verify_asset(i),
{
    crate::reader::lemma_reader_bounds(&r1);
    let total = r1.data@.len() as int;
    let f = r1.footer;
    // Opening looks only at the header, the footer and the footer's fields,
    // all outside the changed range.
    assert(r2.data@.subrange(0, HEADER_SIZE as int) =~= r1.data@.subrange(0, HEADER_SIZE as int));
    assert(r2.data@.subrange(total - FOOTER_SIZE, total) =~= r1.data@.subrange(
        total - FOOTER_SIZE,
        total,
    ));
    assert(spec_open_result(r2.data@) == spec_open_result(r1.data@));
    assert(r2.wf());
    // The directory hash covers [string_pool_offset, total - FOOTER_SIZE),
    // disjoint from the changed range.
    if f.string_pool_offset <= total - FOOTER_SIZE {
        assert(r2.data@.subrange(f.string_pool_offset as int, total - FOOTER_SIZE) =~= r1.data@
            .subrange(f.string_pool_offset as int, total - FOOTER_SIZE));
    }
    assert(r2.spec_directory_ok() == r1.spec_directory_ok());
    // Table rows sit at or after the asset table offset, past the change.
    assert forall|i: u32| i < f.asset_count implies #[trigger] r2.spec_asset_at(i as int)
        == r1.spec_asset_at(i as int) by {
        lemma_asset_row_in_bounds(r1, i as int);
        assert(r2.data@.subrange(
            f.asset_table_offset + (i as int) * ASSET_ENTRY_SIZE,
            f.asset_table_offset + (i as int + 1) * ASSET_ENTRY_SIZE,
        ) =~= r1.data@.subrange(
            f.asset_table_offset + (i as int) * ASSET_ENTRY_SIZE,
            f.asset_table_offset + (i as int + 1) * ASSET_ENTRY_SIZE,
        ));
    }
    // An asset whose payload range avoids the change keeps its verdict.
    assert forall|i: u32|
        i < f.asset_count && (r1.spec_asset_at(i as int).offset + r1.spec_asset_at(
            i as int,
        ).length <= lo || hi <= r1.spec_asset_at(i as int).offset) implies #[trigger] r2
        .spec_verify_asset(i) == r1.spec_verify_asset(i) by {
        let e = r1.spec_asset_at(i as int);
        assert(r2.spec_asset_at(i as int) == e);
        if e.offset + e.length <= u64::MAX && e.offset + e.length <= total {
            assert(r2.data@.subrange(e.offset as int, e.offset + e.length) =~= r1.data@.subrange(
                e.offset as int,
                e.offset + e.length,
            ));
        }
    }
}

/// Rows of the asset table lie inside the file, after the string pool.
pub proof fn lemma_asset_row_in_bounds(r: BBFReader, i: int)
    requires
        r.wf(),
        0 <= i < r.footer.asset_count,
    ensures
        r.footer.asset_table_offset + i * ASSET_ENTRY_SIZE >= r.footer.string_pool_offset,
        r.footer.asset_table_offset + (i + 1) * ASSET_ENTRY_SIZE <= r.data@.len(),
        i * ASSET_ENTRY_SIZE >= 0,
        i * ASSET_ENTRY_SIZE + ASSET_ENTRY_SIZE == (i + 1) * ASSET_ENTRY_SIZE,
{
    crate::reader::lemma_reader_bounds(&r);
    assert(i * ASSET_ENTRY_SIZE >= 0 && i * ASSET_ENTRY_SIZE + ASSET_ENTRY_SIZE == (i + 1)
        * ASSET_ENTRY_SIZE && (i + 1) * ASSET_ENTRY_SIZE <= r.footer.asset_count
        * ASSET_ENTRY_SIZE) by (nonlinear_arith)
        requires
            0 <= i < r.footer.asset_count,
    ;
}

} // verus!

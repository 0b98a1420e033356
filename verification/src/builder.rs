//! The one-shot, append-only encoder. It accumulates the payload region in
//! memory, deduplicates identical content by its 64-bit hash, interns strings
//! into the pool, collects table rows, and emits pool + tables + footer on
//! `finalize`, which consumes the builder and returns the complete file.
//!
//! Every mutation is specified by a pure transition function over
//! [`BuilderModel`], the mathematical state of a builder, so that the laws
//! about sequences of calls can be stated and proved at the spec level.

use crate::hashing::xxh3_of;
use crate::hashing::xxh3_hash;
use crate::layout::asset_row_enc;
use crate::layout::encode_asset_table;
use crate::layout::encode_footer;
use crate::layout::encode_metadata_table;
use crate::layout::encode_page_table;
use crate::layout::encode_section_table;
use crate::layout::lemma_asset_rows_uniform;
use crate::layout::lemma_metadata_rows_uniform;
use crate::layout::lemma_page_rows_uniform;
use crate::layout::lemma_section_rows_uniform;
use crate::layout::lemma_table_bytes_len;
use crate::layout::metadata_row_enc;
use crate::layout::page_row_enc;
use crate::layout::section_row_enc;
use crate::layout::spec_footer_bytes;
use crate::layout::spec_table_bytes;
use crate::layout::BBFFooter;
use crate::layout::ASSET_ENTRY_SIZE;
use crate::layout::FOOTER_SIZE;
use crate::layout::METADATA_SIZE;
use crate::layout::NO_PARENT;
use crate::layout::PAGE_ENTRY_SIZE;
use crate::layout::SECTION_SIZE;
use crate::layout::encode_header;
use crate::layout::push_zeros;
use crate::layout::lemma_header_roundtrip;
use crate::layout::spec_header_bytes;
use crate::layout::spec_standard_header;
use crate::layout::zero_bytes;
use crate::layout::BBFAssetEntry;
use crate::layout::BBFHeader;
use crate::layout::BBFMediaType;
use crate::layout::BBFMetadata;
use crate::layout::BBFPageEntry;
use crate::layout::BBFSection;
use crate::layout::spec_media_code;
use crate::layout::ASSET_ALIGN;
use crate::layout::BBF_MAGIC;
use crate::layout::BBF_VERSION;
use crate::layout::HEADER_SIZE;
use vstd::prelude::*;
use vstd::string::StringSliceAdditionalSpecFns;
use vstd::utf8::*;

verus! {

broadcast use vstd::std_specs::vec::axiom_spec_len;

/// The largest value a 32-bit wire field can carry: table row counts, string
/// pool offsets and asset indices must all stay within it.
pub const WIRE_MAX: u32 = 0xFFFF_FFFF;

/// One interned string: its UTF-8 bytes and the pool offset at which those
/// bytes, followed by one NUL terminator, were appended.
pub struct InternEntry {
    pub bytes: Vec<u8>,
    pub offset: u32,
}

/// The mathematical state of a builder.
pub ghost struct BuilderModel {
    /// Header plus payload region written so far.
    pub out: Seq<u8>,
    /// One row per distinct content blob.
    pub assets: Seq<BBFAssetEntry>,
    /// One row per logical page.
    pub pages: Seq<BBFPageEntry>,
    /// Section rows, in definition order.
    pub sections: Seq<BBFSection>,
    /// Metadata rows, in definition order.
    pub metadata: Seq<BBFMetadata>,
    /// The string pool accumulated so far.
    pub pool: Seq<u8>,
    /// The interning table: byte image and pool offset of each distinct
    /// string, in first-interning order.
    pub interned: Seq<(Seq<u8>, u32)>,
}

impl BuilderModel {
    /// The builder's invariant: the output starts with the standard header,
    /// every asset row points at its payload inside `out` and carries that
    /// payload's hash, asset hashes are pairwise distinct (an asset is added
    /// only when its hash is new), page rows reference existing assets,
    /// counts and pool offsets fit their 32-bit wire fields, and every
    /// interned string sits NUL-terminated at its recorded pool offset.
    pub open spec fn wf(self) -> bool {
        &&& self.out.len() >= HEADER_SIZE
        &&& self.out.len() <= u64::MAX
        &&& self.out.subrange(0, HEADER_SIZE as int) == spec_header_bytes(spec_standard_header())
        &&& forall|i: int|
            0 <= i < self.assets.len() ==> {
                let a = #[trigger] self.assets[i];
                &&& a.offset >= HEADER_SIZE
                &&& a.offset + a.length <= self.out.len()
                &&& a.xxh3_hash == xxh3_of(
                    self.out.subrange(a.offset as int, a.offset + a.length),
                )
            }
        &&& forall|i: int, j: int|
            0 <= i < j < self.assets.len() ==> (#[trigger] self.assets[i]).xxh3_hash != (
            #[trigger] self.assets[j]).xxh3_hash
        &&& forall|i: int|
            0 <= i < self.pages.len() ==> (#[trigger] self.pages[i]).asset_index
                < self.assets.len()
        &&& self.assets.len() <= WIRE_MAX
        &&& self.pages.len() <= WIRE_MAX
        &&& self.sections.len() <= WIRE_MAX
        &&& self.metadata.len() <= WIRE_MAX
        &&& self.pool.len() <= WIRE_MAX
        &&& forall|k: int|
            0 <= k < self.interned.len() ==> {
                let (b, off) = #[trigger] self.interned[k];
                &&& off + b.len() + 1 <= self.pool.len()
                &&& self.pool.subrange(off as int, off + b.len()) == b
                &&& self.pool[off + b.len()] == 0
                &&& valid_utf8(b)
            }
    }
}

impl View for BBFBuilder {
    type V = BuilderModel;

    open spec fn view(&self) -> BuilderModel {
        BuilderModel {
            out: self.out@,
            assets: self.assets@,
            pages: self.pages@,
            sections: self.sections@,
            metadata: self.metadata@,
            pool: self.string_pool@,
            interned: Seq::new(
                self.interned@.len(),
                |i: int| (self.interned@[i].bytes@, self.interned@[i].offset),
            ),
        }
    }
}

/// The state of a fresh builder: the standard header written, nothing else.
pub open spec fn spec_new_builder() -> BuilderModel {
    BuilderModel {
        out: spec_header_bytes(spec_standard_header()),
        assets: Seq::empty(),
        pages: Seq::empty(),
        sections: Seq::empty(),
        metadata: Seq::empty(),
        pool: Seq::empty(),
        interned: Seq::empty(),
    }
}

/// Zero padding needed to bring a write position up to the next
/// `ASSET_ALIGN` boundary (zero if already aligned).
pub open spec fn spec_align_pad(len: int) -> int {
    (ASSET_ALIGN - (len % (ASSET_ALIGN as int))) % (ASSET_ALIGN as int)
}

/// The index of the first asset row carrying hash `h`, if any.
pub open spec fn spec_find_hash(assets: Seq<BBFAssetEntry>, h: u64) -> Option<int>
    decreases assets.len(),
{
    if assets.len() == 0 {
        None
    } else if assets[0].xxh3_hash == h {
        Some(0)
    } else {
        match spec_find_hash(assets.drop_first(), h) {
            Some(i) => Some(i + 1),
            None => None,
        }
    }
}

/// Characterization of `spec_find_hash` as the first match.
pub proof fn lemma_find_hash(assets: Seq<BBFAssetEntry>, h: u64, r: int)
    requires
        0 <= r <= assets.len(),
        forall|j: int| 0 <= j < r ==> (#[trigger] assets[j]).xxh3_hash != h,
        r < assets.len() ==> assets[r].xxh3_hash == h,
    ensures
        spec_find_hash(assets, h) == if r == assets.len() {
            None::<int>
        } else {
            Some(r)
        },
    decreases assets.len(),
{
    if assets.len() == 0 {
    } else if assets[0].xxh3_hash == h {
        if r > 0 {
            assert(assets[0].xxh3_hash != h);
        }
    } else {
        assert(r != 0);
        assert(forall|j: int|
            0 <= j < r - 1 ==> (#[trigger] assets.drop_first()[j]).xxh3_hash != h);
        lemma_find_hash(assets.drop_first(), h, r - 1);
    }
}

/// The transition of `add_page`: if content with the same hash already
/// exists, only a page row referencing it is appended; otherwise the payload
/// is written at the next aligned position, a new asset row is appended, and
/// the page row references it. The second component is the asset index used.
pub open spec fn spec_add_page(
    m: BuilderModel,
    data: Seq<u8>,
    code: u8,
    pflags: u32,
) -> (BuilderModel, u32) {
    let h = xxh3_of(data);
    match spec_find_hash(m.assets, h) {
        Some(i) => (
            BuilderModel {
                pages: m.pages.push(BBFPageEntry { asset_index: i as u32, flags: pflags }),
                ..m
            },
            i as u32,
        ),
        None => {
            let pad = spec_align_pad(m.out.len() as int);
            let start = m.out.len() + pad;
            let entry = BBFAssetEntry {
                offset: start as u64,
                length: data.len() as u64,
                decoded_length: data.len() as u64,
                xxh3_hash: h,
                type_: code,
                flags: 0,
            };
            let idx = m.assets.len() as u32;
            (
                BuilderModel {
                    out: m.out + zero_bytes(pad as nat) + data,
                    assets: m.assets.push(entry),
                    pages: m.pages.push(BBFPageEntry { asset_index: idx, flags: pflags }),
                    ..m
                },
                idx,
            )
        },
    }
}

/// The builder: a one-shot encoder, created by [`BBFBuilder::new`], mutated
/// only by the `add_*` calls, and consumed exactly once by
/// [`BBFBuilder::finalize`].
pub struct BBFBuilder {
    pub out: Vec<u8>,
    pub assets: Vec<BBFAssetEntry>,
    pub pages: Vec<BBFPageEntry>,
    pub sections: Vec<BBFSection>,
    pub metadata: Vec<BBFMetadata>,
    pub string_pool: Vec<u8>,
    pub interned: Vec<InternEntry>,
}

impl BBFBuilder {
    /// A fresh builder with the standard header already written.
    pub fn new() -> (r: BBFBuilder)
        ensures
            r@ == spec_new_builder(),
            r@.wf(),
    {
        let mut out: Vec<u8> = Vec::new();
        let header = BBFHeader {
            magic: BBF_MAGIC,
            version: BBF_VERSION,
            flags: 0,
            header_len: HEADER_SIZE as u16,
            reserved: 0,
        };
        encode_header(&header, &mut out);
        let r = BBFBuilder {
            out,
            assets: Vec::new(),
            pages: Vec::new(),
            sections: Vec::new(),
            metadata: Vec::new(),
            string_pool: Vec::new(),
            interned: Vec::new(),
        };
        proof {
            lemma_header_roundtrip(spec_standard_header());
            assert(r@.interned =~= Seq::<(Seq<u8>, u32)>::empty());
            assert(r@ =~= spec_new_builder());
            assert(r@.out.subrange(0, HEADER_SIZE as int) =~= spec_header_bytes(
                spec_standard_header(),
            ));
        }
        r
    }

    /// Index of the first asset row with hash `h`, if any.
    fn find_asset_by_hash(&self, h: u64) -> (r: Option<usize>)
        ensures
            match r {
                Some(i) => spec_find_hash(self@.assets, h) == Some(i as int),
                None => spec_find_hash(self@.assets, h) is None,
            },
    {
        let n = self.assets.len();
        let mut i: usize = 0;
        while i < n
            invariant
                i <= n,
                self@.assets.len() == n,
                forall|j: int| 0 <= j < i ==> (#[trigger] self@.assets[j]).xxh3_hash != h,
            decreases n - i,
        {
            if self.assets[i].xxh3_hash == h {
                proof {
                    lemma_find_hash(self@.assets, h, i as int);
                }
                return Some(i);
            }
            i = i + 1;
        }
        proof {
            lemma_find_hash(self@.assets, h, n as int);
        }
        None
    }

    /// Adds one logical page holding `data`. Identical content always
    /// collapses to one stored asset: if the content hash is already present
    /// no byte is rewritten, otherwise the payload is written at the next
    /// 4096-aligned position. A page row is appended in all cases. Returns
    /// the asset index the page references.
    pub fn add_page(&mut self, data: &[u8], media_type: BBFMediaType, flags: u32) -> (r: u32)
        requires
            old(self)@.wf(),
            old(self)@.assets.len() < WIRE_MAX,
            old(self)@.pages.len() < WIRE_MAX,
        ensures
            final(self)@ == spec_add_page(old(self)@, data@, spec_media_code(media_type), flags).0,
            r == spec_add_page(old(self)@, data@, spec_media_code(media_type), flags).1,
            final(self)@.wf(),
    {
        let h = xxh3_hash(data);
        let asset_index: u32;
        match self.find_asset_by_hash(h) {
            Some(i) => {
                asset_index = i as u32;
            },
            None => {
                // Pad the payload region up to the next aligned position.
                let pos = self.out.len();
                let pad = (ASSET_ALIGN - (pos % ASSET_ALIGN)) % ASSET_ALIGN;
                push_zeros(&mut self.out, pad);
                let offset = self.out.len();
                let mut payload = vstd::slice::slice_to_vec(data);
                self.out.append(&mut payload);
                let entry = BBFAssetEntry {
                    offset: offset as u64,
                    length: data.len() as u64,
                    decoded_length: data.len() as u64,
                    xxh3_hash: h,
                    type_: media_type.as_code(),
                    flags: 0,
                };
                asset_index = self.assets.len() as u32;
                self.assets.push(entry);
                proof {
                    let m = old(self)@;
                    let pad_i = spec_align_pad(m.out.len() as int);
                    assert(pad == pad_i);
                    assert(self@.out =~= m.out + zero_bytes(pad_i as nat) + data@);
                    assert(self@.out.subrange(offset as int, offset + data@.len()) =~= data@);
                }
            },
        }
        self.pages.push(BBFPageEntry { asset_index, flags });
        let out_len = self.out.len();
        proof {
            let m = old(self)@;
            let h0 = xxh3_of(data@);
            let step = spec_add_page(m, data@, spec_media_code(media_type), flags);
            assert(self.out@.len() == out_len);
            match spec_find_hash(m.assets, h0) {
                Some(i) => {
                    assert(self@ =~= step.0);
                },
                None => {
                    assert(self@.assets =~= step.0.assets);
                    assert(self@.pages =~= step.0.pages);
                    assert(self@ =~= step.0);
                },
            }
            if spec_find_hash(m.assets, h0) is None {
                assert(self.out@.len() == m.out.len() + spec_align_pad(m.out.len() as int)
                    + data@.len());
                assert(m.out.len() + spec_align_pad(m.out.len() as int) + data@.len()
                    <= u64::MAX);
            }
            lemma_add_page_wf(m, data@, spec_media_code(media_type), flags);
        }
        asset_index
    }
}

/// The pool offset recorded for the first interning of `b`, if any.
pub open spec fn spec_find_intern(interned: Seq<(Seq<u8>, u32)>, b: Seq<u8>) -> Option<u32>
    decreases interned.len(),
{
    if interned.len() == 0 {
        None
    } else if interned[0].0 == b {
        Some(interned[0].1)
    } else {
        spec_find_intern(interned.drop_first(), b)
    }
}

/// Characterization of `spec_find_intern` as the first match.
pub proof fn lemma_find_intern(interned: Seq<(Seq<u8>, u32)>, b: Seq<u8>, r: int)
    requires
        0 <= r <= interned.len(),
        forall|j: int| 0 <= j < r ==> (#[trigger] interned[j]).0 != b,
        r < interned.len() ==> interned[r].0 == b,
    ensures
        spec_find_intern(interned, b) == if r == interned.len() {
            None::<u32>
        } else {
            Some(interned[r].1)
        },
    decreases interned.len(),
{
    if interned.len() == 0 {
    } else if interned[0].0 == b {
        if r > 0 {
            assert(interned[0].0 != b);
        }
    } else {
        assert(r != 0);
        assert(forall|j: int| 0 <= j < r - 1 ==> (#[trigger] interned.drop_first()[j]).0 != b);
        lemma_find_intern(interned.drop_first(), b, r - 1);
    }
}

/// A found interning is a real entry of the table.
pub proof fn lemma_find_intern_valid(interned: Seq<(Seq<u8>, u32)>, b: Seq<u8>)
    ensures
        match spec_find_intern(interned, b) {
            Some(off) => exists|k: int|
                0 <= k < interned.len() && #[trigger] interned[k] == (b, off),
            None => true,
        },
    decreases interned.len(),
{
    if interned.len() == 0 {
    } else if interned[0].0 == b {
        let off = interned[0].1;
        assert(interned[0] == (b, off));
    } else {
        lemma_find_intern_valid(interned.drop_first(), b);
        match spec_find_intern(interned.drop_first(), b) {
            Some(off) => {
                let k = choose|k: int|
                    0 <= k < interned.drop_first().len() && #[trigger] interned.drop_first()[k]
                        == (b, off);
                assert(interned[k + 1] == (b, off));
            },
            None => {},
        }
    }
}

/// The transition of string interning: a byte-identical string reuses its
/// recorded offset; a new one is appended to the pool, NUL-terminated, and
/// recorded. The second component is the pool offset used.
pub open spec fn spec_intern(m: BuilderModel, b: Seq<u8>) -> (BuilderModel, u32) {
    match spec_find_intern(m.interned, b) {
        Some(off) => (m, off),
        None => (
            BuilderModel {
                pool: m.pool + b + seq![0u8],
                interned: m.interned.push((b, m.pool.len() as u32)),
                ..m
            },
            m.pool.len() as u32,
        ),
    }
}

/// Interning preserves the builder invariant.
pub proof fn lemma_intern_wf(m: BuilderModel, b: Seq<u8>)
    requires
        m.wf(),
        valid_utf8(b),
        spec_find_intern(m.interned, b) is None ==> m.pool.len() + b.len() + 1 <= WIRE_MAX,
    ensures
        spec_intern(m, b).0.wf(),
{
    let m2 = spec_intern(m, b).0;
    match spec_find_intern(m.interned, b) {
        Some(off) => {},
        None => {
            assert forall|k: int| 0 <= k < m2.interned.len() implies {
                let (bk, off) = #[trigger] m2.interned[k];
                &&& off + bk.len() + 1 <= m2.pool.len()
                &&& m2.pool.subrange(off as int, off + bk.len()) == bk
                &&& m2.pool[off + bk.len()] == 0
                &&& valid_utf8(bk)
            } by {
                let (bk, off) = m2.interned[k];
                if k < m.interned.len() {
                    assert(m.interned[k] == (bk, off));
                    assert(m2.pool.subrange(off as int, off + bk.len()) =~= m.pool.subrange(
                        off as int,
                        off + bk.len(),
                    ));
                    assert(m2.pool[off + bk.len()] == m.pool[off + bk.len()]);
                } else {
                    assert((bk, off) == (b, m.pool.len() as u32));
                    assert(m2.pool.subrange(off as int, off + bk.len()) =~= b);
                    assert(m2.pool[off + bk.len()] == 0);
                }
            }
            assert(m2.wf());
        },
    }
}

/// Interning records the string: the offset that `spec_intern` yields is
/// recorded in the interning table against exactly those bytes, so a later
/// string-pool lookup at that offset finds them.
pub proof fn lemma_intern_records(m: BuilderModel, b: Seq<u8>)
    ensures
        ({
            let step = spec_intern(m, b);
            exists|k: int|
                0 <= k < step.0.interned.len() && #[trigger] step.0.interned[k] == (b, step.1)
        }),
{
    lemma_find_intern_valid(m.interned, b);
    let step = spec_intern(m, b);
    match spec_find_intern(m.interned, b) {
        Some(off) => {
            let k = choose|k: int|
                0 <= k < m.interned.len() && #[trigger] m.interned[k] == (b, off);
            assert(step.0.interned[k] == (b, step.1));
        },
        None => {
            assert(step.0.interned[m.interned.len() as int] == (b, step.1));
        },
    }
}

/// The transition of `add_section`: the title is interned and a section row
/// recording its offset, start page and parent (or the no-parent sentinel)
/// is appended.
pub open spec fn spec_add_section(
    m: BuilderModel,
    title: Seq<u8>,
    start_page: u32,
    parent_idx: Option<u32>,
) -> BuilderModel {
    let step = spec_intern(m, title);
    BuilderModel {
        sections: step.0.sections.push(
            BBFSection {
                section_title_offset: step.1,
                section_start_index: start_page,
                parent_section_index: match parent_idx {
                    Some(p) => p,
                    None => NO_PARENT,
                },
            },
        ),
        ..step.0
    }
}

/// The transition of `add_metadata`: key and value are interned, in that
/// order, and a metadata row recording both offsets is appended.
pub open spec fn spec_add_metadata(m: BuilderModel, key: Seq<u8>, value: Seq<u8>) -> BuilderModel {
    let s1 = spec_intern(m, key);
    let s2 = spec_intern(s1.0, value);
    BuilderModel {
        metadata: s2.0.metadata.push(BBFMetadata { key_offset: s1.1, val_offset: s2.1 }),
        ..s2.0
    }
}

/// The index region that `finalize` emits after the payload region and that
/// the footer's directory hash covers: the string pool followed by the four
/// tables, in fixed order.
pub open spec fn spec_index_region(m: BuilderModel) -> Seq<u8> {
    m.pool + spec_table_bytes(m.assets, asset_row_enc()) + spec_table_bytes(
        m.pages,
        page_row_enc(),
    ) + spec_table_bytes(m.sections, section_row_enc()) + spec_table_bytes(
        m.metadata,
        metadata_row_enc(),
    )
}

/// The footer that `finalize` writes: each table's start offset and row
/// count, the pool start, the directory hash over the index region, and the
/// trailing magic.
pub open spec fn spec_footer_of(m: BuilderModel) -> BBFFooter {
    let base = m.out.len() as int;
    let asset_off = base + m.pool.len();
    let page_off = asset_off + ASSET_ENTRY_SIZE * m.assets.len();
    let sec_off = page_off + PAGE_ENTRY_SIZE * m.pages.len();
    let meta_off = sec_off + SECTION_SIZE * m.sections.len();
    BBFFooter {
        string_pool_offset: base as u64,
        asset_table_offset: asset_off as u64,
        asset_count: m.assets.len() as u32,
        page_table_offset: page_off as u64,
        page_count: m.pages.len() as u32,
        section_table_offset: sec_off as u64,
        section_count: m.sections.len() as u32,
        meta_table_offset: meta_off as u64,
        key_count: m.metadata.len() as u32,
        extra_offset: 0,
        index_hash: xxh3_of(spec_index_region(m)),
        magic: BBF_MAGIC,
    }
}

/// The complete file that `finalize` returns for a builder in state `m`.
pub open spec fn spec_file_bytes(m: BuilderModel) -> Seq<u8> {
    m.out + spec_index_region(m) + spec_footer_bytes(spec_footer_of(m))
}

/// The byte size of the complete file for a builder in state `m`.
pub open spec fn spec_total_size(m: BuilderModel) -> int {
    m.out.len() + m.pool.len() + ASSET_ENTRY_SIZE * m.assets.len() + PAGE_ENTRY_SIZE
        * m.pages.len() + SECTION_SIZE * m.sections.len() + METADATA_SIZE * m.metadata.len()
        + FOOTER_SIZE
}

impl BBFBuilder {
    /// Interns `s` into the string pool, byte-exact: an already-interned
    /// string reuses its offset, a new one is appended NUL-terminated.
    fn get_or_add_str(&mut self, s: &str) -> (r: u32)
        requires
            old(self)@.wf(),
            spec_find_intern(old(self)@.interned, s.spec_bytes()) is None ==> old(
                self,
            )@.pool.len() + s.spec_bytes().len() + 1 <= WIRE_MAX,
        ensures
            final(self)@ == spec_intern(old(self)@, s.spec_bytes()).0,
            r == spec_intern(old(self)@, s.spec_bytes()).1,
            final(self)@.wf(),
    {
        let bytes = crate::text::str_to_bytes(s);
        let n = self.interned.len();
        let mut i: usize = 0;
        while i < n
            invariant
                i <= n,
                self == old(self),
                old(self)@.wf(),
                self@.interned.len() == n,
                bytes@ == s.spec_bytes(),
                forall|j: int| 0 <= j < i ==> (#[trigger] self@.interned[j]).0 != bytes@,
            decreases n - i,
        {
            if crate::text::bytes_eq(self.interned[i].bytes.as_slice(), bytes.as_slice()) {
                proof {
                    assert(self@.interned[i as int].0 == bytes@);
                    lemma_find_intern(self@.interned, bytes@, i as int);
                    lemma_intern_wf(old(self)@, s.spec_bytes());
                }
                return self.interned[i].offset;
            }
            i = i + 1;
        }
        proof {
            lemma_find_intern(self@.interned, bytes@, n as int);
        }
        let offset = self.string_pool.len() as u32;
        let mut pool_bytes = crate::text::str_to_bytes(s);
        self.string_pool.append(&mut pool_bytes);
        self.string_pool.push(0);
        self.interned.push(InternEntry { bytes, offset });
        proof {
            let m = old(self)@;
            let step = spec_intern(m, s.spec_bytes());
            assert(self@.pool =~= m.pool + s.spec_bytes() + seq![0u8]);
            assert(self@.interned =~= m.interned.push((s.spec_bytes(), m.pool.len() as u32)));
            assert(self@ =~= step.0);
            encode_utf8_valid_utf8(s@);
            lemma_intern_wf(m, s.spec_bytes());
        }
        offset
    }

    /// Appends a section row titled `title`, starting at page `start_page`,
    /// nested under `parent_idx` if given. The title is interned with
    /// exact-match reuse.
    pub fn add_section(&mut self, title: &str, start_page: u32, parent_idx: Option<u32>)
        requires
            old(self)@.wf(),
            old(self)@.sections.len() < WIRE_MAX,
            spec_find_intern(old(self)@.interned, title.spec_bytes()) is None ==> old(
                self,
            )@.pool.len() + title.spec_bytes().len() + 1 <= WIRE_MAX,
        ensures
            final(self)@ == spec_add_section(old(self)@, title.spec_bytes(), start_page, parent_idx),
            final(self)@.wf(),
    {
        let offset = self.get_or_add_str(title);
        let parent = match parent_idx {
            Some(p) => p,
            None => NO_PARENT,
        };
        self.sections.push(
            BBFSection {
                section_title_offset: offset,
                section_start_index: start_page,
                parent_section_index: parent,
            },
        );
        proof {
            assert(self@ =~= spec_add_section(
                old(self)@,
                title.spec_bytes(),
                start_page,
                parent_idx,
            ));
        }
    }

    /// Appends a metadata row for the pair `key`/`value`; both strings are
    /// interned with exact-match reuse. Duplicate keys are permitted.
    pub fn add_metadata(&mut self, key: &str, value: &str)
        requires
            old(self)@.wf(),
            old(self)@.metadata.len() < WIRE_MAX,
            spec_find_intern(old(self)@.interned, key.spec_bytes()) is None ==> old(
                self,
            )@.pool.len() + key.spec_bytes().len() + 1 <= WIRE_MAX,
            spec_find_intern(
                spec_intern(old(self)@, key.spec_bytes()).0.interned,
                value.spec_bytes(),
            ) is None ==> spec_intern(old(self)@, key.spec_bytes()).0.pool.len()
                + value.spec_bytes().len() + 1 <= WIRE_MAX,
        ensures
            final(self)@ == spec_add_metadata(old(self)@, key.spec_bytes(), value.spec_bytes()),
            final(self)@.wf(),
    {
        let key_offset = self.get_or_add_str(key);
        let val_offset = self.get_or_add_str(value);
        self.metadata.push(BBFMetadata { key_offset, val_offset });
        proof {
            assert(self@ =~= spec_add_metadata(old(self)@, key.spec_bytes(), value.spec_bytes()));
        }
    }

    /// Consumes the builder and returns the complete file: the payload
    /// region written so far, then the string pool, the four tables in fixed
    /// order, and the footer, whose directory hash covers exactly the pool
    /// and the tables.
    pub fn finalize(self) -> (r: Vec<u8>)
        requires
            self@.wf(),
            spec_total_size(self@) <= usize::MAX,
        ensures
            r@ == spec_file_bytes(self@),
    {
        let ghost m = self@;
        let BBFBuilder { mut out, assets, pages, sections, metadata, string_pool, interned: _ } =
            self;
        let mut sp = string_pool;
        let base = out.len();
        let mut index: Vec<u8> = Vec::new();
        index.append(&mut sp);
        proof {
            lemma_asset_rows_uniform(assets@);
            lemma_page_rows_uniform(pages@);
            lemma_section_rows_uniform(sections@);
            lemma_metadata_rows_uniform(metadata@);
            lemma_table_bytes_len(assets@, asset_row_enc(), ASSET_ENTRY_SIZE as nat);
            lemma_table_bytes_len(pages@, page_row_enc(), PAGE_ENTRY_SIZE as nat);
            lemma_table_bytes_len(sections@, section_row_enc(), SECTION_SIZE as nat);
            lemma_table_bytes_len(metadata@, metadata_row_enc(), METADATA_SIZE as nat);
        }
        let asset_off = base + index.len();
        encode_asset_table(&assets, &mut index);
        let page_off = base + index.len();
        encode_page_table(&pages, &mut index);
        let sec_off = base + index.len();
        encode_section_table(&sections, &mut index);
        let meta_off = base + index.len();
        encode_metadata_table(&metadata, &mut index);
        proof {
            assert(index@ =~= spec_index_region(m));
        }
        let digest = xxh3_hash(index.as_slice());
        let footer = BBFFooter {
            string_pool_offset: base as u64,
            asset_table_offset: asset_off as u64,
            asset_count: assets.len() as u32,
            page_table_offset: page_off as u64,
            page_count: pages.len() as u32,
            section_table_offset: sec_off as u64,
            section_count: sections.len() as u32,
            meta_table_offset: meta_off as u64,
            key_count: metadata.len() as u32,
            extra_offset: 0,
            index_hash: digest,
            magic: BBF_MAGIC,
        };
        proof {
            assert(footer == spec_footer_of(m));
        }
        out.append(&mut index);
        encode_footer(&footer, &mut out);
        proof {
            assert(out@ =~= spec_file_bytes(m));
        }
        out
    }
}

/// `add_page` preserves the builder invariant.
pub proof fn lemma_add_page_wf(m: BuilderModel, data: Seq<u8>, code: u8, pflags: u32)
    requires
        m.wf(),
        m.assets.len() < WIRE_MAX,
        m.pages.len() < WIRE_MAX,
        spec_find_hash(m.assets, xxh3_of(data)) is None ==> m.out.len() + spec_align_pad(
            m.out.len() as int,
        ) + data.len() <= u64::MAX,
    ensures
        spec_add_page(m, data, code, pflags).0.wf(),
{
    let h = xxh3_of(data);
    let step = spec_add_page(m, data, code, pflags);
    let m2 = step.0;
    match spec_find_hash(m.assets, h) {
        Some(i) => {
            lemma_find_hash_valid(m.assets, h);
            assert(m2.wf());
        },
        None => {
            lemma_find_hash_valid(m.assets, h);
            let pad = spec_align_pad(m.out.len() as int);
            assert(0 <= pad < ASSET_ALIGN);
            let start = m.out.len() + pad;
            assert(m2.out.len() == m.out.len() + pad + data.len());
            assert(m2.out.subrange(0, HEADER_SIZE as int) =~= m.out.subrange(
                0,
                HEADER_SIZE as int,
            ));
            // Old asset payloads are unchanged by appending bytes.
            assert forall|i: int| 0 <= i < m.assets.len() implies {
                let a = #[trigger] m2.assets[i];
                &&& a.offset >= HEADER_SIZE
                &&& a.offset + a.length <= m2.out.len()
                &&& a.xxh3_hash == xxh3_of(m2.out.subrange(a.offset as int, a.offset + a.length))
            } by {
                let a = m.assets[i];
                assert(m2.assets[i] == a);
                assert(m2.out.subrange(a.offset as int, a.offset + a.length) =~= m.out.subrange(
                    a.offset as int,
                    a.offset + a.length,
                ));
            }
            // The new asset's payload is exactly `data`.
            let e = m2.assets[m.assets.len() as int];
            assert(m2.out.subrange(start as int, start + data.len()) =~= data);
            assert(e.xxh3_hash == xxh3_of(m2.out.subrange(e.offset as int, e.offset + e.length)));
            // Its hash differs from every older asset's hash.
            assert(forall|j: int|
                0 <= j < m.assets.len() ==> (#[trigger] m2.assets[j]).xxh3_hash != h);
            assert(m2.wf());
        },
    }
}

/// What a `spec_find_hash` result means, stated for use at any call site.
pub proof fn lemma_find_hash_valid(assets: Seq<BBFAssetEntry>, h: u64)
    ensures
        match spec_find_hash(assets, h) {
            Some(i) => 0 <= i < assets.len() && assets[i].xxh3_hash == h,
            None => forall|j: int| 0 <= j < assets.len() ==> (#[trigger] assets[j]).xxh3_hash != h,
        },
    decreases assets.len(),
{
    if assets.len() == 0 {
    } else if assets[0].xxh3_hash == h {
    } else {
        lemma_find_hash_valid(assets.drop_first(), h);
        match spec_find_hash(assets.drop_first(), h) {
            Some(i) => {
                assert(assets.drop_first()[i] == assets[i + 1]);
                assert(spec_find_hash(assets, h) == Some(i + 1));
            },
            None => {
                assert(spec_find_hash(assets, h) is None);
                assert forall|j: int| 0 <= j < assets.len() implies (#[trigger] assets[j]).xxh3_hash
                    != h by {
                    if j > 0 {
                        assert(assets[j] == assets.drop_first()[j - 1]);
                    }
                }
            },
        }
    }
}

} // verus!

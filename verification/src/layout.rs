//! The fixed binary schema: header, footer and the four fixed-width record
//! tables, with little-endian multi-byte integers so that table rows are
//! directly indexable by `base_offset + row_index * row_size`.
//!
//! Every record has a spec-level byte image (`spec_*_bytes`), a spec-level
//! parser (`spec_parse_*`), proven-exact executable encode/decode functions,
//! and a round-trip lemma connecting the two.

use vstd::bytes::*;
use vstd::string::StringSliceAdditionalSpecFns;
use vstd::prelude::*;

verus! {

/// The four magic bytes `B B F 1`, read as a little-endian `u32`.
pub const BBF_MAGIC: u32 = 0x3146_4242;

/// Format version: post-dedup, post-hash-footer layout.
pub const BBF_VERSION: u8 = 2;

/// Byte size of the file header.
pub const HEADER_SIZE: usize = 19;

/// Byte size of the file footer.
pub const FOOTER_SIZE: usize = 76;

/// Byte size of one asset table row.
pub const ASSET_ENTRY_SIZE: usize = 64;

/// Byte size of one page table row.
pub const PAGE_ENTRY_SIZE: usize = 8;

/// Byte size of one section table row.
pub const SECTION_SIZE: usize = 12;

/// Byte size of one metadata table row.
pub const METADATA_SIZE: usize = 8;

/// Every new asset's payload starts at a multiple of this alignment.
pub const ASSET_ALIGN: usize = 4096;

/// Sentinel in a section row meaning "no parent section".
pub const NO_PARENT: u32 = 0xFFFF_FFFF;

/// The closed tag set of recognized media types. The numeric wire code 0x06
/// is a reserved gap; every unrecognized code maps to `Unknown`, never to an
/// error, so the mapping from codes is total and forward compatible.
#[derive(Clone, Copy, PartialEq, Eq, Structural, Debug)]
pub enum BBFMediaType {
    Unknown,
    Avif,
    Png,
    Webp,
    Jxl,
    Bmp,
    Gif,
    Tiff,
    Jpg,
}

/// The stable numeric wire code of each media type tag.
pub open spec fn spec_media_code(t: BBFMediaType) -> u8 {
    match t {
        BBFMediaType::Unknown => 0x00,
        BBFMediaType::Avif => 0x01,
        BBFMediaType::Png => 0x02,
        BBFMediaType::Webp => 0x03,
        BBFMediaType::Jxl => 0x04,
        BBFMediaType::Bmp => 0x05,
        BBFMediaType::Gif => 0x07,
        BBFMediaType::Tiff => 0x08,
        BBFMediaType::Jpg => 0x09,
    }
}

/// The total decoding of a wire code: unrecognized codes become `Unknown`.
pub open spec fn spec_media_from_code(v: u8) -> BBFMediaType {
    if v == 0x01 {
        BBFMediaType::Avif
    } else if v == 0x02 {
        BBFMediaType::Png
    } else if v == 0x03 {
        BBFMediaType::Webp
    } else if v == 0x04 {
        BBFMediaType::Jxl
    } else if v == 0x05 {
        BBFMediaType::Bmp
    } else if v == 0x07 {
        BBFMediaType::Gif
    } else if v == 0x08 {
        BBFMediaType::Tiff
    } else if v == 0x09 {
        BBFMediaType::Jpg
    } else {
        BBFMediaType::Unknown
    }
}

impl BBFMediaType {
    /// The numeric wire code written into an asset row.
    pub fn as_code(&self) -> (r: u8)
        ensures
            r == spec_media_code(*self),
    {
        match *self {
            BBFMediaType::Unknown => 0x00,
            BBFMediaType::Avif => 0x01,
            BBFMediaType::Png => 0x02,
            BBFMediaType::Webp => 0x03,
            BBFMediaType::Jxl => 0x04,
            BBFMediaType::Bmp => 0x05,
            BBFMediaType::Gif => 0x07,
            BBFMediaType::Tiff => 0x08,
            BBFMediaType::Jpg => 0x09,
        }
    }

    /// Total, infallible decoding of a numeric wire code.
    pub fn from_code(v: u8) -> (r: BBFMediaType)
        ensures
            r == spec_media_from_code(v),
    {
        if v == 0x01 {
            BBFMediaType::Avif
        } else if v == 0x02 {
            BBFMediaType::Png
        } else if v == 0x03 {
            BBFMediaType::Webp
        } else if v == 0x04 {
            BBFMediaType::Jxl
        } else if v == 0x05 {
            BBFMediaType::Bmp
        } else if v == 0x07 {
            BBFMediaType::Gif
        } else if v == 0x08 {
            BBFMediaType::Tiff
        } else if v == 0x09 {
            BBFMediaType::Jpg
        } else {
            BBFMediaType::Unknown
        }
    }
}

/// The media type that a file-name extension selects, decided on the ASCII
/// lowercasing of the extension's UTF-8 bytes (a leading dot included).
pub open spec fn spec_from_extension(s: Seq<u8>) -> BBFMediaType {
    let l = crate::text::spec_lower_bytes(s);
    if l == seq![0x2eu8, 0x70, 0x6e, 0x67] {
        BBFMediaType::Png
    } else if l == seq![0x2eu8, 0x6a, 0x70, 0x67] || l == seq![0x2eu8, 0x6a, 0x70, 0x65, 0x67] {
        BBFMediaType::Jpg
    } else if l == seq![0x2eu8, 0x61, 0x76, 0x69, 0x66] {
        BBFMediaType::Avif
    } else if l == seq![0x2eu8, 0x77, 0x65, 0x62, 0x70] {
        BBFMediaType::Webp
    } else if l == seq![0x2eu8, 0x6a, 0x78, 0x6c] {
        BBFMediaType::Jxl
    } else if l == seq![0x2eu8, 0x62, 0x6d, 0x70] {
        BBFMediaType::Bmp
    } else if l == seq![0x2eu8, 0x67, 0x69, 0x66] {
        BBFMediaType::Gif
    } else if l == seq![0x2eu8, 0x74, 0x69, 0x66, 0x66] {
        BBFMediaType::Tiff
    } else {
        BBFMediaType::Unknown
    }
}

/// The file-name extension under which a page of this type is extracted.
pub open spec fn spec_extension(t: BBFMediaType) -> Seq<char> {
    match t {
        BBFMediaType::Png => seq!['.', 'p', 'n', 'g'],
        BBFMediaType::Jpg => seq!['.', 'j', 'p', 'g'],
        BBFMediaType::Avif => seq!['.', 'a', 'v', 'i', 'f'],
        BBFMediaType::Webp => seq!['.', 'w', 'e', 'b', 'p'],
        BBFMediaType::Jxl => seq!['.', 'j', 'x', 'l'],
        BBFMediaType::Bmp => seq!['.', 'b', 'm', 'p'],
        BBFMediaType::Gif => seq!['.', 'g', 'i', 'f'],
        BBFMediaType::Tiff => seq!['.', 't', 'i', 'f', 'f'],
        BBFMediaType::Unknown => seq!['.', 'b', 'i', 'n'],
    }
}

/// Whether `v` holds exactly the four given bytes.
fn is_bytes4(v: &Vec<u8>, a: u8, b: u8, c: u8, d: u8) -> (r: bool)
    ensures
        r == (v@ == seq![a, b, c, d]),
{
    let r = v.len() == 4 && v[0] == a && v[1] == b && v[2] == c && v[3] == d;
    proof {
        if r {
            assert(v@ =~= seq![a, b, c, d]);
        } else {
            assert(v@ != seq![a, b, c, d]);
        }
    }
    r
}

/// Whether `v` holds exactly the five given bytes.
fn is_bytes5(v: &Vec<u8>, a: u8, b: u8, c: u8, d: u8, e: u8) -> (r: bool)
    ensures
        r == (v@ == seq![a, b, c, d, e]),
{
    let r = v.len() == 5 && v[0] == a && v[1] == b && v[2] == c && v[3] == d && v[4] == e;
    proof {
        if r {
            assert(v@ =~= seq![a, b, c, d, e]);
        } else {
            assert(v@ != seq![a, b, c, d, e]);
        }
    }
    r
}

impl BBFMediaType {
    /// Picks the media type that a file-name extension (dot included)
    /// selects, case-insensitively; anything unrecognized is `Unknown`.
    pub fn from_extension(ext: &str) -> (r: BBFMediaType)
        ensures
            r == spec_from_extension(ext.spec_bytes()),
    {
        let low = crate::text::lower_bytes(ext.as_bytes());
        if is_bytes4(&low, 0x2eu8, 0x70, 0x6e, 0x67) {
            BBFMediaType::Png
        } else if is_bytes4(&low, 0x2eu8, 0x6a, 0x70, 0x67) || is_bytes5(
            &low,
            0x2e,
            0x6a,
            0x70,
            0x65,
            0x67,
        ) {
            BBFMediaType::Jpg
        } else if is_bytes5(&low, 0x2eu8, 0x61, 0x76, 0x69, 0x66) {
            BBFMediaType::Avif
        } else if is_bytes5(&low, 0x2eu8, 0x77, 0x65, 0x62, 0x70) {
            BBFMediaType::Webp
        } else if is_bytes4(&low, 0x2eu8, 0x6a, 0x78, 0x6c) {
            BBFMediaType::Jxl
        } else if is_bytes4(&low, 0x2eu8, 0x62, 0x6d, 0x70) {
            BBFMediaType::Bmp
        } else if is_bytes4(&low, 0x2eu8, 0x67, 0x69, 0x66) {
            BBFMediaType::Gif
        } else if is_bytes5(&low, 0x2eu8, 0x74, 0x69, 0x66, 0x66) {
            BBFMediaType::Tiff
        } else {
            BBFMediaType::Unknown
        }
    }

    /// The file-name extension under which a page of this type is extracted;
    /// unknown content is written as raw `.bin`.
    pub fn as_extension(&self) -> (r: &'static str)
        ensures
            r@ == spec_extension(*self),
    {
        match *self {
            BBFMediaType::Png => {
                proof {
                    reveal_strlit(".png");
                    assert(".png"@ =~= spec_extension(BBFMediaType::Png));
                }
                ".png"
            },
            BBFMediaType::Jpg => {
                proof {
                    reveal_strlit(".jpg");
                    assert(".jpg"@ =~= spec_extension(BBFMediaType::Jpg));
                }
                ".jpg"
            },
            BBFMediaType::Avif => {
                proof {
                    reveal_strlit(".avif");
                    assert(".avif"@ =~= spec_extension(BBFMediaType::Avif));
                }
                ".avif"
            },
            BBFMediaType::Webp => {
                proof {
                    reveal_strlit(".webp");
                    assert(".webp"@ =~= spec_extension(BBFMediaType::Webp));
                }
                ".webp"
            },
            BBFMediaType::Jxl => {
                proof {
                    reveal_strlit(".jxl");
                    assert(".jxl"@ =~= spec_extension(BBFMediaType::Jxl));
                }
                ".jxl"
            },
            BBFMediaType::Bmp => {
                proof {
                    reveal_strlit(".bmp");
                    assert(".bmp"@ =~= spec_extension(BBFMediaType::Bmp));
                }
                ".bmp"
            },
            BBFMediaType::Gif => {
                proof {
                    reveal_strlit(".gif");
                    assert(".gif"@ =~= spec_extension(BBFMediaType::Gif));
                }
                ".gif"
            },
            BBFMediaType::Tiff => {
                proof {
                    reveal_strlit(".tiff");
                    assert(".tiff"@ =~= spec_extension(BBFMediaType::Tiff));
                }
                ".tiff"
            },
            BBFMediaType::Unknown => {
                proof {
                    reveal_strlit(".bin");
                    assert(".bin"@ =~= spec_extension(BBFMediaType::Unknown));
                }
                ".bin"
            },
        }
    }
}

impl From<u8> for BBFMediaType {
    fn from(v: u8) -> (r: BBFMediaType) {
        BBFMediaType::from_code(v)
    }
}

impl vstd::std_specs::convert::FromSpecImpl<u8> for BBFMediaType {
    open spec fn obeys_from_spec() -> bool {
        true
    }

    open spec fn from_spec(v: u8) -> BBFMediaType {
        spec_media_from_code(v)
    }
}

/// Decoding a tag's own code gives the tag back: the wire codes are faithful.
pub proof fn lemma_media_code_roundtrip(t: BBFMediaType)
    ensures
        spec_media_from_code(spec_media_code(t)) == t,
{
}

/// The file header. Fixed position at the file start; 19 bytes.
#[derive(Clone, Copy, PartialEq, Eq, Structural, Debug)]
pub struct BBFHeader {
    pub magic: u32,
    pub version: u8,
    pub flags: u32,
    pub header_len: u16,
    pub reserved: u64,
}

/// The byte image of a header: magic, version, flags, header length,
/// reserved, all little-endian.
pub open spec fn spec_header_bytes(h: BBFHeader) -> Seq<u8> {
    spec_u32_to_le_bytes(h.magic) + seq![h.version] + spec_u32_to_le_bytes(h.flags)
        + spec_u16_to_le_bytes(h.header_len) + spec_u64_to_le_bytes(h.reserved)
}

/// Field-exact parse of the first `HEADER_SIZE` bytes of `b`.
pub open spec fn spec_parse_header(b: Seq<u8>) -> BBFHeader
    recommends
        b.len() >= HEADER_SIZE,
{
    BBFHeader {
        magic: spec_u32_from_le_bytes(b.subrange(0, 4)),
        version: b[4],
        flags: spec_u32_from_le_bytes(b.subrange(5, 9)),
        header_len: spec_u16_from_le_bytes(b.subrange(9, 11)),
        reserved: spec_u64_from_le_bytes(b.subrange(11, 19)),
    }
}

/// The header that the builder writes at the start of every file.
pub open spec fn spec_standard_header() -> BBFHeader {
    BBFHeader {
        magic: BBF_MAGIC,
        version: BBF_VERSION,
        flags: 0,
        header_len: HEADER_SIZE as u16,
        reserved: 0,
    }
}

/// Parsing the byte image of a header yields the header itself.
pub proof fn lemma_header_roundtrip(h: BBFHeader)
    ensures
        spec_header_bytes(h).len() == HEADER_SIZE,
        spec_parse_header(spec_header_bytes(h)) == h,
{
    lemma_auto_spec_u32_to_from_le_bytes();
    lemma_auto_spec_u16_to_from_le_bytes();
    lemma_auto_spec_u64_to_from_le_bytes();
    let b = spec_header_bytes(h);
    assert(b.subrange(0, 4) =~= spec_u32_to_le_bytes(h.magic));
    assert(b.subrange(5, 9) =~= spec_u32_to_le_bytes(h.flags));
    assert(b.subrange(9, 11) =~= spec_u16_to_le_bytes(h.header_len));
    assert(b.subrange(11, 19) =~= spec_u64_to_le_bytes(h.reserved));
}

/// Appends the byte image of `h` to `out`.
pub fn encode_header(h: &BBFHeader, out: &mut Vec<u8>)
    ensures
        final(out)@ == old(out)@ + spec_header_bytes(*h),
{
    let mut b = u32_to_le_bytes(h.magic);
    out.append(&mut b);
    out.push(h.version);
    let mut b = u32_to_le_bytes(h.flags);
    out.append(&mut b);
    let mut b = u16_to_le_bytes(h.header_len);
    out.append(&mut b);
    let mut b = u64_to_le_bytes(h.reserved);
    out.append(&mut b);
    assert(out@ =~= old(out)@ + spec_header_bytes(*h));
}

/// A sequence of `n` zero bytes (declared reserved space in records).
pub open spec fn zero_bytes(n: nat) -> Seq<u8> {
    Seq::new(n, |i: int| 0u8)
}

/// Appends `n` zero bytes to `out`.
pub fn push_zeros(out: &mut Vec<u8>, n: usize)
    ensures
        final(out)@ == old(out)@ + zero_bytes(n as nat),
{
    let mut i: usize = 0;
    while i < n
        invariant
            i <= n,
            out@ == old(out)@ + zero_bytes(i as nat),
        decreases n - i,
    {
        out.push(0);
        assert(out@ =~= old(out)@ + zero_bytes((i + 1) as nat));
        i = i + 1;
    }
}

/// One row of the asset table: one entry per distinct content blob.
/// On the wire the two scalar tag bytes are followed by six bytes of
/// declared padding and three reserved 64-bit words, all zero.
#[derive(Clone, Copy, PartialEq, Eq, Structural, Debug)]
pub struct BBFAssetEntry {
    pub offset: u64,
    pub length: u64,
    pub decoded_length: u64,
    pub xxh3_hash: u64,
    pub type_: u8,
    pub flags: u8,
}

/// The 64-byte image of an asset row.
pub open spec fn spec_asset_entry_bytes(e: BBFAssetEntry) -> Seq<u8> {
    spec_u64_to_le_bytes(e.offset) + spec_u64_to_le_bytes(e.length) + spec_u64_to_le_bytes(
        e.decoded_length,
    ) + spec_u64_to_le_bytes(e.xxh3_hash) + seq![e.type_, e.flags] + zero_bytes(30)
}

/// Field-exact parse of a 64-byte asset row (padding and reserved ignored).
pub open spec fn spec_parse_asset_entry(b: Seq<u8>) -> BBFAssetEntry
    recommends
        b.len() >= ASSET_ENTRY_SIZE,
{
    BBFAssetEntry {
        offset: spec_u64_from_le_bytes(b.subrange(0, 8)),
        length: spec_u64_from_le_bytes(b.subrange(8, 16)),
        decoded_length: spec_u64_from_le_bytes(b.subrange(16, 24)),
        xxh3_hash: spec_u64_from_le_bytes(b.subrange(24, 32)),
        type_: b[32],
        flags: b[33],
    }
}

pub proof fn lemma_asset_entry_roundtrip(e: BBFAssetEntry)
    ensures
        spec_asset_entry_bytes(e).len() == ASSET_ENTRY_SIZE,
        spec_parse_asset_entry(spec_asset_entry_bytes(e)) == e,
{
    lemma_auto_spec_u64_to_from_le_bytes();
    let b = spec_asset_entry_bytes(e);
    assert(b.subrange(0, 8) =~= spec_u64_to_le_bytes(e.offset));
    assert(b.subrange(8, 16) =~= spec_u64_to_le_bytes(e.length));
    assert(b.subrange(16, 24) =~= spec_u64_to_le_bytes(e.decoded_length));
    assert(b.subrange(24, 32) =~= spec_u64_to_le_bytes(e.xxh3_hash));
}

/// Appends the 64-byte image of `e` to `out`.
pub fn encode_asset_entry(e: &BBFAssetEntry, out: &mut Vec<u8>)
    ensures
        final(out)@ == old(out)@ + spec_asset_entry_bytes(*e),
{
    let mut b = u64_to_le_bytes(e.offset);
    out.append(&mut b);
    let mut b = u64_to_le_bytes(e.length);
    out.append(&mut b);
    let mut b = u64_to_le_bytes(e.decoded_length);
    out.append(&mut b);
    let mut b = u64_to_le_bytes(e.xxh3_hash);
    out.append(&mut b);
    out.push(e.type_);
    out.push(e.flags);
    push_zeros(out, 30);
    assert(out@ =~= old(out)@ + spec_asset_entry_bytes(*e));
}

/// Decodes one asset row.
pub fn decode_asset_entry(b: &[u8]) -> (r: BBFAssetEntry)
    requires
        b@.len() >= ASSET_ENTRY_SIZE,
    ensures
        r == spec_parse_asset_entry(b@),
{
    let offset = u64_from_le_bytes(vstd::slice::slice_subrange(b, 0, 8));
    let length = u64_from_le_bytes(vstd::slice::slice_subrange(b, 8, 16));
    let decoded_length = u64_from_le_bytes(vstd::slice::slice_subrange(b, 16, 24));
    let xxh3_hash = u64_from_le_bytes(vstd::slice::slice_subrange(b, 24, 32));
    let type_ = *vstd::slice::slice_index_get(b, 32);
    let flags = *vstd::slice::slice_index_get(b, 33);
    BBFAssetEntry { offset, length, decoded_length, xxh3_hash, type_, flags }
}

/// One row of the page table: one entry per logical page. Many pages may
/// reference the same asset.
#[derive(Clone, Copy, PartialEq, Eq, Structural, Debug)]
pub struct BBFPageEntry {
    pub asset_index: u32,
    pub flags: u32,
}

/// The 8-byte image of a page row.
pub open spec fn spec_page_entry_bytes(e: BBFPageEntry) -> Seq<u8> {
    spec_u32_to_le_bytes(e.asset_index) + spec_u32_to_le_bytes(e.flags)
}

/// Field-exact parse of an 8-byte page row.
pub open spec fn spec_parse_page_entry(b: Seq<u8>) -> BBFPageEntry
    recommends
        b.len() >= PAGE_ENTRY_SIZE,
{
    BBFPageEntry {
        asset_index: spec_u32_from_le_bytes(b.subrange(0, 4)),
        flags: spec_u32_from_le_bytes(b.subrange(4, 8)),
    }
}

pub proof fn lemma_page_entry_roundtrip(e: BBFPageEntry)
    ensures
        spec_page_entry_bytes(e).len() == PAGE_ENTRY_SIZE,
        spec_parse_page_entry(spec_page_entry_bytes(e)) == e,
{
    lemma_auto_spec_u32_to_from_le_bytes();
    let b = spec_page_entry_bytes(e);
    assert(b.subrange(0, 4) =~= spec_u32_to_le_bytes(e.asset_index));
    assert(b.subrange(4, 8) =~= spec_u32_to_le_bytes(e.flags));
}

/// Appends the 8-byte image of `e` to `out`.
pub fn encode_page_entry(e: &BBFPageEntry, out: &mut Vec<u8>)
    ensures
        final(out)@ == old(out)@ + spec_page_entry_bytes(*e),
{
    let mut b = u32_to_le_bytes(e.asset_index);
    out.append(&mut b);
    let mut b = u32_to_le_bytes(e.flags);
    out.append(&mut b);
    assert(out@ =~= old(out)@ + spec_page_entry_bytes(*e));
}

/// Decodes one page row.
pub fn decode_page_entry(b: &[u8]) -> (r: BBFPageEntry)
    requires
        b@.len() >= PAGE_ENTRY_SIZE,
    ensures
        r == spec_parse_page_entry(b@),
{
    let asset_index = u32_from_le_bytes(vstd::slice::slice_subrange(b, 0, 4));
    let flags = u32_from_le_bytes(vstd::slice::slice_subrange(b, 4, 8));
    BBFPageEntry { asset_index, flags }
}

/// One row of the section table: a named range marker over the page
/// sequence. `parent_section_index == NO_PARENT` means no parent.
#[derive(Clone, Copy, PartialEq, Eq, Structural, Debug)]
pub struct BBFSection {
    pub section_title_offset: u32,
    pub section_start_index: u32,
    pub parent_section_index: u32,
}

/// The 12-byte image of a section row.
pub open spec fn spec_section_bytes(e: BBFSection) -> Seq<u8> {
    spec_u32_to_le_bytes(e.section_title_offset) + spec_u32_to_le_bytes(e.section_start_index)
        + spec_u32_to_le_bytes(e.parent_section_index)
}

/// Field-exact parse of a 12-byte section row.
pub open spec fn spec_parse_section(b: Seq<u8>) -> BBFSection
    recommends
        b.len() >= SECTION_SIZE,
{
    BBFSection {
        section_title_offset: spec_u32_from_le_bytes(b.subrange(0, 4)),
        section_start_index: spec_u32_from_le_bytes(b.subrange(4, 8)),
        parent_section_index: spec_u32_from_le_bytes(b.subrange(8, 12)),
    }
}

pub proof fn lemma_section_roundtrip(e: BBFSection)
    ensures
        spec_section_bytes(e).len() == SECTION_SIZE,
        spec_parse_section(spec_section_bytes(e)) == e,
{
    lemma_auto_spec_u32_to_from_le_bytes();
    let b = spec_section_bytes(e);
    assert(b.subrange(0, 4) =~= spec_u32_to_le_bytes(e.section_title_offset));
    assert(b.subrange(4, 8) =~= spec_u32_to_le_bytes(e.section_start_index));
    assert(b.subrange(8, 12) =~= spec_u32_to_le_bytes(e.parent_section_index));
}

/// Appends the 12-byte image of `e` to `out`.
pub fn encode_section(e: &BBFSection, out: &mut Vec<u8>)
    ensures
        final(out)@ == old(out)@ + spec_section_bytes(*e),
{
    let mut b = u32_to_le_bytes(e.section_title_offset);
    out.append(&mut b);
    let mut b = u32_to_le_bytes(e.section_start_index);
    out.append(&mut b);
    let mut b = u32_to_le_bytes(e.parent_section_index);
    out.append(&mut b);
    assert(out@ =~= old(out)@ + spec_section_bytes(*e));
}

/// Decodes one section row.
pub fn decode_section(b: &[u8]) -> (r: BBFSection)
    requires
        b@.len() >= SECTION_SIZE,
    ensures
        r == spec_parse_section(b@),
{
    let section_title_offset = u32_from_le_bytes(vstd::slice::slice_subrange(b, 0, 4));
    let section_start_index = u32_from_le_bytes(vstd::slice::slice_subrange(b, 4, 8));
    let parent_section_index = u32_from_le_bytes(vstd::slice::slice_subrange(b, 8, 12));
    BBFSection { section_title_offset, section_start_index, parent_section_index }
}

/// One row of the metadata table: string-pool offsets of a key/value pair.
#[derive(Clone, Copy, PartialEq, Eq, Structural, Debug)]
pub struct BBFMetadata {
    pub key_offset: u32,
    pub val_offset: u32,
}

/// The 8-byte image of a metadata row.
pub open spec fn spec_metadata_bytes(e: BBFMetadata) -> Seq<u8> {
    spec_u32_to_le_bytes(e.key_offset) + spec_u32_to_le_bytes(e.val_offset)
}

/// Field-exact parse of an 8-byte metadata row.
pub open spec fn spec_parse_metadata(b: Seq<u8>) -> BBFMetadata
    recommends
        b.len() >= METADATA_SIZE,
{
    BBFMetadata {
        key_offset: spec_u32_from_le_bytes(b.subrange(0, 4)),
        val_offset: spec_u32_from_le_bytes(b.subrange(4, 8)),
    }
}

pub proof fn lemma_metadata_roundtrip(e: BBFMetadata)
    ensures
        spec_metadata_bytes(e).len() == METADATA_SIZE,
        spec_parse_metadata(spec_metadata_bytes(e)) == e,
{
    lemma_auto_spec_u32_to_from_le_bytes();
    let b = spec_metadata_bytes(e);
    assert(b.subrange(0, 4) =~= spec_u32_to_le_bytes(e.key_offset));
    assert(b.subrange(4, 8) =~= spec_u32_to_le_bytes(e.val_offset));
}

/// Appends the 8-byte image of `e` to `out`.
pub fn encode_metadata(e: &BBFMetadata, out: &mut Vec<u8>)
    ensures
        final(out)@ == old(out)@ + spec_metadata_bytes(*e),
{
    let mut b = u32_to_le_bytes(e.key_offset);
    out.append(&mut b);
    let mut b = u32_to_le_bytes(e.val_offset);
    out.append(&mut b);
    assert(out@ =~= old(out)@ + spec_metadata_bytes(*e));
}

/// Decodes one metadata row.
pub fn decode_metadata(b: &[u8]) -> (r: BBFMetadata)
    requires
        b@.len() >= METADATA_SIZE,
    ensures
        r == spec_parse_metadata(b@),
{
    let key_offset = u32_from_le_bytes(vstd::slice::slice_subrange(b, 0, 4));
    let val_offset = u32_from_le_bytes(vstd::slice::slice_subrange(b, 4, 8));
    BBFMetadata { key_offset, val_offset }
}

/// The file footer: byte offsets and row counts for each table, the start of
/// the string pool, the 64-bit directory hash, and a trailing magic. Fixed
/// position at the file end, so a reader bootstraps with exactly two reads.
#[derive(Clone, Copy, PartialEq, Eq, Structural, Debug)]
pub struct BBFFooter {
    pub string_pool_offset: u64,
    pub asset_table_offset: u64,
    pub asset_count: u32,
    pub page_table_offset: u64,
    pub page_count: u32,
    pub section_table_offset: u64,
    pub section_count: u32,
    pub meta_table_offset: u64,
    pub key_count: u32,
    pub extra_offset: u64,
    pub index_hash: u64,
    pub magic: u32,
}

/// The 76-byte image of a footer.
pub open spec fn spec_footer_bytes(f: BBFFooter) -> Seq<u8> {
    spec_u64_to_le_bytes(f.string_pool_offset) + spec_u64_to_le_bytes(f.asset_table_offset)
        + spec_u32_to_le_bytes(f.asset_count) + spec_u64_to_le_bytes(f.page_table_offset)
        + spec_u32_to_le_bytes(f.page_count) + spec_u64_to_le_bytes(f.section_table_offset)
        + spec_u32_to_le_bytes(f.section_count) + spec_u64_to_le_bytes(f.meta_table_offset)
        + spec_u32_to_le_bytes(f.key_count) + spec_u64_to_le_bytes(f.extra_offset)
        + spec_u64_to_le_bytes(f.index_hash) + spec_u32_to_le_bytes(f.magic)
}

/// Field-exact parse of the first `FOOTER_SIZE` bytes of `b`.
pub open spec fn spec_parse_footer(b: Seq<u8>) -> BBFFooter
    recommends
        b.len() >= FOOTER_SIZE,
{
    BBFFooter {
        string_pool_offset: spec_u64_from_le_bytes(b.subrange(0, 8)),
        asset_table_offset: spec_u64_from_le_bytes(b.subrange(8, 16)),
        asset_count: spec_u32_from_le_bytes(b.subrange(16, 20)),
        page_table_offset: spec_u64_from_le_bytes(b.subrange(20, 28)),
        page_count: spec_u32_from_le_bytes(b.subrange(28, 32)),
        section_table_offset: spec_u64_from_le_bytes(b.subrange(32, 40)),
        section_count: spec_u32_from_le_bytes(b.subrange(40, 44)),
        meta_table_offset: spec_u64_from_le_bytes(b.subrange(44, 52)),
        key_count: spec_u32_from_le_bytes(b.subrange(52, 56)),
        extra_offset: spec_u64_from_le_bytes(b.subrange(56, 64)),
        index_hash: spec_u64_from_le_bytes(b.subrange(64, 72)),
        magic: spec_u32_from_le_bytes(b.subrange(72, 76)),
    }
}

pub proof fn lemma_footer_roundtrip(f: BBFFooter)
    ensures
        spec_footer_bytes(f).len() == FOOTER_SIZE,
        spec_parse_footer(spec_footer_bytes(f)) == f,
{
    lemma_auto_spec_u32_to_from_le_bytes();
    lemma_auto_spec_u64_to_from_le_bytes();
    let b = spec_footer_bytes(f);
    assert(b.subrange(0, 8) =~= spec_u64_to_le_bytes(f.string_pool_offset));
    assert(b.subrange(8, 16) =~= spec_u64_to_le_bytes(f.asset_table_offset));
    assert(b.subrange(16, 20) =~= spec_u32_to_le_bytes(f.asset_count));
    assert(b.subrange(20, 28) =~= spec_u64_to_le_bytes(f.page_table_offset));
    assert(b.subrange(28, 32) =~= spec_u32_to_le_bytes(f.page_count));
    assert(b.subrange(32, 40) =~= spec_u64_to_le_bytes(f.section_table_offset));
    assert(b.subrange(40, 44) =~= spec_u32_to_le_bytes(f.section_count));
    assert(b.subrange(44, 52) =~= spec_u64_to_le_bytes(f.meta_table_offset));
    assert(b.subrange(52, 56) =~= spec_u32_to_le_bytes(f.key_count));
    assert(b.subrange(56, 64) =~= spec_u64_to_le_bytes(f.extra_offset));
    assert(b.subrange(64, 72) =~= spec_u64_to_le_bytes(f.index_hash));
    assert(b.subrange(72, 76) =~= spec_u32_to_le_bytes(f.magic));
}

/// Appends the 76-byte image of `f` to `out`.
pub fn encode_footer(f: &BBFFooter, out: &mut Vec<u8>)
    ensures
        final(out)@ == old(out)@ + spec_footer_bytes(*f),
{
    let mut b = u64_to_le_bytes(f.string_pool_offset);
    out.append(&mut b);
    let mut b = u64_to_le_bytes(f.asset_table_offset);
    out.append(&mut b);
    let mut b = u32_to_le_bytes(f.asset_count);
    out.append(&mut b);
    let mut b = u64_to_le_bytes(f.page_table_offset);
    out.append(&mut b);
    let mut b = u32_to_le_bytes(f.page_count);
    out.append(&mut b);
    let mut b = u64_to_le_bytes(f.section_table_offset);
    out.append(&mut b);
    let mut b = u32_to_le_bytes(f.section_count);
    out.append(&mut b);
    let mut b = u64_to_le_bytes(f.meta_table_offset);
    out.append(&mut b);
    let mut b = u32_to_le_bytes(f.key_count);
    out.append(&mut b);
    let mut b = u64_to_le_bytes(f.extra_offset);
    out.append(&mut b);
    let mut b = u64_to_le_bytes(f.index_hash);
    out.append(&mut b);
    let mut b = u32_to_le_bytes(f.magic);
    out.append(&mut b);
    assert(out@ =~= old(out)@ + spec_footer_bytes(*f));
}

/// Decodes the footer found at the start of `b`.
pub fn decode_footer(b: &[u8]) -> (r: BBFFooter)
    requires
        b@.len() >= FOOTER_SIZE,
    ensures
        r == spec_parse_footer(b@),
{
    let string_pool_offset = u64_from_le_bytes(vstd::slice::slice_subrange(b, 0, 8));
    let asset_table_offset = u64_from_le_bytes(vstd::slice::slice_subrange(b, 8, 16));
    let asset_count = u32_from_le_bytes(vstd::slice::slice_subrange(b, 16, 20));
    let page_table_offset = u64_from_le_bytes(vstd::slice::slice_subrange(b, 20, 28));
    let page_count = u32_from_le_bytes(vstd::slice::slice_subrange(b, 28, 32));
    let section_table_offset = u64_from_le_bytes(vstd::slice::slice_subrange(b, 32, 40));
    let section_count = u32_from_le_bytes(vstd::slice::slice_subrange(b, 40, 44));
    let meta_table_offset = u64_from_le_bytes(vstd::slice::slice_subrange(b, 44, 52));
    let key_count = u32_from_le_bytes(vstd::slice::slice_subrange(b, 52, 56));
    let extra_offset = u64_from_le_bytes(vstd::slice::slice_subrange(b, 56, 64));
    let index_hash = u64_from_le_bytes(vstd::slice::slice_subrange(b, 64, 72));
    let magic = u32_from_le_bytes(vstd::slice::slice_subrange(b, 72, 76));
    BBFFooter {
        string_pool_offset,
        asset_table_offset,
        asset_count,
        page_table_offset,
        page_count,
        section_table_offset,
        section_count,
        meta_table_offset,
        key_count,
        extra_offset,
        index_hash,
        magic,
    }
}

/// Decodes the header found at the start of `b`.
pub fn decode_header(b: &[u8]) -> (r: BBFHeader)
    requires
        b@.len() >= HEADER_SIZE,
    ensures
        r == spec_parse_header(b@),
{
    let magic = u32_from_le_bytes(vstd::slice::slice_subrange(b, 0, 4));
    let version = *vstd::slice::slice_index_get(b, 4);
    let flags = u32_from_le_bytes(vstd::slice::slice_subrange(b, 5, 9));
    let header_len = u16_from_le_bytes(vstd::slice::slice_subrange(b, 9, 11));
    let reserved = u64_from_le_bytes(vstd::slice::slice_subrange(b, 11, 19));
    BBFHeader { magic, version, flags, header_len, reserved }
}

/// The byte image of a whole table: its rows' images, packed in order with
/// no implicit padding.
pub open spec fn spec_table_bytes<T>(rows: Seq<T>, enc: spec_fn(T) -> Seq<u8>) -> Seq<u8>
    decreases rows.len(),
{
    if rows.len() == 0 {
        Seq::empty()
    } else {
        enc(rows[0]) + spec_table_bytes(rows.drop_first(), enc)
    }
}

/// Appending a row extends the table image by that row's image.
pub proof fn lemma_table_bytes_push<T>(rows: Seq<T>, enc: spec_fn(T) -> Seq<u8>, r: T)
    ensures
        spec_table_bytes(rows.push(r), enc) == spec_table_bytes(rows, enc) + enc(r),
    decreases rows.len(),
{
    let pushed = rows.push(r);
    assert(pushed.len() > 0);
    assert(spec_table_bytes(pushed, enc) == enc(pushed[0]) + spec_table_bytes(
        pushed.drop_first(),
        enc,
    ));
    if rows.len() == 0 {
        assert(pushed.drop_first() =~= Seq::<T>::empty());
        assert(pushed[0] == r);
        assert(spec_table_bytes(pushed, enc) =~= spec_table_bytes(rows, enc) + enc(r));
    } else {
        lemma_table_bytes_push(rows.drop_first(), enc, r);
        assert(pushed.drop_first() =~= rows.drop_first().push(r));
        assert(pushed[0] == rows[0]);
        assert(spec_table_bytes(rows, enc) == enc(rows[0]) + spec_table_bytes(
            rows.drop_first(),
            enc,
        ));
        assert(spec_table_bytes(pushed, enc) =~= spec_table_bytes(rows, enc) + enc(r));
    }
}

/// A table of uniformly `size`-byte rows is `size * rows.len()` bytes long.
pub proof fn lemma_table_bytes_len<T>(rows: Seq<T>, enc: spec_fn(T) -> Seq<u8>, size: nat)
    requires
        forall|i: int| 0 <= i < rows.len() ==> (#[trigger] enc(rows[i])).len() == size,
    ensures
        spec_table_bytes(rows, enc).len() == size * rows.len(),
    decreases rows.len(),
{
    if rows.len() == 0 {
    } else {
        assert(forall|i: int|
            0 <= i < rows.drop_first().len() ==> (#[trigger] enc(rows.drop_first()[i])).len()
                == size);
        lemma_table_bytes_len(rows.drop_first(), enc, size);
        assert(enc(rows[0]).len() == size);
        assert(size + size * (rows.len() - 1) == size * rows.len()) by (nonlinear_arith);
    }
}

/// Row `i` of a packed table sits exactly at `[size * i, size * (i + 1))`.
pub proof fn lemma_table_bytes_row<T>(rows: Seq<T>, enc: spec_fn(T) -> Seq<u8>, size: nat, i: int)
    requires
        forall|j: int| 0 <= j < rows.len() ==> (#[trigger] enc(rows[j])).len() == size,
        0 <= i < rows.len(),
    ensures
        spec_table_bytes(rows, enc).subrange(size * i, size * (i + 1)) == enc(rows[i]),
    decreases i,
{
    lemma_table_bytes_len(rows, enc, size);
    assert(size * i >= 0 && size * (i + 1) <= size * rows.len() && size * i + size == size * (i
        + 1)) by (nonlinear_arith)
        requires
            0 <= i < rows.len(),
    ;
    let all = spec_table_bytes(rows, enc);
    let rest = spec_table_bytes(rows.drop_first(), enc);
    assert(forall|j: int|
        0 <= j < rows.drop_first().len() ==> (#[trigger] enc(rows.drop_first()[j])).len() == size);
    lemma_table_bytes_len(rows.drop_first(), enc, size);
    assert(all == enc(rows[0]) + rest);
    assert(enc(rows[0]).len() == size);
    if i == 0 {
        assert(size * i == 0 && size * (i + 1) == size) by (nonlinear_arith)
            requires
                i == 0,
        ;
        assert(all.subrange(0, size as int) =~= enc(rows[0]));
        assert(all.subrange(size * i, size * (i + 1)) == enc(rows[i]));
    } else {
        lemma_table_bytes_row(rows.drop_first(), enc, size, i - 1);
        assert(size * (i - 1) == size * i - size && size * ((i - 1) + 1) == size * (i + 1) - size
            && size * i <= size * (rows.len() - 1) && size * (i - 1) >= 0) by (nonlinear_arith)
            requires
                size >= 0 && 1 <= i < rows.len(),
        ;
        assert(rest.len() == size * (rows.len() - 1));
        assert(all.subrange(size * i, size * (i + 1)) =~= rest.subrange(
            size * i - size,
            size * (i + 1) - size,
        ));
        assert(rows.drop_first()[i - 1] == rows[i]);
        assert(rest.subrange(size * (i - 1), size * ((i - 1) + 1)) == enc(rows.drop_first()[i
            - 1]));
        assert(rest.subrange(size * i - size, size * (i + 1) - size) == enc(rows[i]));
        assert(all.subrange(size * i, size * (i + 1)) == enc(rows[i]));
    }
}

/// The row encoders, as named spec-level functions, so that table images can
/// be written `spec_table_bytes(rows, asset_row_enc())` everywhere.
pub open spec fn asset_row_enc() -> spec_fn(BBFAssetEntry) -> Seq<u8> {
    |e: BBFAssetEntry| spec_asset_entry_bytes(e)
}

pub open spec fn page_row_enc() -> spec_fn(BBFPageEntry) -> Seq<u8> {
    |e: BBFPageEntry| spec_page_entry_bytes(e)
}

pub open spec fn section_row_enc() -> spec_fn(BBFSection) -> Seq<u8> {
    |e: BBFSection| spec_section_bytes(e)
}

pub open spec fn metadata_row_enc() -> spec_fn(BBFMetadata) -> Seq<u8> {
    |e: BBFMetadata| spec_metadata_bytes(e)
}

/// Every asset row image is `ASSET_ENTRY_SIZE` bytes.
pub proof fn lemma_asset_rows_uniform(rows: Seq<BBFAssetEntry>)
    ensures
        forall|i: int|
            0 <= i < rows.len() ==> (#[trigger] asset_row_enc()(rows[i])).len()
                == ASSET_ENTRY_SIZE,
{
    assert forall|i: int| 0 <= i < rows.len() implies (#[trigger] asset_row_enc()(rows[i])).len()
        == ASSET_ENTRY_SIZE by {
        lemma_asset_entry_roundtrip(rows[i]);
    }
}

/// Every page row image is `PAGE_ENTRY_SIZE` bytes.
pub proof fn lemma_page_rows_uniform(rows: Seq<BBFPageEntry>)
    ensures
        forall|i: int|
            0 <= i < rows.len() ==> (#[trigger] page_row_enc()(rows[i])).len() == PAGE_ENTRY_SIZE,
{
    assert forall|i: int| 0 <= i < rows.len() implies (#[trigger] page_row_enc()(rows[i])).len()
        == PAGE_ENTRY_SIZE by {
        lemma_page_entry_roundtrip(rows[i]);
    }
}

/// Every section row image is `SECTION_SIZE` bytes.
pub proof fn lemma_section_rows_uniform(rows: Seq<BBFSection>)
    ensures
        forall|i: int|
            0 <= i < rows.len() ==> (#[trigger] section_row_enc()(rows[i])).len() == SECTION_SIZE,
{
    assert forall|i: int| 0 <= i < rows.len() implies (#[trigger] section_row_enc()(rows[i])).len()
        == SECTION_SIZE by {
        lemma_section_roundtrip(rows[i]);
    }
}

/// Every metadata row image is `METADATA_SIZE` bytes.
pub proof fn lemma_metadata_rows_uniform(rows: Seq<BBFMetadata>)
    ensures
        forall|i: int|
            0 <= i < rows.len() ==> (#[trigger] metadata_row_enc()(rows[i])).len()
                == METADATA_SIZE,
{
    assert forall|i: int| 0 <= i < rows.len() implies (#[trigger] metadata_row_enc()(
        rows[i],
    )).len() == METADATA_SIZE by {
        lemma_metadata_roundtrip(rows[i]);
    }
}

/// Appends the packed images of all asset rows to `out`.
pub fn encode_asset_table(rows: &Vec<BBFAssetEntry>, out: &mut Vec<u8>)
    ensures
        final(out)@ == old(out)@ + spec_table_bytes(rows@, asset_row_enc()),
{
    let mut i: usize = 0;
    while i < rows.len()
        invariant
            i <= rows.len(),
            out@ == old(out)@ + spec_table_bytes(rows@.take(i as int), asset_row_enc()),
        decreases rows.len() - i,
    {
        encode_asset_entry(&rows[i], out);
        proof {
            lemma_table_bytes_push(rows@.take(i as int), asset_row_enc(), rows@[i as int]);
            assert(rows@.take(i as int).push(rows@[i as int]) =~= rows@.take(i + 1));
        }
        i = i + 1;
    }
    proof {
        assert(rows@.take(rows@.len() as int) =~= rows@);
    }
}

/// Appends the packed images of all page rows to `out`.
pub fn encode_page_table(rows: &Vec<BBFPageEntry>, out: &mut Vec<u8>)
    ensures
        final(out)@ == old(out)@ + spec_table_bytes(rows@, page_row_enc()),
{
    let mut i: usize = 0;
    while i < rows.len()
        invariant
            i <= rows.len(),
            out@ == old(out)@ + spec_table_bytes(rows@.take(i as int), page_row_enc()),
        decreases rows.len() - i,
    {
        encode_page_entry(&rows[i], out);
        proof {
            lemma_table_bytes_push(rows@.take(i as int), page_row_enc(), rows@[i as int]);
            assert(rows@.take(i as int).push(rows@[i as int]) =~= rows@.take(i + 1));
        }
        i = i + 1;
    }
    proof {
        assert(rows@.take(rows@.len() as int) =~= rows@);
    }
}

/// Appends the packed images of all section rows to `out`.
pub fn encode_section_table(rows: &Vec<BBFSection>, out: &mut Vec<u8>)
    ensures
        final(out)@ == old(out)@ + spec_table_bytes(rows@, section_row_enc()),
{
    let mut i: usize = 0;
    while i < rows.len()
        invariant
            i <= rows.len(),
            out@ == old(out)@ + spec_table_bytes(rows@.take(i as int), section_row_enc()),
        decreases rows.len() - i,
    {
        encode_section(&rows[i], out);
        proof {
            lemma_table_bytes_push(rows@.take(i as int), section_row_enc(), rows@[i as int]);
            assert(rows@.take(i as int).push(rows@[i as int]) =~= rows@.take(i + 1));
        }
        i = i + 1;
    }
    proof {
        assert(rows@.take(rows@.len() as int) =~= rows@);
    }
}

/// Appends the packed images of all metadata rows to `out`.
pub fn encode_metadata_table(rows: &Vec<BBFMetadata>, out: &mut Vec<u8>)
    ensures
        final(out)@ == old(out)@ + spec_table_bytes(rows@, metadata_row_enc()),
{
    let mut i: usize = 0;
    while i < rows.len()
        invariant
            i <= rows.len(),
            out@ == old(out)@ + spec_table_bytes(rows@.take(i as int), metadata_row_enc()),
        decreases rows.len() - i,
    {
        encode_metadata(&rows[i], out);
        proof {
            lemma_table_bytes_push(rows@.take(i as int), metadata_row_enc(), rows@[i as int]);
            assert(rows@.take(i as int).push(rows@[i as int]) =~= rows@.take(i + 1));
        }
        i = i + 1;
    }
    proof {
        assert(rows@.take(rows@.len() as int) =~= rows@);
    }
}

} // verus!

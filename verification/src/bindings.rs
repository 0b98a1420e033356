//! Types for host layers that cannot express Rust ownership transfer: a
//! builder held in an explicit owned-or-empty slot, so that finalizing takes
//! the inner value atomically and any later call observes a distinct
//! "already finalized" error instead of reused state; and an owned reader
//! over a byte buffer.

use crate::builder::spec_add_page;
use crate::builder::spec_file_bytes;
use crate::builder::spec_new_builder;
use crate::builder::spec_total_size;
use crate::builder::BBFBuilder;
use crate::builder::WIRE_MAX;
use crate::layout::spec_media_code;
use crate::layout::BBFMediaType;
use crate::reader::spec_open_result;
use crate::reader::BBFError;
use crate::reader::BBFReader;
use vstd::prelude::*;

verus! {

/// Errors surfaced across a host boundary.
#[derive(Debug)]
pub enum BbfError {
    /// A sink or source failed (raised only by host code around the core).
    Io(String),
    /// The buffer is not a valid BBF file; carries the structural reason.
    Parse(String),
    /// The builder was already consumed by `finalize`.
    AlreadyFinalized,
}

/// The media type tag as a host layer names it.
#[derive(Clone, Copy, PartialEq, Eq, Structural, Debug)]
pub enum MediaType {
    Unknown,
    Avif,
    Png,
    Webp,
    Jxl,
    Bmp,
    Gif,
    Tiff,
    Jpg,
}

/// The core tag that a host-layer tag stands for.
pub open spec fn spec_media_of(t: MediaType) -> BBFMediaType {
    match t {
        MediaType::Unknown => BBFMediaType::Unknown,
        MediaType::Avif => BBFMediaType::Avif,
        MediaType::Png => BBFMediaType::Png,
        MediaType::Webp => BBFMediaType::Webp,
        MediaType::Jxl => BBFMediaType::Jxl,
        MediaType::Bmp => BBFMediaType::Bmp,
        MediaType::Gif => BBFMediaType::Gif,
        MediaType::Tiff => BBFMediaType::Tiff,
        MediaType::Jpg => BBFMediaType::Jpg,
    }
}

impl From<MediaType> for BBFMediaType {
    fn from(val: MediaType) -> (r: BBFMediaType) {
        match val {
            MediaType::Unknown => BBFMediaType::Unknown,
            MediaType::Avif => BBFMediaType::Avif,
            MediaType::Png => BBFMediaType::Png,
            MediaType::Webp => BBFMediaType::Webp,
            MediaType::Jxl => BBFMediaType::Jxl,
            MediaType::Bmp => BBFMediaType::Bmp,
            MediaType::Gif => BBFMediaType::Gif,
            MediaType::Tiff => BBFMediaType::Tiff,
            MediaType::Jpg => BBFMediaType::Jpg,
        }
    }
}

impl vstd::std_specs::convert::FromSpecImpl<MediaType> for BBFMediaType {
    open spec fn obeys_from_spec() -> bool {
        true
    }

    open spec fn from_spec(t: MediaType) -> BBFMediaType {
        spec_media_of(t)
    }
}

/// A builder in an owned-or-empty slot: `finalize` takes the inner value,
/// and every later call observes `AlreadyFinalized`.
pub struct BbfBuilder {
    pub inner: Option<BBFBuilder>,
}

impl BbfBuilder {
    /// A slot is well formed when the builder it still holds is.
    pub open spec fn wf(&self) -> bool {
        self.inner matches Some(b) ==> b@.wf()
    }

    /// A fresh slot holding a fresh builder.
    pub fn new() -> (r: BbfBuilder)
        ensures
            r.wf(),
            (r.inner matches Some(b) && b@ == spec_new_builder()),
    {
        BbfBuilder { inner: Some(BBFBuilder::new()) }
    }

    /// Adds one page through the slot: the inner builder's `add_page`, or
    /// `AlreadyFinalized` once the slot is empty.
    pub fn add_page(&mut self, data: &[u8], media_type: MediaType, flags: u32) -> (r: Result<
        u32,
        BbfError,
    >)
        requires
            old(self).wf(),
            (old(self).inner matches Some(b) ==> b@.assets.len() < WIRE_MAX && b@.pages.len()
                < WIRE_MAX),
        ensures
            final(self).wf(),
            match old(self).inner {
                Some(b) => {
                    let step = spec_add_page(b@, data@, spec_media_code(spec_media_of(media_type)), flags);
                    &&& r == Ok::<u32, BbfError>(step.1)
                    &&& (final(self).inner matches Some(b2) && b2@ == step.0)
                },
                None => r matches Err(e) && e is AlreadyFinalized && final(self).inner is None,
            },
    {
        match &mut self.inner {
            Some(b) => {
                let mt = BBFMediaType::from(media_type);
                Ok(b.add_page(data, mt, flags))
            },
            None => Err(BbfError::AlreadyFinalized),
        }
    }

    /// Finalizes through the slot: consumes the inner builder atomically and
    /// returns the complete file, or `AlreadyFinalized` on a second call.
    pub fn finalize(&mut self) -> (r: Result<Vec<u8>, BbfError>)
        requires
            old(self).wf(),
            (old(self).inner matches Some(b) ==> spec_total_size(b@) <= usize::MAX),
        ensures
            final(self).inner is None,
            final(self).wf(),
            match old(self).inner {
                Some(b) => r matches Ok(bytes) && bytes@ == spec_file_bytes(b@),
                None => r matches Err(e) && e is AlreadyFinalized,
            },
    {
        match self.inner.take() {
            Some(b) => Ok(b.finalize()),
            None => Err(BbfError::AlreadyFinalized),
        }
    }
}

/// An owned validating reader over a byte buffer.
pub struct BbfReader {
    pub inner: BBFReader,
}

impl BbfReader {
    /// Opens `data`, mapping a structural failure to `Parse` with the
    /// failure's description.
    pub fn new(data: Vec<u8>) -> (r: Result<BbfReader, BbfError>)
        ensures
            match spec_open_result(data@) {
                Ok(hf) => match r {
                    Ok(rd) => rd.inner.data@ == data@ && rd.inner.header == hf.0 && rd.inner.footer
                        == hf.1 && rd.inner.wf(),
                    Err(_) => false,
                },
                Err(_) => r is Err,
            },
    {
        match BBFReader::new(data) {
            Ok(inner) => Ok(BbfReader { inner }),
            Err(e) => Err(BbfError::Parse(e.message().to_owned())),
        }
    }

    /// Number of logical pages in the file.
    pub fn get_page_count(&self) -> (r: u32)
        ensures
            r == self.inner.footer.page_count,
    {
        self.inner.page_count()
    }

    /// The payload bytes of the page at `page_index`, as an owned copy; an
    /// index past `page_count` or a corrupt reference is an error, never a
    /// panic.
    pub fn get_page(&self, page_index: u32) -> (r: Result<Vec<u8>, BbfError>)
        requires
            self.inner.wf(),
        ensures
            ({
                if page_index >= self.inner.footer.page_count {
                    r is Err
                } else {
                    let asset = self.inner.spec_page_at(page_index as int).asset_index;
                    match self.inner.spec_get_asset(asset) {
                        Ok(bytes) => r matches Ok(v) && v@ == bytes,
                        Err(_) => r is Err,
                    }
                }
            }),
    {
        if page_index >= self.inner.page_count() {
            return Err(BbfError::Parse(BBFError::OutOfBounds.message().to_owned()));
        }
        let pages = self.inner.pages();
        let page = pages[page_index as usize];
        match self.inner.get_asset(page.asset_index) {
            Ok(slice) => Ok(vstd::slice::slice_to_vec(slice)),
            Err(e) => Err(BbfError::Parse(e.message().to_owned())),
        }
    }
}

} // verus!

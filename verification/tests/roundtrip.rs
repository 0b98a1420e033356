//! Encode-then-decode round trips and deduplication behaviour.

use bbf::builder::BBFBuilder;
use bbf::layout::BBFMediaType;
use bbf::reader::BBFReader;

fn sample_book() -> (Vec<u8>, Vec<Vec<u8>>) {
    let page_a = vec![1u8, 2, 3, 4, 5];
    let page_b = vec![9u8, 9, 9];
    let mut b = BBFBuilder::new();
    let i0 = b.add_page(&page_a, BBFMediaType::Png, 0);
    let i1 = b.add_page(&page_b, BBFMediaType::Jpg, 7);
    let i2 = b.add_page(&page_a, BBFMediaType::Png, 0);
    assert_eq!(i0, 0);
    assert_eq!(i1, 1);
    assert_eq!(i2, 0);
    b.add_section("Ch1", 0, None);
    b.add_section("Ch2", 1, Some(0));
    b.add_metadata("Title", "My Book");
    b.add_metadata("Author", "Someone");
    (b.finalize(), vec![page_a, page_b])
}

#[test]
fn roundtrip_counts_and_mapping() {
    let (file, _) = sample_book();
    let r = BBFReader::new(file).expect("a finalized file must open");
    assert_eq!(r.page_count(), 3);
    assert_eq!(r.asset_count(), 2, "repeated content must deduplicate");
    let pages = r.pages();
    assert_eq!(pages[0].asset_index, 0);
    assert_eq!(pages[1].asset_index, 1);
    assert_eq!(pages[2].asset_index, 0);
    assert_eq!(pages[0].flags, 0);
    assert_eq!(pages[1].flags, 7);
}

#[test]
fn roundtrip_payload_bytes() {
    let (file, originals) = sample_book();
    let r = BBFReader::new(file).unwrap();
    assert_eq!(r.get_asset(0).unwrap(), originals[0].as_slice());
    assert_eq!(r.get_asset(1).unwrap(), originals[1].as_slice());
    // Both pages referencing asset 0 read back the identical bytes.
    let pages = r.pages();
    let via_page0 = r.get_asset(pages[0].asset_index).unwrap().to_vec();
    let via_page2 = r.get_asset(pages[2].asset_index).unwrap().to_vec();
    assert_eq!(via_page0, via_page2);
}

#[test]
fn roundtrip_strings_and_sections() {
    let (file, _) = sample_book();
    let r = BBFReader::new(file).unwrap();
    let sections = r.sections();
    assert_eq!(sections.len(), 2);
    assert_eq!(r.get_string(sections[0].section_title_offset), Some("Ch1"));
    assert_eq!(r.get_string(sections[1].section_title_offset), Some("Ch2"));
    assert_eq!(sections[0].section_start_index, 0);
    assert_eq!(sections[1].section_start_index, 1);
    assert_eq!(sections[0].parent_section_index, 0xFFFF_FFFF);
    assert_eq!(sections[1].parent_section_index, 0);
    let metadata = r.metadata();
    assert_eq!(metadata.len(), 2);
    assert_eq!(r.get_string(metadata[0].key_offset), Some("Title"));
    assert_eq!(r.get_string(metadata[0].val_offset), Some("My Book"));
    assert_eq!(r.get_string(metadata[1].key_offset), Some("Author"));
    assert_eq!(r.get_string(metadata[1].val_offset), Some("Someone"));
    let titles = r.section_titles();
    assert_eq!(titles[0], ("Ch1".to_string(), 0));
    assert_eq!(titles[1], ("Ch2".to_string(), 1));
}

#[test]
fn roundtrip_unicode_strings() {
    let mut b = BBFBuilder::new();
    b.add_page(&[0u8], BBFMediaType::Unknown, 0);
    b.add_section("Chapitre premier — été", 0, None);
    b.add_metadata("タイトル", "本");
    let r = BBFReader::new(b.finalize()).unwrap();
    let sections = r.sections();
    assert_eq!(
        r.get_string(sections[0].section_title_offset),
        Some("Chapitre premier — été")
    );
    let metadata = r.metadata();
    assert_eq!(r.get_string(metadata[0].key_offset), Some("タイトル"));
    assert_eq!(r.get_string(metadata[0].val_offset), Some("本"));
}

#[test]
fn dedup_idempotence() {
    let payload = vec![42u8; 100];
    let mut b = BBFBuilder::new();
    let first = b.add_page(&payload, BBFMediaType::Png, 0);
    let before = b.assets.len();
    let second = b.add_page(&payload, BBFMediaType::Png, 1);
    assert_eq!(first, second, "identical content must reuse the asset");
    assert_eq!(b.assets.len(), before, "a repeat never adds an asset");
    assert_eq!(b.pages.len(), 2, "a repeat still adds a page row");
    let r = BBFReader::new(b.finalize()).unwrap();
    assert_eq!(r.asset_count(), 1);
    assert_eq!(r.page_count(), 2);
}

#[test]
fn string_interning_reuses_offsets() {
    let mut b = BBFBuilder::new();
    b.add_page(&[1u8], BBFMediaType::Unknown, 0);
    b.add_metadata("same", "same");
    b.add_metadata("same", "other");
    let r = BBFReader::new(b.finalize()).unwrap();
    let metadata = r.metadata();
    assert_eq!(
        metadata[0].key_offset, metadata[0].val_offset,
        "byte-identical strings intern to one pool offset"
    );
    assert_eq!(metadata[0].key_offset, metadata[1].key_offset);
    assert_ne!(metadata[1].key_offset, metadata[1].val_offset);
}

#[test]
fn payloads_are_aligned() {
    let mut b = BBFBuilder::new();
    b.add_page(&[1u8, 2], BBFMediaType::Png, 0);
    b.add_page(&[3u8, 4], BBFMediaType::Png, 0);
    let r = BBFReader::new(b.finalize()).unwrap();
    for a in r.assets() {
        assert_eq!(a.offset % 4096, 0, "every new asset starts aligned");
    }
}

#[test]
fn empty_book_roundtrip() {
    let b = BBFBuilder::new();
    let file = b.finalize();
    let r = BBFReader::new(file).unwrap();
    assert_eq!(r.page_count(), 0);
    assert_eq!(r.asset_count(), 0);
    assert!(r.verify_directory());
    assert!(r.sections().is_empty());
    assert!(r.metadata().is_empty());
}

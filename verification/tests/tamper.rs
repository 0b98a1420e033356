//! Tamper detection: the per-asset content hashes and the directory hash
//! cover disjoint byte ranges, so payload corruption and index corruption
//! are detected independently.

use bbf::builder::BBFBuilder;
use bbf::layout::BBFMediaType;
use bbf::layout::FOOTER_SIZE;
use bbf::reader::BBFReader;

fn two_asset_file() -> Vec<u8> {
    let mut b = BBFBuilder::new();
    b.add_page(&[10u8, 20, 30, 40], BBFMediaType::Png, 0);
    b.add_page(&[50u8, 60, 70], BBFMediaType::Jpg, 0);
    b.add_section("Body", 0, None);
    b.add_metadata("k", "v");
    b.finalize()
}

#[test]
fn untampered_file_passes_all_checks() {
    let r = BBFReader::new(two_asset_file()).unwrap();
    assert!(r.verify_directory());
    assert_eq!(r.verify_asset(0), Ok(true));
    assert_eq!(r.verify_asset(1), Ok(true));
}

#[test]
fn recorded_hash_is_the_content_hash() {
    let r = BBFReader::new(two_asset_file()).unwrap();
    for (i, a) in r.assets().iter().enumerate() {
        let payload = r.get_asset(i as u32).unwrap();
        assert_eq!(a.xxh3_hash, xxhash_rust::xxh3::xxh3_64(payload));
        assert_ne!(a.xxh3_hash, 0, "the digest is not the input handed back");
    }
    let file = two_asset_file();
    let region = &file[r.footer.string_pool_offset as usize..file.len() - FOOTER_SIZE];
    assert_eq!(r.footer.index_hash, xxhash_rust::xxh3::xxh3_64(region));
}

#[test]
fn payload_flip_fails_only_that_asset() {
    let mut file = two_asset_file();
    let r = BBFReader::new(file.clone()).unwrap();
    let assets = r.assets();
    let flip_at = assets[0].offset as usize;
    file[flip_at] ^= 0xFF;
    let r2 = BBFReader::new(file).unwrap();
    assert_eq!(r2.verify_asset(0), Ok(false), "the tampered asset fails");
    assert_eq!(r2.verify_asset(1), Ok(true), "the other asset is unaffected");
    assert!(r2.verify_directory(), "payload bytes are outside the directory hash");
}

#[test]
fn index_flip_fails_directory_hash() {
    let mut file = two_asset_file();
    let r = BBFReader::new(file.clone()).unwrap();
    let pool_at = r.footer.string_pool_offset as usize;
    file[pool_at] ^= 0xFF;
    let r2 = BBFReader::new(file).unwrap();
    assert!(!r2.verify_directory(), "pool corruption breaks the directory hash");
    assert_eq!(r2.verify_asset(0), Ok(true), "payloads are unaffected");
    assert_eq!(r2.verify_asset(1), Ok(true));
}

#[test]
fn table_flip_fails_directory_hash() {
    let mut file = two_asset_file();
    let r = BBFReader::new(file.clone()).unwrap();
    // Flip a byte inside the page table (the flags field of page row 0).
    let at = r.footer.page_table_offset as usize + 4;
    file[at] ^= 0x01;
    let r2 = BBFReader::new(file).unwrap();
    assert!(!r2.verify_directory());
}

#[test]
fn invalid_utf8_in_pool_reads_as_none() {
    let mut file = two_asset_file();
    let r = BBFReader::new(file.clone()).unwrap();
    let sections = r.sections();
    let title_at = r.footer.string_pool_offset as usize
        + sections[0].section_title_offset as usize;
    file[title_at] = 0xFF;
    let r2 = BBFReader::new(file).unwrap();
    let sections2 = r2.sections();
    assert_eq!(
        r2.get_string(sections2[0].section_title_offset),
        None,
        "bytes that are not UTF-8 are refused, never a panic"
    );
}

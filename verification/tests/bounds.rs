//! Bounds safety on corrupted or adversarial files: every failure is a
//! reported error, never a panic or an out-of-bounds read.

use bbf::builder::BBFBuilder;
use bbf::layout::BBFMediaType;
use bbf::layout::FOOTER_SIZE;
use bbf::layout::HEADER_SIZE;
use bbf::reader::BBFError;
use bbf::reader::BBFReader;

fn small_file() -> Vec<u8> {
    let mut b = BBFBuilder::new();
    b.add_page(&[1u8, 2, 3], BBFMediaType::Png, 0);
    b.finalize()
}

#[test]
fn empty_buffer_is_too_short() {
    assert_eq!(BBFReader::new(Vec::new()).err(), Some(BBFError::FileTooShort));
}

#[test]
fn short_buffer_is_too_short() {
    let buf = vec![0u8; HEADER_SIZE + FOOTER_SIZE - 1];
    assert_eq!(BBFReader::new(buf).err(), Some(BBFError::FileTooShort));
}

#[test]
fn bad_header_magic() {
    let mut file = small_file();
    file[0] ^= 0xFF;
    assert_eq!(BBFReader::new(file).err(), Some(BBFError::InvalidMagic));
}

#[test]
fn bad_footer_magic() {
    let mut file = small_file();
    let at = file.len() - 1;
    file[at] ^= 0xFF;
    assert_eq!(BBFReader::new(file).err(), Some(BBFError::InvalidMagic));
}

#[test]
fn implausible_asset_count_is_rejected() {
    let mut file = small_file();
    // The asset count sits 16 bytes into the footer.
    let at = file.len() - FOOTER_SIZE + 16;
    file[at] = 0xFF;
    file[at + 1] = 0xFF;
    file[at + 2] = 0xFF;
    file[at + 3] = 0xFF;
    assert_eq!(BBFReader::new(file).err(), Some(BBFError::FileTooShort));
}

#[test]
fn huge_table_offset_overflows_safely() {
    let mut file = small_file();
    // The page table offset sits 20 bytes into the footer; set it near
    // u64::MAX so that offset + count * row_size overflows 64 bits.
    let at = file.len() - FOOTER_SIZE + 20;
    for k in 0..8 {
        file[at + k] = 0xFF;
    }
    // Give it a nonzero page count too (offset 28).
    let at_count = file.len() - FOOTER_SIZE + 28;
    file[at_count] = 2;
    let err = BBFReader::new(file).err();
    assert!(
        err == Some(BBFError::TableError) || err == Some(BBFError::FileTooShort),
        "overflow is caught, never wrapped: {err:?}"
    );
}

#[test]
fn pool_after_tables_is_a_table_error() {
    let mut file = small_file();
    // string_pool_offset is the first footer field; push it past the asset
    // table offset.
    let at = file.len() - FOOTER_SIZE;
    for k in 0..8 {
        file[at + k] = 0xFE;
    }
    assert_eq!(BBFReader::new(file).err(), Some(BBFError::TableError));
}

#[test]
fn asset_index_out_of_bounds() {
    let r = BBFReader::new(small_file()).unwrap();
    assert_eq!(r.get_asset(1).err(), Some(BBFError::OutOfBounds));
    assert_eq!(r.get_asset(u32::MAX).err(), Some(BBFError::OutOfBounds));
    assert_eq!(r.verify_asset(5).err(), Some(BBFError::OutOfBounds));
}

#[test]
fn string_offset_out_of_bounds_is_none() {
    let r = BBFReader::new(small_file()).unwrap();
    assert_eq!(r.get_string(u32::MAX), None);
}

#[test]
fn corrupt_asset_row_range_is_reported() {
    let mut file = small_file();
    let r = BBFReader::new(file.clone()).unwrap();
    // Point asset 0's offset past the end of the file.
    let row = r.footer.asset_table_offset as usize;
    for k in 0..8 {
        file[row + k] = 0xFE;
    }
    let r2 = BBFReader::new(file).unwrap();
    let err = r2.get_asset(0).err();
    assert!(
        err == Some(BBFError::FileTooShort) || err == Some(BBFError::OutOfBounds),
        "lazy payload bounds are checked: {err:?}"
    );
}

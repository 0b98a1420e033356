//! The consumed-once builder slot and the owned reader for host layers.

use bbf::bindings::BbfBuilder;
use bbf::bindings::BbfError;
use bbf::bindings::BbfReader;
use bbf::bindings::MediaType;

#[test]
fn slot_builds_and_finalizes_once() {
    let mut b = BbfBuilder::new();
    assert_eq!(b.add_page(&[1u8, 2], MediaType::Png, 0).unwrap(), 0);
    assert_eq!(b.add_page(&[3u8], MediaType::Jpg, 0).unwrap(), 1);
    assert_eq!(b.add_page(&[1u8, 2], MediaType::Png, 0).unwrap(), 0);
    let file = b.finalize().expect("first finalize succeeds");
    assert!(matches!(b.finalize(), Err(BbfError::AlreadyFinalized)));
    assert!(matches!(
        b.add_page(&[9u8], MediaType::Png, 0),
        Err(BbfError::AlreadyFinalized)
    ));
    let r = BbfReader::new(file).unwrap();
    assert_eq!(r.get_page_count(), 3);
}

#[test]
fn owned_reader_reads_pages() {
    let mut b = BbfBuilder::new();
    b.add_page(&[7u8, 8, 9], MediaType::Png, 0).unwrap();
    b.add_page(&[1u8], MediaType::Gif, 0).unwrap();
    let file = b.finalize().unwrap();
    let r = BbfReader::new(file).unwrap();
    assert_eq!(r.get_page(0).unwrap(), vec![7u8, 8, 9]);
    assert_eq!(r.get_page(1).unwrap(), vec![1u8]);
    assert!(matches!(r.get_page(2), Err(BbfError::Parse(_))));
}

#[test]
fn owned_reader_rejects_garbage() {
    assert!(matches!(BbfReader::new(vec![0u8; 4]), Err(BbfError::Parse(_))));
}

//! The media type tag set: wire codes and file-name extensions.

use bbf::layout::BBFMediaType;
use bbf::planner::parse_i32;
use bbf::planner::parse_u32;

#[test]
fn codes_roundtrip() {
    let all = [
        BBFMediaType::Unknown,
        BBFMediaType::Avif,
        BBFMediaType::Png,
        BBFMediaType::Webp,
        BBFMediaType::Jxl,
        BBFMediaType::Bmp,
        BBFMediaType::Gif,
        BBFMediaType::Tiff,
        BBFMediaType::Jpg,
    ];
    for t in all {
        assert_eq!(BBFMediaType::from_code(t.as_code()), t);
    }
    assert_eq!(BBFMediaType::Png.as_code(), 0x02);
    assert_eq!(BBFMediaType::Jpg.as_code(), 0x09);
}

#[test]
fn unknown_codes_decode_totally() {
    assert_eq!(BBFMediaType::from_code(0x06), BBFMediaType::Unknown, "0x06 is a reserved gap");
    assert_eq!(BBFMediaType::from_code(0x0A), BBFMediaType::Unknown);
    assert_eq!(BBFMediaType::from_code(0xFF), BBFMediaType::Unknown);
    assert_eq!(BBFMediaType::from_code(0x00), BBFMediaType::Unknown);
}

#[test]
fn extensions_decode_case_insensitively() {
    assert_eq!(BBFMediaType::from_extension(".png"), BBFMediaType::Png);
    assert_eq!(BBFMediaType::from_extension(".PNG"), BBFMediaType::Png);
    assert_eq!(BBFMediaType::from_extension(".JpEg"), BBFMediaType::Jpg);
    assert_eq!(BBFMediaType::from_extension(".jpg"), BBFMediaType::Jpg);
    assert_eq!(BBFMediaType::from_extension(".avif"), BBFMediaType::Avif);
    assert_eq!(BBFMediaType::from_extension(".webp"), BBFMediaType::Webp);
    assert_eq!(BBFMediaType::from_extension(".jxl"), BBFMediaType::Jxl);
    assert_eq!(BBFMediaType::from_extension(".bmp"), BBFMediaType::Bmp);
    assert_eq!(BBFMediaType::from_extension(".gif"), BBFMediaType::Gif);
    assert_eq!(BBFMediaType::from_extension(".TIFF"), BBFMediaType::Tiff);
    assert_eq!(BBFMediaType::from_extension("png"), BBFMediaType::Unknown, "the dot is part of the extension");
    assert_eq!(BBFMediaType::from_extension(".txt"), BBFMediaType::Unknown);
    assert_eq!(BBFMediaType::from_extension(""), BBFMediaType::Unknown);
}

#[test]
fn extensions_encode() {
    assert_eq!(BBFMediaType::Png.as_extension(), ".png");
    assert_eq!(BBFMediaType::Jpg.as_extension(), ".jpg");
    assert_eq!(BBFMediaType::Tiff.as_extension(), ".tiff");
    assert_eq!(BBFMediaType::Unknown.as_extension(), ".bin");
}

#[test]
fn number_parsing_matches_std() {
    for s in ["0", "42", "007", "+5", "-7", "2147483647", "-2147483648", "2147483648",
        "-2147483649", "", "-", "+", "abc", "1a", " 1", "4294967295", "4294967296"] {
        assert_eq!(parse_i32(s), s.parse::<i32>().ok(), "i32 {s:?}");
        assert_eq!(parse_u32(s), s.parse::<u32>().ok(), "u32 {s:?}");
    }
    // A long run of leading zeros is still in range.
    assert_eq!(parse_i32("00000000000000000012"), Some(12));
    assert_eq!(parse_u32("000000000004294967295"), Some(u32::MAX));
}

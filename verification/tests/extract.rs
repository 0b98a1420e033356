//! Section resolution and extraction-range resolution.

use bbf::builder::BBFBuilder;
use bbf::layout::BBFMediaType;
use bbf::planner::parse_meta_string;
use bbf::planner::parse_section_string;
use bbf::planner::resolve_extract_range;
use bbf::planner::resolve_sections;
use bbf::planner::trim_quotes;
use bbf::planner::SectionReq;
use bbf::reader::BBFReader;

fn secs(list: &[(&str, u32)]) -> Vec<(String, u32)> {
    list.iter().map(|(t, s)| (t.to_string(), *s)).collect()
}

#[test]
fn section_extraction_scenario() {
    let sections = secs(&[("Ch1", 1), ("Ch2", 5)]);
    assert_eq!(resolve_extract_range(&sections, 10, "Ch1", None), Some((1, 5)));
    assert_eq!(resolve_extract_range(&sections, 10, "Ch2", None), Some((5, 10)));
}

#[test]
fn missing_section_yields_none() {
    let sections = secs(&[("Ch1", 1)]);
    assert_eq!(resolve_extract_range(&sections, 10, "Ch9", None), None);
    assert_eq!(resolve_extract_range(&Vec::new(), 10, "Ch1", None), None);
}

#[test]
fn range_key_picks_the_boundary() {
    let sections = secs(&[("Part I", 0), ("I.1", 2), ("I.2", 4), ("Part II", 6)]);
    // With a range key, the boundary is the next title containing it.
    assert_eq!(
        resolve_extract_range(&sections, 12, "Part I", Some("Part")),
        Some((0, 6))
    );
    // An empty range key falls back to "next strictly greater start".
    assert_eq!(
        resolve_extract_range(&sections, 12, "Part I", Some("")),
        Some((0, 2))
    );
    // No qualifying boundary runs to the end of the book.
    assert_eq!(
        resolve_extract_range(&sections, 12, "Part II", Some("Part")),
        Some((6, 12))
    );
}

#[test]
fn equal_start_sections_do_not_bound_each_other() {
    let sections = secs(&[("A", 3), ("B", 3), ("C", 8)]);
    assert_eq!(resolve_extract_range(&sections, 10, "A", None), Some((3, 8)));
}

#[test]
fn parse_section_directives() {
    let r = parse_section_string("Intro:5");
    assert_eq!(r.name, "Intro");
    assert_eq!(r.target, "5");
    assert_eq!(r.parent, "");
    assert!(!r.is_filename);

    let r = parse_section_string("Maps:m01.png:Intro");
    assert_eq!(r.name, "Maps");
    assert_eq!(r.target, "m01.png");
    assert_eq!(r.parent, "Intro");
    assert!(r.is_filename);

    let r = parse_section_string("\"The \"\"End\":\"9\"");
    assert_eq!(r.name, "The \"\"End");
    assert_eq!(r.target, "9");
    assert!(!r.is_filename);

    let r = parse_section_string("OnlyName");
    assert_eq!(r.name, "OnlyName");
    assert_eq!(r.target, "1");
    assert!(!r.is_filename);
}

#[test]
fn resolve_sections_against_file_map() {
    let file_map = vec![
        ("a.png".to_string(), 0u32),
        ("b.png".to_string(), 1u32),
        ("c.png".to_string(), 2u32),
    ];
    let reqs = vec![
        parse_section_string("Front:a.png"),
        parse_section_string("Body:2:Front"),
        parse_section_string("Maps:c.png:Body"),
        parse_section_string("Lost:zz.png:Nowhere"),
    ];
    let planned = resolve_sections(&reqs, &file_map);
    assert_eq!(planned.len(), 4);
    assert_eq!(planned[0].title, "Front");
    assert_eq!(planned[0].start_page, 0);
    assert_eq!(planned[0].parent, None);
    assert!(planned[0].target_found);
    // A numeric target is a 1-based page number.
    assert_eq!(planned[1].start_page, 1);
    assert_eq!(planned[1].parent, Some(0));
    assert_eq!(planned[2].start_page, 2);
    assert_eq!(planned[2].parent, Some(1));
    // An unresolvable filename defaults to page 0 and is flagged.
    assert_eq!(planned[3].start_page, 0);
    assert!(!planned[3].target_found);
    // A parent name never defined resolves to none.
    assert_eq!(planned[3].parent, None);
}

#[test]
fn parent_references_are_backward_only() {
    let reqs = vec![
        parse_section_string("A:1:B"),
        parse_section_string("B:2"),
        parse_section_string("C:3:B"),
    ];
    let planned = resolve_sections(&reqs, &Vec::new());
    assert_eq!(planned[0].parent, None, "forward references are not resolved");
    assert_eq!(planned[2].parent, Some(1));
}

#[test]
fn numeric_target_clamps_to_page_one() {
    let reqs = vec![
        parse_section_string("Z:0"),
        parse_section_string("Y:007"),
    ];
    let planned = resolve_sections(&reqs, &Vec::new());
    assert_eq!(planned[0].start_page, 0);
    assert_eq!(planned[1].start_page, 6);
}

#[test]
fn meta_directives() {
    assert_eq!(
        parse_meta_string("Title:My Book"),
        Some(("Title".to_string(), "My Book".to_string()))
    );
    assert_eq!(
        parse_meta_string("\"k\":\"v:w\""),
        Some(("k".to_string(), "v:w".to_string()))
    );
    assert_eq!(parse_meta_string("no colon here"), None);
}

#[test]
fn trim_quotes_cases() {
    assert_eq!(trim_quotes("\"abc\""), "abc");
    assert_eq!(trim_quotes("abc"), "abc");
    assert_eq!(trim_quotes("\"abc"), "\"abc");
    assert_eq!(trim_quotes("\""), "\"");
    assert_eq!(trim_quotes("\"\""), "");
}

#[test]
fn extraction_end_to_end() {
    let mut b = BBFBuilder::new();
    for i in 0..10u8 {
        b.add_page(&[i], BBFMediaType::Png, 0);
    }
    b.add_section("Ch1", 1, None);
    b.add_section("Ch2", 5, None);
    let r = BBFReader::new(b.finalize()).unwrap();
    let titles = r.section_titles();
    assert_eq!(
        resolve_extract_range(&titles, r.page_count(), "Ch1", None),
        Some((1, 5))
    );
    assert_eq!(
        resolve_extract_range(&titles, r.page_count(), "Ch2", None),
        Some((5, 10))
    );
}

#[test]
fn section_req_fields_build() {
    let req = SectionReq {
        name: "N".to_string(),
        target: "t.png".to_string(),
        parent: "".to_string(),
        is_filename: true,
    };
    let planned = resolve_sections(&vec![req], &vec![("t.png".to_string(), 4u32)]);
    assert_eq!(planned[0].start_page, 4);
}

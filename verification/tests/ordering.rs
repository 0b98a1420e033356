//! The page ordering algorithm and the order-directive parsing.

use bbf::planner::add_to_manifest;
use bbf::planner::compare_pages;
use bbf::planner::parse_order_line;
use bbf::planner::sort_pages;
use bbf::planner::PagePlan;
use std::cmp::Ordering;

fn plan(name: &str, order: i32) -> PagePlan {
    PagePlan { filename: name.to_string(), order }
}

fn names(v: &[PagePlan]) -> Vec<String> {
    v.iter().map(|p| p.filename.clone()).collect()
}

#[test]
fn ordering_scenario() {
    let mut v = vec![plan("b.png", 0), plan("a.png", 0), plan("c.png", 1), plan("d.png", -1)];
    sort_pages(&mut v);
    assert_eq!(names(&v), vec!["c.png", "a.png", "b.png", "d.png"]);
}

#[test]
fn ranked_before_unranked_before_pinned() {
    let mut v = vec![
        plan("z", -5),
        plan("m", 0),
        plan("x", 3),
        plan("y", -1),
        plan("a", 0),
        plan("w", 1),
    ];
    sort_pages(&mut v);
    assert_eq!(names(&v), vec!["w", "x", "a", "m", "z", "y"]);
}

#[test]
fn compare_pages_cases() {
    assert_eq!(compare_pages(&plan("a", 1), &plan("b", 2)), Ordering::Less);
    assert_eq!(compare_pages(&plan("a", 2), &plan("b", 2)), Ordering::Equal);
    assert_eq!(compare_pages(&plan("a", 3), &plan("b", 2)), Ordering::Greater);
    assert_eq!(compare_pages(&plan("a", 1), &plan("b", 0)), Ordering::Less);
    assert_eq!(compare_pages(&plan("a", 0), &plan("b", 1)), Ordering::Greater);
    assert_eq!(compare_pages(&plan("a", 0), &plan("b", 0)), Ordering::Less);
    assert_eq!(compare_pages(&plan("b", 0), &plan("a", 0)), Ordering::Greater);
    assert_eq!(compare_pages(&plan("a", 0), &plan("a", 0)), Ordering::Equal);
    assert_eq!(compare_pages(&plan("a", 0), &plan("b", -1)), Ordering::Less);
    assert_eq!(compare_pages(&plan("a", -1), &plan("b", 0)), Ordering::Greater);
    assert_eq!(compare_pages(&plan("a", -2), &plan("b", -1)), Ordering::Less);
}

#[test]
fn order_lines_feed_the_manifest() {
    let mut map: Vec<(String, i32)> = Vec::new();
    map.push(parse_order_line("c.png:1"));
    map.push(parse_order_line("d.png:-1"));
    map.push(parse_order_line("\"quoted name.png\":7"));
    map.push(parse_order_line("bare.png"));
    assert_eq!(map[0], ("c.png".to_string(), 1));
    assert_eq!(map[1], ("d.png".to_string(), -1));
    assert_eq!(map[2], ("quoted name.png".to_string(), 7));
    assert_eq!(map[3], ("bare.png".to_string(), 0));

    let mut manifest: Vec<PagePlan> = Vec::new();
    add_to_manifest(&mut manifest, "b.png".to_string(), &map);
    add_to_manifest(&mut manifest, "a.png".to_string(), &map);
    add_to_manifest(&mut manifest, "c.png".to_string(), &map);
    add_to_manifest(&mut manifest, "d.png".to_string(), &map);
    assert_eq!(manifest[0].order, 0);
    assert_eq!(manifest[2].order, 1);
    assert_eq!(manifest[3].order, -1);
    sort_pages(&mut manifest);
    assert_eq!(names(&manifest), vec!["c.png", "a.png", "b.png", "d.png"]);
}

#[test]
fn later_order_directives_overwrite_earlier() {
    let map = vec![("a.png".to_string(), 1), ("a.png".to_string(), 9)];
    let mut manifest: Vec<PagePlan> = Vec::new();
    add_to_manifest(&mut manifest, "a.png".to_string(), &map);
    assert_eq!(manifest[0].order, 9);
}

#[test]
fn unparsable_rank_counts_as_zero() {
    assert_eq!(parse_order_line("a.png:zzz"), ("a.png".to_string(), 0));
    assert_eq!(parse_order_line("a.png:"), ("a.png".to_string(), 0));
    // The split is at the last colon.
    assert_eq!(parse_order_line("a:b.png:4"), ("a:b.png".to_string(), 4));
}

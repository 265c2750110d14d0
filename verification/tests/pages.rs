use ginger::geometry::{BBox, OverlapPolicy};
use ginger::item::{item_type, ItemType};
use ginger::page::{
    b_box, font, get_margins, intersect_intervals, page_lines, validate_page, PageError, Rect,
    TextAttr,
};
use ginger::refine::Config;
use ginger::text::{starts_with, strip_prefix, to_chars};
use ginger::units::process_page;

fn run(name: Option<&str>, size: u64, start: usize, end: usize) -> TextAttr {
    TextAttr { font_name: name.map(String::from), font_size: size, start_index: start, end_index: end }
}

fn rects(text: &str) -> Vec<Rect> {
    // Characters 10 wide, lines 10 high and 12 apart.
    let mut out = Vec::new();
    let mut row = 0i64;
    let mut col = 0i64;
    for c in text.chars() {
        out.push(Rect { x1: 10 * col, y1: 12 * row, x2: 10 * col + 10, y2: 12 * row + 10 });
        if c == '\n' {
            row += 1;
            col = 0;
        } else {
            col += 1;
        }
    }
    out
}

#[test]
fn intersect_intervals_counts_common_positions() {
    assert_eq!(intersect_intervals(0, 4, 2, 8), 3);
    assert_eq!(intersect_intervals(2, 8, 0, 4), 3);
    assert_eq!(intersect_intervals(0, 9, 3, 5), 3);
    assert_eq!(intersect_intervals(3, 5, 0, 9), 3);
    assert_eq!(intersect_intervals(0, 1, 5, 6), 0);
    assert_eq!(intersect_intervals(5, 6, 0, 1), 0);
    assert_eq!(intersect_intervals(0, 3, 3, 7), 1);
    assert_eq!(intersect_intervals(4, 4, 4, 4), 1);
    assert_eq!(intersect_intervals(1, usize::MAX, 0, usize::MAX), usize::MAX);
}

#[test]
fn font_is_the_run_that_covers_most() {
    let attr = vec![run(Some("A"), 1, 0, 2), run(Some("B"), 2, 3, 9), run(Some("C"), 3, 10, 11)];
    assert_eq!(font(&attr, 0, 5).font_name.as_deref(), Some("B"));
    assert_eq!(font(&attr, 0, 2).font_name.as_deref(), Some("A"));
    assert_eq!(font(&attr, 9, 11).font_name.as_deref(), Some("C"));
    // Of two runs that cover as much, the later one.
    assert_eq!(font(&attr, 2, 3).font_name.as_deref(), Some("B"));
    // Where none covers anything, the last.
    assert_eq!(font(&attr, 20, 30).font_name.as_deref(), Some("C"));
}

#[test]
fn b_box_is_the_envelope() {
    let p = vec![
        Rect { x1: 10, y1: 20, x2: 30, y2: 40 },
        Rect { x1: 5, y1: 25, x2: 15, y2: 45 },
        Rect { x1: 12, y1: 18, x2: 50, y2: 30 },
    ];
    assert_eq!(b_box(&p), BBox { top: 18, left: 5, bottom: 45, right: 50 });
    assert_eq!(b_box(&p[..1]), BBox { top: 20, left: 10, bottom: 40, right: 30 });
    assert_eq!(get_margins(&p), (5, 50, 18, 45));
}

#[test]
fn validate_page_accepts_consistent_data() {
    let text = "ab\ncd\n";
    let attr = vec![run(Some("Times"), 10, 0, 2), run(Some("Times"), 12, 3, 5)];
    assert_eq!(validate_page(text, &attr, &rects(text)), Ok(()));
    // The largest end counts, wherever its run stands.
    let swapped = vec![run(Some("Times"), 12, 3, 5), run(Some("Times"), 10, 0, 2)];
    assert_eq!(validate_page(text, &swapped, &rects(text)), Ok(()));
    assert_eq!(validate_page("", &[], &[]), Ok(()));
}

#[test]
fn validate_page_rejects_inconsistent_data() {
    let text = "ab\ncd\n";
    let attr = vec![run(Some("Times"), 10, 0, 5)];
    let mut short = rects(text);
    short.pop();
    assert_eq!(validate_page(text, &attr, &short), Err(PageError::PageInvariantViolation));
    let early = vec![run(Some("Times"), 10, 0, 4)];
    assert_eq!(validate_page(text, &early, &rects(text)), Err(PageError::PageInvariantViolation));
    let late = vec![run(Some("Times"), 10, 0, 6)];
    assert_eq!(validate_page(text, &late, &rects(text)), Err(PageError::PageInvariantViolation));
    assert_eq!(validate_page(text, &[], &rects(text)), Err(PageError::PageInvariantViolation));
    assert_eq!(validate_page("", &attr, &[]), Err(PageError::PageInvariantViolation));
    // Characters are counted, not bytes.
    let accented = "\u{e9}\n";
    let two = vec![run(Some("Times"), 10, 0, 1)];
    assert_eq!(validate_page(accented, &two, &rects(accented)), Ok(()));
}

#[test]
fn page_lines_builds_one_fragment_for_each_line() {
    let text = "ab\nc\u{e9}d\nrest";
    let attr = vec![run(Some("Times"), 10, 0, 2), run(Some("Courier"), 12, 3, 10)];
    let lines = page_lines(text, &attr, &rects(text)).unwrap();
    // What follows the last line feed is no line.
    assert_eq!(lines.len(), 2);
    assert_eq!(lines[0].text, "ab");
    assert_eq!(lines[0].font_name, "Times");
    assert_eq!(lines[0].font_size, 10);
    // The rectangle of the line feed belongs to the box.
    assert_eq!(lines[0].bbox, BBox { top: 0, left: 0, bottom: 10, right: 30 });
    assert_eq!(lines[1].text, "c\u{e9}d");
    assert_eq!(lines[1].font_name, "Courier");
    assert_eq!(lines[1].font_size, 12);
    assert_eq!(lines[1].bbox, BBox { top: 12, left: 0, bottom: 22, right: 40 });
}

#[test]
fn page_lines_of_empty_lines() {
    let text = "\n\n";
    let attr = vec![run(Some("Times"), 10, 0, 1)];
    let lines = page_lines(text, &attr, &rects(text)).unwrap();
    assert_eq!(lines.len(), 2);
    assert_eq!(lines[0].text, "");
    assert_eq!(lines[1].text, "");
    assert_eq!(lines[1].bbox, BBox { top: 12, left: 0, bottom: 22, right: 10 });
    assert!(page_lines("", &[], &[]).unwrap().is_empty());
}

#[test]
fn page_lines_reports_the_first_line_without_font() {
    let text = "ab\ncd\nef\n";
    let nameless = vec![run(Some("Times"), 10, 0, 2), run(None, 12, 3, 8)];
    assert_eq!(
        page_lines(text, &nameless, &rects(text)).err(),
        Some(PageError::MissingFontAttribute { line: 1 })
    );
    // No run reaches the first two lines.
    let uncovered = vec![run(Some("Times"), 10, 6, 8)];
    assert_eq!(
        page_lines(text, &uncovered, &rects(text)).err(),
        Some(PageError::MissingFontAttribute { line: 0 })
    );
}

#[test]
fn page_lines_rejects_inconsistent_data() {
    let text = "ab\n";
    let attr = vec![run(Some("Times"), 10, 0, 2)];
    assert_eq!(page_lines(text, &attr, &[]).err(), Some(PageError::PageInvariantViolation));
    assert_eq!(
        process_page(text, &attr, &[], &Config::default()).err(),
        Some(PageError::PageInvariantViolation)
    );
}

#[test]
fn process_page_groups_the_lines() {
    let text = "Title\nline one\nline two\n";
    let attr = vec![run(Some("Bold"), 20, 0, 5), run(Some("Times"), 10, 6, 23)];
    let units = process_page(text, &attr, &rects(text), &Config::default()).unwrap();
    let texts: Vec<&str> = units.iter().map(|u| u.text.as_str()).collect();
    assert_eq!(texts, vec!["Title", "line one\nline two"]);
    assert_eq!(units[1].bbox, BBox { top: 12, left: 0, bottom: 34, right: 90 });
    assert_eq!(units[1].font_name, "Times");
}

#[test]
fn process_page_rejects_a_line_inside_out() {
    let text = "ab\n";
    let attr = vec![run(Some("Times"), 10, 0, 2)];
    let mut layout = rects(text);
    for r in layout.iter_mut() {
        r.y2 = r.y1 - 1;
    }
    assert_eq!(
        process_page(text, &attr, &layout, &Config::default()).err(),
        Some(PageError::PageInvariantViolation)
    );
    let nameless = vec![run(None, 10, 0, 2)];
    assert_eq!(
        process_page(text, &nameless, &rects(text), &Config::default()).err(),
        Some(PageError::MissingFontAttribute { line: 0 })
    );
}

#[test]
fn item_type_reads_the_marker() {
    assert_eq!(item_type("springer: a.pdf"), Some((&ItemType::Springer, "a.pdf")));
    assert_eq!(item_type("unknown: b c"), Some((&ItemType::Unknown, "b c")));
    assert_eq!(item_type("named: "), Some((&ItemType::Named, "")));
    assert_eq!(item_type("arxiv: \u{e9}.pdf"), Some((&ItemType::Arxiv, "\u{e9}.pdf")));
    assert_eq!(item_type("arxiv:x"), None);
    assert_eq!(item_type("Springer: x"), None);
    assert_eq!(item_type(" named: x"), None);
    assert_eq!(item_type("error: x"), None);
    assert_eq!(item_type(""), None);
}

#[test]
fn prefixes_by_characters() {
    assert!(starts_with("arXiv:1234", "arXiv"));
    assert!(starts_with("arXiv", "arXiv"));
    assert!(starts_with("anything", ""));
    assert!(!starts_with("arXi", "arXiv"));
    assert!(!starts_with("ARXIV", "arXiv"));
    assert_eq!(strip_prefix("\u{e9}t\u{e9}", "\u{e9}"), Some("t\u{e9}"));
    assert_eq!(strip_prefix("abc", "abc"), Some(""));
    assert_eq!(strip_prefix("abc", "b"), None);
    assert_eq!(to_chars("a\u{e9}\n"), vec!['a', '\u{e9}', '\n']);
}

#[test]
fn process_page_under_the_policy_to_fail() {
    let text = "ab\ncd\n";
    let attr = vec![run(Some("Times"), 10, 0, 5)];
    let strict = Config { overlap: OverlapPolicy::Fail, ..Config::default() };
    assert_eq!(process_page(text, &attr, &rects(text), &strict).unwrap().len(), 1);
    // Both lines at the same height, the second inside the first.
    let mut layout = rects(text);
    for r in layout.iter_mut().skip(3) {
        r.y1 = 2;
        r.y2 = 8;
    }
    assert_eq!(
        process_page(text, &attr, &layout, &strict).err(),
        Some(PageError::AmbiguousOverlap)
    );
    assert_eq!(process_page(text, &attr, &layout, &Config::default()).unwrap().len(), 2);
}

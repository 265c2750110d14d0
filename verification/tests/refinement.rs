use ginger::fragment::Fragment;
use ginger::geometry::{AmbiguousOverlap, BBox, OverlapPolicy};
use ginger::merge::{merge_boxes, merge_tt};
use ginger::refine::{refine_chain, split_by_distance, split_by_font, Config, Ratio};
use ginger::units::logical_units;

fn line(text: &str, top: i64, bottom: i64, font: &str, size: u64) -> Fragment {
    Fragment {
        text: String::from(text),
        bbox: BBox { top, left: 0, bottom, right: 100 },
        font_name: String::from(font),
        font_size: size,
    }
}

fn owned(pieces: Vec<&[usize]>) -> Vec<Vec<usize>> {
    pieces.into_iter().map(|p| p.to_vec()).collect()
}

#[test]
fn font_size_change_splits_the_chain() {
    let x = vec![
        line("a", 0, 10, "Times", 10_000),
        line("b", 12, 22, "Times", 10_000),
        line("c", 24, 34, "Times", 10_000),
        line("d", 36, 46, "Times", 12_000),
    ];
    let c = [0usize, 1, 2, 3];
    assert_eq!(owned(split_by_font(&x, &c)), vec![vec![0, 1, 2], vec![3]]);
}

#[test]
fn font_name_change_splits_the_chain() {
    let x = vec![
        line("a", 0, 10, "Times", 10_000),
        line("b", 12, 22, "Helvetica", 10_000),
        line("c", 24, 34, "Helvetica", 10_000),
        line("d", 36, 46, "Times", 10_000),
    ];
    let c = [3usize, 0, 2, 1];
    assert_eq!(owned(split_by_font(&x, &c)), vec![vec![3, 0], vec![2, 1]]);
    let d = [0usize, 1, 2, 3];
    assert_eq!(owned(split_by_font(&x, &d)), vec![vec![0], vec![1, 2], vec![3]]);
}

#[test]
fn font_runs_concatenate_to_the_chain() {
    let sizes = [10u64, 10, 12, 12, 12, 10, 14, 14];
    let x: Vec<Fragment> = sizes
        .iter()
        .enumerate()
        .map(|(i, &s)| line("t", 20 * i as i64, 20 * i as i64 + 10, "Times", s))
        .collect();
    let c = [7usize, 6, 5, 0, 1, 2, 3, 4];
    let pieces = split_by_font(&x, &c);
    assert_eq!(owned(pieces.clone()), vec![vec![7, 6], vec![5, 0, 1], vec![2, 3, 4]]);
    let back: Vec<usize> = pieces.iter().flat_map(|p| p.iter().copied()).collect();
    assert_eq!(back, c.to_vec());
}

#[test]
fn split_by_font_of_short_chains() {
    let x = vec![line("a", 0, 10, "Times", 10_000)];
    assert_eq!(owned(split_by_font(&x, &[])), Vec::<Vec<usize>>::new());
    assert_eq!(owned(split_by_font(&x, &[0])), vec![vec![0]]);
}

#[test]
fn gaps_over_two_fifths_of_the_first_extent_cut() {
    // The first member is 10 high: the threshold is 4.
    let x = vec![
        line("a", 0, 10, "Times", 10_000),
        line("b", 14, 24, "Times", 10_000),
        line("c", 29, 39, "Times", 10_000),
        line("d", 40, 50, "Times", 10_000),
    ];
    let c = [0usize, 1, 2, 3];
    let config = Config::default();
    assert_eq!(config.gap_ratio, Ratio { num: 2, den: 5 });
    assert_eq!(config.overlap, OverlapPolicy::TreatAsIncomparable);
    // Gaps 4, 5, 1: only the second is over the threshold.
    assert_eq!(owned(split_by_distance(&x, &c, &config)), vec![vec![0, 1], vec![2, 3]]);
}

#[test]
fn the_threshold_follows_the_first_member_of_the_chain() {
    let x = vec![
        line("a", 0, 10, "Times", 10_000),
        line("b", 15, 115, "Times", 10_000),
        line("c", 120, 130, "Times", 10_000),
    ];
    let config = Config::default();
    // From fragment 0 (10 high) both gaps of 5 are cuts.
    assert_eq!(owned(split_by_distance(&x, &[0, 1, 2], &config)), vec![vec![0], vec![1], vec![2]]);
    // From fragment 1 (100 high) a gap of 5 is no cut.
    assert_eq!(owned(split_by_distance(&x, &[1, 2], &config)), vec![vec![1, 2]]);
}

#[test]
fn the_gap_ratio_is_configurable() {
    let x = vec![
        line("a", 0, 10, "Times", 10_000),
        line("b", 15, 25, "Times", 10_000),
        line("c", 36, 46, "Times", 10_000),
    ];
    let whole = Config { gap_ratio: Ratio { num: 1, den: 1 }, ..Config::default() };
    assert_eq!(owned(split_by_distance(&x, &[0, 1, 2], &whole)), vec![vec![0, 1], vec![2]]);
    let never = Config { gap_ratio: Ratio { num: 1, den: 0 }, ..Config::default() };
    assert_eq!(owned(split_by_distance(&x, &[0, 1, 2], &never)), vec![vec![0, 1, 2]]);
    let always = Config { gap_ratio: Ratio { num: 0, den: 1 }, ..Config::default() };
    assert_eq!(owned(split_by_distance(&x, &[0, 1, 2], &always)), vec![vec![0], vec![1], vec![2]]);
}

#[test]
fn short_chains_are_not_split_by_distance() {
    let x = vec![line("a", 0, 10, "Times", 10_000)];
    let config = Config::default();
    assert_eq!(owned(split_by_distance(&x, &[], &config)), vec![Vec::<usize>::new()]);
    assert_eq!(owned(split_by_distance(&x, &[0], &config)), vec![vec![0]]);
}

#[test]
fn overlapping_members_have_no_gap() {
    let x = vec![line("a", 0, 10, "Times", 10_000), line("b", 5, 15, "Times", 10_000)];
    assert_eq!(owned(split_by_distance(&x, &[0, 1], &Config::default())), vec![vec![0, 1]]);
    // Against an extent of zero every positive gap is a cut, and no gap is none.
    let y = vec![
        line("a", 0, 0, "Times", 10_000),
        line("b", 0, 0, "Times", 10_000),
        line("c", 1, 1, "Times", 10_000),
    ];
    assert_eq!(owned(split_by_distance(&y, &[0, 1, 2], &Config::default())), vec![vec![0, 1], vec![2]]);
}

#[test]
fn refinement_cuts_by_font_and_then_by_distance() {
    let x = vec![
        line("a", 0, 10, "Times", 10_000),
        line("b", 12, 22, "Times", 10_000),
        line("c", 40, 50, "Times", 10_000),
        line("d", 52, 152, "Times", 20_000),
        line("e", 160, 170, "Times", 20_000),
    ];
    let config = Config::default();
    // Font runs [0,1,2] and [3,4]; in the first the gap of 18 is over 4, in
    // the second the gap of 8 is under 40.
    assert_eq!(
        owned(refine_chain(&x, &[0, 1, 2, 3, 4], &config)),
        vec![vec![0, 1], vec![2], vec![3, 4]]
    );
    assert_eq!(owned(refine_chain(&x, &[], &config)), Vec::<Vec<usize>>::new());
}

#[test]
fn merge_takes_the_envelope_and_joins_the_text() {
    let x = vec![
        Fragment {
            text: String::from("first"),
            bbox: BBox { top: 10, left: 20, bottom: 30, right: 90 },
            font_name: String::from("Times"),
            font_size: 10_000,
        },
        Fragment {
            text: String::from("second"),
            bbox: BBox { top: 5, left: 30, bottom: 25, right: 95 },
            font_name: String::from("Courier"),
            font_size: 9_000,
        },
        Fragment {
            text: String::from("third"),
            bbox: BBox { top: 40, left: 10, bottom: 50, right: 50 },
            font_name: String::from("Symbol"),
            font_size: 8_000,
        },
    ];
    assert_eq!(merge_boxes(&x, &[0, 1, 2]), BBox { top: 5, left: 10, bottom: 50, right: 95 });
    assert_eq!(merge_boxes(&x, &[1]), x[1].bbox);
    let u = merge_tt(&x, &[1, 0, 2]);
    assert_eq!(u.text, "second\nfirst\nthird");
    assert_eq!(u.bbox, BBox { top: 5, left: 10, bottom: 50, right: 95 });
    assert_eq!(u.font_name, "Courier");
    assert_eq!(u.font_size, 9_000);
    let single = merge_tt(&x, &[2]);
    assert_eq!(single.text, "third");
    assert_eq!(single.bbox, x[2].bbox);
    assert_eq!(single.font_name, "Symbol");
}

#[test]
fn logical_units_of_a_small_page() {
    // A heading, two paragraphs of two lines each, given out of order.
    let x = vec![
        line("first b", 42, 52, "Times", 10_000),
        line("Heading", 0, 20, "Times", 20_000),
        line("second a", 70, 80, "Times", 10_000),
        line("first a", 30, 40, "Times", 10_000),
        line("second b", 82, 92, "Times", 10_000),
    ];
    let units = logical_units(&x, &Config::default()).unwrap();
    let texts: Vec<&str> = units.iter().map(|u| u.text.as_str()).collect();
    assert_eq!(texts, vec!["Heading", "first a\nfirst b", "second a\nsecond b"]);
    assert_eq!(units[1].bbox, BBox { top: 30, left: 0, bottom: 52, right: 100 });
    assert_eq!(units[0].font_size, 20_000);
    assert_eq!(units[2].font_size, 10_000);
    assert!(logical_units(&[], &Config::default()).unwrap().is_empty());
}

#[test]
fn logical_units_under_the_policy_to_fail() {
    let strict = Config { overlap: OverlapPolicy::Fail, ..Config::default() };
    let clean = vec![line("a", 0, 10, "Times", 10_000), line("b", 12, 22, "Times", 10_000)];
    let units = logical_units(&clean, &strict).unwrap();
    assert_eq!(units.len(), 1);
    assert_eq!(units[0].text, "a\nb");
    // The second box lies inside the first.
    let nested = vec![line("a", 0, 100, "Times", 10_000), line("b", 10, 20, "Times", 10_000)];
    assert_eq!(logical_units(&nested, &strict).err(), Some(AmbiguousOverlap));
    let lenient = logical_units(&nested, &Config::default()).unwrap();
    assert_eq!(lenient.len(), 2);
}

use ginger::fragment::{check_valid, Fragment};
use ginger::geometry::{AmbiguousOverlap, BBox, OverlapPolicy};
use ginger::poset::{any_ambiguous, is_pred, is_succ, Poset};

fn frag(top: i64, left: i64, bottom: i64, right: i64) -> Fragment {
    Fragment {
        text: String::from("x"),
        bbox: BBox { top, left, bottom, right },
        font_name: String::from("Times"),
        font_size: 10_000,
    }
}

fn all_chains(p: &Poset) -> Vec<Vec<usize>> {
    let mut it = p.chain_iter();
    let mut out = Vec::new();
    loop {
        match it.next() {
            None => break,
            Some(c) => out.push(c),
        }
    }
    // The traversal stays at its end.
    assert_eq!(it.next(), None);
    out
}

fn check_iterator(x: &[Fragment]) -> bool {
    assert!(check_valid(x));
    let p = Poset::create_poset(x);
    assert!(p.elements.len() == x.len());
    let mut dt = vec![0usize; p.elements.len()];
    for c in all_chains(&p) {
        for i in 0..c.len() {
            dt[c[i]] += 1;
        }
    }
    for i in 0..dt.len() {
        assert!(dt[i] == 1);
    }
    assert_eq!(all_chains(&p), p.shrink_poset());
    true
}

#[test]
fn stacked_boxes_form_one_chain() {
    let x = vec![frag(0, 0, 10, 100), frag(20, 0, 30, 100), frag(40, 0, 50, 100)];
    let p = Poset::create_poset(&x);
    assert_eq!(p.elements.len(), 3);
    assert_eq!(p.elements[0].predecessors, Vec::<usize>::new());
    assert_eq!(p.elements[0].successors, vec![1]);
    assert_eq!(p.elements[1].predecessors, vec![0]);
    assert_eq!(p.elements[1].successors, vec![2]);
    assert_eq!(p.elements[2].predecessors, vec![1]);
    assert_eq!(p.elements[2].successors, Vec::<usize>::new());
    assert_eq!(p.sources, vec![0]);
    assert_eq!(p.sinks, vec![2]);
    assert_eq!(all_chains(&p), vec![vec![0, 1, 2]]);
    assert_eq!(p.shrink_poset(), vec![vec![0, 1, 2]]);
}

#[test]
fn side_by_side_boxes_are_two_chains() {
    let x = vec![frag(0, 0, 10, 40), frag(0, 60, 10, 100)];
    let p = Poset::create_poset(&x);
    assert_eq!(p.sources, vec![0, 1]);
    assert_eq!(p.sinks, vec![0, 1]);
    assert!(p.elements[0].predecessors.is_empty() && p.elements[0].successors.is_empty());
    assert!(p.elements[1].predecessors.is_empty() && p.elements[1].successors.is_empty());
    assert_eq!(all_chains(&p), vec![vec![0], vec![1]]);
}

#[test]
fn a_root_with_two_branches_is_three_chains() {
    let x = vec![frag(0, 0, 10, 100), frag(20, 0, 30, 40), frag(20, 60, 50, 100)];
    let p = Poset::create_poset(&x);
    assert_eq!(p.elements[0].successors, vec![1, 2]);
    assert_eq!(p.elements[1].predecessors, vec![0]);
    assert_eq!(p.elements[2].predecessors, vec![0]);
    assert_eq!(p.sources, vec![0]);
    assert_eq!(p.sinks, vec![1, 2]);
    assert_eq!(all_chains(&p), vec![vec![0], vec![1], vec![2]]);
}

#[test]
fn the_cover_relation_skips_what_lies_between() {
    let x = vec![frag(0, 0, 10, 100), frag(40, 0, 50, 100), frag(20, 0, 30, 100)];
    // 0 precedes 1, but 2 lies between them.
    assert!(x[0].bbox.lt(&x[1].bbox));
    assert!(!is_succ(&x, &x[0], &x[1]));
    assert!(is_succ(&x, &x[0], &x[2]));
    assert!(is_succ(&x, &x[2], &x[1]));
    assert!(is_pred(&x, &x[1], &x[2]));
    assert!(!is_pred(&x, &x[1], &x[0]));
    let p = Poset::create_poset(&x);
    assert_eq!(p.elements[0].successors, vec![2]);
    assert_eq!(p.elements[2].successors, vec![1]);
    assert_eq!(p.elements[1].predecessors, vec![2]);
    assert_eq!(all_chains(&p), vec![vec![0, 2, 1]]);
}

#[test]
fn no_edge_of_the_poset_has_a_box_between() {
    let x = vec![
        frag(0, 0, 10, 100),
        frag(20, 0, 30, 40),
        frag(20, 60, 30, 100),
        frag(40, 0, 50, 100),
        frag(25, 30, 45, 70),
        frag(60, 10, 70, 20),
    ];
    let p = Poset::create_poset(&x);
    for i in 0..x.len() {
        for &j in &p.elements[i].successors {
            assert!(x[i].bbox.lt(&x[j].bbox));
            for k in 0..x.len() {
                assert!(!(x[i].bbox.lt(&x[k].bbox) && x[k].bbox.lt(&x[j].bbox)));
            }
            assert!(p.elements[j].predecessors.contains(&i));
        }
    }
}

#[test]
fn a_diamond_is_four_chains() {
    let x = vec![
        frag(0, 0, 10, 100),
        frag(20, 0, 30, 40),
        frag(20, 60, 30, 100),
        frag(40, 0, 50, 100),
    ];
    let p = Poset::create_poset(&x);
    assert_eq!(p.elements[3].predecessors, vec![1, 2]);
    // The branches stop before the node in which they meet.
    assert_eq!(all_chains(&p), vec![vec![0], vec![1], vec![2], vec![3]]);
    assert!(check_iterator(&x));
}

#[test]
fn a_branch_into_a_meeting_node_is_empty() {
    // Two roots side by side; the left one has a child of its own, and both
    // have the wide box below as a successor.
    let x = vec![
        frag(0, 0, 10, 40),
        frag(0, 60, 10, 100),
        frag(20, 0, 30, 10),
        frag(20, 30, 30, 100),
    ];
    let p = Poset::create_poset(&x);
    assert_eq!(p.elements[0].successors, vec![2, 3]);
    assert_eq!(p.elements[1].successors, vec![3]);
    assert_eq!(p.elements[3].predecessors, vec![0, 1]);
    assert_eq!(
        all_chains(&p),
        vec![vec![0], vec![2], vec![], vec![1], vec![3]]
    );
    assert!(check_iterator(&x));
}

#[test]
fn a_branching_node_with_one_predecessor_emits_only_its_branches() {
    let x = vec![
        frag(0, 0, 10, 100),
        frag(20, 0, 30, 100),
        frag(40, 0, 50, 40),
        frag(40, 60, 50, 100),
        frag(60, 0, 70, 40),
    ];
    let p = Poset::create_poset(&x);
    assert_eq!(p.elements[1].predecessors, vec![0]);
    assert_eq!(p.elements[1].successors, vec![2, 3]);
    assert_eq!(all_chains(&p), vec![vec![0, 1], vec![2, 4], vec![3]]);
    assert!(check_iterator(&x));
}

#[test]
fn every_index_is_in_exactly_one_chain() {
    // A page in two columns under a heading, with a footer, given out of order.
    let mut x = Vec::new();
    x.push(frag(700, 0, 710, 200));
    for row in 0..5i64 {
        x.push(frag(100 + 20 * row, 110, 110 + 20 * row, 200));
        x.push(frag(100 + 20 * row, 0, 110 + 20 * row, 90));
    }
    x.push(frag(0, 0, 50, 200));
    x.push(frag(95, 40, 300, 60));
    assert!(check_iterator(&x));
}

#[test]
fn equal_boxes_are_covered_once_each() {
    let x = vec![frag(0, 0, 10, 100), frag(20, 0, 30, 100), frag(20, 0, 30, 100), frag(40, 0, 50, 100)];
    let p = Poset::create_poset(&x);
    assert_eq!(p.elements[0].successors, vec![1, 2]);
    assert_eq!(p.elements[3].predecessors, vec![1, 2]);
    assert!(check_iterator(&x));
}

#[test]
fn no_fragments_give_no_chains() {
    let x: Vec<Fragment> = Vec::new();
    let p = Poset::create_poset(&x);
    assert!(p.elements.is_empty());
    assert!(p.sources.is_empty());
    assert!(p.sinks.is_empty());
    assert_eq!(all_chains(&p), Vec::<Vec<usize>>::new());
    assert_eq!(p.shrink_poset(), Vec::<Vec<usize>>::new());
}

#[test]
fn extend_chain_appends_to_what_is_there() {
    let x = vec![frag(0, 0, 10, 100), frag(20, 0, 30, 100), frag(40, 0, 50, 100)];
    let p = Poset::create_poset(&x);
    let mut chain = vec![7];
    p.extend_chain(&mut chain, 1);
    assert_eq!(chain, vec![7, 1, 2]);
    let mut from_root = Vec::new();
    p.extend_chain(&mut from_root, 0);
    assert_eq!(from_root, Vec::<usize>::new());
}

#[test]
fn check_valid_finds_a_box_inside_out() {
    let mut x = vec![frag(0, 0, 10, 100), frag(20, 0, 30, 100)];
    assert!(check_valid(&x));
    x[1].bbox.bottom = 15;
    assert!(!check_valid(&x));
}

#[test]
fn create_poset_with_a_policy() {
    let clean = vec![frag(0, 0, 10, 100), frag(20, 0, 30, 100)];
    assert!(!any_ambiguous(&clean));
    let p = Poset::create_poset_with(&clean, OverlapPolicy::Fail).unwrap();
    assert_eq!(p.elements[0].successors, vec![1]);
    // The second box starts where the first ends.
    let touching = vec![frag(0, 0, 10, 100), frag(10, 0, 20, 100)];
    assert!(any_ambiguous(&touching));
    assert_eq!(
        Poset::create_poset_with(&touching, OverlapPolicy::Fail).err(),
        Some(AmbiguousOverlap)
    );
    let q = Poset::create_poset_with(&touching, OverlapPolicy::TreatAsIncomparable).unwrap();
    assert_eq!(q.sources, vec![0, 1]);
    assert_eq!(q.sinks, vec![0, 1]);
    // Equal boxes and boxes in different columns are no ambiguity.
    let twins = vec![frag(0, 0, 10, 40), frag(0, 0, 10, 40), frag(0, 60, 10, 100)];
    assert!(!any_ambiguous(&twins));
}

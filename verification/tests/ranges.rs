use nodeset::range::IdRange;
use nodeset::range_list::RangeList;
use nodeset::range_tree::RangeTree;
use nodeset::runs::{count, holds, normalize, sweep, Run, SetOp};

fn run(start: u32, end: u32) -> Run {
    Run { start, end }
}

fn pairs(runs: &Vec<Run>) -> Vec<(u32, u32)> {
    runs.iter().map(|r| (r.start, r.end)).collect()
}

#[test]
fn new_sorts_and_joins_what_touches() {
    let r = RangeList::new(vec![5, 3, 1, 2, 3, 9, 10]);
    assert_eq!(pairs(&r.runs()), vec![(1, 3), (5, 5), (9, 10)]);
    assert_eq!(r.to_vec(), vec![1, 2, 3, 5, 9, 10]);
    assert_eq!(r.len(), 6);
    assert!(!r.is_empty());
}

#[test]
fn empty_input_gives_the_empty_range() {
    let r = RangeList::new(vec![]);
    assert!(r.is_empty());
    assert_eq!(r.len(), 0);
    assert!(r.runs().is_empty());
    let t = RangeTree::new(vec![]);
    assert!(t.is_empty());
    assert_eq!(t.len(), 0);
}

#[test]
fn a_single_identifier_is_a_run_of_one() {
    let r = RangeList::new(vec![7]);
    assert_eq!(pairs(&r.runs()), vec![(7, 7)]);
    assert_eq!(r.len(), 1);
}

#[test]
fn the_extremes_are_identifiers() {
    let r = RangeList::new(vec![u32::MAX, 0, u32::MAX - 1]);
    assert_eq!(pairs(&r.runs()), vec![(0, 0), (u32::MAX - 1, u32::MAX)]);
    let all = RangeList::from_runs(&vec![run(0, u32::MAX)], 0);
    assert_eq!(all.len(), 1u64 << 32);
    let none = all.difference(&all);
    assert!(none.is_empty());
    let rest = all.difference(&r);
    assert_eq!(pairs(&rest.runs()), vec![(1, u32::MAX - 2)]);
}

#[test]
fn union_of_lists() {
    let a = RangeList::new(vec![1, 2, 3]);
    let b = RangeList::new(vec![4, 5, 9]);
    assert_eq!(pairs(&a.union(&b).runs()), vec![(1, 5), (9, 9)]);
}

#[test]
fn intersection_of_lists() {
    let a = RangeList::from_runs(&vec![run(1, 10), run(20, 30)], 0);
    let b = RangeList::from_runs(&vec![run(5, 25)], 0);
    assert_eq!(pairs(&a.intersection(&b).runs()), vec![(5, 10), (20, 25)]);
}

#[test]
fn difference_of_lists_is_not_commutative() {
    let a = RangeList::from_runs(&vec![run(1, 10)], 0);
    let b = RangeList::from_runs(&vec![run(5, 7), run(10, 12)], 0);
    assert_eq!(pairs(&a.difference(&b).runs()), vec![(1, 4), (8, 9)]);
    assert_eq!(pairs(&b.difference(&a).runs()), vec![(11, 12)]);
}

#[test]
fn symmetric_difference_of_lists() {
    let a = RangeList::from_runs(&vec![run(1, 10)], 0);
    let b = RangeList::from_runs(&vec![run(5, 12)], 0);
    let s = a.symmetric_difference(&b);
    assert_eq!(pairs(&s.runs()), vec![(1, 4), (11, 12)]);
    assert_eq!(pairs(&b.symmetric_difference(&a).runs()), pairs(&s.runs()));
    let u = a.difference(&b).union(&b.difference(&a));
    assert_eq!(pairs(&u.runs()), pairs(&s.runs()));
}

#[test]
fn union_and_intersection_are_commutative_and_associative() {
    let a = RangeList::new(vec![1, 2, 3, 10, 11]);
    let b = RangeList::new(vec![3, 4, 5, 11, 20]);
    let c = RangeList::new(vec![0, 5, 6, 11]);
    assert_eq!(a.union(&b).to_vec(), b.union(&a).to_vec());
    assert_eq!(a.intersection(&b).to_vec(), b.intersection(&a).to_vec());
    assert_eq!(a.union(&b).union(&c).to_vec(), a.union(&b.union(&c)).to_vec());
    assert_eq!(
        a.intersection(&b).intersection(&c).to_vec(),
        a.intersection(&b.intersection(&c)).to_vec()
    );
    assert_eq!(a.intersection(&b).intersection(&c).to_vec(), vec![11]);
    assert!(a.difference(&a).is_empty());
}

#[test]
fn contains_finds_members_only() {
    let r = RangeList::from_runs(&vec![run(10, 20), run(30, 30), run(40, 50)], 0);
    for v in [10, 15, 20, 30, 40, 50] {
        assert!(r.contains(v), "{}", v);
    }
    for v in [0, 9, 21, 29, 31, 39, 51, u32::MAX] {
        assert!(!r.contains(v), "{}", v);
    }
}

#[test]
fn sort_brings_an_unsorted_list_into_minimal_form() {
    let mut r = RangeList::unsorted(vec![9, 1, 3, 2, 9]);
    r.sort();
    assert_eq!(pairs(&r.runs()), vec![(1, 3), (9, 9)]);
    r.sort();
    assert_eq!(pairs(&r.runs()), vec![(1, 3), (9, 9)]);
}

#[test]
fn the_wider_width_wins() {
    let a = RangeList::new(vec![1]).with_pad(3);
    let b = RangeList::new(vec![2]).with_pad(2);
    assert_eq!(a.union(&b).pad(), 3);
    assert_eq!(b.union(&a).pad(), 3);
    assert_eq!(a.duplicate().pad(), 3);
    assert_eq!(RangeList::new(vec![1]).pad(), 0);
}

#[test]
fn tree_adds_one_identifier_at_a_time() {
    let mut t = RangeTree::new(vec![]);
    for v in [5, 1, 3] {
        t.insert(v);
    }
    assert_eq!(pairs(&t.runs()), vec![(1, 1), (3, 3), (5, 5)]);
    t.insert(2);
    assert_eq!(pairs(&t.runs()), vec![(1, 3), (5, 5)]);
    t.insert(4);
    assert_eq!(pairs(&t.runs()), vec![(1, 5)]);
    t.insert(4);
    assert_eq!(pairs(&t.runs()), vec![(1, 5)]);
    t.insert(0);
    t.insert(u32::MAX);
    assert_eq!(pairs(&t.runs()), vec![(0, 5), (u32::MAX, u32::MAX)]);
    assert_eq!(t.len(), 7);
}

#[test]
fn tree_looks_up_members() {
    let t = RangeTree::from_runs(&vec![run(40, 50), run(10, 20), run(30, 30)], 0);
    for v in [10, 15, 20, 30, 40, 50] {
        assert!(t.contains(v), "{}", v);
    }
    for v in [0, 9, 21, 29, 31, 39, 51, u32::MAX] {
        assert!(!t.contains(v), "{}", v);
    }
    assert_eq!(t.to_vec().len(), 23);
}

#[test]
fn both_representations_give_the_same_results() {
    let av = vec![1, 2, 3, 7, 8, 20, 21, 22, 40];
    let bv = vec![3, 4, 8, 9, 10, 22, 39, 40, 41];
    let (al, bl) = (RangeList::new(av.clone()), RangeList::new(bv.clone()));
    let (at, bt) = (RangeTree::new(av), RangeTree::new(bv));
    for op in [SetOp::Union, SetOp::Intersection, SetOp::Difference, SetOp::SymmetricDifference] {
        let l = al.combine(&bl, op);
        let t = at.combine(&bt, op);
        assert_eq!(pairs(&l.runs()), pairs(&t.runs()));
        assert_eq!(l.to_vec(), t.to_vec());
        assert_eq!(l.len(), t.len());
        assert_eq!(l.is_empty(), t.is_empty());
    }
    assert_eq!(pairs(&al.union(&bl).runs()), vec![(1, 4), (7, 10), (20, 22), (39, 41)]);
    assert_eq!(pairs(&at.intersection(&bt).runs()), vec![(3, 3), (8, 8), (22, 22), (40, 40)]);
    assert_eq!(pairs(&at.difference(&bt).runs()), vec![(1, 2), (7, 7), (20, 21)]);
    assert_eq!(
        pairs(&at.symmetric_difference(&bt).runs()),
        vec![(1, 2), (4, 4), (7, 7), (9, 10), (20, 21), (39, 39), (41, 41)]
    );
}

#[test]
fn sweep_costs_runs_not_identifiers() {
    let a = vec![run(0, 4_000_000_000)];
    let b = vec![run(1, 4_000_000_001)];
    assert_eq!(pairs(&sweep(SetOp::Intersection, &a, &b)), vec![(1, 4_000_000_000)]);
    assert_eq!(
        pairs(&sweep(SetOp::SymmetricDifference, &a, &b)),
        vec![(0, 0), (4_000_000_001, 4_000_000_001)]
    );
    assert_eq!(count(&sweep(SetOp::Union, &a, &b)), 4_000_000_002);
}

#[test]
fn normalize_joins_overlapping_runs() {
    let raw = vec![run(10, 20), run(1, 3), run(15, 30), run(4, 5), run(40, 40)];
    let n = normalize(&raw);
    assert_eq!(pairs(&n), vec![(1, 5), (10, 30), (40, 40)]);
    assert!(holds(&n, 30));
    assert!(!holds(&n, 31));
}

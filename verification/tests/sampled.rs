use nodeset::idset::IdSet;
use nodeset::nodeset::NodeSet;
use nodeset::range::IdRange;
use nodeset::range_list::RangeList;
use nodeset::range_tree::RangeTree;
use nodeset::runs::SetOp;
use std::collections::BTreeSet;

/// A small generator of numbers, the same in every run.
struct Numbers(u64);

impl Numbers {
    fn next(&mut self) -> u64 {
        self.0 = self.0.wrapping_mul(6364136223846793005).wrapping_add(1442695040888963407);
        self.0 >> 33
    }

    fn below(&mut self, n: u64) -> u64 {
        self.next() % n
    }

    fn values(&mut self) -> Vec<u32> {
        let n = self.below(40);
        let span = 1 + self.below(60);
        (0..n).map(|_| self.below(span) as u32).collect()
    }

    fn names(&mut self) -> String {
        self.words(true)
    }

    /// Names in which each pattern is written with one width only, so that
    /// no name is shown with another width than it was given with.
    fn steady_names(&mut self) -> String {
        self.words(false)
    }

    fn words(&mut self, mixed: bool) -> String {
        let n = self.below(12);
        let mut words = Vec::new();
        for _ in 0..n {
            let stem = ["node", "rack", "n", "gpu-", "x"][self.below(5) as usize];
            let kinds = if mixed { 6 } else { 4 };
            let word = match [0, 2, 4, 5, 1, 3][self.below(kinds) as usize] {
                0 => format!("{}{}", stem, self.below(30)),
                1 => format!("{}{:03}", stem, self.below(30)),
                2 => {
                    let a = self.below(20);
                    format!("{}[{}-{}]", stem, a, a + self.below(15))
                }
                3 => {
                    let a = self.below(9);
                    let b = a + self.below(4);
                    format!("{}[{}-{}]u[{},{:02}]", stem, a, b, self.below(5), self.below(50))
                }
                4 => format!("r{}c{}{}{}", self.below(3), self.below(3), stem, self.below(4)),
                _ => stem.to_string(),
            };
            words.push(word);
        }
        words.join(if self.below(2) == 0 { " " } else { "," })
    }
}

fn model(op: SetOp, a: &BTreeSet<u32>, b: &BTreeSet<u32>) -> Vec<u32> {
    match op {
        SetOp::Union => a.union(b).copied().collect(),
        SetOp::Intersection => a.intersection(b).copied().collect(),
        SetOp::Difference => a.difference(b).copied().collect(),
        SetOp::SymmetricDifference => a.symmetric_difference(b).copied().collect(),
    }
}

#[test]
fn ranges_agree_with_sets_of_numbers() {
    let mut numbers = Numbers(7);
    for _ in 0..400 {
        let (av, bv) = (numbers.values(), numbers.values());
        let (am, bm): (BTreeSet<u32>, BTreeSet<u32>) =
            (av.iter().copied().collect(), bv.iter().copied().collect());
        let (al, bl) = (RangeList::new(av.clone()), RangeList::new(bv.clone()));
        let (at, bt) = (RangeTree::new(av), RangeTree::new(bv));
        assert_eq!(al.to_vec(), am.iter().copied().collect::<Vec<_>>());
        assert_eq!(at.to_vec(), al.to_vec());
        assert_eq!(al.len(), am.len() as u64);
        for op in [SetOp::Union, SetOp::Intersection, SetOp::Difference, SetOp::SymmetricDifference]
        {
            let expected = model(op, &am, &bm);
            let l = al.combine(&bl, op);
            let t = at.combine(&bt, op);
            assert_eq!(l.to_vec(), expected);
            assert_eq!(t.to_vec(), expected);
            assert_eq!(l.len(), expected.len() as u64);
            assert_eq!(t.is_empty(), expected.is_empty());
            let runs = l.runs();
            assert!(runs.iter().all(|r| r.start <= r.end));
            assert!(runs.windows(2).all(|w| w[0].end as u64 + 1 < w[1].start as u64));
            assert_eq!(
                runs.iter().map(|r| (r.start, r.end)).collect::<Vec<_>>(),
                t.runs().iter().map(|r| (r.start, r.end)).collect::<Vec<_>>()
            );
        }
        for v in 0..70 {
            assert_eq!(al.contains(v), am.contains(&v));
            assert_eq!(at.contains(v), am.contains(&v));
        }
    }
}

#[test]
fn folded_texts_read_back() {
    let mut numbers = Numbers(11);
    for _ in 0..300 {
        let text = numbers.names();
        let set = NodeSet::parse(&text).unwrap();
        let folded = set.fold();
        let again = NodeSet::parse(&folded).unwrap();
        assert_eq!(again.fold(), folded, "{}", text);
        assert_eq!(again.iter(), set.iter(), "{}", text);
        assert_eq!(again.len(), set.len(), "{}", text);
        assert_eq!(set.iter().len() as u128, set.len(), "{}", text);
        let names = set.iter();
        let listed = NodeSet::parse(&names.join(" ")).unwrap();
        assert_eq!(listed.iter(), names, "{}", text);
        assert_eq!(listed.fold(), folded, "{}", text);
    }
}

#[test]
fn node_sets_agree_with_sets_of_names() {
    let mut numbers = Numbers(13);
    for _ in 0..200 {
        let (x, y) = (numbers.steady_names(), numbers.steady_names());
        let (a, b) = (NodeSet::parse(&x).unwrap(), NodeSet::parse(&y).unwrap());
        let (am, bm): (BTreeSet<String>, BTreeSet<String>) =
            (a.iter().into_iter().collect(), b.iter().into_iter().collect());
        let names = |s: &NodeSet| s.iter().into_iter().collect::<BTreeSet<String>>();
        assert_eq!(names(&a.union(&b)), am.union(&bm).cloned().collect());
        assert_eq!(names(&a.intersection(&b)), am.intersection(&bm).cloned().collect());
        assert_eq!(names(&a.difference(&b)), am.difference(&bm).cloned().collect());
        assert_eq!(
            names(&a.symmetric_difference(&b)),
            am.symmetric_difference(&bm).cloned().collect()
        );
        assert_eq!(a.union(&b).fold(), b.union(&a).fold());
        assert_eq!(a.intersection(&b).fold(), b.intersection(&a).fold());
        assert_eq!(a.union(&b).len(), am.union(&bm).count() as u128);
    }
}

#[test]
fn split_sets_merge_back() {
    let mut numbers = Numbers(17);
    for _ in 0..200 {
        let text = numbers.names();
        let mut list: IdSet<RangeList> = IdSet::new();
        list.push(&text).unwrap();
        let mut tree: IdSet<RangeTree> = IdSet::new();
        tree.push(&text).unwrap();
        let units = list.full_split();
        assert_eq!(units.len() as u128, list.len());
        assert!(units.iter().all(|u| u.ids.len() == 1));
        assert_eq!(IdSet::merge(&units).fold(), list.fold());
        assert_eq!(IdSet::merge(&tree.full_split()).fold(), list.fold());
        assert_eq!(tree.names(), list.names());
    }
}

#[test]
fn a_node_set_is_an_id_set_over_lists() {
    let set = NodeSet::parse("node[1-3] login").unwrap();
    assert_eq!(set.as_idset().fold(), "login,node[1-3]");
    let mut ids: IdSet<RangeList> = IdSet::new();
    ids.push("rack[1-2]n[5-6]").unwrap();
    let back = NodeSet::from_idset(ids);
    assert_eq!(back.fold(), "rack[1-2]n[5-6]");
    assert_eq!(back.len(), 4);
}

#[test]
fn large_sets_fold_in_good_time() {
    let grid = NodeSet::parse("rack[1-300]node[1-5000]-ib").unwrap();
    assert_eq!(grid.len(), 1_500_000);
    assert_eq!(grid.fold(), "rack[1-300]node[1-5000]-ib");
    let cube = NodeSet::parse("a[1-30]b[01-30]c[0-29]d[1-1000000]").unwrap();
    assert_eq!(cube.len(), 27_000_000_000);
    assert_eq!(cube.fold(), "a[1-30]b[01-30]c[0-29]d[1-1000000]");
    let names: Vec<String> = (0..60_000).rev().map(|k| format!("n{}", k * 2)).collect();
    let many = NodeSet::parse(&names.join(",")).unwrap();
    assert_eq!(many.len(), 60_000);
    let other = NodeSet::parse("n[0-200000]").unwrap();
    assert_eq!(other.difference(&many).len(), 200_001 - 60_000);
    assert_eq!(other.intersection(&many).fold(), many.fold());
}

use nodeset::grammar::ParseError;
use nodeset::idset::{Entry, IdSet};
use nodeset::nodeset::NodeSet;
use nodeset::range::IdRange;
use nodeset::range_list::RangeList;
use nodeset::range_tree::RangeTree;

fn parsed(text: &str) -> NodeSet {
    NodeSet::parse(text).unwrap()
}

fn folded(text: &str) -> String {
    parsed(text).fold()
}

#[test]
fn names_fold_into_ranges() {
    assert_eq!(folded("node1 node2 node3 node5"), "node[1-3,5]");
    assert_eq!(folded("node3,node1,node2"), "node[1-3]");
    assert_eq!(folded("node7"), "node7");
    assert_eq!(folded("login"), "login");
    assert_eq!(folded("  node1 \t\n node2,, "), "node[1-2]");
    assert_eq!(folded(""), "");
    assert_eq!(folded(" , "), "");
}

#[test]
fn patterns_are_sorted() {
    assert_eq!(folded("zeta[1-2] alpha3 mid alpha4"), "alpha[3-4],mid,zeta[1-2]");
    assert_eq!(folded("b,a,B,ab,a-"), "B,a,a-,ab,b");
}

#[test]
fn numbers_in_patterns_are_sorted_by_value() {
    assert_eq!(folded("r10n1 r9n2 r100n3 r2n4"), "r2n4,r9n2,r10n1,r100n3");
    assert_eq!(folded("r010n1 r9n2 r09n3 r10n4"), "r09n3,r9n2,r010n1,r10n4");
    assert_eq!(folded("r1x1 r1n1 r01n1"), "r01n1,r1n1,r1x1");
    assert_eq!(folded("r00n1 r0n1 r000n1"), "r000n1,r00n1,r0n1");
    assert_eq!(
        parsed("rack[8-11]u[2,10]n1").iter(),
        vec![
            "rack8u2n1", "rack8u10n1", "rack9u2n1", "rack9u10n1", "rack10u2n1", "rack10u10n1",
            "rack11u2n1", "rack11u10n1",
        ]
    );
    assert_eq!(folded("n99999999999999999999x1 n100000000000000000000x1 n9x1"),
        "n9x1,n99999999999999999999x1,n100000000000000000000x1");
}

#[test]
fn fold_does_not_depend_on_the_order_of_insertion() {
    assert_eq!(folded("b2 a1 b1 a2 c"), folded("c a2 a1 b[1-2]"));
    assert_eq!(folded("b2 a1 b1 a2 c"), "a[1-2],b[1-2],c");
}

#[test]
fn suffixes_and_inner_numbers() {
    assert_eq!(folded("node[1-3]-ib"), "node[1-3]-ib");
    assert_eq!(folded("node1-ib node2-ib"), "node[1-2]-ib");
    assert_eq!(folded("rack1node1 rack1node2"), "rack1node[1-2]");
    assert_eq!(folded("[1-3]"), "[1-3]");
    assert_eq!(folded("5"), "5");
}

#[test]
fn several_dimensions() {
    let ns = parsed("rack[1-2]node[1-3]");
    assert_eq!(ns.fold(), "rack[1-2]node[1-3]");
    assert_eq!(ns.len(), 6);
    assert_eq!(
        ns.iter(),
        vec!["rack1node1", "rack1node2", "rack1node3", "rack2node1", "rack2node2", "rack2node3"]
    );
    assert_eq!(folded("r[01-02]n[1-2]"), "r[01-02]n[1-2]");
    assert_eq!(folded("a[1-2]b[3]c[4-5]"), "a[1-2]b3c[4-5]");
    assert_eq!(folded("a[1-2]b[1-2]c[1-2]"), "a[1-2]b[1-2]c[1-2]");
    assert_eq!(folded("r1n1 r1n2 r2n1 r2n2"), "r[1-2]n[1-2]");
    assert_eq!(folded("r2n2 r1n1 r2n1 r1n2 r3n9"), "r[1-2]n[1-2],r3n9");
    assert_eq!(folded("rack[8-11]node[1-2]"), "rack[8-11]node[1-2]");
    assert_eq!(folded("rack[08-11]node[01-02]-ib"), "rack[08-11]node[01-02]-ib");
    assert_eq!(folded("x[1-3]y z[1-2]y"), "x[1-3]y,z[1-2]y");
    assert_eq!(parsed("rack[9-10]n1").iter(), vec!["rack9n1", "rack10n1"]);
}

#[test]
fn patterns_that_differ_in_more_than_a_number_stay_apart() {
    assert_eq!(folded("rack1node[1-3] rack2node[1-4]"), "rack1node[1-3],rack2node[1-4]");
    assert_eq!(folded("rack01node1 rack2node1"), "rack01node1,rack2node1");
    assert_eq!(folded("rack1node1 rack1x1 rack2node1"), "rack1node1,rack1x1,rack2node1");
    assert_eq!(folded("a1b1 a2c1"), "a1b1,a2c1");
    assert_eq!(folded("n99999999999x1 n99999999998x1"), "n99999999998x1,n99999999999x1");
}

#[test]
fn union_of_two_lists_of_names_is_exact() {
    let u = parsed("rack1node1").union(&parsed("rack2node2"));
    assert_eq!(u.fold(), "rack1node1,rack2node2");
    assert_eq!(u.len(), 2);
}

#[test]
fn padding_is_kept() {
    assert_eq!(folded("node[001-010]"), "node[001-010]");
    assert_eq!(folded("node[08-11]"), "node[08-11]");
    assert_eq!(folded("node007"), "node007");
    assert_eq!(folded("node[098-101]"), "node[098-101]");
    assert_eq!(parsed("node[08-11]").iter(), vec!["node08", "node09", "node10", "node11"]);
}

#[test]
fn the_widest_padding_wins() {
    assert_eq!(folded("node[01-1,5]"), "node[01,05]");
    assert_eq!(folded("node[1-3,005]"), "node[001-003,005]");
    assert_eq!(folded("node01 node2"), "node[01-02]");
    assert_eq!(folded("node[9-10]"), "node[9-10]");
    assert_eq!(folded("node[1-3,10]"), "node[1-3,10]");
    assert_eq!(parsed("node1").union(&parsed("node002")).fold(), "node[001-002]");
}

#[test]
fn every_error_has_its_input() {
    let err = |text: &str| NodeSet::parse(text).err();
    assert_eq!(err("node[1-3"), Some(ParseError::UnmatchedBracket));
    assert_eq!(err("node["), Some(ParseError::UnmatchedBracket));
    assert_eq!(err("node[1,"), Some(ParseError::UnmatchedBracket));
    assert_eq!(err("node]"), Some(ParseError::UnmatchedBracket));
    assert_eq!(err("node[5-3]"), Some(ParseError::InvertedRange));
    assert_eq!(err("node[a]"), Some(ParseError::NonNumeric));
    assert_eq!(err("node[]"), Some(ParseError::NonNumeric));
    assert_eq!(err("node[1,,2]"), Some(ParseError::NonNumeric));
    assert_eq!(err("node[1-]"), Some(ParseError::NonNumeric));
    assert_eq!(err("node[1 2]"), Some(ParseError::UnmatchedBracket));
    assert_eq!(err("node[1-"), Some(ParseError::UnmatchedBracket));
    assert_eq!(err("node[1- 2]"), Some(ParseError::UnmatchedBracket));
    assert_eq!(err("node[1-x]"), Some(ParseError::NonNumeric));
    assert_eq!(err("node[x"), Some(ParseError::NonNumeric));
    assert_eq!(err("node[1[2]]"), Some(ParseError::NonNumeric));
    assert_eq!(err("node[001-05]"), Some(ParseError::PaddingConflict));
    assert_eq!(err("node[1-010]"), Some(ParseError::PaddingConflict));
    assert_eq!(err("node[4294967296]"), Some(ParseError::NumberTooLarge));
    assert_eq!(err("node[1-4294967296]"), Some(ParseError::NumberTooLarge));
    assert_eq!(err("node4294967296"), Some(ParseError::NumberTooLarge));
    assert_eq!(err("node[1-2][4294967296]"), Some(ParseError::NumberTooLarge));
    assert_eq!(err("node[5][000000001]"), Some(ParseError::NumberTooLarge));
    assert_eq!(err("ok bad[ ok"), Some(ParseError::UnmatchedBracket));
}

#[test]
fn numbers_that_touch_are_one_number() {
    assert_eq!(folded("node[1-2][3-4]"), "node[13-14,23-24]");
    assert_eq!(
        parsed("node[1-2][3-4]").iter(),
        vec!["node13", "node14", "node23", "node24"]
    );
    assert_eq!(folded("node1[2-3]"), "node[12-13]");
    assert_eq!(folded("node[2-3]1"), "node[21,31]");
    assert_eq!(folded("node[01-02][3]"), "node[013,023]");
    assert_eq!(folded("node[0-1][5]"), "node[05,15]");
    assert_eq!(folded("n[1-2][0-1][5]x"), "n[105,115,205,215]x");
    assert_eq!(folded("a[1-2][3-4]b[5-6][7]"), "a[13-14,23-24]b[57,67]");
    assert_eq!(folded("a[1][2]b7"), "a12b7");
    assert_eq!(folded("[1-2][3]"), "[13,23]");
}

#[test]
fn the_greatest_identifier_is_read() {
    assert_eq!(folded("node4294967295"), "node4294967295");
    assert_eq!(parsed("node[4294967294-4294967295]").len(), 2);
    assert_eq!(folded("n99999999999x1"), "n99999999999x1");
}

#[test]
fn set_algebra_on_node_sets() {
    let a = parsed("node[1-10] login rack1n[1-4]");
    let b = parsed("node[5-12] login rack2n[1-4] other");
    assert_eq!(a.union(&b).fold(), "login,node[1-12],other,rack[1-2]n[1-4]");
    assert_eq!(a.intersection(&b).fold(), "login,node[5-10]");
    assert_eq!(a.difference(&b).fold(), "node[1-4],rack1n[1-4]");
    assert_eq!(b.difference(&a).fold(), "node[11-12],other,rack2n[1-4]");
    assert_eq!(
        a.symmetric_difference(&b).fold(),
        "node[1-4,11-12],other,rack[1-2]n[1-4]"
    );
    assert_eq!(
        a.difference(&b).union(&b.difference(&a)).fold(),
        a.symmetric_difference(&b).fold()
    );
    assert!(a.difference(&a).is_empty());
    assert_eq!(a.difference(&a).fold(), "");
    assert_eq!(a.difference(&a).len(), 0);
}

#[test]
fn len_is_the_number_of_names() {
    let ns = parsed("node[1-100] login rack[1-3]n[01-10]");
    assert_eq!(ns.len(), 131);
    assert_eq!(ns.iter().len(), 131);
    assert_eq!(parsed("n[0-4294967295]").len(), 1u128 << 32);
    assert!(NodeSet::new().is_empty());
    assert_eq!(NodeSet::new().len(), 0);
}

#[test]
fn folding_twice_changes_nothing() {
    for text in [
        "node[1-3,5]",
        "node[001-010] a b7 c[2,4,6]-x",
        "rack[1-2]node[1-3]",
        "a[1-3]b[07-12]c[5,9]-x d[1-2]e[1-2]f",
        "r1n1 r2n2 r01n1 r10n1 r9n1",
        "n[098-101] m[0-1] k000",
        "x9 x10 x011",
        "",
    ] {
        let once = folded(text);
        let again = parsed(&once);
        assert_eq!(again.fold(), once, "{}", text);
        assert_eq!(again.iter(), parsed(text).iter(), "{}", text);
        assert_eq!(again.len(), parsed(text).len(), "{}", text);
    }
}

fn shown<R: IdRange>(units: &Vec<Entry<R>>) -> Vec<(String, Vec<u32>)> {
    units
        .iter()
        .map(|e| (e.pattern.iter().collect::<String>(), e.ids.to_vec()))
        .collect()
}

#[test]
fn full_split_gives_one_entry_for_each_node() {
    let mut set: IdSet<RangeList> = IdSet::new();
    set.push("b[1-2] a[7,9] c").unwrap();
    let units = set.full_split();
    assert_eq!(
        shown(&units),
        vec![
            ("a[".to_string(), vec![7]),
            ("a[".to_string(), vec![9]),
            ("b[".to_string(), vec![1]),
            ("b[".to_string(), vec![2]),
            ("c".to_string(), vec![0]),
        ]
    );
    assert_eq!(units.len() as u128, set.len());
}

#[test]
fn merge_brings_a_split_set_back() {
    let mut list: IdSet<RangeList> = IdSet::new();
    list.push("node[1-100,200] rack[1-2]n[01-03] login").unwrap();
    let back = IdSet::merge(&list.full_split());
    assert_eq!(back.fold(), list.fold());
    assert_eq!(back.names(), list.names());
    assert_eq!(back.len(), list.len());

    let mut tree: IdSet<RangeTree> = IdSet::new();
    tree.push("node[1-100,200] rack[1-2]n[01-03] login").unwrap();
    let back = IdSet::merge(&tree.full_split());
    assert_eq!(back.fold(), list.fold());
    assert_eq!(back.fold(), "login,node[1-100,200],rack[1-2]n[01-03]");
}

#[test]
fn merge_takes_entries_in_any_order() {
    let mut set: IdSet<RangeList> = IdSet::new();
    set.push("a[1-3] b5").unwrap();
    let mut units = set.full_split();
    units.reverse();
    let mut twice = set.full_split();
    units.append(&mut twice);
    assert_eq!(IdSet::merge(&units).fold(), "a[1-3],b5");
}

#[test]
fn push_adds_to_what_is_there() {
    let mut set: IdSet<RangeTree> = IdSet::new();
    assert!(set.is_empty());
    set.push("node[1-3]").unwrap();
    set.push("node[3-5] extra").unwrap();
    assert_eq!(set.fold(), "extra,node[1-5]");
    assert_eq!(set.push("node[9"), Err(ParseError::UnmatchedBracket));
    assert_eq!(set.fold(), "extra,node[1-5]");
    assert_eq!(set.len(), 6);
    assert_eq!(set.entries().len(), 2);
}

#[test]
fn id_sets_of_both_representations_agree() {
    let (x, y) = ("node[0-1000000] a[1-9] b", "node[1-1000001] a[5-20] c");
    let mut l1: IdSet<RangeList> = IdSet::new();
    let mut l2: IdSet<RangeList> = IdSet::new();
    let mut t1: IdSet<RangeTree> = IdSet::new();
    let mut t2: IdSet<RangeTree> = IdSet::new();
    l1.push(x).unwrap();
    l2.push(y).unwrap();
    t1.push(x).unwrap();
    t2.push(y).unwrap();
    assert_eq!(l1.union(&l2).fold(), t1.union(&t2).fold());
    assert_eq!(l1.intersection(&l2).fold(), t1.intersection(&t2).fold());
    assert_eq!(l1.difference(&l2).fold(), t1.difference(&t2).fold());
    assert_eq!(l1.symmetric_difference(&l2).fold(), t1.symmetric_difference(&t2).fold());
    assert_eq!(l1.intersection(&l2).fold(), "a[5-9],node[1-1000000]");
    assert_eq!(l1.symmetric_difference(&l2).fold(), "a[1-4,10-20],b,c,node[0,1000001]");
    assert_eq!(l1.intersection(&l2).len(), 1_000_005);
}

#[test]
fn a_prefix_comes_before_the_longer_ones() {
    let set = NodeSet::parse("nodeA1,node-a1,node1,nod1,node").unwrap();
    assert_eq!(set.fold(), "nod1,node,node1,node-a1,nodeA1");
    assert_eq!(
        set.iter(),
        vec!["nod1", "node", "node1", "node-a1", "nodeA1"]
    );
    let racks = NodeSet::parse("rack10,rack9,rack-b2,rack[1-2]n3").unwrap();
    assert_eq!(racks.fold(), "rack[9-10],rack-b2,rack[1-2]n3");
}

#[test]
fn texts_joined_by_a_blank_give_the_union() {
    let a = "node[01-03],rack1n5";
    let b = "node[2-5] other";
    let c = "rack[1-2]n[5-6]";
    let ab = NodeSet::parse(&format!("{} {}", a, b)).unwrap();
    let ba = NodeSet::parse(&format!("{} {}", b, a)).unwrap();
    let union = NodeSet::parse(a).unwrap().union(&NodeSet::parse(b).unwrap());
    assert_eq!(ab.fold(), "node[01-05],other,rack1n5");
    assert_eq!(ab.fold(), ba.fold());
    assert_eq!(ab.fold(), union.fold());
    assert_eq!(ab.iter(), ba.iter());
    let left = NodeSet::parse(&format!("{} {}", format!("{} {}", a, b), c)).unwrap();
    let right = NodeSet::parse(&format!("{} {}", a, format!("{} {}", b, c))).unwrap();
    assert_eq!(left.fold(), right.fold());
    assert_eq!(left.fold(), "node[01-05],other,rack[1-2]n[5-6]");
    assert_eq!(
        NodeSet::parse(&format!("{} {}", "node[1-", b)).err(),
        Some(ParseError::UnmatchedBracket)
    );
    assert_eq!(
        NodeSet::parse(&format!("{} {}", a, "node[3-1]")).err(),
        Some(ParseError::InvertedRange)
    );
}

#[test]
fn the_names_of_a_set_read_back_as_the_set() {
    let set = NodeSet::parse("rack[1-2]node[08-11],gw,node[1,3]x").unwrap();
    let names = set.iter();
    assert_eq!(names.len(), 11);
    let text = names.join(" ");
    let back = NodeSet::parse(&text).unwrap();
    assert_eq!(back.len(), set.len());
    assert_eq!(back.fold(), set.fold());
    assert_eq!(back.iter(), names);
    assert!(back.difference(&set).is_empty());
    assert!(set.difference(&back).is_empty());
    assert!(names.contains(&"rack2node11".to_string()));
    assert!(!names.contains(&"rack3node08".to_string()));
}

#[test]
fn names_keep_their_letters_through_fold_and_parse() {
    let set = NodeSet::parse("node[098-101],node007x,r01n[1-2],r02n[1-2]").unwrap();
    let back = NodeSet::parse(&set.fold()).unwrap();
    assert_eq!(back.iter(), set.iter());
    assert_eq!(
        back.iter(),
        vec![
            "node098", "node099", "node100", "node101", "node007x", "r01n1", "r01n2", "r02n1",
            "r02n2"
        ]
    );
    assert_eq!(back.fold(), set.fold());
}

#[test]
fn folded_texts_stand_for_the_texts_they_fold() {
    let a = "node[001-003],node100";
    let b = "node[2-5] rack1n07";
    let c = "node099,rack1n[5-6]";
    let fold_of = |texts: &[&str]| NodeSet::parse(&texts.join(" ")).unwrap().fold();
    let ab = fold_of(&[a, b]);
    let bc = fold_of(&[b, c]);
    let all = NodeSet::parse(&[a, b, c].join(" ")).unwrap();
    assert_eq!(all.fold(), "node[001-005,099-100],rack1n[05-07]");
    let left = NodeSet::parse(&[ab.as_str(), c].join(" ")).unwrap();
    let right = NodeSet::parse(&[a, bc.as_str()].join(" ")).unwrap();
    assert_eq!(left.fold(), all.fold());
    assert_eq!(right.fold(), all.fold());
    assert_eq!(left.iter(), all.iter());
    assert_eq!(right.iter(), all.iter());
    assert_eq!(left.len(), all.len());
    assert_eq!(right.len(), 10);
}

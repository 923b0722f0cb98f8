use nodeset::grammar::ParseError;
use nodeset::nodeset::NodeSet;
use nodeset::resolver::{ResolveError, Resolver, TableSource};

fn parsed(text: &str) -> NodeSet {
    NodeSet::parse(text).unwrap()
}

#[test]
fn parse_lists_members_and_folds_back() {
    let ns = parsed("node[1-3,5]");
    assert_eq!(ns.iter(), vec!["node1", "node2", "node3", "node5"]);
    assert_eq!(ns.fold(), "node[1-3,5]");
}

#[test]
fn union_joins_overlapping_ranges() {
    let u = parsed("node[1-3]").union(&parsed("node[2-5]"));
    assert_eq!(u.fold(), "node[1-5]");
}

#[test]
fn difference_splits_a_range() {
    let d = parsed("node[1-10]").difference(&parsed("node[5-7]"));
    assert_eq!(d.fold(), "node[1-4,8-10]");
}

#[test]
fn len_counts_without_expansion() {
    assert_eq!(parsed("node[1-100]").len(), 100);
}

#[test]
fn intersection_over_two_dimensions() {
    let i = parsed("rack[1-2]node[1-3]").intersection(&parsed("rack[2]node[2-4]"));
    assert_eq!(i.fold(), "rack2node[2-3]");
}

#[test]
fn parse_errors() {
    assert_eq!(NodeSet::parse("node[1-3").err(), Some(ParseError::UnmatchedBracket));
    assert_eq!(NodeSet::parse("node1-3]").err(), Some(ParseError::UnmatchedBracket));
    assert_eq!(NodeSet::parse("node[5-3]").err(), Some(ParseError::InvertedRange));
    assert_eq!(NodeSet::parse("node[a]").err(), Some(ParseError::NonNumeric));
    assert_eq!(NodeSet::parse("node[001-05]").err(), Some(ParseError::PaddingConflict));
    assert_eq!(NodeSet::parse("node[99999999999]").err(), Some(ParseError::NumberTooLarge));
}

#[test]
fn resolve_against_the_default_source() {
    let mut source = TableSource::new();
    source.define("compute", "node[1-4]");
    let mut resolver = Resolver::new("default");
    resolver.register("default", source);
    assert_eq!(resolver.resolve(None, "compute").unwrap().fold(), "node[1-4]");
    assert_eq!(
        resolver.resolve(Some("missing"), "compute").err(),
        Some(ResolveError::SourceNotFound("missing".to_string()))
    );
}

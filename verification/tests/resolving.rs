use nodeset::expansion::{expanded, read_mixed};
use nodeset::grammar::ParseError;
use nodeset::nodeset::NodeSet;
use nodeset::report::{
    argument_text, group_line, group_lines, group_report, resolved_lines, sorted_report,
    source_line, source_lines,
};
use nodeset::resolver::{
    listing, parse_reference, resolution, GroupRef, GroupSource, ResolveError, Resolver,
    ResolverCell, SourceReply, TableSource,
};

fn table(groups: &[(&str, &str)]) -> TableSource {
    let mut t = TableSource::new();
    for (group, nodes) in groups {
        t.define(group, nodes);
    }
    t
}

fn cluster() -> Resolver<TableSource> {
    let mut r = Resolver::new("local");
    assert!(r.register("local", table(&[("compute", "node[1-4]"), ("io", "node[5-6]")])));
    assert!(r.register("site", table(&[("gpu", "gpu[01-08]"), ("broken", "gpu[1-")])));
    r
}

struct Failing;

impl GroupSource for Failing {
    fn groups(&self) -> Result<Vec<String>, String> {
        Err("no such file".to_string())
    }

    fn lookup(&self, _group: &str) -> SourceReply {
        SourceReply::Failed("no such file".to_string())
    }
}

#[test]
fn resolve_from_the_default_source() {
    let r = cluster();
    assert_eq!(r.resolve(None, "compute").unwrap().fold(), "node[1-4]");
    assert_eq!(r.resolve(Some("local"), "io").unwrap().fold(), "node[5-6]");
    assert_eq!(r.resolve(Some("site"), "gpu").unwrap().fold(), "gpu[01-08]");
}

#[test]
fn resolve_fails_with_the_name_that_is_missing() {
    let r = cluster();
    assert_eq!(
        r.resolve(Some("missing"), "compute").err(),
        Some(ResolveError::SourceNotFound("missing".to_string()))
    );
    assert_eq!(
        r.resolve(None, "gpu").err(),
        Some(ResolveError::GroupNotFound("gpu".to_string()))
    );
    assert_eq!(
        r.resolve(Some("site"), "broken").err(),
        Some(ResolveError::Definition(ParseError::UnmatchedBracket))
    );
    let lonely: Resolver<TableSource> = Resolver::new("nowhere");
    assert_eq!(
        lonely.resolve(None, "compute").err(),
        Some(ResolveError::SourceNotFound("nowhere".to_string()))
    );
}

#[test]
fn a_failing_source_is_named_in_the_error() {
    let mut r = Resolver::new("files");
    r.register("files", Failing);
    assert_eq!(
        r.resolve(None, "compute").err(),
        Some(ResolveError::SourceError("files".to_string(), "no such file".to_string()))
    );
    assert_eq!(
        r.list_groups(None).err(),
        Some(ResolveError::SourceError("files".to_string(), "no such file".to_string()))
    );
}

#[test]
fn sources_and_default() {
    let mut r = cluster();
    assert_eq!(r.sources(), vec!["local", "site"]);
    assert_eq!(r.default_source(), "local");
    assert!(!r.register("site", TableSource::new()));
    assert_eq!(r.sources(), vec!["local", "site"]);
    assert_eq!(r.resolve(Some("site"), "gpu").unwrap().len(), 8);
}

#[test]
fn groups_are_listed_in_the_order_of_the_source() {
    let r = cluster();
    assert_eq!(r.list_groups(None).unwrap(), vec!["compute", "io"]);
    assert_eq!(r.list_groups(Some("site")).unwrap(), vec!["gpu", "broken"]);
    assert_eq!(
        r.list_groups(Some("missing")).err(),
        Some(ResolveError::SourceNotFound("missing".to_string()))
    );
    let all = r.list_all_groups();
    assert_eq!(all.len(), 2);
    assert_eq!(all[0].0, "local");
    assert_eq!(all[0].1, Ok(vec!["compute".to_string(), "io".to_string()]));
    assert_eq!(all[1].0, "site");
}

#[test]
fn what_is_made_of_each_answer() {
    assert_eq!(
        resolution("s", "g", SourceReply::Found("n[1-2]".to_string())).unwrap().fold(),
        "n[1-2]"
    );
    assert_eq!(
        resolution("s", "g", SourceReply::NotFound).err(),
        Some(ResolveError::GroupNotFound("g".to_string()))
    );
    assert_eq!(
        resolution("s", "g", SourceReply::Failed("why".to_string())).err(),
        Some(ResolveError::SourceError("s".to_string(), "why".to_string()))
    );
    assert_eq!(
        resolution("s", "g", SourceReply::Found("n[2-1]".to_string())).err(),
        Some(ResolveError::Definition(ParseError::InvertedRange))
    );
    assert_eq!(listing("s", Ok(vec!["a".to_string()])), Ok(vec!["a".to_string()]));
    assert_eq!(
        listing("s", Err("why".to_string())),
        Err(ResolveError::SourceError("s".to_string(), "why".to_string()))
    );
}

#[test]
fn the_cell_is_configured_once() {
    let mut cell: ResolverCell<TableSource> = ResolverCell::new();
    assert!(!cell.is_ready());
    assert_eq!(cell.try_get().err(), Some(ResolveError::ResolverUninitialized));
    assert!(cell.set(cluster()).is_ok());
    assert!(cell.is_ready());
    assert_eq!(cell.get().default_source(), "local");
    let refused = cell.set(Resolver::new("other"));
    assert_eq!(refused.err().map(|r| r.default_source()), Some("other".to_string()));
    assert_eq!(cell.try_get().ok().map(|r| r.default_source()), Some("local".to_string()));
}

#[test]
fn group_references() {
    assert_eq!(
        parse_reference("@compute"),
        Some(GroupRef { source: None, group: "compute".to_string() })
    );
    assert_eq!(
        parse_reference("@site:gpu"),
        Some(GroupRef { source: Some("site".to_string()), group: "gpu".to_string() })
    );
    assert_eq!(
        parse_reference("@a:b:c"),
        Some(GroupRef { source: Some("a".to_string()), group: "b:c".to_string() })
    );
    assert_eq!(parse_reference("@"), Some(GroupRef { source: None, group: String::new() }));
    assert_eq!(
        parse_reference("@:g"),
        Some(GroupRef { source: Some(String::new()), group: "g".to_string() })
    );
    assert_eq!(parse_reference("compute"), None);
    assert_eq!(parse_reference(""), None);
}

#[test]
fn expand_reads_names_and_references() {
    let r = cluster();
    assert_eq!(r.expand("node[1-3,5]").unwrap().fold(), "node[1-3,5]");
    assert_eq!(r.expand("@compute").unwrap().fold(), "node[1-4]");
    assert_eq!(
        r.expand("@compute,@local:io node9 @site:gpu").unwrap().fold(),
        "gpu[01-08],node[1-6,9]"
    );
    assert_eq!(r.expand("").unwrap().fold(), "");
    assert_eq!(
        r.expand("node1 @nothing").err(),
        Some(ResolveError::GroupNotFound("nothing".to_string()))
    );
    assert_eq!(
        r.expand("@else:compute").err(),
        Some(ResolveError::SourceNotFound("else".to_string()))
    );
    assert_eq!(
        r.expand("node[1").err(),
        Some(ResolveError::Definition(ParseError::UnmatchedBracket))
    );
}

#[test]
fn lines_of_groups() {
    let members = NodeSet::parse("node[1-4]").unwrap();
    let filter = NodeSet::parse("node[3-9]").unwrap();
    let apart = NodeSet::parse("other[1-2]").unwrap();
    assert_eq!(group_line(None, "compute", &members, None, false), Some("@compute".to_string()));
    assert_eq!(
        group_line(Some("site"), "compute", &members, None, true),
        Some("@site:compute node[1-4]".to_string())
    );
    assert_eq!(
        group_line(None, "compute", &members, Some(&filter), true),
        Some("@compute node[3-4]".to_string())
    );
    assert_eq!(
        group_line(None, "compute", &members, Some(&filter), false),
        Some("@compute".to_string())
    );
    assert_eq!(group_line(None, "compute", &members, Some(&apart), true), None);
    let empty = NodeSet::new();
    assert_eq!(group_line(None, "none", &empty, None, true), Some("@none ".to_string()));
}

#[test]
fn sorted_report_sorts_and_joins() {
    let lines = vec!["@io".to_string(), "@compute".to_string(), "@b:x".to_string(), "@io".to_string()];
    assert_eq!(sorted_report(lines), "@b:x\n@compute\n@io\n@io");
    assert_eq!(sorted_report(vec![]), "");
    assert_eq!(sorted_report(vec!["one".to_string()]), "one");
    assert_eq!(sorted_report(vec!["b".to_string(), "B".to_string(), "a".to_string()]), "B\na\nb");
}

#[test]
fn report_of_groups() {
    let r = cluster();
    assert_eq!(group_report(&r, false, None, false, None), "@compute\n@io");
    assert_eq!(group_report(&r, false, Some("site"), true, None), "@site:gpu gpu[01-08]");
    assert_eq!(
        group_report(&r, true, None, true, None),
        "@compute node[1-4]\n@io node[5-6]\n@site:gpu gpu[01-08]"
    );
    let filter = NodeSet::parse("node[4-5] gpu03").unwrap();
    assert_eq!(
        group_report(&r, true, None, true, Some(&filter)),
        "@compute node4\n@io node5\n@site:gpu gpu03"
    );
    let apart = NodeSet::parse("x1").unwrap();
    assert_eq!(group_report(&r, true, None, true, Some(&apart)), "");
    assert_eq!(group_report(&r, false, Some("missing"), false, None), "");
    assert_eq!(group_lines(&r, true, None, false, None), vec!["@compute", "@io", "@site:gpu"]);
}

#[test]
fn lines_of_sources() {
    assert_eq!(source_line("local", "local"), "local (default)");
    assert_eq!(source_line("site", "local"), "site");
    assert_eq!(source_lines(&cluster()), vec!["local (default)", "site"]);
}

#[test]
fn text_of_the_arguments() {
    assert_eq!(argument_text(None), None);
    assert_eq!(argument_text(Some(vec!["-".to_string()])), None);
    assert_eq!(
        argument_text(Some(vec!["node1".to_string(), "node2".to_string()])),
        Some("node1 node2".to_string())
    );
    assert_eq!(argument_text(Some(vec!["-".to_string(), "x".to_string()])), Some("- x".to_string()));
    assert_eq!(argument_text(Some(vec![])), Some(String::new()));
    assert_eq!(argument_text(Some(vec!["--".to_string()])), Some("--".to_string()));
}

#[test]
fn a_table_from_its_text() {
    let text = [
        "# groups of the site",
        "compute: node[1-4]",
        "  io :node[5-6]",
        "",
        "not a definition",
        "gpu:gpu[1-2]:x",
        "compute: other",
    ]
    .join("\n");
    let text = text.as_str();
    let t = TableSource::from_text(text);
    let names: Vec<String> = ["compute", "io", "gpu", "compute"].iter().map(|s| s.to_string()).collect();
    assert_eq!(t.groups(), Ok(names));
    assert_eq!(t.definition("compute"), Some(" node[1-4]".to_string()));
    assert_eq!(t.definition("io"), Some("node[5-6]".to_string()));
    assert_eq!(t.definition("gpu"), Some("gpu[1-2]:x".to_string()));
    assert_eq!(t.definition("nothing"), None);
    assert_eq!(t.lookup("io"), SourceReply::Found("node[5-6]".to_string()));
    assert_eq!(t.lookup("nothing"), SourceReply::NotFound);
    assert_eq!(TableSource::from_text("").groups(), Ok(vec![]));
    assert_eq!(TableSource::from_text("a:b\n").definition("a"), Some("b".to_string()));
    let mut r = Resolver::new("file");
    r.register("file", t);
    assert_eq!(r.resolve(None, "compute").unwrap().fold(), "node[1-4]");
}

#[test]
fn errors_in_words() {
    assert_eq!(ParseError::UnmatchedBracket.describe(), "unmatched bracket");
    assert_eq!(ParseError::InvertedRange.describe(), "range starts after its end");
    assert_eq!(
        ResolveError::SourceNotFound("x".to_string()).describe(),
        "source not found: x"
    );
    assert_eq!(ResolveError::GroupNotFound("g".to_string()).describe(), "group not found: g");
    assert_eq!(
        ResolveError::SourceError("s".to_string(), "why".to_string()).describe(),
        "source s failed: why"
    );
    assert_eq!(
        ResolveError::Definition(ParseError::NonNumeric).describe(),
        "failed to parse nodeset: not a number"
    );
    assert_eq!(
        ResolveError::ResolverUninitialized.describe(),
        "no resolver has been configured"
    );
}

#[test]
fn lines_follow_the_listing_of_each_source() {
    let r = cluster();
    assert_eq!(
        group_lines(&r, false, Some("site"), true, None),
        vec!["@site:gpu gpu[01-08]"]
    );
    assert_eq!(
        group_lines(&r, false, None, true, None),
        vec!["@compute node[1-4]", "@io node[5-6]"]
    );
    assert_eq!(
        group_lines(&r, true, None, false, None),
        vec!["@compute", "@io", "@site:gpu"]
    );
    assert!(group_lines(&r, false, Some("missing"), true, None).is_empty());
    let none: Resolver<TableSource> = Resolver::new("local");
    assert!(group_lines(&none, true, None, true, None).is_empty());
    let filter = NodeSet::parse("node[4-5]").unwrap();
    assert_eq!(
        group_lines(&r, true, None, true, Some(&filter)),
        vec!["@compute node4", "@io node5"]
    );
}

#[test]
fn names_and_references_are_read_apart() {
    let text: Vec<char> = "node[1-2]x3 @compute,@site:gpu\tnode7,@a:b:c @".chars().collect();
    let (pieces, references) = read_mixed(&text).unwrap();
    assert_eq!(pieces.len(), 3);
    assert_eq!(pieces[0].pattern.iter().collect::<String>(), "node1x[");
    assert_eq!(pieces[1].pattern.iter().collect::<String>(), "node2x[");
    assert_eq!(pieces[2].pattern.iter().collect::<String>(), "node[");
    assert_eq!(
        references,
        vec![
            GroupRef { source: None, group: "compute".to_string() },
            GroupRef { source: Some("site".to_string()), group: "gpu".to_string() },
            GroupRef { source: Some("a".to_string()), group: "b:c".to_string() },
            GroupRef { source: None, group: "".to_string() },
        ]
    );
    let plain: Vec<char> = "node[1-3]".chars().collect();
    let (pieces, references) = read_mixed(&plain).unwrap();
    assert_eq!(pieces.len(), 1);
    assert!(references.is_empty());
    let broken: Vec<char> = "@compute node[1-".chars().collect();
    assert_eq!(read_mixed(&broken).err(), Some(ParseError::UnmatchedBracket));
}

#[test]
fn expand_fails_with_the_first_reference_that_gives_no_nodes() {
    let r = cluster();
    assert_eq!(
        r.expand("@else:compute @nothing").err(),
        Some(ResolveError::SourceNotFound("else".to_string()))
    );
    assert_eq!(
        r.expand("@compute @nothing @else:compute").err(),
        Some(ResolveError::GroupNotFound("nothing".to_string()))
    );
    assert_eq!(
        r.expand("node1,@site:broken,@nothing").err(),
        Some(ResolveError::Definition(ParseError::UnmatchedBracket))
    );
    assert_eq!(
        r.expand("@nothing node[1-").err(),
        Some(ResolveError::Definition(ParseError::UnmatchedBracket))
    );
    let mut failing: Resolver<Failing> = Resolver::new("files");
    assert!(failing.register("files", Failing));
    assert_eq!(
        failing.expand("node1 @any").err(),
        Some(ResolveError::SourceError("files".to_string(), "no such file".to_string()))
    );
    assert_eq!(failing.expand("node1").unwrap().fold(), "node1");
}

#[test]
fn expand_unites_names_and_groups() {
    let r = cluster();
    let all = r.expand("node[03-04],other1 @compute @io").unwrap();
    assert_eq!(all.fold(), "node[01-06],other1");
    assert_eq!(all.len(), 7);
    let twice = r.expand("@compute,@compute").unwrap();
    assert_eq!(twice.fold(), "node[1-4]");
    let wanted = NodeSet::parse("node[03-04],other1")
        .unwrap()
        .union(&r.resolve(None, "compute").unwrap())
        .union(&r.resolve(None, "io").unwrap());
    assert_eq!(all.fold(), wanted.fold());
}

#[test]
fn lines_of_what_was_resolved() {
    let groups = vec!["compute".to_string(), "gone".to_string(), "io".to_string()];
    let results = vec![
        Ok(NodeSet::parse("node[1-4]").unwrap()),
        Err(ResolveError::GroupNotFound("gone".to_string())),
        Ok(NodeSet::parse("node[5-6]").unwrap()),
    ];
    assert_eq!(
        resolved_lines(Some("local"), &groups, &results, None, true),
        vec!["@local:compute node[1-4]", "@local:io node[5-6]"]
    );
    assert_eq!(resolved_lines(None, &groups, &results, None, false), vec!["@compute", "@io"]);
    let filter = NodeSet::parse("node[4-5],node9").unwrap();
    assert_eq!(
        resolved_lines(None, &groups, &results, Some(&filter), true),
        vec!["@compute node4", "@io node5"]
    );
    let apart = NodeSet::parse("other1").unwrap();
    assert!(resolved_lines(None, &groups, &results, Some(&apart), true).is_empty());
    assert!(resolved_lines(None, &Vec::new(), &Vec::new(), None, true).is_empty());
}

#[test]
fn what_the_references_gave_is_united_with_the_names() {
    let text: Vec<char> = "node[1-2] @a @b".chars().collect();
    let (pieces, references) = read_mixed(&text).unwrap();
    assert_eq!(references.len(), 2);
    let all = expanded(
        &pieces,
        vec![Ok(NodeSet::parse("node[05-06]").unwrap()), Ok(NodeSet::parse("other1").unwrap())],
    )
    .unwrap();
    assert_eq!(all.fold(), "node[01-02,05-06],other1");
    assert_eq!(expanded(&pieces, Vec::new()).unwrap().fold(), "node[1-2]");
    assert_eq!(
        expanded(
            &pieces,
            vec![
                Ok(NodeSet::parse("node5").unwrap()),
                Err(ResolveError::GroupNotFound("b".to_string())),
                Err(ResolveError::SourceNotFound("c".to_string())),
            ],
        )
        .err(),
        Some(ResolveError::GroupNotFound("b".to_string()))
    );
    assert_eq!(
        expanded(&Vec::new(), vec![Err(ResolveError::ResolverUninitialized)]).err(),
        Some(ResolveError::ResolverUninitialized)
    );
    assert_eq!(
        expanded(&Vec::new(), vec![Ok(NodeSet::parse("gw").unwrap())]).unwrap().fold(),
        "gw"
    );
}

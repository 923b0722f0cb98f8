//! The lines that the command-line tool prints about groups and sources.

use crate::content::{
    combined, combines, gathered, gathers, lemma_combines_unique, lemma_gathers_unique, members,
    written_groups, Group, Node,
};
use crate::runs::SetOp;
use crate::compaction::folded_text;
use crate::folding::strings_view;
use crate::nodeset::NodeSet;
use crate::grammar::parse_spec;
use crate::resolver::{key_of, resolved, GroupSource, ResolveError, Resolver, SourceReply};
use crate::pattern::{precedes, push_chars};
use crate::text::{chars_of, string_of};
use itertools::Itertools;
use vstd::prelude::*;

verus! {

/// The texts with `sep` between them.
pub open spec fn joined(lines: Seq<Seq<char>>, sep: Seq<char>) -> Seq<char>
    decreases lines.len(),
{
    if lines.len() == 0 {
        Seq::empty()
    } else if lines.len() == 1 {
        lines[0]
    } else {
        joined(lines.drop_last(), sep) + sep + lines.last()
    }
}

/// Whether `sorted` holds the texts of `lines`, each as often, in ascending
/// order.
pub open spec fn is_sorting(lines: Seq<Seq<char>>, sorted: Seq<Seq<char>>) -> bool {
    &&& sorted.to_multiset() == lines.to_multiset()
    &&& forall|i: int, j: int|
        #![trigger sorted[i], sorted[j]]
        0 <= i < j < sorted.len() ==> !precedes(sorted[j], sorted[i])
}

/// The lines in ascending order. This is `Itertools::sorted` of itertools,
/// which collects the items, sorts them with the stable sort of slices and
/// hands them out again. Strings are ordered lexicographically by their
/// bytes, which is the order of their characters. So the result holds the
/// same strings, each as often, and none comes before one that precedes it.
#[verifier::external_body]
fn sorted_lines(lines: Vec<String>) -> (out: Vec<String>)
    ensures
        is_sorting(strings_view(lines@), strings_view(out@)),
{
    lines.into_iter().sorted().collect()
}

/// The lines as one text with `sep` between them. This is `Itertools::join`
/// of itertools, which writes the first item as it displays, and then for
/// each further item the separator and the item; a string displays as
/// itself, and no item gives the empty text.
#[verifier::external_body]
fn join_lines(lines: &Vec<String>, sep: &str) -> (out: String)
    ensures
        out@ == joined(strings_view(lines@), sep@),
{
    lines.iter().join(sep)
}

/// The lines sorted and joined, one under the other.
pub fn sorted_report(lines: Vec<String>) -> (out: String)
    ensures
        exists|sorted: Seq<Seq<char>>| #[trigger]
            is_sorting(strings_view(lines@), sorted) && out@ == joined(sorted, seq!['\n']),
{
    let ghost given = strings_view(lines@);
    let sorted = sorted_lines(lines);
    let newline = "\n";
    proof {
        reveal_strlit("\n");
        assert(newline@ =~= seq!['\n']);
        assert(is_sorting(given, strings_view(sorted@)));
    }
    join_lines(&sorted, newline)
}

/// How a group is referred to: `@group`, or `@source:group` where a source
/// is named.
pub open spec fn label_of(source: Option<Seq<char>>, group: Seq<char>) -> Seq<char> {
    match source {
        Some(name) => seq!['@'] + name + seq![':'] + group,
        None => seq!['@'] + group,
    }
}

fn label_chars(source: Option<&str>, group: &str) -> (out: Vec<char>)
    ensures
        out@ == label_of(
            match source {
                Some(name) => Some(name@),
                None => None,
            },
            group@,
        ),
{
    let mut out: Vec<char> = Vec::new();
    out.push('@');
    match source {
        Some(name) => {
            let name_chars = chars_of(name);
            push_chars(&mut out, &name_chars);
            out.push(':');
        },
        None => {},
    }
    let group_chars = chars_of(group);
    push_chars(&mut out, &group_chars);
    proof {
        match source {
            Some(name) => {
                assert(out@ =~= seq!['@'] + name@ + seq![':'] + group@);
            },
            None => {
                assert(out@ =~= seq!['@'] + group@);
            },
        }
    }
    out
}

/// The text of a name, if there is one.
pub open spec fn name_view(name: Option<&str>) -> Option<Seq<char>> {
    match name {
        Some(text) => Some(text@),
        None => None,
    }
}

/// What a filter holds, if there is one.
pub open spec fn filter_content(filter: Option<&NodeSet>) -> Option<Seq<Group>> {
    match filter {
        Some(f) => Some(f.content()),
        None => None,
    }
}

/// What is shown of a group with the content `all`: with a filter what the
/// two have in common, without one `all` itself.
pub open spec fn shown_content(all: Seq<Group>, filter: Option<Seq<Group>>) -> Seq<Group> {
    match filter {
        Some(kept) => combined(SetOp::Intersection, all, kept),
        None => all,
    }
}

/// The line of a group with the content `all`, if it gets one. With a
/// filter, a group of which nothing is shown gets none. The line is the
/// reference to the group; where members are to be displayed a blank and
/// the folded text of what is shown follow.
pub open spec fn line_of(
    label: Seq<char>,
    all: Seq<Group>,
    filter: Option<Seq<Group>>,
    display_members: bool,
) -> Option<Seq<char>> {
    let shown = shown_content(all, filter);
    if filter is Some && members(shown) == Set::<Node>::empty() {
        None
    } else if display_members {
        Some(label + seq![' '] + folded_text(shown))
    } else {
        Some(label)
    }
}

/// A line of a group refers to the group.
pub proof fn lemma_line_refers(
    source: Option<Seq<char>>,
    group: Seq<char>,
    all: Seq<Group>,
    filter: Option<Seq<Group>>,
    display_members: bool,
)
    ensures
        line_of(label_of(source, group), all, filter, display_members) matches Some(line)
            ==> line.len() > 0 && line[0] == '@',
{
    let label = label_of(source, group);
    assert(label.len() > 0 && label[0] == '@');
    match line_of(label, all, filter, display_members) {
        Some(line) => {
            assert(line[0] == label[0]);
        },
        None => {},
    }
}

/// The line of one group, if it gets one. With a filter, the group is shown
/// with those of its members that the filter holds, and gets no line where
/// there are none. The line is the reference to the group; where members are
/// to be displayed a blank and their folded text follow.
pub fn group_line(
    source: Option<&str>,
    group: &str,
    members: &NodeSet,
    filter: Option<&NodeSet>,
    display_members: bool,
) -> (line: Option<String>)
    requires
        members.wf(),
        filter matches Some(f) ==> f.wf(),
    ensures
        match line {
            Some(text) => line_of(
                label_of(name_view(source), group@),
                members.content(),
                filter_content(filter),
                display_members,
            ) == Some(text@),
            None => line_of(
                label_of(name_view(source), group@),
                members.content(),
                filter_content(filter),
                display_members,
            ) is None,
        },
        filter matches Some(f) ==> crate::content::members(
            shown_content(members.content(), filter_content(filter)),
        ) == members@.intersect(f@),
{
    let mut out = label_chars(source, group);
    let ghost label = out@;
    match filter {
        Some(f) => {
            let kept = members.intersection(f);
            proof {
                let shown = combined(SetOp::Intersection, members.content(), f.content());
                assert(combines(
                    SetOp::Intersection,
                    members.content(),
                    f.content(),
                    kept.content(),
                ));
                lemma_combines_unique(
                    SetOp::Intersection,
                    members.content(),
                    f.content(),
                    kept.content(),
                    shown,
                );
            }
            if kept.is_empty() {
                return None;
            }
            if display_members {
                out.push(' ');
                let folded = chars_of(kept.fold().as_str());
                push_chars(&mut out, &folded);
                proof {
                    assert(out@ =~= label + seq![' '] + folded_text(kept.content()));
                }
            }
        },
        None => {
            if display_members {
                out.push(' ');
                let folded = chars_of(members.fold().as_str());
                push_chars(&mut out, &folded);
                proof {
                    assert(out@ =~= label + seq![' '] + folded_text(members.content()));
                }
            }
        },
    }
    Some(string_of(&out))
}

/// The line of one source: its name, marked where it is the default.
pub fn source_line(name: &str, default_source: &str) -> (line: String)
    ensures
        name@ == default_source@ ==> line@ == name@ + seq![
            ' ',
            '(',
            'd',
            'e',
            'f',
            'a',
            'u',
            'l',
            't',
            ')',
        ],
        name@ != default_source@ ==> line@ == name@,
{
    let this = String::from_str(name);
    let that = String::from_str(default_source);
    let mut out = chars_of(name);
    if this == that {
        let ghost before = out@;
        out.push(' ');
        out.push('(');
        out.push('d');
        out.push('e');
        out.push('f');
        out.push('a');
        out.push('u');
        out.push('l');
        out.push('t');
        out.push(')');
        proof {
            assert(out@ =~= before + seq![' ', '(', 'd', 'e', 'f', 'a', 'u', 'l', 't', ')']);
        }
    }
    string_of(&out)
}

/// The text that the arguments of a command give: the arguments with a
/// blank between them. Without arguments, or with the single argument `-`,
/// there is none, and the text is to be read from the standard input.
pub fn argument_text(args: Option<Vec<String>>) -> (text: Option<String>)
    ensures
        match args {
            None => text is None,
            Some(given) => if given@.len() == 1 && given@[0]@ == seq!['-'] {
                text is None
            } else {
                text matches Some(t) && t@ == joined(strings_view(given@), seq![' '])
            },
        },
{
    match args {
        None => None,
        Some(given) => {
            if given.len() == 1 {
                let only = chars_of(given[0].as_str());
                if only.len() == 1 && only[0] == '-' {
                    proof {
                        assert(only@ =~= seq!['-']);
                    }
                    return None;
                }
            }
            let mut out: Vec<char> = Vec::new();
            let mut k: usize = 0;
            let ghost lines = strings_view(given@);
            proof {
                assert(joined(lines.take(0), seq![' ']) =~= out@);
            }
            while k < given.len()
                invariant
                    k <= given@.len(),
                    lines == strings_view(given@),
                    out@ == joined(lines.take(k as int), seq![' ']),
                decreases given@.len() - k,
            {
                if k > 0 {
                    out.push(' ');
                }
                let word = chars_of(given[k].as_str());
                push_chars(&mut out, &word);
                proof {
                    let next = lines.take(k + 1);
                    assert(next.drop_last() =~= lines.take(k as int));
                    assert(next.last() == given@[k as int]@);
                    if k == 0 {
                        assert(next[0] == lines[0]);
                        assert(joined(lines.take(0), seq![' ']) =~= Seq::<char>::empty());
                        assert(out@ =~= lines[0]);
                    }
                    assert(out@ =~= joined(next, seq![' ']));
                }
                k = k + 1;
            }
            proof {
                assert(lines.take(k as int) =~= lines);
            }
            Some(string_of(&out))
        },
    }
}

/// Whether each line refers to a group.
pub open spec fn all_refer(lines: Seq<Seq<char>>) -> bool {
    forall|k: int| 0 <= k < lines.len() ==> (#[trigger] lines[k]).len() > 0 && lines[k][0] == '@'
}

/// The content that a source's answer gives for a group, if it gives one:
/// what gathers the text of a definition that is in the folded notation.
pub open spec fn reply_content(reply: SourceReply) -> Option<Seq<Group>> {
    match reply {
        SourceReply::Found(text) => match parse_spec(text@) {
            Ok(found) => Some(gathered(written_groups(found))),
            Err(_) => None,
        },
        _ => None,
    }
}

/// The line of a group for what its source answered, if it gets one: none
/// where the answer gives no content, else the line of that content.
pub open spec fn reply_line(
    source: Option<Seq<char>>,
    group: Seq<char>,
    reply: SourceReply,
    filter: Option<Seq<Group>>,
    display_members: bool,
) -> Option<Seq<char>> {
    match reply_content(reply) {
        Some(all) => line_of(label_of(source, group), all, filter, display_members),
        None => None,
    }
}

/// The lines of the first `n` of the groups, in their order, for what the
/// source answered for each.
pub open spec fn group_lines_of(
    source: Option<Seq<char>>,
    groups: Seq<Seq<char>>,
    replies: Seq<SourceReply>,
    filter: Option<Seq<Group>>,
    display_members: bool,
    n: nat,
) -> Seq<Seq<char>>
    decreases n,
{
    if n == 0 {
        Seq::empty()
    } else {
        let front = group_lines_of(
            source,
            groups,
            replies,
            filter,
            display_members,
            (n - 1) as nat,
        );
        match reply_line(source, groups[n - 1], replies[n - 1], filter, display_members) {
            Some(line) => front.push(line),
            None => front,
        }
    }
}

/// Lines of groups refer to groups.
pub proof fn lemma_resolved_refer(
    source: Option<Seq<char>>,
    groups: Seq<Seq<char>>,
    results: Seq<Result<NodeSet, ResolveError>>,
    filter: Option<Seq<Group>>,
    display_members: bool,
    n: nat,
)
    ensures
        all_refer(resolved_lines_of(source, groups, results, filter, display_members, n)),
    decreases n,
{
    if n > 0 {
        let front = resolved_lines_of(
            source,
            groups,
            results,
            filter,
            display_members,
            (n - 1) as nat,
        );
        lemma_resolved_refer(source, groups, results, filter, display_members, (n - 1) as nat);
        match resolved_content(results[n - 1]) {
            Some(all) => {
                lemma_line_refers(source, groups[n - 1], all, filter, display_members);
            },
            None => {},
        }
        let lines = resolved_lines_of(source, groups, results, filter, display_members, n);
        assert forall|k: int| 0 <= k < lines.len() implies (#[trigger] lines[k]).len() > 0
            && lines[k][0] == '@' by {
            if k < front.len() {
                assert(lines[k] == front[k]);
            }
        }
    }
}

/// The content of what was made of a source's answer, if it is a set of
/// nodes.
pub open spec fn resolved_content(result: Result<NodeSet, ResolveError>) -> Option<Seq<Group>> {
    match result {
        Ok(nodes) => Some(nodes.content()),
        Err(_) => None,
    }
}

/// The lines of the first `n` of the groups, in their order, for what was
/// made of the source's answer for each: a group gets the line of its
/// content, if that line is one; a group without content gets none.
pub open spec fn resolved_lines_of(
    source: Option<Seq<char>>,
    groups: Seq<Seq<char>>,
    results: Seq<Result<NodeSet, ResolveError>>,
    filter: Option<Seq<Group>>,
    display_members: bool,
    n: nat,
) -> Seq<Seq<char>>
    decreases n,
{
    if n == 0 {
        Seq::empty()
    } else {
        let front = resolved_lines_of(
            source,
            groups,
            results,
            filter,
            display_members,
            (n - 1) as nat,
        );
        match resolved_content(results[n - 1]) {
            Some(all) => match line_of(
                label_of(source, groups[n - 1]),
                all,
                filter,
                display_members,
            ) {
                Some(line) => front.push(line),
                None => front,
            },
            None => front,
        }
    }
}

/// Whether the results are what was made of the answers, one for one: a
/// set of nodes with the content of the answer, or none where the answer
/// has none.
pub open spec fn made_of(
    results: Seq<Result<NodeSet, ResolveError>>,
    replies: Seq<SourceReply>,
) -> bool {
    &&& replies.len() == results.len()
    &&& forall|k: int|
        0 <= k < results.len() ==> resolved_content(#[trigger] results[k]) == reply_content(
            replies[k],
        )
}

/// The lines for what was made of the answers are the lines for the
/// answers.
pub proof fn lemma_resolved_lines(
    source: Option<Seq<char>>,
    groups: Seq<Seq<char>>,
    results: Seq<Result<NodeSet, ResolveError>>,
    replies: Seq<SourceReply>,
    filter: Option<Seq<Group>>,
    display_members: bool,
    n: nat,
)
    requires
        n <= results.len(),
        n <= replies.len(),
        forall|k: int|
            0 <= k < n ==> resolved_content(#[trigger] results[k]) == reply_content(replies[k]),
    ensures
        resolved_lines_of(source, groups, results, filter, display_members, n) == group_lines_of(
            source,
            groups,
            replies,
            filter,
            display_members,
            n,
        ),
    decreases n,
{
    if n > 0 {
        lemma_resolved_lines(
            source,
            groups,
            results,
            replies,
            filter,
            display_members,
            (n - 1) as nat,
        );
        assert(resolved_content(results[n - 1]) == reply_content(replies[n - 1]));
    }
}

/// Where nothing was made of any answer there is no line.
pub proof fn lemma_no_resolved_lines(
    source: Option<Seq<char>>,
    groups: Seq<Seq<char>>,
    results: Seq<Result<NodeSet, ResolveError>>,
    filter: Option<Seq<Group>>,
    display_members: bool,
    n: nat,
)
    requires
        n <= results.len(),
        forall|k: int| 0 <= k < n ==> (#[trigger] results[k]) is Err,
    ensures
        resolved_lines_of(source, groups, results, filter, display_members, n) == Seq::<
            Seq<char>,
        >::empty(),
    decreases n,
{
    if n > 0 {
        lemma_no_resolved_lines(source, groups, results, filter, display_members, (n - 1) as nat);
        assert(results[n - 1] is Err);
    }
}

/// The lines of the given groups of one source, in their order, from what
/// was made of the source's answer for each of them: exactly the lines of
/// `group_lines_of` for those answers.
pub fn resolved_lines(
    source: Option<&str>,
    groups: &Vec<String>,
    results: &Vec<Result<NodeSet, ResolveError>>,
    filter: Option<&NodeSet>,
    display_members: bool,
) -> (lines: Vec<String>)
    requires
        results@.len() == groups@.len(),
        forall|k: int|
            0 <= k < results@.len() ==> ((#[trigger] results@[k]) matches Ok(nodes)
                ==> nodes.wf()),
        filter matches Some(f) ==> f.wf(),
    ensures
        strings_view(lines@) == resolved_lines_of(
            name_view(source),
            strings_view(groups@),
            results@,
            filter_content(filter),
            display_members,
            groups@.len() as nat,
        ),
        forall|replies: Seq<SourceReply>|
            made_of(results@, replies) ==> strings_view(lines@) == #[trigger] group_lines_of(
                name_view(source),
                strings_view(groups@),
                replies,
                filter_content(filter),
                display_members,
                groups@.len() as nat,
            ),
{
    let mut lines: Vec<String> = Vec::new();
    let ghost from = name_view(source);
    let ghost names = strings_view(groups@);
    let ghost kept = filter_content(filter);
    let mut k: usize = 0;
    proof {
        assert(strings_view(lines@) =~= Seq::<Seq<char>>::empty());
    }
    while k < groups.len()
        invariant
            k <= groups@.len(),
            results@.len() == groups@.len(),
            forall|t: int|
                0 <= t < results@.len() ==> ((#[trigger] results@[t]) matches Ok(nodes)
                    ==> nodes.wf()),
            filter matches Some(f) ==> f.wf(),
            from == name_view(source),
            names == strings_view(groups@),
            kept == filter_content(filter),
            strings_view(lines@) == resolved_lines_of(
                from,
                names,
                results@,
                kept,
                display_members,
                k as nat,
            ),
        decreases groups@.len() - k,
    {
        let group = groups[k].as_str();
        let ghost before = strings_view(lines@);
        proof {
            assert(names[k as int] == group@);
        }
        match &results[k] {
            Ok(members) => {
                proof {
                    assert(results@[k as int] == Ok::<NodeSet, ResolveError>(*members));
                }
                match group_line(source, group, members, filter, display_members) {
                    Some(line) => {
                        lines.push(line);
                        proof {
                            assert(strings_view(lines@) =~= before.push(line@));
                        }
                    },
                    None => {},
                }
            },
            Err(_) => {},
        }
        k = k + 1;
    }
    proof {
        assert forall|replies: Seq<SourceReply>| made_of(results@, replies) implies strings_view(
            lines@,
        ) == #[trigger] group_lines_of(
            from,
            names,
            replies,
            kept,
            display_members,
            groups@.len() as nat,
        ) by {
            lemma_resolved_lines(
                from,
                names,
                results@,
                replies,
                kept,
                display_members,
                groups@.len() as nat,
            );
        }
    }
    lines
}

/// Adds the lines of the given groups of one source, in their order: for
/// each group what `resolve` makes of the source's answer is asked for, and
/// the lines are those of `resolved_lines` for what came back. Under a name
/// that is not registered no group is resolved, and nothing is added.
fn add_group_lines<S: GroupSource>(
    lines: &mut Vec<String>,
    resolver: &Resolver<S>,
    source: Option<&str>,
    groups: &Vec<String>,
    display_members: bool,
    filter: Option<&NodeSet>,
)
    requires
        resolver.wf(),
        filter matches Some(f) ==> f.wf(),
        all_refer(strings_view(old(lines)@)),
    ensures
        all_refer(strings_view(final(lines)@)),
        !resolver.knows(key_of(source, resolver.default_name())) ==> strings_view(final(lines)@)
            == strings_view(old(lines)@),
        resolver.knows(key_of(source, resolver.default_name())) ==> exists|
            replies: Seq<SourceReply>,
        |
            replies.len() == groups@.len() && strings_view(final(lines)@) == strings_view(
                old(lines)@,
            ) + #[trigger] group_lines_of(
                name_view(source),
                strings_view(groups@),
                replies,
                filter_content(filter),
                display_members,
                groups@.len() as nat,
            ),
{
    let ghost key = key_of(source, resolver.default_name());
    let ghost base = strings_view(lines@);
    let ghost mut replies: Seq<SourceReply> = Seq::empty();
    let mut results: Vec<Result<NodeSet, ResolveError>> = Vec::new();
    let mut k: usize = 0;
    while k < groups.len()
        invariant
            k <= groups@.len(),
            resolver.wf(),
            key == key_of(source, resolver.default_name()),
            results@.len() == k,
            replies.len() == k,
            forall|t: int|
                0 <= t < k ==> ((#[trigger] results@[t]) matches Ok(nodes) ==> nodes.wf()),
            resolver.knows(key) ==> forall|t: int|
                0 <= t < k ==> resolved_content(#[trigger] results@[t]) == reply_content(
                    replies[t],
                ),
            !resolver.knows(key) ==> forall|t: int| 0 <= t < k ==> (#[trigger] results@[t]) is Err,
        decreases groups@.len() - k,
    {
        let group = groups[k].as_str();
        let resolution = resolver.resolve(source, group);
        let ghost reply = if resolver.knows(key) {
            choose|reply: SourceReply| #[trigger] resolved(key, group@, reply, resolution)
        } else {
            SourceReply::NotFound
        };
        let ghost made = resolution;
        proof {
            if resolver.knows(key) {
                match made {
                    Ok(members) => {
                        match reply {
                            SourceReply::Found(text) => {
                                let found = parse_spec(text@)->Ok_0;
                                let ws = written_groups(found);
                                assert(gathers(ws, members.content()));
                                lemma_gathers_unique(ws, members.content(), gathered(ws));
                            },
                            _ => {},
                        }
                    },
                    Err(_) => {},
                }
                assert(resolved_content(made) == reply_content(reply));
            }
        }
        let ghost before = results@;
        let ghost answers = replies;
        results.push(resolution);
        proof {
            replies = replies.push(reply);
            assert forall|t: int| 0 <= t < k + 1 implies ((#[trigger] results@[t]) matches Ok(
                nodes,
            ) ==> nodes.wf()) by {
                if t < k {
                    assert(results@[t] == before[t]);
                }
            }
            if resolver.knows(key) {
                assert forall|t: int| 0 <= t < k + 1 implies resolved_content(
                    #[trigger] results@[t],
                ) == reply_content(replies[t]) by {
                    if t < k {
                        assert(results@[t] == before[t]);
                        assert(replies[t] == answers[t]);
                    }
                }
            } else {
                assert forall|t: int| 0 <= t < k + 1 implies (#[trigger] results@[t]) is Err by {
                    if t < k {
                        assert(results@[t] == before[t]);
                    }
                }
            }
        }
        k = k + 1;
    }
    let mut found = resolved_lines(source, groups, &results, filter, display_members);
    let ghost added = strings_view(found@);
    proof {
        let n = groups@.len() as nat;
        if resolver.knows(key) {
            lemma_resolved_lines(
                name_view(source),
                strings_view(groups@),
                results@,
                replies,
                filter_content(filter),
                display_members,
                n,
            );
        } else {
            lemma_no_resolved_lines(
                name_view(source),
                strings_view(groups@),
                results@,
                filter_content(filter),
                display_members,
                n,
            );
            assert(base + added =~= base);
        }
        lemma_resolved_refer(
            name_view(source),
            strings_view(groups@),
            results@,
            filter_content(filter),
            display_members,
            n,
        );
        assert(strings_view(lines@ + found@) =~= base + added);
        assert(all_refer(base + added)) by {
            let all = base + added;
            assert forall|t: int| 0 <= t < all.len() implies (#[trigger] all[t]).len() > 0
                && all[t][0] == '@' by {
                if t < base.len() {
                    assert(all[t] == base[t]);
                } else {
                    assert(all[t] == added[t - base.len()]);
                }
            }
        }
    }
    lines.append(&mut found);
}

/// The names of the groups that a source listed, if it listed them.
pub open spec fn listing_view(listing: Result<Vec<String>, ResolveError>) -> Option<
    Seq<Seq<char>>,
> {
    match listing {
        Ok(names) => Some(strings_view(names@)),
        Err(_) => None,
    }
}

/// Whether there is an answer for each group that was listed.
pub open spec fn answered(groups: Option<Seq<Seq<char>>>, replies: Seq<SourceReply>) -> bool {
    groups matches Some(names) ==> replies.len() == names.len()
}

/// The lines of the groups that a source listed, for what it answered for
/// each; none where it could not list them.
pub open spec fn listing_lines_of(
    source: Option<Seq<char>>,
    groups: Option<Seq<Seq<char>>>,
    replies: Seq<SourceReply>,
    filter: Option<Seq<Group>>,
    display_members: bool,
) -> Seq<Seq<char>> {
    match groups {
        Some(names) => group_lines_of(
            source,
            names,
            replies,
            filter,
            display_members,
            names.len(),
        ),
        None => Seq::empty(),
    }
}

/// How the groups of a source are referred to when all sources are listed:
/// those of the default source without their source.
pub open spec fn shown_source(name: Seq<char>, default_source: Seq<char>) -> Option<Seq<char>> {
    if name == default_source {
        None
    } else {
        Some(name)
    }
}

/// The lines of the groups of the first `n` sources, source by source.
pub open spec fn all_lines_of(
    names: Seq<Seq<char>>,
    default_source: Seq<char>,
    listings: Seq<Option<Seq<Seq<char>>>>,
    replies: Seq<Seq<SourceReply>>,
    filter: Option<Seq<Group>>,
    display_members: bool,
    n: nat,
) -> Seq<Seq<char>>
    decreases n,
{
    if n == 0 {
        Seq::empty()
    } else {
        all_lines_of(
            names,
            default_source,
            listings,
            replies,
            filter,
            display_members,
            (n - 1) as nat,
        ) + listing_lines_of(
            shown_source(names[n - 1], default_source),
            listings[n - 1],
            replies[n - 1],
            filter,
            display_members,
        )
    }
}

/// Whether each of the `n` sources has its listing, and an answer for each
/// group that it listed.
pub open spec fn all_answered(
    n: nat,
    listings: Seq<Option<Seq<Seq<char>>>>,
    replies: Seq<Seq<SourceReply>>,
) -> bool {
    &&& listings.len() == n
    &&& replies.len() == n
    &&& forall|k: int| 0 <= k < n ==> answered(#[trigger] listings[k], replies[k])
}

/// The lines of the first `n` sources depend on their answers only.
pub proof fn lemma_all_lines_agree(
    names: Seq<Seq<char>>,
    default_source: Seq<char>,
    listings: Seq<Option<Seq<Seq<char>>>>,
    a: Seq<Seq<SourceReply>>,
    b: Seq<Seq<SourceReply>>,
    filter: Option<Seq<Group>>,
    display_members: bool,
    n: nat,
)
    requires
        n <= a.len(),
        n <= b.len(),
        forall|k: int| 0 <= k < n ==> a[k] == b[k],
    ensures
        all_lines_of(names, default_source, listings, a, filter, display_members, n)
            == all_lines_of(names, default_source, listings, b, filter, display_members, n),
    decreases n,
{
    if n > 0 {
        lemma_all_lines_agree(
            names,
            default_source,
            listings,
            a,
            b,
            filter,
            display_members,
            (n - 1) as nat,
        );
        assert(a[n - 1] == b[n - 1]);
    }
}

/// The lines of the groups of one source, or of all sources: one line for
/// each group that can be resolved and, with a filter, shares a node with
/// it. A group of the default source is referred to without its source when
/// all sources are listed.
///
/// Of one source, the default source where none is named: no line where no
/// source of that name is registered; else the lines of the groups that the
/// source lists, in the order of its listing, for what it answers for each.
/// Of all sources: those lines for each registered source, in the order of
/// registration.
pub fn group_lines<S: GroupSource>(
    resolver: &Resolver<S>,
    all: bool,
    source: Option<&str>,
    display_members: bool,
    filter: Option<&NodeSet>,
) -> (lines: Vec<String>)
    requires
        resolver.wf(),
        filter matches Some(f) ==> f.wf(),
    ensures
        all_refer(strings_view(lines@)),
        !all && !resolver.knows(key_of(source, resolver.default_name())) ==> lines@.len() == 0,
        !all && resolver.knows(key_of(source, resolver.default_name())) ==> exists|
            groups: Option<Seq<Seq<char>>>,
            replies: Seq<SourceReply>,
        |
            answered(groups, replies) && strings_view(lines@) == #[trigger] listing_lines_of(
                name_view(source),
                groups,
                replies,
                filter_content(filter),
                display_members,
            ),
        all ==> exists|listings: Seq<Option<Seq<Seq<char>>>>, replies: Seq<Seq<SourceReply>>|
            all_answered(resolver.registered().len(), listings, replies) && strings_view(lines@)
                == #[trigger] all_lines_of(
                resolver.registered(),
                resolver.default_name(),
                listings,
                replies,
                filter_content(filter),
                display_members,
                resolver.registered().len(),
            ),
{
    let mut lines: Vec<String> = Vec::new();
    let ghost kept = filter_content(filter);
    proof {
        assert(strings_view(lines@) =~= Seq::<Seq<char>>::empty());
    }
    if all {
        let listed = resolver.list_all_groups();
        let default_source = resolver.default_source();
        let ghost names = resolver.registered();
        let ghost listings = Seq::new(listed@.len(), |k: int| listing_view(listed@[k].1));
        let ghost mut replies: Seq<Seq<SourceReply>> = Seq::empty();
        let mut k: usize = 0;
        while k < listed.len()
            invariant
                k <= listed@.len(),
                resolver.wf(),
                filter matches Some(f) ==> f.wf(),
                kept == filter_content(filter),
                names == resolver.registered(),
                default_source@ == resolver.default_name(),
                listed@.len() == names.len(),
                forall|t: int| 0 <= t < listed@.len() ==> (#[trigger] listed@[t]).0@ == names[t],
                listings == Seq::new(listed@.len(), |t: int| listing_view(listed@[t].1)),
                all_refer(strings_view(lines@)),
                replies.len() == k,
                forall|t: int| 0 <= t < k ==> answered(#[trigger] listings[t], replies[t]),
                strings_view(lines@) == all_lines_of(
                    names,
                    resolver.default_name(),
                    listings,
                    replies,
                    kept,
                    display_members,
                    k as nat,
                ),
            decreases listed@.len() - k,
        {
            let name = &listed[k].0;
            let ghost before = strings_view(lines@);
            let ghost mut given: Seq<SourceReply> = Seq::empty();
            proof {
                assert(listed@[k as int].0@ == names[k as int]);
                assert(names.contains(names[k as int]));
                assert(listings[k as int] == listing_view(listed@[k as int].1));
            }
            match &listed[k].1 {
                Ok(groups) => {
                    if *name == default_source {
                        add_group_lines(&mut lines, resolver, None, groups, display_members, filter);
                        proof {
                            given = choose|given: Seq<SourceReply>|
                                given.len() == groups@.len() && strings_view(lines@) == before
                                    + #[trigger] group_lines_of(
                                    None,
                                    strings_view(groups@),
                                    given,
                                    kept,
                                    display_members,
                                    groups@.len() as nat,
                                );
                        }
                    } else {
                        add_group_lines(
                            &mut lines,
                            resolver,
                            Some(name.as_str()),
                            groups,
                            display_members,
                            filter,
                        );
                        proof {
                            given = choose|given: Seq<SourceReply>|
                                given.len() == groups@.len() && strings_view(lines@) == before
                                    + #[trigger] group_lines_of(
                                    Some(name@),
                                    strings_view(groups@),
                                    given,
                                    kept,
                                    display_members,
                                    groups@.len() as nat,
                                );
                        }
                    }
                },
                Err(_) => {
                    proof {
                        assert(before + Seq::<Seq<char>>::empty() =~= before);
                    }
                },
            }
            proof {
                let next = replies.push(given);
                lemma_all_lines_agree(
                    names,
                    resolver.default_name(),
                    listings,
                    replies,
                    next,
                    kept,
                    display_members,
                    k as nat,
                );
                assert(next[k as int] == given);
                assert forall|t: int| 0 <= t < k + 1 implies answered(
                    #[trigger] listings[t],
                    next[t],
                ) by {
                    if t < k {
                        assert(next[t] == replies[t]);
                    }
                }
                replies = next;
            }
            k = k + 1;
        }
    } else {
        let ghost key = key_of(source, resolver.default_name());
        let listing = resolver.list_groups(source);
        match listing {
            Ok(groups) => {
                add_group_lines(&mut lines, resolver, source, &groups, display_members, filter);
                proof {
                    if resolver.knows(key) {
                        let given = choose|given: Seq<SourceReply>|
                            given.len() == groups@.len() && strings_view(lines@) == Seq::<
                                Seq<char>,
                            >::empty() + #[trigger] group_lines_of(
                                name_view(source),
                                strings_view(groups@),
                                given,
                                kept,
                                display_members,
                                groups@.len() as nat,
                            );
                        let names = Some(strings_view(groups@));
                        assert(strings_view(lines@) =~= listing_lines_of(
                            name_view(source),
                            names,
                            given,
                            kept,
                            display_members,
                        ));
                        assert(answered(names, given));
                    }
                }
            },
            Err(_) => {
                proof {
                    let none: Option<Seq<Seq<char>>> = None;
                    let given = Seq::<SourceReply>::empty();
                    assert(answered(none, given));
                    assert(strings_view(lines@) =~= listing_lines_of(
                        name_view(source),
                        none,
                        given,
                        kept,
                        display_members,
                    ));
                }
            },
        }
    }
    lines
}

/// What the tool prints about groups: the lines of `group_lines`, sorted,
/// one under the other.
pub fn group_report<S: GroupSource>(
    resolver: &Resolver<S>,
    all: bool,
    source: Option<&str>,
    display_members: bool,
    filter: Option<&NodeSet>,
) -> (out: String)
    requires
        resolver.wf(),
        filter matches Some(f) ==> f.wf(),
    ensures
        exists|lines: Seq<Seq<char>>, sorted: Seq<Seq<char>>|
            all_refer(lines) && #[trigger] is_sorting(lines, sorted) && out@ == joined(
                sorted,
                seq!['\n'],
            ),
        !all && !resolver.knows(key_of(source, resolver.default_name())) ==> out@ == Seq::<
            char,
        >::empty(),
        !all && resolver.knows(key_of(source, resolver.default_name())) ==> exists|
            groups: Option<Seq<Seq<char>>>,
            replies: Seq<SourceReply>,
            sorted: Seq<Seq<char>>,
        |
            answered(groups, replies) && #[trigger] is_sorting(
                listing_lines_of(
                    name_view(source),
                    groups,
                    replies,
                    filter_content(filter),
                    display_members,
                ),
                sorted,
            ) && out@ == joined(sorted, seq!['\n']),
        all ==> exists|
            listings: Seq<Option<Seq<Seq<char>>>>,
            replies: Seq<Seq<SourceReply>>,
            sorted: Seq<Seq<char>>,
        |
            all_answered(resolver.registered().len(), listings, replies) && #[trigger] is_sorting(
                all_lines_of(
                    resolver.registered(),
                    resolver.default_name(),
                    listings,
                    replies,
                    filter_content(filter),
                    display_members,
                    resolver.registered().len(),
                ),
                sorted,
            ) && out@ == joined(sorted, seq!['\n']),
{
    let lines = group_lines(resolver, all, source, display_members, filter);
    let ghost given = strings_view(lines@);
    let out = sorted_report(lines);
    proof {
        let sorted = choose|sorted: Seq<Seq<char>>| #[trigger]
            is_sorting(given, sorted) && out@ == joined(sorted, seq!['\n']);
        assert(all_refer(given) && is_sorting(given, sorted));
        if given.len() == 0 {
            given.to_multiset_ensures();
            sorted.to_multiset_ensures();
            assert(sorted.len() == 0);
        }
    }
    out
}

/// What the tool prints about sources: one line for each, in the order of
/// registration, the default source marked.
pub fn source_lines<S: GroupSource>(resolver: &Resolver<S>) -> (lines: Vec<String>)
    requires
        resolver.wf(),
    ensures
        lines@.len() == resolver.registered().len(),
        forall|k: int|
            0 <= k < lines@.len() ==> (#[trigger] lines@[k])@ == if resolver.registered()[k]
                == resolver.default_name() {
                resolver.registered()[k] + seq![' ', '(', 'd', 'e', 'f', 'a', 'u', 'l', 't', ')']
            } else {
                resolver.registered()[k]
            },
{
    let names = resolver.sources();
    let default_source = resolver.default_source();
    let mut lines: Vec<String> = Vec::new();
    let mut k: usize = 0;
    while k < names.len()
        invariant
            k <= names@.len(),
            strings_view(names@) == resolver.registered(),
            default_source@ == resolver.default_name(),
            lines@.len() == k,
            forall|j: int|
                0 <= j < k ==> (#[trigger] lines@[j])@ == if resolver.registered()[j]
                    == resolver.default_name() {
                    resolver.registered()[j] + seq![
                        ' ',
                        '(',
                        'd',
                        'e',
                        'f',
                        'a',
                        'u',
                        'l',
                        't',
                        ')',
                    ]
                } else {
                    resolver.registered()[j]
                },
        decreases names@.len() - k,
    {
        proof {
            assert(strings_view(names@)[k as int] == names@[k as int]@);
        }
        lines.push(source_line(names[k].as_str(), default_source.as_str()));
        k = k + 1;
    }
    lines
}

} // verus!

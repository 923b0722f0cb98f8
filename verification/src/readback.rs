//! The names of a set read back: written one after the other with blanks
//! between them, they are a text in the folded notation that says the nodes
//! of the set.

use crate::content::{
    content_wf, gathers, group_wf, holds_node, lemma_content_front, lemma_holds_concat,
    lemma_total, members, total, written_groups, Group, Node,
};
use crate::folding::{group_names, names_of, render, render_group, render_ids, slot_at};
use crate::grammar::{parse_spec, spread, spread_run, ParseError, Written};
use crate::joining::law_joined_text;
use crate::normal_form::{lemma_normal_form, lemma_normal_form_unique, normal_form};
use crate::numeral::padded;
use crate::pattern::{has_slot, is_plain, pattern_wf, SLOT};
use crate::report::joined;
use crate::roundtrip::{lemma_fill_plain, lemma_fill_split, lemma_render_parse};
use crate::runs::{normalized, run_holds, runs_hold, runs_set, Run, ID_LIMIT};
use vstd::prelude::*;

verus! {

/// Whether the names, written with blanks between them, are a text in the
/// folded notation that says exactly the given nodes.
pub open spec fn reads_nodes(names: Seq<Seq<char>>, nodes: Set<Node>) -> bool {
    parse_spec(joined(names, seq![' '])) matches Ok(found) && members(written_groups(found))
        == nodes
}

/// Texts joined are the first of them joined, the separator, and the others
/// joined.
pub proof fn lemma_joined_concat(a: Seq<Seq<char>>, b: Seq<Seq<char>>, sep: Seq<char>)
    requires
        a.len() > 0,
        b.len() > 0,
    ensures
        joined(a + b, sep) == joined(a, sep) + sep + joined(b, sep),
    decreases b.len(),
{
    let all = a + b;
    assert(all.last() == b.last());
    if b.len() == 1 {
        assert(all.drop_last() =~= a);
    } else {
        assert(all.drop_last() =~= a + b.drop_last());
        lemma_joined_concat(a, b.drop_last(), sep);
        assert(joined(all, sep) =~= joined(a, sep) + sep + joined(b, sep));
    }
}

/// No names say no nodes.
pub proof fn lemma_reads_nothing()
    ensures
        reads_nodes(Seq::empty(), Set::empty()),
{
    let none = Seq::<Written>::empty();
    assert(parse_spec(Seq::<char>::empty()) == Ok::<Seq<Written>, ParseError>(none));
    assert(members(written_groups(none)) =~= Set::<Node>::empty());
}

/// Names after other names say the nodes of both.
pub proof fn lemma_reads_concat(
    a: Seq<Seq<char>>,
    first: Set<Node>,
    b: Seq<Seq<char>>,
    second: Set<Node>,
)
    requires
        reads_nodes(a, first),
        reads_nodes(b, second),
    ensures
        reads_nodes(a + b, first.union(second)),
{
    let sep = seq![' '];
    lemma_reads_nothing();
    if a.len() == 0 {
        assert(a + b =~= b);
        assert(first.union(second) =~= second);
    } else if b.len() == 0 {
        assert(a + b =~= a);
        assert(first.union(second) =~= first);
    } else {
        lemma_joined_concat(a, b, sep);
        law_joined_text(joined(a, sep), ' ', joined(b, sep));
        let fa = parse_spec(joined(a, sep))->Ok_0;
        let fb = parse_spec(joined(b, sep))->Ok_0;
        let wa = written_groups(fa);
        let wb = written_groups(fb);
        assert(written_groups(fa + fb) =~= wa + wb);
        assert forall|n: Node| members(wa + wb).contains(n) <==> first.union(second).contains(
            n,
        ) by {
            lemma_holds_concat(wa, wb, n);
            assert(members(wa + wb).contains(n) == holds_node(wa + wb, n));
            assert(members(wa).contains(n) == holds_node(wa, n));
            assert(members(wb).contains(n) == holds_node(wb, n));
        }
        assert(members(wa + wb) =~= first.union(second));
    }
}

/// The name of one group alone says the nodes of the group.
pub proof fn lemma_reads_alone(g: Group)
    requires
        group_wf(g),
    ensures
        reads_nodes(seq![render_group(g)], members(seq![g])),
{
    let c = seq![g];
    assert(content_wf(c));
    lemma_render_parse(c);
    assert(render(c) == render_group(g));
    assert(joined(seq![render_group(g)], seq![' ']) == render_group(g));
}

/// A pattern has one slot at most.
pub proof fn lemma_one_slot(p: Seq<char>)
    requires
        pattern_wf(p),
        has_slot(p),
    ensures
        0 <= slot_at(p) < p.len(),
        p[slot_at(p)] == SLOT,
        forall|k: int| 0 <= k < p.len() && k != slot_at(p) ==> p[k] != SLOT,
{
    let at = slot_at(p);
    assert forall|k: int| 0 <= k < p.len() && k != at implies p[k] != SLOT by {
        if p[k] == SLOT {
            if k < at {
                assert(is_plain(p[at]));
            } else {
                assert(is_plain(p[k]));
            }
        }
    }
}

/// The nodes of a pattern with the identifiers from `lo` to `hi`.
pub open spec fn nodes_between(p: Seq<char>, lo: int, hi: int) -> Set<Node> {
    Set::new(|n: Node| n.0 == p && lo <= n.1 <= hi)
}

/// The nodes of a pattern with the identifiers of the runs.
pub open spec fn nodes_of_runs(p: Seq<char>, runs: Seq<Run>) -> Set<Node> {
    Set::new(|n: Node| n.0 == p && runs_hold(runs, n.1))
}

/// The name of one node alone says that node.
pub proof fn lemma_reads_name(p: Seq<char>, v: int, width: nat)
    requires
        pattern_wf(p),
        has_slot(p),
        0 <= v < ID_LIMIT,
    ensures
        reads_nodes(
            seq![p.take(slot_at(p)) + padded(v as nat, width) + p.skip(slot_at(p) + 1)],
            nodes_between(p, v, v),
        ),
{
    let g = Group { pattern: p, ids: set![v], width };
    let one = seq![Run { start: v as u32, end: v as u32 }];
    assert(g.ids.contains(v));
    assert(group_wf(g));
    lemma_normal_form(g.ids);
    assert(runs_set(one) =~= g.ids) by {
        assert forall|x: int| runs_set(one).contains(x) <==> g.ids.contains(x) by {
            assert(runs_set(one).contains(x) == runs_hold(one, x));
            if x == v {
                assert(run_holds(one[0], x));
            }
        }
    }
    assert(normalized(one));
    lemma_normal_form_unique(normal_form(g.ids), one);
    assert(render_ids(one, width) == padded(v as nat, width));
    lemma_one_slot(p);
    lemma_fill_split(p, slot_at(p), padded(v as nat, width));
    lemma_reads_alone(g);
    assert(members(seq![g]) =~= nodes_between(p, v, v)) by {
        assert forall|n: Node| members(seq![g]).contains(n) <==> nodes_between(p, v, v).contains(
            n,
        ) by {
            let c = seq![g];
            assert(members(c).contains(n) == holds_node(c, n));
            if n.0 == p && n.1 == v {
                assert(c[0].pattern == n.0 && c[0].ids.contains(n.1));
            }
        }
    }
}

/// The names of a run say the nodes of the run.
pub proof fn lemma_reads_run(p: Seq<char>, lo: int, hi: int, width: nat)
    requires
        pattern_wf(p),
        has_slot(p),
        0 <= lo,
        hi < ID_LIMIT,
    ensures
        reads_nodes(
            spread_run(p.take(slot_at(p)), lo, hi, width, p.skip(slot_at(p) + 1)),
            nodes_between(p, lo, hi),
        ),
    decreases hi - lo + 1,
{
    let head = p.take(slot_at(p));
    let tail = p.skip(slot_at(p) + 1);
    if hi < lo {
        lemma_reads_nothing();
        assert(nodes_between(p, lo, hi) =~= Set::<Node>::empty());
    } else {
        lemma_reads_run(p, lo, hi - 1, width);
        lemma_reads_name(p, hi, width);
        let front = spread_run(head, lo, hi - 1, width, tail);
        let name = head + padded(hi as nat, width) + tail;
        lemma_reads_concat(front, nodes_between(p, lo, hi - 1), seq![name], nodes_between(p, hi, hi));
        assert(front.push(name) =~= front + seq![name]);
        assert(nodes_between(p, lo, hi) =~= nodes_between(p, lo, hi - 1).union(
            nodes_between(p, hi, hi),
        ));
    }
}

/// The names of runs say the nodes of the runs.
pub proof fn lemma_reads_runs(p: Seq<char>, runs: Seq<Run>, width: nat)
    requires
        pattern_wf(p),
        has_slot(p),
    ensures
        reads_nodes(
            spread(p.take(slot_at(p)), runs, width, p.skip(slot_at(p) + 1)),
            nodes_of_runs(p, runs),
        ),
    decreases runs.len(),
{
    if runs.len() == 0 {
        lemma_reads_nothing();
        assert(nodes_of_runs(p, runs) =~= Set::<Node>::empty());
    } else {
        let head = p.take(slot_at(p));
        let tail = p.skip(slot_at(p) + 1);
        let front = runs.drop_last();
        let r = runs.last();
        lemma_reads_runs(p, front, width);
        lemma_reads_run(p, r.start as int, r.end as int, width);
        lemma_reads_concat(
            spread(head, front, width, tail),
            nodes_of_runs(p, front),
            spread_run(head, r.start as int, r.end as int, width, tail),
            nodes_between(p, r.start as int, r.end as int),
        );
        assert forall|n: Node|
            nodes_of_runs(p, runs).contains(n) <==> nodes_of_runs(p, front).union(
                nodes_between(p, r.start as int, r.end as int),
            ).contains(n) by {
            if n.0 == p {
                if runs_hold(runs, n.1) {
                    let k = choose|k: int| 0 <= k < runs.len() && #[trigger] run_holds(runs[k], n.1);
                    if k < front.len() {
                        assert(run_holds(front[k], n.1));
                    }
                }
                if runs_hold(front, n.1) {
                    let k = choose|k: int|
                        0 <= k < front.len() && #[trigger] run_holds(front[k], n.1);
                    assert(run_holds(runs[k], n.1));
                }
                if r.start <= n.1 <= r.end {
                    assert(run_holds(runs[runs.len() - 1], n.1));
                }
            }
        }
        assert(nodes_of_runs(p, runs) =~= nodes_of_runs(p, front).union(
            nodes_between(p, r.start as int, r.end as int),
        ));
    }
}

/// The names of a group say the nodes of the group.
pub proof fn lemma_reads_group(g: Group)
    requires
        group_wf(g),
    ensures
        reads_nodes(group_names(g), members(seq![g])),
{
    let p = g.pattern;
    let c = seq![g];
    if has_slot(p) {
        let nf = normal_form(g.ids);
        lemma_normal_form(g.ids);
        lemma_reads_runs(p, nf, g.width);
        assert(members(c) =~= nodes_of_runs(p, nf)) by {
            assert forall|n: Node| members(c).contains(n) <==> nodes_of_runs(p, nf).contains(
                n,
            ) by {
                assert(members(c).contains(n) == holds_node(c, n));
                assert(runs_set(nf).contains(n.1) == runs_hold(nf, n.1));
                if n.0 == p && g.ids.contains(n.1) {
                    assert(c[0].pattern == n.0 && c[0].ids.contains(n.1));
                }
            }
        }
    } else {
        lemma_reads_alone(g);
        lemma_fill_plain(p, render_ids(normal_form(g.ids), g.width));
    }
}

/// The names of a set say the nodes of the set.
pub proof fn lemma_reads_all(c: Seq<Group>)
    requires
        content_wf(c),
    ensures
        reads_nodes(names_of(c), members(c)),
    decreases c.len(),
{
    if c.len() == 0 {
        lemma_reads_nothing();
        assert(members(c) =~= Set::<Node>::empty());
    } else {
        let front = c.drop_last();
        let g = c.last();
        lemma_content_front(c);
        lemma_reads_all(front);
        assert(group_wf(c[c.len() - 1]));
        lemma_reads_group(g);
        lemma_reads_concat(names_of(front), members(front), group_names(g), members(seq![g]));
        assert(c =~= front + seq![g]);
        assert forall|n: Node| members(c).contains(n) <==> members(front).union(
            members(seq![g]),
        ).contains(n) by {
            lemma_holds_concat(front, seq![g], n);
            assert(members(c).contains(n) == holds_node(c, n));
            assert(members(front).contains(n) == holds_node(front, n));
            assert(members(seq![g]).contains(n) == holds_node(seq![g], n));
        }
        assert(members(c) =~= members(front).union(members(seq![g])));
    }
}

/// The names of a set, written one after the other with blanks between
/// them, are a text in the folded notation; what the text says holds exactly
/// the nodes of the set, and every set that `parse` can return for it has
/// those nodes and as many.
pub proof fn law_names_read(x: Seq<Group>)
    requires
        content_wf(x),
    ensures
        parse_spec(joined(names_of(x), seq![' '])) matches Ok(found) && members(
            written_groups(found),
        ) == members(x) && forall|y: Seq<Group>| #[trigger]
            gathers(written_groups(found), y) ==> members(y) == members(x) && total(y) == total(
                x,
            ),
{
    lemma_reads_all(x);
    let found = parse_spec(joined(names_of(x), seq![' ']))->Ok_0;
    lemma_total(x);
    assert forall|y: Seq<Group>| #[trigger] gathers(written_groups(found), y) implies members(y)
        == members(x) && total(y) == total(x) by {
        lemma_total(y);
    }
}

} // verus!

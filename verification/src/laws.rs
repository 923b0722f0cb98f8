//! The laws of the set algebra, of the two representations, of splitting
//! and merging, and of folding and parsing.

use crate::content::{
    content_wf, gathers, group_wf, holds_node, lemma_content_unique, lemma_widest_at,
    lemma_widest_common, members, splits, widest, Group, Node,
};
use crate::compaction::folded_text;
use crate::content::{gathered, lemma_gathers_unique, lemma_total, total, written_groups};
use crate::folding::names_of;
use crate::grammar::parse_spec;
use crate::names::lemma_names_same;
use crate::normal_form::lemma_normal_form_unique;
use crate::roundtrip::lemma_render_same_content;
use crate::unfolding::lemma_folded_reads;
use crate::range::IdRange;
use crate::runs::{normalized, runs_set, set_op, Run, SetOp};
use vstd::prelude::*;

verus! {

/// Union and intersection are commutative and associative, the difference
/// of a set and itself is empty, and the symmetric difference is the union
/// of the two differences. This holds of sets of any kind: of identifiers
/// and of nodes.
pub proof fn law_set_algebra<A>(a: Set<A>, b: Set<A>, c: Set<A>)
    ensures
        set_op(SetOp::Union, a, b) == set_op(SetOp::Union, b, a),
        set_op(SetOp::Intersection, a, b) == set_op(SetOp::Intersection, b, a),
        set_op(SetOp::Union, set_op(SetOp::Union, a, b), c) == set_op(
            SetOp::Union,
            a,
            set_op(SetOp::Union, b, c),
        ),
        set_op(SetOp::Intersection, set_op(SetOp::Intersection, a, b), c) == set_op(
            SetOp::Intersection,
            a,
            set_op(SetOp::Intersection, b, c),
        ),
        set_op(SetOp::Difference, a, a) == Set::<A>::empty(),
        set_op(SetOp::SymmetricDifference, a, b) == set_op(
            SetOp::Union,
            set_op(SetOp::Difference, a, b),
            set_op(SetOp::Difference, b, a),
        ),
        set_op(SetOp::SymmetricDifference, a, b) == set_op(SetOp::SymmetricDifference, b, a),
{
    assert(a.union(b) =~= b.union(a));
    assert(a.intersect(b) =~= b.intersect(a));
    assert(a.union(b).union(c) =~= a.union(b.union(c)));
    assert(a.intersect(b).intersect(c) =~= a.intersect(b.intersect(c)));
    assert(a.difference(a) =~= Set::<A>::empty());
    assert(a.difference(b).union(b.difference(a)) =~= b.difference(a).union(a.difference(b)));
}

/// The laws of the set algebra, read on ranges of one representation: what
/// `union`, `intersection`, `difference` and `symmetric_difference` return
/// has the view that the law gives.
pub proof fn law_range_algebra<R: IdRange>(a: R, b: R, c: R)
    ensures
        a@.union(b@) == b@.union(a@),
        a@.intersect(b@) == b@.intersect(a@),
        a@.union(b@).union(c@) == a@.union(b@.union(c@)),
        a@.intersect(b@).intersect(c@) == a@.intersect(b@.intersect(c@)),
        a@.difference(a@) == Set::<int>::empty(),
        set_op(SetOp::SymmetricDifference, a@, b@) == a@.difference(b@).union(
            b@.difference(a@),
        ),
        set_op(SetOp::SymmetricDifference, a@, b@) == set_op(SetOp::SymmetricDifference, b@, a@),
{
    law_set_algebra(a@, b@, c@);
}

/// The two representations agree: the same operation on the same sets gives
/// the same set in either, and a walk over either result yields the same
/// runs in the same order.
pub proof fn law_backends_agree<A: IdRange, B: IdRange>(
    op: SetOp,
    a1: A,
    b1: A,
    r1: A,
    a2: B,
    b2: B,
    r2: B,
    runs1: Seq<Run>,
    runs2: Seq<Run>,
)
    requires
        a1@ == a2@,
        b1@ == b2@,
        r1@ == set_op(op, a1@, b1@),
        r2@ == set_op(op, a2@, b2@),
        normalized(runs1),
        runs_set(runs1) == r1@,
        normalized(runs2),
        runs_set(runs2) == r2@,
    ensures
        r1@ == r2@,
        runs1 == runs2,
{
    lemma_normal_form_unique(runs1, runs2);
}

/// Merging what a full split gives brings back the set: the same patterns
/// in the same order, each with the same identifiers and the same width,
/// and so the same nodes.
pub proof fn law_split_merge(x: Seq<Group>, units: Seq<Group>, merged: Seq<Group>)
    requires
        content_wf(x),
        splits(x, units),
        gathers(units, merged),
    ensures
        merged == x,
        members(merged) == members(x),
{
    lemma_content_unique(merged, x);
    assert forall|k: int| 0 <= k < x.len() implies merged[k] == x[k] by {
        let p = x[k].pattern;
        assert(group_wf(x[k]));
        if forall|v: int| !x[k].ids.contains(v) {
            assert(x[k].ids =~= Set::<int>::empty());
        }
        let v = choose|v: int| x[k].ids.contains(v);
        let n: Node = (p, v);
        assert(x[k].pattern == n.0 && x[k].ids.contains(n.1));
        assert(holds_node(x, n));
        assert(members(x).contains(n));
        assert(members(units).contains(n));
        assert(holds_node(units, n));
        let at = choose|at: int|
            0 <= at < units.len() && (#[trigger] units[at]).pattern == n.0 && units[at].ids.contains(
                n.1,
            );
        assert(units[at].pattern == p);
        lemma_widest_at(x, k);
        assert forall|t: int|
            0 <= t < units.len() && (#[trigger] units[t]).pattern == p implies units[t].width
            == x[k].width by {}
        lemma_widest_common(units, p, x[k].width);
        assert(merged[k].pattern == p && merged[k].ids == x[k].ids);
        assert(merged[k].width == widest(units, merged[k].pattern));
    }
    assert(merged =~= x);
}

/// Folding, parsing and folding again gives the text of the first folding,
/// and parsing the folded text gives a set with the same nodes and the same
/// names.
///
/// For every well-formed content `x`: the text that `fold` gives for it is
/// in the folded notation; what the text says holds exactly the nodes of
/// `x`; and every content that `parse` can return for the text has those
/// nodes and as many, `fold` gives the same text for it, and `iter` the same
/// names in the same order, letter for letter with their leading zeros.
pub proof fn law_fold_parse(x: Seq<Group>)
    requires
        content_wf(x),
    ensures
        parse_spec(folded_text(x)) matches Ok(found) && members(written_groups(found)) == members(
            x,
        ) && forall|y: Seq<Group>| #[trigger]
            gathers(written_groups(found), y) ==> members(y) == members(x) && total(y) == total(
                x,
            ) && folded_text(y) == folded_text(x) && names_of(y) == names_of(x),
{
    lemma_folded_reads(x);
    let found = parse_spec(folded_text(x))->Ok_0;
    let ws = written_groups(found);
    let y0 = gathered(ws);
    lemma_render_same_content(y0, x);
    lemma_names_same(y0, x);
    lemma_total(x);
    assert forall|y: Seq<Group>| #[trigger] gathers(ws, y) implies members(y) == members(x)
        && total(y) == total(x) && folded_text(y) == folded_text(x) && names_of(y) == names_of(
        x,
    ) by {
        lemma_gathers_unique(ws, y, y0);
        lemma_total(y);
    }
}

} // verus!

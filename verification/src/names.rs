//! The names of a set after its text is read back: the same names, letter
//! for letter.

use crate::content::{content_wf, group_wf, Group};
use crate::folding::{group_names, names_of, render, slot_at};
use crate::grammar::{spread, spread_run};
use crate::normal_form::{lemma_normal_form, normal_form};
use crate::numeral::{lemma_decimal_len, padded, shown_width};
use crate::pattern::has_slot;
use crate::roundtrip::{asked, echo, echoes, lemma_asked, lemma_echoes, lemma_render_parse};
use crate::runs::{run_holds, runs_hold, runs_valid, Run};
use vstd::prelude::*;

verus! {

/// An identifier of runs is written the same with the width that the runs
/// ask for as with the width that is kept for them.
pub proof fn lemma_padded_asked(runs: Seq<Run>, width: nat, v: int)
    requires
        runs_valid(runs),
        runs_hold(runs, v),
    ensures
        padded(v as nat, asked(runs, width)) == padded(v as nat, width),
{
    lemma_asked(runs, width);
    if asked(runs, width) != width {
        let k = choose|k: int| 0 <= k < runs.len() && #[trigger] run_holds(runs[k], v);
        assert(shown_width(runs[k].start as nat, width) == 0);
        lemma_decimal_len(runs[k].start as nat, v as nat);
    }
}

/// Whether an identifier is written the same with two widths.
pub open spec fn same_written(v: int, w1: nat, w2: nat) -> bool {
    padded(v as nat, w1) == padded(v as nat, w2)
}

/// The names of a run are the same with two widths with which each of its
/// identifiers is written the same.
pub proof fn lemma_spread_run_same(
    head: Seq<char>,
    lo: int,
    hi: int,
    w1: nat,
    w2: nat,
    tail: Seq<char>,
)
    requires
        forall|v: int| lo <= v <= hi ==> #[trigger] same_written(v, w1, w2),
    ensures
        spread_run(head, lo, hi, w1, tail) == spread_run(head, lo, hi, w2, tail),
    decreases hi - lo + 1,
{
    if !(hi < lo || lo < 0) {
        lemma_spread_run_same(head, lo, hi - 1, w1, w2, tail);
        assert(same_written(hi, w1, w2));
    }
}

/// The names of runs are the same with two widths with which each of their
/// identifiers is written the same.
pub proof fn lemma_spread_same(head: Seq<char>, runs: Seq<Run>, w1: nat, w2: nat, tail: Seq<char>)
    requires
        forall|v: int| runs_hold(runs, v) ==> #[trigger] same_written(v, w1, w2),
    ensures
        spread(head, runs, w1, tail) == spread(head, runs, w2, tail),
    decreases runs.len(),
{
    if runs.len() > 0 {
        let front = runs.drop_last();
        let r = runs.last();
        assert forall|v: int| runs_hold(front, v) implies #[trigger] same_written(v, w1, w2) by {
            let k = choose|k: int| 0 <= k < front.len() && #[trigger] run_holds(front[k], v);
            assert(run_holds(runs[k], v));
            assert(runs_hold(runs, v));
        }
        lemma_spread_same(head, front, w1, w2, tail);
        assert forall|v: int| r.start <= v <= r.end implies #[trigger] same_written(v, w1, w2) by {
            assert(run_holds(runs[runs.len() - 1], v));
            assert(runs_hold(runs, v));
        }
        lemma_spread_run_same(head, r.start as int, r.end as int, w1, w2, tail);
    }
}

/// Contents whose groups have the same names, group by group, have the
/// same names.
pub proof fn lemma_names_pointwise(x: Seq<Group>, y: Seq<Group>)
    requires
        x.len() == y.len(),
        forall|k: int| 0 <= k < x.len() ==> group_names(#[trigger] x[k]) == group_names(y[k]),
    ensures
        names_of(x) == names_of(y),
    decreases x.len(),
{
    if x.len() > 0 {
        let fx = x.drop_last();
        let fy = y.drop_last();
        assert forall|k: int| 0 <= k < fx.len() implies group_names(#[trigger] fx[k])
            == group_names(fy[k]) by {
            assert(fx[k] == x[k]);
            assert(fy[k] == y[k]);
        }
        lemma_names_pointwise(fx, fy);
        assert(group_names(x[x.len() - 1]) == group_names(y[x.len() - 1]));
    }
}

/// Contents with the same canonical text have the same names, in the same
/// order and letter for letter, leading zeros included.
pub proof fn lemma_names_same(x: Seq<Group>, y: Seq<Group>)
    requires
        content_wf(x),
        content_wf(y),
        render(x) == render(y),
    ensures
        names_of(x) == names_of(y),
{
    lemma_render_parse(x);
    lemma_render_parse(y);
    lemma_echoes(x);
    lemma_echoes(y);
    assert(echoes(x) == echoes(y));
    assert(x.len() == y.len());
    assert forall|k: int| 0 <= k < x.len() implies group_names(#[trigger] x[k]) == group_names(
        y[k],
    ) by {
        let g = x[k];
        let h = y[k];
        assert(group_wf(g) && group_wf(h));
        assert(echoes(x)[k] == echo(g));
        assert(echoes(y)[k] == echo(h));
        assert(g.pattern == h.pattern);
        if has_slot(g.pattern) {
            let nf = normal_form(g.ids);
            lemma_normal_form(g.ids);
            lemma_normal_form(h.ids);
            assert(normal_form(h.ids) == nf);
            assert(asked(nf, g.width) == asked(nf, h.width));
            assert forall|v: int| runs_hold(nf, v) implies #[trigger] same_written(
                v,
                g.width,
                h.width,
            ) by {
                lemma_padded_asked(nf, g.width, v);
                lemma_padded_asked(nf, h.width, v);
            }
            let at = slot_at(g.pattern);
            lemma_spread_same(
                g.pattern.take(at),
                nf,
                g.width,
                h.width,
                g.pattern.skip(at + 1),
            );
        }
    }
    lemma_names_pointwise(x, y);
}

} // verus!

//! What the minimal form of a set of identifiers is, that a set has only one
//! such form, and how many identifiers it holds.

use crate::runs::{
    lemma_hold_push, lemma_hold_update, normalized, run_holds, runs_hold, runs_set, runs_valid, Run,
    ID_LIMIT,
};
use vstd::prelude::*;
use vstd::set_lib::{lemma_int_range, lemma_set_disjoint_lens, set_int_range};

verus! {

/// The number of identifiers in a minimal sequence of runs: the sum of the
/// sizes of its runs.
pub open spec fn runs_count(runs: Seq<Run>) -> nat
    decreases runs.len(),
{
    if runs.len() == 0 {
        0
    } else {
        runs_count(runs.drop_last()) + (runs.last().end - runs.last().start + 1) as nat
    }
}

/// The minimal sequence of runs that covers exactly `s`.
pub open spec fn normal_form(s: Set<int>) -> Seq<Run> {
    choose|r: Seq<Run>| normalized(r) && runs_set(r) == s
}

pub proof fn lemma_normalized_drop_last(runs: Seq<Run>)
    requires
        normalized(runs),
        runs.len() > 0,
    ensures
        normalized(runs.drop_last()),
        forall|v: int|
            runs_hold(runs, v) <==> (runs_hold(runs.drop_last(), v) || run_holds(runs.last(), v)),
        forall|v: int| runs_hold(runs.drop_last(), v) ==> v + 1 < runs.last().start,
{
    let front = runs.drop_last();
    assert forall|i: int, j: int| 0 <= i < j < front.len() implies (#[trigger] front[i]).end + 1 < (
    #[trigger] front[j]).start by {
        assert(runs[i].end + 1 < runs[j].start);
    }
    assert(runs =~= front.push(runs.last()));
    assert forall|v: int|
        runs_hold(runs, v) <==> (runs_hold(front, v) || run_holds(runs.last(), v)) by {
        crate::runs::lemma_hold_push(front, runs.last(), v);
    }
    assert forall|v: int| runs_hold(front, v) implies v + 1 < runs.last().start by {
        let k = choose|k: int| 0 <= k < front.len() && #[trigger] run_holds(front[k], v);
        assert(runs[k].end + 1 < runs[runs.len() - 1].start);
    }
}

pub proof fn lemma_normalized_drop_first(runs: Seq<Run>)
    requires
        normalized(runs),
        runs.len() > 0,
    ensures
        normalized(runs.drop_first()),
        forall|v: int|
            runs_hold(runs, v) <==> (run_holds(runs[0], v) || runs_hold(runs.drop_first(), v)),
        forall|v: int| runs_hold(runs.drop_first(), v) ==> runs[0].end + 1 < v,
{
    let rest = runs.drop_first();
    assert forall|i: int, j: int| 0 <= i < j < rest.len() implies (#[trigger] rest[i]).end + 1 < (
    #[trigger] rest[j]).start by {
        assert(runs[i + 1].end + 1 < runs[j + 1].start);
    }
    assert forall|v: int|
        runs_hold(runs, v) <==> (run_holds(runs[0], v) || runs_hold(rest, v)) by {
        if runs_hold(runs, v) {
            let k = choose|k: int| 0 <= k < runs.len() && #[trigger] run_holds(runs[k], v);
            if k > 0 {
                assert(run_holds(rest[k - 1], v));
            }
        }
        if runs_hold(rest, v) {
            let k = choose|k: int| 0 <= k < rest.len() && #[trigger] run_holds(rest[k], v);
            assert(run_holds(runs[k + 1], v));
        }
    }
    assert forall|v: int| runs_hold(rest, v) implies runs[0].end + 1 < v by {
        let k = choose|k: int| 0 <= k < rest.len() && #[trigger] run_holds(rest[k], v);
        assert(runs[0].end + 1 < runs[k + 1].start);
    }
}

/// The sum of the run sizes is the number of identifiers covered.
pub proof fn lemma_runs_count(runs: Seq<Run>)
    requires
        normalized(runs),
    ensures
        runs_set(runs).finite(),
        runs_set(runs).len() == runs_count(runs),
        runs.len() > 0 ==> runs_count(runs) <= runs.last().end + 1,
        runs.len() > 0 ==> runs_count(runs) > 0,
    decreases runs.len(),
{
    if runs.len() == 0 {
        assert(runs_set(runs) =~= Set::<int>::empty()) by {
            assert forall|v: int| !runs_set(runs).contains(v) by {}
        }
    } else {
        let front = runs.drop_last();
        let last = runs.last();
        lemma_normalized_drop_last(runs);
        lemma_runs_count(front);
        let tail = set_int_range(last.start as int, last.end + 1);
        lemma_int_range(last.start as int, last.end + 1);
        assert(runs_set(runs) =~= runs_set(front) + tail) by {
            assert forall|v: int| runs_set(runs).contains(v) == (runs_set(front) + tail).contains(
                v,
            ) by {}
        }
        assert(runs_set(front).disjoint(tail));
        lemma_set_disjoint_lens(runs_set(front), tail);
        if front.len() > 0 {
            assert(runs[front.len() - 1].end + 1 < runs[runs.len() - 1].start);
        }
    }
}

proof fn lemma_first_start(r1: Seq<Run>, r2: Seq<Run>)
    requires
        normalized(r1),
        normalized(r2),
        runs_set(r1) == runs_set(r2),
        r1.len() > 0,
    ensures
        r2.len() > 0,
        r2[0].start <= r1[0].start,
{
    let v = r1[0].start as int;
    assert(run_holds(r1[0], v));
    assert(runs_set(r1).contains(v));
    assert(runs_set(r2).contains(v));
    let k = choose|k: int| 0 <= k < r2.len() && #[trigger] run_holds(r2[k], v);
    if k > 0 {
        assert(r2[0].end + 1 < r2[k].start);
    }
}

proof fn lemma_first_end(r1: Seq<Run>, r2: Seq<Run>)
    requires
        normalized(r1),
        normalized(r2),
        runs_set(r1) == runs_set(r2),
        r1.len() > 0,
        r2.len() > 0,
        r1[0].start == r2[0].start,
    ensures
        r1[0].end <= r2[0].end,
{
    if r1[0].end > r2[0].end {
        let v = r2[0].end + 1;
        assert(run_holds(r1[0], v));
        assert(runs_set(r1).contains(v));
        assert(runs_set(r2).contains(v));
        let k = choose|k: int| 0 <= k < r2.len() && #[trigger] run_holds(r2[k], v);
        if k > 0 {
            assert(r2[0].end + 1 < r2[k].start);
        }
    }
}

/// Two minimal sequences of runs that cover the same identifiers are the same
/// sequence: a walk over either yields the same runs in the same order.
pub proof fn lemma_normal_form_unique(r1: Seq<Run>, r2: Seq<Run>)
    requires
        normalized(r1),
        normalized(r2),
        runs_set(r1) == runs_set(r2),
    ensures
        r1 == r2,
    decreases r1.len(),
{
    if r1.len() == 0 {
        if r2.len() > 0 {
            lemma_first_start(r2, r1);
        }
        assert(r1 =~= r2);
    } else {
        lemma_first_start(r1, r2);
        lemma_first_start(r2, r1);
        lemma_first_end(r1, r2);
        lemma_first_end(r2, r1);
        assert(r1[0] == r2[0]);
        let t1 = r1.drop_first();
        let t2 = r2.drop_first();
        lemma_normalized_drop_first(r1);
        lemma_normalized_drop_first(r2);
        assert(runs_set(t1) =~= runs_set(t2)) by {
            assert forall|v: int| runs_set(t1).contains(v) == runs_set(t2).contains(v) by {
                assert(runs_set(r1).contains(v) == runs_set(r2).contains(v));
                assert(runs_set(r1).contains(v) == runs_hold(r1, v));
                assert(runs_set(r2).contains(v) == runs_hold(r2, v));
                assert(runs_hold(r1, v) == runs_hold(r2, v));
                assert(runs_hold(t1, v) == (runs_hold(r1, v) && !run_holds(r1[0], v)));
                assert(runs_hold(t2, v) == (runs_hold(r2, v) && !run_holds(r2[0], v)));
            }
        }
        lemma_normal_form_unique(t1, t2);
        assert(r1 =~= r2) by {
            assert forall|k: int| 0 <= k < r1.len() implies r1[k] == r2[k] by {
                if k > 0 {
                    assert(t1[k - 1] == t2[k - 1]);
                }
            }
        }
    }
}

/// A minimal sequence of runs is the minimal form of the set it covers.
pub proof fn lemma_normal_form_of(runs: Seq<Run>)
    requires
        normalized(runs),
    ensures
        normal_form(runs_set(runs)) == runs,
{
    let s = runs_set(runs);
    let nf = normal_form(s);
    assert(normalized(runs) && runs_set(runs) == s);
    lemma_normal_form_unique(nf, runs);
}

/// Whether some run is needed at all.
pub proof fn lemma_empty_runs(runs: Seq<Run>)
    requires
        runs_valid(runs),
    ensures
        (runs.len() == 0) <==> (runs_set(runs) =~= Set::<int>::empty()),
{
    if runs.len() > 0 {
        assert(run_holds(runs[0], runs[0].start as int));
        assert(runs_set(runs).contains(runs[0].start as int));
    } else {
        assert forall|v: int| !runs_set(runs).contains(v) by {}
    }
}

/// Every set of identifiers below `n` has a minimal sequence of runs.
pub proof fn lemma_runs_exist(s: Set<int>, n: int) -> (runs: Seq<Run>)
    requires
        0 <= n <= ID_LIMIT,
        forall|v: int| s.contains(v) ==> 0 <= v < n,
    ensures
        normalized(runs),
        runs_set(runs) == s,
        forall|k: int| 0 <= k < runs.len() ==> (#[trigger] runs[k]).end < n,
    decreases n,
{
    if n == 0 {
        let runs = Seq::<Run>::empty();
        assert(runs_set(runs) =~= s) by {
            assert forall|v: int| runs_set(runs).contains(v) == s.contains(v) by {
                assert(runs_set(runs).contains(v) == runs_hold(runs, v));
            }
        }
        runs
    } else {
        let top = n - 1;
        let rest = s.remove(top);
        let r = lemma_runs_exist(rest, n - 1);
        assert forall|v: int| runs_hold(r, v) == rest.contains(v) by {
            assert(runs_set(r).contains(v) == runs_hold(r, v));
        }
        if !s.contains(top) {
            assert(rest =~= s);
            r
        } else if r.len() > 0 && r.last().end == top - 1 {
            let last = r.len() - 1;
            let joined = Run { start: r[last].start, end: top as u32 };
            let out = r.update(last, joined);
            assert(normalized(out)) by {
                assert forall|k: int| 0 <= k < out.len() implies (#[trigger] out[k]).start
                    <= out[k].end by {
                    if k != last {
                        assert(out[k] == r[k]);
                    }
                    assert(r[k].start <= r[k].end);
                }
                assert forall|i: int, j: int|
                    #![trigger out[i], out[j]]
                    0 <= i < j < out.len() implies out[i].end + 1 < out[j].start by {
                    assert(r[i].end + 1 < r[j].start);
                }
            }
            assert(runs_set(out) =~= s) by {
                assert forall|v: int| runs_set(out).contains(v) == s.contains(v) by {
                    assert(runs_set(out).contains(v) == runs_hold(out, v));
                    lemma_hold_update(r, last, joined, v);
                    if run_holds(r[last], v) {
                        assert(run_holds(joined, v));
                    }
                    if run_holds(joined, v) && v != top {
                        assert(run_holds(r[last], v));
                        assert(runs_hold(r, v));
                    }
                }
            }
            out
        } else {
            let fresh = Run { start: top as u32, end: top as u32 };
            let out = r.push(fresh);
            assert(normalized(out)) by {
                assert forall|k: int| 0 <= k < out.len() implies (#[trigger] out[k]).start
                    <= out[k].end by {
                    if k < r.len() {
                        assert(r[k].start <= r[k].end);
                    }
                }
                assert forall|i: int, j: int|
                    #![trigger out[i], out[j]]
                    0 <= i < j < out.len() implies out[i].end + 1 < out[j].start by {
                    if j < r.len() {
                        assert(r[i].end + 1 < r[j].start);
                    } else {
                        assert(r[i].end < n - 1);
                        if i < r.len() - 1 {
                            assert(r[i].end + 1 < r[r.len() - 1].start);
                            assert(r[r.len() - 1].start <= r[r.len() - 1].end);
                        }
                    }
                }
            }
            assert(runs_set(out) =~= s) by {
                assert forall|v: int| runs_set(out).contains(v) == s.contains(v) by {
                    assert(runs_set(out).contains(v) == runs_hold(out, v));
                    lemma_hold_push(r, fresh, v);
                }
            }
            out
        }
    }
}

/// The minimal form of a set of identifiers is minimal and covers the set.
pub proof fn lemma_normal_form(s: Set<int>)
    requires
        forall|v: int| s.contains(v) ==> 0 <= v < ID_LIMIT,
    ensures
        normalized(normal_form(s)),
        runs_set(normal_form(s)) == s,
        s != Set::<int>::empty() ==> normal_form(s).len() > 0,
{
    let runs = lemma_runs_exist(s, ID_LIMIT as int);
    assert(normalized(runs) && runs_set(runs) == s);
    lemma_empty_runs(normal_form(s));
}

} // verus!

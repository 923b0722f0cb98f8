//! Runs of consecutive identifiers and the linear sweep that combines two
//! sorted sequences of runs.

use crate::normal_form::{lemma_runs_count, runs_count};
use vstd::prelude::*;

verus! {

/// One more than the largest identifier.
pub const ID_LIMIT: u64 = 0x1_0000_0000;

/// A closed interval `start..=end` of identifiers.
#[derive(Clone, Copy, Debug, PartialEq, Eq, Structural)]
pub struct Run {
    pub start: u32,
    pub end: u32,
}

/// The four binary operations of the set algebra.
#[derive(Clone, Copy, Debug, PartialEq, Eq, Structural)]
pub enum SetOp {
    Union,
    Intersection,
    Difference,
    SymmetricDifference,
}

/// Whether `v` lies in the run.
pub open spec fn run_holds(r: Run, v: int) -> bool {
    r.start <= v <= r.end
}

/// Whether `v` lies in one of the runs.
pub open spec fn runs_hold(runs: Seq<Run>, v: int) -> bool {
    exists|k: int| 0 <= k < runs.len() && #[trigger] run_holds(runs[k], v)
}

/// The identifiers that a sequence of runs covers.
pub open spec fn runs_set(runs: Seq<Run>) -> Set<int> {
    Set::new(|v: int| runs_hold(runs, v))
}

/// Every run has `start <= end`.
pub open spec fn runs_valid(runs: Seq<Run>) -> bool {
    forall|k: int| 0 <= k < runs.len() ==> (#[trigger] runs[k]).start <= runs[k].end
}

/// The minimal form: runs ascending, and between two of them at least one
/// identifier that neither holds.
pub open spec fn normalized(runs: Seq<Run>) -> bool {
    &&& runs_valid(runs)
    &&& forall|i: int, j: int|
        #![trigger runs[i], runs[j]]
        0 <= i < j < runs.len() ==> runs[i].end + 1 < runs[j].start
}

/// Membership in the result of `op`, from membership in its operands.
pub open spec fn op_holds(op: SetOp, in_a: bool, in_b: bool) -> bool {
    match op {
        SetOp::Union => in_a || in_b,
        SetOp::Intersection => in_a && in_b,
        SetOp::Difference => in_a && !in_b,
        SetOp::SymmetricDifference => in_a != in_b,
    }
}

/// The result of `op` on two sets.
pub open spec fn set_op<A>(op: SetOp, a: Set<A>, b: Set<A>) -> Set<A> {
    match op {
        SetOp::Union => a.union(b),
        SetOp::Intersection => a.intersect(b),
        SetOp::Difference => a.difference(b),
        SetOp::SymmetricDifference => a.difference(b).union(b.difference(a)),
    }
}

/// Membership in `set_op` is `op_holds` of the memberships.
pub proof fn lemma_set_op_holds<A>(op: SetOp, a: Set<A>, b: Set<A>, v: A)
    ensures
        set_op(op, a, b).contains(v) == op_holds(op, a.contains(v), b.contains(v)),
{
}

/// Whether `op` keeps a stretch that lies in `a` or not, in `b` or not.
pub fn op_keeps(op: SetOp, in_a: bool, in_b: bool) -> (keep: bool)
    ensures
        keep == op_holds(op, in_a, in_b),
{
    match op {
        SetOp::Union => in_a || in_b,
        SetOp::Intersection => in_a && in_b,
        SetOp::Difference => in_a && !in_b,
        SetOp::SymmetricDifference => in_a != in_b,
    }
}

pub proof fn lemma_hold_push(runs: Seq<Run>, r: Run, v: int)
    ensures
        runs_hold(runs.push(r), v) <==> (runs_hold(runs, v) || run_holds(r, v)),
{
    let ext = runs.push(r);
    if runs_hold(runs, v) {
        let k = choose|k: int| 0 <= k < runs.len() && #[trigger] run_holds(runs[k], v);
        assert(run_holds(ext[k], v));
    }
    if run_holds(r, v) {
        assert(run_holds(ext[runs.len() as int], v));
    }
    if runs_hold(ext, v) {
        let k = choose|k: int| 0 <= k < ext.len() && #[trigger] run_holds(ext[k], v);
        if k < runs.len() {
            assert(run_holds(runs[k], v));
        }
    }
}

pub proof fn lemma_hold_update(runs: Seq<Run>, n: int, r: Run, v: int)
    requires
        0 <= n < runs.len(),
    ensures
        runs_hold(runs.update(n, r), v) ==> (runs_hold(runs, v) || run_holds(r, v)),
        run_holds(r, v) ==> runs_hold(runs.update(n, r), v),
        runs_hold(runs, v) && !run_holds(runs[n], v) ==> runs_hold(runs.update(n, r), v),
{
    let upd = runs.update(n, r);
    if runs_hold(upd, v) {
        let k = choose|k: int| 0 <= k < upd.len() && #[trigger] run_holds(upd[k], v);
        if k != n {
            assert(run_holds(runs[k], v));
        }
    }
    if run_holds(r, v) {
        assert(run_holds(upd[n], v));
    }
    if runs_hold(runs, v) && !run_holds(runs[n], v) {
        let k = choose|k: int| 0 <= k < runs.len() && #[trigger] run_holds(runs[k], v);
        assert(run_holds(upd[k], v));
    }
}

/// Adds the stretch `lo..=hi`, which lies after every run of `out`, and joins
/// it to the last run where the two touch.
pub fn append_run(out: &mut Vec<Run>, lo: u32, hi: u32)
    requires
        normalized(old(out)@),
        lo <= hi,
        forall|k: int| 0 <= k < old(out)@.len() ==> (#[trigger] old(out)@[k]).end < lo,
    ensures
        normalized(final(out)@),
        forall|v: int|
            runs_hold(final(out)@, v) <==> (runs_hold(old(out)@, v) || lo <= v <= hi),
        forall|k: int| 0 <= k < final(out)@.len() ==> (#[trigger] final(out)@[k]).end <= hi,
{
    let n = out.len();
    let ghost before = out@;
    if n > 0 && out[n - 1].end + 1 == lo {
        let first = out[n - 1].start;
        let joined = Run { start: first, end: hi };
        out.set(n - 1, joined);
        proof {
            assert forall|v: int|
                runs_hold(out@, v) <==> (runs_hold(before, v) || lo <= v <= hi) by {
                lemma_hold_update(before, n - 1, joined, v);
                if run_holds(before[n - 1], v) {
                    assert(run_holds(joined, v));
                }
                if lo <= v <= hi {
                    assert(run_holds(joined, v));
                }
                if run_holds(joined, v) && !(lo <= v <= hi) {
                    assert(run_holds(before[n - 1], v));
                }
            }
        }
    } else {
        let fresh = Run { start: lo, end: hi };
        out.push(fresh);
        proof {
            assert forall|v: int|
                runs_hold(out@, v) <==> (runs_hold(before, v) || lo <= v <= hi) by {
                lemma_hold_push(before, fresh, v);
            }
        }
    }
}

/// Where the membership in `runs` next changes after `p`, given the first run
/// `i` that does not end before `p`.
fn next_edge(runs: &Vec<Run>, i: usize, p: u64) -> (edge: (bool, u64))
    requires
        normalized(runs@),
        i <= runs.len(),
        p < ID_LIMIT,
        forall|k: int| 0 <= k < i ==> (#[trigger] runs@[k]).end < p,
        i < runs.len() ==> runs@[i as int].end >= p,
    ensures
        p < edge.1 <= ID_LIMIT,
        forall|v: int| p <= v < edge.1 ==> runs_hold(runs@, v) == edge.0,
        edge.0 ==> i < runs.len() && edge.1 == runs@[i as int].end + 1,
        !edge.0 && i < runs.len() ==> edge.1 == runs@[i as int].start,
        !edge.0 && i == runs.len() ==> edge.1 == ID_LIMIT,
{
    if i < runs.len() {
        let r = runs[i];
        if r.start as u64 <= p {
            proof {
                assert forall|v: int| p <= v < r.end + 1 implies runs_hold(runs@, v) by {
                    assert(run_holds(runs@[i as int], v));
                }
            }
            (true, r.end as u64 + 1)
        } else {
            proof {
                assert forall|v: int| p <= v < r.start implies !runs_hold(runs@, v) by {
                    assert forall|k: int| 0 <= k < runs@.len() implies !run_holds(
                        #[trigger] runs@[k],
                        v,
                    ) by {
                        if k > i {
                            assert(runs@[i as int].end + 1 < runs@[k].start);
                        }
                    }
                }
            }
            (false, r.start as u64)
        }
    } else {
        proof {
            assert forall|v: int| p <= v < ID_LIMIT implies !runs_hold(runs@, v) by {
                assert forall|k: int| 0 <= k < runs@.len() implies !run_holds(
                    #[trigger] runs@[k],
                    v,
                ) by {}
            }
        }
        (false, ID_LIMIT)
    }
}

/// Combines two minimal sequences of runs in one pass over both. The cost
/// grows with the number of runs, not with the number of identifiers.
pub fn sweep(op: SetOp, a: &Vec<Run>, b: &Vec<Run>) -> (out: Vec<Run>)
    requires
        normalized(a@),
        normalized(b@),
    ensures
        normalized(out@),
        runs_set(out@) == set_op(op, runs_set(a@), runs_set(b@)),
{
    let mut out: Vec<Run> = Vec::new();
    let mut i: usize = 0;
    let mut j: usize = 0;
    let mut p: u64 = 0;
    while p < ID_LIMIT && (i < a.len() || j < b.len())
        invariant
            i <= a.len(),
            j <= b.len(),
            p <= ID_LIMIT,
            normalized(a@),
            normalized(b@),
            normalized(out@),
            forall|k: int| 0 <= k < i ==> (#[trigger] a@[k]).end < p,
            forall|k: int| 0 <= k < j ==> (#[trigger] b@[k]).end < p,
            i < a.len() ==> a@[i as int].end >= p,
            j < b.len() ==> b@[j as int].end >= p,
            forall|k: int| 0 <= k < out@.len() ==> (#[trigger] out@[k]).end < p,
            forall|v: int|
                0 <= v < p ==> (runs_hold(out@, v) <==> op_holds(
                    op,
                    runs_hold(a@, v),
                    runs_hold(b@, v),
                )),
        decreases ID_LIMIT - p,
    {
        let (in_a, edge_a) = next_edge(a, i, p);
        let (in_b, edge_b) = next_edge(b, j, p);
        let q: u64 = if edge_a < edge_b { edge_a } else { edge_b };
        let ghost before = out@;
        if op_keeps(op, in_a, in_b) {
            append_run(&mut out, p as u32, (q - 1) as u32);
        }
        proof {
            assert forall|v: int| 0 <= v < q implies (runs_hold(out@, v) <==> op_holds(
                op,
                runs_hold(a@, v),
                runs_hold(b@, v),
            )) by {
                if v >= p {
                    assert(!runs_hold(before, v)) by {
                        assert forall|k: int| 0 <= k < before.len() implies !run_holds(
                            #[trigger] before[k],
                            v,
                        ) by {}
                    }
                }
            }
        }
        if in_a && edge_a == q {
            i = i + 1;
        }
        if in_b && edge_b == q {
            j = j + 1;
        }
        p = q;
    }
    proof {
        assert forall|v: int| runs_hold(out@, v) <==> op_holds(
            op,
            runs_hold(a@, v),
            runs_hold(b@, v),
        ) by {
            if v < 0 || v >= p {
                assert forall|k: int| 0 <= k < out@.len() implies !run_holds(
                    #[trigger] out@[k],
                    v,
                ) by {}
                assert forall|k: int| 0 <= k < a@.len() implies !run_holds(#[trigger] a@[k], v) by {}
                assert forall|k: int| 0 <= k < b@.len() implies !run_holds(#[trigger] b@[k], v) by {}
            }
        }
        assert forall|v: int|
            runs_set(out@).contains(v) == set_op(op, runs_set(a@), runs_set(b@)).contains(
                v,
            ) by {
            lemma_set_op_holds(op, runs_set(a@), runs_set(b@), v);
        }
        assert(runs_set(out@) =~= set_op(op, runs_set(a@), runs_set(b@)));
    }
    out
}

pub proof fn lemma_hold_concat(a: Seq<Run>, b: Seq<Run>, v: int)
    ensures
        runs_hold(a + b, v) <==> (runs_hold(a, v) || runs_hold(b, v)),
{
    let ab = a + b;
    if runs_hold(a, v) {
        let k = choose|k: int| 0 <= k < a.len() && #[trigger] run_holds(a[k], v);
        assert(run_holds(ab[k], v));
    }
    if runs_hold(b, v) {
        let k = choose|k: int| 0 <= k < b.len() && #[trigger] run_holds(b[k], v);
        assert(run_holds(ab[a.len() + k], v));
    }
    if runs_hold(ab, v) {
        let k = choose|k: int| 0 <= k < ab.len() && #[trigger] run_holds(ab[k], v);
        if k < a.len() {
            assert(run_holds(a[k], v));
        } else {
            assert(run_holds(b[k - a.len()], v));
        }
    }
}

/// The number of identifiers that a minimal sequence of runs covers, from the
/// sizes of the runs alone.
pub fn count(runs: &Vec<Run>) -> (n: u64)
    requires
        normalized(runs@),
    ensures
        n == runs_count(runs@),
        n == runs_set(runs@).len(),
        n <= ID_LIMIT,
{
    let mut total: u64 = 0;
    let mut k: usize = 0;
    while k < runs.len()
        invariant
            k <= runs.len(),
            normalized(runs@),
            total == runs_count(runs@.take(k as int)),
            k > 0 ==> total <= runs@[k - 1].end + 1,
            k == 0 ==> total == 0,
        decreases runs.len() - k,
    {
        let r = runs[k];
        proof {
            assert(runs@.take(k + 1).drop_last() =~= runs@.take(k as int));
            if k > 0 {
                assert(runs@[k - 1].end + 1 < runs@[k as int].start);
            }
        }
        total = total + (r.end - r.start) as u64 + 1;
        k = k + 1;
    }
    proof {
        assert(runs@.take(k as int) =~= runs@);
        lemma_runs_count(runs@);
    }
    total
}

/// Whether the runs cover `v`, by bisection.
pub fn holds(runs: &Vec<Run>, v: u32) -> (found: bool)
    requires
        normalized(runs@),
    ensures
        found == runs_hold(runs@, v as int),
{
    let mut lo: usize = 0;
    let mut hi: usize = runs.len();
    while lo < hi
        invariant
            lo <= hi <= runs.len(),
            normalized(runs@),
            forall|k: int| 0 <= k < lo ==> (#[trigger] runs@[k]).end < v,
            forall|k: int| hi <= k < runs@.len() ==> (#[trigger] runs@[k]).start > v,
        decreases hi - lo,
    {
        let mid = lo + (hi - lo) / 2;
        let r = runs[mid];
        if r.end < v {
            proof {
                assert forall|k: int| 0 <= k < mid + 1 implies (#[trigger] runs@[k]).end < v by {
                    if k < mid {
                        assert(runs@[k].end + 1 < runs@[mid as int].start);
                    }
                }
            }
            lo = mid + 1;
        } else if r.start > v {
            proof {
                assert forall|k: int| mid <= k < runs@.len() implies (#[trigger] runs@[k]).start
                    > v by {
                    if k > mid {
                        assert(runs@[mid as int].end + 1 < runs@[k].start);
                    }
                }
            }
            hi = mid;
        } else {
            proof {
                assert(run_holds(runs@[mid as int], v as int));
            }
            return true;
        }
    }
    proof {
        assert forall|k: int| 0 <= k < runs@.len() implies !run_holds(
            #[trigger] runs@[k],
            v as int,
        ) by {}
    }
    false
}

fn normalize_part(raw: &Vec<Run>, lo: usize, hi: usize) -> (out: Vec<Run>)
    requires
        runs_valid(raw@),
        lo <= hi <= raw.len(),
    ensures
        normalized(out@),
        forall|v: int| runs_hold(out@, v) <==> runs_hold(raw@.subrange(lo as int, hi as int), v),
    decreases hi - lo,
{
    if hi - lo == 0 {
        let out: Vec<Run> = Vec::new();
        proof {
            assert forall|v: int| runs_hold(out@, v) <==> runs_hold(
                raw@.subrange(lo as int, hi as int),
                v,
            ) by {}
        }
        out
    } else if hi - lo == 1 {
        let mut out: Vec<Run> = Vec::new();
        out.push(raw[lo]);
        proof {
            assert(out@ =~= raw@.subrange(lo as int, hi as int));
        }
        out
    } else {
        let mid = lo + (hi - lo) / 2;
        let left = normalize_part(raw, lo, mid);
        let right = normalize_part(raw, mid, hi);
        let out = sweep(SetOp::Union, &left, &right);
        proof {
            let whole = raw@.subrange(lo as int, hi as int);
            let first = raw@.subrange(lo as int, mid as int);
            let second = raw@.subrange(mid as int, hi as int);
            assert(whole =~= first + second);
            assert forall|v: int| runs_hold(out@, v) <==> runs_hold(whole, v) by {
                lemma_hold_concat(first, second, v);
                assert(runs_set(out@).contains(v) == runs_hold(out@, v));
                assert(runs_set(left@).contains(v) == runs_hold(left@, v));
                assert(runs_set(right@).contains(v) == runs_hold(right@, v));
            }
        }
        out
    }
}

/// Brings runs given in any order, overlapping or not, into minimal form.
pub fn normalize(raw: &Vec<Run>) -> (out: Vec<Run>)
    requires
        runs_valid(raw@),
    ensures
        normalized(out@),
        runs_set(out@) == runs_set(raw@),
{
    let out = normalize_part(raw, 0, raw.len());
    proof {
        assert(raw@.subrange(0, raw@.len() as int) =~= raw@);
        assert forall|v: int| runs_set(out@).contains(v) == runs_set(raw@).contains(v) by {
            assert(runs_set(out@).contains(v) == runs_hold(out@, v));
            assert(runs_set(raw@).contains(v) == runs_hold(raw@, v));
        }
        assert(runs_set(out@) =~= runs_set(raw@));
    }
    out
}

/// Whether `v` occurs in `values`.
pub open spec fn values_hold(values: Seq<u32>, v: int) -> bool {
    exists|k: int| 0 <= k < values.len() && (#[trigger] values[k]) == v
}

/// The identifiers that occur in `values`.
pub open spec fn values_set(values: Seq<u32>) -> Set<int> {
    Set::new(|v: int| values_hold(values, v))
}

/// The minimal runs that cover exactly the given identifiers, which may come
/// in any order and more than once.
pub fn runs_of_values(values: &Vec<u32>) -> (out: Vec<Run>)
    ensures
        normalized(out@),
        runs_set(out@) == values_set(values@),
{
    let mut raw: Vec<Run> = Vec::new();
    let mut k: usize = 0;
    while k < values.len()
        invariant
            k <= values.len(),
            raw@.len() == k,
            forall|j: int|
                0 <= j < k ==> (#[trigger] raw@[j]) == (Run {
                    start: values@[j],
                    end: values@[j],
                }),
        decreases values.len() - k,
    {
        raw.push(Run { start: values[k], end: values[k] });
        k = k + 1;
    }
    let out = normalize(&raw);
    proof {
        assert forall|v: int| runs_set(out@).contains(v) == values_set(values@).contains(v) by {
            assert(runs_set(raw@).contains(v) == runs_hold(raw@, v));
            assert(values_set(values@).contains(v) == values_hold(values@, v));
            if runs_hold(raw@, v) {
                let j = choose|j: int| 0 <= j < raw@.len() && #[trigger] run_holds(raw@[j], v);
                assert(values@[j] == v);
            }
            if values_hold(values@, v) {
                let j = choose|j: int| 0 <= j < values@.len() && (#[trigger] values@[j]) == v;
                assert(run_holds(raw@[j], v));
            }
        }
        assert(runs_set(out@) =~= values_set(values@));
    }
    out
}

/// Every identifier that the runs cover, in ascending order.
pub fn values_of(runs: &Vec<Run>) -> (out: Vec<u32>)
    requires
        normalized(runs@),
    ensures
        forall|i: int, j: int| 0 <= i < j < out@.len() ==> out@[i] < out@[j],
        forall|v: int| values_hold(out@, v) <==> runs_hold(runs@, v),
        out@.len() == runs_count(runs@),
{
    let mut out: Vec<u32> = Vec::new();
    let mut k: usize = 0;
    while k < runs.len()
        invariant
            k <= runs.len(),
            normalized(runs@),
            forall|i: int, j: int| 0 <= i < j < out@.len() ==> out@[i] < out@[j],
            forall|i: int|
                0 <= i < out@.len() && k < runs@.len() ==> (#[trigger] out@[i]) + 1
                    < runs@[k as int].start,
            forall|v: int| values_hold(out@, v) <==> runs_hold(runs@.take(k as int), v),
            out@.len() == runs_count(runs@.take(k as int)),
        decreases runs.len() - k,
    {
        let r = runs[k];
        let ghost base = out@;
        let mut v: u64 = r.start as u64;
        while v <= r.end as u64
            invariant
                r.start <= v <= r.end + 1,
                r.start <= r.end,
                out@.len() == base.len() + (v - r.start),
                forall|i: int| 0 <= i < base.len() ==> out@[i] == base[i],
                forall|i: int|
                    base.len() <= i < out@.len() ==> (#[trigger] out@[i]) == r.start + (i
                        - base.len()),
            decreases r.end + 1 - v,
        {
            out.push(v as u32);
            v = v + 1;
        }
        proof {
            let front = runs@.take(k as int);
            let next = runs@.take(k + 1);
            assert(next.drop_last() =~= front);
            assert(next =~= front.push(r));
            assert forall|i: int, j: int| 0 <= i < j < out@.len() implies out@[i] < out@[j] by {
                if i < base.len() {
                    assert(out@[i] == base[i]);
                    if j < base.len() {
                        assert(out@[j] == base[j]);
                    }
                }
            }
            assert forall|x: int| values_hold(out@, x) <==> runs_hold(next, x) by {
                lemma_hold_push(front, r, x);
                if values_hold(out@, x) {
                    let i = choose|i: int| 0 <= i < out@.len() && (#[trigger] out@[i]) == x;
                    if i < base.len() {
                        assert(base[i] == x);
                        assert(values_hold(base, x));
                    }
                }
                if values_hold(base, x) {
                    let i = choose|i: int| 0 <= i < base.len() && (#[trigger] base[i]) == x;
                    assert(out@[i] == x);
                }
                if run_holds(r, x) {
                    assert(out@[base.len() + (x - r.start)] == x);
                }
            }
            assert forall|i: int| 0 <= i < out@.len() && k + 1 < runs@.len() implies (
            #[trigger] out@[i]) + 1 < runs@[k + 1].start by {
                assert(runs@[k as int].end + 1 < runs@[k + 1].start);
                if i < base.len() {
                    assert(out@[i] == base[i]);
                }
            }
        }
        k = k + 1;
    }
    proof {
        assert(runs@.take(k as int) =~= runs@);
    }
    out
}

/// A copy of a vector of runs.
pub fn copy_runs(runs: &Vec<Run>) -> (out: Vec<Run>)
    ensures
        out@ == runs@,
{
    let mut out: Vec<Run> = Vec::new();
    let mut k: usize = 0;
    while k < runs.len()
        invariant
            k <= runs.len(),
            out@ == runs@.take(k as int),
        decreases runs.len() - k,
    {
        out.push(runs[k]);
        proof {
            assert(runs@.take(k + 1) =~= runs@.take(k as int).push(runs@[k as int]));
        }
        k = k + 1;
    }
    proof {
        assert(runs@.take(k as int) =~= runs@);
    }
    out
}

} // verus!

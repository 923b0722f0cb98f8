//! The list representation: the minimal runs of the set in a vector. Cheap to
//! build and to walk from one end to the other.

use crate::normal_form::{lemma_empty_runs, lemma_runs_count};
use crate::range::IdRange;
use crate::runs::{
    copy_runs, count, holds, normalize, normalized, run_holds, runs_hold, runs_of_values, runs_set,
    runs_valid, sweep, values_hold, values_of, values_set, Run, SetOp, ID_LIMIT,
};
use vstd::prelude::*;

verus! {

/// A set of identifiers as a vector of runs.
#[derive(Debug)]
pub struct RangeList {
    runs: Vec<Run>,
    pad: usize,
}

impl View for RangeList {
    type V = Set<int>;

    closed spec fn view(&self) -> Set<int> {
        runs_set(self.runs@)
    }
}

impl RangeList {
    /// What holds of a list before it is sorted: each run has
    /// `start <= end`.
    pub closed spec fn raw_wf(&self) -> bool {
        runs_valid(self.runs@)
    }

    /// A list in minimal form is a list as `sort` takes it.
    pub proof fn lemma_sorted_is_raw(&self)
        requires
            self.wf(),
        ensures
            self.raw_wf(),
    {
    }

    /// The given identifiers as they come, one run each, not yet in minimal
    /// form: only `sort` may be called on the result.
    pub fn unsorted(values: Vec<u32>) -> (r: RangeList)
        ensures
            r.raw_wf(),
            r@ == values_set(values@),
            r.width() == 0,
    {
        let mut raw: Vec<Run> = Vec::new();
        let mut k: usize = 0;
        while k < values.len()
            invariant
                k <= values.len(),
                raw@.len() == k,
                forall|j: int|
                    0 <= j < k ==> (#[trigger] raw@[j]) == (Run {
                        start: values@[j],
                        end: values@[j],
                    }),
            decreases values.len() - k,
        {
            raw.push(Run { start: values[k], end: values[k] });
            k = k + 1;
        }
        proof {
            assert forall|v: int| runs_set(raw@).contains(v) == values_set(values@).contains(
                v,
            ) by {
                assert(runs_set(raw@).contains(v) == runs_hold(raw@, v));
                assert(values_set(values@).contains(v) == values_hold(values@, v));
                if runs_hold(raw@, v) {
                    let j = choose|j: int| 0 <= j < raw@.len() && #[trigger] run_holds(raw@[j], v);
                    assert(values@[j] == v);
                }
                if values_hold(values@, v) {
                    let j = choose|j: int| 0 <= j < values@.len() && (#[trigger] values@[j]) == v;
                    assert(run_holds(raw@[j], v));
                }
            }
            assert(runs_set(raw@) =~= values_set(values@));
        }
        RangeList { runs: raw, pad: 0 }
    }

    /// Brings the list into minimal form: runs ascending, none touching the
    /// next. The members stay the same.
    pub fn sort(&mut self)
        requires
            old(self).raw_wf(),
        ensures
            final(self).wf(),
            final(self)@ == old(self)@,
            final(self).width() == old(self).width(),
    {
        let sorted = normalize(&self.runs);
        self.runs = sorted;
    }

    /// The same set shown with another width.
    pub fn with_pad(self, width: usize) -> (r: RangeList)
        requires
            self.wf(),
        ensures
            r.wf(),
            r@ == self@,
            r.width() == width,
    {
        RangeList { runs: self.runs, pad: width }
    }
}

impl IdRange for RangeList {
    closed spec fn wf(&self) -> bool {
        normalized(self.runs@)
    }

    closed spec fn width(&self) -> nat {
        self.pad as nat
    }

    proof fn lemma_members(&self) {
        lemma_runs_count(self.runs@);
        assert forall|v: int| self@.contains(v) implies 0 <= v < ID_LIMIT by {
            assert(runs_set(self.runs@).contains(v) == runs_hold(self.runs@, v));
        }
    }

    fn new(values: Vec<u32>) -> (r: RangeList) {
        RangeList { runs: runs_of_values(&values), pad: 0 }
    }

    fn from_runs(runs: &Vec<Run>, width: usize) -> (r: RangeList) {
        RangeList { runs: normalize(runs), pad: width }
    }

    fn runs(&self) -> (out: Vec<Run>) {
        copy_runs(&self.runs)
    }

    fn pad(&self) -> (w: usize) {
        self.pad
    }

    fn duplicate(&self) -> (r: RangeList) {
        RangeList { runs: copy_runs(&self.runs), pad: self.pad }
    }

    fn combine(&self, other: &RangeList, op: SetOp) -> (r: RangeList) {
        let pad = if self.pad >= other.pad {
            self.pad
        } else {
            other.pad
        };
        RangeList { runs: sweep(op, &self.runs, &other.runs), pad }
    }

    fn union(&self, other: &RangeList) -> (r: RangeList) {
        self.combine(other, SetOp::Union)
    }

    fn intersection(&self, other: &RangeList) -> (r: RangeList) {
        self.combine(other, SetOp::Intersection)
    }

    fn difference(&self, other: &RangeList) -> (r: RangeList) {
        self.combine(other, SetOp::Difference)
    }

    fn symmetric_difference(&self, other: &RangeList) -> (r: RangeList) {
        self.combine(other, SetOp::SymmetricDifference)
    }

    fn contains(&self, v: u32) -> (found: bool) {
        proof {
            assert(runs_set(self.runs@).contains(v as int) == runs_hold(self.runs@, v as int));
        }
        holds(&self.runs, v)
    }

    fn is_empty(&self) -> (empty: bool) {
        proof {
            lemma_empty_runs(self.runs@);
        }
        self.runs.len() == 0
    }

    fn len(&self) -> (n: u64) {
        count(&self.runs)
    }

    fn to_vec(&self) -> (out: Vec<u32>) {
        let out = values_of(&self.runs);
        proof {
            lemma_runs_count(self.runs@);
            assert forall|v: int| values_hold(out@, v) <==> self@.contains(v) by {
                assert(runs_set(self.runs@).contains(v) == runs_hold(self.runs@, v));
            }
        }
        out
    }
}

} // verus!

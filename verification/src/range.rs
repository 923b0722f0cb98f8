//! What every representation of a set of identifiers offers.

use crate::runs::{
    normalized, runs_set, runs_valid, set_op, values_hold, values_set, Run, SetOp, ID_LIMIT,
};
use vstd::prelude::*;

verus! {

/// The wider of two display widths.
pub open spec fn wider(a: nat, b: nat) -> nat {
    if a >= b {
        a
    } else {
        b
    }
}

/// A finite set of identifiers together with the width to which its members
/// are zero-padded when shown. The view is the set; the width never takes
/// part in the algebra, and a result carries the wider of its operands'.
pub trait IdRange: Sized + View<V = Set<int>> {
    /// The invariant of the representation.
    spec fn wf(&self) -> bool;

    /// The display width; 0 and 1 both mean no padding.
    spec fn width(&self) -> nat;

    /// Every member is an identifier, and there are finitely many.
    proof fn lemma_members(&self)
        requires
            self.wf(),
        ensures
            self@.finite(),
            forall|v: int| self@.contains(v) ==> 0 <= v < ID_LIMIT,
    ;

    /// The set of the given identifiers, which may come unordered and
    /// repeated.
    fn new(values: Vec<u32>) -> (r: Self)
        ensures
            r.wf(),
            r@ == values_set(values@),
            r.width() == 0,
    ;

    /// The set that the given runs cover, in any order and overlapping or
    /// not, with the given display width.
    fn from_runs(runs: &Vec<Run>, width: usize) -> (r: Self)
        requires
            runs_valid(runs@),
        ensures
            r.wf(),
            r@ == runs_set(runs@),
            r.width() == width,
    ;

    /// The minimal runs of the set, ascending.
    fn runs(&self) -> (out: Vec<Run>)
        requires
            self.wf(),
        ensures
            normalized(out@),
            runs_set(out@) == self@,
    ;

    /// The display width.
    fn pad(&self) -> (w: usize)
        requires
            self.wf(),
        ensures
            w == self.width(),
    ;

    /// A copy of the set.
    fn duplicate(&self) -> (r: Self)
        requires
            self.wf(),
        ensures
            r.wf(),
            r@ == self@,
            r.width() == self.width(),
    ;

    /// The result of `op` on the two sets.
    fn combine(&self, other: &Self, op: SetOp) -> (r: Self)
        requires
            self.wf(),
            other.wf(),
        ensures
            r.wf(),
            r@ == set_op(op, self@, other@),
            r.width() == wider(self.width(), other.width()),
    ;

    /// The identifiers in either set.
    fn union(&self, other: &Self) -> (r: Self)
        requires
            self.wf(),
            other.wf(),
        ensures
            r.wf(),
            r@ == self@.union(other@),
            r.width() == wider(self.width(), other.width()),
    ;

    /// The identifiers in both sets.
    fn intersection(&self, other: &Self) -> (r: Self)
        requires
            self.wf(),
            other.wf(),
        ensures
            r.wf(),
            r@ == self@.intersect(other@),
            r.width() == wider(self.width(), other.width()),
    ;

    /// The identifiers in `self` and not in `other`.
    fn difference(&self, other: &Self) -> (r: Self)
        requires
            self.wf(),
            other.wf(),
        ensures
            r.wf(),
            r@ == self@.difference(other@),
            r.width() == wider(self.width(), other.width()),
    ;

    /// The identifiers in exactly one of the two sets.
    fn symmetric_difference(&self, other: &Self) -> (r: Self)
        requires
            self.wf(),
            other.wf(),
        ensures
            r.wf(),
            r@ == self@.difference(other@).union(other@.difference(self@)),
            r.width() == wider(self.width(), other.width()),
    ;

    /// Whether `v` is a member.
    fn contains(&self, v: u32) -> (found: bool)
        requires
            self.wf(),
        ensures
            found == self@.contains(v as int),
    ;

    /// Whether the set has no member.
    fn is_empty(&self) -> (empty: bool)
        requires
            self.wf(),
        ensures
            empty <==> self@ == Set::<int>::empty(),
    ;

    /// The number of members.
    fn len(&self) -> (n: u64)
        requires
            self.wf(),
        ensures
            n == self@.len(),
    ;

    /// The members in ascending order.
    fn to_vec(&self) -> (out: Vec<u32>)
        requires
            self.wf(),
        ensures
            forall|i: int, j: int| 0 <= i < j < out@.len() ==> out@[i] < out@[j],
            forall|v: int| values_hold(out@, v) <==> self@.contains(v),
            out@.len() == self@.len(),
    ;
}

} // verus!

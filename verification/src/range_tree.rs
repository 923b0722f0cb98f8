//! The tree representation: the minimal runs of the set in an ordered map
//! from the start of each run to its end. Identifiers are added one at a time
//! and looked up in logarithmic time.

use crate::normal_form::lemma_runs_count;
use crate::range::IdRange;
use crate::runs::{
    count, normalize, normalized, run_holds, runs_hold, runs_set, sweep, values_hold, values_of,
    values_set, Run, SetOp, ID_LIMIT,
};
use std::collections::BTreeMap;
use vstd::prelude::*;

verus! {

broadcast use vstd::std_specs::btree::group_btree_axioms;

/// Whether one of the runs in the map, each from a key to its value, holds
/// `v`.
pub open spec fn tree_holds(m: Map<u32, u32>, v: int) -> bool {
    exists|k: u32| #[trigger] m.contains_key(k) && k <= v <= m[k]
}

/// The minimal form, read on the map: each key is at most its value, and
/// between the value of one key and the next key lies an identifier.
pub open spec fn tree_wf(m: Map<u32, u32>) -> bool {
    &&& forall|k: u32| #[trigger] m.contains_key(k) ==> k <= m[k]
    &&& forall|j: u32, k: u32|
        #![trigger m.contains_key(j), m.contains_key(k)]
        m.contains_key(j) && m.contains_key(k) && j < k ==> m[j] + 1 < k
}

/// The entry with the greatest key that is at most `key`, if there is one.
/// This is `BTreeMap::range` of std on the keys up to `key`, asked for its
/// last entry: the map yields its entries in ascending order of their keys,
/// so that entry has the greatest such key, and there is none exactly when
/// every key is greater than `key`.
#[verifier::external_body]
fn last_at_or_below(map: &BTreeMap<u32, u32>, key: u32) -> (found: Option<(u32, u32)>)
    ensures
        match found {
            Some((k, e)) => map@.contains_key(k) && map@[k] == e && k <= key && forall|j: u32|
                #[trigger] map@.contains_key(j) && j <= key ==> j <= k,
            None => forall|j: u32| #[trigger] map@.contains_key(j) ==> j > key,
        },
{
    match map.range(..=key).next_back() {
        Some((k, e)) => Some((*k, *e)),
        None => None,
    }
}

fn lookup(map: &BTreeMap<u32, u32>, v: u32) -> (found: bool)
    requires
        tree_wf(map@),
    ensures
        found == tree_holds(map@, v as int),
{
    match last_at_or_below(map, v) {
        Some((k, e)) => {
            proof {
                if e < v {
                    assert forall|j: u32| #[trigger] map@.contains_key(j) implies !(j <= v
                        <= map@[j]) by {
                        if j <= v && j != k {
                            assert(map@.contains_key(j) && map@.contains_key(k));
                        }
                    }
                }
            }
            e >= v
        },
        None => false,
    }
}

/// Adds one identifier, joining it to the run that ends just before it and to
/// the run that starts just after it.
fn add_value(map: &mut BTreeMap<u32, u32>, v: u32)
    requires
        tree_wf(old(map)@),
    ensures
        tree_wf(final(map)@),
        forall|x: int| tree_holds(final(map)@, x) <==> (tree_holds(old(map)@, x) || x == v),
{
    let ghost m0 = map@;
    let below = last_at_or_below(map, v);
    let mut start = v;
    match below {
        Some((k, e)) => {
            if e >= v {
                proof {
                    assert(m0.contains_key(k) && k <= v <= m0[k]);
                }
                return ;
            }
            if e + 1 == v {
                start = k;
            }
        },
        None => {},
    }
    let mut end = v;
    let mut joined_next = false;
    if v < u32::MAX {
        let next = v + 1;
        let after = match map.get(&next) {
            Some(e2) => Some(*e2),
            None => None,
        };
        match after {
            Some(e2) => {
                end = e2;
                joined_next = true;
                map.remove(&next);
            },
            None => {},
        }
    }
    let ghost m1 = map@;
    map.insert(start, end);
    proof {
        let m2 = map@;
        assert(m2 == m1.insert(start, end));
        assert(joined_next ==> m0.contains_key((v + 1) as u32) && m1 == m0.remove((v + 1) as u32)
            && end == m0[(v + 1) as u32]);
        assert(!joined_next ==> m1 == m0 && end == v);
        assert(!m0.contains_key(v)) by {
            if m0.contains_key(v) {
                assert(below is Some);
            }
        }
        // every key of the old map is below `start`, is `start`, is the
        // removed `v + 1`, or lies beyond `end + 1`
        assert forall|j: u32| #[trigger] m0.contains_key(j) implies (j < start && m0[j] + 1 < start)
            || (j == start && m0[j] < v) || (joined_next && j == v + 1) || (j > end + 1) by {
            if j <= v {
                match below {
                    Some((k, e)) => {
                        assert(j <= k);
                        if j < k {
                            assert(m0.contains_key(j) && m0.contains_key(k));
                        }
                    },
                    None => {},
                }
            } else if j != v + 1 {
                if joined_next {
                    assert(m0.contains_key((v + 1) as u32) && m0.contains_key(j));
                }
            } else {
                assert(joined_next);
            }
        }
        assert forall|k: u32| #[trigger] m2.contains_key(k) implies k <= m2[k] by {
            if k != start {
                assert(m0.contains_key(k));
            }
        }
        assert forall|j: u32, k: u32|
            #![trigger m2.contains_key(j), m2.contains_key(k)]
            m2.contains_key(j) && m2.contains_key(k) && j < k implies m2[j] + 1 < k by {
            if j != start {
                assert(m0.contains_key(j));
            }
            if k != start {
                assert(m0.contains_key(k));
            }
            if j != start && k != start {
                assert(m0.contains_key(j) && m0.contains_key(k));
            }
        }
        assert forall|x: int| tree_holds(m2, x) <==> (tree_holds(m0, x) || x == v) by {
            if tree_holds(m2, x) {
                let k = choose|k: u32| #[trigger] m2.contains_key(k) && k <= x <= m2[k];
                if k != start {
                    assert(m0.contains_key(k) && k <= x <= m0[k]);
                } else if x < v {
                    assert(m0.contains_key(start) && start <= x <= m0[start]);
                } else if x > v {
                    assert(m0.contains_key((v + 1) as u32));
                }
            }
            if x == v {
                assert(m2.contains_key(start) && start <= x <= m2[start]);
            }
            if tree_holds(m0, x) {
                let k = choose|k: u32| #[trigger] m0.contains_key(k) && k <= x <= m0[k];
                assert(m0.contains_key(k));
                if k == start || (joined_next && k == v + 1) {
                    assert(m2.contains_key(start) && start <= x <= m2[start]);
                } else {
                    assert(m2.contains_key(k) && k <= x <= m2[k]);
                }
            }
        }
    }
}

/// The map of a minimal sequence of runs.
fn tree_of_runs(runs: &Vec<Run>) -> (map: BTreeMap<u32, u32>)
    requires
        normalized(runs@),
    ensures
        tree_wf(map@),
        forall|x: int| tree_holds(map@, x) <==> runs_hold(runs@, x),
{
    let mut map: BTreeMap<u32, u32> = BTreeMap::new();
    let mut n: usize = 0;
    while n < runs.len()
        invariant
            n <= runs.len(),
            normalized(runs@),
            forall|j: u32| #[trigger]
                map@.contains_key(j) ==> exists|i: int|
                    0 <= i < n && (#[trigger] runs@[i]).start == j && runs@[i].end == map@[j],
            forall|i: int|
                0 <= i < n ==> map@.contains_key((#[trigger] runs@[i]).start)
                    && map@[runs@[i].start] == runs@[i].end,
        decreases runs.len() - n,
    {
        let r = runs[n];
        let ghost before = map@;
        map.insert(r.start, r.end);
        proof {
            assert forall|i: int| 0 <= i < n + 1 implies map@.contains_key(
                (#[trigger] runs@[i]).start,
            ) && map@[runs@[i].start] == runs@[i].end by {
                if i < n {
                    assert(runs@[i].end + 1 < runs@[n as int].start);
                }
            }
            assert forall|j: u32| #[trigger] map@.contains_key(j) implies exists|i: int|
                0 <= i < n + 1 && (#[trigger] runs@[i]).start == j && runs@[i].end == map@[j] by {
                if j == r.start {
                    assert(runs@[n as int].start == j);
                } else {
                    assert(before.contains_key(j));
                    let i = choose|i: int|
                        0 <= i < n && (#[trigger] runs@[i]).start == j && runs@[i].end
                            == before[j];
                    assert(runs@[i].start == j && runs@[i].end == map@[j]);
                }
            }
        }
        n = n + 1;
    }
    proof {
        let m = map@;
        assert forall|k: u32| #[trigger] m.contains_key(k) implies k <= m[k] by {
            let i = choose|i: int|
                0 <= i < n && (#[trigger] runs@[i]).start == k && runs@[i].end == m[k];
        }
        assert forall|j: u32, k: u32|
            #![trigger m.contains_key(j), m.contains_key(k)]
            m.contains_key(j) && m.contains_key(k) && j < k implies m[j] + 1 < k by {
            let a = choose|i: int|
                0 <= i < n && (#[trigger] runs@[i]).start == j && runs@[i].end == m[j];
            let b = choose|i: int|
                0 <= i < n && (#[trigger] runs@[i]).start == k && runs@[i].end == m[k];
            if a < b {
                assert(runs@[a].end + 1 < runs@[b].start);
            } else if b < a {
                assert(runs@[b].end + 1 < runs@[a].start);
            }
        }
        assert forall|x: int| tree_holds(m, x) <==> runs_hold(runs@, x) by {
            if tree_holds(m, x) {
                let k = choose|k: u32| #[trigger] m.contains_key(k) && k <= x <= m[k];
                let i = choose|i: int|
                    0 <= i < n && (#[trigger] runs@[i]).start == k && runs@[i].end == m[k];
                assert(run_holds(runs@[i], x));
            }
            if runs_hold(runs@, x) {
                let i = choose|i: int| 0 <= i < runs@.len() && #[trigger] run_holds(runs@[i], x);
                assert(m.contains_key(runs@[i].start));
            }
        }
    }
    map
}

/// The runs of the map, ascending. The walk goes down from the greatest key,
/// one lookup for each run, and the result is turned round.
fn runs_of_tree(map: &BTreeMap<u32, u32>) -> (out: Vec<Run>)
    requires
        tree_wf(map@),
    ensures
        normalized(out@),
        forall|x: int| runs_hold(out@, x) <==> tree_holds(map@, x),
{
    let mut down: Vec<Run> = Vec::new();
    let mut cursor: u32 = u32::MAX;
    let mut more = true;
    while more
        invariant
            tree_wf(map@),
            forall|i: int|
                0 <= i < down@.len() ==> map@.contains_key((#[trigger] down@[i]).start)
                    && map@[down@[i].start] == down@[i].end,
            forall|i: int, j: int|
                #![trigger down@[i], down@[j]]
                0 <= i < j < down@.len() ==> down@[j].start < down@[i].start,
            more ==> forall|i: int| 0 <= i < down@.len() ==> (#[trigger] down@[i]).start > cursor,
            more ==> forall|k: u32| #[trigger]
                map@.contains_key(k) && k > cursor ==> exists|i: int|
                    0 <= i < down@.len() && (#[trigger] down@[i]).start == k,
            !more ==> forall|k: u32| #[trigger]
                map@.contains_key(k) ==> exists|i: int|
                    0 <= i < down@.len() && (#[trigger] down@[i]).start == k,
        decreases cursor + (if more { 1int } else { 0int }),
    {
        let ghost before = down@;
        match last_at_or_below(map, cursor) {
            None => {
                more = false;
                proof {
                    assert forall|k: u32| #[trigger] map@.contains_key(k) implies exists|i: int|
                        0 <= i < down@.len() && (#[trigger] down@[i]).start == k by {
                        assert(k > cursor);
                    }
                }
            },
            Some((s, e)) => {
                down.push(Run { start: s, end: e });
                proof {
                    assert forall|k: u32| #[trigger] map@.contains_key(k) && k >= s implies exists|
                        i: int,
                    | 0 <= i < down@.len() && (#[trigger] down@[i]).start == k by {
                        if k == s {
                            assert(down@[before.len() as int].start == k);
                        } else {
                            assert(k > cursor);
                            let i = choose|i: int|
                                0 <= i < before.len() && (#[trigger] before[i]).start == k;
                            assert(down@[i].start == k);
                        }
                    }
                    assert forall|i: int, j: int|
                        #![trigger down@[i], down@[j]]
                        0 <= i < j < down@.len() implies down@[j].start < down@[i].start by {
                        if j == before.len() {
                            assert(before[i].start > cursor);
                        } else {
                            assert(before[j].start < before[i].start);
                        }
                    }
                }
                if s == 0 {
                    more = false;
                } else {
                    cursor = s - 1;
                }
            },
        }
    }
    let n = down.len();
    let mut out: Vec<Run> = Vec::new();
    let mut t: usize = 0;
    while t < n
        invariant
            t <= n,
            n == down@.len(),
            out@.len() == t,
            forall|i: int| 0 <= i < t ==> (#[trigger] out@[i]) == down@[n - 1 - i],
        decreases n - t,
    {
        out.push(down[n - 1 - t]);
        t = t + 1;
    }
    proof {
        let m = map@;
        assert forall|i: int| 0 <= i < out@.len() implies (#[trigger] out@[i]).start
            <= out@[i].end by {
            assert(m.contains_key(down@[n - 1 - i].start));
        }
        assert forall|i: int, j: int|
            #![trigger out@[i], out@[j]]
            0 <= i < j < out@.len() implies out@[i].end + 1 < out@[j].start by {
            let a = down@[n - 1 - i];
            let b = down@[n - 1 - j];
            assert(down@[n - 1 - i].start < down@[n - 1 - j].start);
            assert(m.contains_key(a.start) && m.contains_key(b.start));
        }
        assert forall|x: int| runs_hold(out@, x) <==> tree_holds(m, x) by {
            if runs_hold(out@, x) {
                let i = choose|i: int| 0 <= i < out@.len() && #[trigger] run_holds(out@[i], x);
                let r = down@[n - 1 - i];
                assert(m.contains_key(r.start) && r.start <= x <= m[r.start]);
            }
            if tree_holds(m, x) {
                let k = choose|k: u32| #[trigger] m.contains_key(k) && k <= x <= m[k];
                let i = choose|i: int| 0 <= i < down@.len() && (#[trigger] down@[i]).start == k;
                assert(out@[n - 1 - i] == down@[i]);
                assert(run_holds(out@[n - 1 - i], x));
            }
        }
    }
    out
}

/// A set of identifiers as an ordered map of runs.
#[derive(Debug)]
pub struct RangeTree {
    map: BTreeMap<u32, u32>,
    pad: usize,
}

impl View for RangeTree {
    type V = Set<int>;

    closed spec fn view(&self) -> Set<int> {
        Set::new(|v: int| tree_holds(self.map@, v))
    }
}

impl RangeTree {
    /// The same set shown with another width.
    pub fn with_pad(self, width: usize) -> (r: RangeTree)
        requires
            self.wf(),
        ensures
            r.wf(),
            r@ == self@,
            r.width() == width,
    {
        RangeTree { map: self.map, pad: width }
    }

    /// Adds one identifier to the set.
    pub fn insert(&mut self, v: u32)
        requires
            old(self).wf(),
        ensures
            final(self).wf(),
            final(self)@ == old(self)@.insert(v as int),
            final(self).width() == old(self).width(),
    {
        add_value(&mut self.map, v);
        proof {
            assert(self@ =~= old(self)@.insert(v as int));
        }
    }

    proof fn lemma_same(&self, runs: Seq<Run>)
        requires
            forall|x: int| runs_hold(runs, x) <==> tree_holds(self.map@, x),
        ensures
            runs_set(runs) == self@,
    {
        assert forall|x: int| runs_set(runs).contains(x) == self@.contains(x) by {
            assert(runs_set(runs).contains(x) == runs_hold(runs, x));
        }
        assert(runs_set(runs) =~= self@);
    }
}

impl IdRange for RangeTree {
    closed spec fn wf(&self) -> bool {
        tree_wf(self.map@)
    }

    closed spec fn width(&self) -> nat {
        self.pad as nat
    }

    proof fn lemma_members(&self) {
        let m = self.map@;
        let bound = Set::new(|v: int| 0 <= v < ID_LIMIT);
        assert(bound =~= vstd::set_lib::set_int_range(0, ID_LIMIT as int));
        vstd::set_lib::lemma_int_range(0, ID_LIMIT as int);
        assert(self@.subset_of(bound));
        vstd::set_lib::lemma_len_subset(self@, bound);
    }

    fn new(values: Vec<u32>) -> (r: RangeTree) {
        let mut map: BTreeMap<u32, u32> = BTreeMap::new();
        let mut n: usize = 0;
        while n < values.len()
            invariant
                n <= values.len(),
                tree_wf(map@),
                forall|x: int| tree_holds(map@, x) <==> values_hold(values@.take(n as int), x),
            decreases values.len() - n,
        {
            let ghost before = map@;
            add_value(&mut map, values[n]);
            proof {
                let front = values@.take(n as int);
                let next = values@.take(n + 1);
                assert forall|x: int| tree_holds(map@, x) <==> values_hold(next, x) by {
                    if values_hold(front, x) {
                        let i = choose|i: int| 0 <= i < front.len() && (#[trigger] front[i]) == x;
                        assert(next[i] == x);
                    }
                    if x == values@[n as int] {
                        assert(next[n as int] == x);
                    }
                    if values_hold(next, x) {
                        let i = choose|i: int| 0 <= i < next.len() && (#[trigger] next[i]) == x;
                        if i < n {
                            assert(front[i] == x);
                        }
                    }
                }
            }
            n = n + 1;
        }
        let r = RangeTree { map, pad: 0 };
        proof {
            assert(values@.take(n as int) =~= values@);
            assert forall|x: int| r@.contains(x) == values_set(values@).contains(x) by {
                assert(values_set(values@).contains(x) == values_hold(values@, x));
            }
            assert(r@ =~= values_set(values@));
        }
        r
    }

    fn from_runs(runs: &Vec<Run>, width: usize) -> (r: RangeTree) {
        let minimal = normalize(runs);
        let r = RangeTree { map: tree_of_runs(&minimal), pad: width };
        proof {
            r.lemma_same(minimal@);
        }
        r
    }

    fn runs(&self) -> (out: Vec<Run>) {
        let out = runs_of_tree(&self.map);
        proof {
            self.lemma_same(out@);
        }
        out
    }

    fn pad(&self) -> (w: usize) {
        self.pad
    }

    fn duplicate(&self) -> (r: RangeTree) {
        RangeTree { map: self.map.clone(), pad: self.pad }
    }

    fn combine(&self, other: &RangeTree, op: SetOp) -> (r: RangeTree) {
        let pad = if self.pad >= other.pad {
            self.pad
        } else {
            other.pad
        };
        let a = runs_of_tree(&self.map);
        let b = runs_of_tree(&other.map);
        let merged = sweep(op, &a, &b);
        let r = RangeTree { map: tree_of_runs(&merged), pad };
        proof {
            self.lemma_same(a@);
            other.lemma_same(b@);
            r.lemma_same(merged@);
        }
        r
    }

    fn union(&self, other: &RangeTree) -> (r: RangeTree) {
        self.combine(other, SetOp::Union)
    }

    fn intersection(&self, other: &RangeTree) -> (r: RangeTree) {
        self.combine(other, SetOp::Intersection)
    }

    fn difference(&self, other: &RangeTree) -> (r: RangeTree) {
        self.combine(other, SetOp::Difference)
    }

    fn symmetric_difference(&self, other: &RangeTree) -> (r: RangeTree) {
        self.combine(other, SetOp::SymmetricDifference)
    }

    fn contains(&self, v: u32) -> (found: bool) {
        lookup(&self.map, v)
    }

    fn is_empty(&self) -> (empty: bool) {
        let empty = self.map.is_empty();
        proof {
            let m = self.map@;
            if empty {
                assert forall|x: int| !self@.contains(x) by {
                    if tree_holds(m, x) {
                        let k = choose|k: u32| #[trigger] m.contains_key(k) && k <= x <= m[k];
                        assert(m.dom().contains(k));
                    }
                }
                assert(self@ =~= Set::<int>::empty());
            } else {
                assert(m.dom() !== Set::<u32>::empty());
                let k = choose|k: u32| m.dom().contains(k);
                assert(m.contains_key(k));
                assert(m.contains_key(k) && k <= k <= m[k]);
                assert(tree_holds(m, k as int));
                assert(self@.contains(k as int));
            }
        }
        empty
    }

    fn len(&self) -> (n: u64) {
        let runs = runs_of_tree(&self.map);
        proof {
            self.lemma_same(runs@);
        }
        count(&runs)
    }

    fn to_vec(&self) -> (out: Vec<u32>) {
        let runs = runs_of_tree(&self.map);
        let out = values_of(&runs);
        proof {
            self.lemma_same(runs@);
            lemma_runs_count(runs@);
            assert forall|v: int| values_hold(out@, v) <==> self@.contains(v) by {
                assert(runs_set(runs@).contains(v) == runs_hold(runs@, v));
            }
        }
        out
    }
}

} // verus!

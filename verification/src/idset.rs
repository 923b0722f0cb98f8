//! Sets of node names over either representation of their identifiers.

use crate::content::{
    ascending, combines, content_wf, gathers, group_wf, holds_node, holds_only, is_unit,
    lemma_absent_before, splits, unit_before, units_ascend,
    lemma_holds_concat, lemma_holds_push, lemma_no_pattern, lemma_take_step, lemma_total,
    lemma_widest_absent, lemma_widest_at, lemma_widest_concat, lemma_widest_same, members, total,
    widest, written_group, written_groups, Group, Node,
};
use crate::grammar::{parse_spec, ParseError, Written};
use crate::grammar_wf::written_wf;
use crate::parser::{parse_pieces, pieces_view, Piece};
use crate::runs::{run_holds, runs_hold, runs_set, Run, ID_LIMIT};
use crate::text::chars_of;
use crate::order::{comes_before, lemma_before_transitive, rank_patterns};
use crate::pattern::{copy_chars, has_slot, Rank};
use crate::range::{wider, IdRange};
use crate::runs::{lemma_set_op_holds, op_holds, set_op, values_hold, values_set, SetOp};
use vstd::prelude::*;

verus! {

/// A pattern with the identifiers that fill its slot.
pub struct Entry<R: IdRange> {
    pub pattern: Vec<char>,
    pub ids: R,
}

/// What an entry stands for.
pub open spec fn group_of<R: IdRange>(e: Entry<R>) -> Group {
    Group { pattern: e.pattern@, ids: e.ids@, width: e.ids.width() }
}

/// What a sequence of entries stands for.
pub open spec fn groups_of<R: IdRange>(es: Seq<Entry<R>>) -> Seq<Group> {
    Seq::new(es.len(), |k: int| group_of(es[k]))
}

/// Each entry's identifiers are well-formed in their representation.
pub open spec fn ranges_wf<R: IdRange>(es: Seq<Entry<R>>) -> bool {
    forall|k: int| 0 <= k < es.len() ==> (#[trigger] es[k]).ids.wf()
}

/// Each entry alone is well-formed; nothing is said of their order.
pub open spec fn each_wf<R: IdRange>(es: Seq<Entry<R>>) -> bool {
    &&& ranges_wf(es)
    &&& forall|k: int| 0 <= k < es.len() ==> group_wf(group_of(#[trigger] es[k]))
}

/// The entries are well-formed and their patterns ascend.
pub open spec fn entries_wf<R: IdRange>(es: Seq<Entry<R>>) -> bool {
    &&& ranges_wf(es)
    &&& content_wf(groups_of(es))
}

pub proof fn lemma_groups_push<R: IdRange>(es: Seq<Entry<R>>, e: Entry<R>)
    ensures
        groups_of(es.push(e)) == groups_of(es).push(group_of(e)),
{
    assert(groups_of(es.push(e)) =~= groups_of(es).push(group_of(e)));
}

/// The empty set of identifiers.
pub fn no_ids<R: IdRange>() -> (r: R)
    ensures
        r.wf(),
        r@ == Set::<int>::empty(),
        r.width() == 0,
{
    let values: Vec<u32> = Vec::new();
    let r = R::new(values);
    proof {
        assert(values_set(values@) =~= Set::<int>::empty()) by {
            assert forall|v: int| !values_set(values@).contains(v) by {
                assert(values_set(values@).contains(v) == values_hold(values@, v));
            }
        }
    }
    r
}

/// Combines two ascending sequences of entries in one pass over both: the
/// identifiers of a pattern that both have are combined by `op`, and a
/// pattern that one of them lacks counts there as having none. Patterns left
/// without identifiers are dropped.
pub fn merge_entries<R: IdRange>(a: &Vec<Entry<R>>, b: &Vec<Entry<R>>, op: SetOp) -> (out: Vec<
    Entry<R>,
>)
    requires
        entries_wf(a@),
        entries_wf(b@),
    ensures
        entries_wf(out@),
        members(groups_of(out@)) == set_op(op, members(groups_of(a@)), members(groups_of(b@))),
        forall|k: int|
            0 <= k < out@.len() ==> (#[trigger] groups_of(out@)[k]).width == wider(
                widest(groups_of(a@), groups_of(out@)[k].pattern),
                widest(groups_of(b@), groups_of(out@)[k].pattern),
            ),
{
    let none: R = no_ids();
    let mut out: Vec<Entry<R>> = Vec::new();
    let mut i: usize = 0;
    let mut j: usize = 0;
    let ghost ga = groups_of(a@);
    let ghost gb = groups_of(b@);
    proof {
        assert forall|n: Node| !holds_node(ga.take(0), n) by {}
        assert forall|n: Node| !holds_node(gb.take(0), n) by {}
        assert forall|n: Node| !holds_node(groups_of(out@), n) by {}
    }
    while i < a.len() || j < b.len()
        invariant
            i <= a.len(),
            j <= b.len(),
            entries_wf(a@),
            entries_wf(b@),
            ga == groups_of(a@),
            gb == groups_of(b@),
            none.wf(),
            none@ == Set::<int>::empty(),
            none.width() == 0,
            entries_wf(out@),
            forall|k: int|
                0 <= k < out@.len() ==> (i < a.len() ==> comes_before(
                    (#[trigger] groups_of(out@)[k]).pattern,
                    ga[i as int].pattern,
                )) && (j < b.len() ==> comes_before(groups_of(out@)[k].pattern, gb[j as int].pattern)),
            forall|k: int|
                0 <= k < i && j < b.len() ==> comes_before(
                    (#[trigger] ga[k]).pattern,
                    gb[j as int].pattern,
                ),
            forall|k: int|
                0 <= k < j && i < a.len() ==> comes_before(
                    (#[trigger] gb[k]).pattern,
                    ga[i as int].pattern,
                ),
            forall|n: Node|
                holds_node(groups_of(out@), n) <==> op_holds(
                    op,
                    holds_node(ga.take(i as int), n),
                    holds_node(gb.take(j as int), n),
                ),
            forall|k: int|
                0 <= k < out@.len() ==> (#[trigger] groups_of(out@)[k]).width == wider(
                    widest(ga, groups_of(out@)[k].pattern),
                    widest(gb, groups_of(out@)[k].pattern),
                ),
        decreases (a.len() - i) + (b.len() - j),
    {
        let side = if i < a.len() && j < b.len() {
            rank_patterns(&a[i].pattern, &b[j].pattern)
        } else if i < a.len() {
            Rank::Before
        } else {
            Rank::After
        };
        let ghost in_a = side != Rank::After;
        let ghost in_b = side != Rank::Before;
        let ghost p = if in_a {
            ga[i as int].pattern
        } else {
            gb[j as int].pattern
        };
        let ghost x = if in_a {
            ga[i as int].ids
        } else {
            Set::<int>::empty()
        };
        let ghost y = if in_b {
            gb[j as int].ids
        } else {
            Set::<int>::empty()
        };
        let ghost i2 = if in_a {
            i + 1
        } else {
            i as int
        };
        let ghost j2 = if in_b {
            j + 1
        } else {
            j as int
        };
        let ghost go = groups_of(out@);
        proof {
            if in_a {
                assert(ga[i as int] == group_of(a@[i as int]));
                assert(group_wf(ga[i as int]));
                assert(a@[i as int].ids.wf());
            }
            if in_b {
                assert(gb[j as int] == group_of(b@[j as int]));
                assert(group_wf(gb[j as int]));
                assert(b@[j as int].ids.wf());
            }
        }
        let (r, pattern) = match side {
            Rank::Before => (a[i].ids.combine(&none, op), copy_chars(&a[i].pattern)),
            Rank::Same => (a[i].ids.combine(&b[j].ids, op), copy_chars(&a[i].pattern)),
            Rank::After => (none.combine(&b[j].ids, op), copy_chars(&b[j].pattern)),
        };
        let keep = !r.is_empty();
        proof {
            assert(pattern@ == p);
            assert(r@ == set_op(op, x, y));
            // where p stands among the patterns of both operands and of the result
            assert forall|k: int| 0 <= k < i implies comes_before((#[trigger] ga[k]).pattern, p) by {
                if in_a {
                    assert(comes_before(ga[k].pattern, ga[i as int].pattern));
                }
            }
            assert forall|k: int| 0 <= k < j implies comes_before((#[trigger] gb[k]).pattern, p) by {
                if in_b {
                    assert(comes_before(gb[k].pattern, gb[j as int].pattern));
                }
            }
            assert forall|k: int| i2 <= k < ga.len() implies comes_before(
                p,
                (#[trigger] ga[k]).pattern,
            ) by {
                if in_a {
                    assert(comes_before(ga[i as int].pattern, ga[k].pattern));
                } else if k > i {
                    assert(comes_before(ga[i as int].pattern, ga[k].pattern));
                    lemma_before_transitive(p, ga[i as int].pattern, ga[k].pattern);
                }
            }
            assert forall|k: int| j2 <= k < gb.len() implies comes_before(
                p,
                (#[trigger] gb[k]).pattern,
            ) by {
                if in_b {
                    assert(comes_before(gb[j as int].pattern, gb[k].pattern));
                } else if k > j {
                    assert(comes_before(gb[j as int].pattern, gb[k].pattern));
                    lemma_before_transitive(p, gb[j as int].pattern, gb[k].pattern);
                }
            }
            assert forall|k: int| 0 <= k < go.len() implies comes_before((#[trigger] go[k]).pattern, p) by {}
            // the widths
            if in_a {
                lemma_widest_at(ga, i as int);
            } else {
                lemma_no_pattern(ga, i as int, p);
                lemma_widest_absent(ga, p);
            }
            if in_b {
                lemma_widest_at(gb, j as int);
            } else {
                lemma_no_pattern(gb, j as int, p);
                lemma_widest_absent(gb, p);
            }
            assert(r.width() == wider(widest(ga, p), widest(gb, p)));
            // the new group
            r.lemma_members();
            if keep && !has_slot(p) {
                assert(r@ =~= set![0int]) by {
                    assert forall|v: int| r@.contains(v) implies v == 0 by {
                        lemma_set_op_holds(op, x, y, v);
                    }
                    if !r@.contains(0) {
                        assert(r@ =~= Set::<int>::empty());
                    }
                }
            }
        }
        if keep {
            let e = Entry { pattern, ids: r };
            proof {
                lemma_groups_push(out@, e);
                assert(group_wf(group_of(e)));
            }
            out.push(e);
        }
        proof {
            let go2 = groups_of(out@);
            assert(keep ==> go2 == go.push(Group { pattern: p, ids: r@, width: r.width() }));
            assert(!keep ==> go2 == go);
            assert(content_wf(go2)) by {
                assert forall|k: int| 0 <= k < go2.len() implies group_wf(#[trigger] go2[k]) by {
                    if k < go.len() {
                        assert(go2[k] == go[k]);
                    }
                }
                assert forall|s: int, t: int|
                    #![trigger go2[s], go2[t]]
                    0 <= s < t < go2.len() implies comes_before(go2[s].pattern, go2[t].pattern) by {
                    assert(go2[s] == go[s]);
                    if t < go.len() {
                        assert(go2[t] == go[t]);
                        assert(comes_before(go[s].pattern, go[t].pattern));
                    } else {
                        assert(comes_before(go[s].pattern, p));
                    }
                }
            }
            assert forall|k: int| 0 <= k < out@.len() implies (i2 < a.len() ==> comes_before(
                (#[trigger] go2[k]).pattern,
                ga[i2].pattern,
            )) && (j2 < b.len() ==> comes_before(go2[k].pattern, gb[j2].pattern)) by {
                if i2 < a.len() {
                    assert(comes_before(p, ga[i2].pattern));
                    if k < go.len() {
                        assert(go2[k] == go[k]);
                        assert(comes_before(go[k].pattern, p));
                        lemma_before_transitive(go[k].pattern, p, ga[i2].pattern);
                    }
                }
                if j2 < b.len() {
                    assert(comes_before(p, gb[j2].pattern));
                    if k < go.len() {
                        assert(go2[k] == go[k]);
                        assert(comes_before(go[k].pattern, p));
                        lemma_before_transitive(go[k].pattern, p, gb[j2].pattern);
                    }
                }
            }
            assert forall|k: int| 0 <= k < i2 && j2 < b.len() implies comes_before(
                (#[trigger] ga[k]).pattern,
                gb[j2].pattern,
            ) by {
                assert(comes_before(p, gb[j2].pattern));
                if k < i {
                    assert(comes_before(ga[k].pattern, p));
                    lemma_before_transitive(ga[k].pattern, p, gb[j2].pattern);
                }
            }
            assert forall|k: int| 0 <= k < j2 && i2 < a.len() implies comes_before(
                (#[trigger] gb[k]).pattern,
                ga[i2].pattern,
            ) by {
                assert(comes_before(p, ga[i2].pattern));
                if k < j {
                    assert(comes_before(gb[k].pattern, p));
                    lemma_before_transitive(gb[k].pattern, p, ga[i2].pattern);
                }
            }
            assert forall|n: Node|
                holds_node(go2, n) <==> op_holds(
                    op,
                    holds_node(ga.take(i2), n),
                    holds_node(gb.take(j2), n),
                ) by {
                if in_a {
                    lemma_take_step(ga, i as int, n);
                }
                if in_b {
                    lemma_take_step(gb, j as int, n);
                }
                if keep {
                    lemma_holds_push(go, Group { pattern: p, ids: r@, width: r.width() }, n);
                }
                if n.0 == p {
                    lemma_absent_before(ga, i as int, n);
                    lemma_absent_before(gb, j as int, n);
                    assert(go.take(go.len() as int) =~= go);
                    lemma_absent_before(go, go.len() as int, n);
                    lemma_set_op_holds(op, x, y, n.1);
                    if !keep {
                        assert(!r@.contains(n.1));
                    }
                }
            }
            assert forall|k: int| 0 <= k < out@.len() implies (#[trigger] go2[k]).width == wider(
                widest(ga, go2[k].pattern),
                widest(gb, go2[k].pattern),
            ) by {
                if k < go.len() {
                    assert(go2[k] == go[k]);
                }
            }
        }
        match side {
            Rank::Before => {
                i = i + 1;
            },
            Rank::Same => {
                i = i + 1;
                j = j + 1;
            },
            Rank::After => {
                j = j + 1;
            },
        }
    }
    proof {
        assert(ga.take(i as int) =~= ga);
        assert(gb.take(j as int) =~= gb);
        let go = groups_of(out@);
        assert forall|n: Node|
            members(go).contains(n) == set_op(op, members(ga), members(gb)).contains(n) by {
            lemma_set_op_holds(op, members(ga), members(gb), n);
            assert(members(go).contains(n) == holds_node(go, n));
            assert(members(ga).contains(n) == holds_node(ga, n));
            assert(members(gb).contains(n) == holds_node(gb, n));
        }
        assert(members(go) =~= set_op(op, members(ga), members(gb)));
    }
    out
}

/// A written pattern names at least one node.
pub proof fn lemma_written_nonempty(w: Written)
    requires
        written_wf(w),
    ensures
        written_group(w).ids != Set::<int>::empty(),
{
    let v = w.runs[0].start as int;
    assert(run_holds(w.runs[0], v));
    assert(runs_hold(w.runs, v));
    assert(runs_set(w.runs).contains(v));
}

/// Brings entries given in any order, the same pattern any number of times,
/// into ascending order with each pattern once.
fn gather<R: IdRange>(units: &Vec<Entry<R>>, lo: usize, hi: usize) -> (out: Vec<Entry<R>>)
    requires
        each_wf(units@),
        lo <= hi <= units@.len(),
    ensures
        entries_wf(out@),
        forall|n: Node|
            holds_node(groups_of(out@), n) <==> holds_node(
                groups_of(units@).subrange(lo as int, hi as int),
                n,
            ),
        forall|k: int|
            0 <= k < out@.len() ==> (#[trigger] groups_of(out@)[k]).width == widest(
                groups_of(units@).subrange(lo as int, hi as int),
                groups_of(out@)[k].pattern,
            ),
    decreases hi - lo,
{
    let ghost part = groups_of(units@).subrange(lo as int, hi as int);
    if hi - lo == 0 {
        let out: Vec<Entry<R>> = Vec::new();
        proof {
            assert forall|n: Node| holds_node(groups_of(out@), n) <==> holds_node(part, n) by {}
        }
        out
    } else if hi - lo == 1 {
        let mut out: Vec<Entry<R>> = Vec::new();
        let e = Entry { pattern: copy_chars(&units[lo].pattern), ids: units[lo].ids.duplicate() };
        proof {
            assert(group_wf(group_of(units@[lo as int])));
            assert(group_of(e) == group_of(units@[lo as int]));
            lemma_groups_push(out@, e);
        }
        out.push(e);
        proof {
            assert(groups_of(out@) =~= part);
            assert(part.drop_last() =~= Seq::<Group>::empty());
            assert(widest(part.drop_last(), part[0].pattern) == 0);
        }
        out
    } else {
        let mid = lo + (hi - lo) / 2;
        let left = gather(units, lo, mid);
        let right = gather(units, mid, hi);
        let out = merge_entries(&left, &right, SetOp::Union);
        proof {
            let first = groups_of(units@).subrange(lo as int, mid as int);
            let second = groups_of(units@).subrange(mid as int, hi as int);
            let gl = groups_of(left@);
            let gr = groups_of(right@);
            let go = groups_of(out@);
            assert(part =~= first + second);
            assert forall|k: int| 0 <= k < first.len() implies (#[trigger] first[k]).ids
                != Set::<int>::empty() by {
                assert(group_wf(group_of(units@[lo + k])));
            }
            assert forall|k: int| 0 <= k < second.len() implies (#[trigger] second[k]).ids
                != Set::<int>::empty() by {
                assert(group_wf(group_of(units@[mid + k])));
            }
            assert forall|n: Node| holds_node(go, n) <==> holds_node(part, n) by {
                lemma_holds_concat(first, second, n);
                assert(members(go).contains(n) == holds_node(go, n));
                assert(members(gl).contains(n) == holds_node(gl, n));
                assert(members(gr).contains(n) == holds_node(gr, n));
            }
            assert forall|k: int| 0 <= k < out@.len() implies (#[trigger] go[k]).width == widest(
                part,
                go[k].pattern,
            ) by {
                let p = go[k].pattern;
                lemma_widest_same(gl, first, p);
                lemma_widest_same(gr, second, p);
                lemma_widest_concat(first, second, p);
            }
        }
        out
    }
}

/// A set of node names: for each pattern, in ascending order, a set of
/// identifiers in the representation `R`. The view is the set of nodes.
pub struct IdSet<R: IdRange> {
    entries: Vec<Entry<R>>,
}

impl<R: IdRange> View for IdSet<R> {
    type V = Set<Node>;

    open spec fn view(&self) -> Set<Node> {
        members(self.content())
    }
}

impl<R: IdRange> IdSet<R> {
    /// The entries as stored.
    pub closed spec fn stored(&self) -> Seq<Entry<R>> {
        self.entries@
    }

    /// The patterns with their identifiers and widths.
    pub open spec fn content(&self) -> Seq<Group> {
        groups_of(self.stored())
    }

    /// The invariant: patterns ascending, each once and well-formed, none
    /// without identifiers.
    pub open spec fn wf(&self) -> bool {
        entries_wf(self.stored())
    }

    /// The set without nodes.
    pub fn new() -> (r: Self)
        ensures
            r.wf(),
            r.content() == Seq::<Group>::empty(),
            r@ == Set::<Node>::empty(),
    {
        let r = IdSet { entries: Vec::new() };
        proof {
            assert(r.content() =~= Seq::<Group>::empty());
            assert forall|n: Node| !r@.contains(n) by {}
            assert(r@ =~= Set::<Node>::empty());
        }
        r
    }

    /// The entries, ascending by pattern.
    pub fn entries(&self) -> (es: &Vec<Entry<R>>)
        ensures
            es@ == self.stored(),
    {
        &self.entries
    }

    /// The result of `op` on the two sets of nodes. For each pattern the
    /// width is the wider of the two operands'.
    pub fn combine(&self, other: &Self, op: SetOp) -> (r: Self)
        requires
            self.wf(),
            other.wf(),
        ensures
            r.wf(),
            r@ == set_op(op, self@, other@),
            combines(op, self.content(), other.content(), r.content()),
    {
        IdSet { entries: merge_entries(&self.entries, &other.entries, op) }
    }

    /// The nodes in either set.
    pub fn union(&self, other: &Self) -> (r: Self)
        requires
            self.wf(),
            other.wf(),
        ensures
            r.wf(),
            r@ == self@.union(other@),
            combines(SetOp::Union, self.content(), other.content(), r.content()),
    {
        self.combine(other, SetOp::Union)
    }

    /// The nodes in both sets.
    pub fn intersection(&self, other: &Self) -> (r: Self)
        requires
            self.wf(),
            other.wf(),
        ensures
            r.wf(),
            r@ == self@.intersect(other@),
            combines(SetOp::Intersection, self.content(), other.content(), r.content()),
    {
        self.combine(other, SetOp::Intersection)
    }

    /// The nodes in `self` and not in `other`.
    pub fn difference(&self, other: &Self) -> (r: Self)
        requires
            self.wf(),
            other.wf(),
        ensures
            r.wf(),
            r@ == self@.difference(other@),
            combines(SetOp::Difference, self.content(), other.content(), r.content()),
    {
        self.combine(other, SetOp::Difference)
    }

    /// The nodes in exactly one of the two sets.
    pub fn symmetric_difference(&self, other: &Self) -> (r: Self)
        requires
            self.wf(),
            other.wf(),
        ensures
            r.wf(),
            r@ == self@.difference(other@).union(other@.difference(self@)),
            combines(SetOp::SymmetricDifference, self.content(), other.content(), r.content()),
    {
        self.combine(other, SetOp::SymmetricDifference)
    }

    /// Whether the set has no node.
    pub fn is_empty(&self) -> (empty: bool)
        requires
            self.wf(),
        ensures
            empty <==> self@ == Set::<Node>::empty(),
    {
        proof {
            let c = self.content();
            if c.len() == 0 {
                assert forall|n: Node| !self@.contains(n) by {}
                assert(self@ =~= Set::<Node>::empty());
            } else {
                assert(group_wf(c[0]));
                if forall|v: int| !c[0].ids.contains(v) {
                    assert(c[0].ids =~= Set::<int>::empty());
                }
                let v = choose|v: int| c[0].ids.contains(v);
                let n: Node = (c[0].pattern, v);
                assert(c[0].pattern == n.0 && c[0].ids.contains(n.1));
                assert(self@.contains(n));
            }
        }
        self.entries.len() == 0
    }

    /// The number of nodes, from the sizes of the runs alone.
    pub fn len(&self) -> (n: u128)
        requires
            self.wf(),
        ensures
            n == total(self.content()),
            n == self@.len(),
    {
        let mut sum: u128 = 0;
        let mut k: usize = 0;
        let ghost c = self.content();
        while k < self.entries.len()
            invariant
                k <= self.entries@.len(),
                self.wf(),
                c == self.content(),
                sum == total(c.take(k as int)),
                sum <= k * ID_LIMIT,
            decreases self.entries@.len() - k,
        {
            let m = self.entries[k].ids.len();
            proof {
                assert(self.entries@[k as int].ids.wf());
                self.entries@[k as int].ids.lemma_members();
                let ids = self.entries@[k as int].ids@;
                let bound = vstd::set_lib::set_int_range(0, ID_LIMIT as int);
                vstd::set_lib::lemma_int_range(0, ID_LIMIT as int);
                assert(ids.subset_of(bound));
                vstd::set_lib::lemma_len_subset(ids, bound);
                assert(c.take(k + 1).drop_last() =~= c.take(k as int));
                assert(c.take(k + 1).last() == c[k as int]);
                assert((k + 1) * ID_LIMIT == k * ID_LIMIT + ID_LIMIT) by (nonlinear_arith);
                assert(k * ID_LIMIT <= usize::MAX * ID_LIMIT) by (nonlinear_arith)
                    requires
                        k <= usize::MAX,
                ;
            }
            sum = sum + m as u128;
            k = k + 1;
        }
        proof {
            assert(c.take(k as int) =~= c);
            lemma_total(c);
        }
        sum
    }

    /// The set of the nodes of the given entries, which may come in any
    /// order and name a pattern more than once. For each pattern the width
    /// is the widest given.
    pub fn merge(units: &Vec<Entry<R>>) -> (r: Self)
        requires
            each_wf(units@),
        ensures
            r.wf(),
            r@ == members(groups_of(units@)),
            gathers(groups_of(units@), r.content()),
    {
        let r = IdSet { entries: gather(units, 0, units.len()) };
        proof {
            let all = groups_of(units@);
            assert(all.subrange(0, units@.len() as int) =~= all);
            assert forall|n: Node| r@.contains(n) == members(all).contains(n) by {
                assert(members(all).contains(n) == holds_node(all, n));
                assert(r@.contains(n) == holds_node(r.content(), n));
            }
            assert(r@ =~= members(all));
        }
        r
    }

    /// One entry for each node, each with that node's identifier alone:
    /// patterns ascending, and under each pattern its identifiers ascending.
    pub fn full_split(&self) -> (units: Vec<Entry<R>>)
        requires
            self.wf(),
        ensures
            each_wf(units@),
            members(groups_of(units@)) == self@,
            splits(self.content(), groups_of(units@)),
    {
        let mut units: Vec<Entry<R>> = Vec::new();
        let mut k: usize = 0;
        let ghost c = self.content();
        proof {
            assert forall|n: Node| !holds_node(groups_of(units@), n) by {}
            assert forall|n: Node| !holds_node(c.take(0), n) by {}
        }
        while k < self.entries.len()
            invariant
                k <= self.entries@.len(),
                self.wf(),
                c == self.content(),
                each_wf(units@),
                forall|n: Node| holds_node(groups_of(units@), n) <==> holds_node(c.take(k as int), n),
                forall|t: int| 0 <= t < units@.len() ==> is_unit(#[trigger] groups_of(units@)[t]),
                forall|t: int|
                    0 <= t < units@.len() ==> (#[trigger] groups_of(units@)[t]).width == widest(
                        c,
                        groups_of(units@)[t].pattern,
                    ),
                units_ascend(groups_of(units@)),
                forall|t: int|
                    0 <= t < units@.len() && k < c.len() ==> comes_before(
                        (#[trigger] groups_of(units@)[t]).pattern,
                        c[k as int].pattern,
                    ),
                units@.len() == total(c.take(k as int)),
            decreases self.entries@.len() - k,
        {
            let entry = &self.entries[k];
            proof {
                assert(entry.ids.wf());
                assert(c[k as int] == group_of(*entry));
                assert(group_wf(c[k as int]));
            }
            let values = entry.ids.to_vec();
            let width = entry.ids.pad();
            let ghost base = groups_of(units@);
            let ghost p = entry.pattern@;
            let mut t: usize = 0;
            while t < values.len()
                invariant
                    t <= values@.len(),
                    k < self.entries@.len(),
                    self.wf(),
                    c == self.content(),
                    *entry == self.entries@[k as int],
                    p == entry.pattern@,
                    group_wf(c[k as int]),
                    c[k as int] == group_of(*entry),
                    forall|v: int| values_hold(values@, v) <==> entry.ids@.contains(v),
                    each_wf(units@),
                    forall|n: Node|
                        #![trigger holds_node(groups_of(units@), n)]
                        holds_node(groups_of(units@), n) <==> (holds_node(base, n) || (n.0 == p
                            && values_hold(values@.take(t as int), n.1))),
                    forall|s: int|
                        0 <= s < units@.len() ==> is_unit(#[trigger] groups_of(units@)[s]),
                    forall|s: int|
                        0 <= s < units@.len() ==> (#[trigger] groups_of(units@)[s]).width == widest(
                            c,
                            groups_of(units@)[s].pattern,
                        ),
                    width == c[k as int].width,
                    units_ascend(groups_of(units@)),
                    forall|i: int, j: int| 0 <= i < j < values@.len() ==> values@[i] < values@[j],
                    forall|s: int|
                        0 <= s < base.len() ==> comes_before(
                            (#[trigger] groups_of(units@)[s]).pattern,
                            p,
                        ),
                    forall|s: int|
                        base.len() <= s < units@.len() ==> (#[trigger] groups_of(units@)[s]).pattern
                            == p && holds_only(groups_of(units@)[s], values@[s - base.len()] as int),
                    units@.len() == base.len() + t,
                decreases values@.len() - t,
            {
                let v = values[t];
                let mut one: Vec<Run> = Vec::new();
                one.push(Run { start: v, end: v });
                let unit = Entry {
                    pattern: copy_chars(&entry.pattern),
                    ids: R::from_runs(&one, width),
                };
                proof {
                    let g = group_of(unit);
                    let before = groups_of(units@);
                    assert(g.ids =~= set![v as int]) by {
                        assert forall|x: int| g.ids.contains(x) == (x == v) by {
                            assert(runs_set(one@).contains(x) == runs_hold(one@, x));
                            if x == v {
                                assert(run_holds(one@[0], x));
                            }
                        }
                    }
                    assert(values_hold(values@, v as int));
                    unit.ids.lemma_members();
                    assert(g.ids.contains(v as int));
                    assert(group_wf(g)) by {
                        if !has_slot(p) {
                            assert(entry.ids@ == set![0int]);
                        }
                    }
                    assert(holds_only(g, v as int));
                    assert(is_unit(g));
                    lemma_groups_push(units@, unit);
                }
                let ghost before = groups_of(units@);
                let ghost g = group_of(unit);
                units.push(unit);
                proof {
                    let next = values@.take(t + 1);
                    let front = values@.take(t as int);
                    assert(groups_of(units@) == before.push(g));
                    assert forall|n: Node|
                        #![trigger holds_node(groups_of(units@), n)]
                        holds_node(groups_of(units@), n) <==> (holds_node(base, n) || (n.0 == p
                            && values_hold(next, n.1))) by {
                        lemma_holds_push(before, g, n);
                        assert(holds_node(before, n) <==> (holds_node(base, n) || (n.0 == p
                            && values_hold(front, n.1))));
                        if values_hold(front, n.1) {
                            let s = choose|s: int| 0 <= s < front.len() && (#[trigger] front[s]) == n.1;
                            assert(next[s] == n.1);
                        }
                        if n.1 == v {
                            assert(next[t as int] == n.1);
                        }
                        if values_hold(next, n.1) {
                            let s = choose|s: int| 0 <= s < next.len() && (#[trigger] next[s]) == n.1;
                            if s < t {
                                assert(front[s] == n.1);
                            }
                        }
                    }
                    let now = groups_of(units@);
                    assert forall|s: int| 0 <= s < units@.len() implies is_unit(
                        #[trigger] now[s],
                    ) by {
                        if s < before.len() {
                            assert(now[s] == before[s]);
                        }
                    }
                    assert(holds_only(g, v as int));
                    assert forall|s: int| 0 <= s < units@.len() implies (#[trigger] now[s]).width
                        == widest(c, now[s].pattern) by {
                        if s < before.len() {
                            assert(now[s] == before[s]);
                        } else {
                            lemma_widest_at(c, k as int);
                        }
                    }
                    assert forall|s: int| 0 <= s < base.len() implies comes_before(
                        (#[trigger] now[s]).pattern,
                        p,
                    ) by {
                        assert(now[s] == before[s]);
                    }
                    assert forall|s: int| base.len() <= s < units@.len() implies (
                    #[trigger] now[s]).pattern == p && holds_only(
                        now[s],
                        values@[s - base.len()] as int,
                    ) by {
                        if s < before.len() {
                            assert(now[s] == before[s]);
                        }
                    }
                    assert forall|i: int, j: int|
                        #![trigger now[i], now[j]]
                        0 <= i < j < now.len() implies unit_before(now[i], now[j]) by {
                        assert(now[i] == before[i]);
                        if j < before.len() {
                            assert(now[j] == before[j]);
                            assert(unit_before(before[i], before[j]));
                        } else if i < base.len() {
                            assert(comes_before(before[i].pattern, p));
                        } else {
                            let u = values@[i - base.len()] as int;
                            assert(holds_only(now[i], u) && holds_only(now[j], v as int) && u < v);
                        }
                    }
                }
                t = t + 1;
            }
            proof {
                assert(values@.take(t as int) =~= values@);
                assert forall|n: Node|
                    holds_node(groups_of(units@), n) <==> holds_node(c.take(k + 1), n) by {
                    lemma_take_step(c, k as int, n);
                }
                let now = groups_of(units@);
                assert forall|s: int| 0 <= s < units@.len() && k + 1 < c.len() implies comes_before(
                    (#[trigger] now[s]).pattern,
                    c[k + 1].pattern,
                ) by {
                    assert(comes_before(c[k as int].pattern, c[k + 1].pattern));
                    if s < base.len() {
                        lemma_before_transitive(now[s].pattern, p, c[k + 1].pattern);
                    }
                }
                assert(c.take(k + 1).drop_last() =~= c.take(k as int));
                assert(c.take(k + 1).last() == c[k as int]);
            }
            k = k + 1;
        }
        proof {
            assert(c.take(k as int) =~= c);
            assert forall|n: Node| members(groups_of(units@)).contains(n) == self@.contains(n) by {
                assert(members(groups_of(units@)).contains(n) == holds_node(groups_of(units@), n));
                assert(self@.contains(n) == holds_node(c, n));
            }
            assert(members(groups_of(units@)) =~= self@);
            assert forall|t: int| 0 <= t < units@.len() implies group_wf(
                #[trigger] groups_of(units@)[t],
            ) by {
                assert(group_wf(group_of(units@[t])));
            }
        }
        units
    }

    /// The entries that the pieces of a text stand for.
    fn entries_of(pieces: &Vec<Piece>) -> (out: Vec<Entry<R>>)
        requires
            forall|k: int| 0 <= k < pieces@.len() ==> written_wf(#[trigger] pieces_view(pieces@)[k]),
        ensures
            each_wf(out@),
            groups_of(out@) == written_groups(pieces_view(pieces@)),
    {
        let mut out: Vec<Entry<R>> = Vec::new();
        let mut k: usize = 0;
        let ghost ws = pieces_view(pieces@);
        while k < pieces.len()
            invariant
                k <= pieces@.len(),
                ws == pieces_view(pieces@),
                forall|t: int| 0 <= t < pieces@.len() ==> written_wf(#[trigger] ws[t]),
                each_wf(out@),
                out@.len() == k,
                forall|t: int| 0 <= t < k ==> group_of(#[trigger] out@[t]) == written_group(ws[t]),
            decreases pieces@.len() - k,
        {
            let piece = &pieces[k];
            proof {
                assert(written_wf(ws[k as int]));
                assert(ws[k as int] == piece@);
            }
            let e = Entry {
                pattern: copy_chars(&piece.pattern),
                ids: R::from_runs(&piece.runs, piece.width),
            };
            proof {
                let g = group_of(e);
                assert(g == written_group(ws[k as int]));
                e.ids.lemma_members();
                assert(runs_set(piece.runs@).contains(piece.runs@[0].start as int)) by {
                    assert(run_holds(piece.runs@[0], piece.runs@[0].start as int));
                    assert(runs_hold(piece.runs@, piece.runs@[0].start as int));
                }
                if !has_slot(g.pattern) {
                    assert(g.ids =~= set![0int]) by {
                        assert forall|x: int| g.ids.contains(x) == (x == 0) by {
                            assert(runs_set(piece.runs@).contains(x) == runs_hold(piece.runs@, x));
                            if x == 0 {
                                assert(run_holds(piece.runs@[0], x));
                            }
                        }
                    }
                }
                assert(group_wf(g));
            }
            out.push(e);
            k = k + 1;
        }
        proof {
            assert(groups_of(out@) =~= written_groups(ws));
        }
        out
    }

    /// The set of the nodes that the pieces of a text name. For each pattern
    /// the width is the widest that a piece asks for.
    pub fn from_pieces(pieces: &Vec<Piece>) -> (r: Self)
        requires
            forall|k: int|
                0 <= k < pieces@.len() ==> written_wf(#[trigger] pieces_view(pieces@)[k]),
        ensures
            r.wf(),
            gathers(written_groups(pieces_view(pieces@)), r.content()),
    {
        let units: Vec<Entry<R>> = Self::entries_of(pieces);
        let r = Self::merge(&units);
        proof {
            assert(groups_of(units@) == written_groups(pieces_view(pieces@)));
        }
        r
    }

    /// Adds the nodes that a text in the folded notation names. A text that
    /// is not in the notation leaves the set as it is.
    pub fn push(&mut self, text: &str) -> (r: Result<(), ParseError>)
        requires
            old(self).wf(),
        ensures
            match parse_spec(text@) {
                Ok(found) => r is Ok && final(self).wf() && final(self)@ == old(self)@.union(
                    members(written_groups(found)),
                ) && forall|k: int|
                    0 <= k < final(self).content().len() ==> (
                    #[trigger] final(self).content()[k]).width == wider(
                        widest(old(self).content(), final(self).content()[k].pattern),
                        widest(written_groups(found), final(self).content()[k].pattern),
                    ),
                Err(e) => r == Err::<(), ParseError>(e) && *final(self) == *old(self),
            },
    {
        let chars = chars_of(text);
        match parse_pieces(&chars) {
            Err(e) => Err(e),
            Ok(pieces) => {
                let added: Self = Self::from_pieces(&pieces);
                let ghost found = pieces_view(pieces@);
                proof {
                    let ga = added.content();
                    let gu = written_groups(found);
                    assert forall|k: int| 0 <= k < gu.len() implies (#[trigger] gu[k]).ids
                        != Set::<int>::empty() by {
                        assert(written_wf(found[k]));
                        lemma_written_nonempty(found[k]);
                    }
                    assert forall|n: Node| holds_node(ga, n) <==> holds_node(gu, n) by {
                        assert(members(ga).contains(n) == holds_node(ga, n));
                        assert(members(gu).contains(n) == holds_node(gu, n));
                    }
                    assert forall|p: Seq<char>| widest(ga, p) == widest(gu, p) by {
                        lemma_widest_same(ga, gu, p);
                    }
                }
                let merged = merge_entries(&self.entries, &added.entries, SetOp::Union);
                self.entries = merged;
                Ok(())
            },
        }
    }
}

} // verus!

//! What a set of node names holds: for each pattern the identifiers that
//! fill its slot. The patterns are kept in ascending order, each once, so a
//! set of names has one such form only, whatever the order in which its
//! names came.

use crate::order::{comes_before, lemma_before_asymmetric};
use crate::pattern::{has_slot, pattern_wf};
use crate::grammar::Written;
use crate::range::wider;
use crate::runs::{runs_set, set_op, SetOp, ID_LIMIT};
use vstd::relations::injective_on;
use vstd::set_lib::{lemma_map_size, lemma_set_disjoint_lens};
use vstd::prelude::*;

verus! {

/// A pattern with the identifiers that fill its slot, and the width to which
/// they are zero-padded when shown. A pattern without a slot is a name as it
/// stands, and comes with the single identifier 0, which is never shown.
pub struct Group {
    pub pattern: Seq<char>,
    pub ids: Set<int>,
    pub width: nat,
}

/// A node: its pattern and the identifier in the slot.
pub type Node = (Seq<char>, int);

pub open spec fn group_wf(g: Group) -> bool {
    &&& pattern_wf(g.pattern)
    &&& g.ids.finite()
    &&& g.ids != Set::<int>::empty()
    &&& forall|v: int| g.ids.contains(v) ==> 0 <= v < ID_LIMIT
    &&& !has_slot(g.pattern) ==> g.ids == set![0int]
}

/// Patterns strictly ascending.
pub open spec fn ascending(c: Seq<Group>) -> bool {
    forall|i: int, j: int|
        #![trigger c[i], c[j]]
        0 <= i < j < c.len() ==> comes_before(c[i].pattern, c[j].pattern)
}

/// The form in which a set of names is kept.
pub open spec fn content_wf(c: Seq<Group>) -> bool {
    &&& forall|k: int| 0 <= k < c.len() ==> group_wf(#[trigger] c[k])
    &&& ascending(c)
}

/// Whether the groups hold the node.
pub open spec fn holds_node(c: Seq<Group>, n: Node) -> bool {
    exists|k: int| 0 <= k < c.len() && (#[trigger] c[k]).pattern == n.0 && c[k].ids.contains(n.1)
}

/// The nodes that the groups hold.
pub open spec fn members(c: Seq<Group>) -> Set<Node> {
    Set::new(|n: Node| holds_node(c, n))
}

/// Whether a group of `c` has the pattern `p`.
pub open spec fn has_pattern(c: Seq<Group>, p: Seq<char>) -> bool {
    exists|k: int| 0 <= k < c.len() && (#[trigger] c[k]).pattern == p
}

/// The widest width that `c` keeps for the pattern `p`; 0 where it has no
/// such pattern.
pub open spec fn widest(c: Seq<Group>, p: Seq<char>) -> nat
    decreases c.len(),
{
    if c.len() == 0 {
        0
    } else if c.last().pattern == p {
        wider(widest(c.drop_last(), p), c.last().width)
    } else {
        widest(c.drop_last(), p)
    }
}

/// In ascending groups a pattern stands at one place only.
pub proof fn lemma_one_place(c: Seq<Group>, i: int, j: int)
    requires
        ascending(c),
        0 <= i < c.len(),
        0 <= j < c.len(),
        c[i].pattern == c[j].pattern,
    ensures
        i == j,
{
    lemma_before_asymmetric(c[i].pattern, c[j].pattern);
    if i < j {
        assert(comes_before(c[i].pattern, c[j].pattern));
    } else if j < i {
        assert(comes_before(c[j].pattern, c[i].pattern));
    }
}

/// Where no group has the pattern, no width is kept for it.
pub proof fn lemma_widest_absent(c: Seq<Group>, p: Seq<char>)
    requires
        !has_pattern(c, p),
    ensures
        widest(c, p) == 0,
    decreases c.len(),
{
    if c.len() > 0 {
        assert(c[c.len() - 1].pattern != p);
        assert(!has_pattern(c.drop_last(), p)) by {
            if has_pattern(c.drop_last(), p) {
                let k = choose|k: int|
                    0 <= k < c.drop_last().len() && (#[trigger] c.drop_last()[k]).pattern == p;
                assert(c[k].pattern == p);
            }
        }
        lemma_widest_absent(c.drop_last(), p);
    }
}

/// In ascending groups the width kept for the pattern of a group is that
/// group's.
pub proof fn lemma_widest_at(c: Seq<Group>, k: int)
    requires
        ascending(c),
        0 <= k < c.len(),
    ensures
        widest(c, c[k].pattern) == c[k].width,
    decreases c.len(),
{
    let p = c[k].pattern;
    let front = c.drop_last();
    assert(ascending(front)) by {
        assert forall|i: int, j: int|
            #![trigger front[i], front[j]]
            0 <= i < j < front.len() implies comes_before(front[i].pattern, front[j].pattern) by {
            assert(comes_before(c[i].pattern, c[j].pattern));
        }
    }
    if k == c.len() - 1 {
        assert(!has_pattern(front, p)) by {
            if has_pattern(front, p) {
                let j = choose|j: int| 0 <= j < front.len() && (#[trigger] front[j]).pattern == p;
                assert(c[j].pattern == p);
                lemma_one_place(c, j, k);
            }
        }
        lemma_widest_absent(front, p);
    } else {
        if c.last().pattern == p {
            lemma_one_place(c, c.len() - 1, k);
        }
        assert(front[k] == c[k]);
        lemma_widest_at(front, k);
    }
}

/// The widest width over two sequences of groups is the wider of the two.
pub proof fn lemma_widest_concat(a: Seq<Group>, b: Seq<Group>, p: Seq<char>)
    ensures
        widest(a + b, p) == wider(widest(a, p), widest(b, p)),
    decreases b.len(),
{
    if b.len() == 0 {
        assert(a + b =~= a);
    } else {
        assert((a + b).drop_last() =~= a + b.drop_last());
        assert((a + b).last() == b.last());
        lemma_widest_concat(a, b.drop_last(), p);
    }
}

pub proof fn lemma_holds_concat(a: Seq<Group>, b: Seq<Group>, n: Node)
    ensures
        holds_node(a + b, n) <==> (holds_node(a, n) || holds_node(b, n)),
{
    let ab = a + b;
    if holds_node(a, n) {
        let k = choose|k: int|
            0 <= k < a.len() && (#[trigger] a[k]).pattern == n.0 && a[k].ids.contains(n.1);
        assert(ab[k].pattern == n.0 && ab[k].ids.contains(n.1));
    }
    if holds_node(b, n) {
        let k = choose|k: int|
            0 <= k < b.len() && (#[trigger] b[k]).pattern == n.0 && b[k].ids.contains(n.1);
        assert(ab[a.len() + k].pattern == n.0 && ab[a.len() + k].ids.contains(n.1));
    }
    if holds_node(ab, n) {
        let k = choose|k: int|
            0 <= k < ab.len() && (#[trigger] ab[k]).pattern == n.0 && ab[k].ids.contains(n.1);
        if k < a.len() {
            assert(a[k].pattern == n.0 && a[k].ids.contains(n.1));
        } else {
            assert(b[k - a.len()].pattern == n.0 && b[k - a.len()].ids.contains(n.1));
        }
    }
}

/// The first `i` of ascending groups hold no node of a pattern that they
/// all precede.
pub proof fn lemma_absent_before(c: Seq<Group>, i: int, n: Node)
    requires
        0 <= i <= c.len(),
        forall|k: int| 0 <= k < i ==> comes_before((#[trigger] c[k]).pattern, n.0),
    ensures
        !holds_node(c.take(i), n),
{
    let front = c.take(i);
    if holds_node(front, n) {
        let k = choose|k: int|
            0 <= k < front.len() && (#[trigger] front[k]).pattern == n.0 && front[k].ids.contains(
                n.1,
            );
        assert(comes_before(c[k].pattern, n.0));
        lemma_before_asymmetric(n.0, n.0);
    }
}

/// What one more group adds to the nodes held.
pub proof fn lemma_take_step(c: Seq<Group>, i: int, n: Node)
    requires
        0 <= i < c.len(),
    ensures
        holds_node(c.take(i + 1), n) <==> (holds_node(c.take(i), n) || (c[i].pattern == n.0
            && c[i].ids.contains(n.1))),
{
    assert(c.take(i + 1) =~= c.take(i).push(c[i]));
    lemma_holds_push(c.take(i), c[i], n);
}

/// A pattern that lies between the first `i` groups and the rest is none of
/// theirs.
pub proof fn lemma_no_pattern(c: Seq<Group>, i: int, p: Seq<char>)
    requires
        0 <= i <= c.len(),
        forall|k: int| 0 <= k < i ==> comes_before((#[trigger] c[k]).pattern, p),
        forall|k: int| i <= k < c.len() ==> comes_before(p, (#[trigger] c[k]).pattern),
    ensures
        !has_pattern(c, p),
{
    if has_pattern(c, p) {
        let k = choose|k: int| 0 <= k < c.len() && (#[trigger] c[k]).pattern == p;
        lemma_before_asymmetric(p, p);
        if k < i {
            assert(comes_before(c[k].pattern, p));
        } else {
            assert(comes_before(p, c[k].pattern));
        }
    }
}

pub proof fn lemma_holds_push(c: Seq<Group>, g: Group, n: Node)
    ensures
        holds_node(c.push(g), n) <==> (holds_node(c, n) || (g.pattern == n.0 && g.ids.contains(
            n.1,
        ))),
{
    let ext = c.push(g);
    if holds_node(c, n) {
        let k = choose|k: int|
            0 <= k < c.len() && (#[trigger] c[k]).pattern == n.0 && c[k].ids.contains(n.1);
        assert(ext[k].pattern == n.0 && ext[k].ids.contains(n.1));
    }
    if g.pattern == n.0 && g.ids.contains(n.1) {
        assert(ext[c.len() as int].pattern == n.0 && ext[c.len() as int].ids.contains(n.1));
    }
    if holds_node(ext, n) {
        let k = choose|k: int|
            0 <= k < ext.len() && (#[trigger] ext[k]).pattern == n.0 && ext[k].ids.contains(n.1);
        if k < c.len() {
            assert(c[k].pattern == n.0 && c[k].ids.contains(n.1));
        }
    }
}

proof fn lemma_first_pattern(x: Seq<Group>, y: Seq<Group>)
    requires
        content_wf(x),
        content_wf(y),
        members(x) == members(y),
        x.len() > 0,
    ensures
        y.len() > 0,
        !comes_before(x[0].pattern, y[0].pattern),
{
    let v = choose|v: int| x[0].ids.contains(v);
    assert(x[0].ids.contains(v)) by {
        if forall|v: int| !x[0].ids.contains(v) {
            assert(x[0].ids =~= Set::<int>::empty());
        }
    }
    let n: Node = (x[0].pattern, v);
    assert(x[0].pattern == n.0 && x[0].ids.contains(n.1));
    assert(holds_node(x, n));
    assert(members(x).contains(n));
    assert(members(y).contains(n));
    assert(holds_node(y, n));
    let k = choose|k: int|
        0 <= k < y.len() && (#[trigger] y[k]).pattern == n.0 && y[k].ids.contains(n.1);
    lemma_before_asymmetric(x[0].pattern, y[0].pattern);
    if k > 0 {
        assert(comes_before(y[0].pattern, y[k].pattern));
    }
}

/// Two well-formed contents with the same nodes have the same patterns in
/// the same places, each with the same identifiers. Only the widths may
/// differ.
pub proof fn lemma_content_unique(x: Seq<Group>, y: Seq<Group>)
    requires
        content_wf(x),
        content_wf(y),
        members(x) == members(y),
    ensures
        x.len() == y.len(),
        forall|k: int|
            0 <= k < x.len() ==> (#[trigger] x[k]).pattern == y[k].pattern && x[k].ids == y[k].ids,
    decreases x.len(),
{
    if x.len() == 0 {
        if y.len() > 0 {
            lemma_first_pattern(y, x);
        }
    } else {
        lemma_first_pattern(x, y);
        lemma_first_pattern(y, x);
        let p = x[0].pattern;
        if p != y[0].pattern {
            crate::order::lemma_before_total(p, y[0].pattern);
        }
        assert(p == y[0].pattern);
        assert(x[0].ids =~= y[0].ids) by {
            assert forall|v: int| x[0].ids.contains(v) == y[0].ids.contains(v) by {
                let n: Node = (p, v);
                assert(members(x).contains(n) == holds_node(x, n));
                assert(members(y).contains(n) == holds_node(y, n));
                if x[0].ids.contains(v) {
                    assert(x[0].pattern == n.0 && x[0].ids.contains(n.1));
                    let k = choose|k: int|
                        0 <= k < y.len() && (#[trigger] y[k]).pattern == n.0 && y[k].ids.contains(
                            n.1,
                        );
                    lemma_one_place(y, k, 0);
                }
                if y[0].ids.contains(v) {
                    assert(y[0].pattern == n.0 && y[0].ids.contains(n.1));
                    let k = choose|k: int|
                        0 <= k < x.len() && (#[trigger] x[k]).pattern == n.0 && x[k].ids.contains(
                            n.1,
                        );
                    lemma_one_place(x, k, 0);
                }
            }
        }
        let tx = x.drop_first();
        let ty = y.drop_first();
        assert(content_wf(tx)) by {
            assert forall|i: int, j: int|
                #![trigger tx[i], tx[j]]
                0 <= i < j < tx.len() implies comes_before(tx[i].pattern, tx[j].pattern) by {
                assert(comes_before(x[i + 1].pattern, x[j + 1].pattern));
            }
            assert forall|k: int| 0 <= k < tx.len() implies group_wf(#[trigger] tx[k]) by {
                assert(group_wf(x[k + 1]));
            }
        }
        assert(content_wf(ty)) by {
            assert forall|i: int, j: int|
                #![trigger ty[i], ty[j]]
                0 <= i < j < ty.len() implies comes_before(ty[i].pattern, ty[j].pattern) by {
                assert(comes_before(y[i + 1].pattern, y[j + 1].pattern));
            }
            assert forall|k: int| 0 <= k < ty.len() implies group_wf(#[trigger] ty[k]) by {
                assert(group_wf(y[k + 1]));
            }
        }
        assert(members(tx) =~= members(ty)) by {
            assert forall|n: Node| members(tx).contains(n) == members(ty).contains(n) by {
                assert(members(x).contains(n) == holds_node(x, n));
                assert(members(y).contains(n) == holds_node(y, n));
                lemma_holds_rest(x, n);
                lemma_holds_rest(y, n);
            }
        }
        lemma_content_unique(tx, ty);
        assert forall|k: int| 0 <= k < x.len() implies (#[trigger] x[k]).pattern == y[k].pattern
            && x[k].ids == y[k].ids by {
            if k > 0 {
                assert(tx[k - 1].pattern == ty[k - 1].pattern);
            }
        }
    }
}

/// A node is held by the groups after the first exactly if it is held and
/// its pattern is not the first.
pub proof fn lemma_holds_rest(c: Seq<Group>, n: Node)
    requires
        ascending(c),
        c.len() > 0,
    ensures
        holds_node(c.drop_first(), n) <==> (holds_node(c, n) && n.0 != c[0].pattern),
{
    let rest = c.drop_first();
    if holds_node(rest, n) {
        let k = choose|k: int|
            0 <= k < rest.len() && (#[trigger] rest[k]).pattern == n.0 && rest[k].ids.contains(n.1);
        assert(c[k + 1].pattern == n.0 && c[k + 1].ids.contains(n.1));
        if n.0 == c[0].pattern {
            lemma_one_place(c, 0, k + 1);
        }
    }
    if holds_node(c, n) && n.0 != c[0].pattern {
        let k = choose|k: int|
            0 <= k < c.len() && (#[trigger] c[k]).pattern == n.0 && c[k].ids.contains(n.1);
        assert(rest[k - 1].pattern == n.0 && rest[k - 1].ids.contains(n.1));
    }
}

/// The number of nodes: for each pattern the number of its identifiers.
pub open spec fn total(c: Seq<Group>) -> nat
    decreases c.len(),
{
    if c.len() == 0 {
        0
    } else {
        total(c.drop_last()) + c.last().ids.len()
    }
}

/// The nodes of one group.
pub open spec fn group_nodes(g: Group) -> Set<Node> {
    g.ids.map(|v: int| (g.pattern, v))
}

pub proof fn lemma_content_front(c: Seq<Group>)
    requires
        content_wf(c),
        c.len() > 0,
    ensures
        content_wf(c.drop_last()),
{
    let front = c.drop_last();
    assert forall|k: int| 0 <= k < front.len() implies group_wf(#[trigger] front[k]) by {
        assert(group_wf(c[k]));
    }
    assert forall|i: int, j: int|
        #![trigger front[i], front[j]]
        0 <= i < j < front.len() implies comes_before(front[i].pattern, front[j].pattern) by {
        assert(comes_before(c[i].pattern, c[j].pattern));
    }
}

/// The nodes held are as many as the identifiers of all patterns together.
pub proof fn lemma_total(c: Seq<Group>)
    requires
        content_wf(c),
    ensures
        members(c).finite(),
        members(c).len() == total(c),
    decreases c.len(),
{
    if c.len() == 0 {
        assert(members(c) =~= Set::<Node>::empty()) by {
            assert forall|n: Node| !members(c).contains(n) by {}
        }
    } else {
        let front = c.drop_last();
        let g = c.last();
        lemma_content_front(c);
        lemma_total(front);
        assert(group_wf(c[c.len() - 1]));
        let f = |v: int| (g.pattern, v);
        let own = group_nodes(g);
        assert(injective_on(f, g.ids));
        lemma_map_size(g.ids, own, f);
        assert(c =~= front.push(g));
        assert(members(c) =~= members(front) + own) by {
            assert forall|n: Node| members(c).contains(n) == (members(front) + own).contains(n) by {
                lemma_holds_push(front, g, n);
                assert(members(c).contains(n) == holds_node(c, n));
                assert(members(front).contains(n) == holds_node(front, n));
                if g.pattern == n.0 && g.ids.contains(n.1) {
                    assert(f(n.1) == n);
                    assert(own.contains(n));
                }
                if own.contains(n) {
                    let v = choose|v: int| g.ids.contains(v) && f(v) == n;
                    assert(g.pattern == n.0 && g.ids.contains(n.1));
                }
            }
        }
        assert(members(front).disjoint(own)) by {
            assert forall|n: Node| !(members(front).contains(n) && own.contains(n)) by {
                if members(front).contains(n) && own.contains(n) {
                    assert(holds_node(front, n));
                    let k = choose|k: int|
                        0 <= k < front.len() && (#[trigger] front[k]).pattern == n.0
                            && front[k].ids.contains(n.1);
                    let v = choose|v: int| g.ids.contains(v) && f(v) == n;
                    assert(c[k].pattern == g.pattern);
                    lemma_one_place(c, k, c.len() - 1);
                }
            }
        }
        lemma_set_disjoint_lens(members(front), own);
    }
}

/// What a written pattern stands for.
pub open spec fn written_group(w: Written) -> Group {
    Group { pattern: w.pattern, ids: runs_set(w.runs), width: w.width }
}

/// What written patterns stand for, in the order written.
pub open spec fn written_groups(ws: Seq<Written>) -> Seq<Group> {
    Seq::new(ws.len(), |k: int| written_group(ws[k]))
}

/// Whether `c` is the content that gathers the groups `ws`: well-formed, with
/// the nodes of `ws`, and for each pattern the widest width that `ws` has
/// for it.
pub open spec fn gathers(ws: Seq<Group>, c: Seq<Group>) -> bool {
    &&& content_wf(c)
    &&& members(c) == members(ws)
    &&& forall|k: int| 0 <= k < c.len() ==> (#[trigger] c[k]).width == widest(ws, c[k].pattern)
}

/// Whether `c` is the content that `op` gives for `a` and `b`: well-formed,
/// with the nodes that `op` gives for theirs, and for each pattern the wider
/// of the widths that `a` and `b` keep for it.
pub open spec fn combines(op: SetOp, a: Seq<Group>, b: Seq<Group>, c: Seq<Group>) -> bool {
    &&& content_wf(c)
    &&& members(c) == set_op(op, members(a), members(b))
    &&& forall|k: int|
        0 <= k < c.len() ==> (#[trigger] c[k]).width == wider(
            widest(a, c[k].pattern),
            widest(b, c[k].pattern),
        )
}

/// The content that `op` gives for `a` and `b`.
pub open spec fn combined(op: SetOp, a: Seq<Group>, b: Seq<Group>) -> Seq<Group> {
    choose|c: Seq<Group>| combines(op, a, b, c)
}

/// An operation gives one content only.
pub proof fn lemma_combines_unique(
    op: SetOp,
    a: Seq<Group>,
    b: Seq<Group>,
    x: Seq<Group>,
    y: Seq<Group>,
)
    requires
        combines(op, a, b, x),
        combines(op, a, b, y),
    ensures
        x == y,
{
    lemma_content_unique(x, y);
    assert forall|k: int| 0 <= k < x.len() implies x[k] == y[k] by {
        assert(x[k].pattern == y[k].pattern && x[k].ids == y[k].ids);
        assert(x[k].width == wider(widest(a, x[k].pattern), widest(b, x[k].pattern)));
        assert(y[k].width == wider(widest(a, y[k].pattern), widest(b, y[k].pattern)));
    }
    assert(x =~= y);
}

/// The content that gathers the groups `ws`.
pub open spec fn gathered(ws: Seq<Group>) -> Seq<Group> {
    choose|c: Seq<Group>| gathers(ws, c)
}

/// Groups are gathered by one content only.
pub proof fn lemma_gathers_unique(ws: Seq<Group>, x: Seq<Group>, y: Seq<Group>)
    requires
        gathers(ws, x),
        gathers(ws, y),
    ensures
        x == y,
{
    lemma_content_unique(x, y);
    assert forall|k: int| 0 <= k < x.len() implies x[k] == y[k] by {
        assert(x[k].pattern == y[k].pattern && x[k].ids == y[k].ids);
        assert(x[k].width == widest(ws, x[k].pattern));
        assert(y[k].width == widest(ws, y[k].pattern));
    }
    assert(x =~= y);
}

/// Whether the group holds the identifier `v` and no other.
pub open spec fn holds_only(g: Group, v: int) -> bool {
    g.ids == set![v]
}

/// Whether the group holds one identifier only.
pub open spec fn is_unit(g: Group) -> bool {
    exists|v: int| holds_only(g, v)
}

/// Whether the unit `g` comes before the unit `h`: by its pattern, or under
/// the same pattern by its identifier.
pub open spec fn unit_before(g: Group, h: Group) -> bool {
    comes_before(g.pattern, h.pattern) || (g.pattern == h.pattern && exists|u: int, v: int|
        holds_only(g, u) && holds_only(h, v) && u < v)
}

/// Whether `units` is the full split of the content `c`: one unit for each
/// node of `c`, in ascending order, each with the width that `c` keeps for
/// its pattern.
pub open spec fn splits(c: Seq<Group>, units: Seq<Group>) -> bool {
    &&& forall|k: int| 0 <= k < units.len() ==> group_wf(#[trigger] units[k]) && is_unit(units[k])
    &&& forall|k: int|
        0 <= k < units.len() ==> (#[trigger] units[k]).width == widest(c, units[k].pattern)
    &&& units_ascend(units)
    &&& members(units) == members(c)
    &&& units.len() == total(c)
}

/// Where every group of a pattern has the same width, and there is such a
/// group, that is the widest width of the pattern.
pub proof fn lemma_widest_common(ws: Seq<Group>, p: Seq<char>, w: nat)
    requires
        has_pattern(ws, p),
        forall|k: int| 0 <= k < ws.len() && (#[trigger] ws[k]).pattern == p ==> ws[k].width == w,
    ensures
        widest(ws, p) == w,
    decreases ws.len(),
{
    let front = ws.drop_last();
    let at = choose|k: int| 0 <= k < ws.len() && (#[trigger] ws[k]).pattern == p;
    assert forall|k: int|
        0 <= k < front.len() && (#[trigger] front[k]).pattern == p implies front[k].width
        == w by {
        assert(ws[k].pattern == p);
    }
    if has_pattern(front, p) {
        lemma_widest_common(front, p, w);
        if ws.last().pattern == p {
            assert(ws[ws.len() - 1].pattern == p);
        }
    } else {
        lemma_widest_absent(front, p);
        if at < ws.len() - 1 {
            assert(front[at].pattern == p);
        }
        assert(ws[ws.len() - 1].pattern == p);
    }
}

/// Units in ascending order.
pub open spec fn units_ascend(units: Seq<Group>) -> bool {
    forall|i: int, j: int|
        #![trigger units[i], units[j]]
        0 <= i < j < units.len() ==> unit_before(units[i], units[j])
}

/// Where two sequences of groups hold the same nodes, and the first keeps
/// for each of its patterns the widest width of the second, the two keep the
/// same width for every pattern.
pub proof fn lemma_widest_same(g: Seq<Group>, s: Seq<Group>, p: Seq<char>)
    requires
        ascending(g),
        forall|k: int| 0 <= k < s.len() ==> (#[trigger] s[k]).ids != Set::<int>::empty(),
        forall|n: Node| holds_node(g, n) <==> holds_node(s, n),
        forall|k: int| 0 <= k < g.len() ==> (#[trigger] g[k]).width == widest(s, g[k].pattern),
    ensures
        widest(g, p) == widest(s, p),
{
    if has_pattern(g, p) {
        let k = choose|k: int| 0 <= k < g.len() && (#[trigger] g[k]).pattern == p;
        lemma_widest_at(g, k);
    } else {
        lemma_widest_absent(g, p);
        if has_pattern(s, p) {
            let k = choose|k: int| 0 <= k < s.len() && (#[trigger] s[k]).pattern == p;
            assert(s[k].ids != Set::<int>::empty());
            if forall|v: int| !s[k].ids.contains(v) {
                assert(s[k].ids =~= Set::<int>::empty());
            }
            let v = choose|v: int| s[k].ids.contains(v);
            let n: Node = (p, v);
            assert(s[k].pattern == n.0 && s[k].ids.contains(n.1));
            assert(holds_node(s, n));
            assert(holds_node(g, n));
            let j = choose|j: int|
                0 <= j < g.len() && (#[trigger] g[j]).pattern == n.0 && g[j].ids.contains(n.1);
            assert(g[j].pattern == p);
        }
        lemma_widest_absent(s, p);
    }
}

} // verus!

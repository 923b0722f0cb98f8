//! Texts joined by a blank: the joined text says what the first says and
//! then what the second says, and the set that it gives is the union of the
//! sets of the two, whichever comes first.

use crate::content::{
    combines, gathers, holds_node, lemma_gathers_unique, lemma_holds_concat, lemma_widest_concat,
    lemma_widest_same, members, widest, written_groups, Group, Node,
};
use crate::grammar::{
    broken_at, digits_end, finish, lemma_digits_end, lemma_items_end, lemma_name_end, parse_item,
    parse_items, parse_name, parse_spec, parse_text, reading_start, with_number, with_plain,
    ParseError, Pending, Reading, Written,
};
use crate::compaction::folded_text;
use crate::grammar_wf::{lemma_parse_wf, written_wf};
use crate::widths::lemma_folded_same;
use crate::locality::{lemma_same_at, lemma_same_step, lemma_suffix_name, same_from};
use crate::numeral::is_digit;
use crate::pattern::{is_separator, is_space};
use crate::range::wider;
use crate::runs::{run_holds, runs_hold, runs_set, Run, SetOp};
use vstd::prelude::*;

verus! {

/// Whether `s` begins with the text `a` and a blank after it.
pub open spec fn begins(s: Seq<char>, a: Seq<char>) -> bool {
    a.len() < s.len() && s.take(a.len() as int) == a && is_space(s[a.len() as int])
}

proof fn lemma_begins_at(s: Seq<char>, a: Seq<char>, k: int)
    requires
        begins(s, a),
        0 <= k < a.len(),
    ensures
        s[k] == a[k],
{
    assert(s.take(a.len() as int)[k] == s[k]);
}

proof fn lemma_begins_part(s: Seq<char>, a: Seq<char>, i: int, j: int)
    requires
        begins(s, a),
        0 <= i <= j <= a.len(),
    ensures
        s.subrange(i, j) == a.subrange(i, j),
{
    assert(s.subrange(i, j) =~= s.take(a.len() as int).subrange(i, j));
}

proof fn lemma_prefix_digits(s: Seq<char>, a: Seq<char>, k: int)
    requires
        begins(s, a),
        0 <= k <= a.len(),
    ensures
        digits_end(s, k) == digits_end(a, k),
    decreases a.len() - k,
{
    if k < a.len() {
        lemma_begins_at(s, a, k);
        if is_digit(a[k]) {
            lemma_prefix_digits(s, a, k + 1);
        }
    }
}

proof fn lemma_prefix_broken(s: Seq<char>, a: Seq<char>, k: int)
    requires
        begins(s, a),
        0 <= k <= a.len(),
    ensures
        broken_at(s, k) == broken_at(a, k),
{
    if k < a.len() {
        lemma_begins_at(s, a, k);
    }
}

proof fn lemma_prefix_item(s: Seq<char>, a: Seq<char>, k: int)
    requires
        begins(s, a),
        0 <= k <= a.len(),
    ensures
        parse_item(s, k) == parse_item(a, k),
{
    lemma_digits_end(a, k);
    lemma_prefix_digits(s, a, k);
    let e1 = digits_end(a, k);
    lemma_begins_part(s, a, k, e1);
    lemma_prefix_broken(s, a, k);
    if e1 < a.len() {
        lemma_begins_at(s, a, e1);
        if a[e1] == '-' {
            lemma_digits_end(a, e1 + 1);
            lemma_prefix_digits(s, a, e1 + 1);
            let e2 = digits_end(a, e1 + 1);
            lemma_begins_part(s, a, e1 + 1, e2);
            lemma_prefix_broken(s, a, e2);
        }
    }
}

proof fn lemma_prefix_items(s: Seq<char>, a: Seq<char>, k: int, runs: Seq<Run>, width: nat)
    requires
        begins(s, a),
        0 <= k <= a.len(),
    ensures
        parse_items(s, k, runs, width) == parse_items(a, k, runs, width),
    decreases a.len() - k,
{
    lemma_prefix_item(s, a, k);
    lemma_prefix_broken(s, a, k);
    lemma_digits_end(a, k);
    if k < a.len() {
        if digits_end(a, k) < a.len() {
            lemma_digits_end(a, digits_end(a, k) + 1);
        }
        match parse_item(a, k) {
            Err(e) => {},
            Ok(item) => {
                lemma_prefix_broken(s, a, item.next);
                if item.next < a.len() {
                    lemma_begins_at(s, a, item.next);
                    if a[item.next] == ',' {
                        lemma_prefix_items(
                            s,
                            a,
                            item.next + 1,
                            runs.push(item.run),
                            wider(width, item.width),
                        );
                    }
                }
            },
        }
    }
}

proof fn lemma_prefix_name(s: Seq<char>, a: Seq<char>, k: int, st: Reading)
    requires
        begins(s, a),
        0 <= k <= a.len(),
    ensures
        parse_name(s, k, st) == parse_name(a, k, st),
    decreases a.len() - k,
{
    if k < a.len() {
        lemma_begins_at(s, a, k);
        let c = a[k];
        if !is_separator(c) && c != ']' {
            if c == '[' {
                lemma_prefix_items(s, a, k + 1, Seq::empty(), 0);
                match parse_items(a, k + 1, Seq::empty(), 0) {
                    Err(e) => {},
                    Ok(listed) => {
                        lemma_items_end(a, k + 1, Seq::empty(), 0);
                        lemma_prefix_name(
                            s,
                            a,
                            listed.next,
                            with_number(st, Pending::Bracket(listed.runs, listed.width)),
                        );
                    },
                }
            } else if is_digit(c) {
                lemma_digits_end(a, k);
                lemma_prefix_digits(s, a, k);
                lemma_begins_part(s, a, k, digits_end(a, k));
                lemma_prefix_name(
                    s,
                    a,
                    digits_end(a, k),
                    with_number(st, Pending::Numerals(seq![a.subrange(k, digits_end(a, k))])),
                );
            } else {
                lemma_prefix_name(s, a, k + 1, with_plain(st, c));
            }
        }
    }
}

/// A text that begins with `a` and a blank is read as `a` up to the blank.
proof fn lemma_prefix_text(s: Seq<char>, a: Seq<char>, k: int, acc: Seq<Written>)
    requires
        begins(s, a),
        0 <= k <= a.len(),
    ensures
        parse_text(s, k, acc) == match parse_text(a, k, acc) {
            Ok(found) => parse_text(s, a.len() as int, found),
            Err(e) => Err::<Seq<Written>, ParseError>(e),
        },
    decreases a.len() - k,
{
    if k < a.len() {
        lemma_begins_at(s, a, k);
        if is_separator(a[k]) {
            lemma_prefix_text(s, a, k + 1, acc);
        } else {
            lemma_prefix_name(s, a, k, reading_start());
            match parse_name(a, k, reading_start()) {
                Err(e) => {},
                Ok((st, next)) => match finish(st) {
                    Err(e) => {},
                    Ok(found) => {
                        lemma_name_end(a, k, reading_start());
                        lemma_prefix_text(s, a, next, acc + found);
                    },
                },
            }
        }
    }
}

/// Texts that are the same from two places on are read the same from
/// there.
proof fn lemma_suffix_text(s1: Seq<char>, p1: int, s2: Seq<char>, p2: int, acc: Seq<Written>)
    requires
        same_from(s1, p1, s2, p2),
    ensures
        parse_text(s1, p1, acc) == parse_text(s2, p2, acc),
    decreases s2.len() - p2,
{
    lemma_same_step(s1, p1, s2, p2, 0);
    if p2 < s2.len() {
        lemma_same_at(s1, p1, s2, p2, 0);
        if is_separator(s2[p2]) {
            lemma_same_step(s1, p1, s2, p2, 1);
            lemma_suffix_text(s1, p1 + 1, s2, p2 + 1, acc);
        } else {
            lemma_suffix_name(s1, p1, s2, p2, reading_start());
            match parse_name(s2, p2, reading_start()) {
                Err(e) => {},
                Ok((st, next)) => match finish(st) {
                    Err(e) => {},
                    Ok(found) => {
                        lemma_name_end(s2, p2, reading_start());
                        lemma_same_step(s1, p1, s2, p2, next - p2);
                        lemma_suffix_text(s1, p1 + (next - p2), s2, next, acc + found);
                    },
                },
            }
        }
    }
}

/// What is read after other names is what is read alone, after them.
proof fn lemma_text_after(s: Seq<char>, i: int, acc: Seq<Written>)
    requires
        0 <= i <= s.len(),
    ensures
        parse_text(s, i, acc) == match parse_text(s, i, Seq::empty()) {
            Ok(found) => Ok::<Seq<Written>, ParseError>(acc + found),
            Err(e) => Err::<Seq<Written>, ParseError>(e),
        },
    decreases s.len() - i,
{
    let none = Seq::<Written>::empty();
    if i < s.len() {
        if is_separator(s[i]) {
            lemma_text_after(s, i + 1, acc);
        } else {
            match parse_name(s, i, reading_start()) {
                Err(e) => {},
                Ok((st, next)) => match finish(st) {
                    Err(e) => {},
                    Ok(found) => {
                        lemma_name_end(s, i, reading_start());
                        lemma_text_after(s, next, acc + found);
                        lemma_text_after(s, next, none + found);
                        match parse_text(s, next, none) {
                            Err(e) => {},
                            Ok(rest) => {
                                assert((acc + found) + rest =~= acc + ((none + found) + rest));
                            },
                        }
                    },
                },
            }
        }
    } else {
        assert(acc + none =~= acc);
    }
}

/// What two texts say one after the other: the patterns of the first and
/// then those of the second, or the error of the first that has one.
pub open spec fn said_in_turn(
    first: Result<Seq<Written>, ParseError>,
    second: Result<Seq<Written>, ParseError>,
) -> Result<Seq<Written>, ParseError> {
    match first {
        Err(e) => Err(e),
        Ok(fa) => match second {
            Err(e) => Err(e),
            Ok(fb) => Ok(fa + fb),
        },
    }
}

/// Two texts joined by a blank say what the first says and then what the
/// second says; where one of them is not in the folded notation, the joined
/// text fails as the first of them that fails. So a text joined of three
/// says the same however the three were joined, two at a time.
pub proof fn law_joined_text(a: Seq<char>, blank: char, b: Seq<char>)
    requires
        is_space(blank),
    ensures
        parse_spec(a + seq![blank] + b) == said_in_turn(parse_spec(a), parse_spec(b)),
{
    let s = a + seq![blank] + b;
    let none = Seq::<Written>::empty();
    assert(s.take(a.len() as int) =~= a);
    assert(s[a.len() as int] == blank);
    lemma_prefix_text(s, a, 0, none);
    match parse_spec(a) {
        Err(e) => {},
        Ok(fa) => {
            let n = a.len() as int;
            assert(parse_text(s, n, fa) == parse_text(s, n + 1, fa));
            assert(s.skip(n + 1) =~= b.skip(0));
            lemma_suffix_text(s, n + 1, b, 0, fa);
            lemma_text_after(b, 0, fa);
        },
    }
}

/// Three texts joined by blanks say the same whether the first two or the
/// last two were joined first: what the first, the second and the third
/// say, in turn.
pub proof fn law_joined_grouping(a: Seq<char>, b: Seq<char>, c: Seq<char>, blank: char)
    requires
        is_space(blank),
    ensures
        parse_spec((a + seq![blank] + b) + seq![blank] + c) == parse_spec(
            a + seq![blank] + (b + seq![blank] + c),
        ),
        parse_spec((a + seq![blank] + b) + seq![blank] + c) == said_in_turn(
            said_in_turn(parse_spec(a), parse_spec(b)),
            parse_spec(c),
        ),
{
    assert((a + seq![blank] + b) + seq![blank] + c =~= a + seq![blank] + (b + seq![blank] + c));
    law_joined_text(a, blank, b);
    law_joined_text(a + seq![blank] + b, blank, c);
}

/// Two texts joined by a blank give the same set whichever comes first:
/// where the text with `a` first gives `x` and the text with `b` first gives
/// `y`, the two are the same.
pub proof fn law_joined_either_way(
    a: Seq<char>,
    b: Seq<char>,
    blank: char,
    x: Seq<Group>,
    y: Seq<Group>,
)
    requires
        is_space(blank),
        parse_spec(a + seq![blank] + b) matches Ok(found) && gathers(written_groups(found), x),
        parse_spec(b + seq![blank] + a) matches Ok(found) && gathers(written_groups(found), y),
    ensures
        x == y,
{
    law_joined_text(a, blank, b);
    law_joined_text(b, blank, a);
    law_joined_commutes(parse_spec(a)->Ok_0, parse_spec(b)->Ok_0, x, y);
}

/// The set of two texts joined by a blank is the union of the sets of the
/// two: where the first text gives `x`, the second `y` and the joined text
/// `joined`, that is what `union` returns for `x` and `y`.
pub proof fn law_joined_union(
    a: Seq<char>,
    b: Seq<char>,
    blank: char,
    x: Seq<Group>,
    y: Seq<Group>,
    joined: Seq<Group>,
)
    requires
        is_space(blank),
        parse_spec(a) matches Ok(found) && gathers(written_groups(found), x),
        parse_spec(b) matches Ok(found) && gathers(written_groups(found), y),
        parse_spec(a + seq![blank] + b) matches Ok(found) && gathers(
            written_groups(found),
            joined,
        ),
    ensures
        combines(SetOp::Union, x, y, joined),
        members(joined) == members(x).union(members(y)),
{
    law_joined_text(a, blank, b);
    lemma_parse_wf(a);
    lemma_parse_wf(b);
    lemma_gathered_union(parse_spec(a)->Ok_0, parse_spec(b)->Ok_0, x, y, joined);
}

/// What gathers the patterns of two texts together is the union of what
/// gathers those of each.
pub proof fn lemma_gathered_union(
    fa: Seq<Written>,
    fb: Seq<Written>,
    x: Seq<Group>,
    y: Seq<Group>,
    joined: Seq<Group>,
)
    requires
        forall|k: int| 0 <= k < fa.len() ==> written_wf(#[trigger] fa[k]),
        forall|k: int| 0 <= k < fb.len() ==> written_wf(#[trigger] fb[k]),
        gathers(written_groups(fa), x),
        gathers(written_groups(fb), y),
        gathers(written_groups(fa + fb), joined),
    ensures
        combines(SetOp::Union, x, y, joined),
        members(joined) == members(x).union(members(y)),
{
    let wa = written_groups(fa);
    let wb = written_groups(fb);
    assert(written_groups(fa + fb) =~= wa + wb);
    assert forall|n: Node| members(joined).contains(n) <==> members(x).union(
        members(y),
    ).contains(n) by {
        lemma_holds_concat(wa, wb, n);
        assert(members(wa + wb).contains(n) == holds_node(wa + wb, n));
        assert(members(wa).contains(n) == holds_node(wa, n));
        assert(members(wb).contains(n) == holds_node(wb, n));
    }
    assert(members(joined) =~= members(x).union(members(y)));
    lemma_written_filled(fa);
    lemma_written_filled(fb);
    assert forall|k: int| 0 <= k < joined.len() implies (#[trigger] joined[k]).width == wider(
        widest(x, joined[k].pattern),
        widest(y, joined[k].pattern),
    ) by {
        let p = joined[k].pattern;
        lemma_widest_concat(wa, wb, p);
        lemma_gathered_width(wa, x, p);
        lemma_gathered_width(wb, y, p);
    }
}

/// Each pattern that a text gives comes with at least one identifier.
proof fn lemma_written_filled(found: Seq<Written>)
    requires
        forall|k: int| 0 <= k < found.len() ==> written_wf(#[trigger] found[k]),
    ensures
        forall|k: int|
            0 <= k < found.len() ==> (#[trigger] written_groups(found)[k]).ids != Set::<
                int,
            >::empty(),
{
    assert forall|k: int| 0 <= k < found.len() implies (#[trigger] written_groups(found)[k]).ids
        != Set::<int>::empty() by {
        let w = found[k];
        assert(written_wf(w));
        let v = w.runs[0].start as int;
        assert(run_holds(w.runs[0], v));
        assert(runs_hold(w.runs, v));
        assert(runs_set(w.runs).contains(v));
    }
}

/// A content keeps for every pattern the widest width of the groups that it
/// gathers.
proof fn lemma_gathered_width(ws: Seq<Group>, c: Seq<Group>, p: Seq<char>)
    requires
        gathers(ws, c),
        forall|k: int| 0 <= k < ws.len() ==> (#[trigger] ws[k]).ids != Set::<int>::empty(),
    ensures
        widest(c, p) == widest(ws, p),
{
    assert forall|n: Node| holds_node(c, n) <==> holds_node(ws, n) by {
        assert(members(c).contains(n) == holds_node(c, n));
        assert(members(ws).contains(n) == holds_node(ws, n));
    }
    lemma_widest_same(c, ws, p);
}

/// The set of two texts joined by a blank is the same whichever of the two
/// comes first: the same patterns in the same order, each with the same
/// identifiers and the same width.
pub proof fn law_joined_commutes(
    fa: Seq<Written>,
    fb: Seq<Written>,
    one: Seq<Group>,
    other: Seq<Group>,
)
    requires
        gathers(written_groups(fa + fb), one),
        gathers(written_groups(fb + fa), other),
    ensures
        one == other,
{
    let wa = written_groups(fa);
    let wb = written_groups(fb);
    assert(written_groups(fa + fb) =~= wa + wb);
    assert(written_groups(fb + fa) =~= wb + wa);
    assert forall|n: Node| members(wa + wb).contains(n) <==> members(wb + wa).contains(n) by {
        lemma_holds_concat(wa, wb, n);
        lemma_holds_concat(wb, wa, n);
        assert(members(wa + wb).contains(n) == holds_node(wa + wb, n));
        assert(members(wb + wa).contains(n) == holds_node(wb + wa, n));
    }
    assert(members(wa + wb) =~= members(wb + wa));
    assert forall|k: int| 0 <= k < other.len() implies (#[trigger] other[k]).width == widest(
        wa + wb,
        other[k].pattern,
    ) by {
        lemma_widest_concat(wa, wb, other[k].pattern);
        lemma_widest_concat(wb, wa, other[k].pattern);
    }
    assert(gathers(wa + wb, other));
    lemma_gathers_unique(wa + wb, one, other);
}

/// What gathers groups one after the other gathers them in the other order
/// too.
pub proof fn lemma_gathers_commute(u: Seq<Group>, v: Seq<Group>, z: Seq<Group>)
    requires
        gathers(u + v, z),
    ensures
        gathers(v + u, z),
{
    assert forall|n: Node| members(u + v).contains(n) <==> members(v + u).contains(n) by {
        lemma_holds_concat(u, v, n);
        lemma_holds_concat(v, u, n);
        assert(members(u + v).contains(n) == holds_node(u + v, n));
        assert(members(v + u).contains(n) == holds_node(v + u, n));
    }
    assert(members(u + v) =~= members(v + u));
    assert forall|k: int| 0 <= k < z.len() implies (#[trigger] z[k]).width == widest(
        v + u,
        z[k].pattern,
    ) by {
        lemma_widest_concat(u, v, z[k].pattern);
        lemma_widest_concat(v, u, z[k].pattern);
    }
}

/// Groups that one set gathers may stand for other groups that the same set
/// gathers, before further groups: what gathers all of them is the same.
pub proof fn lemma_gathers_swap(
    u: Seq<Group>,
    other: Seq<Group>,
    x: Seq<Group>,
    v: Seq<Group>,
    z: Seq<Group>,
)
    requires
        gathers(u, x),
        gathers(other, x),
        forall|k: int| 0 <= k < u.len() ==> (#[trigger] u[k]).ids != Set::<int>::empty(),
        forall|k: int| 0 <= k < other.len() ==> (#[trigger] other[k]).ids != Set::<int>::empty(),
        gathers(u + v, z),
    ensures
        gathers(other + v, z),
{
    assert forall|n: Node| members(u + v).contains(n) <==> members(other + v).contains(n) by {
        lemma_holds_concat(u, v, n);
        lemma_holds_concat(other, v, n);
        assert(members(u + v).contains(n) == holds_node(u + v, n));
        assert(members(other + v).contains(n) == holds_node(other + v, n));
        assert(members(u).contains(n) == holds_node(u, n));
        assert(members(other).contains(n) == holds_node(other, n));
    }
    assert(members(u + v) =~= members(other + v));
    assert forall|k: int| 0 <= k < z.len() implies (#[trigger] z[k]).width == widest(
        other + v,
        z[k].pattern,
    ) by {
        let p = z[k].pattern;
        lemma_widest_concat(u, v, p);
        lemma_widest_concat(other, v, p);
        lemma_gathered_width(u, x, p);
        lemma_gathered_width(other, x, p);
    }
}

/// The folded text of what a text gives may stand for the text in a joined
/// text: where `a` gives the set `x`, and `a` joined with `b` gives `z`,
/// the folded text of `x` joined with `b`, in either order, gives `z` too.
pub proof fn law_folded_stands_in(
    a: Seq<char>,
    x: Seq<Group>,
    b: Seq<char>,
    blank: char,
    z: Seq<Group>,
)
    requires
        is_space(blank),
        parse_spec(a) matches Ok(found) && gathers(written_groups(found), x),
        parse_spec(a + seq![blank] + b) matches Ok(found) && gathers(written_groups(found), z),
    ensures
        parse_spec(folded_text(x) + seq![blank] + b) matches Ok(found) && gathers(
            written_groups(found),
            z,
        ),
        parse_spec(b + seq![blank] + folded_text(x)) matches Ok(found) && gathers(
            written_groups(found),
            z,
        ),
{
    let folded = folded_text(x);
    lemma_folded_same(a, x);
    law_joined_text(a, blank, b);
    law_joined_text(folded, blank, b);
    law_joined_text(b, blank, folded);
    let fa = parse_spec(a)->Ok_0;
    let fb = parse_spec(b)->Ok_0;
    let ff = parse_spec(folded)->Ok_0;
    lemma_parse_wf(a);
    lemma_parse_wf(folded);
    lemma_written_filled(fa);
    lemma_written_filled(ff);
    let wa = written_groups(fa);
    let wb = written_groups(fb);
    let wf = written_groups(ff);
    assert(written_groups(fa + fb) =~= wa + wb);
    assert(written_groups(ff + fb) =~= wf + wb);
    assert(written_groups(fb + ff) =~= wb + wf);
    lemma_gathers_swap(wa, wf, x, wb, z);
    lemma_gathers_commute(wf, wb, z);
}

/// Three texts joined by blanks give the same set when the folded text of
/// what the first two give stands for them, or the folded text of what the
/// last two give: where `a` with `b` gives `ab`, `b` with `c` gives `bc`,
/// and the three give `z`, the folded text of `ab` with `c` gives `z`, and
/// `a` with the folded text of `bc` gives `z`.
pub proof fn law_joined_folded(
    a: Seq<char>,
    b: Seq<char>,
    c: Seq<char>,
    blank: char,
    ab: Seq<Group>,
    bc: Seq<Group>,
    z: Seq<Group>,
)
    requires
        is_space(blank),
        parse_spec(a + seq![blank] + b) matches Ok(found) && gathers(written_groups(found), ab),
        parse_spec(b + seq![blank] + c) matches Ok(found) && gathers(written_groups(found), bc),
        parse_spec((a + seq![blank] + b) + seq![blank] + c) matches Ok(found) && gathers(
            written_groups(found),
            z,
        ),
    ensures
        parse_spec(folded_text(ab) + seq![blank] + c) matches Ok(found) && gathers(
            written_groups(found),
            z,
        ),
        parse_spec(a + seq![blank] + folded_text(bc)) matches Ok(found) && gathers(
            written_groups(found),
            z,
        ),
{
    law_folded_stands_in(a + seq![blank] + b, ab, c, blank, z);
    law_joined_grouping(a, b, c, blank);
    let right = b + seq![blank] + c;
    law_joined_text(a, blank, right);
    law_joined_text(right, blank, a);
    let fa = parse_spec(a)->Ok_0;
    let fr = parse_spec(right)->Ok_0;
    assert(written_groups(fa + fr) =~= written_groups(fa) + written_groups(fr));
    assert(written_groups(fr + fa) =~= written_groups(fr) + written_groups(fa));
    lemma_gathers_commute(written_groups(fa), written_groups(fr), z);
    law_folded_stands_in(right, bc, a, blank, z);
}

} // verus!

//! Folded numbers read back: the text in which the numbers of the patterns
//! are folded says what the patterns, one by one, say.

use crate::compaction::{
    block_end, block_values, fits, folded_text, head_of, joins, leads, lemma_block_end,
    lemma_numeral_bounds, lemma_numeral_end, lemma_numeral_start, longest, merged, mid_of, moved,
    numeral_end, numeral_of, numeral_start, round_from, rounds, stem_of, stems_of, stems_text,
    Stem,
};
use crate::folding::{reads_as, render_group, render_ids, slot_at};
use crate::normal_form::{lemma_normal_form, normal_form};
use crate::numeral::{lemma_decimal_len, lemma_padded, numeral_value, numeral_width, shown_width};
use crate::roundtrip::{
    asked, echo, echoes, flat, lemma_asked, lemma_fill_plain, lemma_fill_split, lemma_group,
    lemma_group_text, lemma_one_slot, lemma_render_parse, lemma_scan_tail, lemma_scan_text,
    lemma_slot, slot_pending,
};
use crate::locality::{lemma_suffix_name, same_from, shift_name};
use crate::grammar_wf::all_plain;
use crate::grammar::{singles, too_large, widest_numeral};
use crate::content::{content_wf, gathered, gathers, group_wf, lemma_gathers_unique};
use crate::pattern::{has_digit, has_slot, is_plain, SLOT};
use crate::runs::{runs_set, runs_valid, values_hold, values_set, normalized};
use crate::content::{holds_node, members, widest, written_groups, Group, Node};
use crate::grammar::{
    adjacent, cross, digits_end, expand, extend_all, extend_each, finish, lemma_digits_end,
    lemma_items_end, parse_items, parse_name, parse_text, reading_start, settle, spread,
    spread_run, with_number, with_plain, ParseError, Pending, Reading, Written,
};
use crate::grammar_wf::settled_text;
use crate::locality::{lemma_cut_name, stands};
use crate::numeral::{is_digit, padded};
use crate::pattern::is_separator;
use crate::range::wider;
use crate::roundtrip::{lemma_occurs_at, lemma_occurs_concat, occurs};
use crate::runs::{run_holds, runs_hold, Run};
use vstd::prelude::*;

verus! {

/// The name with other heads.
pub open spec fn with_heads(st: Reading, heads: Seq<Seq<char>>) -> Reading {
    Reading { heads, pending: st.pending, tail: st.tail }
}

pub proof fn lemma_cross_concat(
    x: Seq<Seq<char>>,
    y: Seq<Seq<char>>,
    numerals: Seq<Seq<char>>,
    tail: Seq<char>,
)
    ensures
        cross(x + y, numerals, tail) == cross(x, numerals, tail) + cross(y, numerals, tail),
    decreases y.len(),
{
    if y.len() == 0 {
        assert(x + y =~= x);
        assert(cross(x, numerals, tail) + cross(y, numerals, tail) =~= cross(x, numerals, tail));
    } else {
        assert((x + y).drop_last() =~= x + y.drop_last());
        assert((x + y).last() == y.last());
        lemma_cross_concat(x, y.drop_last(), numerals, tail);
        assert(cross(x + y, numerals, tail) =~= cross(x, numerals, tail) + cross(
            y,
            numerals,
            tail,
        ));
    }
}

pub proof fn lemma_expand_concat(
    x: Seq<Seq<char>>,
    y: Seq<Seq<char>>,
    runs: Seq<Run>,
    width: nat,
    tail: Seq<char>,
)
    ensures
        expand(x + y, runs, width, tail) == expand(x, runs, width, tail) + expand(
            y,
            runs,
            width,
            tail,
        ),
    decreases y.len(),
{
    if y.len() == 0 {
        assert(x + y =~= x);
        assert(expand(x, runs, width, tail) + expand(y, runs, width, tail) =~= expand(
            x,
            runs,
            width,
            tail,
        ));
    } else {
        assert((x + y).drop_last() =~= x + y.drop_last());
        assert((x + y).last() == y.last());
        lemma_expand_concat(x, y.drop_last(), runs, width, tail);
        assert(expand(x + y, runs, width, tail) =~= expand(x, runs, width, tail) + expand(
            y,
            runs,
            width,
            tail,
        ));
    }
}

pub proof fn lemma_settle_concat(st: Reading, x: Seq<Seq<char>>, y: Seq<Seq<char>>)
    ensures
        settle(with_heads(st, x + y)) == settle(with_heads(st, x)) + settle(with_heads(st, y)),
{
    match st.pending {
        Pending::Nothing => {},
        Pending::Numerals(numerals) => {
            lemma_cross_concat(x, y, numerals, st.tail);
        },
        Pending::Bracket(runs, width) => {
            lemma_expand_concat(x, y, runs, width, st.tail);
        },
    }
}

pub proof fn lemma_number_concat(
    st: Reading,
    x: Seq<Seq<char>>,
    y: Seq<Seq<char>>,
    number: Pending,
)
    ensures
        with_number(with_heads(st, x + y), number) == with_heads(
            with_number(with_heads(st, x), number),
            with_number(with_heads(st, x), number).heads + with_number(
                with_heads(st, y),
                number,
            ).heads,
        ),
        with_number(with_heads(st, y), number) == with_heads(
            with_number(with_heads(st, x), number),
            with_number(with_heads(st, y), number).heads,
        ),
{
    lemma_settle_concat(st, x, y);
}

pub proof fn lemma_plain_concat(st: Reading, x: Seq<Seq<char>>, y: Seq<Seq<char>>, c: char)
    ensures
        with_plain(with_heads(st, x + y), c) == with_heads(
            with_plain(with_heads(st, x), c),
            with_plain(with_heads(st, x), c).heads + with_plain(with_heads(st, y), c).heads,
        ),
        with_plain(with_heads(st, y), c) == with_heads(
            with_plain(with_heads(st, x), c),
            with_plain(with_heads(st, y), c).heads,
        ),
{
    match st.pending {
        Pending::Nothing => {
            assert(extend_all(x + y, seq![c]) =~= extend_all(x, seq![c]) + extend_all(
                y,
                seq![c],
            ));
        },
        _ => {},
    }
}

/// What is read of a name, but for its heads.
pub open spec fn outline(r: Result<(Reading, int), ParseError>) -> Result<
    (Pending, Seq<char>, int),
    ParseError,
> {
    match r {
        Ok((st, next)) => Ok((st.pending, st.tail, next)),
        Err(e) => Err(e),
    }
}

/// The heads of a name that has been read.
pub open spec fn heads_read(r: Result<(Reading, int), ParseError>) -> Seq<Seq<char>> {
    match r {
        Ok((st, _)) => st.heads,
        Err(_) => Seq::empty(),
    }
}

/// Reading treats each head alone: what is read from heads together is what
/// is read from each of them, together.
pub proof fn lemma_linear(s: Seq<char>, i: int, st: Reading, x: Seq<Seq<char>>, y: Seq<Seq<char>>)
    ensures
        outline(parse_name(s, i, with_heads(st, x + y))) == outline(
            parse_name(s, i, with_heads(st, x)),
        ),
        outline(parse_name(s, i, with_heads(st, y))) == outline(
            parse_name(s, i, with_heads(st, x)),
        ),
        heads_read(parse_name(s, i, with_heads(st, x + y))) == heads_read(
            parse_name(s, i, with_heads(st, x)),
        ) + heads_read(parse_name(s, i, with_heads(st, y))),
    decreases s.len() - i,
{
    let sx = with_heads(st, x);
    let sy = with_heads(st, y);
    let sxy = with_heads(st, x + y);
    if i < 0 || i >= s.len() || is_separator(s[i]) {
    } else if s[i] == ']' {
        assert(Seq::<Seq<char>>::empty() + Seq::<Seq<char>>::empty() =~= Seq::<
            Seq<char>,
        >::empty());
    } else if s[i] == '[' {
        match parse_items(s, i + 1, Seq::empty(), 0) {
            Err(e) => {
                assert(Seq::<Seq<char>>::empty() + Seq::<Seq<char>>::empty() =~= Seq::<
                    Seq<char>,
                >::empty());
            },
            Ok(listed) => {
                lemma_items_end(s, i + 1, Seq::empty(), 0);
                let number = Pending::Bracket(listed.runs, listed.width);
                lemma_number_concat(st, x, y, number);
                let nx = with_number(sx, number);
                let ny = with_number(sy, number);
                lemma_linear(s, listed.next, nx, nx.heads, ny.heads);
                assert(with_heads(nx, nx.heads) == nx);
            },
        }
    } else if is_digit(s[i]) {
        lemma_digits_end(s, i);
        let number = Pending::Numerals(seq![s.subrange(i, digits_end(s, i))]);
        lemma_number_concat(st, x, y, number);
        let nx = with_number(sx, number);
        let ny = with_number(sy, number);
        lemma_linear(s, digits_end(s, i), nx, nx.heads, ny.heads);
        assert(with_heads(nx, nx.heads) == nx);
    } else {
        lemma_plain_concat(st, x, y, s[i]);
        let nx = with_plain(sx, s[i]);
        let ny = with_plain(sy, s[i]);
        lemma_linear(s, i + 1, nx, nx.heads, ny.heads);
        assert(with_heads(nx, nx.heads) == nx);
    }
}

/// The text that a head gives with an identifier and a tail after it.
pub open spec fn numbered(head: Seq<char>, v: int, width: nat, tail: Seq<char>) -> Seq<char> {
    head + padded(v as nat, width) + tail
}

pub proof fn lemma_spread_run_has(
    head: Seq<char>,
    lo: int,
    hi: int,
    width: nat,
    tail: Seq<char>,
    x: Seq<char>,
)
    requires
        0 <= lo,
    ensures
        spread_run(head, lo, hi, width, tail).contains(x) <==> exists|v: int|
            lo <= v <= hi && x == #[trigger] numbered(head, v, width, tail),
    decreases hi - lo + 1,
{
    let all = spread_run(head, lo, hi, width, tail);
    if hi >= lo {
        let front = spread_run(head, lo, hi - 1, width, tail);
        lemma_spread_run_has(head, lo, hi - 1, width, tail, x);
        let last = numbered(head, hi, width, tail);
        assert(all == front.push(last));
        if all.contains(x) {
            let k = choose|k: int| 0 <= k < all.len() && all[k] == x;
            if k < front.len() {
                assert(front[k] == x);
                assert(front.contains(x));
                let v = choose|v: int|
                    lo <= v <= hi - 1 && x == #[trigger] numbered(head, v, width, tail);
                assert(lo <= v <= hi && x == numbered(head, v, width, tail));
            } else {
                assert(lo <= hi <= hi && x == numbered(head, hi, width, tail));
            }
        }
        if exists|v: int| lo <= v <= hi && x == #[trigger] numbered(head, v, width, tail) {
            let v = choose|v: int| lo <= v <= hi && x == #[trigger] numbered(head, v, width, tail);
            if v == hi {
                assert(all[front.len() as int] == x);
            } else {
                assert(lo <= v <= hi - 1 && x == numbered(head, v, width, tail));
                assert(front.contains(x));
                let k = choose|k: int| 0 <= k < front.len() && front[k] == x;
                assert(all[k] == x);
            }
        }
    } else {
        if exists|v: int| lo <= v <= hi && x == #[trigger] numbered(head, v, width, tail) {
            let v = choose|v: int| lo <= v <= hi && x == #[trigger] numbered(head, v, width, tail);
        }
    }
}

/// The texts that a head gives over runs: one for each identifier that the
/// runs hold.
pub proof fn lemma_spread_has(
    head: Seq<char>,
    runs: Seq<Run>,
    width: nat,
    tail: Seq<char>,
    x: Seq<char>,
)
    ensures
        spread(head, runs, width, tail).contains(x) <==> exists|v: int|
            runs_hold(runs, v) && x == #[trigger] numbered(head, v, width, tail),
    decreases runs.len(),
{
    let all = spread(head, runs, width, tail);
    if runs.len() > 0 {
        let front_runs = runs.drop_last();
        let r = runs.last();
        let front = spread(head, front_runs, width, tail);
        let back = spread_run(head, r.start as int, r.end as int, width, tail);
        lemma_spread_has(head, front_runs, width, tail, x);
        lemma_spread_run_has(head, r.start as int, r.end as int, width, tail, x);
        assert(all == front + back);
        assert(runs =~= front_runs.push(r));
        if all.contains(x) {
            let k = choose|k: int| 0 <= k < all.len() && all[k] == x;
            if k < front.len() {
                assert(front[k] == x);
                assert(front.contains(x));
                let v = choose|v: int|
                    runs_hold(front_runs, v) && x == #[trigger] numbered(head, v, width, tail);
                crate::runs::lemma_hold_push(front_runs, r, v);
                assert(runs_hold(runs, v) && x == numbered(head, v, width, tail));
            } else {
                assert(back[k - front.len()] == x);
                assert(back.contains(x));
                let v = choose|v: int|
                    r.start <= v <= r.end && x == #[trigger] numbered(head, v, width, tail);
                crate::runs::lemma_hold_push(front_runs, r, v);
                assert(run_holds(r, v));
                assert(runs_hold(runs, v) && x == numbered(head, v, width, tail));
            }
        }
        if exists|v: int| runs_hold(runs, v) && x == #[trigger] numbered(head, v, width, tail) {
            let v = choose|v: int|
                runs_hold(runs, v) && x == #[trigger] numbered(head, v, width, tail);
            crate::runs::lemma_hold_push(front_runs, r, v);
            if runs_hold(front_runs, v) {
                assert(runs_hold(front_runs, v) && x == numbered(head, v, width, tail));
                assert(front.contains(x));
                let k = choose|k: int| 0 <= k < front.len() && front[k] == x;
                assert(all[k] == x);
            } else {
                assert(r.start <= v <= r.end && x == numbered(head, v, width, tail));
                assert(back.contains(x));
                let k = choose|k: int| 0 <= k < back.len() && back[k] == x;
                assert(all[front.len() + k] == x);
            }
        }
    } else {
        if exists|v: int| runs_hold(runs, v) && x == #[trigger] numbered(head, v, width, tail) {
            let v = choose|v: int|
                runs_hold(runs, v) && x == #[trigger] numbered(head, v, width, tail);
            let k = choose|k: int| 0 <= k < runs.len() && #[trigger] run_holds(runs[k], v);
        }
    }
}

/// Whether two texts say the same patterns, in whatever order and however
/// often.
pub open spec fn same_said(a: Seq<Written>, b: Seq<Written>) -> bool {
    forall|w: Written| a.contains(w) <==> b.contains(w)
}

/// The widest width of a pattern is that of one of its groups, none being
/// wider; it is 0 where the pattern has no group.
pub proof fn lemma_widest_bound(ws: Seq<Group>, p: Seq<char>)
    ensures
        forall|k: int|
            0 <= k < ws.len() && (#[trigger] ws[k]).pattern == p ==> ws[k].width <= widest(ws, p),
        widest(ws, p) == 0 || exists|k: int|
            0 <= k < ws.len() && (#[trigger] ws[k]).pattern == p && ws[k].width == widest(ws, p),
    decreases ws.len(),
{
    if ws.len() > 0 {
        let front = ws.drop_last();
        lemma_widest_bound(front, p);
        assert forall|k: int| 0 <= k < ws.len() && (#[trigger] ws[k]).pattern == p implies ws[k].width
            <= widest(ws, p) by {
            if k < front.len() {
                assert(front[k].pattern == p);
            }
        }
        if widest(ws, p) != 0 {
            if ws.last().pattern == p && ws.last().width == widest(ws, p) {
                assert(ws[ws.len() - 1].pattern == p);
            } else {
                let k = choose|k: int|
                    0 <= k < front.len() && (#[trigger] front[k]).pattern == p && front[k].width
                        == widest(front, p);
                assert(ws[k].pattern == p && ws[k].width == widest(ws, p));
            }
        }
    }
}

/// Texts that say the same patterns are gathered by the same contents.
pub proof fn lemma_said_gathering(a: Seq<Written>, b: Seq<Written>)
    requires
        same_said(a, b),
    ensures
        members(written_groups(a)) == members(written_groups(b)),
        forall|p: Seq<char>| widest(written_groups(a), p) == widest(written_groups(b), p),
{
    let ga = written_groups(a);
    let gb = written_groups(b);
    assert forall|n: Node| members(ga).contains(n) == members(gb).contains(n) by {
        assert(members(ga).contains(n) == holds_node(ga, n));
        assert(members(gb).contains(n) == holds_node(gb, n));
        if holds_node(ga, n) {
            let k = choose|k: int|
                0 <= k < ga.len() && (#[trigger] ga[k]).pattern == n.0 && ga[k].ids.contains(n.1);
            assert(a[k] == a[k]);
            assert(a.contains(a[k]));
            let j = choose|j: int| 0 <= j < b.len() && b[j] == a[k];
            assert(gb[j].pattern == n.0 && gb[j].ids.contains(n.1));
        }
        if holds_node(gb, n) {
            let k = choose|k: int|
                0 <= k < gb.len() && (#[trigger] gb[k]).pattern == n.0 && gb[k].ids.contains(n.1);
            assert(b[k] == b[k]);
            assert(b.contains(b[k]));
            let j = choose|j: int| 0 <= j < a.len() && a[j] == b[k];
            assert(ga[j].pattern == n.0 && ga[j].ids.contains(n.1));
        }
    }
    assert(members(ga) =~= members(gb));
    assert forall|p: Seq<char>| widest(ga, p) == widest(gb, p) by {
        lemma_widest_bound(ga, p);
        lemma_widest_bound(gb, p);
        if widest(ga, p) != 0 {
            let k = choose|k: int|
                0 <= k < ga.len() && (#[trigger] ga[k]).pattern == p && ga[k].width == widest(
                    ga,
                    p,
                );
            assert(a.contains(a[k]));
            let j = choose|j: int| 0 <= j < b.len() && b[j] == a[k];
            assert(gb[j].pattern == p);
        }
        if widest(gb, p) != 0 {
            let k = choose|k: int|
                0 <= k < gb.len() && (#[trigger] gb[k]).pattern == p && gb[k].width == widest(
                    gb,
                    p,
                );
            assert(b.contains(b[k]));
            let j = choose|j: int| 0 <= j < a.len() && a[j] == b[k];
            assert(ga[j].pattern == p);
        }
    }
}

/// The text of a stem.
pub open spec fn stem_text(a: Stem) -> Seq<char> {
    a.prefix + a.rest
}

/// What a name says when it stands alone, if it is a name.
pub open spec fn said_by(t: Seq<char>) -> Option<Seq<Written>> {
    if t.len() > 0 && !is_separator(t[0]) {
        match parse_name(t, 0, reading_start()) {
            Ok((st, next)) => if next == t.len() {
                match finish(st) {
                    Ok(found) => Some(found),
                    Err(_) => None,
                }
            } else {
                None
            },
            Err(_) => None,
        }
    } else {
        None
    }
}

/// What holds of each stem while the numbers are folded: what is left of
/// the pattern is plain text and numerals and does not end in a numeral;
/// where it has a numeral, the rest begins with a number; and the text of
/// the stem is a name.
pub open spec fn stem_ok(a: Stem) -> bool {
    &&& settled_text(a.prefix)
    &&& numeral_end(a.prefix) > 0 ==> a.rest.len() > 0 && (is_digit(a.rest[0]) || a.rest[0] == '[')
    &&& said_by(stem_text(a)) is Some
}

pub open spec fn stems_ok(items: Seq<Stem>) -> bool {
    forall|k: int| 0 <= k < items.len() ==> stem_ok(#[trigger] items[k])
}

/// Whether one of the stems says the pattern.
pub open spec fn said_in(items: Seq<Stem>, w: Written) -> bool {
    exists|k: int|
        0 <= k < items.len() && said_by(stem_text(#[trigger] items[k])) is Some && said_by(
            stem_text(items[k]),
        )->Some_0.contains(w)
}

/// What the stems say, one after the other.
pub open spec fn all_said(items: Seq<Stem>) -> Seq<Written>
    decreases items.len(),
{
    if items.len() == 0 {
        Seq::empty()
    } else {
        said_by(stem_text(items[0]))->Some_0 + all_said(items.drop_first())
    }
}

pub proof fn lemma_all_said(items: Seq<Stem>, w: Written)
    requires
        stems_ok(items),
    ensures
        all_said(items).contains(w) <==> said_in(items, w),
    decreases items.len(),
{
    if items.len() > 0 {
        let first = said_by(stem_text(items[0]))->Some_0;
        let rest = items.drop_first();
        assert(stem_ok(items[0]));
        assert forall|k: int| 0 <= k < rest.len() implies stem_ok(#[trigger] rest[k]) by {
            assert(stem_ok(items[k + 1]));
        }
        lemma_all_said(rest, w);
        let all = all_said(items);
        assert(all == first + all_said(rest));
        if all.contains(w) {
            let k = choose|k: int| 0 <= k < all.len() && all[k] == w;
            if k < first.len() {
                assert(first[k] == w);
                assert(first.contains(w));
                assert(said_by(stem_text(items[0])) is Some);
            } else {
                assert(all_said(rest)[k - first.len()] == w);
                assert(all_said(rest).contains(w));
                let j = choose|j: int|
                    0 <= j < rest.len() && said_by(stem_text(#[trigger] rest[j])) is Some
                        && said_by(stem_text(rest[j]))->Some_0.contains(w);
                assert(rest[j] == items[j + 1]);
                assert(said_by(stem_text(items[j + 1])) is Some);
            }
        }
        if said_in(items, w) {
            let j = choose|j: int|
                0 <= j < items.len() && said_by(stem_text(#[trigger] items[j])) is Some && said_by(
                    stem_text(items[j]),
                )->Some_0.contains(w);
            if j == 0 {
                let k = choose|k: int| 0 <= k < first.len() && first[k] == w;
                assert(all[k] == w);
            } else {
                assert(rest[j - 1] == items[j]);
                assert(said_by(stem_text(rest[j - 1])) is Some);
                assert(said_in(rest, w));
                let k = choose|k: int| 0 <= k < all_said(rest).len() && all_said(rest)[k] == w;
                assert(all[first.len() + k] == w);
            }
        }
    } else {
        if said_in(items, w) {
            let j = choose|j: int|
                0 <= j < items.len() && said_by(stem_text(#[trigger] items[j])) is Some && said_by(
                    stem_text(items[j]),
                )->Some_0.contains(w);
        }
    }
}

pub proof fn lemma_stems_text_first(items: Seq<Stem>)
    requires
        items.len() >= 2,
    ensures
        stems_text(items) == stem_text(items[0]) + seq![','] + stems_text(items.drop_first()),
    decreases items.len(),
{
    let front = items.drop_last();
    let rest = items.drop_first();
    if items.len() == 2 {
        assert(front.len() == 1 && front[0] == items[0]);
        assert(rest.len() == 1 && rest[0] == items[1]);
        assert(stems_text(front) == stem_text(front[0]));
        assert(stems_text(rest) == stem_text(rest[0]));
        assert(items.last() == items[1]);
    } else {
        lemma_stems_text_first(front);
        assert(front.drop_first() =~= rest.drop_last());
        assert(front[0] == items[0]);
        assert(rest.last() == items.last());
        assert(stems_text(items) =~= stem_text(items[0]) + seq![','] + stems_text(rest));
    }
}

/// The text of stems that are names says what the stems say, one after the
/// other.
pub proof fn lemma_items_text(s: Seq<char>, i: int, items: Seq<Stem>, acc: Seq<Written>)
    requires
        stems_ok(items),
        occurs(s, i, stems_text(items)),
        i + stems_text(items).len() == s.len(),
    ensures
        parse_text(s, i, acc) == Ok::<Seq<Written>, ParseError>(acc + all_said(items)),
    decreases items.len(),
{
    if items.len() == 0 {
        assert(acc + all_said(items) =~= acc);
    } else {
        let t = stem_text(items[0]);
        assert(stem_ok(items[0]));
        let read = parse_name(t, 0, reading_start());
        let st = read->Ok_0.0;
        let found = finish(st)->Ok_0;
        let acc2 = acc + found;
        if items.len() == 1 {
            assert(stems_text(items) == t);
            assert(stands(s, i, t));
            lemma_cut_name(s, i, t, 0, reading_start());
            lemma_occurs_at(s, i, t, 0);
            assert(parse_text(s, i, acc) == parse_text(s, i + t.len(), acc2));
            assert(all_said(items.drop_first()) =~= Seq::<Written>::empty());
            assert(acc2 =~= acc + all_said(items));
        } else {
            let rest = items.drop_first();
            lemma_stems_text_first(items);
            let more = seq![','] + stems_text(rest);
            assert(stems_text(items) =~= t + more);
            lemma_occurs_concat(s, i, t, more);
            lemma_occurs_concat(s, i + t.len(), seq![','], stems_text(rest));
            lemma_occurs_at(s, i + t.len(), seq![','], 0);
            lemma_occurs_at(s, i, t, 0);
            let mid = i + t.len();
            assert(is_separator(s[mid]));
            assert(stands(s, i, t));
            lemma_cut_name(s, i, t, 0, reading_start());
            assert forall|k: int| 0 <= k < rest.len() implies stem_ok(#[trigger] rest[k]) by {
                assert(stem_ok(items[k + 1]));
            }
            lemma_items_text(s, mid + 1, rest, acc2);
            assert(acc2 + all_said(rest) =~= acc + all_said(items));
            assert(parse_text(s, i, acc) == parse_text(s, mid, acc2));
            assert(parse_text(s, mid, acc2) == parse_text(s, mid + 1, acc2));
        }
    }
}

/// A stem with a numeral is its head, the numeral, and plain text after
/// it.
pub proof fn lemma_stem_parts(a: Stem)
    requires
        settled_text(a.prefix),
        numeral_end(a.prefix) > 0,
    ensures
        a.prefix == head_of(a) + numeral_of(a) + mid_of(a),
        settled_text(head_of(a)),
        mid_of(a).len() > 0,
        all_plain(mid_of(a)),
        numeral_of(a).len() > 0,
        crate::numeral::all_digits(numeral_of(a)),
{
    let p = a.prefix;
    lemma_numeral_bounds(p);
    lemma_numeral_end(p);
    lemma_numeral_start(p, numeral_end(p));
    let ne = numeral_end(p);
    let ns = numeral_start(p, ne);
    assert(p =~= head_of(a) + numeral_of(a) + mid_of(a));
    assert(is_plain(p.last()));
    assert(ne < p.len()) by {
        if ne == p.len() {
            assert(is_digit(p[ne - 1]));
        }
    }
    let h = head_of(a);
    assert forall|k: int| 0 <= k < h.len() implies is_plain(#[trigger] h[k]) || is_digit(h[k]) by {
        assert(h[k] == p[k]);
    }
    if h.len() > 0 {
        assert(h.last() == p[ns - 1]);
        assert(is_plain(p[ns - 1]) || is_digit(p[ns - 1]));
    }
    let m = mid_of(a);
    assert forall|k: int| 0 <= k < m.len() implies is_plain(#[trigger] m[k]) by {
        assert(m[k] == p[ne + k]);
        assert(is_plain(p[ne + k]) || is_digit(p[ne + k]));
    }
    let d = numeral_of(a);
    assert forall|k: int| 0 <= k < d.len() implies is_digit(#[trigger] d[k]) by {
        assert(d[k] == p[ns + k]);
    }
}

/// Where a number follows, a name is read on the same from names that
/// settle alike.
pub proof fn lemma_number_step(s: Seq<char>, p: int, st1: Reading, st2: Reading)
    requires
        0 <= p < s.len(),
        is_digit(s[p]) || s[p] == '[',
        !adjacent(st1),
        !adjacent(st2),
        settle(st1) == settle(st2),
    ensures
        parse_name(s, p, st1) == parse_name(s, p, st2),
{
    if s[p] == '[' {
        match parse_items(s, p + 1, Seq::empty(), 0) {
            Err(e) => {},
            Ok(listed) => {
                let number = Pending::Bracket(listed.runs, listed.width);
                assert(with_number(st1, number) == with_number(st2, number));
            },
        }
    } else {
        let number = Pending::Numerals(seq![s.subrange(p, digits_end(s, p))]);
        assert(with_number(st1, number) == with_number(st2, number));
    }
}

/// The name as it is when a number before the rest has been read.
pub open spec fn before_rest(head: Seq<char>, runs: Seq<Run>, width: nat, mid: Seq<char>) -> Reading {
    Reading { heads: seq![head], pending: slot_pending(runs, width), tail: mid }
}

/// Where the rest begins in a name that is a head, a number, plain text and
/// the rest.
pub open spec fn rest_at(head: Seq<char>, runs: Seq<Run>, width: nat, mid: Seq<char>) -> int {
    (head.len() + render_ids(runs, width).len() + mid.len()) as int
}

/// The heads alone, nothing pending.
pub open spec fn plain_heads(heads: Seq<Seq<char>>) -> Reading {
    Reading { heads, pending: Pending::Nothing, tail: Seq::empty() }
}

/// A name that is a head, a number, plain text and a rest that begins with
/// a number is read up to the rest as the head with each identifier of the
/// number and the plain text after it.
pub proof fn lemma_read_numbered(
    t: Seq<char>,
    head: Seq<char>,
    runs: Seq<Run>,
    width: nat,
    mid: Seq<char>,
    rest: Seq<char>,
)
    requires
        t == head + render_ids(runs, width) + mid + rest,
        settled_text(head),
        runs.len() >= 1,
        runs_valid(runs),
        mid.len() > 0,
        all_plain(mid),
        rest.len() > 0,
        is_digit(rest[0]) || rest[0] == '[',
    ensures
        parse_name(t, 0, reading_start()) == parse_name(
            t,
            rest_at(head, runs, width, mid),
            plain_heads(settle(before_rest(head, runs, width, mid))),
        ),
        t.skip(rest_at(head, runs, width, mid)) == rest,
        t.len() == rest_at(head, runs, width, mid) + rest.len(),
        t.len() > 0,
        !is_separator(t[0]),
{
    let shown = render_ids(runs, width);
    let start = reading_start();
    let e = head.len() as int;
    let after = e + shown.len();
    let at = after + mid.len();
    assert(t.subrange(0, t.len() as int) =~= t);
    assert(occurs(t, 0, head + shown + mid + rest));
    lemma_occurs_concat(t, 0, head + shown + mid, rest);
    lemma_occurs_concat(t, 0, head + shown, mid);
    lemma_occurs_concat(t, 0, head, shown);
    assert(flat(start) =~= Seq::<char>::empty());
    assert forall|k: int| 0 <= k < e implies is_plain(#[trigger] t[k]) || is_digit(t[k]) by {
        lemma_occurs_at(t, 0, head, k);
    }
    if e > 0 {
        lemma_occurs_at(t, 0, head, e - 1);
        assert(head.last() == head[e - 1]);
    }
    let st_h = lemma_scan_text(t, 0, e, start);
    assert(t.subrange(0, e) == head);
    assert(flat(st_h) =~= head);
    lemma_occurs_at(t, after, mid, 0);
    assert(is_plain(mid[0]));
    lemma_slot(t, e, st_h, runs, width);
    let st_q = Reading {
        heads: seq![flat(st_h)],
        pending: slot_pending(runs, width),
        tail: Seq::<char>::empty(),
    };
    assert forall|k: int| after <= k < at implies is_plain(#[trigger] t[k]) by {
        lemma_occurs_at(t, after, mid, k - after);
    }
    lemma_scan_tail(t, after, at, st_q);
    let q = before_rest(head, runs, width, mid);
    assert(t.subrange(after, at) == mid);
    assert(Seq::<char>::empty() + mid =~= mid);
    assert(q == Reading {
        heads: st_q.heads,
        pending: st_q.pending,
        tail: st_q.tail + t.subrange(after, at),
    });
    lemma_occurs_at(t, at, rest, 0);
    lemma_number_step(t, at, q, plain_heads(settle(q)));
    assert(t.skip(at) =~= rest);
    assert(runs[0].start <= runs[0].end);
    lemma_padded(runs[0].start as nat, width);
    if e > 0 {
        lemma_occurs_at(t, 0, head, 0);
    } else {
        lemma_occurs_at(t, e, shown, 0);
    }
}

/// What a pattern that is read says for one of its heads.
pub open spec fn written_of(st: Reading, head: Seq<char>) -> Written {
    match st.pending {
        Pending::Nothing => Written {
            pattern: head,
            runs: seq![Run { start: 0, end: 0 }],
            width: 0,
        },
        Pending::Numerals(numerals) => Written {
            pattern: head.push(SLOT) + st.tail,
            runs: singles(numerals),
            width: widest_numeral(numerals),
        },
        Pending::Bracket(runs, width) => Written {
            pattern: head.push(SLOT) + st.tail,
            runs,
            width,
        },
    }
}

/// Whether the pending number of a name can be a slot.
pub open spec fn finishes(st: Reading) -> bool {
    match st.pending {
        Pending::Numerals(numerals) => !too_large(numerals),
        _ => true,
    }
}

/// A name says something exactly if its pending number can be a slot.
pub proof fn lemma_finishes(st: Reading)
    ensures
        finish(st) is Ok <==> finishes(st),
{
}

/// What a name says: for each of its heads one pattern.
pub proof fn lemma_finish(st: Reading, w: Written)
    ensures
        finish(st) is Ok <==> finishes(st),
        finishes(st) ==> (finish(st)->Ok_0.contains(w) <==> exists|k: int|
            0 <= k < st.heads.len() && w == written_of(st, #[trigger] st.heads[k])),
{
    if finishes(st) {
        let found = finish(st)->Ok_0;
        assert(found.len() == st.heads.len());
        if found.contains(w) {
            let k = choose|k: int| 0 <= k < found.len() && found[k] == w;
            assert(w == written_of(st, st.heads[k]));
        }
        if exists|k: int| 0 <= k < st.heads.len() && w == written_of(st, #[trigger] st.heads[k]) {
            let k = choose|k: int|
                0 <= k < st.heads.len() && w == written_of(st, #[trigger] st.heads[k]);
            assert(found[k] == w);
        }
    }
}

/// What is read from several heads holds a head exactly if what is read
/// from one of them holds it, and is otherwise what is read from any of
/// them.
pub proof fn lemma_linear_all(s: Seq<char>, i: int, st: Reading, x: Seq<Seq<char>>, h: Seq<char>)
    ensures
        forall|e: int|
            0 <= e < x.len() ==> outline(parse_name(s, i, with_heads(st, x))) == outline(
                parse_name(s, i, with_heads(st, seq![#[trigger] x[e]])),
            ),
        heads_read(parse_name(s, i, with_heads(st, x))).contains(h) <==> exists|e: int|
            0 <= e < x.len() && heads_read(
                parse_name(s, i, with_heads(st, seq![#[trigger] x[e]])),
            ).contains(h),
    decreases x.len(),
{
    let all = heads_read(parse_name(s, i, with_heads(st, x)));
    if x.len() == 0 {
        lemma_linear(s, i, st, x, x);
        assert(x + x =~= x);
        assert(all.len() == 0);
        if exists|e: int|
            0 <= e < x.len() && heads_read(
                parse_name(s, i, with_heads(st, seq![#[trigger] x[e]])),
            ).contains(h) {
            let e = choose|e: int|
                0 <= e < x.len() && heads_read(
                    parse_name(s, i, with_heads(st, seq![#[trigger] x[e]])),
                ).contains(h);
        }
    } else {
        let front = x.drop_last();
        let last = seq![x.last()];
        assert(front + last =~= x);
        lemma_linear(s, i, st, front, last);
        lemma_linear_all(s, i, st, front, h);
        let hf = heads_read(parse_name(s, i, with_heads(st, front)));
        let hl = heads_read(parse_name(s, i, with_heads(st, last)));
        assert(all == hf + hl);
        assert forall|e: int| 0 <= e < x.len() implies outline(
            parse_name(s, i, with_heads(st, x)),
        ) == outline(parse_name(s, i, with_heads(st, seq![#[trigger] x[e]]))) by {
            if e < front.len() {
                assert(front[e] == x[e]);
            } else {
                assert(seq![x[e]] =~= last);
            }
        }
        if all.contains(h) {
            let k = choose|k: int| 0 <= k < all.len() && all[k] == h;
            if k < hf.len() {
                assert(hf[k] == h);
                assert(hf.contains(h));
                let e = choose|e: int|
                    0 <= e < front.len() && heads_read(
                        parse_name(s, i, with_heads(st, seq![#[trigger] front[e]])),
                    ).contains(h);
                assert(front[e] == x[e]);
                assert(heads_read(parse_name(s, i, with_heads(st, seq![x[e]]))).contains(h));
            } else {
                assert(hl[k - hf.len()] == h);
                assert(hl.contains(h));
                assert(seq![x[x.len() - 1]] =~= last);
                assert(heads_read(
                    parse_name(s, i, with_heads(st, seq![x[x.len() - 1]])),
                ).contains(h));
            }
        }
        if exists|e: int|
            0 <= e < x.len() && heads_read(
                parse_name(s, i, with_heads(st, seq![#[trigger] x[e]])),
            ).contains(h) {
            let e = choose|e: int|
                0 <= e < x.len() && heads_read(
                    parse_name(s, i, with_heads(st, seq![#[trigger] x[e]])),
                ).contains(h);
            if e < front.len() {
                assert(front[e] == x[e]);
                assert(heads_read(
                    parse_name(s, i, with_heads(st, seq![front[e]])),
                ).contains(h));
                assert(hf.contains(h));
                let k = choose|k: int| 0 <= k < hf.len() && hf[k] == h;
                assert(all[k] == h);
            } else {
                assert(seq![x[e]] =~= last);
                let k = choose|k: int| 0 <= k < hl.len() && hl[k] == h;
                assert(all[hf.len() + k] == h);
            }
        }
    }
}

/// The width with which the identifiers of a number are read back: that
/// with which they are written where there is one identifier, else what the
/// starts of the runs show.
pub open spec fn read_width(runs: Seq<Run>, width: nat) -> nat {
    if runs.len() == 1 && runs[0].start == runs[0].end {
        width
    } else {
        asked(runs, width)
    }
}

/// The heads of a name when its number before the rest has become part of
/// the text: the head with each identifier of the number and the plain
/// text after it.
pub proof fn lemma_settled_heads(
    head: Seq<char>,
    runs: Seq<Run>,
    width: nat,
    mid: Seq<char>,
    x: Seq<char>,
)
    requires
        runs.len() >= 1,
        runs_valid(runs),
    ensures
        settle(before_rest(head, runs, width, mid)).contains(x) <==> exists|v: int|
            runs_hold(runs, v) && x == #[trigger] numbered(
                head,
                v,
                read_width(runs, width),
                mid,
            ),
{
    let q = before_rest(head, runs, width, mid);
    let all = settle(q);
    let heads = seq![head];
    assert(heads.drop_last() =~= Seq::<Seq<char>>::empty());
    assert(heads.last() == head);
    assert(runs[0].start <= runs[0].end);
    if runs.len() == 1 && runs[0].start == runs[0].end {
        let v0 = runs[0].start as int;
        let numerals = seq![padded(v0 as nat, width)];
        assert(cross(heads.drop_last(), numerals, mid) =~= Seq::<Seq<char>>::empty());
        let each = extend_each(head, numerals, mid);
        assert(each[0] == numbered(head, v0, width, mid));
        assert(all =~= seq![numbered(head, v0, width, mid)]);
        assert(read_width(runs, width) == width);
        if all.contains(x) {
            let k = choose|k: int| 0 <= k < all.len() && all[k] == x;
            assert(run_holds(runs[0], v0));
            assert(runs_hold(runs, v0) && x == numbered(head, v0, width, mid));
        }
        if exists|v: int| runs_hold(runs, v) && x == #[trigger] numbered(head, v, width, mid) {
            let v = choose|v: int| runs_hold(runs, v) && x == #[trigger] numbered(head, v, width, mid);
            let k = choose|k: int| 0 <= k < runs.len() && #[trigger] run_holds(runs[k], v);
            assert(v == v0);
            assert(all[0] == x);
        }
    } else {
        let w = asked(runs, width);
        assert(read_width(runs, width) == w);
        assert(slot_pending(runs, width) == Pending::Bracket(runs, w));
        assert(expand(heads.drop_last(), runs, w, mid) =~= Seq::<Seq<char>>::empty());
        assert(all =~= spread(head, runs, w, mid));
        lemma_spread_has(head, runs, w, mid, x);
    }
}

/// An identifier of runs is written the same with the width that is read
/// back as with the width with which the runs are written.
pub proof fn lemma_read_width(runs: Seq<Run>, width: nat, v: int)
    requires
        runs_valid(runs),
        runs_hold(runs, v),
    ensures
        padded(v as nat, read_width(runs, width)) == padded(v as nat, width),
{
    if !(runs.len() == 1 && runs[0].start == runs[0].end) {
        lemma_asked(runs, width);
        if asked(runs, width) != width {
            let k = choose|k: int| 0 <= k < runs.len() && #[trigger] run_holds(runs[k], v);
            assert(shown_width(runs[k].start as nat, width) == 0);
            lemma_decimal_len(runs[k].start as nat, v as nat);
        }
    }
}

/// Whether the stems from `i` to `j` are a block: the first can begin one,
/// the others belong to it, and all are stems as they should be.
pub open spec fn in_block(items: Seq<Stem>, i: int, j: int) -> bool {
    &&& 0 <= i < j <= items.len()
    &&& leads(items[i])
    &&& forall|k: int| i < k < j ==> joins(items[i], #[trigger] items[k])
    &&& forall|k: int| i <= k < j ==> stem_ok(#[trigger] items[k])
}

/// Whether one of the stems from `i` to `j` says the pattern.
pub open spec fn block_says(items: Seq<Stem>, i: int, j: int, w: Written) -> bool {
    exists|k: int|
        i <= k < j && said_by(stem_text(#[trigger] items[k])) is Some && said_by(
            stem_text(items[k]),
        )->Some_0.contains(w)
}

/// The head with the numeral of a member of a block and the plain text
/// after it.
pub open spec fn member_head(items: Seq<Stem>, i: int, k: int) -> Seq<char> {
    numbered(
        head_of(items[i]),
        numeral_value(numeral_of(items[k])) as int,
        numeral_width(numeral_of(items[i])),
        mid_of(items[i]),
    )
}

/// What holds of the numeral of each member of a block.
pub proof fn lemma_member_numeral(items: Seq<Stem>, i: int, j: int, k: int)
    requires
        in_block(items, i, j),
        i <= k < j,
    ensures
        numeral_value(numeral_of(items[k])) <= u32::MAX,
        padded(numeral_value(numeral_of(items[k])), numeral_width(numeral_of(items[i])))
            == numeral_of(items[k]),
        stem_text(items[k]) == member_head(items, i, k) + items[i].rest,
        block_values(items, i, j)[k - i] == numeral_value(numeral_of(items[k])),
        values_hold(block_values(items, i, j), numeral_value(numeral_of(items[k])) as int),
        member_head(items, i, k) == head_of(items[i]) + numeral_of(items[k]) + mid_of(items[i]),
{
    let a = items[i];
    let b = items[k];
    assert(stem_ok(a) && stem_ok(b));
    lemma_stem_parts(a);
    lemma_stem_parts(b);
    let d = numeral_of(b);
    let v = numeral_value(d);
    let w = numeral_width(numeral_of(a));
    assert(fits(d, w));
    let t = stem_text(b);
    assert(t =~= head_of(a) + d + mid_of(a) + a.rest);
    let values = block_values(items, i, j);
    assert(values[k - i] == v as u32);
}

/// What holds of each member of a block.
pub proof fn lemma_member(items: Seq<Stem>, i: int, j: int, k: int)
    requires
        in_block(items, i, j),
        i <= k < j,
    ensures
        numeral_value(numeral_of(items[k])) <= u32::MAX,
        padded(numeral_value(numeral_of(items[k])), numeral_width(numeral_of(items[i])))
            == numeral_of(items[k]),
        stem_text(items[k]) == member_head(items, i, k) + items[i].rest,
        block_values(items, i, j)[k - i] == numeral_value(numeral_of(items[k])),
        values_hold(block_values(items, i, j), numeral_value(numeral_of(items[k])) as int),
        parse_name(stem_text(items[k]), 0, reading_start()) == parse_name(
            stem_text(items[k]),
            member_head(items, i, k).len() as int,
            plain_heads(seq![member_head(items, i, k)]),
        ),
        stem_text(items[k]).skip(member_head(items, i, k).len() as int) == items[i].rest,
{
    lemma_member_numeral(items, i, j, k);
    let a = items[i];
    assert(stem_ok(a));
    lemma_stem_parts(a);
    let d = numeral_of(items[k]);
    let v = numeral_value(d);
    let w = numeral_width(numeral_of(a));
    let head = head_of(a);
    let mid = mid_of(a);
    let rest = a.rest;
    let t = stem_text(items[k]);
    let one = seq![Run { start: v as u32, end: v as u32 }];
    assert(render_ids(one, w) == d);
    assert(t =~= head + render_ids(one, w) + mid + rest);
    lemma_read_numbered(t, head, one, w, mid, rest);
    lemma_single_head(head, d, mid);
    assert(slot_pending(one, w) == Pending::Numerals(seq![d]));
    assert(member_head(items, i, k).len() == rest_at(head, one, w, mid));
}

/// One head with one numeral settles into one text.
pub proof fn lemma_single_head(head: Seq<char>, d: Seq<char>, mid: Seq<char>)
    ensures
        settle(Reading { heads: seq![head], pending: Pending::Numerals(seq![d]), tail: mid })
            == seq![head + d + mid],
{
    let heads = seq![head];
    let numerals = seq![d];
    assert(heads.drop_last() =~= Seq::<Seq<char>>::empty());
    assert(cross(heads.drop_last(), numerals, mid) =~= Seq::<Seq<char>>::empty());
    let each = extend_each(head, numerals, mid);
    assert(each[0] == head + d + mid);
    assert(cross(heads, numerals, mid) =~= seq![head + d + mid]);
}

/// Whether the text is the head of a member of the block.
pub open spec fn is_member_head(items: Seq<Stem>, i: int, j: int, x: Seq<char>) -> bool {
    exists|k: int| i <= k < j && #[trigger] member_head(items, i, k) == x
}

/// The runs that stand for a block.
pub open spec fn block_runs(items: Seq<Stem>, i: int, j: int) -> Seq<Run> {
    normal_form(values_set(block_values(items, i, j)))
}

/// The heads of a block when its number has become part of the text.
pub open spec fn block_heads(items: Seq<Stem>, i: int, j: int) -> Seq<Seq<char>> {
    settle(
        before_rest(
            head_of(items[i]),
            block_runs(items, i, j),
            numeral_width(numeral_of(items[i])),
            mid_of(items[i]),
        ),
    )
}

/// Where the rest begins in the text of a block.
pub open spec fn block_at(items: Seq<Stem>, i: int, j: int) -> int {
    rest_at(
        head_of(items[i]),
        block_runs(items, i, j),
        numeral_width(numeral_of(items[i])),
        mid_of(items[i]),
    )
}

/// The runs of a block hold the identifiers of its members.
pub proof fn lemma_block_runs(items: Seq<Stem>, i: int, j: int)
    requires
        in_block(items, i, j),
    ensures
        normalized(block_runs(items, i, j)),
        block_runs(items, i, j).len() >= 1,
        forall|v: int|
            runs_hold(block_runs(items, i, j), v) == values_hold(block_values(items, i, j), v),
{
    let values = block_values(items, i, j);
    let set = values_set(values);
    let runs = normal_form(set);
    assert forall|v: int| set.contains(v) implies 0 <= v < crate::runs::ID_LIMIT by {
        assert(set.contains(v) == values_hold(values, v));
        let e = choose|e: int| 0 <= e < values.len() && (#[trigger] values[e]) == v;
    }
    lemma_normal_form(set);
    lemma_member(items, i, j, i);
    let v_first = numeral_value(numeral_of(items[i])) as int;
    assert(set.contains(v_first));
    assert forall|v: int| runs_hold(runs, v) == values_hold(values, v) by {
        assert(runs_set(runs).contains(v) == runs_hold(runs, v));
        assert(set.contains(v) == values_hold(values, v));
    }
}

/// The text of a block is read up to the rest as the heads of its members.
pub proof fn lemma_block_heads(items: Seq<Stem>, i: int, j: int)
    requires
        in_block(items, i, j),
    ensures
        parse_name(stem_text(merged(items, i, j)), 0, reading_start()) == parse_name(
            stem_text(merged(items, i, j)),
            block_at(items, i, j),
            plain_heads(block_heads(items, i, j)),
        ),
        stem_text(merged(items, i, j)).skip(block_at(items, i, j)) == items[i].rest,
        stem_text(merged(items, i, j)).len() == block_at(items, i, j) + items[i].rest.len(),
        stem_text(merged(items, i, j)).len() > 0,
        !is_separator(stem_text(merged(items, i, j))[0]),
        merged(items, i, j).rest.len() > 0,
        is_digit(merged(items, i, j).rest[0]) || merged(items, i, j).rest[0] == '[',
        settled_text(merged(items, i, j).prefix),
        forall|e: int|
            0 <= e < block_heads(items, i, j).len() ==> is_member_head(
                items,
                i,
                j,
                #[trigger] block_heads(items, i, j)[e],
            ),
        forall|k: int|
            i <= k < j ==> block_heads(items, i, j).contains(#[trigger] member_head(items, i, k)),
{
    lemma_block_text(items, i, j);
    lemma_block_each(items, i, j);
}

/// The text of a block is read up to the rest as its heads.
pub proof fn lemma_block_text(items: Seq<Stem>, i: int, j: int)
    requires
        in_block(items, i, j),
    ensures
        parse_name(stem_text(merged(items, i, j)), 0, reading_start()) == parse_name(
            stem_text(merged(items, i, j)),
            block_at(items, i, j),
            plain_heads(block_heads(items, i, j)),
        ),
        stem_text(merged(items, i, j)).skip(block_at(items, i, j)) == items[i].rest,
        stem_text(merged(items, i, j)).len() == block_at(items, i, j) + items[i].rest.len(),
        stem_text(merged(items, i, j)).len() > 0,
        !is_separator(stem_text(merged(items, i, j))[0]),
        merged(items, i, j).rest.len() > 0,
        is_digit(merged(items, i, j).rest[0]) || merged(items, i, j).rest[0] == '[',
        settled_text(merged(items, i, j).prefix),
{
    let a = items[i];
    let head = head_of(a);
    let mid = mid_of(a);
    let rest = a.rest;
    let width = numeral_width(numeral_of(a));
    let runs = block_runs(items, i, j);
    let m = merged(items, i, j);
    let t = stem_text(m);
    assert(stem_ok(a));
    lemma_stem_parts(a);
    lemma_block_runs(items, i, j);
    assert(t =~= head + render_ids(runs, width) + mid + rest);
    lemma_read_numbered(t, head, runs, width, mid, rest);
    assert(runs[0].start <= runs[0].end);
    lemma_padded(runs[0].start as nat, width);
    assert(m.rest[0] == render_ids(runs, width)[0]);
}

/// The heads of a block are the heads of its members.
pub proof fn lemma_block_each(items: Seq<Stem>, i: int, j: int)
    requires
        in_block(items, i, j),
    ensures
        forall|e: int|
            0 <= e < block_heads(items, i, j).len() ==> is_member_head(
                items,
                i,
                j,
                #[trigger] block_heads(items, i, j)[e],
            ),
        forall|k: int|
            i <= k < j ==> block_heads(items, i, j).contains(#[trigger] member_head(items, i, k)),
{
    let a = items[i];
    let head = head_of(a);
    let mid = mid_of(a);
    let width = numeral_width(numeral_of(a));
    let values = block_values(items, i, j);
    let runs = block_runs(items, i, j);
    let all = block_heads(items, i, j);
    lemma_block_runs(items, i, j);
    assert forall|e: int| 0 <= e < all.len() implies is_member_head(
        items,
        i,
        j,
        #[trigger] all[e],
    ) by {
        let x = all[e];
        assert(all.contains(x));
        lemma_settled_heads(head, runs, width, mid, x);
        let v = choose|v: int|
            runs_hold(runs, v) && x == #[trigger] numbered(
                head,
                v,
                read_width(runs, width),
                mid,
            );
        lemma_read_width(runs, width, v);
        let n = choose|n: int| 0 <= n < values.len() && (#[trigger] values[n]) == v;
        lemma_member_numeral(items, i, j, i + n);
        assert(member_head(items, i, i + n) == x);
    }
    assert forall|k: int| i <= k < j implies all.contains(#[trigger] member_head(items, i, k)) by {
        lemma_member_numeral(items, i, j, k);
        let v = numeral_value(numeral_of(items[k])) as int;
        assert(runs_hold(runs, v));
        lemma_read_width(runs, width, v);
        lemma_settled_heads(head, runs, width, mid, member_head(items, i, k));
        assert(member_head(items, i, k) == numbered(head, v, read_width(runs, width), mid));
    }
}

/// What is read of the rest from the head of a member of a block is what
/// is read of the member.
pub proof fn lemma_block_member(items: Seq<Stem>, i: int, j: int, k: int)
    requires
        in_block(items, i, j),
        i <= k < j,
    ensures
        parse_name(
            stem_text(merged(items, i, j)),
            block_at(items, i, j),
            plain_heads(seq![member_head(items, i, k)]),
        ) == shift_name(
            parse_name(stem_text(items[k]), 0, reading_start()),
            stem_text(merged(items, i, j)).len() - stem_text(items[k]).len(),
        ),
        parse_name(stem_text(items[k]), 0, reading_start()) matches Ok((st, next)) && next
            == stem_text(items[k]).len() && finishes(st),
{
    lemma_block_heads(items, i, j);
    lemma_member(items, i, j, k);
    let t = stem_text(merged(items, i, j));
    let at = block_at(items, i, j);
    let tk = stem_text(items[k]);
    let pk = member_head(items, i, k).len() as int;
    assert(same_from(t, at, tk, pk));
    lemma_suffix_name(t, at, tk, pk, plain_heads(seq![member_head(items, i, k)]));
    assert(stem_ok(items[k]));
    let st = parse_name(tk, 0, reading_start())->Ok_0.0;
    lemma_finishes(st);
}

/// A block reads as its members do: the stem that stands for it says what
/// they say, and is a stem as it should be.
pub proof fn lemma_block(items: Seq<Stem>, i: int, j: int)
    requires
        in_block(items, i, j),
    ensures
        stem_ok(merged(items, i, j)),
        forall|w: Written|
            said_by(stem_text(merged(items, i, j)))->Some_0.contains(w) <==> block_says(
                items,
                i,
                j,
                w,
            ),
{
    let t = stem_text(merged(items, i, j));
    let at = block_at(items, i, j);
    let all = block_heads(items, i, j);
    let base = plain_heads(all);
    lemma_block_heads(items, i, j);
    assert(with_heads(base, all) == base);
    let read = parse_name(t, at, base);
    let first = member_head(items, i, i);
    assert(all.contains(first));
    let e0 = choose|e: int| 0 <= e < all.len() && all[e] == first;
    lemma_linear_all(t, at, base, all, Seq::<char>::empty());
    assert(with_heads(base, seq![all[e0]]) == plain_heads(seq![first]));
    lemma_block_member(items, i, j, i);
    assert(read is Ok);
    let st = read->Ok_0.0;
    assert(read->Ok_0.1 == t.len());
    assert(finishes(st));
    lemma_finishes(st);
    assert(said_by(t) is Some);
    assert forall|w: Written| said_by(t)->Some_0.contains(w) <==> block_says(items, i, j, w) by {
        lemma_block_word(items, i, j, w);
    }
}

/// A block says a pattern exactly if one of its members says it.
pub proof fn lemma_block_word(items: Seq<Stem>, i: int, j: int, w: Written)
    requires
        in_block(items, i, j),
    ensures
        said_by(stem_text(merged(items, i, j))) is Some ==> (said_by(
            stem_text(merged(items, i, j)),
        )->Some_0.contains(w) <==> block_says(items, i, j, w)),
{
    let t = stem_text(merged(items, i, j));
    let at = block_at(items, i, j);
    let all = block_heads(items, i, j);
    let base = plain_heads(all);
    lemma_block_heads(items, i, j);
    assert(with_heads(base, all) == base);
    let read = parse_name(t, at, base);
    if said_by(t) is Some {
        let st = read->Ok_0.0;
        lemma_finish(st, w);
        if exists|n: int| 0 <= n < st.heads.len() && w == written_of(st, #[trigger] st.heads[n]) {
            let n = choose|n: int|
                0 <= n < st.heads.len() && w == written_of(st, #[trigger] st.heads[n]);
            let h = st.heads[n];
            assert(heads_read(read).contains(h));
            lemma_linear_all(t, at, base, all, h);
            let e = choose|e: int|
                0 <= e < all.len() && heads_read(
                    parse_name(t, at, with_heads(base, seq![#[trigger] all[e]])),
                ).contains(h);
            assert(is_member_head(items, i, j, all[e]));
            let k = choose|k: int| i <= k < j && #[trigger] member_head(items, i, k) == all[e];
            assert(with_heads(base, seq![all[e]]) == plain_heads(seq![member_head(items, i, k)]));
            lemma_block_member(items, i, j, k);
            let rk = parse_name(stem_text(items[k]), 0, reading_start());
            let sk = rk->Ok_0.0;
            assert(sk.heads.contains(h));
            let n2 = choose|n2: int| 0 <= n2 < sk.heads.len() && sk.heads[n2] == h;
            assert(written_of(sk, sk.heads[n2]) == w);
            lemma_finish(sk, w);
            assert(stem_ok(items[k]));
            assert(said_by(stem_text(items[k]))->Some_0.contains(w));
        }
        if block_says(items, i, j, w) {
            let k = choose|k: int|
                i <= k < j && said_by(stem_text(#[trigger] items[k])) is Some && said_by(
                    stem_text(items[k]),
                )->Some_0.contains(w);
            lemma_block_member(items, i, j, k);
            let rk = parse_name(stem_text(items[k]), 0, reading_start());
            let sk = rk->Ok_0.0;
            lemma_finish(sk, w);
            let n2 = choose|n2: int|
                0 <= n2 < sk.heads.len() && w == written_of(sk, #[trigger] sk.heads[n2]);
            let h = sk.heads[n2];
            assert(all.contains(member_head(items, i, k)));
            let e = choose|e: int| 0 <= e < all.len() && all[e] == member_head(items, i, k);
            assert(with_heads(base, seq![all[e]]) == plain_heads(seq![member_head(items, i, k)]));
            assert(heads_read(parse_name(t, at, with_heads(base, seq![all[e]]))).contains(h));
            lemma_linear_all(t, at, base, all, h);
            assert(heads_read(read).contains(h));
            let n = choose|n: int| 0 <= n < st.heads.len() && st.heads[n] == h;
            assert(w == written_of(st, st.heads[n]));
        }
    }
}

pub proof fn lemma_block_joins(items: Seq<Stem>, i: int, j: int, k: int)
    requires
        0 <= i < j <= k < block_end(items, i, j),
    ensures
        joins(items[i], items[k]),
        k < items.len(),
    decreases items.len() - j,
{
    if j < items.len() && joins(items[i], items[j]) {
        if k > j {
            lemma_block_joins(items, i, j + 1, k);
        }
    }
}

/// A stem whose last numeral is moved to the rest has the text that it had,
/// and is a stem as it should be.
pub proof fn lemma_moved(a: Stem)
    requires
        stem_ok(a),
    ensures
        stem_ok(moved(a)),
        stem_text(moved(a)) == stem_text(a),
{
    let p = a.prefix;
    lemma_numeral_bounds(p);
    lemma_numeral_end(p);
    let ne = numeral_end(p);
    let ns = numeral_start(p, ne);
    assert(p =~= head_of(a) + numeral_of(a) + mid_of(a));
    assert(stem_text(moved(a)) =~= stem_text(a));
    if ne > 0 {
        lemma_stem_parts(a);
        assert(moved(a).rest[0] == numeral_of(a)[0]);
    } else {
        assert(head_of(a) =~= Seq::<char>::empty());
    }
    lemma_numeral_end(head_of(a));
}

pub proof fn lemma_said_push(acc: Seq<Stem>, m: Stem, w: Written)
    ensures
        said_in(acc.push(m), w) <==> (said_in(acc, w) || (said_by(stem_text(m)) is Some
            && said_by(stem_text(m))->Some_0.contains(w))),
{
    let ext = acc.push(m);
    if said_in(acc, w) {
        let k = choose|k: int|
            0 <= k < acc.len() && said_by(stem_text(#[trigger] acc[k])) is Some && said_by(
                stem_text(acc[k]),
            )->Some_0.contains(w);
        assert(ext[k] == acc[k]);
        assert(said_by(stem_text(ext[k])) is Some);
    }
    if said_by(stem_text(m)) is Some && said_by(stem_text(m))->Some_0.contains(w) {
        assert(ext[acc.len() as int] == m);
        assert(said_by(stem_text(ext[acc.len() as int])) is Some);
    }
    if said_in(ext, w) {
        let k = choose|k: int|
            0 <= k < ext.len() && said_by(stem_text(#[trigger] ext[k])) is Some && said_by(
                stem_text(ext[k]),
            )->Some_0.contains(w);
        if k < acc.len() {
            assert(acc[k] == ext[k]);
            assert(said_by(stem_text(acc[k])) is Some);
        }
    }
}

pub proof fn lemma_said_take(items: Seq<Stem>, i: int, j: int, w: Written)
    requires
        0 <= i <= j <= items.len(),
    ensures
        said_in(items.take(j), w) <==> (said_in(items.take(i), w) || block_says(items, i, j, w)),
{
    let a = items.take(i);
    let b = items.take(j);
    if said_in(a, w) {
        let k = choose|k: int|
            0 <= k < a.len() && said_by(stem_text(#[trigger] a[k])) is Some && said_by(
                stem_text(a[k]),
            )->Some_0.contains(w);
        assert(b[k] == a[k]);
        assert(said_by(stem_text(b[k])) is Some);
    }
    if block_says(items, i, j, w) {
        let k = choose|k: int|
            i <= k < j && said_by(stem_text(#[trigger] items[k])) is Some && said_by(
                stem_text(items[k]),
            )->Some_0.contains(w);
        assert(b[k] == items[k]);
        assert(said_by(stem_text(b[k])) is Some);
    }
    if said_in(b, w) {
        let k = choose|k: int|
            0 <= k < b.len() && said_by(stem_text(#[trigger] b[k])) is Some && said_by(
                stem_text(b[k]),
            )->Some_0.contains(w);
        if k < i {
            assert(a[k] == b[k]);
            assert(said_by(stem_text(a[k])) is Some);
        } else {
            assert(items[k] == b[k]);
            assert(said_by(stem_text(items[k])) is Some);
        }
    }
}

/// A round keeps what the stems say, and keeps them stems as they should
/// be.
pub proof fn lemma_round(items: Seq<Stem>, i: int, acc: Seq<Stem>)
    requires
        stems_ok(items),
        stems_ok(acc),
        0 <= i <= items.len(),
        forall|w: Written| said_in(acc, w) <==> said_in(items.take(i), w),
    ensures
        stems_ok(round_from(items, i, acc)),
        forall|w: Written| said_in(round_from(items, i, acc), w) <==> said_in(items, w),
    decreases items.len() - i,
{
    if i >= items.len() {
        assert(items.take(i) =~= items);
    } else {
        let a = items[i];
        assert(stem_ok(a));
        let j = block_end(items, i, i + 1);
        lemma_block_end(items, i, i + 1);
        if leads(a) && j >= i + 2 {
            assert(in_block(items, i, j)) by {
                assert forall|k: int| i < k < j implies joins(items[i], #[trigger] items[k]) by {
                    lemma_block_joins(items, i, i + 1, k);
                }
            }
            lemma_block(items, i, j);
            let m = merged(items, i, j);
            let acc2 = acc.push(m);
            assert(stems_ok(acc2)) by {
                assert forall|k: int| 0 <= k < acc2.len() implies stem_ok(#[trigger] acc2[k]) by {
                    if k < acc.len() {
                        assert(acc2[k] == acc[k]);
                    }
                }
            }
            assert forall|w: Written| said_in(acc2, w) <==> said_in(items.take(j), w) by {
                lemma_said_push(acc, m, w);
                lemma_said_take(items, i, j, w);
            }
            lemma_round(items, j, acc2);
        } else {
            lemma_moved(a);
            let m = moved(a);
            let acc2 = acc.push(m);
            assert(stems_ok(acc2)) by {
                assert forall|k: int| 0 <= k < acc2.len() implies stem_ok(#[trigger] acc2[k]) by {
                    if k < acc.len() {
                        assert(acc2[k] == acc[k]);
                    }
                }
            }
            assert forall|w: Written| said_in(acc2, w) <==> said_in(items.take(i + 1), w) by {
                lemma_said_push(acc, m, w);
                lemma_said_take(items, i, i + 1, w);
                if block_says(items, i, i + 1, w) {
                    let k = choose|k: int|
                        i <= k < i + 1 && said_by(stem_text(#[trigger] items[k])) is Some
                            && said_by(stem_text(items[k]))->Some_0.contains(w);
                    assert(k == i);
                }
                if said_by(stem_text(m))->Some_0.contains(w) {
                    assert(said_by(stem_text(items[i])) is Some);
                    assert(block_says(items, i, i + 1, w));
                }
            }
            lemma_round(items, i + 1, acc2);
        }
    }
}

/// Rounds keep what the stems say, and keep them stems as they should be.
pub proof fn lemma_rounds(items: Seq<Stem>, count: nat)
    requires
        stems_ok(items),
    ensures
        stems_ok(rounds(items, count)),
        forall|w: Written| said_in(rounds(items, count), w) <==> said_in(items, w),
    decreases count,
{
    if count > 0 {
        let none = Seq::<Stem>::empty();
        assert forall|w: Written| said_in(none, w) <==> said_in(items.take(0), w) by {
            if said_in(none, w) {
                let k = choose|k: int|
                    0 <= k < none.len() && said_by(stem_text(#[trigger] none[k])) is Some;
            }
            if said_in(items.take(0), w) {
                let k = choose|k: int|
                    0 <= k < items.take(0).len() && said_by(
                        stem_text(#[trigger] items.take(0)[k]),
                    ) is Some;
            }
        }
        lemma_round(items, 0, none);
        let next = round_from(items, 0, none);
        lemma_rounds(next, (count - 1) as nat);
    }
}

/// A prefix without a digit has no numeral.
pub proof fn lemma_no_numeral(p: Seq<char>)
    requires
        forall|k: int| 0 <= k < p.len() ==> !is_digit(#[trigger] p[k]),
    ensures
        numeral_end(p) == 0,
    decreases p.len(),
{
    if p.len() > 0 {
        assert(!is_digit(p[p.len() - 1]));
        assert forall|k: int| 0 <= k < p.drop_last().len() implies !is_digit(
            #[trigger] p.drop_last()[k],
        ) by {
            assert(p.drop_last()[k] == p[k]);
        }
        lemma_no_numeral(p.drop_last());
    }
}

/// The stem that a group begins with is a stem as it should be, and says
/// what the group says.
pub proof fn lemma_stem_of(g: Group)
    requires
        group_wf(g),
    ensures
        stem_ok(stem_of(g)),
        stem_text(stem_of(g)) == render_group(g),
        said_by(stem_text(stem_of(g))) == Some(seq![echo(g)]),
{
    let p = g.pattern;
    let a = stem_of(g);
    let nf = normal_form(g.ids);
    let shown = render_ids(nf, g.width);
    lemma_normal_form(g.ids);
    if has_slot(p) {
        let at = slot_at(p);
        lemma_one_slot(p);
        lemma_fill_split(p, at, shown);
        assert(stem_text(a) =~= render_group(g));
        assert(nf[0].start <= nf[0].end);
        lemma_padded(nf[0].start as nat, g.width);
        assert(a.rest[0] == shown[0]);
        let h = a.prefix;
        assert forall|k: int| 0 <= k < h.len() implies is_plain(#[trigger] h[k]) || is_digit(h[k]) by {
            assert(h[k] == p[k]);
        }
        if h.len() > 0 {
            assert(h.last() == p[at - 1]);
        }
    } else {
        assert forall|k: int| 0 <= k < p.len() implies p[k] != SLOT && is_plain(#[trigger] p[k]) by {
            if p[k] == SLOT {
                assert(has_slot(p));
            }
            if is_digit(p[k]) {
                assert(has_digit(p));
            }
            assert(!is_separator(p[k]) && p[k] != ']');
        }
        lemma_fill_plain(p, shown);
        assert(stem_text(a) =~= p);
        lemma_no_numeral(p);
        assert(is_plain(p[p.len() - 1]));
    }
    let t = render_group(g);
    lemma_group_text(g);
    assert(t.subrange(0, t.len() as int) =~= t);
    lemma_group(t, 0, g);
}

/// The stems that a content begins with say what its canonical text says.
pub proof fn lemma_stems_of(x: Seq<Group>)
    requires
        content_wf(x),
    ensures
        stems_ok(stems_of(x)),
        forall|w: Written| said_in(stems_of(x), w) <==> echoes(x).contains(w),
{
    let items = stems_of(x);
    assert forall|k: int| 0 <= k < items.len() implies stem_ok(#[trigger] items[k]) by {
        assert(group_wf(x[k]));
        lemma_stem_of(x[k]);
    }
    assert forall|w: Written| said_in(items, w) <==> echoes(x).contains(w) by {
        if said_in(items, w) {
            let k = choose|k: int|
                0 <= k < items.len() && said_by(stem_text(#[trigger] items[k])) is Some && said_by(
                    stem_text(items[k]),
                )->Some_0.contains(w);
            assert(group_wf(x[k]));
            lemma_stem_of(x[k]);
            let f = seq![echo(x[k])];
            let n = choose|n: int| 0 <= n < f.len() && f[n] == w;
            assert(echoes(x)[k] == w);
        }
        if echoes(x).contains(w) {
            let k = choose|k: int| 0 <= k < echoes(x).len() && echoes(x)[k] == w;
            assert(group_wf(x[k]));
            lemma_stem_of(x[k]);
            let f = seq![echo(x[k])];
            assert(f[0] == w);
            assert(said_by(stem_text(items[k])) is Some);
            assert(said_by(stem_text(items[k]))->Some_0.contains(w));
        }
    }
}

/// The text with the numbers folded reads back as the content that was
/// folded.
pub proof fn lemma_folded_reads(x: Seq<Group>)
    requires
        content_wf(x),
    ensures
        reads_as(folded_text(x), x),
{
    let start = stems_of(x);
    let count = longest(start);
    let items = rounds(start, count);
    let t = folded_text(x);
    lemma_stems_of(x);
    lemma_rounds(start, count);
    assert(t.subrange(0, t.len() as int) =~= t);
    lemma_items_text(t, 0, items, Seq::empty());
    let found = all_said(items);
    assert(Seq::<Written>::empty() + found =~= found);
    assert(same_said(found, echoes(x))) by {
        assert forall|w: Written| found.contains(w) <==> echoes(x).contains(w) by {
            lemma_all_said(items, w);
        }
    }
    lemma_said_gathering(found, echoes(x));
    lemma_render_parse(x);
    crate::roundtrip::lemma_echoes(x);
    let ws = written_groups(found);
    let we = written_groups(echoes(x));
    let y = Seq::new(
        x.len(),
        |k: int| Group { pattern: x[k].pattern, ids: x[k].ids, width: widest(we, x[k].pattern) },
    );
    assert(gathers(we, y)) by {
        assert forall|k: int| 0 <= k < y.len() implies group_wf(#[trigger] y[k]) by {
            assert(group_wf(x[k]));
        }
        assert forall|a: int, b: int|
            #![trigger y[a], y[b]]
            0 <= a < b < y.len() implies crate::order::comes_before(y[a].pattern, y[b].pattern) by {
            assert(crate::order::comes_before(x[a].pattern, x[b].pattern));
        }
        assert forall|n: Node| members(y).contains(n) == members(x).contains(n) by {
            assert(members(y).contains(n) == holds_node(y, n));
            assert(members(x).contains(n) == holds_node(x, n));
            if holds_node(y, n) {
                let k = choose|k: int|
                    0 <= k < y.len() && (#[trigger] y[k]).pattern == n.0 && y[k].ids.contains(n.1);
                assert(x[k].pattern == n.0 && x[k].ids.contains(n.1));
            }
            if holds_node(x, n) {
                let k = choose|k: int|
                    0 <= k < x.len() && (#[trigger] x[k]).pattern == n.0 && x[k].ids.contains(n.1);
                assert(y[k].pattern == n.0 && y[k].ids.contains(n.1));
            }
        }
        assert(members(y) =~= members(x));
    }
    assert(gathers(ws, y));
    assert(gathers(ws, gathered(ws)));
    lemma_gathers_unique(ws, y, gathered(ws));
}

} // verus!

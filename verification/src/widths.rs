//! Widths that are shown. A text asks for a width by a numeral with leading
//! zeros, so the sets that texts give keep a width only where one of their
//! names shows it; such a set is what its folded text says, widths
//! included.

use crate::content::{
    content_wf, gathered, gathers, group_wf, holds_node, lemma_one_place, lemma_widest_at,
    members, widest, written_group, written_groups, Group, Node,
};
use crate::compaction::folded_text;
use crate::grammar::{
    digits_end, finish, lemma_digits_end, lemma_items_end, lemma_name_end, parse_item,
    parse_items, parse_name, parse_spec, parse_text, reading_start, singles, too_large,
    widest_numeral,
    with_number, with_plain, Pending, Reading, Written,
};
use crate::grammar_wf::{
    all_plain, lemma_name_wf, lemma_parse_wf, numerals_wf, reading_wf, written_wf,
};
use crate::normal_form::{lemma_normal_form, normal_form};
use crate::numeral::{
    all_digits, decimal, is_digit, lemma_decimal_len, numeral_value, numeral_width, shown_width,
};
use crate::pattern::{has_slot, is_separator, SLOT};
use crate::range::wider;
use crate::roundtrip::{asked, echo, echoes, lemma_asked, lemma_render_parse};
use crate::runs::{run_holds, runs_hold, runs_set, Run};
use crate::unfolding::lemma_folded_reads;
use vstd::prelude::*;

verus! {

/// Whether the numeral of `v` is shorter than `width`, so that `v` written
/// with that width shows it.
pub open spec fn short_of(v: int, width: nat) -> bool {
    v >= 0 && decimal(v as nat).len() < width
}

/// Whether the width is one that the runs show: none, or one that an
/// identifier of the runs is shorter than.
pub open spec fn width_shown(runs: Seq<Run>, width: nat) -> bool {
    width == 0 || exists|v: int| runs_hold(runs, v) && #[trigger] short_of(v, width)
}

/// Whether a pattern as a text gives it comes with a width that it shows;
/// a pattern without a slot comes with none.
pub open spec fn written_shown(w: Written) -> bool {
    &&& width_shown(w.runs, w.width)
    &&& !has_slot(w.pattern) ==> w.width == 0
}

/// Whether a pending bracket comes with a width that it shows.
pub open spec fn pending_shown(number: Pending) -> bool {
    number matches Pending::Bracket(runs, width) ==> width_shown(runs, width)
}

/// Whether a set keeps widths only where its names show them.
pub open spec fn tight(c: Seq<Group>) -> bool {
    forall|k: int|
        0 <= k < c.len() ==> if has_slot((#[trigger] c[k]).pattern) {
            asked(normal_form(c[k].ids), c[k].width) == c[k].width
        } else {
            c[k].width == 0
        }
}

/// The numeral of what a numeral stands for is no longer than it, and
/// shorter where it begins with a zero that is not all of it.
pub proof fn lemma_numeral_len(d: Seq<char>)
    requires
        all_digits(d),
        d.len() > 0,
    ensures
        decimal(numeral_value(d)).len() <= d.len(),
        d.len() > 1 && d[0] == '0' ==> decimal(numeral_value(d)).len() < d.len(),
    decreases d.len(),
{
    let front = d.drop_last();
    let v = numeral_value(d);
    let last = d.last();
    assert(is_digit(d[d.len() - 1]));
    assert forall|k: int| 0 <= k < front.len() implies is_digit(#[trigger] front[k]) by {
        assert(front[k] == d[k]);
    }
    if d.len() == 1 {
        assert(front.len() == 0);
        assert(numeral_value(front) == 0);
        assert(v < 10);
    } else {
        lemma_numeral_len(front);
        assert(front[0] == d[0]);
        let f = numeral_value(front);
        assert(v == f * 10 + (last as int - '0' as int));
        if v >= 10 {
            assert(v / 10 == f);
        } else {
            assert(f == 0);
        }
        if d.len() == 2 && d[0] == '0' {
            assert(front.drop_last().len() == 0);
            assert(numeral_value(front.drop_last()) == 0);
            assert(f == 0);
        }
    }
}

/// The width that an item of a bracket asks for is one that its start
/// shows.
pub proof fn lemma_item_shown(s: Seq<char>, i: int)
    requires
        0 <= i <= s.len(),
    ensures
        parse_item(s, i) matches Ok(item) ==> item.run.start <= item.run.end && (item.width == 0
            || short_of(item.run.start as int, item.width)),
{
    lemma_digits_end(s, i);
    let e1 = digits_end(s, i);
    let a = s.subrange(i, e1);
    if e1 > i {
        assert forall|k: int| 0 <= k < a.len() implies is_digit(#[trigger] a[k]) by {
            assert(a[k] == s[i + k]);
        }
        lemma_numeral_len(a);
    }
}

/// The runs of a bracket that is read come with a width that they show.
pub proof fn lemma_items_shown(s: Seq<char>, i: int, runs: Seq<Run>, width: nat)
    requires
        width_shown(runs, width),
    ensures
        parse_items(s, i, runs, width) matches Ok(listed) ==> width_shown(
            listed.runs,
            listed.width,
        ),
    decreases s.len() - i,
{
    if 0 <= i < s.len() {
        lemma_digits_end(s, i);
        if digits_end(s, i) < s.len() {
            lemma_digits_end(s, digits_end(s, i) + 1);
        }
        lemma_item_shown(s, i);
        match parse_item(s, i) {
            Err(e) => {},
            Ok(item) => {
                let runs2 = runs.push(item.run);
                let width2 = wider(width, item.width);
                assert(width_shown(runs2, width2)) by {
                    if width2 != 0 {
                        if width2 == width {
                            let v = choose|v: int| runs_hold(runs, v) && #[trigger] short_of(v, width);
                            let k = choose|k: int|
                                0 <= k < runs.len() && #[trigger] run_holds(runs[k], v);
                            assert(run_holds(runs2[k], v));
                            assert(runs_hold(runs2, v) && short_of(v, width2));
                        } else {
                            let v = item.run.start as int;
                            assert(run_holds(runs2[runs.len() as int], v));
                            assert(runs_hold(runs2, v) && short_of(v, width2));
                        }
                    }
                }
                if item.next < s.len() && s[item.next] == ',' {
                    lemma_items_shown(s, item.next + 1, runs2, width2);
                }
            },
        }
    }
}

/// Numerals one after the other come with a width that they show.
pub proof fn lemma_numerals_shown(numerals: Seq<Seq<char>>)
    requires
        numerals_wf(numerals),
        !too_large(numerals),
    ensures
        width_shown(singles(numerals), widest_numeral(numerals)),
    decreases numerals.len(),
{
    let width = widest_numeral(numerals);
    let runs = singles(numerals);
    if width != 0 {
        let front = numerals.drop_last();
        let last = numerals.last();
        if width == numeral_width(last) {
            assert(all_digits(numerals[numerals.len() - 1]));
            lemma_numeral_len(last);
            assert(numeral_value(numerals[numerals.len() - 1]) <= u32::MAX);
            let v = numeral_value(last) as int;
            assert(run_holds(runs[numerals.len() - 1], v));
            assert(runs_hold(runs, v) && short_of(v, width));
        } else {
            assert(width == widest_numeral(front));
            assert(front.len() > 0);
            assert(numerals_wf(front)) by {
                assert forall|k: int| 0 <= k < front.len() implies all_digits(#[trigger] front[k])
                    && front[k].len() > 0 by {
                    assert(front[k] == numerals[k]);
                }
            }
            assert(!too_large(front)) by {
                if too_large(front) {
                    let k = choose|k: int|
                        0 <= k < front.len() && numeral_value(#[trigger] front[k]) > u32::MAX;
                    assert(front[k] == numerals[k]);
                }
            }
            lemma_numerals_shown(front);
            let v = choose|v: int| runs_hold(singles(front), v) && #[trigger] short_of(v, width);
            let k = choose|k: int|
                0 <= k < singles(front).len() && #[trigger] run_holds(singles(front)[k], v);
            assert(singles(front)[k] == runs[k]);
            assert(run_holds(runs[k], v));
            assert(runs_hold(runs, v) && short_of(v, width));
        }
    }
}

/// Reading a name keeps a pending bracket with a width that it shows.
pub proof fn lemma_name_shown(s: Seq<char>, i: int, st: Reading)
    requires
        0 <= i <= s.len(),
        pending_shown(st.pending),
    ensures
        parse_name(s, i, st) matches Ok((last, _)) ==> pending_shown(last.pending),
    decreases s.len() - i,
{
    if i < s.len() && !is_separator(s[i]) && s[i] != ']' {
        if s[i] == '[' {
            match parse_items(s, i + 1, Seq::empty(), 0) {
                Err(e) => {},
                Ok(listed) => {
                    lemma_items_end(s, i + 1, Seq::empty(), 0);
                    lemma_items_shown(s, i + 1, Seq::empty(), 0);
                    lemma_name_shown(
                        s,
                        listed.next,
                        with_number(st, Pending::Bracket(listed.runs, listed.width)),
                    );
                },
            }
        } else if is_digit(s[i]) {
            lemma_digits_end(s, i);
            lemma_name_shown(
                s,
                digits_end(s, i),
                with_number(st, Pending::Numerals(seq![s.subrange(i, digits_end(s, i))])),
            );
        } else {
            lemma_name_shown(s, i + 1, with_plain(st, s[i]));
        }
    }
}

/// The patterns of a name that has been read come with widths that they
/// show.
pub proof fn lemma_finish_shown(st: Reading)
    requires
        reading_wf(st),
        pending_shown(st.pending),
    ensures
        finish(st) matches Ok(found) ==> forall|k: int|
            0 <= k < found.len() ==> written_shown(#[trigger] found[k]),
{
    match finish(st) {
        Err(e) => {},
        Ok(found) => {
            match st.pending {
                Pending::Numerals(numerals) => {
                    lemma_numerals_shown(numerals);
                },
                _ => {},
            }
            assert forall|k: int| 0 <= k < found.len() implies written_shown(
                #[trigger] found[k],
            ) by {
                let head = st.heads[k];
                let t = found[k].pattern;
                match st.pending {
                    Pending::Nothing => {},
                    _ => {
                        assert(t == head.push(SLOT) + st.tail);
                        assert(t[head.len() as int] == SLOT);
                        assert(has_slot(t));
                    },
                }
            }
        },
    }
}

proof fn lemma_text_shown(s: Seq<char>, i: int, acc: Seq<Written>)
    requires
        0 <= i <= s.len(),
        forall|k: int| 0 <= k < acc.len() ==> written_shown(#[trigger] acc[k]),
    ensures
        parse_text(s, i, acc) matches Ok(found) ==> forall|k: int|
            0 <= k < found.len() ==> written_shown(#[trigger] found[k]),
    decreases s.len() - i,
{
    if i < s.len() {
        if is_separator(s[i]) {
            lemma_text_shown(s, i + 1, acc);
        } else {
            let start = reading_start();
            assert(reading_wf(start)) by {
                assert forall|k: int| 0 <= k < start.heads.len() implies all_plain(
                    #[trigger] start.heads[k],
                ) by {}
            }
            lemma_name_end(s, i, start);
            lemma_name_wf(s, i, start);
            lemma_name_shown(s, i, start);
            match parse_name(s, i, start) {
                Err(e) => {},
                Ok((st, next)) => {
                    lemma_finish_shown(st);
                    match finish(st) {
                        Err(e) => {},
                        Ok(found) => {
                            let all = acc + found;
                            assert forall|k: int| 0 <= k < all.len() implies written_shown(
                                #[trigger] all[k],
                            ) by {
                                if k < acc.len() {
                                    assert(written_shown(acc[k]));
                                } else {
                                    assert(written_shown(found[k - acc.len()]));
                                }
                            }
                            lemma_text_shown(s, next, all);
                        },
                    }
                },
            }
        }
    }
}

/// Each pattern that a text gives comes with a width that it shows.
pub proof fn lemma_parse_shown(s: Seq<char>)
    ensures
        parse_spec(s) matches Ok(found) ==> forall|k: int|
            0 <= k < found.len() ==> written_shown(#[trigger] found[k]),
{
    lemma_text_shown(s, 0, Seq::empty());
}

/// The widest width kept for a pattern is none, or that of a group with the
/// pattern.
pub proof fn lemma_widest_kept(c: Seq<Group>, p: Seq<char>)
    ensures
        widest(c, p) == 0 || exists|k: int|
            0 <= k < c.len() && (#[trigger] c[k]).pattern == p && c[k].width == widest(c, p),
    decreases c.len(),
{
    if c.len() > 0 {
        let front = c.drop_last();
        lemma_widest_kept(front, p);
        let w = widest(c, p);
        if w != 0 {
            if c.last().pattern == p && w == c.last().width {
                assert(c[c.len() - 1].pattern == p && c[c.len() - 1].width == w);
            } else {
                let k = choose|k: int|
                    0 <= k < front.len() && (#[trigger] front[k]).pattern == p && front[k].width
                        == widest(front, p);
                assert(c[k].pattern == p && c[k].width == w);
            }
        }
    }
}

/// The set that gathers what a text gives keeps widths only where its
/// names show them.
pub proof fn lemma_gathered_tight(found: Seq<Written>, c: Seq<Group>)
    requires
        forall|k: int| 0 <= k < found.len() ==> written_wf(#[trigger] found[k]),
        forall|k: int| 0 <= k < found.len() ==> written_shown(#[trigger] found[k]),
        gathers(written_groups(found), c),
    ensures
        tight(c),
{
    let ws = written_groups(found);
    assert forall|k: int| 0 <= k < c.len() implies if has_slot((#[trigger] c[k]).pattern) {
        asked(normal_form(c[k].ids), c[k].width) == c[k].width
    } else {
        c[k].width == 0
    } by {
        let p = c[k].pattern;
        let w = c[k].width;
        assert(w == widest(ws, p));
        assert(group_wf(c[k]));
        lemma_widest_kept(ws, p);
        let nf = normal_form(c[k].ids);
        lemma_normal_form(c[k].ids);
        lemma_asked(nf, w);
        if w != 0 {
            let j = choose|j: int|
                0 <= j < ws.len() && (#[trigger] ws[j]).pattern == p && ws[j].width == w;
            assert(ws[j] == written_group(found[j]));
            assert(written_shown(found[j]));
            assert(has_slot(p));
            let v = choose|v: int| runs_hold(found[j].runs, v) && #[trigger] short_of(v, w);
            assert(runs_set(found[j].runs).contains(v));
            let n: Node = (p, v);
            assert(ws[j].pattern == n.0 && ws[j].ids.contains(n.1));
            assert(holds_node(ws, n));
            assert(members(ws).contains(n));
            assert(members(c).contains(n));
            assert(holds_node(c, n));
            let at = choose|at: int|
                0 <= at < c.len() && (#[trigger] c[at]).pattern == n.0 && c[at].ids.contains(n.1);
            lemma_one_place(c, at, k);
            assert(runs_set(nf).contains(v));
            assert(runs_hold(nf, v));
            let t = choose|t: int| 0 <= t < nf.len() && #[trigger] run_holds(nf[t], v);
            lemma_decimal_len(nf[t].start as nat, v as nat);
            assert(shown_width(nf[t].start as nat, w) == w);
        }
    }
}

/// A set that keeps widths only where its names show them is what its
/// canonical text says, widths included.
pub proof fn lemma_tight_echo(x: Seq<Group>)
    requires
        content_wf(x),
        tight(x),
    ensures
        written_groups(echoes(x)) == x,
        gathers(written_groups(echoes(x)), x),
{
    let ws = written_groups(echoes(x));
    assert forall|k: int| 0 <= k < x.len() implies ws[k] == x[k] by {
        let g = x[k];
        assert(group_wf(g));
        assert(ws[k] == written_group(echo(g)));
        lemma_normal_form(g.ids);
        if !has_slot(g.pattern) {
            let one = seq![Run { start: 0, end: 0 }];
            assert(runs_set(one) =~= set![0int]) by {
                assert forall|v: int| runs_set(one).contains(v) <==> set![0int].contains(v) by {
                    assert(runs_set(one).contains(v) == runs_hold(one, v));
                    if v == 0 {
                        assert(run_holds(one[0], v));
                    }
                }
            }
        }
    }
    assert(ws =~= x);
    assert forall|k: int| 0 <= k < x.len() implies (#[trigger] x[k]).width == widest(
        x,
        x[k].pattern,
    ) by {
        lemma_widest_at(x, k);
    }
}

/// The set that a text gives is what its folded text says: reading the
/// folded text gives the same set again, with the same widths.
pub proof fn lemma_folded_same(text: Seq<char>, x: Seq<Group>)
    requires
        parse_spec(text) matches Ok(found) && gathers(written_groups(found), x),
    ensures
        parse_spec(folded_text(x)) matches Ok(found) && gathers(written_groups(found), x),
{
    lemma_parse_wf(text);
    lemma_parse_shown(text);
    lemma_gathered_tight(parse_spec(text)->Ok_0, x);
    lemma_folded_reads(x);
    let f = parse_spec(folded_text(x))->Ok_0;
    let y = gathered(written_groups(f));
    lemma_parse_wf(folded_text(x));
    lemma_parse_shown(folded_text(x));
    lemma_gathered_tight(f, y);
    lemma_render_parse(x);
    lemma_render_parse(y);
    lemma_tight_echo(x);
    lemma_tight_echo(y);
}

} // verus!

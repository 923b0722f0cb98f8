//! Reading back what was written: the canonical text of a set of node names
//! is in the folded notation, and says what the set holds.

use crate::content::{
    ascending, content_wf, gathers, group_wf, holds_node, lemma_content_unique, lemma_widest_at,
    members, widest, written_groups, Group, Node,
};
use crate::compaction::{folded_text, stem_of, stems_of};
use crate::folding::{
    fill, render, render_group, render_ids, render_run, render_runs, slot_at,
};
use crate::grammar::{
    adjacent, cross, digits_end, extend_each, finish, lemma_digits_end, parse_item, parse_items,
    parse_name, parse_spec, parse_text, reading_start, settle, singles, too_large, widest_numeral,
    with_number, with_plain, Item, Listed, ParseError, Pending, Reading, Written,
};
use crate::normal_form::{lemma_normal_form, normal_form};
use crate::numeral::{
    is_digit, lemma_decimal_len, lemma_padded, numeral_value, padded, shown_width,
};
use crate::pattern::{has_digit, has_slot, is_plain, is_separator, pattern_wf, SLOT};
use crate::range::wider;
use crate::runs::{runs_set, runs_valid, Run};
use vstd::prelude::*;

verus! {

/// Whether the text `t` stands in `s` at `i`.
pub open spec fn occurs(s: Seq<char>, i: int, t: Seq<char>) -> bool {
    0 <= i && i + t.len() <= s.len() && s.subrange(i, i + t.len()) == t
}

pub proof fn lemma_occurs_at(s: Seq<char>, i: int, t: Seq<char>, k: int)
    requires
        occurs(s, i, t),
        0 <= k < t.len(),
    ensures
        s[i + k] == t[k],
{
    assert(s.subrange(i, i + t.len())[k] == s[i + k]);
}

pub proof fn lemma_occurs_concat(s: Seq<char>, i: int, a: Seq<char>, b: Seq<char>)
    requires
        occurs(s, i, a + b),
    ensures
        occurs(s, i, a),
        occurs(s, i + a.len(), b),
{
    let whole = s.subrange(i, i + (a + b).len());
    assert(s.subrange(i, i + a.len()) =~= a) by {
        assert forall|k: int| 0 <= k < a.len() implies s.subrange(i, i + a.len())[k] == a[k] by {
            assert(whole[k] == (a + b)[k]);
        }
    }
    assert(s.subrange(i + a.len(), i + a.len() + b.len()) =~= b) by {
        assert forall|k: int| 0 <= k < b.len() implies s.subrange(
            i + a.len(),
            i + a.len() + b.len(),
        )[k] == b[k] by {
            assert(whole[a.len() + k] == (a + b)[a.len() + k]);
        }
    }
}

/// Digits that are followed by something else end where they are followed.
pub proof fn lemma_digits_span(s: Seq<char>, i: int, m: int)
    requires
        0 <= i,
        0 <= m,
        i + m <= s.len(),
        forall|k: int| i <= k < i + m ==> is_digit(#[trigger] s[k]),
        i + m < s.len() ==> !is_digit(s[i + m]),
    ensures
        digits_end(s, i) == i + m,
    decreases m,
{
    if m > 0 {
        assert(is_digit(s[i]));
        lemma_digits_span(s, i + 1, m - 1);
    }
}

/// A written identifier that is followed by something else than a digit is
/// read as one numeral.
pub proof fn lemma_numeral(s: Seq<char>, i: int, v: nat, width: nat)
    requires
        occurs(s, i, padded(v, width)),
        i + padded(v, width).len() < s.len() ==> !is_digit(s[i + padded(v, width).len()]),
    ensures
        digits_end(s, i) == i + padded(v, width).len(),
        s.subrange(i, digits_end(s, i)) == padded(v, width),
        digits_end(s, i) > i,
{
    let d = padded(v, width);
    lemma_padded(v, width);
    assert forall|k: int| i <= k < i + d.len() implies is_digit(#[trigger] s[k]) by {
        lemma_occurs_at(s, i, d, k - i);
    }
    lemma_digits_span(s, i, d.len() as int);
}

/// The width that written runs ask for: the widest that one of their starts
/// shows.
pub open spec fn asked(runs: Seq<Run>, width: nat) -> nat
    decreases runs.len(),
{
    if runs.len() == 0 {
        0
    } else {
        wider(shown_width(runs[0].start as nat, width), asked(runs.drop_first(), width))
    }
}

/// A written run, followed by a comma or the closing bracket, is read as
/// that run.
pub proof fn lemma_item(s: Seq<char>, i: int, r: Run, width: nat)
    requires
        r.start <= r.end,
        occurs(s, i, render_run(r, width)),
        i + render_run(r, width).len() < s.len(),
        s[i + render_run(r, width).len()] == ',' || s[i + render_run(r, width).len()] == ']',
    ensures
        parse_item(s, i) == Ok::<Item, ParseError>(
            Item {
                run: r,
                width: shown_width(r.start as nat, width),
                next: i + render_run(r, width).len(),
            },
        ),
{
    let a = padded(r.start as nat, width);
    let b = padded(r.end as nat, width);
    lemma_padded(r.start as nat, width);
    lemma_padded(r.end as nat, width);
    if r.start == r.end {
        lemma_numeral(s, i, r.start as nat, width);
    } else {
        let whole = a + seq!['-'] + b;
        assert(render_run(r, width) == whole);
        lemma_occurs_concat(s, i, a + seq!['-'], b);
        lemma_occurs_concat(s, i, a, seq!['-']);
        lemma_occurs_at(s, i + a.len(), seq!['-'], 0);
        assert(s[i + a.len()] == '-');
        lemma_numeral(s, i, r.start as nat, width);
        let e1 = i + a.len();
        assert(occurs(s, e1 + 1, b));
        lemma_numeral(s, e1 + 1, r.end as nat, width);
        lemma_decimal_len(r.start as nat, r.end as nat);
    }
}

/// The first of several written runs stands before a comma and the rest.
pub proof fn lemma_render_runs_first(runs: Seq<Run>, width: nat)
    requires
        runs.len() >= 2,
    ensures
        render_runs(runs, width) == render_run(runs[0], width) + seq![','] + render_runs(
            runs.drop_first(),
            width,
        ),
    decreases runs.len(),
{
    let front = runs.drop_last();
    let rest = runs.drop_first();
    if runs.len() == 2 {
        assert(front.len() == 1 && front[0] == runs[0]);
        assert(rest.len() == 1 && rest[0] == runs[1]);
        assert(render_runs(front, width) == render_run(front[0], width));
        assert(render_runs(rest, width) == render_run(rest[0], width));
        assert(runs.last() == runs[1]);
    } else {
        lemma_render_runs_first(front, width);
        assert(front.drop_first() =~= rest.drop_last());
        assert(front[0] == runs[0]);
        assert(rest.last() == runs.last());
        assert(render_runs(runs, width) =~= render_run(runs[0], width) + seq![','] + render_runs(
            rest,
            width,
        ));
    }
}

/// Written runs, followed by the closing bracket, are read as those runs.
pub proof fn lemma_items(
    s: Seq<char>,
    i: int,
    runs: Seq<Run>,
    width: nat,
    acc: Seq<Run>,
    acc_width: nat,
)
    requires
        runs.len() >= 1,
        runs_valid(runs),
        occurs(s, i, render_runs(runs, width).push(']')),
    ensures
        parse_items(s, i, acc, acc_width) == Ok::<Listed, ParseError>(
            Listed {
                runs: acc + runs,
                width: wider(acc_width, asked(runs, width)),
                next: i + render_runs(runs, width).len() + 1,
            },
        ),
    decreases runs.len(),
{
    let r = runs[0];
    let first = render_run(r, width);
    let all = render_runs(runs, width);
    assert(r.start <= r.end);
    lemma_padded(r.start as nat, width);
    if runs.len() == 1 {
        assert(all == first);
        assert(all.push(']') =~= first + seq![']']);
        lemma_occurs_concat(s, i, first, seq![']']);
        lemma_occurs_at(s, i + first.len(), seq![']'], 0);
        lemma_item(s, i, r, width);
        assert(acc.push(r) =~= acc + runs);
        assert(asked(runs.drop_first(), width) == 0);
    } else {
        let rest = runs.drop_first();
        lemma_render_runs_first(runs, width);
        let tail = render_runs(rest, width).push(']');
        assert(all.push(']') =~= first + (seq![','] + tail));
        lemma_occurs_concat(s, i, first, seq![','] + tail);
        lemma_occurs_concat(s, i + first.len(), seq![','], tail);
        lemma_occurs_at(s, i + first.len(), seq![','], 0);
        lemma_item(s, i, r, width);
        assert(runs_valid(rest)) by {
            assert forall|k: int| 0 <= k < rest.len() implies (#[trigger] rest[k]).start
                <= rest[k].end by {
                assert(runs[k + 1].start <= runs[k + 1].end);
            }
        }
        lemma_items(
            s,
            i + first.len() + 1,
            rest,
            width,
            acc.push(r),
            wider(acc_width, shown_width(r.start as nat, width)),
        );
        assert(acc.push(r) + rest =~= acc + runs);
    }
}

/// A pattern without a slot is written as it is.
pub proof fn lemma_fill_plain(t: Seq<char>, shown: Seq<char>)
    requires
        forall|k: int| 0 <= k < t.len() ==> t[k] != SLOT,
    ensures
        fill(t, shown) == t,
    decreases t.len(),
{
    if t.len() > 0 {
        lemma_fill_plain(t.drop_last(), shown);
        assert(t.drop_last().push(t.last()) =~= t);
    }
}

/// A pattern with its one slot at `at` is written as what stands before the
/// slot, what is shown in it, and what stands after it.
pub proof fn lemma_fill_split(p: Seq<char>, at: int, shown: Seq<char>)
    requires
        0 <= at < p.len(),
        p[at] == SLOT,
        forall|k: int| 0 <= k < p.len() && k != at ==> p[k] != SLOT,
    ensures
        fill(p, shown) == p.take(at) + shown + p.skip(at + 1),
    decreases p.len(),
{
    let front = p.drop_last();
    if at == p.len() - 1 {
        lemma_fill_plain(front, shown);
        assert(front =~= p.take(at));
        assert(p.skip(at + 1) =~= Seq::<char>::empty());
        assert(fill(p, shown) =~= p.take(at) + shown + p.skip(at + 1));
    } else {
        lemma_fill_split(front, at, shown);
        assert(front.take(at) =~= p.take(at));
        assert(front.skip(at + 1).push(p.last()) =~= p.skip(at + 1));
        assert(fill(p, shown) =~= p.take(at) + shown + p.skip(at + 1));
    }
}

/// The text of a name read so far, where the name has one head.
pub open spec fn flat(st: Reading) -> Seq<char> {
    st.heads[0] + (match st.pending {
        Pending::Numerals(numerals) => numerals[0],
        _ => Seq::empty(),
    }) + st.tail
}

/// Whether another number may follow at once.
pub open spec fn ready(st: Reading) -> bool {
    st.pending is Nothing || st.tail.len() > 0
}

/// What holds of a name with one head in which no bracket has been read.
pub open spec fn simple(st: Reading) -> bool {
    &&& st.heads.len() == 1
    &&& match st.pending {
        Pending::Nothing => st.tail.len() == 0,
        Pending::Numerals(numerals) => numerals.len() == 1,
        Pending::Bracket(_, _) => false,
    }
}

/// Reading on over plain text and numerals, up to a place just after plain
/// text, adds what is read to the text of the name.
pub proof fn lemma_scan_text(s: Seq<char>, i: int, e: int, st: Reading) -> (st2: Reading)
    requires
        0 <= i <= e <= s.len(),
        forall|k: int| i <= k < e ==> is_plain(#[trigger] s[k]) || is_digit(s[k]),
        e > i ==> is_plain(s[e - 1]),
        simple(st),
        ready(st) || (i < e && is_plain(s[i])),
    ensures
        parse_name(s, i, st) == parse_name(s, e, st2),
        simple(st2),
        flat(st2) == flat(st) + s.subrange(i, e),
        ready(st2),
        st.pending is Nothing && (forall|k: int| i <= k < e ==> is_plain(#[trigger] s[k]))
            ==> st2.pending is Nothing,
    decreases e - i,
{
    if i == e {
        assert(flat(st) + s.subrange(i, e) =~= flat(st));
        st
    } else {
        let c = s[i];
        assert(is_plain(c) || is_digit(c));
        if is_plain(c) {
            let st1 = with_plain(st, c);
            assert(flat(st1) =~= flat(st).push(c)) by {
                match st.pending {
                    Pending::Nothing => {
                        assert(st1.heads[0] == st.heads[0] + seq![c]);
                    },
                    _ => {},
                }
            }
            let st2 = lemma_scan_text(s, i + 1, e, st1);
            assert(flat(st).push(c) + s.subrange(i + 1, e) =~= flat(st) + s.subrange(i, e));
            st2
        } else {
            lemma_digits_end(s, i);
            let de = digits_end(s, i);
            assert(de <= e - 1) by {
                if de > e - 1 {
                    assert(is_digit(s[e - 1]));
                }
            }
            lemma_settle_simple(st);
            let d = s.subrange(i, de);
            let st1 = with_number(st, Pending::Numerals(seq![d]));
            assert(st1 == Reading {
                heads: seq![flat(st)],
                pending: Pending::Numerals(seq![d]),
                tail: Seq::<char>::empty(),
            });
            assert(flat(st1) =~= flat(st) + s.subrange(i, de));
            assert(is_plain(s[de]));
            let st2 = lemma_scan_text(s, de, e, st1);
            assert(flat(st) + s.subrange(i, de) + s.subrange(de, e) =~= flat(st) + s.subrange(
                i,
                e,
            ));
            st2
        }
    }
}

/// Reading on over plain text after the slot adds it to the tail.
pub proof fn lemma_scan_tail(s: Seq<char>, i: int, e: int, st: Reading)
    requires
        0 <= i <= e <= s.len(),
        forall|k: int| i <= k < e ==> is_plain(#[trigger] s[k]),
        !(st.pending is Nothing),
    ensures
        parse_name(s, i, st) == parse_name(
            s,
            e,
            Reading { heads: st.heads, pending: st.pending, tail: st.tail + s.subrange(i, e) },
        ),
    decreases e - i,
{
    if i == e {
        assert(st.tail + s.subrange(i, e) =~= st.tail);
    } else {
        let c = s[i];
        assert(is_plain(c));
        let st1 = with_plain(st, c);
        lemma_scan_tail(s, i + 1, e, st1);
        assert(st.tail.push(c) + s.subrange(i + 1, e) =~= st.tail + s.subrange(i, e));
    }
}

/// What the text of a group says when it is read back: its pattern, the
/// minimal runs of its identifiers, and the width that their starts show.
pub open spec fn echo(g: Group) -> Written {
    if has_slot(g.pattern) {
        Written {
            pattern: g.pattern,
            runs: normal_form(g.ids),
            width: asked(normal_form(g.ids), g.width),
        }
    } else {
        Written { pattern: g.pattern, runs: seq![Run { start: 0, end: 0 }], width: 0 }
    }
}

/// The text of a group begins with something else than a separator.
pub proof fn lemma_group_text(g: Group)
    requires
        group_wf(g),
    ensures
        render_group(g).len() > 0,
        !is_separator(render_group(g)[0]),
{
    let p = g.pattern;
    let nf = normal_form(g.ids);
    let shown = render_ids(nf, g.width);
    lemma_normal_form(g.ids);
    if has_slot(p) {
        let at = slot_at(p);
        lemma_one_slot(p);
        lemma_fill_split(p, at, shown);
        let text = p.take(at) + shown + p.skip(at + 1);
        lemma_padded(nf[0].start as nat, g.width);
        assert(shown.len() > 0);
        if at > 0 {
            assert(text[0] == p[0]);
        } else {
            assert(text[0] == shown[0]);
            if nf.len() == 1 && nf[0].start == nf[0].end {
                assert(is_digit(shown[0]));
            }
        }
    } else {
        assert forall|k: int| 0 <= k < p.len() implies p[k] != SLOT by {
            if p[k] == SLOT {
                assert(has_slot(p));
            }
        }
        lemma_fill_plain(p, shown);
    }
}

/// In a well-formed pattern with a slot the slot stands at one place, what
/// stands before it is plain text and digits that do not end in a digit,
/// and what stands after it is plain text.
pub proof fn lemma_one_slot(p: Seq<char>)
    requires
        pattern_wf(p),
        has_slot(p),
    ensures
        0 <= slot_at(p) < p.len(),
        p[slot_at(p)] == SLOT,
        forall|k: int| 0 <= k < p.len() && k != slot_at(p) ==> p[k] != SLOT,
        forall|k: int| 0 <= k < slot_at(p) ==> is_plain(#[trigger] p[k]) || is_digit(p[k]),
        slot_at(p) > 0 ==> is_plain(p[slot_at(p) - 1]),
        forall|k: int| slot_at(p) < k < p.len() ==> is_plain(#[trigger] p[k]),
{
    let at = slot_at(p);
    assert forall|k: int| 0 <= k < p.len() && k != at implies p[k] != SLOT by {
        if p[k] == SLOT {
            if k < at {
                assert(p[k] == SLOT ==> is_plain(p[at]));
            } else {
                assert(p[at] == SLOT ==> is_plain(p[k]));
            }
        }
    }
    assert forall|k: int| 0 <= k < at implies is_plain(#[trigger] p[k]) || is_digit(p[k]) by {
        assert(!is_separator(p[k]) && p[k] != ']');
    }
    assert forall|k: int| at < k < p.len() implies is_plain(#[trigger] p[k]) by {
        assert(p[at] == SLOT ==> is_plain(p[k]));
    }
    if at > 0 {
        assert(!is_separator(p[at - 1]) && p[at - 1] != ']');
    }
}

/// A name with one head that is ready for another number settles into the
/// text read so far.
pub proof fn lemma_settle_simple(st: Reading)
    requires
        simple(st),
        ready(st),
    ensures
        settle(st) == seq![flat(st)],
        !adjacent(st),
{
    let h = st.heads[0];
    match st.pending {
        Pending::Nothing => {
            assert(flat(st) =~= h);
            assert(st.heads =~= seq![flat(st)]);
        },
        Pending::Numerals(numerals) => {
            let d = numerals[0];
            assert(st.heads.drop_last() =~= Seq::<Seq<char>>::empty());
            assert(cross(st.heads.drop_last(), numerals, st.tail) =~= Seq::<Seq<char>>::empty());
            assert(st.heads.last() == h);
            let each = extend_each(h, numerals, st.tail);
            assert(each[0] == h + d + st.tail);
            assert(cross(st.heads, numerals, st.tail) =~= seq![flat(st)]);
        },
        _ => {},
    }
}

/// What is pending after the slot has been read: a single identifier as a
/// numeral, anything else as a bracket.
pub open spec fn slot_pending(runs: Seq<Run>, width: nat) -> Pending {
    if runs.len() == 1 && runs[0].start == runs[0].end {
        Pending::Numerals(seq![padded(runs[0].start as nat, width)])
    } else {
        Pending::Bracket(runs, asked(runs, width))
    }
}

/// What stands in the slot is read as the pending number of the name.
pub proof fn lemma_slot(s: Seq<char>, e: int, st: Reading, runs: Seq<Run>, width: nat)
    requires
        simple(st),
        ready(st),
        runs.len() >= 1,
        runs_valid(runs),
        occurs(s, e, render_ids(runs, width)),
        e + render_ids(runs, width).len() < s.len() ==> !is_digit(
            s[e + render_ids(runs, width).len()],
        ),
    ensures
        parse_name(s, e, st) == parse_name(
            s,
            e + render_ids(runs, width).len(),
            Reading {
                heads: seq![flat(st)],
                pending: slot_pending(runs, width),
                tail: Seq::<char>::empty(),
            },
        ),
{
    let shown = render_ids(runs, width);
    lemma_settle_simple(st);
    assert(runs[0].start <= runs[0].end);
    lemma_padded(runs[0].start as nat, width);
    if runs.len() == 1 && runs[0].start == runs[0].end {
        lemma_occurs_at(s, e, shown, 0);
        assert(is_digit(s[e]));
        lemma_numeral(s, e, runs[0].start as nat, width);
        assert(with_number(st, Pending::Numerals(seq![shown])) == Reading {
            heads: seq![flat(st)],
            pending: slot_pending(runs, width),
            tail: Seq::<char>::empty(),
        });
    } else {
        let inner = render_runs(runs, width);
        assert(shown =~= seq!['['] + inner.push(']'));
        lemma_occurs_concat(s, e, seq!['['], inner.push(']'));
        lemma_occurs_at(s, e, seq!['['], 0);
        assert(s[e] == '[');
        lemma_items(s, e + 1, runs, width, Seq::empty(), 0);
        assert(Seq::<Run>::empty() + runs =~= runs);
        assert(wider(0, asked(runs, width)) == asked(runs, width));
        assert(with_number(st, Pending::Bracket(runs, asked(runs, width))) == Reading {
            heads: seq![flat(st)],
            pending: slot_pending(runs, width),
            tail: Seq::<char>::empty(),
        });
    }
}

/// The text of a group without a slot is read as that group.
pub proof fn lemma_group_plain(s: Seq<char>, i: int, g: Group)
    requires
        group_wf(g),
        !has_slot(g.pattern),
        occurs(s, i, g.pattern),
        i + g.pattern.len() == s.len() || is_separator(s[i + g.pattern.len()]),
    ensures
        parse_name(s, i, reading_start()) matches Ok((st, next)) && next == i + g.pattern.len()
            && finish(st) == Ok::<Seq<Written>, ParseError>(seq![echo(g)]),
{
    let p = g.pattern;
    let end = i + p.len();
    let start = reading_start();
    assert(flat(start) =~= Seq::<char>::empty());
    assert forall|k: int| i <= k < end implies is_plain(#[trigger] s[k]) by {
        lemma_occurs_at(s, i, p, k - i);
        let c = p[k - i];
        assert(!is_separator(c) && c != ']');
        if is_digit(c) {
            assert(has_digit(p));
        }
        if c == SLOT {
            assert(has_slot(p));
        }
    }
    let st = lemma_scan_text(s, i, end, start);
    assert(flat(st) =~= p);
    assert(st.heads[0] =~= p);
    assert(parse_name(s, end, st) == Ok::<(Reading, int), ParseError>((st, end)));
    assert(finish(st)->Ok_0 =~= seq![echo(g)]);
}

/// What the name of a group with a slot is when all of it has been read.
pub open spec fn read_group(g: Group) -> Reading {
    Reading {
        heads: seq![g.pattern.take(slot_at(g.pattern))],
        pending: slot_pending(normal_form(g.ids), g.width),
        tail: g.pattern.skip(slot_at(g.pattern) + 1),
    }
}

/// The name of a group with a slot, when all of it has been read, stands
/// for that group.
pub proof fn lemma_finish_group(g: Group)
    requires
        group_wf(g),
        has_slot(g.pattern),
    ensures
        finish(read_group(g)) == Ok::<Seq<Written>, ParseError>(seq![echo(g)]),
{
    let p = g.pattern;
    let at = slot_at(p);
    let nf = normal_form(g.ids);
    lemma_normal_form(g.ids);
    lemma_one_slot(p);
    assert(nf[0].start <= nf[0].end);
    lemma_padded(nf[0].start as nat, g.width);
    assert(p.take(at).push(SLOT) + p.skip(at + 1) =~= p);
    let st = read_group(g);
    if nf.len() == 1 && nf[0].start == nf[0].end {
        assert(nf =~= seq![Run { start: nf[0].start, end: nf[0].start }]);
        assert(nf.drop_first().len() == 0);
        assert(asked(nf.drop_first(), g.width) == 0);
        let d = padded(nf[0].start as nat, g.width);
        let numerals = seq![d];
        assert(!too_large(numerals)) by {
            if too_large(numerals) {
                let k = choose|k: int|
                    0 <= k < numerals.len() && numeral_value(#[trigger] numerals[k]) > u32::MAX;
                assert(numerals[k] == d);
            }
        }
        assert(singles(numerals) =~= nf);
        assert(numerals.drop_last() =~= Seq::<Seq<char>>::empty());
        assert(widest_numeral(numerals.drop_last()) == 0);
        assert(widest_numeral(numerals) == shown_width(nf[0].start as nat, g.width));
    }
    assert(finish(st) is Ok);
    assert(finish(st)->Ok_0 =~= seq![echo(g)]);
}

/// The text of a group with a slot is read as that group.
pub proof fn lemma_group_slot(s: Seq<char>, i: int, g: Group)
    requires
        group_wf(g),
        has_slot(g.pattern),
        occurs(s, i, render_group(g)),
        i + render_group(g).len() == s.len() || is_separator(s[i + render_group(g).len()]),
    ensures
        parse_name(s, i, reading_start()) == Ok::<(Reading, int), ParseError>(
            (read_group(g), i + render_group(g).len()),
        ),
{
    let p = g.pattern;
    let nf = normal_form(g.ids);
    let w = g.width;
    let shown = render_ids(nf, w);
    let text = render_group(g);
    let end = i + text.len();
    let start = reading_start();
    lemma_normal_form(g.ids);
    assert(flat(start) =~= Seq::<char>::empty());
    let at = slot_at(p);
    lemma_one_slot(p);
    lemma_fill_split(p, at, shown);
    let prefix = p.take(at);
    let suffix = p.skip(at + 1);
    assert(text == prefix + shown + suffix);
    lemma_occurs_concat(s, i, prefix + shown, suffix);
    lemma_occurs_concat(s, i, prefix, shown);
    let e = i + at;
    let after = e + shown.len();
    assert forall|k: int| i <= k < e implies is_plain(#[trigger] s[k]) || is_digit(s[k]) by {
        lemma_occurs_at(s, i, prefix, k - i);
    }
    if at > 0 {
        lemma_occurs_at(s, i, prefix, at - 1);
    }
    assert forall|k: int| after <= k < end implies is_plain(#[trigger] s[k]) by {
        lemma_occurs_at(s, after, suffix, k - after);
    }
    let st_p = lemma_scan_text(s, i, e, start);
    assert(s.subrange(i, e) == prefix);
    assert(flat(st_p) =~= prefix);
    if after < s.len() && after < end {
        assert(is_plain(s[after]));
    }
    lemma_slot(s, e, st_p, nf, w);
    let st_q = Reading {
        heads: seq![flat(st_p)],
        pending: slot_pending(nf, w),
        tail: Seq::<char>::empty(),
    };
    lemma_scan_tail(s, after, end, st_q);
    let st_f = Reading {
        heads: st_q.heads,
        pending: st_q.pending,
        tail: st_q.tail + s.subrange(after, end),
    };
    assert(st_f.tail =~= suffix);
    assert(st_f == read_group(g));
    assert(parse_name(s, end, st_f) == Ok::<(Reading, int), ParseError>((st_f, end)));
}

/// The text of a group, up to a separator or the end of the text, is read
/// as that group.
pub proof fn lemma_group(s: Seq<char>, i: int, g: Group)
    requires
        group_wf(g),
        occurs(s, i, render_group(g)),
        i + render_group(g).len() == s.len() || is_separator(s[i + render_group(g).len()]),
    ensures
        parse_name(s, i, reading_start()) matches Ok((st, next)) && next == i + render_group(
            g,
        ).len() && finish(st) == Ok::<Seq<Written>, ParseError>(seq![echo(g)]),
{
    let p = g.pattern;
    if has_slot(p) {
        lemma_group_slot(s, i, g);
        lemma_finish_group(g);
    } else {
        assert forall|k: int| 0 <= k < p.len() implies p[k] != SLOT by {
            if p[k] == SLOT {
                assert(has_slot(p));
            }
        }
        lemma_fill_plain(p, render_ids(normal_form(g.ids), g.width));
        lemma_group_plain(s, i, g);
    }
}

/// The first of several written groups stands before a comma and the rest.
pub proof fn lemma_render_first(c: Seq<Group>)
    requires
        c.len() >= 2,
    ensures
        render(c) == render_group(c[0]) + seq![','] + render(c.drop_first()),
    decreases c.len(),
{
    let front = c.drop_last();
    let rest = c.drop_first();
    if c.len() == 2 {
        assert(front.len() == 1 && front[0] == c[0]);
        assert(rest.len() == 1 && rest[0] == c[1]);
        assert(render(front) == render_group(front[0]));
        assert(render(rest) == render_group(rest[0]));
        assert(c.last() == c[1]);
    } else {
        lemma_render_first(front);
        assert(front.drop_first() =~= rest.drop_last());
        assert(front[0] == c[0]);
        assert(rest.last() == c.last());
        assert(render(c) =~= render_group(c[0]) + seq![','] + render(rest));
    }
}

/// What the canonical text of the groups says when it is read back.
pub open spec fn echoes(c: Seq<Group>) -> Seq<Written> {
    Seq::new(c.len(), |k: int| echo(c[k]))
}

/// The canonical text of groups, up to the end of the text, is read as
/// those groups in their order.
pub proof fn lemma_text(s: Seq<char>, i: int, c: Seq<Group>, acc: Seq<Written>)
    requires
        forall|k: int| 0 <= k < c.len() ==> group_wf(#[trigger] c[k]),
        occurs(s, i, render(c)),
        i + render(c).len() == s.len(),
    ensures
        parse_text(s, i, acc) == Ok::<Seq<Written>, ParseError>(acc + echoes(c)),
    decreases c.len(),
{
    if c.len() == 0 {
        assert(acc + echoes(c) =~= acc);
    } else {
        let g = c[0];
        let first = render_group(g);
        assert(group_wf(g));
        lemma_group_text(g);
        let acc2 = acc + seq![echo(g)];
        if c.len() == 1 {
            assert(render(c) == first);
            lemma_occurs_at(s, i, first, 0);
            lemma_group(s, i, g);
            assert(acc2 =~= acc + echoes(c));
            let read = parse_name(s, i, reading_start());
            assert(read is Ok);
            let end = i + first.len();
            assert(read->Ok_0.1 == end);
            assert(finish(read->Ok_0.0) == Ok::<Seq<Written>, ParseError>(seq![echo(g)]));
            assert(!is_separator(s[i]));
            assert(parse_text(s, i, acc) == parse_text(s, end, acc2));
            assert(parse_text(s, end, acc2) == Ok::<Seq<Written>, ParseError>(acc2));
        } else {
            let rest = c.drop_first();
            lemma_render_first(c);
            let more = seq![','] + render(rest);
            assert(render(c) =~= first + more);
            lemma_occurs_concat(s, i, first, more);
            lemma_occurs_concat(s, i + first.len(), seq![','], render(rest));
            lemma_occurs_at(s, i + first.len(), seq![','], 0);
            lemma_occurs_at(s, i, first, 0);
            lemma_group(s, i, g);
            assert forall|k: int| 0 <= k < rest.len() implies group_wf(#[trigger] rest[k]) by {
                assert(group_wf(c[k + 1]));
            }
            let mid = i + first.len();
            assert(is_separator(s[mid]));
            lemma_text(s, mid + 1, rest, acc2);
            assert(acc2 + echoes(rest) =~= acc + echoes(c)) by {
                assert forall|k: int| 0 <= k < rest.len() implies echoes(rest)[k] == echoes(c)[k
                    + 1] by {
                    assert(rest[k] == c[k + 1]);
                }
            }
            let read = parse_name(s, i, reading_start());
            assert(read is Ok);
            assert(read->Ok_0.1 == mid);
            assert(finish(read->Ok_0.0) == Ok::<Seq<Written>, ParseError>(seq![echo(g)]));
            assert(!is_separator(s[i]));
            assert(parse_text(s, i, acc) == parse_text(s, mid, acc2));
            assert(parse_text(s, mid, acc2) == parse_text(s, mid + 1, acc2));
        }
    }
}

/// The width that written runs ask for is the width with which they were
/// written, or none; and where it is none, no start shows a width.
pub proof fn lemma_asked(runs: Seq<Run>, width: nat)
    ensures
        asked(runs, width) == 0 || asked(runs, width) == width,
        asked(runs, width) == 0 ==> forall|k: int|
            0 <= k < runs.len() ==> shown_width((#[trigger] runs[k]).start as nat, width) == 0,
    decreases runs.len(),
{
    if runs.len() > 0 {
        lemma_asked(runs.drop_first(), width);
        if asked(runs, width) == 0 {
            assert forall|k: int| 0 <= k < runs.len() implies shown_width(
                (#[trigger] runs[k]).start as nat,
                width,
            ) == 0 by {
                if k > 0 {
                    assert(runs.drop_first()[k - 1] == runs[k]);
                }
            }
        }
    }
}

/// Runs are written the same with the width that they ask for as with the
/// width that is kept for them.
pub proof fn lemma_render_asked(runs: Seq<Run>, width: nat, shown: nat)
    requires
        runs_valid(runs),
        shown == width || (shown == 0 && forall|k: int|
            0 <= k < runs.len() ==> shown_width((#[trigger] runs[k]).start as nat, width) == 0),
    ensures
        render_runs(runs, shown) == render_runs(runs, width),
        forall|k: int|
            0 <= k < runs.len() ==> padded((#[trigger] runs[k]).start as nat, shown) == padded(
                runs[k].start as nat,
                width,
            ),
    decreases runs.len(),
{
    assert forall|k: int| 0 <= k < runs.len() implies padded(
        (#[trigger] runs[k]).start as nat,
        shown,
    ) == padded(runs[k].start as nat, width) && render_run(runs[k], shown) == render_run(
        runs[k],
        width,
    ) by {
        if shown != width {
            assert(shown_width(runs[k].start as nat, width) == 0);
            assert(runs[k].start <= runs[k].end);
            lemma_decimal_len(runs[k].start as nat, runs[k].end as nat);
        }
    }
    if runs.len() > 1 {
        let front = runs.drop_last();
        assert(runs_valid(front)) by {
            assert forall|k: int| 0 <= k < front.len() implies (#[trigger] front[k]).start
                <= front[k].end by {
                assert(runs[k].start <= runs[k].end);
            }
        }
        assert forall|k: int| 0 <= k < front.len() implies shown_width(
            (#[trigger] front[k]).start as nat,
            width,
        ) == 0 || shown == width by {
            assert(front[k] == runs[k]);
        }
        lemma_render_asked(front, width, shown);
        assert(runs.last() == runs[runs.len() - 1]);
    } else if runs.len() == 1 {
        assert(runs[0] == runs[0]);
    }
}

/// Groups with the same texts, one by one, have the same text together.
pub proof fn lemma_render_same(x: Seq<Group>, y: Seq<Group>)
    requires
        x.len() == y.len(),
        forall|k: int| 0 <= k < x.len() ==> render_group(#[trigger] x[k]) == render_group(y[k]),
    ensures
        render(x) == render(y),
    decreases x.len(),
{
    if x.len() > 1 {
        let fx = x.drop_last();
        let fy = y.drop_last();
        assert forall|k: int| 0 <= k < fx.len() implies render_group(#[trigger] fx[k])
            == render_group(fy[k]) by {
            assert(render_group(x[k]) == render_group(y[k]));
        }
        lemma_render_same(fx, fy);
        assert(render_group(x[x.len() - 1]) == render_group(y[x.len() - 1]));
    } else if x.len() == 1 {
        assert(render_group(x[0]) == render_group(y[0]));
    }
}

/// What is read back holds the nodes that were written.
pub proof fn lemma_echoes(x: Seq<Group>)
    requires
        content_wf(x),
    ensures
        written_groups(echoes(x)).len() == x.len(),
        forall|k: int|
            0 <= k < x.len() ==> (#[trigger] written_groups(echoes(x))[k]).pattern == x[k].pattern
                && written_groups(echoes(x))[k].ids == x[k].ids,
        members(written_groups(echoes(x))) == members(x),
        ascending(written_groups(echoes(x))),
{
    let ex = written_groups(echoes(x));
    assert forall|k: int| 0 <= k < x.len() implies (#[trigger] ex[k]).pattern == x[k].pattern
        && ex[k].ids == x[k].ids by {
        let g = x[k];
        assert(group_wf(g));
        lemma_normal_form(g.ids);
        if !has_slot(g.pattern) {
            let one = seq![Run { start: 0, end: 0 }];
            assert(runs_set(one) =~= set![0int]) by {
                assert forall|v: int| runs_set(one).contains(v) == (v == 0) by {
                    assert(runs_set(one).contains(v) == crate::runs::runs_hold(one, v));
                    if v == 0 {
                        assert(crate::runs::run_holds(one[0], v));
                    }
                }
            }
        }
    }
    assert forall|n: Node| members(ex).contains(n) == members(x).contains(n) by {
        assert(members(ex).contains(n) == holds_node(ex, n));
        assert(members(x).contains(n) == holds_node(x, n));
        if holds_node(ex, n) {
            let k = choose|k: int|
                0 <= k < ex.len() && (#[trigger] ex[k]).pattern == n.0 && ex[k].ids.contains(n.1);
            assert(x[k].pattern == n.0 && x[k].ids.contains(n.1));
        }
        if holds_node(x, n) {
            let k = choose|k: int|
                0 <= k < x.len() && (#[trigger] x[k]).pattern == n.0 && x[k].ids.contains(n.1);
            assert(ex[k].pattern == n.0 && ex[k].ids.contains(n.1));
        }
    }
    assert(members(ex) =~= members(x));
    assert forall|i: int, j: int|
        #![trigger ex[i], ex[j]]
        0 <= i < j < ex.len() implies crate::order::comes_before(ex[i].pattern, ex[j].pattern) by {
        assert(crate::order::comes_before(x[i].pattern, x[j].pattern));
    }
}

/// The canonical text of a content is in the folded notation and says what
/// the content holds; and every content that gathers what it says has the
/// same canonical text.
pub proof fn lemma_render_parse(x: Seq<Group>)
    requires
        content_wf(x),
    ensures
        parse_spec(render(x)) == Ok::<Seq<Written>, ParseError>(echoes(x)),
        members(written_groups(echoes(x))) == members(x),
        forall|y: Seq<Group>| #[trigger]
            gathers(written_groups(echoes(x)), y) ==> members(y) == members(x) && render(y)
                == render(x),
{
    let s = render(x);
    assert(s.subrange(0, s.len() as int) =~= s);
    lemma_text(s, 0, x, Seq::empty());
    assert(Seq::<Written>::empty() + echoes(x) =~= echoes(x));
    lemma_echoes(x);
    let ex = written_groups(echoes(x));
    assert forall|y: Seq<Group>| #[trigger] gathers(ex, y) implies members(y) == members(x)
        && render(y) == render(x) by {
        lemma_content_unique(y, x);
        assert forall|k: int| 0 <= k < y.len() implies render_group(#[trigger] y[k])
            == render_group(x[k]) by {
            let g = x[k];
            let p = g.pattern;
            assert(group_wf(g));
            assert(y[k].pattern == p && y[k].ids == g.ids);
            let nf = normal_form(g.ids);
            lemma_normal_form(g.ids);
            if has_slot(p) {
                lemma_widest_at(ex, k);
                assert(ex[k].pattern == p);
                assert(ex[k].width == asked(nf, g.width));
                assert(y[k].width == asked(nf, g.width));
                lemma_asked(nf, g.width);
                lemma_render_asked(nf, g.width, asked(nf, g.width));
                assert(nf[0] == nf[0]);
                assert(render_ids(nf, y[k].width) == render_ids(nf, g.width));
            } else {
                assert forall|t: int| 0 <= t < p.len() implies p[t] != SLOT by {
                    if p[t] == SLOT {
                        assert(has_slot(p));
                    }
                }
                lemma_fill_plain(p, render_ids(nf, g.width));
                lemma_fill_plain(p, render_ids(nf, y[k].width));
            }
        }
        lemma_render_same(y, x);
    }
}

/// Contents with the same canonical text hold the same nodes and begin
/// with the same stems.
pub proof fn lemma_render_same_content(x: Seq<Group>, y: Seq<Group>)
    requires
        content_wf(x),
        content_wf(y),
        render(x) == render(y),
    ensures
        members(x) == members(y),
        stems_of(x) == stems_of(y),
        folded_text(x) == folded_text(y),
{
    lemma_render_parse(x);
    lemma_render_parse(y);
    lemma_echoes(x);
    lemma_echoes(y);
    assert(echoes(x) == echoes(y));
    assert(x.len() == y.len());
    assert forall|k: int| 0 <= k < x.len() implies stem_of(#[trigger] x[k]) == stem_of(y[k]) by {
        let g = x[k];
        let h = y[k];
        assert(group_wf(g) && group_wf(h));
        assert(echoes(x)[k] == echo(g));
        assert(echoes(y)[k] == echo(h));
        assert(echo(g) == echo(h));
        assert(g.pattern == h.pattern);
        if has_slot(g.pattern) {
            let nf = normal_form(g.ids);
            lemma_normal_form(g.ids);
            lemma_normal_form(h.ids);
            assert(normal_form(h.ids) == nf);
            assert(g.ids == h.ids);
            lemma_asked(nf, g.width);
            lemma_asked(nf, h.width);
            lemma_render_asked(nf, g.width, asked(nf, g.width));
            lemma_render_asked(nf, h.width, asked(nf, h.width));
            assert(nf[0] == nf[0]);
            assert(render_ids(nf, g.width) == render_ids(nf, h.width));
        }
    }
    assert(stems_of(x) =~= stems_of(y));
}

} // verus!

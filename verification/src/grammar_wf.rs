//! Every pattern that a text gives is in the one form that a name has, and
//! comes with at least one run.

use crate::grammar::{
    adjacent, cross, digits_end, expand, extend_each, finish, lemma_digits_end, lemma_items_end,
    lemma_name_end, numerals_of, parse_item, parse_items, parse_name, parse_spec, parse_text,
    reading_start, spread, spread_run, with_number, with_plain, Pending, Reading, Written,
};
use crate::numeral::{all_digits, is_digit, padded};
use crate::pattern::{has_digit, has_slot, is_plain, is_separator, pattern_wf, SLOT};
use crate::range::wider;
use crate::runs::{runs_valid, Run};
use vstd::prelude::*;

verus! {

/// What holds of each pattern that a text gives.
pub open spec fn written_wf(w: Written) -> bool {
    &&& pattern_wf(w.pattern)
    &&& runs_valid(w.runs)
    &&& w.runs.len() > 0
    &&& !has_slot(w.pattern) ==> w.runs == seq![Run { start: 0, end: 0 }]
}

/// Plain characters only.
pub open spec fn all_plain(t: Seq<char>) -> bool {
    forall|i: int| 0 <= i < t.len() ==> is_plain(#[trigger] t[i])
}

/// Plain characters and digits, not ending in a digit.
pub open spec fn settled_text(t: Seq<char>) -> bool {
    &&& forall|i: int| 0 <= i < t.len() ==> is_plain(#[trigger] t[i]) || is_digit(t[i])
    &&& t.len() > 0 ==> is_plain(t.last())
}

/// Numerals: at least one, each with at least one digit and digits only.
pub open spec fn numerals_wf(numerals: Seq<Seq<char>>) -> bool {
    &&& numerals.len() > 0
    &&& forall|k: int|
        0 <= k < numerals.len() ==> all_digits(#[trigger] numerals[k]) && numerals[k].len() > 0
}

/// What holds of a number that has been read.
pub open spec fn number_wf(number: Pending) -> bool {
    match number {
        Pending::Nothing => false,
        Pending::Numerals(numerals) => numerals_wf(numerals),
        Pending::Bracket(runs, width) => runs_valid(runs) && runs.len() > 0,
    }
}

/// What holds of a name while it is read.
pub open spec fn reading_wf(st: Reading) -> bool {
    &&& st.heads.len() > 0
    &&& match st.pending {
        Pending::Nothing => st.tail.len() == 0 && forall|k: int|
            0 <= k < st.heads.len() ==> all_plain(#[trigger] st.heads[k]),
        _ => number_wf(st.pending) && all_plain(st.tail) && forall|k: int|
            0 <= k < st.heads.len() ==> settled_text(#[trigger] st.heads[k]),
    }
}

/// Whether anything of the name has been read.
pub open spec fn started(st: Reading) -> bool {
    !(st.pending is Nothing) || forall|k: int|
        0 <= k < st.heads.len() ==> (#[trigger] st.heads[k]).len() > 0
}

/// What holds of a text of a name: of a numeral that it is digits, of a
/// head that it is plain text and digits and does not end in a digit.
pub open spec fn textured(t: Seq<char>, numeral: bool) -> bool {
    if numeral {
        all_digits(t)
    } else {
        settled_text(t)
    }
}

/// What holds of the tail that follows: after a numeral none, after a head
/// plain text.
pub open spec fn tail_fits(tail: Seq<char>, numeral: bool) -> bool {
    if numeral {
        tail.len() == 0
    } else {
        all_plain(tail) && tail.len() > 0
    }
}

pub proof fn lemma_padded_digits(v: nat, width: nat)
    ensures
        all_digits(padded(v, width)),
        padded(v, width).len() > 0,
        padded(v, width).len() >= width,
{
    crate::numeral::lemma_decimal(v);
}

/// A text with a numeral and a fitting tail after it is a text of the same
/// kind.
pub proof fn lemma_textured(head: Seq<char>, d: Seq<char>, tail: Seq<char>, numeral: bool)
    requires
        textured(head, numeral),
        all_digits(d),
        d.len() > 0,
        tail_fits(tail, numeral),
    ensures
        textured(head + d + tail, numeral),
        (head + d + tail).len() > 0,
{
    let name = head + d + tail;
    assert forall|i: int| 0 <= i < name.len() implies (if numeral {
        is_digit(#[trigger] name[i])
    } else {
        is_plain(name[i]) || is_digit(name[i])
    }) by {
        if i < head.len() {
            assert(name[i] == head[i]);
        } else if i < head.len() + d.len() {
            assert(name[i] == d[i - head.len()]);
        } else {
            assert(name[i] == tail[i - head.len() - d.len()]);
        }
    }
    if !numeral {
        assert(name.last() == tail.last());
    }
}

proof fn lemma_spread_run(
    head: Seq<char>,
    lo: int,
    hi: int,
    width: nat,
    tail: Seq<char>,
    numeral: bool,
)
    requires
        textured(head, numeral),
        tail_fits(tail, numeral),
        0 <= lo,
    ensures
        forall|k: int|
            0 <= k < spread_run(head, lo, hi, width, tail).len() ==> textured(
                #[trigger] spread_run(head, lo, hi, width, tail)[k],
                numeral,
            ) && spread_run(head, lo, hi, width, tail)[k].len() > 0,
        lo <= hi ==> spread_run(head, lo, hi, width, tail).len() > 0,
    decreases hi - lo + 1,
{
    let all = spread_run(head, lo, hi, width, tail);
    if hi >= lo {
        let front = spread_run(head, lo, hi - 1, width, tail);
        lemma_spread_run(head, lo, hi - 1, width, tail, numeral);
        lemma_padded_digits(hi as nat, width);
        let name = head + padded(hi as nat, width) + tail;
        lemma_textured(head, padded(hi as nat, width), tail, numeral);
        assert(all == front.push(name));
        assert forall|k: int| 0 <= k < all.len() implies textured(#[trigger] all[k], numeral)
            && all[k].len() > 0 by {
            if k < front.len() {
                assert(all[k] == front[k]);
            }
        }
    }
}

proof fn lemma_spread(head: Seq<char>, runs: Seq<Run>, width: nat, tail: Seq<char>, numeral: bool)
    requires
        textured(head, numeral),
        tail_fits(tail, numeral),
        runs_valid(runs),
    ensures
        forall|k: int|
            0 <= k < spread(head, runs, width, tail).len() ==> textured(
                #[trigger] spread(head, runs, width, tail)[k],
                numeral,
            ) && spread(head, runs, width, tail)[k].len() > 0,
        runs.len() > 0 ==> spread(head, runs, width, tail).len() > 0,
    decreases runs.len(),
{
    if runs.len() > 0 {
        assert(runs_valid(runs.drop_last())) by {
            assert forall|k: int| 0 <= k < runs.drop_last().len() implies (
            #[trigger] runs.drop_last()[k]).start <= runs.drop_last()[k].end by {
                assert(runs[k].start <= runs[k].end);
            }
        }
        lemma_spread(head, runs.drop_last(), width, tail, numeral);
        lemma_spread_run(
            head,
            runs.last().start as int,
            runs.last().end as int,
            width,
            tail,
            numeral,
        );
        assert(runs[runs.len() - 1].start <= runs[runs.len() - 1].end);
        let all = spread(head, runs, width, tail);
        let front = spread(head, runs.drop_last(), width, tail);
        let back = spread_run(head, runs.last().start as int, runs.last().end as int, width, tail);
        assert(all == front + back);
        assert forall|k: int| 0 <= k < all.len() implies textured(#[trigger] all[k], numeral)
            && all[k].len() > 0 by {
            if k < front.len() {
                assert(all[k] == front[k]);
            } else {
                assert(all[k] == back[k - front.len()]);
            }
        }
    }
}

/// The texts that heads give when they are spread over runs are texts of
/// the same kind.
pub proof fn lemma_expand(
    heads: Seq<Seq<char>>,
    runs: Seq<Run>,
    width: nat,
    tail: Seq<char>,
    numeral: bool,
)
    requires
        forall|k: int| 0 <= k < heads.len() ==> textured(#[trigger] heads[k], numeral),
        tail_fits(tail, numeral),
        runs_valid(runs),
    ensures
        forall|k: int|
            0 <= k < expand(heads, runs, width, tail).len() ==> textured(
                #[trigger] expand(heads, runs, width, tail)[k],
                numeral,
            ) && expand(heads, runs, width, tail)[k].len() > 0,
        runs.len() > 0 && heads.len() > 0 ==> expand(heads, runs, width, tail).len() > 0,
    decreases heads.len(),
{
    if heads.len() > 0 {
        assert forall|k: int| 0 <= k < heads.drop_last().len() implies textured(
            #[trigger] heads.drop_last()[k],
            numeral,
        ) by {
            assert(textured(heads[k], numeral));
        }
        lemma_expand(heads.drop_last(), runs, width, tail, numeral);
        assert(textured(heads[heads.len() - 1], numeral));
        lemma_spread(heads.last(), runs, width, tail, numeral);
        let all = expand(heads, runs, width, tail);
        let front = expand(heads.drop_last(), runs, width, tail);
        let back = spread(heads.last(), runs, width, tail);
        assert(all == front + back);
        assert forall|k: int| 0 <= k < all.len() implies textured(#[trigger] all[k], numeral)
            && all[k].len() > 0 by {
            if k < front.len() {
                assert(all[k] == front[k]);
            } else {
                assert(all[k] == back[k - front.len()]);
            }
        }
    }
}

/// The texts that heads give with numerals after them are texts of the
/// same kind.
pub proof fn lemma_cross(
    heads: Seq<Seq<char>>,
    numerals: Seq<Seq<char>>,
    tail: Seq<char>,
    numeral: bool,
)
    requires
        forall|k: int| 0 <= k < heads.len() ==> textured(#[trigger] heads[k], numeral),
        tail_fits(tail, numeral),
        numerals_wf(numerals),
    ensures
        forall|k: int|
            0 <= k < cross(heads, numerals, tail).len() ==> textured(
                #[trigger] cross(heads, numerals, tail)[k],
                numeral,
            ) && cross(heads, numerals, tail)[k].len() > 0,
        heads.len() > 0 ==> cross(heads, numerals, tail).len() > 0,
    decreases heads.len(),
{
    if heads.len() > 0 {
        assert forall|k: int| 0 <= k < heads.drop_last().len() implies textured(
            #[trigger] heads.drop_last()[k],
            numeral,
        ) by {
            assert(textured(heads[k], numeral));
        }
        lemma_cross(heads.drop_last(), numerals, tail, numeral);
        let head = heads.last();
        assert(textured(heads[heads.len() - 1], numeral));
        let all = cross(heads, numerals, tail);
        let front = cross(heads.drop_last(), numerals, tail);
        let back = extend_each(head, numerals, tail);
        assert(all == front + back);
        assert forall|k: int| 0 <= k < all.len() implies textured(#[trigger] all[k], numeral)
            && all[k].len() > 0 by {
            if k < front.len() {
                assert(all[k] == front[k]);
            } else {
                let j = k - front.len();
                assert(all[k] == back[j]);
                assert(back[j] == head + numerals[j] + tail);
                lemma_textured(head, numerals[j], tail, numeral);
            }
        }
    }
}

/// A number that has been read stands for well-formed numerals.
pub proof fn lemma_numerals_of(number: Pending)
    requires
        number_wf(number),
    ensures
        numerals_wf(numerals_of(number)),
{
    match number {
        Pending::Bracket(runs, width) => {
            let none = Seq::<char>::empty();
            lemma_spread(none, runs, width, none, true);
        },
        _ => {},
    }
}

/// One more number keeps what holds of a name while it is read.
pub proof fn lemma_with_number_wf(st: Reading, number: Pending)
    requires
        reading_wf(st),
        number_wf(number),
    ensures
        reading_wf(with_number(st, number)),
        started(with_number(st, number)),
{
    let next = with_number(st, number);
    let none = Seq::<char>::empty();
    if adjacent(st) {
        let firsts = numerals_of(st.pending);
        lemma_numerals_of(st.pending);
        match number {
            Pending::Numerals(numerals) => {
                lemma_cross(firsts, numerals, none, true);
            },
            Pending::Bracket(runs, width) => {
                lemma_expand(firsts, runs, width, none, true);
            },
            _ => {},
        }
    } else {
        match st.pending {
            Pending::Nothing => {
                assert forall|k: int| 0 <= k < st.heads.len() implies settled_text(
                    #[trigger] st.heads[k],
                ) by {
                    assert(all_plain(st.heads[k]));
                }
            },
            Pending::Numerals(numerals) => {
                lemma_cross(st.heads, numerals, st.tail, false);
            },
            Pending::Bracket(runs, width) => {
                lemma_expand(st.heads, runs, width, st.tail, false);
            },
        }
    }
}

/// The runs of a bracket that is read are valid, and there is at least one.
pub proof fn lemma_items_wf(s: Seq<char>, i: int, runs: Seq<Run>, width: nat)
    requires
        runs_valid(runs),
    ensures
        parse_items(s, i, runs, width) matches Ok(listed) ==> runs_valid(listed.runs)
            && listed.runs.len() > 0,
    decreases s.len() - i,
{
    if 0 <= i < s.len() {
        lemma_digits_end(s, i);
        if digits_end(s, i) < s.len() {
            lemma_digits_end(s, digits_end(s, i) + 1);
        }
        match parse_item(s, i) {
            Err(e) => {},
            Ok(item) => {
                let runs2 = runs.push(item.run);
                assert(runs_valid(runs2)) by {
                    assert forall|k: int| 0 <= k < runs2.len() implies (#[trigger] runs2[k]).start
                        <= runs2[k].end by {
                        if k < runs.len() {
                            assert(runs[k].start <= runs[k].end);
                        }
                    }
                }
                if item.next < s.len() && s[item.next] == ',' {
                    lemma_items_wf(s, item.next + 1, runs2, wider(width, item.width));
                }
            },
        }
    }
}

/// One more character of plain text keeps what holds of a name while it is
/// read.
pub proof fn lemma_plain_wf(st: Reading, c: char)
    requires
        reading_wf(st),
        is_plain(c),
    ensures
        reading_wf(with_plain(st, c)),
        started(with_plain(st, c)),
{
    let next = with_plain(st, c);
    match st.pending {
        Pending::Nothing => {
            assert forall|k: int| 0 <= k < next.heads.len() implies all_plain(
                #[trigger] next.heads[k],
            ) && next.heads[k].len() > 0 by {
                assert(all_plain(st.heads[k]));
                assert(next.heads[k] == st.heads[k] + seq![c]);
            }
        },
        _ => {},
    }
}

/// Reading a name keeps what holds of it while it is read.
pub proof fn lemma_name_wf(s: Seq<char>, i: int, st: Reading)
    requires
        0 <= i <= s.len(),
        reading_wf(st),
    ensures
        parse_name(s, i, st) matches Ok((last, _)) ==> reading_wf(last) && ((started(st) || (i
            < s.len() && !is_separator(s[i]))) ==> started(last)),
    decreases s.len() - i,
{
    if i < s.len() && !is_separator(s[i]) && s[i] != ']' {
        if s[i] == '[' {
            match parse_items(s, i + 1, Seq::empty(), 0) {
                Err(e) => {},
                Ok(listed) => {
                    lemma_items_end(s, i + 1, Seq::empty(), 0);
                    lemma_items_wf(s, i + 1, Seq::empty(), 0);
                    let number = Pending::Bracket(listed.runs, listed.width);
                    lemma_with_number_wf(st, number);
                    lemma_name_wf(s, listed.next, with_number(st, number));
                },
            }
        } else if is_digit(s[i]) {
            lemma_digits_end(s, i);
            let d = s.subrange(i, digits_end(s, i));
            let number = Pending::Numerals(seq![d]);
            assert(numerals_wf(seq![d]));
            lemma_with_number_wf(st, number);
            lemma_name_wf(s, digits_end(s, i), with_number(st, number));
        } else {
            let c = s[i];
            let next = with_plain(st, c);
            assert(is_plain(c));
            lemma_plain_wf(st, c);
            lemma_name_wf(s, i + 1, next);
        }
    }
}

/// The patterns of a name that has been read are in the form that a name
/// has.
pub proof fn lemma_finish_wf(st: Reading)
    requires
        reading_wf(st),
        started(st),
    ensures
        finish(st) matches Ok(found) ==> found.len() > 0 && forall|k: int|
            0 <= k < found.len() ==> written_wf(#[trigger] found[k]),
{
    match finish(st) {
        Err(e) => {},
        Ok(found) => {
            assert forall|k: int| 0 <= k < found.len() implies written_wf(#[trigger] found[k]) by {
                let head = st.heads[k];
                let t = found[k].pattern;
                match st.pending {
                    Pending::Nothing => {
                        assert(all_plain(head));
                        assert(head.len() > 0);
                        assert(!has_digit(t)) by {
                            if has_digit(t) {
                                let i = choose|i: int| 0 <= i < t.len() && is_digit(#[trigger] t[i]);
                                assert(is_plain(t[i]));
                            }
                        }
                        assert(pattern_wf(t)) by {
                            assert forall|i: int| 0 <= i < t.len() implies !is_separator(
                                #[trigger] t[i],
                            ) && t[i] != ']' by {
                                assert(is_plain(t[i]));
                            }
                            assert forall|i: int, j: int|
                                #![trigger t[i], t[j]]
                                0 <= i < j < t.len() && t[i] == SLOT implies is_plain(t[j]) by {
                                assert(is_plain(t[j]));
                            }
                            assert forall|i: int| 0 < i < t.len() && #[trigger] t[i]
                                == SLOT implies !is_digit(t[i - 1]) by {
                                assert(is_plain(t[i]));
                            }
                        }
                    },
                    _ => {
                        assert(settled_text(head));
                        assert(all_plain(st.tail));
                        assert(t == head.push(SLOT) + st.tail);
                        let at = head.len() as int;
                        assert(t[at] == SLOT);
                        assert(has_slot(t));
                        assert forall|i: int| 0 <= i < t.len() implies !is_separator(
                            #[trigger] t[i],
                        ) && t[i] != ']' by {
                            if i < at {
                                assert(t[i] == head[i]);
                            } else if i > at {
                                assert(t[i] == st.tail[i - at - 1]);
                                assert(is_plain(st.tail[i - at - 1]));
                            }
                        }
                        assert forall|i: int, j: int|
                            #![trigger t[i], t[j]]
                            0 <= i < j < t.len() && t[i] == SLOT implies is_plain(t[j]) by {
                            if i < at {
                                assert(t[i] == head[i]);
                                assert(is_plain(head[i]) || is_digit(head[i]));
                            }
                            if i > at {
                                assert(t[i] == st.tail[i - at - 1]);
                                assert(is_plain(st.tail[i - at - 1]));
                            }
                            assert(t[j] == st.tail[j - at - 1]);
                            assert(is_plain(st.tail[j - at - 1]));
                        }
                        assert forall|i: int| 0 < i < t.len() && #[trigger] t[i]
                            == SLOT implies !is_digit(t[i - 1]) by {
                            if i < at {
                                assert(t[i] == head[i]);
                                assert(is_plain(head[i]) || is_digit(head[i]));
                            } else if i > at {
                                assert(t[i] == st.tail[i - at - 1]);
                                assert(is_plain(st.tail[i - at - 1]));
                            } else {
                                assert(t[i - 1] == head[at - 1]);
                                assert(head.last() == head[at - 1]);
                            }
                        }
                    },
                }
            }
        },
    }
}

proof fn lemma_text_wf(s: Seq<char>, i: int, acc: Seq<Written>)
    requires
        0 <= i <= s.len(),
        forall|k: int| 0 <= k < acc.len() ==> written_wf(#[trigger] acc[k]),
    ensures
        parse_text(s, i, acc) matches Ok(found) ==> forall|k: int|
            0 <= k < found.len() ==> written_wf(#[trigger] found[k]),
    decreases s.len() - i,
{
    if i < s.len() {
        if is_separator(s[i]) {
            lemma_text_wf(s, i + 1, acc);
        } else {
            let start = reading_start();
            assert(reading_wf(start)) by {
                assert forall|k: int| 0 <= k < start.heads.len() implies all_plain(
                    #[trigger] start.heads[k],
                ) by {}
            }
            lemma_name_end(s, i, start);
            lemma_name_wf(s, i, start);
            match parse_name(s, i, start) {
                Err(e) => {},
                Ok((st, next)) => {
                    lemma_finish_wf(st);
                    match finish(st) {
                        Err(e) => {},
                        Ok(found) => {
                            let all = acc + found;
                            assert forall|k: int| 0 <= k < all.len() implies written_wf(
                                #[trigger] all[k],
                            ) by {
                                if k < acc.len() {
                                    assert(written_wf(acc[k]));
                                } else {
                                    assert(written_wf(found[k - acc.len()]));
                                }
                            }
                            lemma_text_wf(s, next, all);
                        },
                    }
                },
            }
        }
    }
}

/// Each pattern that a text gives is in the form that a name has, with valid
/// runs for its slot.
pub proof fn lemma_parse_wf(s: Seq<char>)
    ensures
        parse_spec(s) matches Ok(found) ==> forall|k: int|
            0 <= k < found.len() ==> written_wf(#[trigger] found[k]),
{
    lemma_text_wf(s, 0, Seq::empty());
}

} // verus!

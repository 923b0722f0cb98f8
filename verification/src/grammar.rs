//! The folded notation, as a function from text to what the text says.
//!
//! A text is a list of node names, separated by blanks or commas. A name is
//! plain text in which numbers stand: a numeral, or a bracket that lists
//! numerals and ranges of them, such as `[1-3,7]`. The last number of a name
//! is its slot; a bracket before it stands for one name per identifier that
//! it lists, and a numeral before it is part of the text as it is written.
//! Numbers that follow one another with nothing between them are one
//! number: each numeral of the first with each numeral of the second after
//! it.
//!
//! A numeral that is written with leading zeros asks for its length as the
//! width to which the identifiers of its pattern are zero-padded when they
//! are shown; a bracket asks for the widest width that the start of one of
//! its items asks for, and a pattern is shown with the widest width that
//! was asked for it. The end of a range may be zero-padded only to the
//! width of its start.

use crate::numeral::{is_digit, numeral_value, numeral_width, padded};
use crate::pattern::{is_separator, is_space, SLOT};
use crate::range::wider;
use crate::runs::Run;
use vstd::prelude::*;

verus! {

/// Why a text is not in the folded notation.
#[derive(Clone, Copy, Debug, PartialEq, Eq, Structural)]
pub enum ParseError {
    /// A `[` without its `]` before the name ends, or a `]` without its `[`.
    UnmatchedBracket,
    /// A range whose start is greater than its end.
    InvertedRange,
    /// In a bracket, something that is neither a numeral nor a range.
    NonNumeric,
    /// A range whose end is zero-padded to another width than its start.
    PaddingConflict,
    /// A numeral greater than the greatest identifier.
    NumberTooLarge,
}

impl ParseError {
    /// What the error says, in words.
    pub open spec fn message(self) -> Seq<char> {
        match self {
            ParseError::UnmatchedBracket => "unmatched bracket"@,
            ParseError::InvertedRange => "range starts after its end"@,
            ParseError::NonNumeric => "not a number"@,
            ParseError::PaddingConflict => "conflicting zero padding in a range"@,
            ParseError::NumberTooLarge => "number too large"@,
        }
    }

    /// What the error says, in words.
    pub fn describe(&self) -> (text: String)
        ensures
            text@ == self.message(),
    {
        match self {
            ParseError::UnmatchedBracket => String::from_str("unmatched bracket"),
            ParseError::InvertedRange => String::from_str("range starts after its end"),
            ParseError::NonNumeric => String::from_str("not a number"),
            ParseError::PaddingConflict => String::from_str("conflicting zero padding in a range"),
            ParseError::NumberTooLarge => String::from_str("number too large"),
        }
    }
}

/// One pattern as a text gives it: the runs written for its slot, in the
/// order and form in which they are written, and the width asked for. A
/// pattern without a slot comes with the single identifier 0.
pub struct Written {
    pub pattern: Seq<char>,
    pub runs: Seq<Run>,
    pub width: nat,
}

/// One item of a bracket, and where the text goes on after it.
pub struct Item {
    pub run: Run,
    pub width: nat,
    pub next: int,
}

/// The items of a bracket, and where the text goes on after its `]`.
pub struct Listed {
    pub runs: Seq<Run>,
    pub width: nat,
    pub next: int,
}

/// The number of a name that was read last and may yet be its slot: a
/// bracket by what it lists, anything else by its numerals.
pub enum Pending {
    Nothing,
    Numerals(Seq<Seq<char>>),
    Bracket(Seq<Run>, nat),
}

/// A name while it is read: the texts that it stands for up to the pending
/// number, that number, and the plain text read after it.
pub struct Reading {
    pub heads: Seq<Seq<char>>,
    pub pending: Pending,
    pub tail: Seq<char>,
}

/// Where the digits that start at `i` end.
pub open spec fn digits_end(s: Seq<char>, i: int) -> int
    decreases s.len() - i,
{
    if 0 <= i < s.len() && is_digit(s[i]) {
        digits_end(s, i + 1)
    } else {
        i
    }
}

pub proof fn lemma_digits_end(s: Seq<char>, i: int)
    requires
        0 <= i <= s.len(),
    ensures
        i <= digits_end(s, i) <= s.len(),
        forall|k: int| i <= k < digits_end(s, i) ==> is_digit(#[trigger] s[k]),
        digits_end(s, i) < s.len() ==> !is_digit(s[digits_end(s, i)]),
        i < s.len() && is_digit(s[i]) ==> digits_end(s, i) > i,
    decreases s.len() - i,
{
    if i < s.len() && is_digit(s[i]) {
        lemma_digits_end(s, i + 1);
    }
}

/// What is wrong with a bracket that cannot go on at `i`: where the text or
/// the name ends there, the bracket is not closed; anything else is not a
/// number.
pub open spec fn broken_at(s: Seq<char>, i: int) -> ParseError {
    if i < 0 || i >= s.len() || is_space(s[i]) {
        ParseError::UnmatchedBracket
    } else {
        ParseError::NonNumeric
    }
}

/// A numeral, or two with `-` between them, at `i`.
pub open spec fn parse_item(s: Seq<char>, i: int) -> Result<Item, ParseError> {
    let e1 = digits_end(s, i);
    let a = s.subrange(i, e1);
    if e1 == i {
        Err(broken_at(s, i))
    } else if numeral_value(a) > u32::MAX {
        Err(ParseError::NumberTooLarge)
    } else if e1 < s.len() && s[e1] == '-' {
        let e2 = digits_end(s, e1 + 1);
        let b = s.subrange(e1 + 1, e2);
        if e2 == e1 + 1 {
            Err(broken_at(s, e2))
        } else if numeral_value(b) > u32::MAX {
            Err(ParseError::NumberTooLarge)
        } else if numeral_value(a) > numeral_value(b) {
            Err(ParseError::InvertedRange)
        } else if numeral_width(b) != 0 && numeral_width(b) != numeral_width(a) {
            Err(ParseError::PaddingConflict)
        } else {
            Ok(
                Item {
                    run: Run { start: numeral_value(a) as u32, end: numeral_value(b) as u32 },
                    width: numeral_width(a),
                    next: e2,
                },
            )
        }
    } else {
        Ok(
            Item {
                run: Run { start: numeral_value(a) as u32, end: numeral_value(a) as u32 },
                width: numeral_width(a),
                next: e1,
            },
        )
    }
}

/// The rest of a bracket from `i`, after the items in `runs`: items with
/// commas between them, up to the `]`. The width is the widest that the
/// start of an item asks for.
pub open spec fn parse_items(s: Seq<char>, i: int, runs: Seq<Run>, width: nat) -> Result<
    Listed,
    ParseError,
>
    decreases s.len() - i,
{
    if i < 0 || i >= s.len() {
        Err(ParseError::UnmatchedBracket)
    } else {
        match parse_item(s, i) {
            Err(e) => Err(e),
            Ok(item) => {
                let runs2 = runs.push(item.run);
                let width2 = wider(width, item.width);
                if item.next >= s.len() {
                    Err(ParseError::UnmatchedBracket)
                } else if s[item.next] == ']' {
                    Ok(Listed { runs: runs2, width: width2, next: item.next + 1 })
                } else if s[item.next] == ',' {
                    proof {
                        lemma_digits_end(s, i);
                        lemma_digits_end(s, digits_end(s, i) + 1);
                    }
                    parse_items(s, item.next + 1, runs2, width2)
                } else {
                    Err(broken_at(s, item.next))
                }
            },
        }
    }
}

/// A bracket that is read ends within the text, after where it began.
pub proof fn lemma_items_end(s: Seq<char>, i: int, runs: Seq<Run>, width: nat)
    ensures
        parse_items(s, i, runs, width) matches Ok(listed) ==> i < listed.next <= s.len(),
    decreases s.len() - i,
{
    if 0 <= i < s.len() {
        lemma_digits_end(s, i);
        if digits_end(s, i) < s.len() {
            lemma_digits_end(s, digits_end(s, i) + 1);
        }
        match parse_item(s, i) {
            Err(e) => {},
            Ok(item) => {
                if item.next < s.len() && s[item.next] == ',' {
                    lemma_items_end(s, item.next + 1, runs.push(item.run), wider(width, item.width));
                }
            },
        }
    }
}

/// `head`, then each identifier from `lo` to `hi` in turn, then `tail`.
pub open spec fn spread_run(head: Seq<char>, lo: int, hi: int, width: nat, tail: Seq<char>) -> Seq<
    Seq<char>,
>
    decreases hi - lo + 1,
{
    if hi < lo || lo < 0 {
        Seq::empty()
    } else {
        spread_run(head, lo, hi - 1, width, tail).push(head + padded(hi as nat, width) + tail)
    }
}

/// `head`, then each identifier of the runs in the order written, then
/// `tail`.
pub open spec fn spread(head: Seq<char>, runs: Seq<Run>, width: nat, tail: Seq<char>) -> Seq<
    Seq<char>,
>
    decreases runs.len(),
{
    if runs.len() == 0 {
        Seq::empty()
    } else {
        spread(head, runs.drop_last(), width, tail) + spread_run(
            head,
            runs.last().start as int,
            runs.last().end as int,
            width,
            tail,
        )
    }
}

/// Each of `heads` spread over the runs.
pub open spec fn expand(heads: Seq<Seq<char>>, runs: Seq<Run>, width: nat, tail: Seq<char>) -> Seq<
    Seq<char>,
>
    decreases heads.len(),
{
    if heads.len() == 0 {
        Seq::empty()
    } else {
        expand(heads.drop_last(), runs, width, tail) + spread(heads.last(), runs, width, tail)
    }
}

/// Each of `heads` with `more` after it.
pub open spec fn extend_all(heads: Seq<Seq<char>>, more: Seq<char>) -> Seq<Seq<char>> {
    Seq::new(heads.len(), |k: int| heads[k] + more)
}

/// The name before anything is read.
pub open spec fn reading_start() -> Reading {
    Reading { heads: seq![Seq::<char>::empty()], pending: Pending::Nothing, tail: Seq::empty() }
}

/// `head`, then each of the numerals in turn, then `tail`.
pub open spec fn extend_each(head: Seq<char>, numerals: Seq<Seq<char>>, tail: Seq<char>) -> Seq<
    Seq<char>,
> {
    Seq::new(numerals.len(), |k: int| head + numerals[k] + tail)
}

/// Each of `heads` with each of the numerals and the tail after it.
pub open spec fn cross(heads: Seq<Seq<char>>, numerals: Seq<Seq<char>>, tail: Seq<char>) -> Seq<
    Seq<char>,
>
    decreases heads.len(),
{
    if heads.len() == 0 {
        Seq::empty()
    } else {
        cross(heads.drop_last(), numerals, tail) + extend_each(heads.last(), numerals, tail)
    }
}

/// The heads after the pending number has become part of the text, since
/// plain text and another number follow: one text for each head and each
/// identifier of the pending number.
pub open spec fn settle(st: Reading) -> Seq<Seq<char>> {
    match st.pending {
        Pending::Nothing => st.heads,
        Pending::Numerals(numerals) => cross(st.heads, numerals, st.tail),
        Pending::Bracket(runs, width) => expand(st.heads, runs, width, st.tail),
    }
}

/// Whether the next number follows the pending one with nothing between
/// them.
pub open spec fn adjacent(st: Reading) -> bool {
    !(st.pending is Nothing) && st.tail.len() == 0
}

/// The numerals that a number stands for.
pub open spec fn numerals_of(number: Pending) -> Seq<Seq<char>> {
    match number {
        Pending::Nothing => Seq::empty(),
        Pending::Numerals(numerals) => numerals,
        Pending::Bracket(runs, width) => spread(Seq::empty(), runs, width, Seq::empty()),
    }
}

/// Each of `firsts` with each numeral of `number` after it.
pub open spec fn glued(firsts: Seq<Seq<char>>, number: Pending) -> Seq<Seq<char>> {
    match number {
        Pending::Nothing => firsts,
        Pending::Numerals(numerals) => cross(firsts, numerals, Seq::empty()),
        Pending::Bracket(runs, width) => expand(firsts, runs, width, Seq::empty()),
    }
}

/// The name after one more number. A number that follows the pending one at
/// once is glued to it; otherwise the pending one becomes part of the text
/// and the new one is pending.
pub open spec fn with_number(st: Reading, number: Pending) -> Reading {
    if adjacent(st) {
        Reading {
            heads: st.heads,
            pending: Pending::Numerals(glued(numerals_of(st.pending), number)),
            tail: Seq::empty(),
        }
    } else {
        Reading { heads: settle(st), pending: number, tail: Seq::empty() }
    }
}

/// One more character of plain text.
pub open spec fn with_plain(st: Reading, c: char) -> Reading {
    match st.pending {
        Pending::Nothing => Reading {
            heads: extend_all(st.heads, seq![c]),
            pending: st.pending,
            tail: st.tail,
        },
        _ => Reading { heads: st.heads, pending: st.pending, tail: st.tail.push(c) },
    }
}

/// The name from `i` up to the next separator or the end of the text.
pub open spec fn parse_name(s: Seq<char>, i: int, st: Reading) -> Result<(Reading, int), ParseError>
    decreases s.len() - i,
{
    if i < 0 || i >= s.len() || is_separator(s[i]) {
        Ok((st, i))
    } else if s[i] == ']' {
        Err(ParseError::UnmatchedBracket)
    } else if s[i] == '[' {
        match parse_items(s, i + 1, Seq::empty(), 0) {
            Err(e) => Err(e),
            Ok(listed) => {
                proof {
                    lemma_items_end(s, i + 1, Seq::empty(), 0);
                }
                parse_name(
                    s,
                    listed.next,
                    with_number(st, Pending::Bracket(listed.runs, listed.width)),
                )
            },
        }
    } else if is_digit(s[i]) {
        proof {
            lemma_digits_end(s, i);
        }
        parse_name(
            s,
            digits_end(s, i),
            with_number(st, Pending::Numerals(seq![s.subrange(i, digits_end(s, i))])),
        )
    } else {
        parse_name(s, i + 1, with_plain(st, s[i]))
    }
}

/// A name that is read ends within the text, at a separator or at the end of
/// the text, and holds at least one character where it does not begin at
/// either.
pub proof fn lemma_name_end(s: Seq<char>, i: int, st: Reading)
    requires
        0 <= i <= s.len(),
    ensures
        parse_name(s, i, st) matches Ok((_, next)) ==> i <= next <= s.len() && (next < s.len()
            ==> is_separator(s[next])) && (i < s.len() && !is_separator(s[i]) ==> i < next),
    decreases s.len() - i,
{
    if i < s.len() && !is_separator(s[i]) && s[i] != ']' {
        if s[i] == '[' {
            match parse_items(s, i + 1, Seq::empty(), 0) {
                Err(e) => {},
                Ok(listed) => {
                    lemma_items_end(s, i + 1, Seq::empty(), 0);
                    lemma_name_end(
                        s,
                        listed.next,
                        with_number(st, Pending::Bracket(listed.runs, listed.width)),
                    );
                },
            }
        } else if is_digit(s[i]) {
            lemma_digits_end(s, i);
            lemma_name_end(
                s,
                digits_end(s, i),
                with_number(st, Pending::Numerals(seq![s.subrange(i, digits_end(s, i))])),
            );
        } else {
            lemma_name_end(s, i + 1, with_plain(st, s[i]));
        }
    }
}

/// Whether one of the numerals is greater than the greatest identifier.
pub open spec fn too_large(numerals: Seq<Seq<char>>) -> bool {
    exists|k: int| 0 <= k < numerals.len() && numeral_value(#[trigger] numerals[k]) > u32::MAX
}

/// The numerals as runs of one identifier each, in their order.
pub open spec fn singles(numerals: Seq<Seq<char>>) -> Seq<Run> {
    Seq::new(
        numerals.len(),
        |k: int|
            Run { start: numeral_value(numerals[k]) as u32, end: numeral_value(numerals[k]) as u32 },
    )
}

/// The widest width that one of the numerals asks for.
pub open spec fn widest_numeral(numerals: Seq<Seq<char>>) -> nat
    decreases numerals.len(),
{
    if numerals.len() == 0 {
        0
    } else {
        wider(widest_numeral(numerals.drop_last()), numeral_width(numerals.last()))
    }
}

/// What a name that has been read stands for: one pattern for each head,
/// all with the pending number as the slot. Pending numerals must fit an
/// identifier.
pub open spec fn finish(st: Reading) -> Result<Seq<Written>, ParseError> {
    match st.pending {
        Pending::Nothing => Ok(
            Seq::new(
                st.heads.len(),
                |k: int|
                    Written {
                        pattern: st.heads[k],
                        runs: seq![Run { start: 0, end: 0 }],
                        width: 0,
                    },
            ),
        ),
        Pending::Numerals(numerals) => if too_large(numerals) {
            Err(ParseError::NumberTooLarge)
        } else {
            Ok(
                Seq::new(
                    st.heads.len(),
                    |k: int|
                        Written {
                            pattern: st.heads[k].push(SLOT) + st.tail,
                            runs: singles(numerals),
                            width: widest_numeral(numerals),
                        },
                ),
            )
        },
        Pending::Bracket(runs, width) => Ok(
            Seq::new(
                st.heads.len(),
                |k: int| Written { pattern: st.heads[k].push(SLOT) + st.tail, runs, width },
            ),
        ),
    }
}

/// The names from `i` on, after those that gave `acc`.
pub open spec fn parse_text(s: Seq<char>, i: int, acc: Seq<Written>) -> Result<
    Seq<Written>,
    ParseError,
>
    decreases s.len() - i,
{
    if i < 0 || i >= s.len() {
        Ok(acc)
    } else if is_separator(s[i]) {
        parse_text(s, i + 1, acc)
    } else {
        match parse_name(s, i, reading_start()) {
            Err(e) => Err(e),
            Ok((st, next)) => match finish(st) {
                Err(e) => Err(e),
                Ok(found) => {
                    proof {
                        lemma_name_end(s, i, reading_start());
                    }
                    parse_text(s, next, acc + found)
                },
            },
        }
    }
}

/// What a text in the folded notation says: its patterns in the order
/// written, or why it is not in the notation.
pub open spec fn parse_spec(s: Seq<char>) -> Result<Seq<Written>, ParseError> {
    parse_text(s, 0, Seq::empty())
}

} // verus!

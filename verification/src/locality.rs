//! What is read from a place in a text depends on the text from that place
//! on only, and a name is read the same wherever it stands.

use crate::grammar::{
    broken_at, digits_end, lemma_digits_end, lemma_items_end, parse_item, parse_items, parse_name,
    with_number, with_plain, Item, Listed, ParseError, Pending, Reading,
};
use crate::numeral::is_digit;
use crate::pattern::is_separator;
use crate::range::wider;
use crate::roundtrip::occurs;
use crate::runs::Run;
use vstd::prelude::*;

verus! {

/// Whether `s1` from `p1` on is the same text as `s2` from `p2` on.
pub open spec fn same_from(s1: Seq<char>, p1: int, s2: Seq<char>, p2: int) -> bool {
    0 <= p1 <= s1.len() && 0 <= p2 <= s2.len() && s1.skip(p1) == s2.skip(p2)
}

pub proof fn lemma_same_at(s1: Seq<char>, p1: int, s2: Seq<char>, p2: int, k: int)
    requires
        same_from(s1, p1, s2, p2),
        0 <= k < s1.len() - p1,
    ensures
        s1.len() - p1 == s2.len() - p2,
        s1[p1 + k] == s2[p2 + k],
{
    let t1 = s1.skip(p1);
    let t2 = s2.skip(p2);
    assert(t1.len() == t2.len());
    assert(t1[k] == t2[k]);
}

pub proof fn lemma_same_step(s1: Seq<char>, p1: int, s2: Seq<char>, p2: int, k: int)
    requires
        same_from(s1, p1, s2, p2),
        0 <= k <= s1.len() - p1,
    ensures
        s1.len() - p1 == s2.len() - p2,
        same_from(s1, p1 + k, s2, p2 + k),
{
    let t1 = s1.skip(p1);
    let t2 = s2.skip(p2);
    assert(t1.len() == t2.len());
    assert(s1.skip(p1 + k) =~= t1.skip(k));
    assert(s2.skip(p2 + k) =~= t2.skip(k));
}

pub proof fn lemma_same_part(s1: Seq<char>, p1: int, s2: Seq<char>, p2: int, a: int, b: int)
    requires
        same_from(s1, p1, s2, p2),
        0 <= a <= b <= s1.len() - p1,
    ensures
        s1.subrange(p1 + a, p1 + b) == s2.subrange(p2 + a, p2 + b),
{
    let t1 = s1.skip(p1);
    let t2 = s2.skip(p2);
    assert(t1.len() == t2.len());
    assert(s1.subrange(p1 + a, p1 + b) =~= t1.subrange(a, b));
    assert(s2.subrange(p2 + a, p2 + b) =~= t2.subrange(a, b));
}

pub proof fn lemma_suffix_digits(s1: Seq<char>, p1: int, s2: Seq<char>, p2: int)
    requires
        same_from(s1, p1, s2, p2),
    ensures
        digits_end(s1, p1) - p1 == digits_end(s2, p2) - p2,
    decreases s1.len() - p1,
{
    lemma_same_step(s1, p1, s2, p2, 0);
    if p1 < s1.len() {
        lemma_same_at(s1, p1, s2, p2, 0);
        if is_digit(s1[p1]) {
            lemma_same_step(s1, p1, s2, p2, 1);
            lemma_suffix_digits(s1, p1 + 1, s2, p2 + 1);
        }
    }
}

pub proof fn lemma_suffix_broken(s1: Seq<char>, p1: int, s2: Seq<char>, p2: int, k: int)
    requires
        same_from(s1, p1, s2, p2),
        0 <= k <= s1.len() - p1,
    ensures
        broken_at(s1, p1 + k) == broken_at(s2, p2 + k),
{
    lemma_same_step(s1, p1, s2, p2, 0);
    if k < s1.len() - p1 {
        lemma_same_at(s1, p1, s2, p2, k);
    }
}

/// The item a given distance further on.
pub open spec fn shift_item(r: Result<Item, ParseError>, by: int) -> Result<Item, ParseError> {
    match r {
        Ok(item) => Ok(Item { run: item.run, width: item.width, next: item.next + by }),
        Err(e) => Err(e),
    }
}

/// The bracket a given distance further on.
pub open spec fn shift_listed(r: Result<Listed, ParseError>, by: int) -> Result<
    Listed,
    ParseError,
> {
    match r {
        Ok(listed) => Ok(
            Listed { runs: listed.runs, width: listed.width, next: listed.next + by },
        ),
        Err(e) => Err(e),
    }
}

/// The name a given distance further on.
pub open spec fn shift_name(r: Result<(Reading, int), ParseError>, by: int) -> Result<
    (Reading, int),
    ParseError,
> {
    match r {
        Ok((st, next)) => Ok((st, next + by)),
        Err(e) => Err(e),
    }
}

pub proof fn lemma_suffix_item(s1: Seq<char>, p1: int, s2: Seq<char>, p2: int)
    requires
        same_from(s1, p1, s2, p2),
    ensures
        parse_item(s1, p1) == shift_item(parse_item(s2, p2), p1 - p2),
{
    lemma_same_step(s1, p1, s2, p2, 0);
    lemma_suffix_digits(s1, p1, s2, p2);
    lemma_digits_end(s1, p1);
    lemma_digits_end(s2, p2);
    let e1 = digits_end(s1, p1);
    let f1 = digits_end(s2, p2);
    let n = e1 - p1;
    lemma_same_part(s1, p1, s2, p2, 0, n);
    lemma_suffix_broken(s1, p1, s2, p2, 0);
    if e1 < s1.len() {
        lemma_same_at(s1, p1, s2, p2, n);
        lemma_same_step(s1, p1, s2, p2, n + 1);
        lemma_suffix_digits(s1, e1 + 1, s2, f1 + 1);
        lemma_digits_end(s1, e1 + 1);
        lemma_digits_end(s2, f1 + 1);
        let e2 = digits_end(s1, e1 + 1);
        let f2 = digits_end(s2, f1 + 1);
        let m = e2 - p1;
        lemma_same_part(s1, p1, s2, p2, n + 1, m);
        lemma_suffix_broken(s1, p1, s2, p2, m);
    }
}

pub proof fn lemma_suffix_items(
    s1: Seq<char>,
    p1: int,
    s2: Seq<char>,
    p2: int,
    runs: Seq<Run>,
    width: nat,
)
    requires
        same_from(s1, p1, s2, p2),
    ensures
        parse_items(s1, p1, runs, width) == shift_listed(
            parse_items(s2, p2, runs, width),
            p1 - p2,
        ),
    decreases s1.len() - p1,
{
    lemma_same_step(s1, p1, s2, p2, 0);
    if p1 < s1.len() {
        lemma_suffix_item(s1, p1, s2, p2);
        lemma_digits_end(s1, p1);
        if digits_end(s1, p1) < s1.len() {
            lemma_digits_end(s1, digits_end(s1, p1) + 1);
        }
        match parse_item(s1, p1) {
            Err(e) => {},
            Ok(item) => {
                let k = item.next - p1;
                lemma_suffix_broken(s1, p1, s2, p2, k);
                if item.next < s1.len() {
                    lemma_same_at(s1, p1, s2, p2, k);
                    if s1[item.next] == ',' {
                        lemma_same_step(s1, p1, s2, p2, k + 1);
                        lemma_suffix_items(
                            s1,
                            item.next + 1,
                            s2,
                            p2 + k + 1,
                            runs.push(item.run),
                            wider(width, item.width),
                        );
                    }
                }
            },
        }
    }
}

/// What is read of a name depends on the text from where the reading
/// begins only.
pub proof fn lemma_suffix_name(s1: Seq<char>, p1: int, s2: Seq<char>, p2: int, st: Reading)
    requires
        same_from(s1, p1, s2, p2),
    ensures
        parse_name(s1, p1, st) == shift_name(parse_name(s2, p2, st), p1 - p2),
    decreases s1.len() - p1,
{
    lemma_same_step(s1, p1, s2, p2, 0);
    if p1 < s1.len() {
        lemma_same_at(s1, p1, s2, p2, 0);
        let c = s1[p1];
        if !is_separator(c) && c != ']' {
            if c == '[' {
                lemma_same_step(s1, p1, s2, p2, 1);
                lemma_suffix_items(s1, p1 + 1, s2, p2 + 1, Seq::empty(), 0);
                match parse_items(s1, p1 + 1, Seq::empty(), 0) {
                    Err(e) => {},
                    Ok(listed) => {
                        lemma_items_end(s1, p1 + 1, Seq::empty(), 0);
                        let k = listed.next - p1;
                        lemma_same_step(s1, p1, s2, p2, k);
                        lemma_suffix_name(
                            s1,
                            listed.next,
                            s2,
                            p2 + k,
                            with_number(st, Pending::Bracket(listed.runs, listed.width)),
                        );
                    },
                }
            } else if is_digit(c) {
                lemma_suffix_digits(s1, p1, s2, p2);
                lemma_digits_end(s1, p1);
                let k = digits_end(s1, p1) - p1;
                lemma_same_part(s1, p1, s2, p2, 0, k);
                lemma_same_step(s1, p1, s2, p2, k);
                lemma_suffix_name(
                    s1,
                    p1 + k,
                    s2,
                    p2 + k,
                    with_number(st, Pending::Numerals(seq![s1.subrange(p1, p1 + k)])),
                );
            } else {
                lemma_same_step(s1, p1, s2, p2, 1);
                lemma_suffix_name(s1, p1 + 1, s2, p2 + 1, with_plain(st, c));
            }
        }
    }
}

/// Whether `t` stands in `s` at `i` as a name does: up to the end of the
/// text or a separator.
pub open spec fn stands(s: Seq<char>, i: int, t: Seq<char>) -> bool {
    occurs(s, i, t) && (i + t.len() == s.len() || is_separator(s[i + t.len()]))
}

pub proof fn lemma_cut_digits(s: Seq<char>, i: int, t: Seq<char>, k: int)
    requires
        occurs(s, i, t),
        0 <= k <= t.len(),
        digits_end(t, k) < t.len() || i + t.len() == s.len() || !is_digit(s[i + t.len()]),
    ensures
        digits_end(s, i + k) == i + digits_end(t, k),
    decreases t.len() - k,
{
    if k < t.len() {
        crate::roundtrip::lemma_occurs_at(s, i, t, k);
        if is_digit(t[k]) {
            lemma_digits_end(t, k + 1);
            lemma_cut_digits(s, i, t, k + 1);
        }
    }
}

pub proof fn lemma_cut_part(s: Seq<char>, i: int, t: Seq<char>, a: int, b: int)
    requires
        occurs(s, i, t),
        0 <= a <= b <= t.len(),
    ensures
        s.subrange(i + a, i + b) == t.subrange(a, b),
{
    assert(s.subrange(i + a, i + b) =~= s.subrange(i, i + t.len()).subrange(a, b));
}

pub proof fn lemma_cut_items(s: Seq<char>, i: int, t: Seq<char>, k: int, runs: Seq<Run>, width: nat)
    requires
        occurs(s, i, t),
        0 <= k <= t.len(),
        parse_items(t, k, runs, width) is Ok,
    ensures
        parse_items(s, i + k, runs, width) == shift_listed(parse_items(t, k, runs, width), i),
    decreases t.len() - k,
{
    if k < t.len() {
        lemma_digits_end(t, k);
        let e1 = digits_end(t, k);
        match parse_item(t, k) {
            Err(e) => {},
            Ok(item) => {
                assert(item.next < t.len());
                lemma_cut_digits(s, i, t, k);
                lemma_cut_part(s, i, t, k, e1);
                crate::roundtrip::lemma_occurs_at(s, i, t, e1);
                if t[e1] == '-' {
                    lemma_digits_end(t, e1 + 1);
                    let e2 = digits_end(t, e1 + 1);
                    lemma_cut_digits(s, i, t, e1 + 1);
                    lemma_cut_part(s, i, t, e1 + 1, e2);
                }
                assert(parse_item(s, i + k) == shift_item(parse_item(t, k), i));
                crate::roundtrip::lemma_occurs_at(s, i, t, item.next);
                if t[item.next] == ',' {
                    lemma_cut_items(
                        s,
                        i,
                        t,
                        item.next + 1,
                        runs.push(item.run),
                        wider(width, item.width),
                    );
                }
            },
        }
    }
}

/// A name that is read to its end when it stands alone is read the same
/// where it stands in a text.
pub proof fn lemma_cut_name(s: Seq<char>, i: int, t: Seq<char>, k: int, st: Reading)
    requires
        stands(s, i, t),
        0 <= k <= t.len(),
        parse_name(t, k, st) matches Ok((_, next)) && next == t.len(),
    ensures
        parse_name(s, i + k, st) == shift_name(parse_name(t, k, st), i),
    decreases t.len() - k,
{
    if k < t.len() {
        crate::roundtrip::lemma_occurs_at(s, i, t, k);
        let c = t[k];
        if c == '[' {
            match parse_items(t, k + 1, Seq::empty(), 0) {
                Err(e) => {},
                Ok(listed) => {
                    lemma_items_end(t, k + 1, Seq::empty(), 0);
                    lemma_cut_items(s, i, t, k + 1, Seq::empty(), 0);
                    lemma_cut_name(
                        s,
                        i,
                        t,
                        listed.next,
                        with_number(st, Pending::Bracket(listed.runs, listed.width)),
                    );
                },
            }
        } else if is_digit(c) {
            lemma_digits_end(t, k);
            let e = digits_end(t, k);
            if i + t.len() < s.len() {
                assert(is_separator(s[i + t.len()]));
            }
            lemma_cut_digits(s, i, t, k);
            lemma_cut_part(s, i, t, k, e);
            lemma_cut_name(s, i, t, e, with_number(st, Pending::Numerals(seq![t.subrange(k, e)])));
        } else if !is_separator(c) && c != ']' {
            lemma_cut_name(s, i, t, k + 1, with_plain(st, c));
        }
    }
}

} // verus!

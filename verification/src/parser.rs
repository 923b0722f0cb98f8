//! Reading a text in the folded notation.

use crate::grammar::{
    broken_at, cross, digits_end, expand, extend_all, extend_each, finish, lemma_digits_end,
    lemma_items_end, lemma_name_end, numerals_of, parse_item, parse_items, parse_name, parse_spec,
    parse_text, reading_start, singles, spread, spread_run, too_large, widest_numeral, with_number,
    with_plain, ParseError, Pending, Reading, Written,
};
use crate::grammar_wf::{
    all_plain, lemma_finish_wf, lemma_items_wf, lemma_name_wf, lemma_parse_wf, lemma_plain_wf,
    lemma_with_number_wf, number_wf, numerals_wf, reading_wf, written_wf,
};
use crate::numeral::{
    all_digits, is_digit, is_digit_char, numeral_value, numeral_width, push_padded, read_numeral,
};
use crate::pattern::{copy_chars, is_separator, is_separator_char, push_chars, SLOT};
use crate::runs::{copy_runs, runs_valid, Run};
use vstd::prelude::*;

verus! {

/// One pattern as read from a text, with the runs written for its slot.
#[derive(Debug)]
pub struct Piece {
    pub pattern: Vec<char>,
    pub runs: Vec<Run>,
    pub width: usize,
}

impl View for Piece {
    type V = Written;

    open spec fn view(&self) -> Written {
        Written { pattern: self.pattern@, runs: self.runs@, width: self.width as nat }
    }
}

/// What a vector of pieces stands for.
pub open spec fn pieces_view(ps: Seq<Piece>) -> Seq<Written> {
    Seq::new(ps.len(), |k: int| ps[k]@)
}

/// What a vector of texts stands for.
pub open spec fn texts(v: Seq<Vec<char>>) -> Seq<Seq<char>> {
    Seq::new(v.len(), |k: int| v[k]@)
}

/// The pending number of a name: a bracket by what it lists, anything else
/// by its numerals.
enum Held {
    Nothing,
    Numerals(Vec<Vec<char>>),
    Bracket(Vec<Run>, usize),
}

spec fn held_view(h: Held) -> Pending {
    match h {
        Held::Nothing => Pending::Nothing,
        Held::Numerals(numerals) => Pending::Numerals(texts(numerals@)),
        Held::Bracket(runs, width) => Pending::Bracket(runs@, width as nat),
    }
}

pub fn scan_digits(text: &Vec<char>, i: usize) -> (e: usize)
    requires
        i <= text@.len(),
    ensures
        e == digits_end(text@, i as int),
        i <= e <= text@.len(),
        all_digits(text@.subrange(i as int, e as int)),
{
    let mut e = i;
    while e < text.len() && is_digit_char(text[e])
        invariant
            i <= e <= text@.len(),
            digits_end(text@, i as int) == digits_end(text@, e as int),
            forall|k: int| i <= k < e ==> is_digit(#[trigger] text@[k]),
        decreases text.len() - e,
    {
        e = e + 1;
    }
    e
}

fn broken(text: &Vec<char>, i: usize) -> (e: ParseError)
    ensures
        e == broken_at(text@, i as int),
{
    if i >= text.len() {
        ParseError::UnmatchedBracket
    } else {
        let c = text[i];
        if c == ' ' || c == '\t' || c == '\n' || c == '\r' {
            ParseError::UnmatchedBracket
        } else {
            ParseError::NonNumeric
        }
    }
}

pub fn width_of(text: &Vec<char>, from: usize, to: usize) -> (w: usize)
    requires
        from <= to <= text@.len(),
    ensures
        w == numeral_width(text@.subrange(from as int, to as int)),
{
    if to - from > 1 && text[from] == '0' {
        to - from
    } else {
        0
    }
}

fn read_item(text: &Vec<char>, i: usize) -> (r: Result<(Run, usize, usize), ParseError>)
    requires
        i <= text@.len(),
    ensures
        match parse_item(text@, i as int) {
            Ok(item) => r matches Ok((run, width, next)) && run == item.run && width == item.width
                && next == item.next && run.start <= run.end && i < next <= text@.len(),
            Err(e) => r matches Err(x) && x == e,
        },
{
    let e1 = scan_digits(text, i);
    if e1 == i {
        return Err(broken(text, i));
    }
    let start = match read_numeral(text, i, e1) {
        Some(v) => v,
        None => {
            return Err(ParseError::NumberTooLarge);
        },
    };
    let width = width_of(text, i, e1);
    if e1 < text.len() && text[e1] == '-' {
        let e2 = scan_digits(text, e1 + 1);
        if e2 == e1 + 1 {
            return Err(broken(text, e2));
        }
        let end = match read_numeral(text, e1 + 1, e2) {
            Some(v) => v,
            None => {
                return Err(ParseError::NumberTooLarge);
            },
        };
        if start > end {
            return Err(ParseError::InvertedRange);
        }
        let end_width = width_of(text, e1 + 1, e2);
        if end_width != 0 && end_width != width {
            return Err(ParseError::PaddingConflict);
        }
        Ok((Run { start, end }, width, e2))
    } else {
        Ok((Run { start, end: start }, width, e1))
    }
}

fn read_items(text: &Vec<char>, from: usize) -> (r: Result<(Vec<Run>, usize, usize), ParseError>)
    requires
        from <= text@.len(),
    ensures
        match parse_items(text@, from as int, Seq::empty(), 0) {
            Ok(listed) => r matches Ok((runs, width, next)) && runs@ == listed.runs && width
                == listed.width && next == listed.next && runs_valid(runs@) && from < next
                <= text@.len(),
            Err(e) => r matches Err(x) && x == e,
        },
{
    let mut runs: Vec<Run> = Vec::new();
    let mut width: usize = 0;
    let mut i: usize = from;
    proof {
        lemma_items_end(text@, from as int, Seq::empty(), 0);
    }
    loop
        invariant
            from <= i <= text@.len(),
            runs_valid(runs@),
            parse_items(text@, from as int, Seq::empty(), 0) == parse_items(
                text@,
                i as int,
                runs@,
                width as nat,
            ),
            parse_items(text@, from as int, Seq::empty(), 0) matches Ok(listed) ==> from
                < listed.next <= text@.len(),
        decreases text@.len() - i,
    {
        if i >= text.len() {
            return Err(ParseError::UnmatchedBracket);
        }
        match read_item(text, i) {
            Err(e) => {
                return Err(e);
            },
            Ok((run, w, next)) => {
                runs.push(run);
                if w > width {
                    width = w;
                }
                if next >= text.len() {
                    return Err(ParseError::UnmatchedBracket);
                }
                let c = text[next];
                if c == ']' {
                    return Ok((runs, width, next + 1));
                } else if c == ',' {
                    i = next + 1;
                } else {
                    return Err(broken(text, next));
                }
            },
        }
    }
}

proof fn lemma_texts_push(v: Seq<Vec<char>>, x: Vec<char>)
    ensures
        texts(v.push(x)) == texts(v).push(x@),
{
    assert(texts(v.push(x)) =~= texts(v).push(x@));
}

/// One text for each head and each identifier of the runs: the head, the
/// identifier, the tail.
pub fn expand_heads(heads: &Vec<Vec<char>>, runs: &Vec<Run>, width: usize, tail: &Vec<char>) -> (out:
    Vec<Vec<char>>)
    requires
        runs_valid(runs@),
    ensures
        texts(out@) == expand(texts(heads@), runs@, width as nat, tail@),
{
    let mut out: Vec<Vec<char>> = Vec::new();
    let mut h: usize = 0;
    proof {
        assert(texts(out@) =~= Seq::<Seq<char>>::empty());
        assert(texts(heads@).take(0) =~= Seq::<Seq<char>>::empty());
    }
    while h < heads.len()
        invariant
            h <= heads.len(),
            runs_valid(runs@),
            texts(out@) == expand(texts(heads@).take(h as int), runs@, width as nat, tail@),
        decreases heads.len() - h,
    {
        let ghost done_heads = texts(out@);
        let ghost head = heads@[h as int]@;
        let mut k: usize = 0;
        proof {
            assert(runs@.take(0) =~= Seq::<Run>::empty());
            assert(texts(out@) =~= done_heads + spread(
                head,
                runs@.take(0),
                width as nat,
                tail@,
            ));
        }
        while k < runs.len()
            invariant
                k <= runs.len(),
                h < heads.len(),
                head == heads@[h as int]@,
                runs_valid(runs@),
                texts(out@) == done_heads + spread(head, runs@.take(k as int), width as nat, tail@),
            decreases runs.len() - k,
        {
            let r = runs[k];
            let ghost done_runs = texts(out@);
            let mut v: u64 = r.start as u64;
            proof {
                assert(done_runs + spread_run(
                    head,
                    r.start as int,
                    r.start - 1,
                    width as nat,
                    tail@,
                ) =~= done_runs);
            }
            while v <= r.end as u64
                invariant
                    r.start <= v <= r.end + 1,
                    h < heads.len(),
                    head == heads@[h as int]@,
                    texts(out@) == done_runs + spread_run(
                        head,
                        r.start as int,
                        v - 1,
                        width as nat,
                        tail@,
                    ),
                decreases r.end + 1 - v,
            {
                let mut name = copy_chars(&heads[h]);
                push_padded(&mut name, v as u32, width);
                push_chars(&mut name, tail);
                proof {
                    lemma_texts_push(out@, name);
                    assert(done_runs + spread_run(
                        head,
                        r.start as int,
                        v as int,
                        width as nat,
                        tail@,
                    ) =~= (done_runs + spread_run(
                        head,
                        r.start as int,
                        v - 1,
                        width as nat,
                        tail@,
                    )).push(name@));
                }
                out.push(name);
                v = v + 1;
            }
            proof {
                let next = runs@.take(k + 1);
                assert(next.drop_last() =~= runs@.take(k as int));
                assert(next.last() == r);
                assert(texts(out@) =~= done_heads + spread(head, next, width as nat, tail@));
            }
            k = k + 1;
        }
        proof {
            assert(runs@.take(k as int) =~= runs@);
            let next = texts(heads@).take(h + 1);
            assert(next.drop_last() =~= texts(heads@).take(h as int));
            assert(next.last() == head);
        }
        h = h + 1;
    }
    proof {
        assert(texts(heads@).take(h as int) =~= texts(heads@));
    }
    out
}

/// One text for each head and each numeral: the head, the numeral, the
/// tail.
fn cross_heads(heads: &Vec<Vec<char>>, numerals: &Vec<Vec<char>>, tail: &Vec<char>) -> (out: Vec<
    Vec<char>,
>)
    ensures
        texts(out@) == cross(texts(heads@), texts(numerals@), tail@),
{
    let mut out: Vec<Vec<char>> = Vec::new();
    let mut h: usize = 0;
    proof {
        assert(texts(out@) =~= Seq::<Seq<char>>::empty());
        assert(texts(heads@).take(0) =~= Seq::<Seq<char>>::empty());
    }
    while h < heads.len()
        invariant
            h <= heads.len(),
            texts(out@) == cross(texts(heads@).take(h as int), texts(numerals@), tail@),
        decreases heads.len() - h,
    {
        let ghost done = texts(out@);
        let ghost head = heads@[h as int]@;
        let ghost each = extend_each(head, texts(numerals@), tail@);
        let mut k: usize = 0;
        proof {
            assert(done + each.take(0) =~= done);
        }
        while k < numerals.len()
            invariant
                k <= numerals.len(),
                h < heads.len(),
                head == heads@[h as int]@,
                each == extend_each(head, texts(numerals@), tail@),
                texts(out@) == done + each.take(k as int),
            decreases numerals.len() - k,
        {
            let mut name = copy_chars(&heads[h]);
            push_chars(&mut name, &numerals[k]);
            push_chars(&mut name, tail);
            proof {
                lemma_texts_push(out@, name);
                assert(each[k as int] == head + texts(numerals@)[k as int] + tail@);
                assert(done + each.take(k + 1) =~= (done + each.take(k as int)).push(name@));
            }
            out.push(name);
            k = k + 1;
        }
        proof {
            assert(each.take(k as int) =~= each);
            let next = texts(heads@).take(h + 1);
            assert(next.drop_last() =~= texts(heads@).take(h as int));
            assert(next.last() == head);
        }
        h = h + 1;
    }
    proof {
        assert(texts(heads@).take(h as int) =~= texts(heads@));
    }
    out
}

/// The numerals that the pending number stands for.
fn held_numerals(held: Held) -> (out: Vec<Vec<char>>)
    requires
        number_wf(held_view(held)),
    ensures
        texts(out@) == numerals_of(held_view(held)),
{
    match held {
        Held::Nothing => Vec::new(),
        Held::Numerals(numerals) => numerals,
        Held::Bracket(runs, width) => {
            let none: Vec<char> = Vec::new();
            let mut firsts: Vec<Vec<char>> = Vec::new();
            firsts.push(Vec::new());
            let out = expand_heads(&firsts, &runs, width, &none);
            proof {
                let hs = texts(firsts@);
                assert(hs =~= seq![Seq::<char>::empty()]);
                assert(hs.drop_last() =~= Seq::<Seq<char>>::empty());
                assert(expand(hs.drop_last(), runs@, width as nat, none@) =~= Seq::<
                    Seq<char>,
                >::empty());
                assert(expand(hs, runs@, width as nat, none@) =~= spread(
                    Seq::<char>::empty(),
                    runs@,
                    width as nat,
                    Seq::<char>::empty(),
                ));
            }
            out
        },
    }
}

/// The heads and the pending number after one more number.
fn take_number(
    stem: Vec<char>,
    heads: Vec<Vec<char>>,
    held: Held,
    tail: &Vec<char>,
    number: Held,
    Ghost(st): Ghost<Reading>,
) -> (r: (Vec<Vec<char>>, Held))
    requires
        reading_wf(st),
        number_wf(held_view(number)),
        st.pending == held_view(held),
        st.tail == tail@,
        held is Nothing ==> st.heads == seq![stem@],
        !(held is Nothing) ==> st.heads == texts(heads@),
    ensures
        texts(r.0@) == with_number(st, held_view(number)).heads,
        held_view(r.1) == with_number(st, held_view(number)).pending,
{
    let pending = match &held {
        Held::Nothing => false,
        _ => true,
    };
    if pending && tail.len() == 0 {
        let firsts = held_numerals(held);
        let none: Vec<char> = Vec::new();
        let glued = match number {
            Held::Nothing => firsts,
            Held::Numerals(numerals) => cross_heads(&firsts, &numerals, &none),
            Held::Bracket(runs, width) => expand_heads(&firsts, &runs, width, &none),
        };
        (heads, Held::Numerals(glued))
    } else {
        let settled = match held {
            Held::Nothing => {
                let mut hs: Vec<Vec<char>> = Vec::new();
                hs.push(stem);
                proof {
                    assert(texts(hs@) =~= seq![stem@]);
                }
                hs
            },
            Held::Numerals(numerals) => cross_heads(&heads, &numerals, tail),
            Held::Bracket(runs, width) => expand_heads(&heads, &runs, width, tail),
        };
        (settled, number)
    }
}

/// One pattern for each head: the head, the slot, the tail.
fn finish_heads(heads: &Vec<Vec<char>>, tail: &Vec<char>, runs: &Vec<Run>, width: usize) -> (out:
    Vec<Piece>)
    ensures
        out@.len() == heads@.len(),
        forall|k: int|
            0 <= k < out@.len() ==> (#[trigger] out@[k])@ == (Written {
                pattern: heads@[k]@.push(SLOT) + tail@,
                runs: runs@,
                width: width as nat,
            }),
{
    let mut out: Vec<Piece> = Vec::new();
    let mut h: usize = 0;
    while h < heads.len()
        invariant
            h <= heads.len(),
            out@.len() == h,
            forall|k: int|
                0 <= k < h ==> (#[trigger] out@[k])@ == (Written {
                    pattern: heads@[k]@.push(SLOT) + tail@,
                    runs: runs@,
                    width: width as nat,
                }),
        decreases heads.len() - h,
    {
        let mut pattern = copy_chars(&heads[h]);
        pattern.push(SLOT);
        push_chars(&mut pattern, tail);
        out.push(Piece { pattern, runs: copy_runs(runs), width });
        h = h + 1;
    }
    out
}

/// The patterns of a name that has been read.
fn finish_name(
    stem: Vec<char>,
    heads: Vec<Vec<char>>,
    held: Held,
    tail: Vec<char>,
    Ghost(st): Ghost<Reading>,
) -> (r: Result<Vec<Piece>, ParseError>)
    requires
        reading_wf(st),
        st.pending == held_view(held),
        st.tail == tail@,
        held is Nothing ==> st.heads == seq![stem@],
        !(held is Nothing) ==> st.heads == texts(heads@),
    ensures
        match finish(st) {
            Ok(found) => r matches Ok(ps) && pieces_view(ps@) == found,
            Err(e) => r matches Err(x) && x == e,
        },
{
    match held {
        Held::Nothing => {
            let mut out: Vec<Piece> = Vec::new();
            let mut one: Vec<Run> = Vec::new();
            one.push(Run { start: 0, end: 0 });
            out.push(Piece { pattern: stem, runs: one, width: 0 });
            proof {
                assert(one@ =~= seq![Run { start: 0, end: 0 }]);
                assert(pieces_view(out@) =~= finish(st)->Ok_0);
            }
            Ok(out)
        },
        Held::Numerals(numerals) => {
            let ghost given = texts(numerals@);
            let mut runs: Vec<Run> = Vec::new();
            let mut width: usize = 0;
            let mut k: usize = 0;
            proof {
                assert(given.take(0) =~= Seq::<Seq<char>>::empty());
            }
            while k < numerals.len()
                invariant
                    k <= numerals@.len(),
                    given == texts(numerals@),
                    numerals_wf(given),
                    st.pending == Pending::Numerals(given),
                    runs@.len() == k,
                    forall|j: int| 0 <= j < k ==> numeral_value(#[trigger] given[j]) <= u32::MAX,
                    forall|j: int| 0 <= j < k ==> (#[trigger] runs@[j]) == singles(given)[j],
                    width == widest_numeral(given.take(k as int)),
                decreases numerals@.len() - k,
            {
                let d = &numerals[k];
                proof {
                    assert(given[k as int] == d@);
                    assert(all_digits(given[k as int]));
                    assert(d@.subrange(0, d@.len() as int) =~= d@);
                }
                let v = match read_numeral(d, 0, d.len()) {
                    Some(v) => v,
                    None => {
                        proof {
                            assert(numeral_value(given[k as int]) > u32::MAX);
                            assert(too_large(given));
                        }
                        return Err(ParseError::NumberTooLarge);
                    },
                };
                let w = width_of(d, 0, d.len());
                if w > width {
                    width = w;
                }
                runs.push(Run { start: v, end: v });
                proof {
                    let next = given.take(k + 1);
                    assert(next.drop_last() =~= given.take(k as int));
                    assert(next.last() == given[k as int]);
                }
                k = k + 1;
            }
            proof {
                assert(given.take(k as int) =~= given);
                assert(runs@ =~= singles(given));
                assert(!too_large(given)) by {
                    if too_large(given) {
                        let j = choose|j: int|
                            0 <= j < given.len() && numeral_value(#[trigger] given[j]) > u32::MAX;
                    }
                }
            }
            let out = finish_heads(&heads, &tail, &runs, width);
            proof {
                assert(pieces_view(out@) =~= finish(st)->Ok_0);
            }
            Ok(out)
        },
        Held::Bracket(runs, width) => {
            let out = finish_heads(&heads, &tail, &runs, width);
            proof {
                assert(pieces_view(out@) =~= finish(st)->Ok_0);
            }
            Ok(out)
        },
    }
}

/// The name that begins at `from`: its patterns, and where it ends.
pub fn read_name(text: &Vec<char>, from: usize) -> (r: Result<(Vec<Piece>, usize), ParseError>)
    requires
        from < text@.len(),
        !is_separator(text@[from as int]),
    ensures
        match parse_name(text@, from as int, reading_start()) {
            Ok((st, next)) => match finish(st) {
                Ok(found) => r matches Ok((ps, end)) && pieces_view(ps@) == found && end == next
                    && from < end <= text@.len() && forall|k: int|
                    0 <= k < found.len() ==> written_wf(#[trigger] found[k]),
                Err(e) => r matches Err(x) && x == e,
            },
            Err(e) => r matches Err(x) && x == e,
        },
{
    let mut stem: Vec<char> = Vec::new();
    let mut heads: Vec<Vec<char>> = Vec::new();
    let mut held = Held::Nothing;
    let mut tail: Vec<char> = Vec::new();
    let mut i: usize = from;
    let ghost mut st = reading_start();
    proof {
        lemma_name_end(text@, from as int, reading_start());
        let start = reading_start();
        assert(reading_wf(start)) by {
            assert forall|k: int| 0 <= k < start.heads.len() implies all_plain(
                #[trigger] start.heads[k],
            ) by {}
        }
        lemma_name_wf(text@, from as int, start);
        match parse_name(text@, from as int, start) {
            Ok((last, _)) => {
                lemma_finish_wf(last);
            },
            Err(_) => {},
        }
    }
    while i < text.len() && !is_separator_char(text[i])
        invariant
            from <= i <= text@.len(),
            reading_wf(st),
            st.pending == held_view(held),
            st.tail == tail@,
            held is Nothing ==> st.heads == seq![stem@],
            !(held is Nothing) ==> st.heads == texts(heads@),
            parse_name(text@, from as int, reading_start()) == parse_name(text@, i as int, st),
        decreases text@.len() - i,
    {
        let c = text[i];
        if c == ']' {
            return Err(ParseError::UnmatchedBracket);
        } else if c == '[' {
            match read_items(text, i + 1) {
                Err(e) => {
                    return Err(e);
                },
                Ok((runs, width, next)) => {
                    proof {
                        lemma_items_wf(text@, i + 1, Seq::empty(), 0);
                    }
                    let number = Held::Bracket(runs, width);
                    let ghost read = held_view(number);
                    let (hs, pending) = take_number(stem, heads, held, &tail, number, Ghost(st));
                    proof {
                        lemma_with_number_wf(st, read);
                        st = with_number(st, read);
                    }
                    stem = Vec::new();
                    heads = hs;
                    held = pending;
                    tail = Vec::new();
                    i = next;
                },
            }
        } else if is_digit_char(c) {
            let e = scan_digits(text, i);
            let mut d: Vec<char> = Vec::new();
            let mut k: usize = i;
            proof {
                lemma_digits_end(text@, i as int);
                assert(text@.subrange(i as int, i as int) =~= d@);
            }
            while k < e
                invariant
                    i <= k <= e <= text@.len(),
                    d@ == text@.subrange(i as int, k as int),
                decreases e - k,
            {
                d.push(text[k]);
                proof {
                    assert(text@.subrange(i as int, k + 1) =~= text@.subrange(
                        i as int,
                        k as int,
                    ).push(text@[k as int]));
                }
                k = k + 1;
            }
            let mut numerals: Vec<Vec<char>> = Vec::new();
            numerals.push(d);
            let number = Held::Numerals(numerals);
            let ghost read = held_view(number);
            proof {
                assert(texts(numerals@) =~= seq![text@.subrange(i as int, e as int)]);
                assert(numerals_wf(texts(numerals@)));
            }
            let (hs, pending) = take_number(stem, heads, held, &tail, number, Ghost(st));
            proof {
                lemma_with_number_wf(st, read);
                st = with_number(st, read);
            }
            stem = Vec::new();
            heads = hs;
            held = pending;
            tail = Vec::new();
            i = e;
        } else {
            let ghost before = st;
            proof {
                lemma_name_wf(text@, i as int, st);
                st = with_plain(st, c);
                assert(reading_wf(st)) by {
                    lemma_plain_wf(before, c);
                }
            }
            match held {
                Held::Nothing => {
                    let ghost short = stem@;
                    stem.push(c);
                    proof {
                        assert(short + seq![c] =~= stem@);
                        assert(extend_all(before.heads, seq![c])[0] == stem@);
                        assert(extend_all(before.heads, seq![c]) =~= seq![stem@]);
                    }
                },
                _ => {
                    tail.push(c);
                },
            }
            i = i + 1;
        }
    }
    match finish_name(stem, heads, held, tail, Ghost(st)) {
        Ok(ps) => Ok((ps, i)),
        Err(e) => Err(e),
    }
}

pub proof fn lemma_pieces_concat(a: Seq<Piece>, b: Seq<Piece>)
    ensures
        pieces_view(a + b) == pieces_view(a) + pieces_view(b),
{
    assert(pieces_view(a + b) =~= pieces_view(a) + pieces_view(b));
}

/// Reads a text in the folded notation: the patterns that it names, in the
/// order written, or why it is not in the notation.
pub fn parse_pieces(text: &Vec<char>) -> (r: Result<Vec<Piece>, ParseError>)
    ensures
        match parse_spec(text@) {
            Ok(found) => r matches Ok(ps) && pieces_view(ps@) == found && forall|k: int|
                0 <= k < found.len() ==> written_wf(#[trigger] found[k]),
            Err(e) => r matches Err(x) && x == e,
        },
{
    proof {
        lemma_parse_wf(text@);
    }
    let mut acc: Vec<Piece> = Vec::new();
    let mut i: usize = 0;
    proof {
        assert(pieces_view(acc@) =~= Seq::<Written>::empty());
    }
    while i < text.len()
        invariant
            i <= text@.len(),
            parse_spec(text@) == parse_text(text@, i as int, pieces_view(acc@)),
        decreases text@.len() - i,
    {
        if is_separator_char(text[i]) {
            i = i + 1;
        } else {
            match read_name(text, i) {
                Err(e) => {
                    return Err(e);
                },
                Ok((mut ps, next)) => {
                    proof {
                        lemma_pieces_concat(acc@, ps@);
                    }
                    acc.append(&mut ps);
                    i = next;
                },
            }
        }
    }
    Ok(acc)
}

} // verus!

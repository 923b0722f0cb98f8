//! Folding the numbers of the patterns: where patterns that follow one
//! another differ in one number only, and read the same after it, they are
//! written once, with the runs of that number in brackets.
//!
//! The folding goes from the last number of each pattern towards the first,
//! one number in each round, and works on the texts alone.

use crate::content::Group;
use crate::folding::{lemma_slot_at, push_ids, render_ids, slot_at};
use crate::idset::{group_of, groups_of, Entry};
use crate::normal_form::{lemma_normal_form_of, normal_form};
use crate::numeral::{
    all_digits, is_digit, is_digit_char, numeral_value, numeral_width, padded, push_padded,
    read_numeral,
};
use crate::parser::width_of;
use crate::pattern::{copy_chars, has_slot, pattern_wf, SLOT};
use crate::range::IdRange;
use crate::runs::{runs_of_values, values_set};
use vstd::prelude::*;

verus! {

/// A pattern while it is folded: what is left of it, and the text that
/// stands for the rest.
pub struct Stem {
    pub prefix: Seq<char>,
    pub rest: Seq<char>,
}

/// Where the last numeral of `p` ends; 0 where there is none.
pub open spec fn numeral_end(p: Seq<char>) -> int
    decreases p.len(),
{
    if p.len() == 0 {
        0
    } else if is_digit(p.last()) {
        p.len() as int
    } else {
        numeral_end(p.drop_last())
    }
}

/// Where the numeral that ends at `e` begins.
pub open spec fn numeral_start(p: Seq<char>, e: int) -> int
    decreases e,
{
    if 0 < e <= p.len() && is_digit(p[e - 1]) {
        numeral_start(p, e - 1)
    } else {
        e
    }
}

pub proof fn lemma_numeral_bounds(p: Seq<char>)
    ensures
        0 <= numeral_start(p, numeral_end(p)) <= numeral_end(p) <= p.len(),
        numeral_end(p) > 0 ==> numeral_start(p, numeral_end(p)) < numeral_end(p),
        forall|k: int|
            numeral_start(p, numeral_end(p)) <= k < numeral_end(p) ==> is_digit(#[trigger] p[k]),
{
    lemma_numeral_end(p);
    lemma_numeral_start(p, numeral_end(p));
}

pub proof fn lemma_numeral_end(p: Seq<char>)
    ensures
        0 <= numeral_end(p) <= p.len(),
        numeral_end(p) > 0 ==> is_digit(p[numeral_end(p) - 1]),
        forall|k: int| numeral_end(p) <= k < p.len() ==> !is_digit(#[trigger] p[k]),
    decreases p.len(),
{
    if p.len() > 0 && !is_digit(p.last()) {
        lemma_numeral_end(p.drop_last());
        assert forall|k: int| numeral_end(p) <= k < p.len() implies !is_digit(#[trigger] p[k]) by {
            if k < p.len() - 1 {
                assert(p.drop_last()[k] == p[k]);
            }
        }
    }
}

pub proof fn lemma_numeral_start(p: Seq<char>, e: int)
    requires
        0 <= e <= p.len(),
    ensures
        0 <= numeral_start(p, e) <= e,
        e > 0 && is_digit(p[e - 1]) ==> numeral_start(p, e) < e,
        forall|k: int| numeral_start(p, e) <= k < e ==> is_digit(#[trigger] p[k]),
        numeral_start(p, e) > 0 ==> !is_digit(p[numeral_start(p, e) - 1]),
    decreases e,
{
    if 0 < e && is_digit(p[e - 1]) {
        lemma_numeral_start(p, e - 1);
    }
}

/// What stands before the last numeral of the prefix.
pub open spec fn head_of(s: Stem) -> Seq<char> {
    s.prefix.take(numeral_start(s.prefix, numeral_end(s.prefix)))
}

/// The last numeral of the prefix.
pub open spec fn numeral_of(s: Stem) -> Seq<char> {
    s.prefix.subrange(numeral_start(s.prefix, numeral_end(s.prefix)), numeral_end(s.prefix))
}

/// What stands after the last numeral of the prefix.
pub open spec fn mid_of(s: Stem) -> Seq<char> {
    s.prefix.skip(numeral_end(s.prefix))
}

/// Whether the numeral is an identifier that is written so with the given
/// width.
pub open spec fn fits(d: Seq<char>, width: nat) -> bool {
    numeral_value(d) <= u32::MAX && padded(numeral_value(d), width) == d
}

/// Whether a block can begin with the stem: it has a numeral, which is
/// written as an identifier of its own width is.
pub open spec fn leads(a: Stem) -> bool {
    numeral_end(a.prefix) > 0 && fits(numeral_of(a), numeral_width(numeral_of(a)))
}

/// Whether `b` belongs to the block that begins with `a`: the two differ in
/// their last numeral only, and that of `b` is written as an identifier of
/// the width of `a` is.
pub open spec fn joins(a: Stem, b: Stem) -> bool {
    &&& numeral_end(b.prefix) > 0
    &&& head_of(a) == head_of(b)
    &&& mid_of(a) == mid_of(b)
    &&& a.rest == b.rest
    &&& fits(numeral_of(b), numeral_width(numeral_of(a)))
}

/// Where the block that begins at `i` ends, given that it reaches `j`.
pub open spec fn block_end(items: Seq<Stem>, i: int, j: int) -> int
    decreases items.len() - j,
{
    if 0 <= i < j < items.len() && joins(items[i], items[j]) {
        block_end(items, i, j + 1)
    } else {
        j
    }
}

pub proof fn lemma_block_end(items: Seq<Stem>, i: int, j: int)
    requires
        0 <= i < j <= items.len(),
    ensures
        j <= block_end(items, i, j) <= items.len(),
    decreases items.len() - j,
{
    if j < items.len() && joins(items[i], items[j]) {
        lemma_block_end(items, i, j + 1);
    }
}

/// The identifiers that the numerals of the stems from `i` to `j` stand for.
pub open spec fn block_values(items: Seq<Stem>, i: int, j: int) -> Seq<u32> {
    Seq::new((j - i) as nat, |k: int| numeral_value(numeral_of(items[i + k])) as u32)
}

/// The stems from `i` to `j` as one: their common head, and the runs of
/// their numerals in brackets before the rest.
pub open spec fn merged(items: Seq<Stem>, i: int, j: int) -> Stem {
    Stem {
        prefix: head_of(items[i]),
        rest: render_ids(
            normal_form(values_set(block_values(items, i, j))),
            numeral_width(numeral_of(items[i])),
        ) + mid_of(items[i]) + items[i].rest,
    }
}

/// The stem with its last numeral moved to the rest as it is written.
pub open spec fn moved(a: Stem) -> Stem {
    Stem { prefix: head_of(a), rest: numeral_of(a) + mid_of(a) + a.rest }
}

/// One round from `i` on, after the stems in `acc`: each block of two stems
/// or more becomes one stem, each other stem has its last numeral moved to
/// the rest.
pub open spec fn round_from(items: Seq<Stem>, i: int, acc: Seq<Stem>) -> Seq<Stem>
    decreases items.len() - i,
{
    if i < 0 || i >= items.len() {
        acc
    } else if leads(items[i]) && block_end(items, i, i + 1) >= i + 2 {
        proof {
            lemma_block_end(items, i, i + 1);
        }
        round_from(
            items,
            block_end(items, i, i + 1),
            acc.push(merged(items, i, block_end(items, i, i + 1))),
        )
    } else {
        round_from(items, i + 1, acc.push(moved(items[i])))
    }
}

/// As many rounds as given.
pub open spec fn rounds(items: Seq<Stem>, count: nat) -> Seq<Stem>
    decreases count,
{
    if count == 0 {
        items
    } else {
        rounds(round_from(items, 0, Seq::empty()), (count - 1) as nat)
    }
}

/// The length of the longest prefix.
pub open spec fn longest(items: Seq<Stem>) -> nat
    decreases items.len(),
{
    if items.len() == 0 {
        0
    } else if items.last().prefix.len() > longest(items.drop_last()) {
        items.last().prefix.len()
    } else {
        longest(items.drop_last())
    }
}

/// The stem that a group begins with: the pattern up to its slot, and the
/// identifiers and what follows them as the rest.
pub open spec fn stem_of(g: Group) -> Stem {
    if has_slot(g.pattern) {
        Stem {
            prefix: g.pattern.take(slot_at(g.pattern)),
            rest: render_ids(normal_form(g.ids), g.width) + g.pattern.skip(slot_at(g.pattern) + 1),
        }
    } else {
        Stem { prefix: g.pattern, rest: Seq::empty() }
    }
}

/// The stems that the groups begin with.
pub open spec fn stems_of(c: Seq<Group>) -> Seq<Stem> {
    Seq::new(c.len(), |k: int| stem_of(c[k]))
}

/// The stems as one text, with commas between them.
pub open spec fn stems_text(items: Seq<Stem>) -> Seq<char>
    decreases items.len(),
{
    if items.len() == 0 {
        Seq::empty()
    } else if items.len() == 1 {
        items[0].prefix + items[0].rest
    } else {
        stems_text(items.drop_last()) + seq![','] + (items.last().prefix + items.last().rest)
    }
}

/// The text of the groups with the numbers of their patterns folded: one
/// round for each character of the longest pattern, which is as many as any
/// pattern has numerals.
pub open spec fn folded_text(c: Seq<Group>) -> Seq<char> {
    stems_text(rounds(stems_of(c), longest(stems_of(c))))
}

/// A stem as it is held.
pub struct Item {
    pub prefix: Vec<char>,
    pub rest: Vec<char>,
}

impl View for Item {
    type V = Stem;

    open spec fn view(&self) -> Stem {
        Stem { prefix: self.prefix@, rest: self.rest@ }
    }
}

/// What a vector of items stands for.
pub open spec fn items_view(v: Seq<Item>) -> Seq<Stem> {
    Seq::new(v.len(), |k: int| v[k]@)
}

/// Whether `a[a0..a1]` and `b[b0..b1]` are the same text.
pub fn same_text(a: &Vec<char>, a0: usize, a1: usize, b: &Vec<char>, b0: usize, b1: usize) -> (r:
    bool)
    requires
        a0 <= a1 <= a@.len(),
        b0 <= b1 <= b@.len(),
    ensures
        r == (a@.subrange(a0 as int, a1 as int) == b@.subrange(b0 as int, b1 as int)),
{
    let ghost x = a@.subrange(a0 as int, a1 as int);
    let ghost y = b@.subrange(b0 as int, b1 as int);
    if a1 - a0 != b1 - b0 {
        proof {
            assert(x.len() != y.len());
        }
        return false;
    }
    let n = a1 - a0;
    let mut k: usize = 0;
    while k < n
        invariant
            k <= n,
            n == a1 - a0,
            n == b1 - b0,
            a0 <= a1 <= a@.len(),
            b0 <= b1 <= b@.len(),
            x == a@.subrange(a0 as int, a1 as int),
            y == b@.subrange(b0 as int, b1 as int),
            forall|t: int| 0 <= t < k ==> x[t] == y[t],
        decreases n - k,
    {
        if a[a0 + k] != b[b0 + k] {
            proof {
                assert(x[k as int] != y[k as int]);
            }
            return false;
        }
        k = k + 1;
    }
    proof {
        assert(x =~= y);
    }
    true
}

/// Where the last numeral of the prefix begins and ends.
fn numeral_span(prefix: &Vec<char>) -> (r: (usize, usize))
    ensures
        r.1 == numeral_end(prefix@),
        r.0 == numeral_start(prefix@, r.1 as int),
        r.0 <= r.1 <= prefix@.len(),
        all_digits(prefix@.subrange(r.0 as int, r.1 as int)),
{
    let mut e: usize = prefix.len();
    proof {
        assert(prefix@.take(e as int) =~= prefix@);
    }
    while e > 0 && !is_digit_char(prefix[e - 1])
        invariant
            e <= prefix@.len(),
            numeral_end(prefix@) == numeral_end(prefix@.take(e as int)),
        decreases e,
    {
        proof {
            assert(prefix@.take(e as int).drop_last() =~= prefix@.take(e - 1));
        }
        e = e - 1;
    }
    let mut s: usize = e;
    while s > 0 && is_digit_char(prefix[s - 1])
        invariant
            s <= e <= prefix@.len(),
            numeral_start(prefix@, e as int) == numeral_start(prefix@, s as int),
        decreases s,
    {
        s = s - 1;
    }
    proof {
        lemma_numeral_bounds(prefix@);
        assert(numeral_end(prefix@.take(e as int)) == e);
    }
    (s, e)
}

/// The identifier that the numeral `prefix[s..e]` stands for, if it is one
/// that is written so with the given width.
fn fitting(prefix: &Vec<char>, s: usize, e: usize, width: usize) -> (r: Option<u32>)
    requires
        s <= e <= prefix@.len(),
        all_digits(prefix@.subrange(s as int, e as int)),
    ensures
        match r {
            Some(v) => fits(prefix@.subrange(s as int, e as int), width as nat) && v
                == numeral_value(prefix@.subrange(s as int, e as int)),
            None => !fits(prefix@.subrange(s as int, e as int), width as nat),
        },
{
    match read_numeral(prefix, s, e) {
        None => None,
        Some(v) => {
            let mut written: Vec<char> = Vec::new();
            push_padded(&mut written, v, width);
            proof {
                assert(written@ =~= padded(v as nat, width as nat));
                assert(written@.subrange(0, written@.len() as int) =~= written@);
            }
            if same_text(&written, 0, written.len(), prefix, s, e) {
                Some(v)
            } else {
                None
            }
        },
    }
}

/// The identifier of the last numeral of `b`, if `b` belongs to the block
/// that begins with `a`, whose last numeral is `a.prefix[s..e]`.
fn joining(a: &Item, s: usize, e: usize, width: usize, b: &Item) -> (r: Option<u32>)
    requires
        e == numeral_end(a.prefix@),
        s == numeral_start(a.prefix@, e as int),
        s <= e <= a.prefix@.len(),
        width == numeral_width(numeral_of(a@)),
    ensures
        match r {
            Some(v) => joins(a@, b@) && v == numeral_value(numeral_of(b@)),
            None => !joins(a@, b@),
        },
{
    let (sb, eb) = numeral_span(&b.prefix);
    if eb == 0 {
        return None;
    }
    proof {
        assert(a.prefix@.subrange(0, s as int) =~= head_of(a@));
        assert(b.prefix@.subrange(0, sb as int) =~= head_of(b@));
        assert(a.prefix@.subrange(e as int, a.prefix@.len() as int) =~= mid_of(a@));
        assert(b.prefix@.subrange(eb as int, b.prefix@.len() as int) =~= mid_of(b@));
        assert(a.rest@.subrange(0, a.rest@.len() as int) =~= a.rest@);
        assert(b.rest@.subrange(0, b.rest@.len() as int) =~= b.rest@);
    }
    if !same_text(&a.prefix, 0, s, &b.prefix, 0, sb) {
        return None;
    }
    if !same_text(&a.prefix, e, a.prefix.len(), &b.prefix, eb, b.prefix.len()) {
        return None;
    }
    if !same_text(&a.rest, 0, a.rest.len(), &b.rest, 0, b.rest.len()) {
        return None;
    }
    fitting(&b.prefix, sb, eb, width)
}

/// `text[from..to]` at the end of `out`.
fn push_part(out: &mut Vec<char>, text: &Vec<char>, from: usize, to: usize)
    requires
        from <= to <= text@.len(),
    ensures
        final(out)@ == old(out)@ + text@.subrange(from as int, to as int),
{
    let ghost before = out@;
    let mut k: usize = from;
    proof {
        assert(before + text@.subrange(from as int, from as int) =~= before);
    }
    while k < to
        invariant
            from <= k <= to <= text@.len(),
            out@ == before + text@.subrange(from as int, k as int),
        decreases to - k,
    {
        out.push(text[k]);
        proof {
            assert(before + text@.subrange(from as int, k + 1) =~= (before + text@.subrange(
                from as int,
                k as int,
            )).push(text@[k as int]));
        }
        k = k + 1;
    }
}

/// One round of folding.
fn round(items: &Vec<Item>) -> (out: Vec<Item>)
    ensures
        items_view(out@) == round_from(items_view(items@), 0, Seq::empty()),
{
    let mut out: Vec<Item> = Vec::new();
    let mut i: usize = 0;
    let ghost all = items_view(items@);
    proof {
        assert(items_view(out@) =~= Seq::<Stem>::empty());
    }
    while i < items.len()
        invariant
            i <= items@.len(),
            all == items_view(items@),
            round_from(all, 0, Seq::empty()) == round_from(all, i as int, items_view(out@)),
        decreases items@.len() - i,
    {
        let a = &items[i];
        let (s, e) = numeral_span(&a.prefix);
        let width = width_of(&a.prefix, s, e);
        let first = if e > 0 {
            fitting(&a.prefix, s, e, width)
        } else {
            None
        };
        let mut values: Vec<u32> = Vec::new();
        let mut j: usize = i + 1;
        proof {
            assert(all[i as int] == a@);
            assert(a.prefix@.subrange(s as int, e as int) == numeral_of(a@));
            assert(first is Some <==> leads(a@));
        }
        match first {
            Some(v) => {
                values.push(v);
                proof {
                    assert(values@ =~= block_values(all, i as int, j as int));
                }
                let mut open = true;
                while open && j < items.len()
                    invariant
                        i < j <= items@.len(),
                        !open ==> j < items@.len() && !joins(all[i as int], all[j as int]),
                        all == items_view(items@),
                        *a == items@[i as int],
                        e == numeral_end(a.prefix@),
                        s == numeral_start(a.prefix@, e as int),
                        s <= e <= a.prefix@.len(),
                        width == numeral_width(numeral_of(a@)),
                        block_end(all, i as int, i + 1) == block_end(all, i as int, j as int),
                        values@ == block_values(all, i as int, j as int),
                    decreases items@.len() - j + (if open { 1int } else { 0int }),
                {
                    proof {
                        assert(all[j as int] == items@[j as int]@);
                        assert(all[i as int] == a@);
                    }
                    match joining(a, s, e, width, &items[j]) {
                        Some(v) => {
                            values.push(v);
                            proof {
                                assert(values@ =~= block_values(all, i as int, j + 1));
                            }
                            j = j + 1;
                        },
                        None => {
                            open = false;
                        },
                    }
                }
                proof {
                    assert(block_end(all, i as int, i + 1) == j);
                }
            },
            None => {},
        }
        let mut rest: Vec<char> = Vec::new();
        let ghost folded: Stem;
        if j - i >= 2 {
            let runs = runs_of_values(&values);
            proof {
                lemma_normal_form_of(runs@);
            }
            push_ids(&mut rest, &runs, width);
            proof {
                folded = merged(all, i as int, j as int);
            }
        } else {
            push_part(&mut rest, &a.prefix, s, e);
            proof {
                folded = moved(a@);
            }
            j = i + 1;
        }
        push_part(&mut rest, &a.prefix, e, a.prefix.len());
        push_part(&mut rest, &a.rest, 0, a.rest.len());
        let mut head: Vec<char> = Vec::new();
        push_part(&mut head, &a.prefix, 0, s);
        let item = Item { prefix: head, rest };
        proof {
            assert(a.prefix@.subrange(0, s as int) =~= head_of(a@));
            assert(a.prefix@.subrange(e as int, a.prefix@.len() as int) =~= mid_of(a@));
            assert(a.rest@.subrange(0, a.rest@.len() as int) =~= a.rest@);
            assert(item@.prefix =~= folded.prefix);
            assert(item@.rest =~= folded.rest);
            assert(item@ == folded);
            assert(items_view(out@.push(item)) =~= items_view(out@).push(folded));
        }
        out.push(item);
        i = j;
    }
    out
}

/// The length of the longest prefix.
fn longest_prefix(items: &Vec<Item>) -> (n: usize)
    ensures
        n == longest(items_view(items@)),
{
    let mut n: usize = 0;
    let mut k: usize = 0;
    let ghost all = items_view(items@);
    proof {
        assert(all.take(0) =~= Seq::<Stem>::empty());
    }
    while k < items.len()
        invariant
            k <= items@.len(),
            all == items_view(items@),
            n == longest(all.take(k as int)),
        decreases items@.len() - k,
    {
        proof {
            let next = all.take(k + 1);
            assert(next.drop_last() =~= all.take(k as int));
            assert(next.last() == items@[k as int]@);
        }
        if items[k].prefix.len() > n {
            n = items[k].prefix.len();
        }
        k = k + 1;
    }
    proof {
        assert(all.take(k as int) =~= all);
    }
    n
}

/// The stem that an entry begins with.
fn stem_item<R: IdRange>(entry: &Entry<R>) -> (item: Item)
    requires
        entry.ids.wf(),
        pattern_wf(entry.pattern@),
    ensures
        item@ == stem_of(group_of(*entry)),
{
    let mut at: usize = 0;
    while at < entry.pattern.len() && entry.pattern[at] != SLOT
        invariant
            at <= entry.pattern@.len(),
            forall|i: int| 0 <= i < at ==> entry.pattern@[i] != SLOT,
        decreases entry.pattern@.len() - at,
    {
        at = at + 1;
    }
    if at == entry.pattern.len() {
        let item = Item { prefix: copy_chars(&entry.pattern), rest: Vec::new() };
        proof {
            assert(!has_slot(entry.pattern@));
            assert(item@.rest =~= Seq::<char>::empty());
        }
        item
    } else {
        let mut prefix: Vec<char> = Vec::new();
        push_part(&mut prefix, &entry.pattern, 0, at);
        let runs = entry.ids.runs();
        let width = entry.ids.pad();
        let mut rest: Vec<char> = Vec::new();
        push_ids(&mut rest, &runs, width);
        push_part(&mut rest, &entry.pattern, at + 1, entry.pattern.len());
        proof {
            lemma_normal_form_of(runs@);
            lemma_slot_at(entry.pattern@, at as int);
            assert(prefix@ =~= entry.pattern@.take(at as int));
            assert(entry.pattern@.subrange(at + 1, entry.pattern@.len() as int)
                =~= entry.pattern@.skip(at + 1));
        }
        let item = Item { prefix, rest };
        proof {
            assert(item@.rest =~= stem_of(group_of(*entry)).rest);
        }
        item
    }
}

/// The text of the entries with the numbers of their patterns folded.
pub fn fold_numbers<R: IdRange>(entries: &Vec<Entry<R>>) -> (out: Vec<char>)
    requires
        forall|k: int|
            0 <= k < entries@.len() ==> (#[trigger] entries@[k]).ids.wf() && pattern_wf(
                entries@[k].pattern@,
            ),
    ensures
        out@ == folded_text(groups_of(entries@)),
{
    let ghost c = groups_of(entries@);
    let mut items: Vec<Item> = Vec::new();
    let mut k: usize = 0;
    while k < entries.len()
        invariant
            k <= entries@.len(),
            c == groups_of(entries@),
            forall|t: int|
                0 <= t < entries@.len() ==> (#[trigger] entries@[t]).ids.wf() && pattern_wf(
                    entries@[t].pattern@,
                ),
            items@.len() == k,
            forall|t: int| 0 <= t < k ==> (#[trigger] items@[t])@ == stem_of(c[t]),
        decreases entries@.len() - k,
    {
        proof {
            assert(entries@[k as int].ids.wf());
            assert(c[k as int] == group_of(entries@[k as int]));
        }
        items.push(stem_item(&entries[k]));
        k = k + 1;
    }
    proof {
        assert(items_view(items@) =~= stems_of(c));
    }
    let count = longest_prefix(&items);
    let mut left: usize = count;
    while left > 0
        invariant
            rounds(stems_of(c), count as nat) == rounds(items_view(items@), left as nat),
        decreases left,
    {
        items = round(&items);
        left = left - 1;
    }
    let mut out: Vec<char> = Vec::new();
    let mut t: usize = 0;
    let ghost all = items_view(items@);
    proof {
        assert(stems_text(all.take(0)) =~= out@);
    }
    while t < items.len()
        invariant
            t <= items@.len(),
            all == items_view(items@),
            out@ == stems_text(all.take(t as int)),
        decreases items@.len() - t,
    {
        if t > 0 {
            out.push(',');
        }
        let ghost before = out@;
        push_part(&mut out, &items[t].prefix, 0, items[t].prefix.len());
        push_part(&mut out, &items[t].rest, 0, items[t].rest.len());
        proof {
            let item = items@[t as int];
            assert(item.prefix@.subrange(0, item.prefix@.len() as int) =~= item.prefix@);
            assert(item.rest@.subrange(0, item.rest@.len() as int) =~= item.rest@);
            let next = all.take(t + 1);
            assert(next.drop_last() =~= all.take(t as int));
            assert(next.last() == item@);
            if t == 0 {
                assert(next[0] == all[0]);
                assert(stems_text(all.take(0)) =~= Seq::<char>::empty());
                assert(out@ =~= item@.prefix + item@.rest);
            }
            assert(out@ =~= stems_text(next));
        }
        t = t + 1;
    }
    proof {
        assert(all.take(t as int) =~= all);
    }
    out
}

} // verus!

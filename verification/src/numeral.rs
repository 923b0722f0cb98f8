//! Decimal numerals: how an identifier is written, with or without leading
//! zeros, and what a written numeral stands for.

use vstd::prelude::*;

verus! {

/// Whether `c` is one of `0` to `9`.
pub open spec fn is_digit(c: char) -> bool {
    '0' <= c <= '9'
}

/// The digit that stands for `d`, for `d` below ten.
pub open spec fn digit_of(d: int) -> char {
    ('0' as int + d) as char
}

/// What the digit `c` stands for.
pub open spec fn digit_value(c: char) -> int {
    c as int - '0' as int
}

/// Every character of `d` is a digit.
pub open spec fn all_digits(d: Seq<char>) -> bool {
    forall|i: int| 0 <= i < d.len() ==> is_digit(#[trigger] d[i])
}

/// The shortest decimal numeral of `v`.
pub open spec fn decimal(v: nat) -> Seq<char>
    decreases v,
{
    if v < 10 {
        seq![digit_of(v as int)]
    } else {
        decimal(v / 10).push(digit_of((v % 10) as int))
    }
}

/// `n` zeros.
pub open spec fn zeros(n: nat) -> Seq<char> {
    Seq::new(n, |i: int| '0')
}

/// The numeral of `v` with leading zeros up to `width` characters; wider
/// numbers are written in full.
pub open spec fn padded(v: nat, width: nat) -> Seq<char> {
    let d = decimal(v);
    if d.len() >= width {
        d
    } else {
        zeros((width - d.len()) as nat) + d
    }
}

/// What a numeral stands for, leading zeros allowed.
pub open spec fn numeral_value(d: Seq<char>) -> nat
    decreases d.len(),
{
    if d.len() == 0 {
        0
    } else {
        (numeral_value(d.drop_last()) * 10 + digit_value(d.last())) as nat
    }
}

/// The display width that a numeral asks for: its length where it is written
/// with a leading zero, otherwise none.
pub open spec fn numeral_width(d: Seq<char>) -> nat {
    if d.len() > 1 && d[0] == '0' {
        d.len()
    } else {
        0
    }
}

/// The leading part of a numeral: nothing for zero.
pub open spec fn lead(v: nat) -> Seq<char> {
    if v == 0 {
        Seq::empty()
    } else {
        decimal(v)
    }
}

pub proof fn lemma_decimal_step(v: nat)
    ensures
        decimal(v) == lead(v / 10).push(digit_of((v % 10) as int)),
{
    if v < 10 {
        assert(decimal(v) =~= Seq::<char>::empty().push(digit_of(v as int)));
    }
}

/// Whether `c` is a decimal digit.
pub fn is_digit_char(c: char) -> (b: bool)
    ensures
        b == is_digit(c),
{
    '0' <= c && c <= '9'
}

/// The digit for `d`.
pub fn digit_char(d: u32) -> (c: char)
    requires
        d < 10,
    ensures
        c == digit_of(d as int),
        is_digit(c),
{
    if d == 0 {
        '0'
    } else if d == 1 {
        '1'
    } else if d == 2 {
        '2'
    } else if d == 3 {
        '3'
    } else if d == 4 {
        '4'
    } else if d == 5 {
        '5'
    } else if d == 6 {
        '6'
    } else if d == 7 {
        '7'
    } else if d == 8 {
        '8'
    } else {
        '9'
    }
}

/// Writes `v` at the end of `out`, with leading zeros up to `width`
/// characters.
pub fn push_padded(out: &mut Vec<char>, v: u32, width: usize)
    ensures
        final(out)@ == old(out)@ + padded(v as nat, width as nat),
{
    let ghost before = out@;
    let mut rev: Vec<char> = Vec::new();
    let mut rest: u32 = v / 10;
    rev.push(digit_char(v % 10));
    proof {
        lemma_decimal_step(v as nat);
        assert(decimal(v as nat) =~= lead(rest as nat) + rev@.reverse());
    }
    while rest > 0
        invariant
            rev@.len() >= 1,
            decimal(v as nat) == lead(rest as nat) + rev@.reverse(),
        decreases rest,
    {
        let ghost old_rev = rev@;
        let ghost old_rest = rest;
        rev.push(digit_char(rest % 10));
        rest = rest / 10;
        proof {
            lemma_decimal_step(old_rest as nat);
            assert(rev@.reverse() =~= seq![digit_of((old_rest % 10) as int)] + old_rev.reverse());
            assert(lead(old_rest as nat) + old_rev.reverse() =~= lead(rest as nat)
                + rev@.reverse());
        }
    }
    proof {
        assert(decimal(v as nat) =~= rev@.reverse());
    }
    let n = rev.len();
    let mut z: usize = n;
    while z < width
        invariant
            n <= z,
            z <= width || z == n,
            out@ == before + zeros((z - n) as nat),
        decreases width - z,
    {
        out.push('0');
        z = z + 1;
        proof {
            assert(before + zeros((z - n) as nat) =~= (before + zeros((z - 1 - n) as nat)).push(
                '0',
            ));
        }
    }
    let ghost padding = out@;
    let mut t: usize = 0;
    while t < n
        invariant
            t <= n,
            n == rev@.len(),
            out@ == padding + rev@.reverse().take(t as int),
        decreases n - t,
    {
        out.push(rev[n - 1 - t]);
        proof {
            assert(rev@.reverse().take(t + 1) =~= rev@.reverse().take(t as int).push(
                rev@[n - 1 - t],
            ));
        }
        t = t + 1;
    }
    proof {
        assert(rev@.reverse().take(n as int) =~= rev@.reverse());
        assert(out@ =~= before + padded(v as nat, width as nat));
    }
}

/// What the numeral in `text[from..to]` stands for, or `None` where that is
/// more than an identifier can be.
pub fn read_numeral(text: &Vec<char>, from: usize, to: usize) -> (r: Option<u32>)
    requires
        from <= to <= text@.len(),
        all_digits(text@.subrange(from as int, to as int)),
    ensures
        match r {
            Some(v) => v == numeral_value(text@.subrange(from as int, to as int)),
            None => numeral_value(text@.subrange(from as int, to as int)) > u32::MAX,
        },
{
    let mut acc: u64 = 0;
    let mut over = false;
    let mut k: usize = from;
    while k < to
        invariant
            from <= k <= to,
            to <= text@.len(),
            all_digits(text@.subrange(from as int, to as int)),
            !over ==> acc == numeral_value(text@.subrange(from as int, k as int)),
            !over ==> acc <= u32::MAX,
            over ==> numeral_value(text@.subrange(from as int, k as int)) > u32::MAX,
        decreases to - k,
    {
        let c = text[k];
        proof {
            let next = text@.subrange(from as int, k + 1);
            assert(next.drop_last() =~= text@.subrange(from as int, k as int));
            assert(next.last() == c);
            assert(c == text@.subrange(from as int, to as int)[k - from]);
            assert(is_digit(c));
        }
        if !over {
            let d = (c as u32 - '0' as u32) as u64;
            acc = acc * 10 + d;
            if acc > 0xFFFF_FFFF {
                over = true;
            }
        }
        k = k + 1;
    }
    if over {
        None
    } else {
        Some(acc as u32)
    }
}

/// The width that the numeral of `v` shows when it is written with leading
/// zeros up to `width`: `width` where zeros are needed, otherwise none.
pub open spec fn shown_width(v: nat, width: nat) -> nat {
    if decimal(v).len() < width {
        width
    } else {
        0
    }
}

pub proof fn lemma_decimal(v: nat)
    ensures
        all_digits(decimal(v)),
        decimal(v).len() > 0,
        v > 0 ==> decimal(v)[0] != '0',
        numeral_value(decimal(v)) == v,
    decreases v,
{
    if v >= 10 {
        lemma_decimal(v / 10);
        let front = decimal(v / 10);
        let c = digit_of((v % 10) as int);
        assert(front.push(c).drop_last() =~= front);
    } else {
        let d = decimal(v);
        assert(d.drop_last() =~= Seq::<char>::empty());
        assert(numeral_value(d.drop_last()) == 0);
    }
}

pub proof fn lemma_value_zeros(k: nat)
    ensures
        numeral_value(zeros(k)) == 0,
    decreases k,
{
    if k > 0 {
        lemma_value_zeros((k - 1) as nat);
        assert(zeros(k).drop_last() =~= zeros((k - 1) as nat));
    }
}

pub proof fn lemma_value_lead(k: nat, d: Seq<char>)
    ensures
        numeral_value(zeros(k) + d) == numeral_value(d),
    decreases d.len(),
{
    if d.len() == 0 {
        assert(zeros(k) + d =~= zeros(k));
        lemma_value_zeros(k);
    } else {
        assert((zeros(k) + d).drop_last() =~= zeros(k) + d.drop_last());
        lemma_value_lead(k, d.drop_last());
    }
}

/// A written identifier stands for that identifier, shows digits only, and
/// asks for the width to which it was padded, if it was.
pub proof fn lemma_padded(v: nat, width: nat)
    ensures
        all_digits(padded(v, width)),
        padded(v, width).len() > 0,
        numeral_value(padded(v, width)) == v,
        numeral_width(padded(v, width)) == shown_width(v, width),
{
    lemma_decimal(v);
    let d = decimal(v);
    if d.len() < width {
        lemma_value_lead((width - d.len()) as nat, d);
        assert(padded(v, width)[0] == '0');
    } else if v == 0 {
        assert(d.len() == 1);
    }
}

pub proof fn lemma_decimal_len(a: nat, b: nat)
    requires
        a <= b,
    ensures
        decimal(a).len() <= decimal(b).len(),
    decreases b,
{
    lemma_decimal(a);
    if b >= 10 && a >= 10 {
        lemma_decimal_len(a / 10, b / 10);
    }
}

} // verus!

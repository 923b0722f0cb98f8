//! The order in which patterns are kept: by their characters, but numbers by
//! their value, and the place of the last number before any character. So
//! `rack9` comes before `rack10`, the names `node1` come before the names
//! `node-a1` and `nodeA1`, and a walk over a set visits each number of its
//! names in ascending order.

use crate::grammar::{digits_end, lemma_digits_end};
use crate::numeral::{is_digit, is_digit_char};
use crate::parser::scan_digits;
use crate::pattern::{
    lemma_precedes_asymmetric, lemma_precedes_irreflexive, lemma_precedes_total,
    lemma_precedes_transitive, precedes, precedes_from, Rank, SLOT,
};
use vstd::prelude::*;

verus! {

/// Where the zeros that start at `i` end.
pub open spec fn zeros_end(p: Seq<char>, i: int) -> int
    decreases p.len() - i,
{
    if 0 <= i < p.len() && p[i] == '0' {
        zeros_end(p, i + 1)
    } else {
        i
    }
}

pub proof fn lemma_zeros_end(p: Seq<char>, i: int)
    requires
        0 <= i <= p.len(),
    ensures
        i <= zeros_end(p, i) <= digits_end(p, i) <= p.len(),
        forall|k: int| i <= k < zeros_end(p, i) ==> #[trigger] p[k] == '0',
    decreases p.len() - i,
{
    lemma_digits_end(p, i);
    if i < p.len() && p[i] == '0' {
        lemma_zeros_end(p, i + 1);
    }
}

/// The numeral at `i`.
pub open spec fn numeral_at(p: Seq<char>, i: int) -> Seq<char> {
    p.subrange(i, digits_end(p, i))
}

/// The numeral at `i` without its leading zeros.
pub open spec fn significant(p: Seq<char>, i: int) -> Seq<char> {
    p.subrange(zeros_end(p, i), digits_end(p, i))
}

/// Whether the numeral of `a` at `i` comes before that of `b` at `j`: by
/// its value, which is by the number of its digits after the leading zeros
/// and then by those digits; of two numerals of one value, the longer comes
/// first.
pub open spec fn number_before(a: Seq<char>, i: int, b: Seq<char>, j: int) -> bool {
    let sa = significant(a, i);
    let sb = significant(b, j);
    if sa.len() != sb.len() {
        sa.len() < sb.len()
    } else if sa != sb {
        precedes(sa, sb)
    } else {
        numeral_at(a, i).len() > numeral_at(b, j).len()
    }
}

/// Two numerals of which neither comes before the other are the same.
pub proof fn lemma_number_total(a: Seq<char>, i: int, b: Seq<char>, j: int)
    requires
        0 <= i <= a.len(),
        0 <= j <= b.len(),
        numeral_at(a, i) != numeral_at(b, j),
    ensures
        number_before(a, i, b, j) || number_before(b, j, a, i),
{
    let sa = significant(a, i);
    let sb = significant(b, j);
    lemma_zeros_end(a, i);
    lemma_zeros_end(b, j);
    if sa.len() == sb.len() {
        if sa != sb {
            lemma_precedes_total(sa, sb, 0);
        } else if numeral_at(a, i).len() == numeral_at(b, j).len() {
            let da = numeral_at(a, i);
            let db = numeral_at(b, j);
            let z = zeros_end(a, i) - i;
            assert(zeros_end(b, j) - j == z);
            assert forall|k: int| 0 <= k < da.len() implies da[k] == db[k] by {
                if k < z {
                    assert(a[i + k] == '0');
                    assert(b[j + k] == '0');
                } else {
                    assert(da[k] == sa[k - z]);
                    assert(db[k] == sb[k - z]);
                }
            }
            assert(da =~= db);
        }
    }
}

pub proof fn lemma_number_asymmetric(a: Seq<char>, i: int, b: Seq<char>, j: int)
    ensures
        !(number_before(a, i, b, j) && number_before(b, j, a, i)),
{
    let sa = significant(a, i);
    let sb = significant(b, j);
    lemma_precedes_asymmetric(sa, sb);
}

pub proof fn lemma_number_transitive(
    a: Seq<char>,
    i: int,
    b: Seq<char>,
    j: int,
    c: Seq<char>,
    k: int,
)
    requires
        number_before(a, i, b, j),
        number_before(b, j, c, k),
    ensures
        number_before(a, i, c, k),
{
    let sa = significant(a, i);
    let sb = significant(b, j);
    let sc = significant(c, k);
    lemma_precedes_asymmetric(sa, sb);
    lemma_precedes_asymmetric(sb, sc);
    lemma_precedes_asymmetric(sa, sc);
    if sa.len() == sb.len() && sb.len() == sc.len() {
        if sa != sb && sb != sc {
            lemma_precedes_transitive(sa, sb, sc, 0);
        }
    }
}

/// The same numeral stands at both places.
pub proof fn lemma_same_numeral(a: Seq<char>, i: int, b: Seq<char>, j: int)
    requires
        0 <= i < a.len(),
        0 <= j < b.len(),
        is_digit(a[i]),
        is_digit(b[j]),
        numeral_at(a, i) == numeral_at(b, j),
    ensures
        digits_end(a, i) - i == digits_end(b, j) - j,
        zeros_end(a, i) - i == zeros_end(b, j) - j,
        significant(a, i) == significant(b, j),
    decreases a.len() - i,
{
    lemma_digits_end(a, i);
    lemma_digits_end(b, j);
    lemma_zeros_end(a, i);
    lemma_zeros_end(b, j);
    let da = numeral_at(a, i);
    let db = numeral_at(b, j);
    assert(da.len() == db.len());
    lemma_zeros_same(a, i, b, j, 0);
    let z = zeros_end(a, i) - i;
    assert(significant(a, i) =~= da.skip(z));
    assert(significant(b, j) =~= db.skip(z));
}

proof fn lemma_zeros_same(a: Seq<char>, i: int, b: Seq<char>, j: int, k: int)
    requires
        0 <= i <= a.len(),
        0 <= j <= b.len(),
        numeral_at(a, i) == numeral_at(b, j),
        0 <= k <= numeral_at(a, i).len(),
        zeros_end(a, i) == zeros_end(a, i + k),
        zeros_end(b, j) == zeros_end(b, j + k),
    ensures
        zeros_end(a, i) - i == zeros_end(b, j) - j,
    decreases numeral_at(a, i).len() - k,
{
    lemma_digits_end(a, i);
    lemma_digits_end(b, j);
    let da = numeral_at(a, i);
    let db = numeral_at(b, j);
    if k < da.len() {
        assert(da[k] == a[i + k]);
        assert(db[k] == b[j + k]);
        if a[i + k] == '0' {
            lemma_zeros_same(a, i, b, j, k + 1);
        }
    } else {
        if i + k < a.len() {
            assert(!is_digit(a[i + k]));
        }
        if j + k < b.len() {
            assert(!is_digit(b[j + k]));
        }
    }
}

/// Whether the character `x` comes before `y`: the slot before every other
/// character, the others by their code.
pub open spec fn char_before(x: char, y: char) -> bool {
    if x == SLOT {
        y != SLOT
    } else {
        y != SLOT && x < y
    }
}

/// Whether `a` from `i` on comes before `b` from `j` on, given that the two
/// agree before: at the first place where they differ `a` has the numeral
/// that comes first, or the character that comes first, or ends while `b`
/// goes on.
pub open spec fn before_from(a: Seq<char>, i: int, b: Seq<char>, j: int) -> bool
    decreases a.len() - i,
{
    if j < 0 || j >= b.len() {
        false
    } else if i < 0 || i >= a.len() {
        true
    } else if is_digit(a[i]) && is_digit(b[j]) {
        if numeral_at(a, i) == numeral_at(b, j) {
            proof {
                lemma_digits_end(a, i);
            }
            before_from(a, digits_end(a, i), b, digits_end(b, j))
        } else {
            number_before(a, i, b, j)
        }
    } else if a[i] != b[j] {
        char_before(a[i], b[j])
    } else {
        before_from(a, i + 1, b, j + 1)
    }
}

/// The order of patterns.
pub open spec fn comes_before(a: Seq<char>, b: Seq<char>) -> bool {
    before_from(a, 0, b, 0)
}

pub proof fn lemma_before_irreflexive(a: Seq<char>, i: int)
    requires
        0 <= i <= a.len(),
    ensures
        !before_from(a, i, a, i),
    decreases a.len() - i,
{
    if i < a.len() {
        if is_digit(a[i]) {
            lemma_digits_end(a, i);
            lemma_before_irreflexive(a, digits_end(a, i));
        } else {
            lemma_before_irreflexive(a, i + 1);
        }
    }
}

pub proof fn lemma_before_chain(a: Seq<char>, i: int, b: Seq<char>, j: int, c: Seq<char>, k: int)
    requires
        0 <= i <= a.len(),
        0 <= j <= b.len(),
        0 <= k <= c.len(),
        before_from(a, i, b, j),
        before_from(b, j, c, k),
    ensures
        before_from(a, i, c, k),
    decreases a.len() - i,
{
    if i < a.len() {
        let x = a[i];
        let y = b[j];
        let z = c[k];
        if is_digit(x) && is_digit(y) {
            lemma_digits_end(a, i);
            lemma_digits_end(b, j);
            if is_digit(z) {
                lemma_digits_end(c, k);
                let ab = numeral_at(a, i) == numeral_at(b, j);
                let bc = numeral_at(b, j) == numeral_at(c, k);
                if ab {
                    lemma_same_numeral(a, i, b, j);
                }
                if bc {
                    lemma_same_numeral(b, j, c, k);
                }
                if ab && bc {
                    lemma_before_chain(a, digits_end(a, i), b, digits_end(b, j), c, digits_end(c, k));
                } else if !ab && !bc {
                    lemma_number_transitive(a, i, b, j, c, k);
                    lemma_number_asymmetric(a, i, c, k);
                    if numeral_at(a, i) == numeral_at(c, k) {
                        lemma_same_numeral(a, i, c, k);
                        lemma_number_asymmetric(a, i, b, j);
                        lemma_number_asymmetric(b, j, c, k);
                        lemma_precedes_asymmetric(significant(a, i), significant(b, j));
                    }
                } else {
                    lemma_number_asymmetric(a, i, c, k);
                }
            }
        } else if is_digit(x) == is_digit(y) && x == y {
            if !is_digit(z) && y == z {
                lemma_before_chain(a, i + 1, b, j + 1, c, k + 1);
            }
        }
    }
}

pub proof fn lemma_before_either(a: Seq<char>, i: int, b: Seq<char>, j: int)
    requires
        0 <= i <= a.len(),
        0 <= j <= b.len(),
        a.skip(i) != b.skip(j),
    ensures
        before_from(a, i, b, j) || before_from(b, j, a, i),
    decreases a.len() - i,
{
    if i < a.len() && j < b.len() {
        if is_digit(a[i]) && is_digit(b[j]) {
            lemma_digits_end(a, i);
            lemma_digits_end(b, j);
            if numeral_at(a, i) == numeral_at(b, j) {
                let ea = digits_end(a, i);
                let eb = digits_end(b, j);
                assert(a.skip(ea) != b.skip(eb)) by {
                    if a.skip(ea) == b.skip(eb) {
                        assert(a.skip(i) =~= numeral_at(a, i) + a.skip(ea));
                        assert(b.skip(j) =~= numeral_at(b, j) + b.skip(eb));
                    }
                }
                lemma_before_either(a, ea, b, eb);
            } else {
                lemma_number_total(a, i, b, j);
            }
        } else if a[i] == b[j] {
            assert(a.skip(i + 1) != b.skip(j + 1)) by {
                if a.skip(i + 1) == b.skip(j + 1) {
                    assert(a.skip(i) =~= seq![a[i]] + a.skip(i + 1));
                    assert(b.skip(j) =~= seq![b[j]] + b.skip(j + 1));
                }
            }
            lemma_before_either(a, i + 1, b, j + 1);
        }
    } else if i >= a.len() && j >= b.len() {
        assert(a.skip(i) =~= b.skip(j));
    }
}

/// No pattern comes before itself, and of two patterns at most one comes
/// before the other.
pub proof fn lemma_before_asymmetric(a: Seq<char>, b: Seq<char>)
    ensures
        !(comes_before(a, b) && comes_before(b, a)),
        !comes_before(a, a),
{
    lemma_before_irreflexive(a, 0);
    if comes_before(a, b) && comes_before(b, a) {
        lemma_before_chain(a, 0, b, 0, a, 0);
    }
}

/// A pattern that comes before one that comes before a third comes before
/// the third.
pub proof fn lemma_before_transitive(a: Seq<char>, b: Seq<char>, c: Seq<char>)
    requires
        comes_before(a, b),
        comes_before(b, c),
    ensures
        comes_before(a, c),
{
    lemma_before_chain(a, 0, b, 0, c, 0);
}

/// Of two patterns one comes before the other.
pub proof fn lemma_before_total(a: Seq<char>, b: Seq<char>)
    requires
        a != b,
    ensures
        comes_before(a, b) || comes_before(b, a),
{
    assert(a.skip(0) =~= a);
    assert(b.skip(0) =~= b);
    lemma_before_either(a, 0, b, 0);
}

/// Where the zeros that start at `i` end.
fn scan_zeros(p: &Vec<char>, i: usize) -> (z: usize)
    requires
        i <= p@.len(),
    ensures
        z == zeros_end(p@, i as int),
        i <= z <= p@.len(),
{
    let mut z = i;
    while z < p.len() && p[z] == '0'
        invariant
            i <= z <= p@.len(),
            zeros_end(p@, i as int) == zeros_end(p@, z as int),
        decreases p@.len() - z,
    {
        z = z + 1;
    }
    z
}

/// Where `a[from..to]` stands relative to `b[start..]` of the same length,
/// by their characters.
fn rank_digits(a: &Vec<char>, from: usize, to: usize, b: &Vec<char>, start: usize) -> (r: Rank)
    requires
        from <= to <= a@.len(),
        start + (to - from) <= b@.len(),
    ensures
        (r == Rank::Before) == precedes(
            a@.subrange(from as int, to as int),
            b@.subrange(start as int, start + (to - from)),
        ),
        (r == Rank::Same) == (a@.subrange(from as int, to as int) == b@.subrange(
            start as int,
            start + (to - from),
        )),
        (r == Rank::After) == precedes(
            b@.subrange(start as int, start + (to - from)),
            a@.subrange(from as int, to as int),
        ),
{
    let n = to - from;
    let ghost x = a@.subrange(from as int, to as int);
    let ghost y = b@.subrange(start as int, start + n);
    let mut k: usize = 0;
    let size = b.len();
    proof {
        lemma_precedes_asymmetric(x, y);
    }
    while k < n
        invariant
            k <= n,
            n == to - from,
            from <= to <= a@.len(),
            start + n <= b@.len(),
            b@.len() <= usize::MAX,
            x == a@.subrange(from as int, to as int),
            y == b@.subrange(start as int, start + n),
            forall|t: int| 0 <= t < k ==> x[t] == y[t],
            precedes(x, y) == precedes_from(x, y, k as int),
            precedes(y, x) == precedes_from(y, x, k as int),
        decreases n - k,
    {
        let c = a[from + k];
        let d = b[start + k];
        proof {
            assert(x[k as int] == c);
            assert(y[k as int] == d);
        }
        if c < d {
            proof {
                assert(x != y);
            }
            return Rank::Before;
        }
        if d < c {
            proof {
                assert(x != y);
            }
            return Rank::After;
        }
        k = k + 1;
    }
    proof {
        assert(x =~= y);
        lemma_precedes_irreflexive(x, 0);
    }
    Rank::Same
}

/// Where `a` stands relative to `b` in the order of patterns.
pub fn rank_patterns(a: &Vec<char>, b: &Vec<char>) -> (r: Rank)
    ensures
        (r == Rank::Before) == comes_before(a@, b@),
        (r == Rank::Same) == (a@ == b@),
        (r == Rank::After) == comes_before(b@, a@),
{
    let mut i: usize = 0;
    proof {
        lemma_before_asymmetric(a@, b@);
        lemma_before_asymmetric(a@, a@);
        assert(a@.take(0) =~= b@.take(0));
    }
    while i < a.len() && i < b.len()
        invariant
            i <= a@.len(),
            i <= b@.len(),
            a@.take(i as int) == b@.take(i as int),
            comes_before(a@, b@) == before_from(a@, i as int, b@, i as int),
            comes_before(b@, a@) == before_from(b@, i as int, a@, i as int),
            !(comes_before(a@, b@) && comes_before(b@, a@)),
            !comes_before(a@, a@),
        decreases a@.len() - i,
    {
        let x = a[i];
        let y = b[i];
        if is_digit_char(x) && is_digit_char(y) {
            let ea = scan_digits(a, i);
            let eb = scan_digits(b, i);
            let za = scan_zeros(a, i);
            let zb = scan_zeros(b, i);
            proof {
                lemma_zeros_end(a@, i as int);
                lemma_zeros_end(b@, i as int);
                lemma_digits_end(a@, i as int);
                lemma_digits_end(b@, i as int);
            }
            let same = if ea == eb {
                match rank_digits(a, i, ea, b, i) {
                    Rank::Same => true,
                    _ => false,
                }
            } else {
                false
            };
            proof {
                assert(same == (numeral_at(a@, i as int) == numeral_at(b@, i as int))) by {
                    if ea != eb {
                        assert(numeral_at(a@, i as int).len() != numeral_at(b@, i as int).len());
                    }
                }
            }
            if same {
                proof {
                    assert(a@.take(ea as int) =~= a@.take(i as int) + numeral_at(a@, i as int));
                    assert(b@.take(eb as int) =~= b@.take(i as int) + numeral_at(b@, i as int));
                }
                i = ea;
            } else {
                let la = ea - za;
                let lb = eb - zb;
                if la < lb {
                    return Rank::Before;
                }
                if lb < la {
                    return Rank::After;
                }
                match rank_digits(a, za, ea, b, zb) {
                    Rank::Before => {
                        return Rank::Before;
                    },
                    Rank::After => {
                        return Rank::After;
                    },
                    Rank::Same => {
                        if ea - i > eb - i {
                            return Rank::Before;
                        } else {
                            proof {
                                lemma_number_total(a@, i as int, b@, i as int);
                            }
                            return Rank::After;
                        }
                    },
                }
            }
        } else if x != y {
            if x == SLOT {
                return Rank::Before;
            } else if y == SLOT {
                return Rank::After;
            } else if x < y {
                return Rank::Before;
            } else {
                return Rank::After;
            }
        } else {
            proof {
                assert(a@.take(i + 1) =~= a@.take(i as int).push(x));
                assert(b@.take(i + 1) =~= b@.take(i as int).push(y));
            }
            i = i + 1;
        }
    }
    if i < b.len() {
        Rank::Before
    } else if i < a.len() {
        Rank::After
    } else {
        proof {
            assert(a@.take(i as int) =~= a@);
            assert(b@.take(i as int) =~= b@);
        }
        Rank::Same
    }
}

} // verus!

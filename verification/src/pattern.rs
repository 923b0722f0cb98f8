//! Name patterns: a node name with its last number replaced by a slot; and
//! the order of texts by their characters.

use crate::numeral::is_digit;
use vstd::prelude::*;

verus! {

/// The character that stands for the number in a pattern. It cannot occur
/// in a name, so a pattern is never mistaken for one.
pub const SLOT: char = '[';

/// Blank characters between node names.
pub open spec fn is_space(c: char) -> bool {
    c == ' ' || c == '\t' || c == '\n' || c == '\r'
}

/// What ends a node name: a blank or a comma.
pub open spec fn is_separator(c: char) -> bool {
    is_space(c) || c == ','
}

/// A character of the text of a name: anything but a digit, a bracket or a
/// separator.
pub open spec fn is_plain(c: char) -> bool {
    !is_digit(c) && !is_separator(c) && c != '[' && c != ']'
}

/// Whether the pattern has a slot.
pub open spec fn has_slot(t: Seq<char>) -> bool {
    exists|i: int| 0 <= i < t.len() && #[trigger] t[i] == SLOT
}

/// Whether the pattern holds a digit.
pub open spec fn has_digit(t: Seq<char>) -> bool {
    exists|i: int| 0 <= i < t.len() && is_digit(#[trigger] t[i])
}

/// A pattern in the one form that each name has: plain text and digits with
/// at most one slot, which stands for the last number of the name. So no digit
/// follows the slot or stands just before it, and a pattern with a digit has
/// a slot.
pub open spec fn pattern_wf(t: Seq<char>) -> bool {
    &&& t.len() > 0
    &&& forall|i: int| 0 <= i < t.len() ==> !is_separator(#[trigger] t[i]) && t[i] != ']'
    &&& forall|i: int, j: int|
        #![trigger t[i], t[j]]
        0 <= i < j < t.len() && t[i] == SLOT ==> is_plain(t[j])
    &&& forall|i: int| 0 < i < t.len() && #[trigger] t[i] == SLOT ==> !is_digit(t[i - 1])
    &&& has_digit(t) ==> has_slot(t)
}

/// Whether `a` comes before `b` from position `k` on, given that the two
/// agree before `k`: at the first position where they differ `a` has the
/// smaller character, or `a` ends there and `b` goes on.
pub open spec fn precedes_from(a: Seq<char>, b: Seq<char>, k: int) -> bool
    decreases a.len() - k,
{
    if k >= b.len() {
        false
    } else if k >= a.len() {
        true
    } else if a[k] != b[k] {
        a[k] < b[k]
    } else {
        precedes_from(a, b, k + 1)
    }
}

/// The order of texts by their characters, as strings are ordered.
pub open spec fn precedes(a: Seq<char>, b: Seq<char>) -> bool {
    precedes_from(a, b, 0)
}

pub proof fn lemma_precedes_irreflexive(a: Seq<char>, k: int)
    requires
        0 <= k,
    ensures
        !precedes_from(a, a, k),
    decreases a.len() - k,
{
    if k < a.len() {
        lemma_precedes_irreflexive(a, k + 1);
    }
}

pub proof fn lemma_precedes_transitive(a: Seq<char>, b: Seq<char>, c: Seq<char>, k: int)
    requires
        0 <= k,
        precedes_from(a, b, k),
        precedes_from(b, c, k),
    ensures
        precedes_from(a, c, k),
    decreases a.len() - k,
{
    if k < a.len() && k < b.len() && k < c.len() && a[k] == b[k] && b[k] == c[k] {
        lemma_precedes_transitive(a, b, c, k + 1);
    }
}

pub proof fn lemma_precedes_total(a: Seq<char>, b: Seq<char>, k: int)
    requires
        0 <= k <= a.len(),
        k <= b.len(),
        forall|i: int| 0 <= i < k ==> a[i] == b[i],
        a != b,
    ensures
        precedes_from(a, b, k) || precedes_from(b, a, k),
    decreases a.len() - k,
{
    if k < a.len() && k < b.len() {
        if a[k] == b[k] {
            lemma_precedes_total(a, b, k + 1);
        }
    } else if k == a.len() && k == b.len() {
        assert(a =~= b);
    }
}

/// No pattern comes before itself, and of two patterns at most one comes
/// before the other.
pub proof fn lemma_precedes_asymmetric(a: Seq<char>, b: Seq<char>)
    ensures
        !(precedes(a, b) && precedes(b, a)),
        !precedes(a, a),
{
    lemma_precedes_irreflexive(a, 0);
    if precedes(a, b) && precedes(b, a) {
        lemma_precedes_transitive(a, b, a, 0);
    }
}

/// Where one pattern stands relative to another.
#[derive(Clone, Copy, Debug, PartialEq, Eq, Structural)]
pub enum Rank {
    Before,
    Same,
    After,
}

/// Whether `c` separates node names.
pub fn is_separator_char(c: char) -> (b: bool)
    ensures
        b == is_separator(c),
{
    c == ' ' || c == '\t' || c == '\n' || c == '\r' || c == ','
}

/// A copy of a sequence of characters.
pub fn copy_chars(text: &Vec<char>) -> (out: Vec<char>)
    ensures
        out@ == text@,
{
    let mut out: Vec<char> = Vec::new();
    let mut k: usize = 0;
    while k < text.len()
        invariant
            k <= text.len(),
            out@ == text@.take(k as int),
        decreases text.len() - k,
    {
        out.push(text[k]);
        proof {
            assert(text@.take(k + 1) =~= text@.take(k as int).push(text@[k as int]));
        }
        k = k + 1;
    }
    proof {
        assert(text@.take(k as int) =~= text@);
    }
    out
}

/// Appends `more` to `out`.
pub fn push_chars(out: &mut Vec<char>, more: &Vec<char>)
    ensures
        final(out)@ == old(out)@ + more@,
{
    let ghost before = out@;
    let mut k: usize = 0;
    while k < more.len()
        invariant
            k <= more.len(),
            out@ == before + more@.take(k as int),
        decreases more.len() - k,
    {
        out.push(more[k]);
        proof {
            assert(before + more@.take(k + 1) =~= (before + more@.take(k as int)).push(
                more@[k as int],
            ));
        }
        k = k + 1;
    }
    proof {
        assert(more@.take(k as int) =~= more@);
    }
}

} // verus!

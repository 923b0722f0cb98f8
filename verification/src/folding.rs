//! Writing a set of node names in the folded notation, and writing out its
//! names one by one.

use crate::compaction::{fold_numbers, folded_text};
use crate::content::{gathered, gathers, group_wf, written_groups, Group};
use crate::grammar::parse_spec;
use crate::grammar::{expand, spread};
use crate::idset::{group_of, Entry, IdSet};
use crate::text::string_of;
use crate::normal_form::{lemma_normal_form_of, normal_form};
use crate::numeral::{padded, push_padded};
use crate::parser::{expand_heads, texts};
use crate::pattern::{has_slot, pattern_wf, SLOT};
use crate::range::IdRange;
use crate::runs::Run;
use vstd::prelude::*;

verus! {

/// A run as it is written: its only identifier, or its first and last with
/// `-` between them.
pub open spec fn render_run(r: Run, width: nat) -> Seq<char> {
    if r.start == r.end {
        padded(r.start as nat, width)
    } else {
        padded(r.start as nat, width) + seq!['-'] + padded(r.end as nat, width)
    }
}

/// Runs as they are written, with commas between them.
pub open spec fn render_runs(runs: Seq<Run>, width: nat) -> Seq<char>
    decreases runs.len(),
{
    if runs.len() == 0 {
        Seq::empty()
    } else if runs.len() == 1 {
        render_run(runs[0], width)
    } else {
        render_runs(runs.drop_last(), width) + seq![','] + render_run(runs.last(), width)
    }
}

/// What stands in the slot: a single identifier as it is, anything else in
/// brackets.
pub open spec fn render_ids(runs: Seq<Run>, width: nat) -> Seq<char> {
    if runs.len() == 1 && runs[0].start == runs[0].end {
        padded(runs[0].start as nat, width)
    } else {
        seq!['['] + render_runs(runs, width) + seq![']']
    }
}

/// The pattern with `shown` in each slot.
pub open spec fn fill(pattern: Seq<char>, shown: Seq<char>) -> Seq<char>
    decreases pattern.len(),
{
    if pattern.len() == 0 {
        Seq::empty()
    } else if pattern.last() == SLOT {
        fill(pattern.drop_last(), shown) + shown
    } else {
        fill(pattern.drop_last(), shown).push(pattern.last())
    }
}

/// A group as it is written: its pattern, with the minimal runs of its
/// identifiers in the slot.
pub open spec fn render_group(g: Group) -> Seq<char> {
    fill(g.pattern, render_ids(normal_form(g.ids), g.width))
}

/// The canonical text of a set of node names: its groups in ascending order
/// of their patterns, with commas between them.
pub open spec fn render(c: Seq<Group>) -> Seq<char>
    decreases c.len(),
{
    if c.len() == 0 {
        Seq::empty()
    } else if c.len() == 1 {
        render_group(c[0])
    } else {
        render(c.drop_last()) + seq![','] + render_group(c.last())
    }
}

/// Whether the text is in the folded notation and says what `c` holds: the
/// content that gathers what it says has the same canonical text as `c`.
pub open spec fn reads_as(t: Seq<char>, c: Seq<Group>) -> bool {
    match parse_spec(t) {
        Ok(found) => gathers(written_groups(found), gathered(written_groups(found))) && render(
            gathered(written_groups(found)),
        ) == render(c),
        Err(_) => false,
    }
}

/// Where the slot of a pattern stands.
pub open spec fn slot_at(pattern: Seq<char>) -> int {
    choose|i: int| 0 <= i < pattern.len() && #[trigger] pattern[i] == SLOT
}

/// The names of a group, in ascending order of their identifiers.
pub open spec fn group_names(g: Group) -> Seq<Seq<char>> {
    if has_slot(g.pattern) {
        spread(
            g.pattern.take(slot_at(g.pattern)),
            normal_form(g.ids),
            g.width,
            g.pattern.skip(slot_at(g.pattern) + 1),
        )
    } else {
        seq![g.pattern]
    }
}

/// The names of all groups, group by group.
pub open spec fn names_of(c: Seq<Group>) -> Seq<Seq<char>>
    decreases c.len(),
{
    if c.len() == 0 {
        Seq::empty()
    } else {
        names_of(c.drop_last()) + group_names(c.last())
    }
}

fn push_run(out: &mut Vec<char>, r: Run, width: usize)
    ensures
        final(out)@ == old(out)@ + render_run(r, width as nat),
{
    let ghost before = out@;
    push_padded(out, r.start, width);
    if r.start != r.end {
        out.push('-');
        push_padded(out, r.end, width);
        proof {
            assert(out@ =~= before + render_run(r, width as nat));
        }
    }
}

fn push_runs(out: &mut Vec<char>, runs: &Vec<Run>, width: usize)
    ensures
        final(out)@ == old(out)@ + render_runs(runs@, width as nat),
{
    let ghost before = out@;
    let mut k: usize = 0;
    proof {
        assert(before + render_runs(runs@.take(0), width as nat) =~= before);
    }
    while k < runs.len()
        invariant
            k <= runs@.len(),
            out@ == before + render_runs(runs@.take(k as int), width as nat),
        decreases runs@.len() - k,
    {
        if k > 0 {
            out.push(',');
        }
        push_run(out, runs[k], width);
        proof {
            let next = runs@.take(k + 1);
            assert(next.drop_last() =~= runs@.take(k as int));
            assert(next.last() == runs@[k as int]);
            if k == 0 {
                assert(next[0] == runs@[0]);
                assert(render_runs(runs@.take(0), width as nat) =~= Seq::<char>::empty());
            }
            assert(out@ =~= before + render_runs(next, width as nat));
        }
        k = k + 1;
    }
    proof {
        assert(runs@.take(k as int) =~= runs@);
    }
}

pub fn push_ids(out: &mut Vec<char>, runs: &Vec<Run>, width: usize)
    ensures
        final(out)@ == old(out)@ + render_ids(runs@, width as nat),
{
    let ghost before = out@;
    if runs.len() == 1 && runs[0].start == runs[0].end {
        push_padded(out, runs[0].start, width);
    } else {
        out.push('[');
        push_runs(out, runs, width);
        out.push(']');
        proof {
            assert(out@ =~= before + render_ids(runs@, width as nat));
        }
    }
}

/// In a well-formed pattern the slot stands at one place only.
pub proof fn lemma_slot_at(pattern: Seq<char>, i: int)
    requires
        pattern_wf(pattern),
        0 <= i < pattern.len(),
        pattern[i] == SLOT,
    ensures
        slot_at(pattern) == i,
        has_slot(pattern),
{
    let j = slot_at(pattern);
    if j < i {
        assert(pattern[j] == SLOT ==> crate::pattern::is_plain(pattern[i]));
    } else if i < j {
        assert(pattern[i] == SLOT ==> crate::pattern::is_plain(pattern[j]));
    }
}

/// The names of one entry, in ascending order of their identifiers.
pub fn entry_names<R: IdRange>(entry: &Entry<R>) -> (out: Vec<Vec<char>>)
    requires
        entry.ids.wf(),
        pattern_wf(entry.pattern@),
    ensures
        texts(out@) == group_names(group_of(*entry)),
{
    let mut at: usize = 0;
    while at < entry.pattern.len() && entry.pattern[at] != SLOT
        invariant
            at <= entry.pattern@.len(),
            forall|i: int| 0 <= i < at ==> entry.pattern@[i] != SLOT,
        decreases entry.pattern@.len() - at,
    {
        at = at + 1;
    }
    if at == entry.pattern.len() {
        let mut out: Vec<Vec<char>> = Vec::new();
        out.push(crate::pattern::copy_chars(&entry.pattern));
        proof {
            assert(!has_slot(entry.pattern@));
            assert(texts(out@) =~= seq![entry.pattern@]);
        }
        out
    } else {
        let mut head: Vec<char> = Vec::new();
        let mut k: usize = 0;
        while k < at
            invariant
                k <= at < entry.pattern@.len(),
                head@ == entry.pattern@.take(k as int),
            decreases at - k,
        {
            head.push(entry.pattern[k]);
            proof {
                assert(entry.pattern@.take(k + 1) =~= entry.pattern@.take(k as int).push(
                    entry.pattern@[k as int],
                ));
            }
            k = k + 1;
        }
        let mut tail: Vec<char> = Vec::new();
        let mut t: usize = at + 1;
        proof {
            assert(entry.pattern@.subrange(at + 1, at + 1) =~= tail@);
        }
        while t < entry.pattern.len()
            invariant
                at < t <= entry.pattern@.len(),
                tail@ == entry.pattern@.subrange(at + 1, t as int),
            decreases entry.pattern@.len() - t,
        {
            tail.push(entry.pattern[t]);
            proof {
                assert(entry.pattern@.subrange(at + 1, t + 1) =~= entry.pattern@.subrange(
                    at + 1,
                    t as int,
                ).push(entry.pattern@[t as int]));
            }
            t = t + 1;
        }
        let runs = entry.ids.runs();
        let width = entry.ids.pad();
        let mut heads: Vec<Vec<char>> = Vec::new();
        heads.push(head);
        let out = expand_heads(&heads, &runs, width, &tail);
        proof {
            lemma_normal_form_of(runs@);
            lemma_slot_at(entry.pattern@, at as int);
            assert(tail@ =~= entry.pattern@.skip(at + 1));
            let hs = texts(heads@);
            assert(hs =~= seq![head@]);
            assert(hs.drop_last() =~= Seq::<Seq<char>>::empty());
            assert(expand(hs.drop_last(), runs@, width as nat, tail@) =~= Seq::<Seq<char>>::empty());
            assert(expand(hs, runs@, width as nat, tail@) =~= spread(
                head@,
                runs@,
                width as nat,
                tail@,
            ));
        }
        out
    }
}

/// What a vector of strings stands for.
pub open spec fn strings_view(v: Seq<String>) -> Seq<Seq<char>> {
    Seq::new(v.len(), |k: int| v[k]@)
}

impl<R: IdRange> IdSet<R> {
    /// The set in the folded notation: its patterns in ascending order
    /// (`comes_before`: a prefix before the longer ones that begin with it,
    /// numbers by their value), each with the minimal runs of its identifiers in the slot, zero-padded
    /// to the width kept for the pattern; patterns that follow one another
    /// and differ in one number only are written once, with the runs of that
    /// number in brackets.
    pub fn fold(&self) -> (s: String)
        requires
            self.wf(),
        ensures
            s@ == folded_text(self.content()),
    {
        let entries = self.entries();
        proof {
            assert forall|k: int| 0 <= k < entries@.len() implies (#[trigger] entries@[k]).ids.wf()
                && pattern_wf(entries@[k].pattern@) by {
                assert(group_wf(self.content()[k]));
            }
        }
        let folded = fold_numbers(entries);
        string_of(&folded)
    }

    /// Every name of the set: pattern by pattern in ascending order, and
    /// under each pattern in ascending order of the identifiers.
    pub fn names(&self) -> (out: Vec<String>)
        requires
            self.wf(),
        ensures
            strings_view(out@) == names_of(self.content()),
    {
        let entries = self.entries();
        let mut out: Vec<String> = Vec::new();
        let mut k: usize = 0;
        let ghost c = self.content();
        proof {
            assert(strings_view(out@) =~= names_of(c.take(0)));
        }
        while k < entries.len()
            invariant
                k <= entries@.len(),
                self.wf(),
                entries@ == self.stored(),
                c == self.content(),
                strings_view(out@) == names_of(c.take(k as int)),
            decreases entries@.len() - k,
        {
            proof {
                assert(entries@[k as int].ids.wf());
                assert(c[k as int] == group_of(entries@[k as int]));
                assert(group_wf(c[k as int]));
            }
            let found = entry_names(&entries[k]);
            let ghost base = strings_view(out@);
            let mut t: usize = 0;
            while t < found.len()
                invariant
                    t <= found@.len(),
                    strings_view(out@) == base + texts(found@).take(t as int),
                decreases found@.len() - t,
            {
                let name = string_of(&found[t]);
                proof {
                    assert(strings_view(out@.push(name)) =~= strings_view(out@).push(name@));
                    assert(texts(found@).take(t + 1) =~= texts(found@).take(t as int).push(
                        found@[t as int]@,
                    ));
                    assert(base + texts(found@).take(t + 1) =~= (base + texts(found@).take(
                        t as int,
                    )).push(name@));
                }
                out.push(name);
                t = t + 1;
            }
            proof {
                assert(texts(found@).take(t as int) =~= texts(found@));
                let next = c.take(k + 1);
                assert(next.drop_last() =~= c.take(k as int));
                assert(next.last() == c[k as int]);
            }
            k = k + 1;
        }
        proof {
            assert(c.take(k as int) =~= c);
        }
        out
    }
}

} // verus!

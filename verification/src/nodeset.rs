//! Sets of node names: read from the folded notation, combined, counted and
//! written back.
//!
//! A set is kept as patterns with one slot each, the last number of the
//! name, and for each pattern the set of identifiers that fill the slot. A
//! name with several numbers, such as `rack[1-2]node[1-3]`, stands for one
//! pattern for each combination of the numbers before the last
//! (`rack1node[1-3]` and `rack2node[1-3]`); the identifiers of the last
//! number are never written out one by one. The algebra is exact on sets of
//! names, whatever their numbers. `fold` writes patterns that differ in one
//! number only as one again, number by number, so that
//! `rack[1-2]node[1-3]` folds as it reads. Patterns are kept in ascending
//! order: by their characters, their numbers by value, and a pattern that
//! ends where another has its last number before those that go on there
//! (`node[1]` before `node-a[1]`). So a walk over the names visits each
//! number in ascending order.

use crate::content::{combines, gathers, members, total, written_groups, Group, Node};
use crate::compaction::folded_text;
use crate::folding::{names_of, strings_view};
use crate::grammar::{parse_spec, ParseError};
use crate::grammar_wf::written_wf;
use crate::idset::IdSet;
use crate::parser::{parse_pieces, pieces_view, Piece};
use crate::text::chars_of;
use crate::range_list::RangeList;
use crate::runs::{set_op, SetOp};
use vstd::prelude::*;

verus! {

/// A set of node names. The view is the set of nodes: each a pattern and the
/// identifier in its slot.
pub struct NodeSet {
    set: IdSet<RangeList>,
}

impl View for NodeSet {
    type V = Set<Node>;

    open spec fn view(&self) -> Set<Node> {
        members(self.content())
    }
}

impl NodeSet {
    /// The set as it is held.
    pub closed spec fn inner(&self) -> IdSet<RangeList> {
        self.set
    }

    /// The patterns with their identifiers and widths, ascending.
    pub open spec fn content(&self) -> Seq<Group> {
        self.inner().content()
    }

    /// The invariant: that of the set held.
    pub open spec fn wf(&self) -> bool {
        self.inner().wf()
    }

    /// The set without nodes.
    pub fn new() -> (r: NodeSet)
        ensures
            r.wf(),
            r@ == Set::<Node>::empty(),
            r.content() == Seq::<Group>::empty(),
    {
        NodeSet { set: IdSet::new() }
    }

    /// The set held, for use with the generic operations.
    pub fn as_idset(&self) -> (s: &IdSet<RangeList>)
        ensures
            *s == self.inner(),
    {
        &self.set
    }

    /// The node set of a set of names over the list representation.
    pub fn from_idset(set: IdSet<RangeList>) -> (r: NodeSet)
        ensures
            r.inner() == set,
    {
        NodeSet { set }
    }

    /// The set of the nodes that the pieces of a text name.
    pub fn from_pieces(pieces: &Vec<Piece>) -> (r: NodeSet)
        requires
            forall|k: int|
                0 <= k < pieces@.len() ==> written_wf(#[trigger] pieces_view(pieces@)[k]),
        ensures
            r.wf(),
            gathers(written_groups(pieces_view(pieces@)), r.content()),
    {
        NodeSet { set: IdSet::from_pieces(pieces) }
    }

    /// Reads a text in the folded notation: the union of the node names that
    /// it lists. For each pattern the width is the widest that the text asks
    /// for.
    pub fn parse(text: &str) -> (r: Result<NodeSet, ParseError>)
        ensures
            match parse_spec(text@) {
                Ok(found) => r matches Ok(ns) && ns.wf() && gathers(
                    written_groups(found),
                    ns.content(),
                ),
                Err(e) => r matches Err(x) && x == e,
            },
    {
        let chars = chars_of(text);
        match parse_pieces(&chars) {
            Err(e) => Err(e),
            Ok(pieces) => Ok(NodeSet::from_pieces(&pieces)),
        }
    }

    /// The set in the folded notation, its patterns in ascending order:
    /// prefix by prefix as texts are ordered, but numbers by their value
    /// (`rack9` before `rack10`), and the names of a prefix before those of
    /// a longer one that begins with it (`node[1]` before `node-a[1]`).
    pub fn fold(&self) -> (s: String)
        requires
            self.wf(),
        ensures
            s@ == folded_text(self.content()),
    {
        self.set.fold()
    }

    /// Every name of the set, in ascending order.
    pub fn iter(&self) -> (out: Vec<String>)
        requires
            self.wf(),
        ensures
            strings_view(out@) == names_of(self.content()),
            out@.len() == names_of(self.content()).len(),
    {
        self.set.names()
    }

    /// The number of nodes, without writing them out.
    pub fn len(&self) -> (n: u128)
        requires
            self.wf(),
        ensures
            n == total(self.content()),
            n == self@.len(),
    {
        self.set.len()
    }

    /// Whether the set has no node.
    pub fn is_empty(&self) -> (empty: bool)
        requires
            self.wf(),
        ensures
            empty <==> self@ == Set::<Node>::empty(),
    {
        self.set.is_empty()
    }

    /// The result of `op` on the two sets.
    pub fn combine(&self, other: &NodeSet, op: SetOp) -> (r: NodeSet)
        requires
            self.wf(),
            other.wf(),
        ensures
            r.wf(),
            r@ == set_op(op, self@, other@),
            combines(op, self.content(), other.content(), r.content()),
    {
        NodeSet { set: self.set.combine(&other.set, op) }
    }

    /// The nodes in either set.
    pub fn union(&self, other: &NodeSet) -> (r: NodeSet)
        requires
            self.wf(),
            other.wf(),
        ensures
            r.wf(),
            r@ == self@.union(other@),
            combines(SetOp::Union, self.content(), other.content(), r.content()),
    {
        self.combine(other, SetOp::Union)
    }

    /// The nodes in both sets.
    pub fn intersection(&self, other: &NodeSet) -> (r: NodeSet)
        requires
            self.wf(),
            other.wf(),
        ensures
            r.wf(),
            r@ == self@.intersect(other@),
            combines(SetOp::Intersection, self.content(), other.content(), r.content()),
    {
        self.combine(other, SetOp::Intersection)
    }

    /// The nodes in `self` and not in `other`.
    pub fn difference(&self, other: &NodeSet) -> (r: NodeSet)
        requires
            self.wf(),
            other.wf(),
        ensures
            r.wf(),
            r@ == self@.difference(other@),
            combines(SetOp::Difference, self.content(), other.content(), r.content()),
    {
        self.combine(other, SetOp::Difference)
    }

    /// The nodes in exactly one of the two sets.
    pub fn symmetric_difference(&self, other: &NodeSet) -> (r: NodeSet)
        requires
            self.wf(),
            other.wf(),
        ensures
            r.wf(),
            r@ == self@.difference(other@).union(other@.difference(self@)),
            combines(SetOp::SymmetricDifference, self.content(), other.content(), r.content()),
    {
        self.combine(other, SetOp::SymmetricDifference)
    }
}

} // verus!

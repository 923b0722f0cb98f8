//! Texts in which references to groups stand among node names: how they are
//! read, and what the sources' answers make of them.

use crate::content::{
    combined, gathered, gathers, lemma_combines_unique, lemma_gathers_unique, members,
    written_groups, Group, Node,
};
use crate::grammar::{
    finish, lemma_name_end, parse_name, parse_spec, parse_text, reading_start, ParseError, Written,
};
use crate::grammar_wf::written_wf;
use crate::nodeset::NodeSet;
use crate::parser::{lemma_pieces_concat, pieces_view, read_name, Piece};
use crate::pattern::{is_separator, is_separator_char};
use crate::resolver::{
    colon_at, key_of, resolved, split_reference, GroupRef, GroupSource, ResolveError, Resolver,
    SourceReply,
};
use crate::runs::SetOp;
use crate::text::chars_of;
use vstd::prelude::*;

verus! {

/// A reference to a group as a text gives it.
pub struct Reference {
    pub source: Option<Seq<char>>,
    pub group: Seq<char>,
}

/// What a reference that was read stands for.
pub open spec fn reference_view(r: GroupRef) -> Reference {
    Reference {
        source: match r.source {
            Some(name) => Some(name@),
            None => None,
        },
        group: r.group@,
    }
}

/// What references that were read stand for.
pub open spec fn references_view(rs: Seq<GroupRef>) -> Seq<Reference> {
    Seq::new(rs.len(), |k: int| reference_view(rs[k]))
}

/// The reference that the text `@group` or `@source:group` makes.
pub open spec fn reference_of(t: Seq<char>) -> Reference {
    let at = colon_at(t, 1);
    if at >= t.len() {
        Reference { source: None, group: t.skip(1) }
    } else {
        Reference { source: Some(t.subrange(1, at)), group: t.skip(at + 1) }
    }
}

/// Where the word that stands at `i` ends: at the next separator, or at the
/// end of the text.
pub open spec fn word_end(s: Seq<char>, i: int) -> int
    decreases s.len() - i,
{
    if i < 0 || i >= s.len() || is_separator(s[i]) {
        i
    } else {
        word_end(s, i + 1)
    }
}

pub proof fn lemma_word_end(s: Seq<char>, i: int)
    requires
        0 <= i <= s.len(),
    ensures
        i <= word_end(s, i) <= s.len(),
        i < s.len() && !is_separator(s[i]) ==> i < word_end(s, i),
    decreases s.len() - i,
{
    if i < s.len() && !is_separator(s[i]) {
        lemma_word_end(s, i + 1);
    }
}

/// What a text with references says: the patterns of its names, and its
/// references, each in the order written.
pub struct Mixed {
    pub names: Seq<Written>,
    pub references: Seq<Reference>,
}

/// The text from `i` on, after the names and references given: a word that
/// begins with `@` is a reference up to the next separator, anything else a
/// name in the folded notation.
pub open spec fn mixed_from(
    s: Seq<char>,
    i: int,
    names: Seq<Written>,
    references: Seq<Reference>,
) -> Result<Mixed, ParseError>
    decreases s.len() - i,
{
    if i < 0 || i >= s.len() {
        Ok(Mixed { names, references })
    } else if is_separator(s[i]) {
        mixed_from(s, i + 1, names, references)
    } else if s[i] == '@' {
        proof {
            lemma_word_end(s, i);
        }
        mixed_from(
            s,
            word_end(s, i),
            names,
            references.push(reference_of(s.subrange(i, word_end(s, i)))),
        )
    } else {
        match parse_name(s, i, reading_start()) {
            Err(e) => Err(e),
            Ok((st, next)) => match finish(st) {
                Err(e) => Err(e),
                Ok(found) => {
                    proof {
                        lemma_name_end(s, i, reading_start());
                    }
                    mixed_from(s, next, names + found, references)
                },
            },
        }
    }
}

/// What a text with references says, or why one of its names is not in the
/// folded notation.
pub open spec fn mixed_spec(s: Seq<char>) -> Result<Mixed, ParseError> {
    mixed_from(s, 0, Seq::empty(), Seq::empty())
}

/// Whether no `@` stands in the text, so that it names no group.
pub open spec fn names_no_group(s: Seq<char>) -> bool {
    forall|k: int| 0 <= k < s.len() ==> s[k] != '@'
}

/// A text without `@` says what it says as a text of names, and refers to
/// no group.
pub proof fn lemma_plain_mixed(s: Seq<char>, i: int, names: Seq<Written>)
    requires
        names_no_group(s),
        0 <= i <= s.len(),
    ensures
        mixed_from(s, i, names, Seq::empty()) == match parse_text(s, i, names) {
            Ok(found) => Ok::<Mixed, ParseError>(Mixed { names: found, references: Seq::empty() }),
            Err(e) => Err::<Mixed, ParseError>(e),
        },
    decreases s.len() - i,
{
    if i < s.len() {
        if is_separator(s[i]) {
            lemma_plain_mixed(s, i + 1, names);
        } else {
            assert(s[i] != '@');
            match parse_name(s, i, reading_start()) {
                Err(e) => {},
                Ok((st, next)) => match finish(st) {
                    Err(e) => {},
                    Ok(found) => {
                        lemma_name_end(s, i, reading_start());
                        lemma_plain_mixed(s, next, names + found);
                    },
                },
            }
        }
    }
}

/// Reads a text with references: the patterns of its names and its
/// references, each in the order written, or why a name is not in the
/// folded notation.
pub fn read_mixed(text: &Vec<char>) -> (r: Result<(Vec<Piece>, Vec<GroupRef>), ParseError>)
    ensures
        match mixed_spec(text@) {
            Ok(mixed) => r matches Ok((pieces, references)) && pieces_view(pieces@) == mixed.names
                && references_view(references@) == mixed.references && forall|k: int|
                0 <= k < mixed.names.len() ==> written_wf(#[trigger] mixed.names[k]),
            Err(e) => r matches Err(x) && x == e,
        },
{
    let mut pieces: Vec<Piece> = Vec::new();
    let mut references: Vec<GroupRef> = Vec::new();
    let mut i: usize = 0;
    proof {
        assert(pieces_view(pieces@) =~= Seq::<Written>::empty());
        assert(references_view(references@) =~= Seq::<Reference>::empty());
    }
    while i < text.len()
        invariant
            i <= text@.len(),
            mixed_spec(text@) == mixed_from(
                text@,
                i as int,
                pieces_view(pieces@),
                references_view(references@),
            ),
            forall|k: int|
                0 <= k < pieces@.len() ==> written_wf(#[trigger] pieces_view(pieces@)[k]),
        decreases text@.len() - i,
    {
        if is_separator_char(text[i]) {
            i = i + 1;
        } else if text[i] == '@' {
            let mut e: usize = i;
            let mut word: Vec<char> = Vec::new();
            proof {
                assert(text@.subrange(i as int, i as int) =~= word@);
            }
            while e < text.len() && !is_separator_char(text[e])
                invariant
                    i <= e <= text@.len(),
                    word@ == text@.subrange(i as int, e as int),
                    word_end(text@, i as int) == word_end(text@, e as int),
                decreases text@.len() - e,
            {
                word.push(text[e]);
                proof {
                    assert(text@.subrange(i as int, e + 1) =~= text@.subrange(
                        i as int,
                        e as int,
                    ).push(text@[e as int]));
                }
                e = e + 1;
            }
            proof {
                assert(word@[0] == '@');
            }
            let reference = split_reference(&word);
            proof {
                assert(reference_view(reference) == reference_of(word@)) by {
                    let at = colon_at(word@, 1);
                    if at < word@.len() {
                        assert(reference_view(reference).source == Some(word@.subrange(1, at)));
                    }
                }
                assert(references_view(references@.push(reference)) =~= references_view(
                    references@,
                ).push(reference_view(reference)));
            }
            references.push(reference);
            i = e;
        } else {
            proof {
                lemma_name_end(text@, i as int, reading_start());
            }
            match read_name(text, i) {
                Err(e) => {
                    return Err(e);
                },
                Ok((mut found, next)) => {
                    proof {
                        lemma_pieces_concat(pieces@, found@);
                        let all = pieces_view(pieces@) + pieces_view(found@);
                        assert forall|k: int| 0 <= k < all.len() implies written_wf(
                            #[trigger] all[k],
                        ) by {
                            if k < pieces@.len() {
                                assert(all[k] == pieces_view(pieces@)[k]);
                            } else {
                                assert(all[k] == pieces_view(found@)[k - pieces@.len()]);
                            }
                        }
                    }
                    pieces.append(&mut found);
                    i = next;
                },
            }
        }
    }
    Ok((pieces, references))
}

/// Why a text could not be expanded, with the name that it is about.
pub enum Failure {
    SourceNotFound(Seq<char>),
    GroupNotFound(Seq<char>),
    SourceError(Seq<char>, Seq<char>),
    Definition(ParseError),
    ResolverUninitialized,
}

/// What an error stands for.
pub open spec fn failure_of(e: ResolveError) -> Failure {
    match e {
        ResolveError::SourceNotFound(name) => Failure::SourceNotFound(name@),
        ResolveError::GroupNotFound(name) => Failure::GroupNotFound(name@),
        ResolveError::SourceError(name, why) => Failure::SourceError(name@, why@),
        ResolveError::Definition(e) => Failure::Definition(e),
        ResolveError::ResolverUninitialized => Failure::ResolverUninitialized,
    }
}

/// The name of the source that a reference asks: the one it names, else the
/// default.
pub open spec fn asked_source(reference: Reference, default_source: Seq<char>) -> Seq<char> {
    match reference.source {
        Some(name) => name,
        None => default_source,
    }
}

/// What a source's answer gives for a group: the content that gathers its
/// definition, or why there is none.
pub open spec fn answer_content(key: Seq<char>, group: Seq<char>, reply: SourceReply) -> Result<
    Seq<Group>,
    Failure,
> {
    match reply {
        SourceReply::Found(text) => match parse_spec(text@) {
            Ok(found) => Ok(gathered(written_groups(found))),
            Err(e) => Err(Failure::Definition(e)),
        },
        SourceReply::NotFound => Err(Failure::GroupNotFound(group)),
        SourceReply::Failed(why) => Err(Failure::SourceError(key, why@)),
    }
}

/// What the first `n` references give, in their order, for what the sources
/// answered for each: the content of each, or the failure of the first that
/// has none. A reference to a source that is not registered fails with
/// `SourceNotFound`, whatever was answered.
pub open spec fn referred(
    sources: Seq<Seq<char>>,
    default_source: Seq<char>,
    references: Seq<Reference>,
    replies: Seq<SourceReply>,
    n: nat,
) -> Result<Seq<Seq<Group>>, Failure>
    decreases n,
{
    if n == 0 {
        Ok(Seq::empty())
    } else {
        match referred(sources, default_source, references, replies, (n - 1) as nat) {
            Err(f) => Err(f),
            Ok(front) => {
                let key = asked_source(references[n - 1], default_source);
                if !sources.contains(key) {
                    Err(Failure::SourceNotFound(key))
                } else {
                    match answer_content(key, references[n - 1].group, replies[n - 1]) {
                        Ok(content) => Ok(front.push(content)),
                        Err(f) => Err(f),
                    }
                }
            },
        }
    }
}

/// What the first references give depends on the first answers only.
pub proof fn lemma_referred_agree(
    sources: Seq<Seq<char>>,
    default_source: Seq<char>,
    references: Seq<Reference>,
    a: Seq<SourceReply>,
    b: Seq<SourceReply>,
    n: nat,
)
    requires
        n <= a.len(),
        n <= b.len(),
        forall|k: int| 0 <= k < n ==> a[k] == b[k],
    ensures
        referred(sources, default_source, references, a, n) == referred(
            sources,
            default_source,
            references,
            b,
            n,
        ),
    decreases n,
{
    if n > 0 {
        lemma_referred_agree(sources, default_source, references, a, b, (n - 1) as nat);
        assert(a[n - 1] == b[n - 1]);
    }
}

/// A failure among the first references is the failure of all.
pub proof fn lemma_referred_fails(
    sources: Seq<Seq<char>>,
    default_source: Seq<char>,
    references: Seq<Reference>,
    replies: Seq<SourceReply>,
    n: nat,
    m: nat,
)
    requires
        n <= m,
        referred(sources, default_source, references, replies, n) is Err,
    ensures
        referred(sources, default_source, references, replies, m) == referred(
            sources,
            default_source,
            references,
            replies,
            n,
        ),
    decreases m,
{
    if m > n {
        lemma_referred_fails(sources, default_source, references, replies, n, (m - 1) as nat);
    }
}

/// The first `n` contents united, one after the other.
pub open spec fn united(contents: Seq<Seq<Group>>, n: nat) -> Seq<Group>
    decreases n,
{
    if n == 0 {
        Seq::empty()
    } else {
        combined(SetOp::Union, united(contents, (n - 1) as nat), contents[n - 1])
    }
}

/// The nodes of the first `n` contents.
pub open spec fn united_nodes(contents: Seq<Seq<Group>>, n: nat) -> Set<Node>
    decreases n,
{
    if n == 0 {
        Set::empty()
    } else {
        united_nodes(contents, (n - 1) as nat).union(members(contents[n - 1]))
    }
}

/// The content of a text with references: what gathers its names, united
/// with what its references give where it has any.
pub open spec fn expanded_content(names: Seq<Written>, contents: Seq<Seq<Group>>) -> Seq<Group> {
    if contents.len() == 0 {
        gathered(written_groups(names))
    } else {
        combined(
            SetOp::Union,
            gathered(written_groups(names)),
            united(contents, contents.len()),
        )
    }
}

/// Whether `r` is what a text that says `mixed` expands to for the given
/// answers: the failure of the first reference that gives no content; else
/// the set of the nodes of its names and of what each reference gives.
pub open spec fn expands_to(
    sources: Seq<Seq<char>>,
    default_source: Seq<char>,
    mixed: Mixed,
    replies: Seq<SourceReply>,
    r: Result<NodeSet, ResolveError>,
) -> bool {
    match referred(sources, default_source, mixed.references, replies, mixed.references.len()) {
        Err(f) => r matches Err(e) && failure_of(e) == f,
        Ok(contents) => r matches Ok(nodes) && nodes.wf() && nodes.content() == expanded_content(
            mixed.names,
            contents,
        ) && nodes@ == members(written_groups(mixed.names)).union(
            united_nodes(contents, contents.len()),
        ),
    }
}

/// What `resolve` returned is what the answer gives.
pub proof fn lemma_resolved_answer(
    key: Seq<char>,
    group: Seq<char>,
    reply: SourceReply,
    r: Result<NodeSet, ResolveError>,
)
    requires
        resolved(key, group, reply, r),
    ensures
        match r {
            Ok(nodes) => answer_content(key, group, reply) == Ok::<Seq<Group>, Failure>(
                nodes.content(),
            ),
            Err(e) => answer_content(key, group, reply) == Err::<Seq<Group>, Failure>(
                failure_of(e),
            ),
        },
{
    match reply {
        SourceReply::Found(text) => match parse_spec(text@) {
            Ok(found) => {
                let ws = written_groups(found);
                lemma_gathers_unique(ws, r->Ok_0.content(), gathered(ws));
            },
            Err(e) => {},
        },
        _ => {},
    }
}

/// Whether every reference gave a set of nodes.
pub open spec fn all_resolved(results: Seq<Result<NodeSet, ResolveError>>) -> bool {
    forall|k: int| 0 <= k < results.len() ==> (#[trigger] results[k]) is Ok
}

/// Whether the reference at `k` is the first that gave no set of nodes.
pub open spec fn first_failed(results: Seq<Result<NodeSet, ResolveError>>, k: int) -> bool {
    &&& 0 <= k < results.len()
    &&& results[k] is Err
    &&& forall|j: int| 0 <= j < k ==> (#[trigger] results[j]) is Ok
}

/// The contents of the sets that the references gave, in their order.
pub open spec fn contents_of(results: Seq<Result<NodeSet, ResolveError>>) -> Seq<Seq<Group>> {
    Seq::new(
        results.len(),
        |k: int|
            match results[k] {
                Ok(nodes) => nodes.content(),
                Err(_) => Seq::empty(),
            },
    )
}

/// What a text with references gives, from the patterns of its names and
/// from what each reference was resolved to, in the order written: the
/// error of the first reference that gave none; else the union of the names
/// and of the sets of all references.
pub fn expanded(pieces: &Vec<Piece>, results: Vec<Result<NodeSet, ResolveError>>) -> (r: Result<
    NodeSet,
    ResolveError,
>)
    requires
        forall|k: int|
            0 <= k < pieces@.len() ==> written_wf(#[trigger] pieces_view(pieces@)[k]),
        forall|k: int|
            0 <= k < results@.len() ==> ((#[trigger] results@[k]) matches Ok(nodes)
                ==> nodes.wf()),
    ensures
        all_resolved(results@) ==> (r matches Ok(nodes) && nodes.wf() && nodes.content()
            == expanded_content(pieces_view(pieces@), contents_of(results@)) && nodes@ == members(
            written_groups(pieces_view(pieces@)),
        ).union(united_nodes(contents_of(results@), results@.len()))),
        results@.len() == 0 ==> (r matches Ok(nodes) && gathers(
            written_groups(pieces_view(pieces@)),
            nodes.content(),
        )),
        forall|k: int| first_failed(results@, k) ==> r == results@[k],
{
    let ghost given = results@;
    let mut rest = results;
    let ghost contents = contents_of(given);
    let named = NodeSet::from_pieces(pieces);
    proof {
        let ws = written_groups(pieces_view(pieces@));
        lemma_gathers_unique(ws, named.content(), gathered(ws));
    }
    let mut groups = NodeSet::new();
    let mut k: usize = 0;
    while k < rest.len()
        invariant
            k <= rest@.len(),
            rest@ == given,
            results@ == given,
            contents == contents_of(given),
            forall|j: int|
                0 <= j < given.len() ==> ((#[trigger] given[j]) matches Ok(nodes) ==> nodes.wf()),
            forall|j: int| 0 <= j < k ==> (#[trigger] given[j]) is Ok,
            groups.wf(),
            groups.content() == united(contents, k as nat),
            groups@ == united_nodes(contents, k as nat),
        decreases rest@.len() - k,
    {
        let failed = match &rest[k] {
            Ok(nodes) => {
                let ghost before = groups.content();
                let joined = groups.union(nodes);
                proof {
                    assert(given[k as int] == Ok::<NodeSet, ResolveError>(*nodes));
                    lemma_combines_unique(
                        SetOp::Union,
                        before,
                        nodes.content(),
                        joined.content(),
                        combined(SetOp::Union, before, nodes.content()),
                    );
                    assert(contents[k as int] == nodes.content());
                }
                groups = joined;
                false
            },
            Err(_) => true,
        };
        if failed {
            proof {
                assert(first_failed(given, k as int));
                assert forall|j: int| first_failed(given, j) implies j == k by {
                    if j < k {
                        assert(given[j] is Ok);
                    } else if j > k {
                        assert(given[k as int] is Ok);
                    }
                }
                assert(!all_resolved(given));
            }
            let found = rest.remove(k);
            return found;
        }
        k = k + 1;
    }
    proof {
        assert(all_resolved(given));
        assert forall|j: int| !first_failed(given, j) by {
            if 0 <= j < given.len() {
                assert(given[j] is Ok);
            }
        }
        assert(contents.len() == given.len());
    }
    if rest.len() > 0 {
        let all = named.union(&groups);
        proof {
            lemma_combines_unique(
                SetOp::Union,
                named.content(),
                groups.content(),
                all.content(),
                combined(SetOp::Union, named.content(), groups.content()),
            );
        }
        Ok(all)
    } else {
        proof {
            assert(named@.union(Set::<Node>::empty()) =~= named@);
        }
        Ok(named)
    }
}

impl<S: GroupSource> Resolver<S> {
    /// Reads a text in which group references may stand among the node
    /// names: the union of what the names say and of what the sources give
    /// for the references. A text without `@` is read as `NodeSet::parse`
    /// reads it. A text with a name that is not in the notation fails with
    /// the error of its first such name, and no source is asked. Otherwise
    /// the references are resolved in the order written, up to the first
    /// that gives no set of nodes, and the result is what `expanded` makes
    /// of the names and of what came back: the error of that reference,
    /// `SourceNotFound` where its source is not registered, else what
    /// `resolution` makes of the source's answer; or the union.
    pub fn expand(&self, text: &str) -> (r: Result<NodeSet, ResolveError>)
        requires
            self.wf(),
        ensures
            r matches Ok(ns) ==> ns.wf(),
            names_no_group(text@) ==> match parse_spec(text@) {
                Ok(found) => r matches Ok(ns) && gathers(written_groups(found), ns.content()),
                Err(e) => r matches Err(ResolveError::Definition(x)) && x == e,
            },
            mixed_spec(text@) matches Err(e) ==> (r matches Err(ResolveError::Definition(x)) && x
                == e),
            mixed_spec(text@) matches Ok(mixed) ==> (mixed.references.len() > 0 && !self.knows(
                asked_source(mixed.references[0], self.default_name()),
            ) ==> (r matches Err(ResolveError::SourceNotFound(name)) && name@ == asked_source(
                mixed.references[0],
                self.default_name(),
            ))),
            mixed_spec(text@) matches Ok(mixed) ==> exists|replies: Seq<SourceReply>|
                replies.len() == mixed.references.len() && #[trigger] expands_to(
                    self.registered(),
                    self.default_name(),
                    mixed,
                    replies,
                    r,
                ),
    {
        let chars = chars_of(text);
        proof {
            if names_no_group(text@) {
                lemma_plain_mixed(text@, 0, Seq::empty());
            }
        }
        let (pieces, references) = match read_mixed(&chars) {
            Err(e) => {
                return Err(ResolveError::Definition(e));
            },
            Ok(read) => read,
        };
        let ghost mixed = mixed_spec(text@)->Ok_0;
        let ghost sources = self.registered();
        let ghost default_source = self.default_name();
        let ghost first = if mixed.references.len() > 0 {
            asked_source(mixed.references[0], default_source)
        } else {
            default_source
        };
        proof {
            assert(references_view(references@).len() == references@.len());
        }
        let mut results: Vec<Result<NodeSet, ResolveError>> = Vec::new();
        let ghost mut replies: Seq<SourceReply> = Seq::empty();
        let mut going = true;
        let mut k: usize = 0;
        proof {
            assert(contents_of(results@) =~= Seq::<Seq<Group>>::empty());
        }
        while going && k < references.len()
            invariant
                k <= references@.len(),
                self.wf(),
                sources == self.registered(),
                default_source == self.default_name(),
                references_view(references@) == mixed.references,
                references@.len() == mixed.references.len(),
                mixed.references.len() > 0 ==> first == asked_source(
                    mixed.references[0],
                    default_source,
                ),
                mixed_spec(text@) == Ok::<Mixed, ParseError>(mixed),
                names_no_group(text@) ==> mixed.references.len() == 0 && parse_spec(text@) == Ok::<
                    Seq<Written>,
                    ParseError,
                >(mixed.names),
                pieces_view(pieces@) == mixed.names,
                forall|j: int|
                    0 <= j < pieces@.len() ==> written_wf(#[trigger] pieces_view(pieces@)[j]),
                results@.len() == k,
                replies.len() == k,
                forall|j: int|
                    0 <= j < results@.len() ==> ((#[trigger] results@[j]) matches Ok(nodes)
                        ==> nodes.wf()),
                going ==> all_resolved(results@) && referred(
                    sources,
                    default_source,
                    mixed.references,
                    replies,
                    k as nat,
                ) == Ok::<Seq<Seq<Group>>, Failure>(contents_of(results@)),
                !going ==> k > 0 && first_failed(results@, k - 1) && referred(
                    sources,
                    default_source,
                    mixed.references,
                    replies,
                    k as nat,
                ) == Err::<Seq<Seq<Group>>, Failure>(failure_of(results@[k - 1]->Err_0)),
                k > 0 && !self.knows(first) ==> (results@[0] matches Err(
                    ResolveError::SourceNotFound(name),
                ) && name@ == first),
            decreases references@.len() - k,
        {
            let reference = &references[k];
            let source = match &reference.source {
                Some(name) => Some(name.as_str()),
                None => None,
            };
            let ghost asked = mixed.references[k as int];
            let ghost key = asked_source(asked, default_source);
            proof {
                assert(asked == reference_view(*reference));
                assert(key == key_of(source, default_source));
            }
            let resolution = self.resolve(source, reference.group.as_str());
            let ghost made = resolution;
            proof {
                if self.knows(key) {
                    assert(exists|reply: SourceReply| #[trigger]
                        resolved(key, asked.group, reply, made));
                }
            }
            let ghost reply = if self.knows(key) {
                choose|reply: SourceReply| #[trigger] resolved(key, asked.group, reply, made)
            } else {
                SourceReply::NotFound
            };
            let ghost next = replies.push(reply);
            let ghost before = results@;
            proof {
                lemma_referred_agree(
                    sources,
                    default_source,
                    mixed.references,
                    replies,
                    next,
                    k as nat,
                );
                assert(next[k as int] == reply);
                if self.knows(key) {
                    lemma_resolved_answer(key, asked.group, reply, made);
                }
            }
            going = match &resolution {
                Ok(_) => true,
                Err(_) => false,
            };
            results.push(resolution);
            proof {
                assert(results@[k as int] == made);
                assert forall|j: int| 0 <= j < k implies results@[j] == before[j] by {}
                if going {
                    assert(contents_of(results@) =~= contents_of(before).push(
                        made->Ok_0.content(),
                    ));
                }
                replies = next;
            }
            k = k + 1;
        }
        let ghost got = results@;
        let r = expanded(&pieces, results);
        proof {
            if going {
                assert(k == references@.len());
                assert(forall|j: int| !first_failed(got, j));
                assert(expands_to(sources, default_source, mixed, replies, r));
            } else {
                assert(r == got[k - 1]);
                lemma_fails_at(sources, default_source, mixed, replies, (k - 1) as nat, r);
                if !self.knows(first) {
                    assert(k == 1) by {
                        assert(got[0] is Err);
                    }
                }
            }
        }
        r
    }
}

/// A reference that gives no content ends the expansion with its failure,
/// whatever the later references would be answered.
pub proof fn lemma_fails_at(
    sources: Seq<Seq<char>>,
    default_source: Seq<char>,
    mixed: Mixed,
    replies: Seq<SourceReply>,
    k: nat,
    r: Result<NodeSet, ResolveError>,
)
    requires
        k < mixed.references.len(),
        replies.len() == k + 1,
        r is Err,
        referred(sources, default_source, mixed.references, replies, k + 1) == Err::<
            Seq<Seq<Group>>,
            Failure,
        >(failure_of(r->Err_0)),
    ensures
        exists|all: Seq<SourceReply>|
            all.len() == mixed.references.len() && #[trigger] expands_to(
                sources,
                default_source,
                mixed,
                all,
                r,
            ),
{
    let n = mixed.references.len();
    let all = replies + Seq::new((n - k - 1) as nat, |t: int| SourceReply::NotFound);
    lemma_referred_agree(sources, default_source, mixed.references, replies, all, k + 1);
    lemma_referred_fails(sources, default_source, mixed.references, all, k + 1, n);
    assert(all.len() == n);
    assert(expands_to(sources, default_source, mixed, all, r));
}

} // verus!

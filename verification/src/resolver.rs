//! Group names and the sources that define them. A resolver is a registry of
//! named sources with one default name; it turns a group name into the set of
//! nodes that its source gives for it.

use crate::content::{gathers, written_groups};
use crate::folding::strings_view;
use crate::grammar::{parse_spec, ParseError};
use crate::nodeset::NodeSet;
use crate::text::{chars_of, string_of};
use vstd::prelude::*;

verus! {

/// What a source answers when asked for a group.
#[derive(Debug, PartialEq, Eq)]
pub enum SourceReply {
    /// The group's nodes, in the folded notation.
    Found(String),
    /// The source has no such group.
    NotFound,
    /// The source could not be asked; the text says why.
    Failed(String),
}

/// A provider of group definitions. What it answers is its own affair: the
/// resolver promises nothing about it and relies on nothing.
pub trait GroupSource {
    /// The names of the groups that the source defines, or why they cannot
    /// be had.
    fn groups(&self) -> Result<Vec<String>, String>;

    /// The definition of one group.
    fn lookup(&self, group: &str) -> SourceReply;
}

/// Why a group could not be resolved.
#[derive(Debug, PartialEq, Eq)]
pub enum ResolveError {
    /// No source is registered under this name.
    SourceNotFound(String),
    /// The source has no group of this name.
    GroupNotFound(String),
    /// The named source failed; the second text says why.
    SourceError(String, String),
    /// The source's definition of the group is not in the folded notation.
    Definition(ParseError),
    /// No resolver has been configured.
    ResolverUninitialized,
}

impl ResolveError {
    /// What the error says, in words, with the name that it is about.
    pub open spec fn message(self) -> Seq<char> {
        match self {
            ResolveError::SourceNotFound(name) => "source not found: "@ + name@,
            ResolveError::GroupNotFound(name) => "group not found: "@ + name@,
            ResolveError::SourceError(name, why) => "source "@ + name@ + " failed: "@ + why@,
            ResolveError::Definition(e) => "failed to parse nodeset: "@ + e.message(),
            ResolveError::ResolverUninitialized => "no resolver has been configured"@,
        }
    }

    /// What the error says, in words, with the name that it is about.
    pub fn describe(&self) -> (text: String)
        ensures
            text@ == self.message(),
    {
        match self {
            ResolveError::SourceNotFound(name) => String::from_str("source not found: ").concat(
                name.as_str(),
            ),
            ResolveError::GroupNotFound(name) => String::from_str("group not found: ").concat(
                name.as_str(),
            ),
            ResolveError::SourceError(name, why) => String::from_str("source ").concat(
                name.as_str(),
            ).concat(" failed: ").concat(why.as_str()),
            ResolveError::Definition(e) => String::from_str("failed to parse nodeset: ").concat(
                e.describe().as_str(),
            ),
            ResolveError::ResolverUninitialized => String::from_str(
                "no resolver has been configured",
            ),
        }
    }
}

/// The name of the source to ask: the one given, else the default.
pub open spec fn key_of(source: Option<&str>, default: Seq<char>) -> Seq<char> {
    match source {
        Some(name) => name@,
        None => default,
    }
}

/// What `resolve` returns for each answer of the source.
pub open spec fn resolved(
    source: Seq<char>,
    group: Seq<char>,
    reply: SourceReply,
    r: Result<NodeSet, ResolveError>,
) -> bool {
    match reply {
        SourceReply::Found(text) => match parse_spec(text@) {
            Ok(found) => r matches Ok(ns) && ns.wf() && gathers(
                written_groups(found),
                ns.content(),
            ),
            Err(e) => r matches Err(ResolveError::Definition(x)) && x == e,
        },
        SourceReply::NotFound => r matches Err(ResolveError::GroupNotFound(g)) && g@ == group,
        SourceReply::Failed(why) => r matches Err(ResolveError::SourceError(s, w)) && s@ == source
            && w@ == why@,
    }
}

/// What `list_groups` returns for each answer of the source.
pub open spec fn listed(
    source: Seq<char>,
    reply: Result<Vec<String>, String>,
    r: Result<Vec<String>, ResolveError>,
) -> bool {
    match reply {
        Ok(names) => r matches Ok(out) && out == names,
        Err(why) => r matches Err(ResolveError::SourceError(s, w)) && s@ == source && w@ == why@,
    }
}

/// The nodes of a group, from what its source answered.
pub fn resolution(source: &str, group: &str, reply: SourceReply) -> (r: Result<
    NodeSet,
    ResolveError,
>)
    ensures
        resolved(source@, group@, reply, r),
{
    match reply {
        SourceReply::Found(text) => match NodeSet::parse(text.as_str()) {
            Ok(ns) => Ok(ns),
            Err(e) => Err(ResolveError::Definition(e)),
        },
        SourceReply::NotFound => Err(ResolveError::GroupNotFound(String::from_str(group))),
        SourceReply::Failed(why) => Err(
            ResolveError::SourceError(String::from_str(source), why),
        ),
    }
}

/// The groups of a source, from what the source answered.
pub fn listing(source: &str, reply: Result<Vec<String>, String>) -> (r: Result<
    Vec<String>,
    ResolveError,
>)
    ensures
        listed(source@, reply, r),
{
    match reply {
        Ok(names) => Ok(names),
        Err(why) => Err(ResolveError::SourceError(String::from_str(source), why)),
    }
}

/// A reference to a group: `@group`, or `@source:group`.
#[derive(Debug, PartialEq, Eq)]
pub struct GroupRef {
    pub source: Option<String>,
    pub group: String,
}

/// Where the first `:` of `s` stands at or after `i`; the length of `s` if
/// there is none.
pub open spec fn colon_at(s: Seq<char>, i: int) -> int
    decreases s.len() - i,
{
    if i < 0 || i >= s.len() || s[i] == ':' {
        i
    } else {
        colon_at(s, i + 1)
    }
}

/// Splits a reference, the `@` included, at its first `:`: the source is
/// what stands between the first character and the `:`, the group what
/// follows; without a `:` all after the first character is the group.
pub(crate) fn split_reference(chars: &Vec<char>) -> (found: GroupRef)
    requires
        chars@.len() > 0,
    ensures
        ({
            let at = colon_at(chars@, 1);
            &&& 1 <= at <= chars@.len()
            &&& at == chars@.len() ==> found.source is None && found.group@ == chars@.skip(1)
            &&& at < chars@.len() ==> (found.source matches Some(s) && s@ == chars@.subrange(
                1,
                at,
            ) && found.group@ == chars@.skip(at + 1))
        }),
{
    let mut at: usize = 1;
    while at < chars.len() && chars[at] != ':'
        invariant
            1 <= at <= chars@.len(),
            colon_at(chars@, 1) == colon_at(chars@, at as int),
        decreases chars@.len() - at,
    {
        at = at + 1;
    }
    let mut first: Vec<char> = Vec::new();
    let mut k: usize = 1;
    proof {
        assert(chars@.subrange(1, 1) =~= first@);
    }
    while k < at
        invariant
            1 <= k <= at <= chars@.len(),
            first@ == chars@.subrange(1, k as int),
        decreases at - k,
    {
        first.push(chars[k]);
        proof {
            assert(chars@.subrange(1, k + 1) =~= chars@.subrange(1, k as int).push(
                chars@[k as int],
            ));
        }
        k = k + 1;
    }
    if at == chars.len() {
        proof {
            assert(chars@.subrange(1, at as int) =~= chars@.skip(1));
        }
        GroupRef { source: None, group: string_of(&first) }
    } else {
        let mut rest: Vec<char> = Vec::new();
        let mut t: usize = at + 1;
        proof {
            assert(chars@.subrange(at + 1, at + 1) =~= rest@);
        }
        while t < chars.len()
            invariant
                at < t <= chars@.len(),
                rest@ == chars@.subrange(at + 1, t as int),
            decreases chars@.len() - t,
        {
            rest.push(chars[t]);
            proof {
                assert(chars@.subrange(at + 1, t + 1) =~= chars@.subrange(at + 1, t as int).push(
                    chars@[t as int],
                ));
            }
            t = t + 1;
        }
        proof {
            assert(chars@.subrange(at + 1, t as int) =~= chars@.skip(at + 1));
        }
        GroupRef { source: Some(string_of(&first)), group: string_of(&rest) }
    }
}

/// Reads a group reference. A text that does not begin with `@` is none.
/// The source is what stands between the `@` and the first `:`, the group
/// what follows; without a `:` all of it is the group, of the default
/// source.
pub fn parse_reference(text: &str) -> (r: Option<GroupRef>)
    ensures
        match r {
            None => text@.len() == 0 || text@[0] != '@',
            Some(found) => {
                let at = colon_at(text@, 1);
                &&& text@.len() > 0 && text@[0] == '@'
                &&& 1 <= at <= text@.len()
                &&& at == text@.len() ==> found.source is None && found.group@ == text@.skip(1)
                &&& at < text@.len() ==> (found.source matches Some(s) && s@ == text@.subrange(
                    1,
                    at,
                ) && found.group@ == text@.skip(at + 1))
            },
        },
{
    let chars = chars_of(text);
    if chars.len() == 0 || chars[0] != '@' {
        return None;
    }
    Some(split_reference(&chars))
}


/// A registry of sources by name, with the name of the default source.
pub struct Resolver<S: GroupSource> {
    names: Vec<String>,
    sources: Vec<S>,
    default: String,
}

impl<S: GroupSource> Resolver<S> {
    /// The names registered, in the order of their registration.
    pub closed spec fn registered(&self) -> Seq<Seq<char>> {
        strings_view(self.names@)
    }

    /// The name of the default source.
    pub closed spec fn default_name(&self) -> Seq<char> {
        self.default@
    }

    /// The invariant: each name is registered once, with one source.
    pub closed spec fn wf(&self) -> bool {
        &&& self.names@.len() == self.sources@.len()
        &&& forall|i: int, j: int|
            0 <= i < j < self.names@.len() ==> self.names@[i]@ != self.names@[j]@
    }

    /// Whether a source is registered under the name.
    pub open spec fn knows(&self, name: Seq<char>) -> bool {
        self.registered().contains(name)
    }

    /// A resolver without sources, whose default source has the given name.
    pub fn new(default_source: &str) -> (r: Self)
        ensures
            r.wf(),
            r.registered() == Seq::<Seq<char>>::empty(),
            r.default_name() == default_source@,
    {
        let r = Resolver {
            names: Vec::new(),
            sources: Vec::new(),
            default: String::from_str(default_source),
        };
        proof {
            assert(r.registered() =~= Seq::<Seq<char>>::empty());
        }
        r
    }

    fn find(&self, name: &String) -> (at: Option<usize>)
        requires
            self.wf(),
        ensures
            match at {
                Some(k) => k < self.registered().len() && self.registered()[k as int] == name@
                    && k < self.sources@.len(),
                None => !self.knows(name@),
            },
    {
        let mut k: usize = 0;
        while k < self.names.len()
            invariant
                k <= self.names@.len(),
                self.wf(),
                forall|i: int| 0 <= i < k ==> self.names@[i]@ != name@,
            decreases self.names@.len() - k,
        {
            if self.names[k] == *name {
                return Some(k);
            }
            k = k + 1;
        }
        proof {
            if self.knows(name@) {
                let i = choose|i: int|
                    0 <= i < self.registered().len() && self.registered()[i] == name@;
                assert(self.names@[i]@ == name@);
            }
        }
        None
    }

    /// Registers a source under a name. A name that is taken stays with the
    /// source it has, and the answer is `false`.
    pub fn register(&mut self, name: &str, source: S) -> (added: bool)
        requires
            old(self).wf(),
        ensures
            final(self).wf(),
            final(self).default_name() == old(self).default_name(),
            added == !old(self).knows(name@),
            added ==> final(self).registered() == old(self).registered().push(name@),
            !added ==> final(self).registered() == old(self).registered(),
    {
        let key = String::from_str(name);
        match self.find(&key) {
            Some(_) => {
                proof {
                    let k = self.find_place(name@);
                }
                false
            },
            None => {
                let ghost before = self.names@;
                self.names.push(key);
                self.sources.push(source);
                proof {
                    assert(strings_view(self.names@) =~= strings_view(before).push(name@));
                    assert forall|i: int, j: int| 0 <= i < j < self.names@.len() implies self.names@[i]@
                        != self.names@[j]@ by {
                        if j == before.len() {
                            assert(strings_view(before)[i] == before[i]@);
                            assert(strings_view(before).contains(before[i]@));
                        }
                    }
                }
                true
            },
        }
    }

    proof fn find_place(&self, name: Seq<char>) -> (k: int)
        requires
            exists|i: int| 0 <= i < self.registered().len() && self.registered()[i] == name,
        ensures
            self.knows(name),
    {
        let i = choose|i: int| 0 <= i < self.registered().len() && self.registered()[i] == name;
        i
    }

    /// The names of the registered sources.
    pub fn sources(&self) -> (out: Vec<String>)
        requires
            self.wf(),
        ensures
            strings_view(out@) == self.registered(),
    {
        let mut out: Vec<String> = Vec::new();
        let mut k: usize = 0;
        while k < self.names.len()
            invariant
                k <= self.names@.len(),
                out@.len() == k,
                forall|i: int| 0 <= i < k ==> out@[i]@ == self.names@[i]@,
            decreases self.names@.len() - k,
        {
            out.push(self.names[k].clone());
            k = k + 1;
        }
        proof {
            assert(strings_view(out@) =~= self.registered());
        }
        out
    }

    /// The name of the source that is asked where none is named.
    pub fn default_source(&self) -> (name: String)
        ensures
            name@ == self.default_name(),
    {
        self.default.clone()
    }

    fn key(&self, source: Option<&str>) -> (key: String)
        ensures
            key@ == key_of(source, self.default_name()),
    {
        match source {
            Some(name) => String::from_str(name),
            None => self.default.clone(),
        }
    }

    /// The groups of one source, the default source where none is named, in
    /// the order in which the source gives them. Fails with `SourceNotFound`
    /// exactly when no source of that name is registered; otherwise the
    /// answer is what `listing` makes of the source's.
    pub fn list_groups(&self, source: Option<&str>) -> (r: Result<Vec<String>, ResolveError>)
        requires
            self.wf(),
        ensures
            !self.knows(key_of(source, self.default_name())) ==> (r matches Err(
                ResolveError::SourceNotFound(s),
            ) && s@ == key_of(source, self.default_name())),
            self.knows(key_of(source, self.default_name())) ==> exists|
                reply: Result<Vec<String>, String>,
            | #[trigger] listed(key_of(source, self.default_name()), reply, r),
    {
        let key = self.key(source);
        match self.find(&key) {
            None => Err(ResolveError::SourceNotFound(key)),
            Some(k) => {
                proof {
                    let i = self.find_place(key@);
                }
                let reply = self.sources[k].groups();
                let ghost given = reply;
                let r = listing(key.as_str(), reply);
                proof {
                    assert(listed(key_of(source, self.default_name()), given, r));
                }
                r
            },
        }
    }

    /// For each registered source, in the order of registration, its name
    /// and its groups.
    pub fn list_all_groups(&self) -> (out: Vec<(String, Result<Vec<String>, ResolveError>)>)
        requires
            self.wf(),
        ensures
            out@.len() == self.registered().len(),
            forall|k: int|
                0 <= k < out@.len() ==> (#[trigger] out@[k]).0@ == self.registered()[k] && exists|
                    reply: Result<Vec<String>, String>,
                | #[trigger] listed(self.registered()[k], reply, out@[k].1),
    {
        let mut out: Vec<(String, Result<Vec<String>, ResolveError>)> = Vec::new();
        let mut k: usize = 0;
        while k < self.names.len()
            invariant
                k <= self.names@.len(),
                self.wf(),
                out@.len() == k,
                forall|i: int|
                    0 <= i < k ==> (#[trigger] out@[i]).0@ == self.registered()[i] && exists|
                        reply: Result<Vec<String>, String>,
                    | #[trigger] listed(self.registered()[i], reply, out@[i].1),
            decreases self.names@.len() - k,
        {
            let name = self.names[k].clone();
            let reply = self.sources[k].groups();
            let ghost given = reply;
            let groups = listing(name.as_str(), reply);
            let ghost before = out@;
            out.push((name, groups));
            proof {
                assert(name@ == self.registered()[k as int]);
                assert(listed(self.registered()[k as int], given, groups));
                assert forall|i: int| 0 <= i < k + 1 implies (#[trigger] out@[i]).0@
                    == self.registered()[i] && exists|reply: Result<Vec<String>, String>| #[trigger]
                    listed(self.registered()[i], reply, out@[i].1) by {
                    if i < k {
                        assert(out@[i] == before[i]);
                        let reply = choose|reply: Result<Vec<String>, String>| #[trigger]
                            listed(self.registered()[i], reply, before[i].1);
                        assert(listed(self.registered()[i], reply, out@[i].1));
                    } else {
                        assert(listed(self.registered()[i], given, out@[i].1));
                    }
                }
            }
            k = k + 1;
        }
        out
    }

    /// The nodes of a group of one source, the default source where none is
    /// named. Fails with `SourceNotFound` exactly when no source of that
    /// name is registered; otherwise the answer is what `resolution` makes of
    /// the source's.
    pub fn resolve(&self, source: Option<&str>, group: &str) -> (r: Result<NodeSet, ResolveError>)
        requires
            self.wf(),
        ensures
            !self.knows(key_of(source, self.default_name())) ==> (r matches Err(
                ResolveError::SourceNotFound(s),
            ) && s@ == key_of(source, self.default_name())),
            self.knows(key_of(source, self.default_name())) ==> exists|reply: SourceReply| #[trigger]
                resolved(key_of(source, self.default_name()), group@, reply, r),
    {
        let key = self.key(source);
        match self.find(&key) {
            None => Err(ResolveError::SourceNotFound(key)),
            Some(k) => {
                proof {
                    let i = self.find_place(key@);
                }
                let reply = self.sources[k].lookup(group);
                let ghost given = reply;
                let r = resolution(key.as_str(), group, reply);
                proof {
                    assert(resolved(key_of(source, self.default_name()), group@, given, r));
                }
                r
            },
        }
    }
}

/// A source that holds its groups in a table: each group with the text that
/// defines it.
pub struct TableSource {
    names: Vec<String>,
    texts: Vec<String>,
}

impl TableSource {
    /// The names of the groups, in the order of their definition.
    pub closed spec fn defined(&self) -> Seq<Seq<char>> {
        strings_view(self.names@)
    }

    /// The texts of the groups, in the order of their definition.
    pub closed spec fn definitions(&self) -> Seq<Seq<char>> {
        strings_view(self.texts@)
    }

    /// The invariant: each group has one text.
    pub open spec fn wf(&self) -> bool {
        self.defined().len() == self.definitions().len()
    }

    /// A table without groups.
    pub fn new() -> (t: TableSource)
        ensures
            t.wf(),
            t.defined() == Seq::<Seq<char>>::empty(),
            t.definitions() == Seq::<Seq<char>>::empty(),
    {
        let t = TableSource { names: Vec::new(), texts: Vec::new() };
        proof {
            assert(t.defined() =~= Seq::<Seq<char>>::empty());
            assert(t.definitions() =~= Seq::<Seq<char>>::empty());
        }
        t
    }

    /// Defines a group. Of two definitions of one group the first counts.
    pub fn define(&mut self, group: &str, nodes: &str)
        requires
            old(self).wf(),
        ensures
            final(self).wf(),
            final(self).defined() == old(self).defined().push(group@),
            final(self).definitions() == old(self).definitions().push(nodes@),
    {
        let ghost names = self.names@;
        let ghost texts = self.texts@;
        self.names.push(String::from_str(group));
        self.texts.push(String::from_str(nodes));
        proof {
            assert(strings_view(self.names@) =~= strings_view(names).push(group@));
            assert(strings_view(self.texts@) =~= strings_view(texts).push(nodes@));
        }
    }

    /// The definition of a group: the text of the first definition under
    /// that name.
    pub fn definition(&self, group: &str) -> (r: Option<String>)
        requires
            self.wf(),
        ensures
            match r {
                Some(text) => exists|k: int|
                    0 <= k < self.defined().len() && #[trigger] self.defined()[k] == group@
                        && self.definitions()[k] == text@ && forall|j: int|
                        0 <= j < k ==> self.defined()[j] != group@,
                None => !self.defined().contains(group@),
            },
    {
        let wanted = String::from_str(group);
        let mut k: usize = 0;
        while k < self.names.len()
            invariant
                k <= self.names@.len(),
                self.wf(),
                wanted@ == group@,
                forall|j: int| 0 <= j < k ==> self.defined()[j] != group@,
            decreases self.names@.len() - k,
        {
            if self.names[k] == wanted {
                proof {
                    assert(self.defined()[k as int] == group@);
                    assert(self.definitions()[k as int] == self.texts@[k as int]@);
                }
                return Some(self.texts[k].clone());
            }
            k = k + 1;
        }
        proof {
            if self.defined().contains(group@) {
                let j = choose|j: int| 0 <= j < self.defined().len() && self.defined()[j] == group@;
                assert(self.defined()[j] != group@);
            }
        }
        None
    }
}

/// A blank within a line.
pub open spec fn is_blank(c: char) -> bool {
    c == ' ' || c == '\t' || c == '\r'
}

/// The text without the blanks at its start.
pub open spec fn trim_start(t: Seq<char>) -> Seq<char>
    decreases t.len(),
{
    if t.len() > 0 && is_blank(t[0]) {
        trim_start(t.drop_first())
    } else {
        t
    }
}

/// The text without the blanks at its end.
pub open spec fn trim_end(t: Seq<char>) -> Seq<char>
    decreases t.len(),
{
    if t.len() > 0 && is_blank(t.last()) {
        trim_end(t.drop_last())
    } else {
        t
    }
}

/// Where the line that begins at `i` ends: at the next line feed, or at the
/// end of the text.
pub open spec fn line_end(s: Seq<char>, i: int) -> int
    decreases s.len() - i,
{
    if i < 0 || i >= s.len() || s[i] == '\n' {
        i
    } else {
        line_end(s, i + 1)
    }
}

/// Whether a line defines a group: it is no comment, and it has a `:`.
pub open spec fn defines(line: Seq<char>) -> bool {
    line.len() > 0 && line[0] != '#' && colon_at(line, 0) < line.len()
}

/// The groups that the lines from `i` on define, after those in `names` and
/// `texts`: of each defining line, the name is what stands before the first
/// `:`, without the blanks around it, and the text is what follows.
pub open spec fn table_from(
    s: Seq<char>,
    i: int,
    names: Seq<Seq<char>>,
    texts: Seq<Seq<char>>,
) -> (Seq<Seq<char>>, Seq<Seq<char>>)
    decreases s.len() - i,
{
    if i < 0 || i >= s.len() {
        (names, texts)
    } else {
        let e = line_end(s, i);
        let line = s.subrange(i, e);
        let c = colon_at(line, 0);
        let names2 = if defines(line) {
            names.push(trim_end(trim_start(line.take(c))))
        } else {
            names
        };
        let texts2 = if defines(line) {
            texts.push(line.skip(c + 1))
        } else {
            texts
        };
        if e >= s.len() {
            (names2, texts2)
        } else {
            proof {
                lemma_line_end(s, i);
            }
            table_from(s, e + 1, names2, texts2)
        }
    }
}

pub proof fn lemma_line_end(s: Seq<char>, i: int)
    requires
        0 <= i <= s.len(),
    ensures
        i <= line_end(s, i) <= s.len(),
    decreases s.len() - i,
{
    if i < s.len() && s[i] != '\n' {
        lemma_line_end(s, i + 1);
    }
}

pub proof fn lemma_colon_at(s: Seq<char>, i: int)
    requires
        0 <= i <= s.len(),
    ensures
        i <= colon_at(s, i) <= s.len(),
    decreases s.len() - i,
{
    if i < s.len() && s[i] != ':' {
        lemma_colon_at(s, i + 1);
    }
}

fn is_blank_char(c: char) -> (b: bool)
    ensures
        b == is_blank(c),
{
    c == ' ' || c == '\t' || c == '\r'
}

/// `text[from..to]` without the blanks around it.
fn trimmed(text: &Vec<char>, from: usize, to: usize) -> (out: Vec<char>)
    requires
        from <= to <= text@.len(),
    ensures
        out@ == trim_end(trim_start(text@.subrange(from as int, to as int))),
{
    let mut a: usize = from;
    while a < to && is_blank_char(text[a])
        invariant
            from <= a <= to <= text@.len(),
            trim_start(text@.subrange(from as int, to as int)) == trim_start(
                text@.subrange(a as int, to as int),
            ),
        decreases to - a,
    {
        proof {
            let t = text@.subrange(a as int, to as int);
            assert(t.drop_first() =~= text@.subrange(a + 1, to as int));
        }
        a = a + 1;
    }
    let mut b: usize = to;
    while b > a && is_blank_char(text[b - 1])
        invariant
            a <= b <= to <= text@.len(),
            trim_end(text@.subrange(a as int, to as int)) == trim_end(
                text@.subrange(a as int, b as int),
            ),
        decreases b - a,
    {
        proof {
            let t = text@.subrange(a as int, b as int);
            assert(t.drop_last() =~= text@.subrange(a as int, b - 1));
        }
        b = b - 1;
    }
    let mut out: Vec<char> = Vec::new();
    let mut k: usize = a;
    proof {
        assert(text@.subrange(a as int, a as int) =~= out@);
    }
    while k < b
        invariant
            a <= k <= b <= text@.len(),
            out@ == text@.subrange(a as int, k as int),
        decreases b - k,
    {
        out.push(text[k]);
        proof {
            assert(text@.subrange(a as int, k + 1) =~= text@.subrange(a as int, k as int).push(
                text@[k as int],
            ));
        }
        k = k + 1;
    }
    out
}

impl TableSource {
    /// The table that a text defines, one group to a line: `name: nodes`.
    /// Lines that begin with `#` and lines without `:` define nothing.
    pub fn from_text(text: &str) -> (t: TableSource)
        ensures
            t.wf(),
            (t.defined(), t.definitions()) == table_from(
                text@,
                0,
                Seq::<Seq<char>>::empty(),
                Seq::<Seq<char>>::empty(),
            ),
    {
        let chars = chars_of(text);
        let mut t = TableSource::new();
        let mut i: usize = 0;
        while i < chars.len()
            invariant
                i <= chars@.len(),
                chars@ == text@,
                t.wf(),
                table_from(text@, 0, Seq::<Seq<char>>::empty(), Seq::<Seq<char>>::empty())
                    == table_from(chars@, i as int, t.defined(), t.definitions()),
            decreases chars@.len() - i,
        {
            let mut e: usize = i;
            while e < chars.len() && chars[e] != '\n'
                invariant
                    i <= e <= chars@.len(),
                    line_end(chars@, i as int) == line_end(chars@, e as int),
                decreases chars@.len() - e,
            {
                e = e + 1;
            }
            let ghost line = chars@.subrange(i as int, e as int);
            proof {
                lemma_line_end(chars@, i as int);
                lemma_colon_at(line, 0);
            }
            if e > i && chars[i] != '#' {
                let mut c: usize = i;
                while c < e && chars[c] != ':'
                    invariant
                        i <= c <= e <= chars@.len(),
                        line == chars@.subrange(i as int, e as int),
                        colon_at(line, 0) == colon_at(line, c - i),
                    decreases e - c,
                {
                    c = c + 1;
                }
                proof {
                    assert(line[0] == chars@[i as int]);
                }
                if c < e {
                    let name = trimmed(&chars, i, c);
                    let mut nodes: Vec<char> = Vec::new();
                    let mut k: usize = c + 1;
                    proof {
                        assert(chars@.subrange(c + 1, c + 1) =~= nodes@);
                    }
                    while k < e
                        invariant
                            c < k <= e <= chars@.len(),
                            nodes@ == chars@.subrange(c + 1, k as int),
                        decreases e - k,
                    {
                        nodes.push(chars[k]);
                        proof {
                            assert(chars@.subrange(c + 1, k + 1) =~= chars@.subrange(
                                c + 1,
                                k as int,
                            ).push(chars@[k as int]));
                        }
                        k = k + 1;
                    }
                    proof {
                        assert(line.take(c - i) =~= chars@.subrange(i as int, c as int));
                        assert(line.skip(c - i + 1) =~= chars@.subrange(c + 1, e as int));
                    }
                    t.define(string_of(&name).as_str(), string_of(&nodes).as_str());
                } else {
                    proof {
                        assert(colon_at(line, 0) == line.len());
                    }
                }
            } else {
                proof {
                    if e > i {
                        assert(line[0] == chars@[i as int]);
                    }
                }
            }
            if e >= chars.len() {
                return t;
            }
            i = e + 1;
        }
        t
    }
}

impl GroupSource for TableSource {
    /// The groups of the table, in the order of their definition.
    fn groups(&self) -> (r: Result<Vec<String>, String>)
        ensures
            r matches Ok(names) && strings_view(names@) == self.defined(),
    {
        let mut out: Vec<String> = Vec::new();
        let mut k: usize = 0;
        while k < self.names.len()
            invariant
                k <= self.names@.len(),
                out@.len() == k,
                forall|j: int| 0 <= j < k ==> out@[j]@ == self.names@[j]@,
            decreases self.names@.len() - k,
        {
            out.push(self.names[k].clone());
            k = k + 1;
        }
        proof {
            assert(strings_view(out@) =~= self.defined());
        }
        Ok(out)
    }

    /// The text of the group's first definition, if it has one. A table
    /// does not fail.
    fn lookup(&self, group: &str) -> (r: SourceReply)
        ensures
            self.wf() ==> match r {
                SourceReply::Found(text) => exists|k: int|
                    0 <= k < self.defined().len() && #[trigger] self.defined()[k] == group@
                        && self.definitions()[k] == text@ && forall|j: int|
                        0 <= j < k ==> self.defined()[j] != group@,
                SourceReply::NotFound => !self.defined().contains(group@),
                SourceReply::Failed(_) => false,
            },
    {
        if self.names.len() != self.texts.len() {
            return SourceReply::Failed(String::from_str(group));
        }
        proof {
            assert(self.defined().len() == self.names@.len());
            assert(self.definitions().len() == self.texts@.len());
        }
        match self.definition(group) {
            Some(text) => SourceReply::Found(text),
            None => SourceReply::NotFound,
        }
    }
}

/// The place of the one resolver of a program: empty until a resolver is
/// put there, which can be done once.
pub struct ResolverCell<S: GroupSource> {
    slot: Option<Resolver<S>>,
}

impl<S: GroupSource> ResolverCell<S> {
    /// Whether a resolver has been configured.
    pub closed spec fn ready(&self) -> bool {
        self.slot is Some
    }

    /// The resolver configured.
    pub closed spec fn resolver(&self) -> Resolver<S> {
        self.slot->0
    }

    /// The cell before configuration.
    pub fn new() -> (c: Self)
        ensures
            !c.ready(),
    {
        ResolverCell { slot: None }
    }

    /// Whether a resolver has been configured.
    pub fn is_ready(&self) -> (b: bool)
        ensures
            b == self.ready(),
    {
        self.slot.is_some()
    }

    /// Configures the resolver. A cell that has one keeps it, and hands the
    /// other back.
    pub fn set(&mut self, resolver: Resolver<S>) -> (r: Result<(), Resolver<S>>)
        ensures
            final(self).ready(),
            !old(self).ready() ==> r is Ok && final(self).resolver() == resolver,
            old(self).ready() ==> r == Err::<(), Resolver<S>>(resolver) && final(self).resolver()
                == old(self).resolver(),
    {
        if self.slot.is_some() {
            Err(resolver)
        } else {
            self.slot = Some(resolver);
            Ok(())
        }
    }

    /// The resolver, of a cell that has one.
    pub fn get(&self) -> (r: &Resolver<S>)
        requires
            self.ready(),
        ensures
            *r == self.resolver(),
    {
        self.slot.as_ref().unwrap()
    }

    /// The resolver, or `ResolverUninitialized` for a cell that has none.
    pub fn try_get(&self) -> (r: Result<&Resolver<S>, ResolveError>)
        ensures
            self.ready() ==> (r matches Ok(found) && *found == self.resolver()),
            !self.ready() ==> r matches Err(ResolveError::ResolverUninitialized),
    {
        match &self.slot {
            Some(resolver) => Ok(resolver),
            None => Err(ResolveError::ResolverUninitialized),
        }
    }
}

} // verus!

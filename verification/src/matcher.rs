//! The compiled form of a pattern — a tree of matcher nodes — together with
//! the mathematical matching semantics and the executable matching engine.
//!
//! Matching is greedy and never backtracks across node boundaries: `+` and
//! `?` commit to their outcome, and a repetition ends as soon as the subject
//! is exhausted or a repetition consumes nothing. Captured group texts are
//! appended to a capture list as groups close, and stay there even when a
//! later node of the same attempt fails.

use vstd::prelude::*;

verus! {

/// One node of a compiled pattern. A pattern compiles to a sequence of these;
/// groups own their child sequences, so a compiled pattern is a finite tree.
#[derive(Debug)]
pub enum Matcher {
    /// `^`: zero-width, recorded as a flag on the whole expression.
    StartOfLine,
    /// `$`: zero-width, recorded as a flag on the whole expression.
    EndOfLine,
    /// `\w`: one letter or underscore.
    WordChar,
    /// `\d`: one decimal digit.
    Digit,
    /// `[...]`: one character that occurs in the bracketed set.
    PositiveCharGroup(Vec<char>),
    /// `[^...]`: one character that does not occur in the bracketed set.
    NegativeCharGroup(Vec<char>),
    /// One exact character.
    Literal(char),
    /// `+`: the wrapped node, greedily repeated one or more times.
    OneOrMore(Box<Matcher>),
    /// `?`: the wrapped node, tried once; a miss consumes nothing.
    ZeroOrOne(Box<Matcher>),
    /// `.`: any one character.
    Wildcard,
    /// `(` as a raw token; never part of a compiled expression.
    GroupStart,
    /// `)` as a raw token; never part of a compiled expression.
    GroupEnd,
    /// `|` as a raw token; never part of a compiled expression.
    Alteration,
    /// A closed group: an alternation of two child sequences (the right one
    /// empty when the group had no `|`). On a hit the matched span is
    /// appended to the capture list.
    Group(Vec<Matcher>, Vec<Matcher>),
    /// `\n`: the subject must repeat the text captured by group `n` (1-based).
    Backreference(usize),
}

/// The mathematical image of a [`Matcher`] tree, with `Seq` in place of `Vec`.
pub enum SpecMatcher {
    StartOfLine,
    EndOfLine,
    WordChar,
    Digit,
    PositiveCharGroup(Seq<char>),
    NegativeCharGroup(Seq<char>),
    Literal(char),
    OneOrMore(Box<SpecMatcher>),
    ZeroOrOne(Box<SpecMatcher>),
    Wildcard,
    GroupStart,
    GroupEnd,
    Alteration,
    Group(Seq<SpecMatcher>, Seq<SpecMatcher>),
    Backreference(usize),
}

/// The mathematical image of a matcher tree.
pub open spec fn matcher_view(m: Matcher) -> SpecMatcher
    decreases m,
{
    match m {
        Matcher::StartOfLine => SpecMatcher::StartOfLine,
        Matcher::EndOfLine => SpecMatcher::EndOfLine,
        Matcher::WordChar => SpecMatcher::WordChar,
        Matcher::Digit => SpecMatcher::Digit,
        Matcher::PositiveCharGroup(g) => SpecMatcher::PositiveCharGroup(g@),
        Matcher::NegativeCharGroup(g) => SpecMatcher::NegativeCharGroup(g@),
        Matcher::Literal(c) => SpecMatcher::Literal(c),
        Matcher::OneOrMore(inner) => SpecMatcher::OneOrMore(Box::new(matcher_view(*inner))),
        Matcher::ZeroOrOne(inner) => SpecMatcher::ZeroOrOne(Box::new(matcher_view(*inner))),
        Matcher::Wildcard => SpecMatcher::Wildcard,
        Matcher::GroupStart => SpecMatcher::GroupStart,
        Matcher::GroupEnd => SpecMatcher::GroupEnd,
        Matcher::Alteration => SpecMatcher::Alteration,
        Matcher::Group(left, right) => SpecMatcher::Group(views_of(left@), views_of(right@)),
        Matcher::Backreference(n) => SpecMatcher::Backreference(n),
    }
}

/// The mathematical image of a sequence of matcher trees, element by element.
pub open spec fn views_of(ms: Seq<Matcher>) -> Seq<SpecMatcher>
    decreases ms,
{
    if ms.len() == 0 {
        Seq::empty()
    } else {
        seq![matcher_view(ms[0])] + views_of(ms.drop_first())
    }
}

impl View for Matcher {
    type V = SpecMatcher;

    open spec fn view(&self) -> SpecMatcher {
        matcher_view(*self)
    }
}

/// `views_of` maps `matcher_view` over the sequence, position by position.
pub proof fn lemma_views_of(ms: Seq<Matcher>)
    ensures
        views_of(ms).len() == ms.len(),
        forall|i: int| 0 <= i < ms.len() ==> views_of(ms)[i] == matcher_view(ms[i]),
    decreases ms.len(),
{
    if ms.len() > 0 {
        lemma_views_of(ms.drop_first());
        assert forall|i: int| 0 <= i < ms.len() implies views_of(ms)[i] == matcher_view(ms[i]) by {
            if i > 0 {
                assert(ms.drop_first()[i - 1] == ms[i]);
            }
        }
    }
}

/// Number of nodes in a matcher tree, children included.
pub open spec fn node_size(m: SpecMatcher) -> nat
    decreases m,
{
    match m {
        SpecMatcher::OneOrMore(inner) => 1 + node_size(*inner),
        SpecMatcher::ZeroOrOne(inner) => 1 + node_size(*inner),
        SpecMatcher::Group(left, right) => 1 + seq_size(left) + seq_size(right),
        _ => 1,
    }
}

/// Total node count of a sequence of matcher trees.
pub open spec fn seq_size(ms: Seq<SpecMatcher>) -> nat
    decreases ms,
{
    if ms.len() == 0 {
        0
    } else {
        node_size(ms[0]) + seq_size(ms.drop_first())
    }
}

/// What `\w` accepts: an ASCII letter or an underscore.
pub open spec fn is_word_char(c: char) -> bool {
    ('a' <= c && c <= 'z') || ('A' <= c && c <= 'Z') || c == '_'
}

/// What `\d` accepts: an ASCII decimal digit.
pub open spec fn is_ascii_digit(c: char) -> bool {
    '0' <= c && c <= '9'
}

/// Outcome of matching something against a subject tail: how many characters
/// were consumed (`None` on a miss) and the capture list afterwards. Captures
/// pushed before a miss are kept, as the engine never rolls them back.
pub struct MatchStep {
    pub consumed: Option<nat>,
    pub caps: Seq<Seq<char>>,
}

/// A node that consumes one character when `hit` holds, and otherwise misses.
pub open spec fn single_char_step(hit: bool, caps: Seq<Seq<char>>) -> MatchStep {
    MatchStep { consumed: if hit { Some(1nat) } else { None }, caps }
}

/// What one node consumes from the subject tail `s`, given the capture list
/// `caps`, and the capture list afterwards.
pub open spec fn spec_match_some(m: SpecMatcher, s: Seq<char>, caps: Seq<Seq<char>>) -> MatchStep
    decreases node_size(m), s.len(), 1int,
{
    match m {
        SpecMatcher::StartOfLine => MatchStep { consumed: Some(0nat), caps },
        SpecMatcher::EndOfLine => MatchStep { consumed: Some(0nat), caps },
        SpecMatcher::GroupStart => MatchStep { consumed: Some(0nat), caps },
        SpecMatcher::GroupEnd => MatchStep { consumed: Some(0nat), caps },
        SpecMatcher::Alteration => MatchStep { consumed: Some(0nat), caps },
        SpecMatcher::WordChar => single_char_step(s.len() > 0 && is_word_char(s[0]), caps),
        SpecMatcher::Digit => single_char_step(s.len() > 0 && is_ascii_digit(s[0]), caps),
        SpecMatcher::PositiveCharGroup(g) => single_char_step(s.len() > 0 && g.contains(s[0]), caps),
        SpecMatcher::NegativeCharGroup(g) => single_char_step(s.len() > 0 && !g.contains(s[0]), caps),
        SpecMatcher::Literal(c) => single_char_step(s.len() > 0 && s[0] == c, caps),
        SpecMatcher::Wildcard => single_char_step(s.len() > 0, caps),
        SpecMatcher::OneOrMore(inner) => spec_match_repeat(*inner, s, caps),
        SpecMatcher::ZeroOrOne(inner) => {
            let t = spec_match_some(*inner, s, caps);
            if t.consumed is Some {
                t
            } else {
                MatchStep { consumed: Some(0nat), caps: t.caps }
            }
        },
        SpecMatcher::Group(left, right) => {
            let lt = spec_match_group(left, s, caps);
            if lt.consumed is Some {
                lt
            } else {
                spec_match_group(right, s, lt.caps)
            }
        },
        SpecMatcher::Backreference(n) => {
            if 1 <= n && n <= caps.len() && caps[n - 1].len() <= s.len() && s.take(
                caps[n - 1].len() as int,
            ) == caps[n - 1] {
                MatchStep { consumed: Some(caps[n - 1].len()), caps }
            } else {
                MatchStep { consumed: None, caps }
            }
        },
    }
}

/// Greedy repetition of `inner` (the meaning of `+`): repetitions are matched
/// in turn, each against the tail the previous one left, until one misses,
/// the subject is exhausted, or a repetition consumes nothing; it succeeds
/// exactly when the first repetition does.
pub open spec fn spec_match_repeat(inner: SpecMatcher, s: Seq<char>, caps: Seq<Seq<char>>) -> MatchStep
    decreases node_size(inner), s.len(), 3int,
{
    let first = spec_match_some(inner, s, caps);
    match first.consumed {
        None => MatchStep { consumed: None, caps: first.caps },
        Some(k) => {
            if k == 0 || k >= s.len() {
                MatchStep { consumed: Some(k), caps: first.caps }
            } else {
                let rest = spec_match_repeat(inner, s.skip(k as int), first.caps);
                match rest.consumed {
                    None => MatchStep { consumed: Some(k), caps: rest.caps },
                    Some(k2) => MatchStep { consumed: Some((k + k2) as nat), caps: rest.caps },
                }
            }
        },
    }
}

/// A sequence of nodes matched in order, each against the tail the previous
/// ones left; it consumes the sum, and misses as soon as one node misses.
pub open spec fn spec_match_walk(nodes: Seq<SpecMatcher>, s: Seq<char>, caps: Seq<Seq<char>>) -> MatchStep
    decreases seq_size(nodes), s.len(), 2int,
    via spec_match_walk_decreases
{
    if nodes.len() == 0 {
        MatchStep { consumed: Some(0nat), caps }
    } else {
        let first = spec_match_some(nodes[0], s, caps);
        match first.consumed {
            None => MatchStep { consumed: None, caps: first.caps },
            Some(k) => {
                let rest = spec_match_walk(nodes.drop_first(), s.skip(k as int), first.caps);
                match rest.consumed {
                    None => MatchStep { consumed: None, caps: rest.caps },
                    Some(k2) => MatchStep { consumed: Some((k + k2) as nat), caps: rest.caps },
                }
            },
        }
    }
}

/// The image of each leaf node under `matcher_view`, spelled out for use at
/// the places where a node is built.
pub proof fn lemma_view_leaves(c: char, n: usize)
    ensures
        matcher_view(Matcher::StartOfLine) == SpecMatcher::StartOfLine,
        matcher_view(Matcher::EndOfLine) == SpecMatcher::EndOfLine,
        matcher_view(Matcher::WordChar) == SpecMatcher::WordChar,
        matcher_view(Matcher::Digit) == SpecMatcher::Digit,
        matcher_view(Matcher::Wildcard) == SpecMatcher::Wildcard,
        matcher_view(Matcher::GroupStart) == SpecMatcher::GroupStart,
        matcher_view(Matcher::GroupEnd) == SpecMatcher::GroupEnd,
        matcher_view(Matcher::Alteration) == SpecMatcher::Alteration,
        matcher_view(Matcher::Literal(c)) == SpecMatcher::Literal(c),
        matcher_view(Matcher::Backreference(n)) == SpecMatcher::Backreference(n),
{
}

/// The image of a bracket-class node under `matcher_view`.
pub proof fn lemma_view_char_groups(g: Vec<char>)
    ensures
        matcher_view(Matcher::PositiveCharGroup(g)) == SpecMatcher::PositiveCharGroup(g@),
        matcher_view(Matcher::NegativeCharGroup(g)) == SpecMatcher::NegativeCharGroup(g@),
{
}

/// The image of a quantifier node under `matcher_view`.
pub proof fn lemma_view_quantifiers(inner: Matcher)
    ensures
        matcher_view(Matcher::OneOrMore(Box::new(inner))) == SpecMatcher::OneOrMore(
            Box::new(matcher_view(inner)),
        ),
        matcher_view(Matcher::ZeroOrOne(Box::new(inner))) == SpecMatcher::ZeroOrOne(
            Box::new(matcher_view(inner)),
        ),
{
}

/// The image of a group node under `matcher_view`.
pub proof fn lemma_view_group(left: Vec<Matcher>, right: Vec<Matcher>)
    ensures
        matcher_view(Matcher::Group(left, right)) == SpecMatcher::Group(
            views_of(left@),
            views_of(right@),
        ),
{
}

/// `matcher_view` maps each constructor to its namesake.
pub proof fn lemma_view_variant(m: Matcher)
    ensures
        (m is StartOfLine) == (matcher_view(m) is StartOfLine),
        (m is EndOfLine) == (matcher_view(m) is EndOfLine),
        (m is WordChar) == (matcher_view(m) is WordChar),
        (m is Digit) == (matcher_view(m) is Digit),
        (m is PositiveCharGroup) == (matcher_view(m) is PositiveCharGroup),
        (m is NegativeCharGroup) == (matcher_view(m) is NegativeCharGroup),
        (m is Literal) == (matcher_view(m) is Literal),
        (m is OneOrMore) == (matcher_view(m) is OneOrMore),
        (m is ZeroOrOne) == (matcher_view(m) is ZeroOrOne),
        (m is Wildcard) == (matcher_view(m) is Wildcard),
        (m is GroupStart) == (matcher_view(m) is GroupStart),
        (m is GroupEnd) == (matcher_view(m) is GroupEnd),
        (m is Alteration) == (matcher_view(m) is Alteration),
        (m is Group) == (matcher_view(m) is Group),
        (m is Backreference) == (matcher_view(m) is Backreference),
{
}

/// Mapping a pushed node commutes with `views_of`.
pub proof fn lemma_views_of_push(ms: Seq<Matcher>, m: Matcher)
    ensures
        views_of(ms.push(m)) == views_of(ms).push(matcher_view(m)),
{
    lemma_views_of(ms);
    lemma_views_of(ms.push(m));
    assert(views_of(ms.push(m)) =~= views_of(ms).push(matcher_view(m)));
}

/// Dropping the last node commutes with `views_of`.
pub proof fn lemma_views_of_drop_last(ms: Seq<Matcher>)
    requires
        ms.len() > 0,
    ensures
        views_of(ms.drop_last()) == views_of(ms).drop_last(),
        views_of(ms).last() == matcher_view(ms.last()),
{
    lemma_views_of(ms);
    lemma_views_of(ms.drop_last());
    assert(views_of(ms.drop_last()) =~= views_of(ms).drop_last());
}

/// Taking a subrange commutes with `views_of`.
pub proof fn lemma_views_of_subrange(ms: Seq<Matcher>, a: int, b: int)
    requires
        0 <= a <= b <= ms.len(),
    ensures
        views_of(ms.subrange(a, b)) == views_of(ms).subrange(a, b),
{
    lemma_views_of(ms);
    lemma_views_of(ms.subrange(a, b));
    assert(views_of(ms.subrange(a, b)) =~= views_of(ms).subrange(a, b));
}

/// The image of the empty node sequence is empty.
pub proof fn lemma_views_of_empty()
    ensures
        views_of(Seq::<Matcher>::empty()) == Seq::<SpecMatcher>::empty(),
{
    lemma_views_of(Seq::<Matcher>::empty());
    assert(views_of(Seq::<Matcher>::empty()) =~= Seq::<SpecMatcher>::empty());
}

/// Every tree has at least its root node.
pub proof fn lemma_node_size_pos(m: SpecMatcher)
    ensures
        node_size(m) >= 1,
{
}

#[via_fn]
proof fn spec_match_walk_decreases(nodes: Seq<SpecMatcher>, s: Seq<char>, caps: Seq<Seq<char>>) {
    if nodes.len() > 0 {
        lemma_node_size_pos(nodes[0]);
        assert(seq_size(nodes) == node_size(nodes[0]) + seq_size(nodes.drop_first()));
    }
}

/// One alternative of a group (the meaning of one side of `(...|...)`): an
/// empty side always misses; a non-empty side is walked in order and, on a
/// hit, appends the matched span to the capture list.
pub open spec fn spec_match_group(nodes: Seq<SpecMatcher>, s: Seq<char>, caps: Seq<Seq<char>>) -> MatchStep
    decreases seq_size(nodes), s.len(), 3int,
{
    if nodes.len() == 0 {
        MatchStep { consumed: None, caps }
    } else {
        let w = spec_match_walk(nodes, s, caps);
        match w.consumed {
            None => MatchStep { consumed: None, caps: w.caps },
            Some(k) => MatchStep { consumed: Some(k), caps: w.caps.push(s.take(k as int)) },
        }
    }
}

/// Whatever a node consumes fits in the subject tail.
pub proof fn lemma_match_some_bound(m: SpecMatcher, s: Seq<char>, caps: Seq<Seq<char>>)
    ensures
        match spec_match_some(m, s, caps).consumed {
            Some(k) => k <= s.len(),
            None => true,
        },
    decreases node_size(m), s.len(), 1int,
{
    match m {
        SpecMatcher::OneOrMore(inner) => {
            lemma_match_repeat_bound(*inner, s, caps);
        },
        SpecMatcher::ZeroOrOne(inner) => {
            lemma_match_some_bound(*inner, s, caps);
        },
        SpecMatcher::Group(left, right) => {
            lemma_match_group_bound(left, s, caps);
            let lt = spec_match_group(left, s, caps);
            if lt.consumed is None {
                lemma_match_group_bound(right, s, lt.caps);
            }
        },
        _ => {},
    }
}

/// Whatever a repetition consumes fits in the subject tail.
pub proof fn lemma_match_repeat_bound(inner: SpecMatcher, s: Seq<char>, caps: Seq<Seq<char>>)
    ensures
        match spec_match_repeat(inner, s, caps).consumed {
            Some(k) => k <= s.len(),
            None => true,
        },
    decreases node_size(inner), s.len(), 3int,
{
    lemma_match_some_bound(inner, s, caps);
    let first = spec_match_some(inner, s, caps);
    match first.consumed {
        Some(k) => {
            if k != 0 && k < s.len() {
                lemma_match_repeat_bound(inner, s.skip(k as int), first.caps);
            }
        },
        None => {},
    }
}

/// Whatever a node sequence consumes fits in the subject tail.
pub proof fn lemma_match_walk_bound(nodes: Seq<SpecMatcher>, s: Seq<char>, caps: Seq<Seq<char>>)
    ensures
        match spec_match_walk(nodes, s, caps).consumed {
            Some(k) => k <= s.len(),
            None => true,
        },
    decreases seq_size(nodes), s.len(), 2int,
{
    if nodes.len() > 0 {
        lemma_node_size_pos(nodes[0]);
        lemma_match_some_bound(nodes[0], s, caps);
        let first = spec_match_some(nodes[0], s, caps);
        match first.consumed {
            Some(k) => {
                lemma_match_walk_bound(nodes.drop_first(), s.skip(k as int), first.caps);
            },
            None => {},
        }
    }
}

/// Whatever a group alternative consumes fits in the subject tail.
pub proof fn lemma_match_group_bound(nodes: Seq<SpecMatcher>, s: Seq<char>, caps: Seq<Seq<char>>)
    ensures
        match spec_match_group(nodes, s, caps).consumed {
            Some(k) => k <= s.len(),
            None => true,
        },
    decreases seq_size(nodes), s.len(), 3int,
{
    if nodes.len() > 0 {
        lemma_match_walk_bound(nodes, s, caps);
    }
}

/// Whether `c` occurs in `g`.
fn vec_contains_char(g: &Vec<char>, c: char) -> (r: bool)
    ensures
        r == g@.contains(c),
{
    let mut i: usize = 0;
    while i < g.len()
        invariant
            i <= g@.len(),
            forall|j: int| 0 <= j < i ==> g@[j] != c,
        decreases g@.len() - i,
    {
        if g[i] == c {
            return true;
        }
        i += 1;
    }
    false
}

/// A copy of `s[from..to]` as a fresh vector.
pub(crate) fn copy_range(s: &Vec<char>, from: usize, to: usize) -> (r: Vec<char>)
    requires
        from <= to <= s@.len(),
    ensures
        r@ == s@.subrange(from as int, to as int),
{
    let mut out: Vec<char> = Vec::new();
    let mut i: usize = from;
    while i < to
        invariant
            from <= i <= to,
            to <= s@.len(),
            out@ == s@.subrange(from as int, i as int),
        decreases to - i,
    {
        out.push(s[i]);
        proof {
            assert(s@.subrange(from as int, i + 1) =~= s@.subrange(from as int, i as int).push(
                s@[i as int],
            ));
        }
        i += 1;
    }
    out
}

/// Whether the subject, from `pos` on, starts with the text `p`.
fn prefix_matches_at(s: &Vec<char>, pos: usize, p: &Vec<char>) -> (r: bool)
    requires
        pos <= s@.len(),
    ensures
        r == (pos + p@.len() <= s@.len() && s@.subrange(pos as int, pos + p@.len()) == p@),
{
    if p.len() > s.len() - pos {
        return false;
    }
    let mut i: usize = 0;
    while i < p.len()
        invariant
            pos + p@.len() <= s@.len(),
            s@.len() <= usize::MAX,
            i <= p@.len(),
            forall|j: int| 0 <= j < i ==> s@[pos + j] == p@[j],
        decreases p@.len() - i,
    {
        if s[pos + i] != p[i] {
            proof {
                assert(s@.subrange(pos as int, pos + p@.len())[i as int] != p@[i as int]);
            }
            return false;
        }
        i += 1;
    }
    proof {
        assert(s@.subrange(pos as int, pos + p@.len()) =~= p@);
    }
    true
}

impl Matcher {
    /// What this node consumes from the subject at `pos`, appending any
    /// captures that groups below it record; `None` on a miss.
    pub fn match_some(&self, s: &Vec<char>, pos: usize, caps: &mut Vec<Vec<char>>) -> (r: Option<
        usize,
    >)
        requires
            pos <= s@.len(),
        ensures
            ({
                let step = spec_match_some(self@, s@.skip(pos as int), old(caps).deep_view());
                &&& final(caps).deep_view() == step.caps
                &&& match r {
                    Some(k) => step.consumed == Some(k as nat) && pos + k <= s@.len(),
                    None => step.consumed is None,
                }
            }),
        decreases node_size(self@), s@.len() - pos, 1int,
    {
        proof {
            assert(s@.skip(pos as int).len() == s@.len() - pos);
        }
        match self {
            Matcher::StartOfLine => Some(0),
            Matcher::EndOfLine => Some(0),
            Matcher::GroupStart => Some(0),
            Matcher::GroupEnd => Some(0),
            Matcher::Alteration => Some(0),
            Matcher::WordChar => {
                if pos < s.len() {
                    let c: char = s[pos];
                    proof {
                        assert(s@.skip(pos as int)[0] == s@[pos as int]);
                    }
                    if ('a' <= c && c <= 'z') || ('A' <= c && c <= 'Z') || c == '_' {
                        Some(1)
                    } else {
                        None
                    }
                } else {
                    None
                }
            },
            Matcher::Digit => {
                if pos < s.len() {
                    let c: char = s[pos];
                    proof {
                        assert(s@.skip(pos as int)[0] == s@[pos as int]);
                    }
                    if '0' <= c && c <= '9' {
                        Some(1)
                    } else {
                        None
                    }
                } else {
                    None
                }
            },
            Matcher::PositiveCharGroup(g) => {
                if pos < s.len() {
                    proof {
                        assert(s@.skip(pos as int)[0] == s@[pos as int]);
                    }
                    if vec_contains_char(g, s[pos]) {
                        Some(1)
                    } else {
                        None
                    }
                } else {
                    None
                }
            },
            Matcher::NegativeCharGroup(g) => {
                if pos < s.len() {
                    proof {
                        assert(s@.skip(pos as int)[0] == s@[pos as int]);
                    }
                    if vec_contains_char(g, s[pos]) {
                        None
                    } else {
                        Some(1)
                    }
                } else {
                    None
                }
            },
            Matcher::Literal(c) => {
                if pos < s.len() {
                    proof {
                        assert(s@.skip(pos as int)[0] == s@[pos as int]);
                    }
                    if s[pos] == *c {
                        Some(1)
                    } else {
                        None
                    }
                } else {
                    None
                }
            },
            Matcher::Wildcard => {
                if pos < s.len() {
                    Some(1)
                } else {
                    None
                }
            },
            Matcher::OneOrMore(inner) => Self::match_sequence(&**inner, s, pos, caps),
            Matcher::ZeroOrOne(inner) => {
                let t = (&**inner).match_some(s, pos, caps);
                match t {
                    Some(k) => Some(k),
                    None => Some(0),
                }
            },
            Matcher::Group(left, right) => {
                let lr = Self::match_group(left, s, pos, caps);
                match lr {
                    Some(k) => Some(k),
                    None => Self::match_group(right, s, pos, caps),
                }
            },
            Matcher::Backreference(n) => {
                let n: usize = *n;
                if 1 <= n && n <= caps.len() {
                    proof {
                        assert(old(caps).deep_view()[n - 1] == old(caps)@[n - 1]@);
                        let cap = old(caps)@[n - 1]@;
                        if cap.len() <= s@.len() - pos {
                            assert(s@.skip(pos as int).take(cap.len() as int) =~= s@.subrange(
                                pos as int,
                                pos + cap.len(),
                            ));
                        }
                    }
                    if prefix_matches_at(s, pos, &caps[n - 1]) {
                        Some(caps[n - 1].len())
                    } else {
                        None
                    }
                } else {
                    None
                }
            },
        }
    }

    /// Greedy repetition of `matcher` from `pos` (the engine of `+`).
    pub fn match_sequence(
        matcher: &Matcher,
        s: &Vec<char>,
        pos: usize,
        caps: &mut Vec<Vec<char>>,
    ) -> (r: Option<usize>)
        requires
            pos <= s@.len(),
        ensures
            ({
                let step = spec_match_repeat(matcher@, s@.skip(pos as int), old(caps).deep_view());
                &&& final(caps).deep_view() == step.caps
                &&& match r {
                    Some(k) => step.consumed == Some(k as nat) && pos + k <= s@.len(),
                    None => step.consumed is None,
                }
            }),
        decreases node_size(matcher@), s@.len() - pos, 3int,
    {
        let n: usize = s.len();
        let first = matcher.match_some(s, pos, caps);
        match first {
            None => None,
            Some(k) => {
                if k == 0 || pos + k >= n {
                    Some(k)
                } else {
                    proof {
                        assert(s@.skip(pos as int).skip(k as int) =~= s@.skip(pos + k));
                    }
                    let rest = Self::match_sequence(matcher, s, pos + k, caps);
                    match rest {
                        None => Some(k),
                        Some(k2) => Some(k + k2),
                    }
                }
            },
        }
    }

    /// The nodes of `matchers` from index `from` on, matched in order from
    /// `pos`; consumes the sum, `None` as soon as one misses.
    pub fn match_walk(
        matchers: &Vec<Matcher>,
        from: usize,
        s: &Vec<char>,
        pos: usize,
        caps: &mut Vec<Vec<char>>,
    ) -> (r: Option<usize>)
        requires
            from <= matchers@.len(),
            pos <= s@.len(),
        ensures
            ({
                let step = spec_match_walk(
                    views_of(matchers@.skip(from as int)),
                    s@.skip(pos as int),
                    old(caps).deep_view(),
                );
                &&& final(caps).deep_view() == step.caps
                &&& match r {
                    Some(k) => step.consumed == Some(k as nat) && pos + k <= s@.len(),
                    None => step.consumed is None,
                }
            }),
        decreases seq_size(views_of(matchers@.skip(from as int))), s@.len() - pos, 2int,
    {
        let n: usize = s.len();
        proof {
            lemma_views_of(matchers@.skip(from as int));
        }
        if from >= matchers.len() {
            return Some(0);
        }
        proof {
            lemma_views_of(matchers@.skip(from as int + 1));
            assert(matchers@.skip(from as int)[0] == matchers@[from as int]);
            assert(views_of(matchers@.skip(from as int)).drop_first() =~= views_of(
                matchers@.skip(from as int + 1),
            ));
            lemma_node_size_pos(matcher_view(matchers@[from as int]));
        }
        let first = matchers[from].match_some(s, pos, caps);
        match first {
            None => None,
            Some(k) => {
                proof {
                    assert(s@.skip(pos as int).skip(k as int) =~= s@.skip(pos + k));
                }
                let rest = Self::match_walk(matchers, from + 1, s, pos + k, caps);
                match rest {
                    None => None,
                    Some(k2) => Some(k + k2),
                }
            },
        }
    }

    /// One alternative of a group: its nodes matched in order from `pos`; on
    /// a hit the matched span is appended to the capture list.
    pub fn match_group(
        matchers: &Vec<Matcher>,
        s: &Vec<char>,
        pos: usize,
        caps: &mut Vec<Vec<char>>,
    ) -> (r: Option<usize>)
        requires
            pos <= s@.len(),
        ensures
            ({
                let step = spec_match_group(
                    views_of(matchers@),
                    s@.skip(pos as int),
                    old(caps).deep_view(),
                );
                &&& final(caps).deep_view() == step.caps
                &&& match r {
                    Some(k) => step.consumed == Some(k as nat) && pos + k <= s@.len(),
                    None => step.consumed is None,
                }
            }),
        decreases seq_size(views_of(matchers@)), s@.len() - pos, 3int,
    {
        let n: usize = s.len();
        proof {
            lemma_views_of(matchers@);
        }
        if matchers.len() == 0 {
            return None;
        }
        proof {
            assert(matchers@.skip(0) =~= matchers@);
        }
        let w = Self::match_walk(matchers, 0, s, pos, caps);
        match w {
            None => None,
            Some(k) => {
                let ghost caps_before = caps.deep_view();
                let cap = copy_range(s, pos, pos + k);
                caps.push(cap);
                proof {
                    assert(s@.skip(pos as int).take(k as int) =~= s@.subrange(pos as int, pos + k));
                    assert(cap.deep_view() =~= cap@);
                    assert(caps.deep_view() =~= caps_before.push(cap@));
                }
                Some(k)
            },
        }
    }
}

/// The nodes that consume exactly one character on a hit: classes, a
/// literal, and the wildcard.
pub open spec fn is_single_char_node(m: SpecMatcher) -> bool {
    ||| m is WordChar
    ||| m is Digit
    ||| m is PositiveCharGroup
    ||| m is NegativeCharGroup
    ||| m is Literal
    ||| m is Wildcard
}

/// Whether a single-character node accepts the character `c`.
pub open spec fn single_char_hit(m: SpecMatcher, c: char) -> bool {
    match m {
        SpecMatcher::WordChar => is_word_char(c),
        SpecMatcher::Digit => is_ascii_digit(c),
        SpecMatcher::PositiveCharGroup(g) => g.contains(c),
        SpecMatcher::NegativeCharGroup(g) => !g.contains(c),
        SpecMatcher::Literal(l) => c == l,
        SpecMatcher::Wildcard => true,
        _ => false,
    }
}

/// Greedy repetition of a single-character node succeeds on a tail exactly
/// when the node accepts the tail's first character, and never touches the
/// capture list.
pub proof fn lemma_repeat_single(m: SpecMatcher, t: Seq<char>, caps: Seq<Seq<char>>)
    requires
        is_single_char_node(m),
    ensures
        ({
            let r = spec_match_repeat(m, t, caps);
            &&& r.caps == caps
            &&& (r.consumed is Some <==> (t.len() > 0 && single_char_hit(m, t[0])))
        }),
    decreases t.len(),
{
    let hit = t.len() > 0 && single_char_hit(m, t[0]);
    match m {
        SpecMatcher::WordChar => {
            assert(spec_match_some(m, t, caps) == single_char_step(hit, caps));
        },
        SpecMatcher::Digit => {
            assert(spec_match_some(m, t, caps) == single_char_step(hit, caps));
        },
        SpecMatcher::PositiveCharGroup(g) => {
            assert(spec_match_some(m, t, caps) == single_char_step(hit, caps));
        },
        SpecMatcher::NegativeCharGroup(g) => {
            assert(spec_match_some(m, t, caps) == single_char_step(hit, caps));
        },
        SpecMatcher::Literal(l) => {
            assert(spec_match_some(m, t, caps) == single_char_step(hit, caps));
        },
        SpecMatcher::Wildcard => {
            assert(spec_match_some(m, t, caps) == single_char_step(hit, caps));
        },
        _ => {},
    }
    if t.len() > 1 && single_char_hit(m, t[0]) {
        lemma_repeat_single(m, t.skip(1), caps);
    }
}

/// A pattern consisting of one greedy repetition of a single-character node
/// matches a tail exactly when the node accepts the tail's first character.
pub proof fn lemma_one_or_more_walk(m: SpecMatcher, t: Seq<char>, caps: Seq<Seq<char>>)
    requires
        is_single_char_node(m),
    ensures
        ({
            let w = spec_match_walk(seq![SpecMatcher::OneOrMore(Box::new(m))], t, caps);
            &&& w.caps == caps
            &&& (w.consumed is Some <==> (t.len() > 0 && single_char_hit(m, t[0])))
        }),
{
    let nodes = seq![SpecMatcher::OneOrMore(Box::new(m))];
    lemma_repeat_single(m, t, caps);
    assert(nodes[0] == SpecMatcher::OneOrMore(Box::new(m)));
    assert(nodes.drop_first() =~= Seq::<SpecMatcher>::empty());
    assert(spec_match_some(nodes[0], t, caps) == spec_match_repeat(m, t, caps));
    let first = spec_match_some(nodes[0], t, caps);
    match first.consumed {
        Some(k) => {
            assert(spec_match_walk(nodes.drop_first(), t.skip(k as int), first.caps)
                == MatchStep { consumed: Some(0nat), caps: first.caps });
        },
        None => {},
    }
}

/// Walking a sequence of literal nodes consumes exactly those characters,
/// succeeds exactly when the tail starts with them, and never touches the
/// capture list.
pub proof fn lemma_literal_walk(
    nodes: Seq<SpecMatcher>,
    q: Seq<char>,
    t: Seq<char>,
    caps: Seq<Seq<char>>,
)
    requires
        nodes.len() == q.len(),
        forall|i: int| 0 <= i < q.len() ==> nodes[i] == SpecMatcher::Literal(#[trigger] q[i]),
    ensures
        ({
            let w = spec_match_walk(nodes, t, caps);
            &&& w.caps == caps
            &&& w.consumed == if q.len() <= t.len() && t.take(q.len() as int) == q {
                Some(q.len())
            } else {
                None::<nat>
            }
        }),
    decreases q.len(),
{
    let w = spec_match_walk(nodes, t, caps);
    if q.len() == 0 {
        assert(t.take(0) =~= q);
        assert(w == MatchStep { consumed: Some(0nat), caps });
    } else {
        assert(nodes[0] == SpecMatcher::Literal(q[0]));
        let first = spec_match_some(nodes[0], t, caps);
        assert(first == single_char_step(t.len() > 0 && t[0] == q[0], caps));
        if t.len() > 0 && t[0] == q[0] {
            assert(w == ({
                let rest = spec_match_walk(nodes.drop_first(), t.skip(1), caps);
                match rest.consumed {
                    None => MatchStep { consumed: None, caps: rest.caps },
                    Some(k2) => MatchStep { consumed: Some((1 + k2) as nat), caps: rest.caps },
                }
            }));
            assert forall|i: int| 0 <= i < q.drop_first().len() implies nodes.drop_first()[i]
                == SpecMatcher::Literal(#[trigger] q.drop_first()[i]) by {
                assert(q.drop_first()[i] == q[i + 1]);
                assert(nodes.drop_first()[i] == nodes[i + 1]);
            }
            lemma_literal_walk(nodes.drop_first(), q.drop_first(), t.skip(1), caps);
            if q.len() <= t.len() && t.skip(1).take(q.len() - 1) == q.drop_first() {
                assert(t.take(q.len() as int) =~= q) by {
                    assert forall|j: int| 0 <= j < q.len() implies t.take(q.len() as int)[j]
                        == q[j] by {
                        if j > 0 {
                            assert(t.skip(1).take(q.len() - 1)[j - 1] == q.drop_first()[j - 1]);
                        }
                    }
                }
            }
            if t.take(q.len() as int) == q && q.len() <= t.len() {
                assert(t.skip(1).take(q.len() - 1) =~= q.drop_first()) by {
                    assert forall|j: int| 0 <= j < q.len() - 1 implies t.skip(1).take(
                        q.len() - 1,
                    )[j] == q.drop_first()[j] by {
                        assert(t.take(q.len() as int)[j + 1] == q[j + 1]);
                    }
                }
            }
        } else {
            assert(w == MatchStep { consumed: None, caps });
            if q.len() <= t.len() && t.take(q.len() as int) == q {
                assert(t.take(q.len() as int)[0] == t[0]);
                assert(false);
            }
        }
    }
}

} // verus!

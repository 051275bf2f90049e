//! The pattern compiler: a left-to-right scan that turns a pattern string
//! into an [`Expression`], tracking open groups on a stack and splicing the
//! accumulated node sequence into a group node on each close.

use vstd::prelude::*;

use crate::expression::Expression;
use crate::expression::SpecExpression;
use crate::matcher::Matcher;
use crate::matcher::SpecMatcher;
use crate::matcher::is_ascii_digit;
use crate::matcher::lemma_view_group;
use crate::matcher::lemma_view_quantifiers;
use crate::matcher::lemma_view_variant;
use crate::matcher::lemma_views_of;
use crate::matcher::lemma_views_of_drop_last;
use crate::matcher::lemma_views_of_empty;
use crate::matcher::lemma_views_of_push;
use crate::matcher::lemma_views_of_subrange;
use crate::matcher::matcher_view;
use crate::matcher::views_of;

verus! {

/// Why a pattern was rejected. All failures are compile-time failures: the
/// matcher itself never errors, it only reports "no match".
#[derive(Debug, Clone, Copy, PartialEq, Eq, Structural)]
pub enum CompileError {
    /// No recognized token at the current scan position (an unterminated
    /// bracket class).
    MalformedPattern,
    /// A `(` with no matching `)` by the end of the pattern.
    UnclosedGroup,
    /// A `)` with no open `(`.
    StrayGroupClose,
    /// A second `|` inside the same group, or a `|` outside any group.
    DoubleAlternation,
    /// A `\n` whose number exceeds the count of groups closed so far.
    InvalidBackreference,
    /// A `+` or `?` with no preceding node to wrap.
    DanglingQuantifier,
}

/// A still-open group while compiling: where its node sequence begins in the
/// accumulated sequence and, once a `|` was seen, where its right-hand
/// alternative begins.
#[derive(Debug, Clone, Copy)]
pub struct GroupFrame {
    pub start_index: usize,
    pub alternative_index: Option<usize>,
}

/// Index of the first occurrence of `c` in `p` at or after `from`, if any.
pub open spec fn spec_find_char(p: Seq<char>, from: int, c: char) -> Option<int>
    decreases p.len() - from,
{
    if from < 0 || from >= p.len() {
        None
    } else if p[from] == c {
        Some(from)
    } else {
        spec_find_char(p, from + 1, c)
    }
}

/// A found occurrence lies in range, holds `c`, and is the first one.
pub proof fn lemma_find_char(p: Seq<char>, from: int, c: char)
    requires
        0 <= from,
    ensures
        match spec_find_char(p, from, c) {
            Some(j) => from <= j < p.len() && p[j] == c && forall|t: int|
                from <= t < j ==> p[t] != c,
            None => forall|t: int| from <= t < p.len() ==> p[t] != c,
        },
    decreases p.len() - from,
{
    if 0 <= from < p.len() && p[from] != c {
        lemma_find_char(p, from + 1, c);
    }
}

/// Index just past the run of decimal digits that starts at `from`.
pub open spec fn spec_digit_run_end(p: Seq<char>, from: int) -> int
    decreases p.len() - from,
{
    if from < 0 || from >= p.len() || !is_ascii_digit(p[from]) {
        from
    } else {
        spec_digit_run_end(p, from + 1)
    }
}

/// The run end lies between `from` and the pattern's end, everything in the
/// run is a digit, and the run stops at a non-digit.
pub proof fn lemma_digit_run_end(p: Seq<char>, from: int)
    requires
        0 <= from <= p.len(),
    ensures
        from <= spec_digit_run_end(p, from) <= p.len(),
        forall|t: int| from <= t < spec_digit_run_end(p, from) ==> is_ascii_digit(p[t]),
        spec_digit_run_end(p, from) < p.len() ==> !is_ascii_digit(p[spec_digit_run_end(p, from)]),
    decreases p.len() - from,
{
    if from < p.len() && is_ascii_digit(p[from]) {
        lemma_digit_run_end(p, from + 1);
    }
}

/// Numeric value of one decimal digit character.
pub open spec fn digit_val(c: char) -> nat {
    ((c as u32) - 48) as nat
}

/// Value of the decimal digits `p[from..to]`, most significant first.
pub open spec fn spec_digits_value(p: Seq<char>, from: int, to: int) -> nat
    decreases to - from,
{
    if to <= from {
        0
    } else {
        spec_digits_value(p, from, to - 1) * 10 + digit_val(p[to - 1])
    }
}

/// What a backreference token at `i` denotes: a backslash followed by at
/// least one digit whose value fits a `usize` yields the value and the
/// token's length (digits plus the backslash); anything else is no token.
pub open spec fn spec_parse_backreference(p: Seq<char>, i: int) -> Option<(usize, nat)> {
    if 0 <= i < p.len() && p[i] == '\\' {
        let end = spec_digit_run_end(p, i + 1);
        if end == i + 1 {
            None
        } else {
            let v = spec_digits_value(p, i + 1, end);
            if v > usize::MAX {
                None
            } else {
                Some((v as usize, (end - i) as nat))
            }
        }
    } else {
        None
    }
}

/// The token recognized at position `i` of the pattern, with its length, in
/// the scanner's priority order; `None` where no token form fits (an
/// unterminated bracket class, or a quantifier, which the compiling loop
/// handles itself by wrapping the preceding node).
pub open spec fn spec_try_parse(p: Seq<char>, i: int) -> Option<(SpecMatcher, nat)> {
    if p[i] == '^' {
        Some((SpecMatcher::StartOfLine, 1nat))
    } else if p[i] == '$' {
        Some((SpecMatcher::EndOfLine, 1nat))
    } else if p[i] == '\\' && i + 1 < p.len() && p[i + 1] == 'd' {
        Some((SpecMatcher::Digit, 2nat))
    } else if p[i] == '\\' && i + 1 < p.len() && p[i + 1] == 'w' {
        Some((SpecMatcher::WordChar, 2nat))
    } else {
        match spec_parse_backreference(p, i) {
            Some((n, len)) => Some((SpecMatcher::Backreference(n), len)),
            None => {
                if i + 1 < p.len() && p[i] == '[' && p[i + 1] == '^' {
                    match spec_find_char(p, i + 2, ']') {
                        Some(end) => Some(
                            (SpecMatcher::NegativeCharGroup(p.subrange(i + 2, end)), (end + 1
                                - i) as nat),
                        ),
                        None => None,
                    }
                } else if p[i] == '[' {
                    match spec_find_char(p, i + 1, ']') {
                        Some(end) => Some(
                            (SpecMatcher::PositiveCharGroup(p.subrange(i + 1, end)), (end + 1
                                - i) as nat),
                        ),
                        None => None,
                    }
                } else if p[i] == '+' || p[i] == '?' {
                    None
                } else if p[i] == '.' {
                    Some((SpecMatcher::Wildcard, 1nat))
                } else if p[i] == '(' {
                    Some((SpecMatcher::GroupStart, 1nat))
                } else if p[i] == ')' {
                    Some((SpecMatcher::GroupEnd, 1nat))
                } else if p[i] == '|' {
                    Some((SpecMatcher::Alteration, 1nat))
                } else {
                    Some((SpecMatcher::Literal(p[i]), 1nat))
                }
            },
        }
    }
}

/// A recognized token is at least one character long and ends within the
/// pattern.
pub proof fn lemma_try_parse_len(p: Seq<char>, i: int)
    requires
        0 <= i < p.len(),
    ensures
        match spec_try_parse(p, i) {
            Some((m, len)) => 1 <= len && i + len <= p.len(),
            None => true,
        },
{
    lemma_digit_run_end(p, i + 1);
    lemma_find_char(p, i + 2, ']');
    lemma_find_char(p, i + 1, ']');
}

/// How many closed groups stand in the accumulated top-level node sequence.
pub open spec fn spec_count_groups(ms: Seq<SpecMatcher>) -> nat
    decreases ms.len(),
{
    if ms.len() == 0 {
        0
    } else {
        spec_count_groups(ms.drop_last()) + if ms.last() is Group {
            1nat
        } else {
            0nat
        }
    }
}

/// The compiling scan's running state: the node sequence so far, the two
/// anchor flags, and the stack of still-open groups.
pub struct CompState {
    pub matchers: Seq<SpecMatcher>,
    pub start_of_line: bool,
    pub end_of_line: bool,
    pub frames: Seq<GroupFrame>,
}

/// The empty state the scan starts from.
pub open spec fn initial_comp_state() -> CompState {
    CompState {
        matchers: Seq::empty(),
        start_of_line: false,
        end_of_line: false,
        frames: Seq::empty(),
    }
}

/// What compiling the rest of the pattern, from position `i` in state `st`,
/// yields. One step recognizes one token and transforms the state exactly as
/// described in the arms below; the scan fails fast on the first bad token.
pub open spec fn spec_compile_from(p: Seq<char>, i: nat, st: CompState) -> Result<
    SpecExpression,
    CompileError,
>
    decreases p.len() - i,
    via spec_compile_from_decreases
{
    if i >= p.len() {
        if st.frames.len() > 0 {
            Err(CompileError::UnclosedGroup)
        } else {
            Ok(
                SpecExpression {
                    matchers: st.matchers,
                    start_of_line: st.start_of_line,
                    end_of_line: st.end_of_line,
                },
            )
        }
    } else if p[i as int] == '+' || p[i as int] == '?' {
        if st.matchers.len() == 0 {
            Err(CompileError::DanglingQuantifier)
        } else {
            let wrapped = if p[i as int] == '+' {
                SpecMatcher::OneOrMore(Box::new(st.matchers.last()))
            } else {
                SpecMatcher::ZeroOrOne(Box::new(st.matchers.last()))
            };
            spec_compile_from(
                p,
                i + 1,
                CompState {
                    matchers: st.matchers.drop_last().push(wrapped),
                    start_of_line: st.start_of_line,
                    end_of_line: st.end_of_line,
                    frames: st.frames,
                },
            )
        }
    } else {
        match spec_try_parse(p, i as int) {
            None => Err(CompileError::MalformedPattern),
            Some((m, len)) => {
                let j = i + len;
                match m {
                    SpecMatcher::StartOfLine => spec_compile_from(
                        p,
                        j,
                        CompState {
                            matchers: st.matchers,
                            start_of_line: true,
                            end_of_line: st.end_of_line,
                            frames: st.frames,
                        },
                    ),
                    SpecMatcher::EndOfLine => spec_compile_from(
                        p,
                        j,
                        CompState {
                            matchers: st.matchers,
                            start_of_line: st.start_of_line,
                            end_of_line: true,
                            frames: st.frames,
                        },
                    ),
                    SpecMatcher::GroupStart => spec_compile_from(
                        p,
                        j,
                        CompState {
                            matchers: st.matchers,
                            start_of_line: st.start_of_line,
                            end_of_line: st.end_of_line,
                            frames: st.frames.push(
                                GroupFrame {
                                    start_index: st.matchers.len() as usize,
                                    alternative_index: None,
                                },
                            ),
                        },
                    ),
                    SpecMatcher::Alteration => {
                        if st.frames.len() == 0 {
                            Err(CompileError::DoubleAlternation)
                        } else if st.frames.last().alternative_index is Some {
                            Err(CompileError::DoubleAlternation)
                        } else {
                            spec_compile_from(
                                p,
                                j,
                                CompState {
                                    matchers: st.matchers,
                                    start_of_line: st.start_of_line,
                                    end_of_line: st.end_of_line,
                                    frames: st.frames.drop_last().push(
                                        GroupFrame {
                                            start_index: st.frames.last().start_index,
                                            alternative_index: Some(
                                                st.matchers.len() as usize,
                                            ),
                                        },
                                    ),
                                },
                            )
                        }
                    },
                    SpecMatcher::GroupEnd => {
                        if st.frames.len() == 0 {
                            Err(CompileError::StrayGroupClose)
                        } else {
                            let fr = st.frames.last();
                            let alt = match fr.alternative_index {
                                Some(a) => a as int,
                                None => st.matchers.len() as int,
                            };
                            let right = st.matchers.subrange(alt, st.matchers.len() as int);
                            let left = st.matchers.subrange(fr.start_index as int, alt);
                            spec_compile_from(
                                p,
                                j,
                                CompState {
                                    matchers: st.matchers.take(fr.start_index as int).push(
                                        SpecMatcher::Group(left, right),
                                    ),
                                    start_of_line: st.start_of_line,
                                    end_of_line: st.end_of_line,
                                    frames: st.frames.drop_last(),
                                },
                            )
                        }
                    },
                    SpecMatcher::Backreference(n) => {
                        if spec_count_groups(st.matchers) < n {
                            Err(CompileError::InvalidBackreference)
                        } else {
                            spec_compile_from(
                                p,
                                j,
                                CompState {
                                    matchers: st.matchers.push(m),
                                    start_of_line: st.start_of_line,
                                    end_of_line: st.end_of_line,
                                    frames: st.frames,
                                },
                            )
                        }
                    },
                    _ => spec_compile_from(
                        p,
                        j,
                        CompState {
                            matchers: st.matchers.push(m),
                            start_of_line: st.start_of_line,
                            end_of_line: st.end_of_line,
                            frames: st.frames,
                        },
                    ),
                }
            },
        }
    }
}

#[via_fn]
proof fn spec_compile_from_decreases(p: Seq<char>, i: nat, st: CompState) {
    if i < p.len() {
        lemma_try_parse_len(p, i as int);
    }
}

/// What compiling the whole pattern yields.
pub open spec fn spec_compile(p: Seq<char>) -> Result<SpecExpression, CompileError> {
    spec_compile_from(p, 0, initial_comp_state())
}

/// Whether one frame's indices fit under `bound`.
pub open spec fn frame_ok(f: GroupFrame, bound: int) -> bool {
    &&& f.start_index <= bound
    &&& match f.alternative_index {
        Some(a) => f.start_index <= a <= bound,
        None => true,
    }
}

/// Whether a frame stack is well formed over a node sequence of length `n`:
/// each frame's indices fit under the next frame's start, and the top
/// frame's under `n`.
pub open spec fn frames_wf(fs: Seq<GroupFrame>, n: int) -> bool {
    forall|j: int| 0 <= j < fs.len() ==> frame_ok(
        #[trigger] fs[j],
        if j == fs.len() - 1 {
            n
        } else {
            fs[j + 1].start_index as int
        },
    )
}

/// Whether `c` is a decimal digit.
fn digit_char(c: char) -> (r: bool)
    ensures
        r == is_ascii_digit(c),
{
    '0' <= c && c <= '9'
}

/// First occurrence of `c` in `p` at or after `from`, if any.
fn find_char_from(p: &Vec<char>, from: usize, c: char) -> (r: Option<usize>)
    ensures
        match r {
            Some(j) => spec_find_char(p@, from as int, c) == Some(j as int),
            None => spec_find_char(p@, from as int, c) is None,
        },
{
    let plen: usize = p.len();
    let mut j: usize = from;
    while j < plen
        invariant
            from <= j,
            plen == p@.len(),
            spec_find_char(p@, from as int, c) == spec_find_char(p@, j as int, c),
        decreases plen - j,
    {
        if p[j] == c {
            return Some(j);
        }
        j += 1;
    }
    None
}

/// How many of the nodes in `ms` are closed groups.
fn count_group_matchers(ms: &Vec<Matcher>) -> (r: usize)
    ensures
        r as nat == spec_count_groups(views_of(ms@)),
{
    let mut count: usize = 0;
    let mut j: usize = 0;
    while j < ms.len()
        invariant
            j <= ms@.len(),
            count <= j,
            count as nat == spec_count_groups(views_of(ms@.take(j as int))),
        decreases ms@.len() - j,
    {
        let is_group = match &ms[j] {
            Matcher::Group(_, _) => true,
            _ => false,
        };
        proof {
            lemma_views_of(ms@.take(j as int));
            lemma_views_of(ms@.take(j + 1));
            assert(views_of(ms@.take(j + 1)).drop_last() =~= views_of(ms@.take(j as int)));
            assert(views_of(ms@.take(j + 1)).last() == matcher_view(ms@[j as int]));
        }
        if is_group {
            count += 1;
        }
        j += 1;
    }
    proof {
        assert(ms@.take(ms@.len() as int) =~= ms@);
    }
    count
}

impl Matcher {
    /// Reads `\<number>` at `pos`: the referenced group number and the whole
    /// token's length, or `None` where no backreference token stands there
    /// (no backslash, no digits after it, or a number too large to hold).
    pub fn parse_backreference(pattern: &Vec<char>, pos: usize) -> (r: Option<(usize, usize)>)
        ensures
            match r {
                Some((n, len)) => spec_parse_backreference(pattern@, pos as int) == Some(
                    (n, len as nat),
                ) && 2 <= len && pos + len <= pattern@.len(),
                None => spec_parse_backreference(pattern@, pos as int) is None,
            },
    {
        let plen: usize = pattern.len();
        if pos >= plen {
            return None;
        }
        if pattern[pos] != '\\' {
            return None;
        }
        proof {
            lemma_digit_run_end(pattern@, pos + 1);
        }
        let start: usize = pos + 1;
        let mut end: usize = start;
        while end < plen && digit_char(pattern[end])
            invariant
                start <= end <= plen,
            plen == pattern@.len(),
            spec_digit_run_end(pattern@, start as int) == spec_digit_run_end(
                pattern@,
                end as int,
            ),
        decreases plen - end,
    {
            end += 1;
        }
        if end == start {
            return None;
        }
        let mut v: usize = 0;
        let mut over: bool = false;
        let mut j: usize = start;
        while j < end
            invariant
                start <= j <= end,
                end <= plen,
                plen == pattern@.len(),
                end == spec_digit_run_end(pattern@, start as int),
                forall|t: int| start <= t < end ==> is_ascii_digit(pattern@[t]),
                !over ==> v as nat == spec_digits_value(pattern@, start as int, j as int),
                over ==> spec_digits_value(pattern@, start as int, j as int) > usize::MAX,
            decreases end - j,
        {
            let c: char = pattern[j];
            proof {
                assert(is_ascii_digit(c));
            }
            let d: usize = ((c as u32) - 48) as usize;
            proof {
                assert(spec_digits_value(pattern@, start as int, j + 1) == spec_digits_value(
                    pattern@,
                    start as int,
                    j as int,
                ) * 10 + digit_val(pattern@[j as int]));
                assert(spec_digits_value(pattern@, start as int, j as int) * 10
                    >= spec_digits_value(pattern@, start as int, j as int)) by (nonlinear_arith);
            }
            if over {
            } else {
                match v.checked_mul(10) {
                    None => {
                        over = true;
                    },
                    Some(x) => {
                        match x.checked_add(d) {
                            None => {
                                over = true;
                            },
                            Some(y) => {
                                v = y;
                            },
                        }
                    },
                }
            }
            j += 1;
        }
        if over {
            return None;
        }
        Some((v, end - pos))
    }

    /// The token at `pos`, with its length in characters, following the
    /// scanner's priority order; `None` where no token form fits there (an
    /// unterminated bracket class, or a bare quantifier, which compiling
    /// resolves against the preceding node).
    #[verifier::rlimit(60)]
    pub fn try_parse(pattern: &Vec<char>, pos: usize) -> (r: Option<(Matcher, usize)>)
        requires
            pos < pattern@.len(),
        ensures
            match r {
                Some((m, len)) => spec_try_parse(pattern@, pos as int) == Some((m@, len as nat))
                    && 1 <= len && pos + len <= pattern@.len(),
                None => spec_try_parse(pattern@, pos as int) is None,
            },
    {
        let plen: usize = pattern.len();
        let c: char = pattern[pos];
        proof {
            crate::matcher::lemma_view_leaves(c, 0);
        }
        if c == '^' {
            Some((Matcher::StartOfLine, 1))
        } else if c == '$' {
            Some((Matcher::EndOfLine, 1))
        } else if c == '\\' && pos + 1 < plen && pattern[pos + 1] == 'd' {
            Some((Matcher::Digit, 2))
        } else if c == '\\' && pos + 1 < plen && pattern[pos + 1] == 'w' {
            Some((Matcher::WordChar, 2))
        } else {
            match Self::parse_backreference(pattern, pos) {
                Some((n, len)) => {
                    proof {
                        crate::matcher::lemma_view_leaves(c, n);
                    }
                    Some((Matcher::Backreference(n), len))
                },
                None => {
                    if pos + 1 < plen && c == '[' && pattern[pos + 1] == '^' {
                        proof {
                            lemma_find_char(pattern@, pos + 2, ']');
                        }
                        match find_char_from(pattern, pos + 2, ']') {
                            Some(end) => {
                                let content = crate::matcher::copy_range(pattern, pos + 2, end);
                                proof {
                                    crate::matcher::lemma_view_char_groups(content);
                                }
                                Some((Matcher::NegativeCharGroup(content), end + 1 - pos))
                            },
                            None => None,
                        }
                    } else if c == '[' {
                        proof {
                            lemma_find_char(pattern@, pos + 1, ']');
                        }
                        match find_char_from(pattern, pos + 1, ']') {
                            Some(end) => {
                                let content = crate::matcher::copy_range(pattern, pos + 1, end);
                                proof {
                                    crate::matcher::lemma_view_char_groups(content);
                                }
                                Some((Matcher::PositiveCharGroup(content), end + 1 - pos))
                            },
                            None => None,
                        }
                    } else if c == '+' || c == '?' {
                        None
                    } else if c == '.' {
                        Some((Matcher::Wildcard, 1))
                    } else if c == '(' {
                        Some((Matcher::GroupStart, 1))
                    } else if c == ')' {
                        Some((Matcher::GroupEnd, 1))
                    } else if c == '|' {
                        Some((Matcher::Alteration, 1))
                    } else {
                        Some((Matcher::Literal(c), 1))
                    }
                },
            }
        }
    }
}

/// Packs the compiling scan's four state pieces.
pub open spec fn comp_state_of(
    ms: Seq<SpecMatcher>,
    sol: bool,
    eol: bool,
    fs: Seq<GroupFrame>,
) -> CompState {
    CompState { matchers: ms, start_of_line: sol, end_of_line: eol, frames: fs }
}

/// One unfolding of the scan at the pattern's end.
pub proof fn lemma_step_end(p: Seq<char>, i: nat, st: CompState)
    requires
        i >= p.len(),
    ensures
        spec_compile_from(p, i, st) == if st.frames.len() > 0 {
            Err::<SpecExpression, CompileError>(CompileError::UnclosedGroup)
        } else {
            Ok::<SpecExpression, CompileError>(
                SpecExpression {
                    matchers: st.matchers,
                    start_of_line: st.start_of_line,
                    end_of_line: st.end_of_line,
                },
            )
        },
{
}

/// One unfolding of the scan at a quantifier character.
pub proof fn lemma_step_quantifier(p: Seq<char>, i: nat, st: CompState)
    requires
        i < p.len(),
        p[i as int] == '+' || p[i as int] == '?',
    ensures
        spec_compile_from(p, i, st) == if st.matchers.len() == 0 {
            Err::<SpecExpression, CompileError>(CompileError::DanglingQuantifier)
        } else {
            spec_compile_from(
                p,
                (i + 1) as nat,
                comp_state_of(
                    st.matchers.drop_last().push(
                        if p[i as int] == '+' {
                            SpecMatcher::OneOrMore(Box::new(st.matchers.last()))
                        } else {
                            SpecMatcher::ZeroOrOne(Box::new(st.matchers.last()))
                        },
                    ),
                    st.start_of_line,
                    st.end_of_line,
                    st.frames,
                ),
            )
        },
{
}

/// One unfolding of the scan at a position with no recognizable token.
pub proof fn lemma_step_malformed(p: Seq<char>, i: nat, st: CompState)
    requires
        i < p.len(),
        !(p[i as int] == '+' || p[i as int] == '?'),
        spec_try_parse(p, i as int) is None,
    ensures
        spec_compile_from(p, i, st) == Err::<SpecExpression, CompileError>(
            CompileError::MalformedPattern,
        ),
{
}

/// One unfolding of the scan at a recognized token.
pub proof fn lemma_step_token(p: Seq<char>, i: nat, st: CompState, m: SpecMatcher, len: nat)
    requires
        i < p.len(),
        !(p[i as int] == '+' || p[i as int] == '?'),
        spec_try_parse(p, i as int) == Some((m, len)),
    ensures
        spec_compile_from(p, i, st) == match m {
            SpecMatcher::StartOfLine => spec_compile_from(
                p,
                (i + len) as nat,
                comp_state_of(st.matchers, true, st.end_of_line, st.frames),
            ),
            SpecMatcher::EndOfLine => spec_compile_from(
                p,
                (i + len) as nat,
                comp_state_of(st.matchers, st.start_of_line, true, st.frames),
            ),
            SpecMatcher::GroupStart => spec_compile_from(
                p,
                (i + len) as nat,
                comp_state_of(
                    st.matchers,
                    st.start_of_line,
                    st.end_of_line,
                    st.frames.push(
                        GroupFrame {
                            start_index: st.matchers.len() as usize,
                            alternative_index: None,
                        },
                    ),
                ),
            ),
            SpecMatcher::Alteration => {
                if st.frames.len() == 0 {
                    Err::<SpecExpression, CompileError>(CompileError::DoubleAlternation)
                } else if st.frames.last().alternative_index is Some {
                    Err::<SpecExpression, CompileError>(CompileError::DoubleAlternation)
                } else {
                    spec_compile_from(
                        p,
                        (i + len) as nat,
                        comp_state_of(
                            st.matchers,
                            st.start_of_line,
                            st.end_of_line,
                            st.frames.drop_last().push(
                                GroupFrame {
                                    start_index: st.frames.last().start_index,
                                    alternative_index: Some(st.matchers.len() as usize),
                                },
                            ),
                        ),
                    )
                }
            },
            SpecMatcher::GroupEnd => {
                if st.frames.len() == 0 {
                    Err::<SpecExpression, CompileError>(CompileError::StrayGroupClose)
                } else {
                    let fr = st.frames.last();
                    let alt = match fr.alternative_index {
                        Some(a) => a as int,
                        None => st.matchers.len() as int,
                    };
                    spec_compile_from(
                        p,
                        (i + len) as nat,
                        comp_state_of(
                            st.matchers.take(fr.start_index as int).push(
                                SpecMatcher::Group(
                                    st.matchers.subrange(fr.start_index as int, alt),
                                    st.matchers.subrange(alt, st.matchers.len() as int),
                                ),
                            ),
                            st.start_of_line,
                            st.end_of_line,
                            st.frames.drop_last(),
                        ),
                    )
                }
            },
            SpecMatcher::Backreference(n) => {
                if spec_count_groups(st.matchers) < n {
                    Err::<SpecExpression, CompileError>(CompileError::InvalidBackreference)
                } else {
                    spec_compile_from(
                        p,
                        (i + len) as nat,
                        comp_state_of(
                            st.matchers.push(m),
                            st.start_of_line,
                            st.end_of_line,
                            st.frames,
                        ),
                    )
                }
            },
            _ => spec_compile_from(
                p,
                (i + len) as nat,
                comp_state_of(st.matchers.push(m), st.start_of_line, st.end_of_line, st.frames),
            ),
        },
{
}

/// A well-formed frame stack stays well formed when the node sequence grows.
pub proof fn lemma_frames_wf_grow(fs: Seq<GroupFrame>, n: int, m: int)
    requires
        frames_wf(fs, n),
        n <= m,
    ensures
        frames_wf(fs, m),
{
}

/// Opening a group pushes a frame that starts at the current end.
pub proof fn lemma_frames_wf_open(fs: Seq<GroupFrame>, n: usize)
    requires
        frames_wf(fs, n as int),
    ensures
        frames_wf(fs.push(GroupFrame { start_index: n, alternative_index: None }), n as int),
{
    let fs2 = fs.push(GroupFrame { start_index: n, alternative_index: None });
    assert forall|j: int| 0 <= j < fs2.len() implies frame_ok(
        #[trigger] fs2[j],
        if j == fs2.len() - 1 {
            n as int
        } else {
            fs2[j + 1].start_index as int
        },
    ) by {
        if j < fs.len() {
            assert(frame_ok(
                fs[j],
                if j == fs.len() - 1 {
                    n as int
                } else {
                    fs[j + 1].start_index as int
                },
            ));
        }
    }
}

/// Recording an alternation bar keeps the frame stack well formed.
pub proof fn lemma_frames_wf_alt(fs: Seq<GroupFrame>, n: usize)
    requires
        frames_wf(fs, n as int),
        fs.len() > 0,
    ensures
        frames_wf(
            fs.drop_last().push(
                GroupFrame {
                    start_index: fs.last().start_index,
                    alternative_index: Some(n),
                },
            ),
            n as int,
        ),
{
    let fs2 = fs.drop_last().push(
        GroupFrame { start_index: fs.last().start_index, alternative_index: Some(n) },
    );
    assert(frame_ok(fs[fs.len() - 1], n as int));
    assert forall|j: int| 0 <= j < fs2.len() implies frame_ok(
        #[trigger] fs2[j],
        if j == fs2.len() - 1 {
            n as int
        } else {
            fs2[j + 1].start_index as int
        },
    ) by {
        assert(frame_ok(
            fs[j],
            if j == fs.len() - 1 {
                n as int
            } else {
                fs[j + 1].start_index as int
            },
        ));
    }
}

/// Closing a group pops its frame; the top frame is in bounds, and the rest
/// stay well formed over the spliced sequence's length.
pub proof fn lemma_frames_wf_close(fs: Seq<GroupFrame>, n: int)
    requires
        frames_wf(fs, n),
        fs.len() > 0,
    ensures
        frame_ok(fs.last(), n),
        frames_wf(fs.drop_last(), fs.last().start_index + 1),
{
    assert(frame_ok(fs[fs.len() - 1], n));
    let fs2 = fs.drop_last();
    assert forall|j: int| 0 <= j < fs2.len() implies frame_ok(
        #[trigger] fs2[j],
        if j == fs2.len() - 1 {
            fs.last().start_index + 1
        } else {
            fs2[j + 1].start_index as int
        },
    ) by {
        assert(frame_ok(
            fs[j],
            if j == fs.len() - 1 {
                n
            } else {
                fs[j + 1].start_index as int
            },
        ));
    }
}

impl Expression {
    /// Compiles a whole pattern into an expression, or reports why its first
    /// offending token was rejected.
    #[verifier::rlimit(100)]
    pub fn try_from(pattern: &Vec<char>) -> (r: Result<Expression, CompileError>)
        ensures
            match r {
                Ok(e) => spec_compile(pattern@) == Ok::<SpecExpression, CompileError>(e@),
                Err(er) => spec_compile(pattern@) == Err::<SpecExpression, CompileError>(er),
            },
    {
        let plen: usize = pattern.len();
        let mut i: usize = 0;
        let mut matchers: Vec<Matcher> = Vec::new();
        let mut sol: bool = false;
        let mut eol: bool = false;
        let mut frames: Vec<GroupFrame> = Vec::new();
        proof {
            lemma_views_of_empty();
            assert(matchers@ =~= Seq::<Matcher>::empty());
            assert(frames@ =~= Seq::<GroupFrame>::empty());
            assert(comp_state_of(views_of(matchers@), sol, eol, frames@)
                == initial_comp_state());
        }
        while i < plen
            invariant
                i <= plen,
                plen == pattern@.len(),
                frames_wf(frames@, matchers@.len() as int),
                spec_compile_from(
                    pattern@,
                    i as nat,
                    comp_state_of(views_of(matchers@), sol, eol, frames@),
                ) == spec_compile(pattern@),
            decreases plen - i,
        {
            let ghost ms0 = matchers@;
            let ghost fs0 = frames@;
            let ghost st0 = comp_state_of(views_of(ms0), sol, eol, fs0);
            proof {
                lemma_views_of(ms0);
            }
            let c: char = pattern[i];
            if c == '+' || c == '?' {
                proof {
                    lemma_step_quantifier(pattern@, i as nat, st0);
                }
                match matchers.pop() {
                    None => {
                        return Err(CompileError::DanglingQuantifier);
                    },
                    Some(prev) => {
                        proof {
                            lemma_view_quantifiers(prev);
                            lemma_views_of_drop_last(ms0);
                        }
                        let wrapped = if c == '+' {
                            Matcher::OneOrMore(Box::new(prev))
                        } else {
                            Matcher::ZeroOrOne(Box::new(prev))
                        };
                        let ghost wg = wrapped;
                        matchers.push(wrapped);
                        proof {
                            lemma_views_of_push(ms0.drop_last(), wg);
                            lemma_frames_wf_grow(fs0, ms0.len() as int, matchers@.len() as int);
                            assert(comp_state_of(views_of(matchers@), sol, eol, frames@)
                                == comp_state_of(
                                st0.matchers.drop_last().push(
                                    if pattern@[i as int] == '+' {
                                        SpecMatcher::OneOrMore(Box::new(st0.matchers.last()))
                                    } else {
                                        SpecMatcher::ZeroOrOne(Box::new(st0.matchers.last()))
                                    },
                                ),
                                st0.start_of_line,
                                st0.end_of_line,
                                st0.frames,
                            ));
                        }
                        i += 1;
                    },
                }
            } else {
                match Matcher::try_parse(pattern, i) {
                    None => {
                        proof {
                            lemma_step_malformed(pattern@, i as nat, st0);
                        }
                        return Err(CompileError::MalformedPattern);
                    },
                    Some((m, len)) => {
                        let ghost mg = m;
                        proof {
                            lemma_step_token(pattern@, i as nat, st0, mg@, len as nat);
                            lemma_view_variant(mg);
                        }
                        match &m {
                            Matcher::StartOfLine => {
                                sol = true;
                            },
                            Matcher::EndOfLine => {
                                eol = true;
                            },
                            Matcher::GroupStart => {
                                proof {
                                    lemma_frames_wf_open(fs0, matchers.len());
                                }
                                frames.push(
                                    GroupFrame {
                                        start_index: matchers.len(),
                                        alternative_index: None,
                                    },
                                );
                            },
                            Matcher::Alteration => {
                                match frames.pop() {
                                    None => {
                                        return Err(CompileError::DoubleAlternation);
                                    },
                                    Some(f) => {
                                        if f.alternative_index.is_some() {
                                            return Err(CompileError::DoubleAlternation);
                                        }
                                        proof {
                                            lemma_frames_wf_alt(fs0, matchers.len());
                                        }
                                        frames.push(
                                            GroupFrame {
                                                start_index: f.start_index,
                                                alternative_index: Some(matchers.len()),
                                            },
                                        );
                                        proof {
                                            assert(frames@ =~= fs0.drop_last().push(
                                                GroupFrame {
                                                    start_index: fs0.last().start_index,
                                                    alternative_index: Some(ms0.len() as usize),
                                                },
                                            ));
                                        }
                                    },
                                }
                            },
                            Matcher::GroupEnd => {
                                match frames.pop() {
                                    None => {
                                        return Err(CompileError::StrayGroupClose);
                                    },
                                    Some(f) => {
                                        proof {
                                            lemma_frames_wf_close(fs0, ms0.len() as int);
                                        }
                                        let alt: usize = match f.alternative_index {
                                            Some(a) => a,
                                            None => matchers.len(),
                                        };
                                        let right = matchers.split_off(alt);
                                        let left = matchers.split_off(f.start_index);
                                        proof {
                                            lemma_view_group(left, right);
                                            assert(left@ =~= ms0.subrange(
                                                f.start_index as int,
                                                alt as int,
                                            ));
                                            lemma_views_of_subrange(
                                                ms0,
                                                f.start_index as int,
                                                alt as int,
                                            );
                                            lemma_views_of_subrange(
                                                ms0,
                                                alt as int,
                                                ms0.len() as int,
                                            );
                                            lemma_views_of_subrange(ms0, 0, f.start_index as int);
                                        }
                                        let ghost ms1 = matchers@;
                                        let node = Matcher::Group(left, right);
                                        let ghost ng = node;
                                        matchers.push(node);
                                        proof {
                                            assert(ms1 =~= ms0.take(f.start_index as int));
                                            assert(ms0.take(f.start_index as int) =~= ms0.subrange(
                                                0,
                                                f.start_index as int,
                                            ));
                                            lemma_views_of_push(ms1, ng);
                                            assert(st0.matchers.take(f.start_index as int)
                                                =~= st0.matchers.subrange(0, f.start_index as int));
                                            assert(views_of(matchers@) == st0.matchers.take(
                                                f.start_index as int,
                                            ).push(
                                                SpecMatcher::Group(
                                                    st0.matchers.subrange(
                                                        f.start_index as int,
                                                        alt as int,
                                                    ),
                                                    st0.matchers.subrange(
                                                        alt as int,
                                                        st0.matchers.len() as int,
                                                    ),
                                                ),
                                            ));
                                            lemma_frames_wf_grow(
                                                fs0.drop_last(),
                                                f.start_index + 1,
                                                matchers@.len() as int,
                                            );
                                        }
                                    },
                                }
                            },
                            Matcher::Backreference(nref) => {
                                let nv: usize = *nref;
                                let count = count_group_matchers(&matchers);
                                if count < nv {
                                    return Err(CompileError::InvalidBackreference);
                                }
                                matchers.push(m);
                                proof {
                                    lemma_views_of_push(ms0, mg);
                                    lemma_frames_wf_grow(
                                        fs0,
                                        ms0.len() as int,
                                        matchers@.len() as int,
                                    );
                                }
                            },
                            _ => {
                                matchers.push(m);
                                proof {
                                    lemma_views_of_push(ms0, mg);
                                    lemma_frames_wf_grow(
                                        fs0,
                                        ms0.len() as int,
                                        matchers@.len() as int,
                                    );
                                }
                            },
                        }
                        i += len;
                    },
                }
            }
        }
        proof {
            lemma_step_end(
                pattern@,
                i as nat,
                comp_state_of(views_of(matchers@), sol, eol, frames@),
            );
            lemma_views_of(matchers@);
        }
        if frames.len() > 0 {
            return Err(CompileError::UnclosedGroup);
        }
        Ok(Expression { matchers, start_of_line: sol, end_of_line: eol })
    }
}

} // verus!

//! Engine-wide laws: statements that tie the compiler and the matcher
//! together over all patterns or all subjects, proved from the two
//! components' specifications.

use vstd::prelude::*;

use crate::compile::CompileError;
use crate::compile::comp_state_of;
use crate::compile::initial_comp_state;
use crate::compile::lemma_find_char;
use crate::compile::lemma_step_end;
use crate::compile::lemma_step_quantifier;
use crate::compile::lemma_step_token;
use crate::compile::spec_compile;
use crate::compile::spec_compile_from;
use crate::compile::spec_find_char;
use crate::compile::spec_try_parse;
use crate::expression::SpecExpression;
use crate::expression::spec_is_match;
use crate::expression::spec_match_str;
use crate::matcher::SpecMatcher;
use crate::matcher::is_ascii_digit;
use crate::matcher::is_single_char_node;
use crate::matcher::lemma_literal_walk;
use crate::matcher::lemma_one_or_more_walk;
use crate::matcher::single_char_hit;

verus! {

/// The characters that the scanner can read as something other than a plain
/// literal.
pub open spec fn is_meta_char(c: char) -> bool {
    c == '^' || c == '$' || c == '\\' || c == '[' || c == ']' || c == '+' || c == '?' || c == '.'
        || c == '(' || c == ')' || c == '|'
}

/// A pattern of plain literal characters only.
pub open spec fn is_plain_pattern(p: Seq<char>) -> bool {
    forall|i: int| 0 <= i < p.len() ==> !is_meta_char(#[trigger] p[i])
}

/// Whether `p` occurs in `s` starting at offset `off`.
pub open spec fn contains_at(s: Seq<char>, p: Seq<char>, off: int) -> bool {
    0 <= off && off + p.len() <= s.len() && s.subrange(off, off + p.len()) == p
}

/// Whether `p` occurs somewhere in `s`.
pub open spec fn has_substring(s: Seq<char>, p: Seq<char>) -> bool {
    exists|off: int| contains_at(s, p, off)
}

/// Whether an expression consists, beyond its first `k` nodes, of exactly
/// one literal node per character of `p[i..]`, with neither anchor set.
pub open spec fn is_literal_tail(e: SpecExpression, k: int, p: Seq<char>, i: int) -> bool {
    &&& !e.start_of_line
    &&& !e.end_of_line
    &&& e.matchers.len() == k + p.len() - i
    &&& forall|j: int|
        k <= j < e.matchers.len() ==> #[trigger] e.matchers[j] == SpecMatcher::Literal(
            p[i + j - k],
        )
}

/// A plain pattern compiles, whatever nodes stand accumulated already: the
/// result keeps those nodes and appends one literal node per remaining
/// character, with neither anchor set.
proof fn lemma_compile_plain_from(p: Seq<char>, i: nat, ms: Seq<SpecMatcher>)
    requires
        is_plain_pattern(p),
        i <= p.len(),
    ensures
        ({
            let r = spec_compile_from(p, i, comp_state_of(ms, false, false, Seq::empty()));
            &&& r is Ok
            &&& is_literal_tail(r->Ok_0, ms.len() as int, p, i as int)
            &&& forall|j: int| 0 <= j < ms.len() ==> #[trigger] r->Ok_0.matchers[j] == ms[j]
        }),
    decreases p.len() - i,
{
    let st = comp_state_of(ms, false, false, Seq::empty());
    if i >= p.len() {
        lemma_step_end(p, i, st);
    } else {
        assert(!is_meta_char(p[i as int]));
        assert(spec_try_parse(p, i as int) == Some((SpecMatcher::Literal(p[i as int]), 1nat)));
        lemma_step_token(p, i, st, SpecMatcher::Literal(p[i as int]), 1nat);
        lemma_compile_plain_from(p, (i + 1) as nat, ms.push(SpecMatcher::Literal(p[i as int])));
    }
}

/// A pattern of plain literal characters, with no metacharacters in it,
/// matches a subject exactly when the subject contains the pattern's text
/// as a substring.
pub proof fn lemma_plain_pattern_is_substring_search(p: Seq<char>, s: Seq<char>)
    requires
        is_plain_pattern(p),
    ensures
        spec_compile(p) is Ok,
        spec_is_match(spec_compile(p)->Ok_0, s) == has_substring(s, p),
{
    assert(initial_comp_state() == comp_state_of(
        Seq::<SpecMatcher>::empty(),
        false,
        false,
        Seq::empty(),
    ));
    lemma_compile_plain_from(p, 0, Seq::<SpecMatcher>::empty());
    let e = spec_compile(p)->Ok_0;
    assert forall|off: int| 0 <= off <= s.len() implies spec_match_str(e, s, off) == contains_at(
        s,
        p,
        off,
    ) by {
        lemma_literal_walk(e.matchers, p, s.skip(off), Seq::<Seq<char>>::empty());
        if p.len() <= s.len() - off {
            assert(s.skip(off).take(p.len() as int) =~= s.subrange(off, off + p.len()));
        }
    }
    if has_substring(s, p) {
        let off = choose|off: int| contains_at(s, p, off);
        assert(off <= s.len());
        assert(spec_match_str(e, s, off));
        assert(spec_is_match(e, s));
    }
    if spec_is_match(e, s) {
        let off = choose|off: int| 0 <= off <= s.len() && spec_match_str(e, s, off);
        assert(contains_at(s, p, off));
        assert(has_substring(s, p));
    }
}

/// A plain segment that ends in the end-of-line anchor compiles to one
/// literal node per character before the anchor, with the end-of-line flag
/// set, whatever nodes stand accumulated already.
proof fn lemma_compile_plain_then_end(q: Seq<char>, i: nat, ms: Seq<SpecMatcher>, sol: bool)
    requires
        i < q.len(),
        q[q.len() - 1] == '$',
        forall|j: int| i <= j < q.len() - 1 ==> !is_meta_char(#[trigger] q[j]),
    ensures
        ({
            let r = spec_compile_from(q, i, comp_state_of(ms, sol, false, Seq::empty()));
            &&& r is Ok
            &&& r->Ok_0.start_of_line == sol
            &&& r->Ok_0.end_of_line
            &&& r->Ok_0.matchers.len() == ms.len() + (q.len() - 1 - i)
            &&& (forall|j: int| 0 <= j < ms.len() ==> #[trigger] r->Ok_0.matchers[j] == ms[j])
            &&& (forall|j: int|
                ms.len() <= j < r->Ok_0.matchers.len() ==> #[trigger] r->Ok_0.matchers[j]
                    == SpecMatcher::Literal(q[i + j - ms.len()]))
        }),
    decreases q.len() - i,
{
    let st = comp_state_of(ms, sol, false, Seq::empty());
    if i == q.len() - 1 {
        assert(spec_try_parse(q, i as int) == Some((SpecMatcher::EndOfLine, 1nat)));
        lemma_step_token(q, i, st, SpecMatcher::EndOfLine, 1nat);
        lemma_step_end(q, (i + 1) as nat, comp_state_of(ms, sol, true, Seq::empty()));
    } else {
        assert(!is_meta_char(q[i as int]));
        assert(spec_try_parse(q, i as int) == Some((SpecMatcher::Literal(q[i as int]), 1nat)));
        lemma_step_token(q, i, st, SpecMatcher::Literal(q[i as int]), 1nat);
        lemma_compile_plain_then_end(
            q,
            (i + 1) as nat,
            ms.push(SpecMatcher::Literal(q[i as int])),
            sol,
        );
    }
}

/// A plain pattern anchored at both ends matches a subject exactly when the
/// subject equals the pattern's text.
pub proof fn lemma_anchored_plain_is_equality(p: Seq<char>, s: Seq<char>)
    requires
        is_plain_pattern(p),
    ensures
        spec_compile(seq!['^'] + p + seq!['$']) is Ok,
        spec_is_match(spec_compile(seq!['^'] + p + seq!['$'])->Ok_0, s) == (s == p),
{
    let q = seq!['^'] + p + seq!['$'];
    assert(q.len() == p.len() + 2);
    assert(q[0] == '^');
    assert(q[q.len() - 1] == '$');
    assert forall|j: int| 1 <= j < q.len() - 1 implies !is_meta_char(#[trigger] q[j]) by {
        assert(q[j] == p[j - 1]);
    }
    let st0 = initial_comp_state();
    assert(spec_try_parse(q, 0) == Some((SpecMatcher::StartOfLine, 1nat)));
    lemma_step_token(q, 0, st0, SpecMatcher::StartOfLine, 1nat);
    assert(comp_state_of(st0.matchers, true, st0.end_of_line, st0.frames) == comp_state_of(
        Seq::<SpecMatcher>::empty(),
        true,
        false,
        Seq::empty(),
    ));
    lemma_compile_plain_then_end(q, 1, Seq::<SpecMatcher>::empty(), true);
    let e = spec_compile(q)->Ok_0;
    assert(e.matchers.len() == p.len());
    assert forall|j: int| 0 <= j < p.len() implies e.matchers[j] == SpecMatcher::Literal(
        #[trigger] p[j],
    ) by {
        assert(e.matchers[j] == SpecMatcher::Literal(q[1 + j]));
        assert(q[1 + j] == p[j]);
    }
    assert(s.skip(0) =~= s);
    lemma_literal_walk(e.matchers, p, s.skip(0), Seq::<Seq<char>>::empty());
    if s == p {
        assert(s.take(p.len() as int) =~= p);
        assert(spec_match_str(e, s, 0));
    }
    if spec_is_match(e, s) {
        assert(spec_match_str(e, s, 0));
        assert(s.len() == p.len());
        assert(s.take(p.len() as int) =~= s);
        assert(s == p);
    }
}

/// Compiling is deterministic: any two expressions the compiler may yield
/// for one pattern agree on every subject.
pub proof fn lemma_compile_deterministic(
    p: Seq<char>,
    s: Seq<char>,
    e1: SpecExpression,
    e2: SpecExpression,
)
    requires
        spec_compile(p) == Ok::<SpecExpression, CompileError>(e1),
        spec_compile(p) == Ok::<SpecExpression, CompileError>(e2),
    ensures
        spec_is_match(e1, s) == spec_is_match(e2, s),
{
}

/// An expression that is one greedy repetition of a single-character node
/// matches a subject exactly when some character of the subject is accepted
/// by the node.
proof fn lemma_single_repeat_search(e: SpecExpression, node: SpecMatcher, s: Seq<char>)
    requires
        is_single_char_node(node),
        e == (SpecExpression {
            matchers: seq![SpecMatcher::OneOrMore(Box::new(node))],
            start_of_line: false,
            end_of_line: false,
        }),
    ensures
        spec_is_match(e, s) == exists|i: int|
            0 <= i < s.len() && single_char_hit(node, #[trigger] s[i]),
{
    assert forall|off: int| 0 <= off <= s.len() implies spec_match_str(e, s, off) == (off < s.len()
        && single_char_hit(node, s[off])) by {
        let t = s.skip(off);
        lemma_one_or_more_walk(node, t, Seq::<Seq<char>>::empty());
        if off < s.len() {
            assert(t[0] == s[off]);
        }
    }
    if exists|i: int| 0 <= i < s.len() && single_char_hit(node, #[trigger] s[i]) {
        let i = choose|i: int| 0 <= i < s.len() && single_char_hit(node, #[trigger] s[i]);
        assert(spec_match_str(e, s, i));
        assert(spec_is_match(e, s));
    }
    if spec_is_match(e, s) {
        let off = choose|off: int| 0 <= off <= s.len() && spec_match_str(e, s, off);
        assert(single_char_hit(node, s[off]));
    }
}

/// The pattern `\d+` matches a subject exactly when the subject holds at
/// least one decimal digit.
pub proof fn lemma_digit_run_search(s: Seq<char>)
    ensures
        spec_compile(seq!['\\', 'd', '+']) is Ok,
        spec_is_match(spec_compile(seq!['\\', 'd', '+'])->Ok_0, s) == exists|i: int|
            0 <= i < s.len() && is_ascii_digit(#[trigger] s[i]),
{
    let p = seq!['\\', 'd', '+'];
    assert(p.len() == 3 && p[0] == '\\' && p[1] == 'd' && p[2] == '+');
    let st0 = initial_comp_state();
    assert(spec_try_parse(p, 0) == Some((SpecMatcher::Digit, 2nat)));
    lemma_step_token(p, 0, st0, SpecMatcher::Digit, 2nat);
    let st1 = comp_state_of(
        Seq::<SpecMatcher>::empty().push(SpecMatcher::Digit),
        false,
        false,
        Seq::empty(),
    );
    assert(spec_compile_from(p, 0, st0) == spec_compile_from(p, 2, st1));
    lemma_step_quantifier(p, 2, st1);
    let node = SpecMatcher::OneOrMore(Box::new(SpecMatcher::Digit));
    let st2 = comp_state_of(st1.matchers.drop_last().push(node), false, false, Seq::empty());
    assert(st1.matchers.last() == SpecMatcher::Digit);
    assert(spec_compile_from(p, 2, st1) == spec_compile_from(p, 3, st2));
    lemma_step_end(p, 3, st2);
    assert(st2.matchers =~= seq![node]);
    let e = spec_compile(p)->Ok_0;
    lemma_single_repeat_search(e, SpecMatcher::Digit, s);
}

/// The pattern `[^0-9]+` matches a subject exactly when some character of
/// the subject lies outside the bracketed set. Bracketed characters are
/// literal — the set is exactly the three characters `'0'`, `'-'` and `'9'`
/// — so the law speaks of those three.
pub proof fn lemma_negated_class_run_search(s: Seq<char>)
    ensures
        spec_compile(seq!['[', '^', '0', '-', '9', ']', '+']) is Ok,
        spec_is_match(spec_compile(seq!['[', '^', '0', '-', '9', ']', '+'])->Ok_0, s)
            == exists|i: int|
            0 <= i < s.len() && !(#[trigger] s[i] == '0' || s[i] == '-' || s[i] == '9'),
{
    let p = seq!['[', '^', '0', '-', '9', ']', '+'];
    assert(p.len() == 7 && p[0] == '[' && p[1] == '^' && p[2] == '0' && p[3] == '-' && p[4] == '9'
        && p[5] == ']' && p[6] == '+');
    lemma_find_char(p, 2, ']');
    match spec_find_char(p, 2, ']') {
        None => {
            assert(p[5] == ']');
            assert(false);
        },
        Some(j) => {
            if j > 5 {
                assert(p[5] != ']');
                assert(false);
            }
            assert(j == 5);
        },
    }
    let g = p.subrange(2, 5);
    assert(g =~= seq!['0', '-', '9']);
    let cls = SpecMatcher::NegativeCharGroup(g);
    assert(spec_try_parse(p, 0) == Some((cls, 6nat)));
    let st0 = initial_comp_state();
    lemma_step_token(p, 0, st0, cls, 6nat);
    let st1 = comp_state_of(Seq::<SpecMatcher>::empty().push(cls), false, false, Seq::empty());
    assert(spec_compile_from(p, 0, st0) == spec_compile_from(p, 6, st1));
    lemma_step_quantifier(p, 6, st1);
    let node = SpecMatcher::OneOrMore(Box::new(cls));
    let st2 = comp_state_of(st1.matchers.drop_last().push(node), false, false, Seq::empty());
    assert(st1.matchers.last() == cls);
    assert(spec_compile_from(p, 6, st1) == spec_compile_from(p, 7, st2));
    lemma_step_end(p, 7, st2);
    assert(st2.matchers =~= seq![node]);
    let e = spec_compile(p)->Ok_0;
    lemma_single_repeat_search(e, cls, s);
    assert forall|i: int| 0 <= i < s.len() implies single_char_hit(cls, #[trigger] s[i]) == !(s[i]
        == '0' || s[i] == '-' || s[i] == '9') by {
        let c = s[i];
        if c == '0' || c == '-' || c == '9' {
            if c == '0' {
                assert(g[0] == c);
            } else if c == '-' {
                assert(g[1] == c);
            } else {
                assert(g[2] == c);
            }
            assert(g.contains(c));
        }
        if g.contains(c) {
            let k = choose|k: int| 0 <= k < g.len() && g[k] == c;
            assert(c == '0' || c == '-' || c == '9');
        }
    }
}

} // verus!

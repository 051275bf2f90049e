//! A compiled pattern: the top-level node sequence plus the two anchor flags,
//! and the search that tries it against a subject line.

use vstd::prelude::*;

use crate::matcher::Matcher;
use crate::matcher::SpecMatcher;
use crate::matcher::lemma_match_walk_bound;
use crate::matcher::spec_match_walk;
use crate::matcher::views_of;

verus! {

/// A compiled pattern, immutable once built: an ordered sequence of top-level
/// matcher nodes and the two anchor flags.
pub struct Expression {
    pub matchers: Vec<Matcher>,
    pub start_of_line: bool,
    pub end_of_line: bool,
}

/// The mathematical image of an [`Expression`].
pub struct SpecExpression {
    pub matchers: Seq<SpecMatcher>,
    pub start_of_line: bool,
    pub end_of_line: bool,
}

impl View for Expression {
    type V = SpecExpression;

    open spec fn view(&self) -> SpecExpression {
        SpecExpression {
            matchers: views_of(self.matchers@),
            start_of_line: self.start_of_line,
            end_of_line: self.end_of_line,
        }
    }
}

/// Whether one attempt at offset `pos` succeeds: the node sequence, walked
/// with a fresh capture list, consumes a stretch of the subject there, and,
/// when the pattern is end-anchored, that stretch reaches the subject's end.
pub open spec fn spec_match_str(e: SpecExpression, s: Seq<char>, pos: int) -> bool {
    let w = spec_match_walk(e.matchers, s.skip(pos), Seq::empty());
    match w.consumed {
        None => false,
        Some(k) => !e.end_of_line || pos + k >= s.len(),
    }
}

/// Whether the pattern matches somewhere in the subject: at offset 0 when
/// start-anchored, else at some offset between 0 and the subject's length.
pub open spec fn spec_is_match(e: SpecExpression, s: Seq<char>) -> bool {
    if e.start_of_line {
        spec_match_str(e, s, 0)
    } else {
        exists|pos: int| 0 <= pos <= s.len() && spec_match_str(e, s, pos)
    }
}

impl Expression {
    /// One match attempt at offset `pos`, with a fresh capture list.
    pub fn match_str(&self, s: &Vec<char>, pos: usize) -> (r: bool)
        requires
            pos <= s@.len(),
        ensures
            r == spec_match_str(self@, s@, pos as int),
    {
        let n: usize = s.len();
        let mut caps: Vec<Vec<char>> = Vec::new();
        proof {
            assert(caps.deep_view() =~= Seq::<Seq<char>>::empty());
            assert(self.matchers@.skip(0) =~= self.matchers@);
        }
        let w = Matcher::match_walk(&self.matchers, 0, s, pos, &mut caps);
        match w {
            None => false,
            Some(k) => {
                if self.end_of_line {
                    pos + k >= n
                } else {
                    true
                }
            },
        }
    }

    /// Whether matching may start only at the subject's first character.
    pub fn from_start_of_string(&self) -> (r: bool)
        ensures
            r == self@.start_of_line,
    {
        self.start_of_line
    }

    /// Whether a successful attempt must consume up to the subject's end.
    pub fn till_end_of_string(&self) -> (r: bool)
        ensures
            r == self@.end_of_line,
    {
        self.end_of_line
    }
}

/// Whether `expression` matches somewhere in `input_line`: only at offset 0
/// when start-anchored, else at the first of the offsets 0 through the
/// subject's length where an attempt succeeds.
pub fn match_pattern(input_line: &Vec<char>, expression: &Expression) -> (r: bool)
    ensures
        r == spec_is_match(expression@, input_line@),
{
    if expression.from_start_of_string() {
        return expression.match_str(input_line, 0);
    }
    let n: usize = input_line.len();
    let mut i: usize = 0;
    while i < n
        invariant
            n == input_line@.len(),
            i <= n,
            !expression@.start_of_line,
            forall|pos: int| 0 <= pos < i ==> !spec_match_str(expression@, input_line@, pos),
        decreases n - i,
    {
        if expression.match_str(input_line, i) {
            return true;
        }
        i += 1;
    }
    expression.match_str(input_line, n)
}

} // verus!

//! Maximal runs of characters of one class, the building block of most lexemes.

use vstd::prelude::*;
use crate::source::SourceChar;

verus! {

/// The character classes whose runs the lexical grammar speaks of.
#[derive(Debug, Clone, Copy, PartialEq, Eq)]
pub enum CharSet {
    /// Spaces and tabs.
    Blank,
    /// The decimal digits `0` to `9`.
    Digit,
    /// What may continue an identifier: alphanumeric characters and `_`.
    Word,
}

/// Whether `c` is one of the decimal digits `0` to `9`.
pub open spec fn is_digit(c: char) -> bool {
    '0' <= c <= '9'
}

impl CharSet {
    /// Whether `c` belongs to the class.
    pub open spec fn contains(self, c: SourceChar) -> bool {
        match self {
            CharSet::Blank => c.ch == ' ' || c.ch == '\t',
            CharSet::Digit => is_digit(c.ch),
            CharSet::Word => c.alphanumeric || c.ch == '_',
        }
    }

    /// Tells whether `c` belongs to the class.
    pub fn holds(self, c: SourceChar) -> (b: bool)
        ensures
            b == self.contains(c),
    {
        match self {
            CharSet::Blank => c.ch == ' ' || c.ch == '\t',
            CharSet::Digit => '0' <= c.ch && c.ch <= '9',
            CharSet::Word => c.alphanumeric || c.ch == '_',
        }
    }
}

/// The length of the longest prefix of `s` made of characters of `set`.
pub open spec fn run_len(set: CharSet, s: Seq<SourceChar>) -> nat
    decreases s.len(),
{
    if s.len() > 0 && set.contains(s[0]) {
        1 + run_len(set, s.drop_first())
    } else {
        0
    }
}

/// A run is the prefix of length `n` exactly when the first `n` characters belong
/// to the class and the next one, if there is one, does not.
pub proof fn lemma_run_len_is(set: CharSet, s: Seq<SourceChar>, n: nat)
    requires
        n <= s.len(),
        forall|i: int| 0 <= i < n ==> set.contains(#[trigger] s[i]),
        n < s.len() ==> !set.contains(s[n as int]),
    ensures
        run_len(set, s) == n,
    decreases n,
{
    if n > 0 {
        let t = s.drop_first();
        assert forall|i: int| 0 <= i < n - 1 implies set.contains(#[trigger] t[i]) by {
            assert(t[i] == s[i + 1]);
        }
        lemma_run_len_is(set, t, (n - 1) as nat);
    }
}

/// What holds of every run: it fits, all of it belongs to the class, and it cannot
/// be extended.
pub proof fn lemma_run_len(set: CharSet, s: Seq<SourceChar>)
    ensures
        run_len(set, s) <= s.len(),
        forall|i: int| 0 <= i < run_len(set, s) ==> set.contains(#[trigger] s[i]),
        run_len(set, s) < s.len() ==> !set.contains(s[run_len(set, s) as int]),
    decreases s.len(),
{
    if s.len() > 0 && set.contains(s[0]) {
        let t = s.drop_first();
        lemma_run_len(set, t);
        assert forall|i: int| 0 <= i < run_len(set, s) implies set.contains(#[trigger] s[i]) by {
            if i > 0 {
                assert(s[i] == t[i - 1]);
            }
        }
        if run_len(set, s) < s.len() {
            assert(s[run_len(set, s) as int] == t[run_len(set, t) as int]);
        }
    }
}

/// Finds where the run of `set` that begins at `start` ends.
pub fn scan_run(set: CharSet, source: &[SourceChar], start: usize) -> (end: usize)
    requires
        start <= source.len(),
    ensures
        end == start + run_len(set, source@.skip(start as int)),
        start <= end <= source.len(),
{
    let mut end: usize = start;
    while end < source.len() && set.holds(source[end])
        invariant
            start <= end <= source.len(),
            forall|i: int| start <= i < end ==> set.contains(#[trigger] source@[i]),
        decreases source.len() - end,
    {
        end += 1;
    }
    proof {
        lemma_run_len_is(set, source@.skip(start as int), (end - start) as nat);
    }
    end
}

} // verus!

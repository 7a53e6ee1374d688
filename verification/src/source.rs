//! Source text as the scanner reads it: every character together with the Unicode
//! properties that the lexical grammar asks about.

use vstd::prelude::*;

verus! {

/// Whether `c` has the Unicode property `White_Space`, as `char::is_whitespace` tells.
pub uninterp spec fn unicode_whitespace(c: char) -> bool;

/// Whether `c` has the Unicode property `Alphabetic`, as `char::is_alphabetic` tells.
pub uninterp spec fn unicode_alphabetic(c: char) -> bool;

/// Whether `c` is in one of the Unicode number categories, as `char::is_numeric` tells.
pub uninterp spec fn unicode_numeric(c: char) -> bool;

/// `char::is_whitespace` looks `c` up in the Unicode tables; the result depends on
/// `c` alone and is not proved here.
pub assume_specification[ char::is_whitespace ](c: char) -> (b: bool)
    ensures
        b == unicode_whitespace(c),
;

/// `char::is_alphabetic` looks `c` up in the Unicode tables; the result depends on
/// `c` alone and is not proved here.
pub assume_specification[ char::is_alphabetic ](c: char) -> (b: bool)
    ensures
        b == unicode_alphabetic(c),
;

/// `char::is_alphanumeric` is documented as `is_alphabetic() || is_numeric()`; that
/// is all that is claimed of it.
pub assume_specification[ char::is_alphanumeric ](c: char) -> (b: bool)
    ensures
        b == (unicode_alphabetic(c) || unicode_numeric(c)),
;

/// `String::push` appends `c` to the end of `s`; not proved here.
pub assume_specification[ std::string::String::push ](s: &mut std::string::String, c: char)
    ensures
        final(s)@ == old(s)@.push(c),
;

/// One character of the source with the three properties the scanner consults.
///
/// The scanner itself never looks a property up: it works for any assignment of the
/// three flags, and [`classify`] fills them in from the Unicode tables.
#[derive(Debug, Clone, Copy, PartialEq, Eq)]
pub struct SourceChar {
    pub ch: char,
    pub whitespace: bool,
    pub alphabetic: bool,
    pub alphanumeric: bool,
}

/// `c` with its Unicode properties.
pub open spec fn classified(c: char) -> SourceChar {
    SourceChar {
        ch: c,
        whitespace: unicode_whitespace(c),
        alphabetic: unicode_alphabetic(c),
        alphanumeric: unicode_alphabetic(c) || unicode_numeric(c),
    }
}

/// Every character of `text` with its Unicode properties.
pub open spec fn classified_text(text: Seq<char>) -> Seq<SourceChar> {
    Seq::new(text.len(), |i: int| classified(text[i]))
}

/// The characters of `source` without their properties.
pub open spec fn plain_text(source: Seq<SourceChar>) -> Seq<char> {
    Seq::new(source.len(), |i: int| source[i].ch)
}

/// Looks up the Unicode properties of `c`.
pub fn classify(c: char) -> (sc: SourceChar)
    ensures
        sc == classified(c),
{
    SourceChar {
        ch: c,
        whitespace: c.is_whitespace(),
        alphabetic: c.is_alphabetic(),
        alphanumeric: c.is_alphanumeric(),
    }
}

/// Classifies every character of `text`, in order.
pub fn classify_str(text: &str) -> (source: Vec<SourceChar>)
    ensures
        source@ == classified_text(text@),
{
    let mut source: Vec<SourceChar> = Vec::new();
    for c in it: text.chars()
        invariant
            it.seq() == text@,
            source@ == classified_text(text@.take(it.index() as int)),
    {
        source.push(classify(c));
        assert(text@.take(it.index() + 1) =~= text@.take(it.index() as int).push(c));
    }
    assert(text@.take(text@.len() as int) =~= text@);
    source
}

/// Classifying a text and dropping the properties again gives the text back.
pub proof fn lemma_plain_text_classified(text: Seq<char>)
    ensures
        plain_text(classified_text(text)) == text,
{
    assert(plain_text(classified_text(text)) =~= text);
}

/// Copies the characters from `from` up to `to` into a string.
pub fn text_between(source: &[SourceChar], from: usize, to: usize) -> (text: String)
    requires
        from <= to <= source.len(),
    ensures
        text@ == plain_text(source@.subrange(from as int, to as int)),
{
    let mut text = String::new();
    let mut i: usize = from;
    while i < to
        invariant
            from <= i <= to <= source.len(),
            text@ == plain_text(source@.subrange(from as int, i as int)),
        decreases to - i,
    {
        text.push(source[i].ch);
        i += 1;
        assert(text@ =~= plain_text(source@.subrange(from as int, i as int)));
    }
    text
}

} // verus!

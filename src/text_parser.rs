use vstd::prelude::*;

use crate::text::{
    is_word_char, runs, runs_of, sentences_from, trimmed_nonempty, views, word_marks,
};
use crate::token::chars_of;

verus! {

/// Whether `c` ends a sentence.
pub open spec fn is_terminator(c: char) -> bool {
    c == '.' || c == '?' || c == '!'
}

/// The parts of `t` between maximal runs of terminators, in order, with an
/// empty part before a leading run and after a trailing one.
pub open spec fn terminator_pieces(t: Seq<char>) -> Seq<Seq<char>>
    decreases t.len(),
{
    if t.len() == 0 {
        seq![Seq::empty()]
    } else {
        let n = t.len() - 1;
        let rest = terminator_pieces(t.drop_last());
        if !is_terminator(t[n]) {
            rest.update(rest.len() - 1, rest.last().push(t[n]))
        } else if n > 0 && is_terminator(t[n - 1]) {
            rest
        } else {
            rest.push(Seq::empty())
        }
    }
}

/// The pattern of one or more sentence terminators.
pub open spec fn terminator_pattern() -> Seq<char> {
    seq!['[', '\\', '.', '\\', '?', '!', ']', '+']
}

/// Relies on regex's Regex::new, which accepts this pattern, and on
/// Regex::split, which yields the parts of the text between the matches
/// (leftmost-first, so each match is a maximal run of terminators).
#[verifier::external_body]
fn split_on(pattern: &str, text: &str) -> (r: Vec<String>)
    requires
        pattern@ == terminator_pattern(),
    ensures
        views(r@) == terminator_pieces(text@),
{
    regex::Regex::new(pattern).unwrap().split(text).map(String::from).collect()
}

/// The words of a sentence: its maximal runs of alphanumeric characters,
/// left to right, all punctuation and blanks between them dropped.
pub fn extract_words(sentence: &str) -> (r: Vec<String>)
    ensures
        views(r@) == runs(sentence@, sentence@.map_values(|c: char| is_word_char(c))),
{
    let cs = chars_of(sentence);
    let marks = word_marks(&cs);
    runs_of(&cs, &marks)
}

/// The sentences of a text: the parts between runs of `.`, `?` and `!`,
/// trimmed, the empty ones left out.
pub fn extract_sentences(text: &str) -> (r: Vec<String>)
    ensures
        views(r@) == trimmed_nonempty(terminator_pieces(text@)),
{
    let pattern = "[\\.\\?!]+";
    proof {
        reveal_strlit("[\\.\\?!]+");
        assert(pattern@ =~= terminator_pattern());
    }
    let pieces = split_on(pattern, text);
    sentences_from(&pieces)
}

} // verus!

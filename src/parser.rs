use vstd::prelude::*;

use crate::text::{is_blank, non_blank_marks, runs, runs_of, sentences_from, trimmed_nonempty, views};
use crate::token::{chars_of, push_char};

verus! {

/// `t` without the full stops at its end.
pub open spec fn trim_end_dots(t: Seq<char>) -> Seq<char>
    decreases t.len(),
{
    if t.len() > 0 && t.last() == '.' {
        trim_end_dots(t.drop_last())
    } else {
        t
    }
}

/// The parts of `t` between its full stops, in order; `n` stops give `n + 1`
/// parts, empty ones included.
pub open spec fn dot_pieces(t: Seq<char>) -> Seq<Seq<char>>
    decreases t.len(),
{
    if t.len() == 0 {
        seq![Seq::empty()]
    } else {
        let rest = dot_pieces(t.drop_last());
        if t.last() == '.' {
            rest.push(Seq::empty())
        } else {
            rest.update(rest.len() - 1, rest.last().push(t.last()))
        }
    }
}

/// The words of a sentence that may end in full stops: its maximal runs of
/// non-blank characters once the trailing stops are gone.
pub fn extract_words(sentence: &str) -> (r: Vec<String>)
    ensures
        views(r@) == runs(
            trim_end_dots(sentence@),
            trim_end_dots(sentence@).map_values(|c: char| !is_blank(c)),
        ),
{
    let mut cs = chars_of(sentence);
    while cs.len() > 0 && cs[cs.len() - 1] == '.'
        invariant
            trim_end_dots(cs@) == trim_end_dots(sentence@),
        decreases cs@.len(),
    {
        cs.pop();
    }
    let marks = non_blank_marks(&cs);
    runs_of(&cs, &marks)
}

/// The parts of `text` between full stops, as strings.
fn split_dots(text: &str) -> (r: Vec<String>)
    ensures
        views(r@) == dot_pieces(text@),
{
    let cs = chars_of(text);
    let mut pieces: Vec<String> = Vec::new();
    let mut current = String::new();
    let mut i: usize = 0;
    while i < cs.len()
        invariant
            cs@ == text@,
            i <= cs@.len(),
            views(pieces@).push(current@) == dot_pieces(cs@.take(i as int)),
        decreases cs@.len() - i,
    {
        assert(cs@.take(i + 1).drop_last() =~= cs@.take(i as int));
        let ghost before = views(pieces@);
        if cs[i] == '.' {
            pieces.push(current);
            current = String::new();
            assert(views(pieces@) =~= before.push(views(pieces@).last()));
        } else {
            push_char(&mut current, cs[i]);
        }
        i = i + 1;
    }
    pieces.push(current);
    assert(cs@.take(cs@.len() as int) =~= cs@);
    pieces
}

/// The sentences of a text: the parts between full stops, trimmed, the empty
/// ones left out.
pub fn extract_sentences(text: &str) -> (r: Vec<String>)
    ensures
        views(r@) == trimmed_nonempty(dot_pieces(text@)),
{
    let pieces = split_dots(text);
    sentences_from(&pieces)
}

} // verus!

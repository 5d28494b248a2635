use vstd::prelude::*;

use crate::token::{chars_of, push_char};

verus! {

/// Whether `char::is_whitespace` holds of `c` (the Unicode White_Space property).
pub uninterp spec fn is_blank(c: char) -> bool;

/// Whether `char::is_alphanumeric` holds of `c` (Unicode Alphabetic or Numeric).
pub uninterp spec fn is_word_char(c: char) -> bool;

/// Relies on char::is_whitespace: the answer depends on the character alone.
#[verifier::external_body]
pub(crate) fn whitespace(c: char) -> (r: bool)
    ensures
        r == is_blank(c),
{
    c.is_whitespace()
}

/// Relies on char::is_alphanumeric: the answer depends on the character alone.
#[verifier::external_body]
pub(crate) fn alphanumeric(c: char) -> (r: bool)
    ensures
        r == is_word_char(c),
{
    c.is_alphanumeric()
}

/// The texts of a sequence of strings.
pub open spec fn views(v: Seq<String>) -> Seq<Seq<char>> {
    v.map_values(|w: String| w@)
}

/// The maximal runs of consecutive positions of `t` that `keep` marks, in order.
pub open spec fn runs(t: Seq<char>, keep: Seq<bool>) -> Seq<Seq<char>>
    decreases t.len(),
{
    if t.len() == 0 || keep.len() != t.len() {
        Seq::empty()
    } else {
        let n = t.len() - 1;
        let rest = runs(t.drop_last(), keep.drop_last());
        if !keep[n] {
            rest
        } else if n > 0 && keep[n - 1] {
            rest.update(rest.len() - 1, rest.last().push(t[n]))
        } else {
            rest.push(seq![t[n]])
        }
    }
}

/// `t` without the blanks at its start.
pub open spec fn trim_start(t: Seq<char>) -> Seq<char>
    decreases t.len(),
{
    if t.len() > 0 && is_blank(t[0]) {
        trim_start(t.drop_first())
    } else {
        t
    }
}

/// `t` without the blanks at its end.
pub open spec fn trim_end(t: Seq<char>) -> Seq<char>
    decreases t.len(),
{
    if t.len() > 0 && is_blank(t.last()) {
        trim_end(t.drop_last())
    } else {
        t
    }
}

/// `t` without the blanks around it.
pub open spec fn trim(t: Seq<char>) -> Seq<char> {
    trim_end(trim_start(t))
}

/// The texts of `pieces`, each trimmed, the empty ones left out.
pub open spec fn trimmed_nonempty(pieces: Seq<Seq<char>>) -> Seq<Seq<char>>
    decreases pieces.len(),
{
    if pieces.len() == 0 {
        Seq::empty()
    } else {
        let rest = trimmed_nonempty(pieces.drop_last());
        if trim(pieces.last()).len() > 0 {
            rest.push(trim(pieces.last()))
        } else {
            rest
        }
    }
}

/// Which characters of `cs` are not blank.
pub(crate) fn non_blank_marks(cs: &Vec<char>) -> (r: Vec<bool>)
    ensures
        r@ == cs@.map_values(|c: char| !is_blank(c)),
{
    let mut r: Vec<bool> = Vec::new();
    let mut i: usize = 0;
    while i < cs.len()
        invariant
            i <= cs@.len(),
            r@ == cs@.take(i as int).map_values(|c: char| !is_blank(c)),
        decreases cs@.len() - i,
    {
        r.push(!whitespace(cs[i]));
        assert(cs@.take(i + 1).map_values(|c: char| !is_blank(c)) =~= r@);
        i = i + 1;
    }
    assert(cs@.take(cs@.len() as int) =~= cs@);
    r
}

/// Which characters of `cs` are alphanumeric.
pub(crate) fn word_marks(cs: &Vec<char>) -> (r: Vec<bool>)
    ensures
        r@ == cs@.map_values(|c: char| is_word_char(c)),
{
    let mut r: Vec<bool> = Vec::new();
    let mut i: usize = 0;
    while i < cs.len()
        invariant
            i <= cs@.len(),
            r@ == cs@.take(i as int).map_values(|c: char| is_word_char(c)),
        decreases cs@.len() - i,
    {
        r.push(alphanumeric(cs[i]));
        assert(cs@.take(i + 1).map_values(|c: char| is_word_char(c)) =~= r@);
        i = i + 1;
    }
    assert(cs@.take(cs@.len() as int) =~= cs@);
    r
}

/// The maximal runs of the characters of `cs` that `keep` marks, left to right.
pub fn runs_of(cs: &Vec<char>, keep: &Vec<bool>) -> (r: Vec<String>)
    requires
        cs@.len() == keep@.len(),
    ensures
        views(r@) == runs(cs@, keep@),
{
    let mut words: Vec<String> = Vec::new();
    let mut current = String::new();
    let mut in_word = false;
    let mut i: usize = 0;
    while i < cs.len()
        invariant
            cs@.len() == keep@.len(),
            i <= cs@.len(),
            in_word == (i > 0 && keep@[i - 1]),
            in_word ==> views(words@).push(current@) == runs(
                cs@.take(i as int),
                keep@.take(i as int),
            ),
            !in_word ==> views(words@) == runs(cs@.take(i as int), keep@.take(i as int)),
        decreases cs@.len() - i,
    {
        let ghost t = cs@.take(i + 1);
        let ghost m = keep@.take(i + 1);
        proof {
            assert(t.drop_last() =~= cs@.take(i as int));
            assert(m.drop_last() =~= keep@.take(i as int));
        }
        if keep[i] {
            if !in_word {
                current = String::new();
                in_word = true;
            }
            push_char(&mut current, cs[i]);
        } else if in_word {
            let ghost before = views(words@);
            words.push(current);
            current = String::new();
            in_word = false;
            assert(views(words@) =~= before.push(views(words@).last()));
        }
        i = i + 1;
    }
    if in_word {
        words.push(current);
    }
    proof {
        assert(cs@.take(cs@.len() as int) =~= cs@);
        assert(keep@.take(keep@.len() as int) =~= keep@);
    }
    words
}

/// The characters of `cs` without the blanks around them.
pub fn trim_text(cs: &Vec<char>) -> (r: String)
    ensures
        r@ == trim(cs@),
{
    let n = cs.len();
    let mut lo: usize = 0;
    assert(cs@.skip(0) =~= cs@);
    while lo < n && whitespace(cs[lo])
        invariant
            n == cs@.len(),
            lo <= n,
            trim_start(cs@) == trim_start(cs@.skip(lo as int)),
        decreases n - lo,
    {
        assert(cs@.skip(lo as int).drop_first() =~= cs@.skip(lo + 1));
        lo = lo + 1;
    }
    let mut hi: usize = n;
    assert(cs@.skip(lo as int) =~= cs@.subrange(lo as int, n as int));
    while hi > lo && whitespace(cs[hi - 1])
        invariant
            n == cs@.len(),
            lo <= hi <= n,
            trim_start(cs@) == cs@.subrange(lo as int, n as int),
            trim(cs@) == trim_end(cs@.subrange(lo as int, hi as int)),
        decreases hi,
    {
        assert(cs@.subrange(lo as int, hi as int).drop_last() =~= cs@.subrange(
            lo as int,
            hi - 1,
        ));
        hi = hi - 1;
    }
    let mut r = String::new();
    let mut i: usize = lo;
    while i < hi
        invariant
            lo <= i <= hi <= n,
            n == cs@.len(),
            r@ == cs@.subrange(lo as int, i as int),
        decreases hi - i,
    {
        push_char(&mut r, cs[i]);
        assert(cs@.subrange(lo as int, i + 1) =~= cs@.subrange(lo as int, i as int).push(
            cs@[i as int],
        ));
        i = i + 1;
    }
    r
}

/// Each piece trimmed, the empty ones left out: what remains are sentences.
pub fn sentences_from(pieces: &Vec<String>) -> (r: Vec<String>)
    ensures
        views(r@) == trimmed_nonempty(views(pieces@)),
{
    let mut r: Vec<String> = Vec::new();
    let mut i: usize = 0;
    while i < pieces.len()
        invariant
            i <= pieces@.len(),
            views(r@) == trimmed_nonempty(views(pieces@.take(i as int))),
        decreases pieces@.len() - i,
    {
        let t = trim_text(&chars_of(pieces[i].as_str()));
        let ghost before = views(r@);
        assert(views(pieces@.take(i + 1)).drop_last() =~= views(pieces@.take(i as int)));
        if !t.as_str().is_empty() {
            r.push(t);
            assert(views(r@) =~= before.push(t@));
        }
        i = i + 1;
    }
    assert(pieces@.take(pieces@.len() as int) =~= pieces@);
    r
}

} // verus!

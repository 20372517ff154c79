//! Character sequences: occurrences of a pattern and leftmost replacement.

use vstd::prelude::*;
use vstd::std_specs::iter::IteratorSpec;

verus! {

/// `pattern` stands in `text` at index `at`.
pub open spec fn occurs_at(text: Seq<char>, pattern: Seq<char>, at: int) -> bool {
    &&& 0 <= at
    &&& at + pattern.len() <= text.len()
    &&& text.subrange(at, at + pattern.len()) == pattern
}

/// `pattern` stands somewhere in `text`.
pub open spec fn occurs(text: Seq<char>, pattern: Seq<char>) -> bool {
    exists|at: int| occurs_at(text, pattern, at)
}

/// `text` with every occurrence of `from` replaced by `to`. Occurrences are
/// taken from left to right and do not overlap: after one is replaced, the
/// search goes on behind it. An empty `from` occurs nowhere.
pub open spec fn replaced(text: Seq<char>, from: Seq<char>, to: Seq<char>) -> Seq<char>
    decreases text.len(),
{
    if from.len() == 0 || text.len() == 0 {
        text
    } else if occurs_at(text, from, 0) {
        to + replaced(text.subrange(from.len() as int, text.len() as int), from, to)
    } else {
        seq![text[0]] + replaced(text.subrange(1, text.len() as int), from, to)
    }
}

/// Puts the characters `more` behind those of `out`.
pub fn push_all(out: &mut Vec<char>, more: &[char])
    ensures
        final(out)@ == old(out)@ + more@,
{
    let ghost before = out@;
    let mut k: usize = 0;
    assert(out@ =~= before + more@.subrange(0, 0));
    while k < more.len()
        invariant
            k <= more.len(),
            out@ == before + more@.subrange(0, k as int),
        decreases more.len() - k,
    {
        out.push(more[k]);
        assert(out@ =~= before + more@.subrange(0, k + 1));
        k += 1;
    }
    assert(more@.subrange(0, more.len() as int) =~= more@);
}

/// Whether `pattern` stands in `text` at index `at`.
pub fn matches_at(text: &[char], pattern: &[char], at: usize) -> (found: bool)
    ensures
        found == occurs_at(text@, pattern@, at as int),
{
    if at > text.len() || pattern.len() > text.len() - at {
        return false;
    }
    let mut k: usize = 0;
    while k < pattern.len()
        invariant
            at + pattern.len() <= text.len(),
            k <= pattern.len(),
            forall|j: int| 0 <= j < k ==> text@[at + j] == pattern@[j],
        decreases pattern.len() - k,
    {
        if text[at + k] != pattern[k] {
            proof {
                let window = text@.subrange(at as int, at + pattern.len());
                assert(window[k as int] == text@[at + k]);
            }
            return false;
        }
        k += 1;
    }
    assert(text@.subrange(at as int, at + pattern.len()) =~= pattern@);
    true
}

/// Replaces every occurrence of `from` in `text` by `to`, from left to right
/// and without overlap.
pub fn replace_all(text: &[char], from: &[char], to: &[char]) -> (out: Vec<char>)
    ensures
        out@ == replaced(text@, from@, to@),
{
    let mut out: Vec<char> = Vec::new();
    let mut i: usize = 0;
    assert(text@.subrange(0, text.len() as int) =~= text@);
    assert(out@ + replaced(text@, from@, to@) =~= replaced(text@, from@, to@));
    while i < text.len()
        invariant
            i <= text.len(),
            out@ + replaced(text@.subrange(i as int, text.len() as int), from@, to@) == replaced(
                text@,
                from@,
                to@,
            ),
        decreases text.len() - i,
    {
        let ghost rest = text@.subrange(i as int, text.len() as int);
        let ghost done = out@;
        if from.len() > 0 && matches_at(text, from, i) {
            assert(rest.subrange(0, from.len() as int) =~= text@.subrange(
                i as int,
                i + from.len(),
            ));
            assert(rest.subrange(from.len() as int, rest.len() as int) =~= text@.subrange(
                i + from.len(),
                text.len() as int,
            ));
            push_all(&mut out, to);
            i += from.len();
            assert(out@ + replaced(text@.subrange(i as int, text.len() as int), from@, to@)
                =~= done + replaced(rest, from@, to@));
        } else {
            proof {
                if from.len() > 0 && i + from.len() <= text.len() {
                    assert(rest.subrange(0, from.len() as int) =~= text@.subrange(
                        i as int,
                        i + from.len(),
                    ));
                }
            }
            assert(rest.subrange(1, rest.len() as int) =~= text@.subrange(
                i + 1,
                text.len() as int,
            ));
            out.push(text[i]);
            i += 1;
            proof {
                lemma_replaced_of_unmatched_head(rest, from@, to@);
            }
            assert(out@ + replaced(text@.subrange(i as int, text.len() as int), from@, to@)
                =~= done + replaced(rest, from@, to@));
        }
    }
    assert(text@.subrange(i as int, text.len() as int) =~= Seq::<char>::empty());
    assert(out@ + Seq::<char>::empty() =~= out@);
    out
}

/// Where `from` does not stand at the head of a text that is not empty, the
/// head stays and the replacement goes on behind it.
pub proof fn lemma_replaced_of_unmatched_head(text: Seq<char>, from: Seq<char>, to: Seq<char>)
    requires
        text.len() > 0,
        from.len() == 0 || !occurs_at(text, from, 0),
    ensures
        replaced(text, from, to) == seq![text[0]] + replaced(
            text.subrange(1, text.len() as int),
            from,
            to,
        ),
    decreases text.len(),
{
    if from.len() == 0 {
        assert(seq![text[0]] + text.subrange(1, text.len() as int) =~= text);
    }
}

/// An occurrence in the text behind the first character is an occurrence in
/// the whole text, one place further on.
pub proof fn lemma_occurs_behind_head(text: Seq<char>, pattern: Seq<char>, at: int)
    requires
        text.len() > 0,
        occurs_at(text.subrange(1, text.len() as int), pattern, at),
    ensures
        occurs_at(text, pattern, at + 1),
{
    let tail = text.subrange(1, text.len() as int);
    assert(text.subrange(at + 1, at + 1 + pattern.len()) =~= tail.subrange(
        at,
        at + pattern.len(),
    ));
}

/// An occurrence in the back part of a text is an occurrence in the whole
/// text, further on by the length of the front part.
pub proof fn lemma_occurs_behind_front(
    front: Seq<char>,
    back: Seq<char>,
    pattern: Seq<char>,
    at: int,
)
    requires
        occurs_at(back, pattern, at),
    ensures
        occurs_at(front + back, pattern, at + front.len()),
{
    assert((front + back).subrange(at + front.len(), at + front.len() + pattern.len())
        =~= back.subrange(at, at + pattern.len()));
}

/// An occurrence that begins behind the front part of a text is an
/// occurrence in the back part.
pub proof fn lemma_occurs_within_back(
    front: Seq<char>,
    back: Seq<char>,
    pattern: Seq<char>,
    at: int,
)
    requires
        occurs_at(front + back, pattern, at),
        at >= front.len(),
    ensures
        occurs_at(back, pattern, at - front.len()),
{
    assert((front + back).subrange(at, at + pattern.len()) =~= back.subrange(
        at - front.len(),
        at - front.len() + pattern.len(),
    ));
}

/// Where a pattern occurs, the text holds the pattern's characters one by
/// one.
pub proof fn lemma_occurrence_chars(text: Seq<char>, pattern: Seq<char>, at: int)
    requires
        occurs_at(text, pattern, at),
    ensures
        forall|r: int| 0 <= r < pattern.len() ==> text[at + r] == #[trigger] pattern[r],
{
    assert forall|r: int| 0 <= r < pattern.len() implies text[at + r] == #[trigger] pattern[r] by {
        assert(text.subrange(at, at + pattern.len())[r] == text[at + r]);
    }
}

/// A text in which `from` does not occur is left as it is.
pub proof fn lemma_replaced_without_occurrence(text: Seq<char>, from: Seq<char>, to: Seq<char>)
    requires
        !occurs(text, from),
    ensures
        replaced(text, from, to) == text,
    decreases text.len(),
{
    if from.len() > 0 && text.len() > 0 {
        let tail = text.subrange(1, text.len() as int);
        assert(!occurs_at(text, from, 0));
        assert(!occurs(tail, from)) by {
            if occurs(tail, from) {
                let at = choose|at: int| occurs_at(tail, from, at);
                lemma_occurs_behind_head(text, from, at);
            }
        }
        lemma_replaced_without_occurrence(tail, from, to);
        assert(seq![text[0]] + tail =~= text);
    }
}

/// The characters of `s`, in order.
pub fn to_chars(s: &str) -> (out: Vec<char>)
    ensures
        out@ == s@,
{
    let mut out: Vec<char> = Vec::new();
    let mut rest = s.chars();
    proof {
        vstd::string::axiom_spec_iter(s);
    }
    loop
        invariant
            rest.obeys_prophetic_iter_laws(),
            out@ + rest.remaining() == s@,
            rest.decrease() is Some,
        decreases rest.decrease()->0,
    {
        let ghost before = rest;
        let next = rest.next();
        proof {
            vstd::string::next_postcondition(&before, &rest, next);
        }
        match next {
            Some(c) => {
                out.push(c);
                assert(out@ + rest.remaining() =~= s@);
            },
            None => {
                assert(out@ =~= s@);
                return out;
            },
        }
    }
}

/// `String::push` of the standard library: the string afterwards is the
/// string before with `ch` behind its last character.
pub assume_specification[ String::push ](s: &mut String, ch: char)
    ensures
        final(s)@ == old(s)@.push(ch),
;

/// The string whose characters are `chars`, in order.
pub fn from_chars(chars: &[char]) -> (out: String)
    ensures
        out@ == chars@,
{
    let mut out = String::new();
    let mut i: usize = 0;
    while i < chars.len()
        invariant
            i <= chars.len(),
            out@ == chars@.subrange(0, i as int),
        decreases chars.len() - i,
    {
        out.push(chars[i]);
        assert(out@ =~= chars@.subrange(0, i + 1));
        i += 1;
    }
    assert(chars@.subrange(0, chars.len() as int) =~= chars@);
    out
}

} // verus!

//! The shape of the import patterns, and the aliases and names that the
//! laws of the rewrite speak of.

use crate::rewrite::patterns;
use vstd::prelude::*;

verus! {

/// An opening quote, double or single.
pub open spec fn is_quote(c: char) -> bool {
    c == '"' || c == '\''
}

/// `text` holds no quote.
pub open spec fn has_no_quote(text: Seq<char>) -> bool {
    forall|i: int| 0 <= i < text.len() ==> !is_quote(#[trigger] text[i])
}

/// `head` is how `text` begins.
pub open spec fn begins_with(text: Seq<char>, head: Seq<char>) -> bool {
    head.len() <= text.len() && text.subrange(0, head.len() as int) == head
}

/// One of the two is how the other begins.
pub open spec fn one_begins_the_other(a: Seq<char>, b: Seq<char>) -> bool {
    begins_with(a, b) || begins_with(b, a)
}

/// What the alias puts in front of `name`, and `name`.
pub open spec fn aliased_name(alias: Seq<char>, name: Seq<char>) -> Seq<char> {
    alias + seq!['/'] + name
}

/// A keyword that holds no quote, blank or slash, then a blank, then a
/// quote.
pub open spec fn is_keyword_blank_quote(pattern: Seq<char>) -> bool {
    &&& pattern.len() >= 3
    &&& pattern[pattern.len() - 2] == ' '
    &&& is_quote(pattern[pattern.len() - 1])
    &&& forall|r: int|
        0 <= r < pattern.len() - 2 ==> !is_quote(#[trigger] pattern[r]) && pattern[r] != ' '
            && pattern[r] != '/'
}

/// The alias holds no quote.
pub open spec fn alias_is_tame(alias: Seq<char>) -> bool {
    has_no_quote(alias)
}

/// What the name of a file can be: it is not empty and holds neither a
/// quote nor a slash.
pub open spec fn name_is_plain(name: Seq<char>) -> bool {
    &&& name.len() > 0
    &&& forall|i: int| 0 <= i < name.len() ==> !is_quote(#[trigger] name[i]) && name[i] != '/'
}

/// The name is plain and the alias does not begin with it.
pub open spec fn name_is_tame(alias: Seq<char>, name: Seq<char>) -> bool {
    &&& name_is_plain(name)
    &&& !begins_with(alias, name)
}

/// A plain name that the alias does not begin with neither begins an
/// aliased name nor begins with one.
pub proof fn lemma_name_is_no_aliased_name(alias: Seq<char>, name: Seq<char>, other: Seq<char>)
    requires
        name_is_tame(alias, other),
    ensures
        !one_begins_the_other(other, aliased_name(alias, name)),
{
    let full = aliased_name(alias, name);
    let slash = alias.len() as int;
    assert(full[slash] == '/');
    if begins_with(full, other) {
        if other.len() <= alias.len() {
            assert(alias.subrange(0, other.len() as int) =~= full.subrange(0, other.len() as int));
        } else {
            assert(full.subrange(0, other.len() as int)[slash] == full[slash]);
            assert(other[slash] != '/');
        }
    }
    if begins_with(other, full) {
        assert(other.subrange(0, full.len() as int)[slash] == other[slash]);
        assert(other[slash] != '/');
    }
}

/// Behind the same alias, two names of which neither begins the other give
/// aliased names of which neither begins the other.
pub proof fn lemma_aliased_strangers(alias: Seq<char>, name: Seq<char>, stranger: Seq<char>)
    requires
        !one_begins_the_other(stranger, name),
    ensures
        !one_begins_the_other(aliased_name(alias, stranger), aliased_name(alias, name)),
{
    let a = aliased_name(alias, stranger);
    let b = aliased_name(alias, name);
    let lead = alias.len() + 1;
    if begins_with(a, b) {
        assert(stranger.subrange(0, name.len() as int) =~= name) by {
            assert forall|r: int| 0 <= r < name.len() implies stranger[r] == name[r] by {
                assert(a.subrange(0, b.len() as int)[lead + r] == a[lead + r]);
                assert(b[lead + r] == name[r]);
                assert(a[lead + r] == stranger[r]);
            }
        }
    }
    if begins_with(b, a) {
        assert(name.subrange(0, stranger.len() as int) =~= stranger) by {
            assert forall|r: int| 0 <= r < stranger.len() implies stranger[r] == name[r] by {
                assert(b.subrange(0, a.len() as int)[lead + r] == b[lead + r]);
                assert(b[lead + r] == name[r]);
                assert(a[lead + r] == stranger[r]);
            }
        }
    }
}

/// An aliased name holds no quote where neither the alias nor the name
/// does.
pub proof fn lemma_aliased_name_has_no_quote(alias: Seq<char>, name: Seq<char>)
    requires
        has_no_quote(alias),
        has_no_quote(name),
    ensures
        has_no_quote(aliased_name(alias, name)),
{
    let full = aliased_name(alias, name);
    assert forall|i: int| 0 <= i < full.len() implies !is_quote(#[trigger] full[i]) by {
        if i < alias.len() {
            assert(full[i] == alias[i]);
        } else if i > alias.len() {
            assert(full[i] == name[i - alias.len() - 1]);
        }
    }
}

/// Every pattern is a keyword, a blank and a quote.
pub proof fn lemma_patterns_shape()
    ensures
        patterns().len() == 4,
        forall|k: int| 0 <= k < 4 ==> is_keyword_blank_quote(#[trigger] patterns()[k]),
{
    assert(is_keyword_blank_quote(patterns()[0]));
    assert(is_keyword_blank_quote(patterns()[1]));
    assert(is_keyword_blank_quote(patterns()[2]));
    assert(is_keyword_blank_quote(patterns()[3]));
}

/// No pattern is the end of another pattern: where the pattern at `inner`
/// stands in the one at `outer` from `offset` to its end, the two are one.
pub proof fn lemma_pattern_ends_no_other(outer: int, inner: int, offset: int)
    requires
        0 <= outer < 4,
        0 <= inner < 4,
        0 <= offset,
        offset + patterns()[inner].len() == patterns()[outer].len(),
        forall|r: int|
            0 <= r < patterns()[inner].len() ==> patterns()[outer][offset + r]
                == patterns()[inner][r],
    ensures
        offset == 0,
        outer == inner,
{
    let o = patterns()[outer];
    let i = patterns()[inner];
    assert(i.len() == 6 || i.len() == 8);
    assert(o.len() == 6 || o.len() == 8);
    assert(o[offset + 0] == i[0]);
    assert(o[offset + i.len() - 1] == i[i.len() - 1]);
}

} // verus!

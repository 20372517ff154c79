//! The rewrite of one file's text: every import pattern that is directly
//! followed by the name of a root entry gets the alias put in between.

use crate::entry::{names_of, RootEntry};
use crate::text::{from_chars, push_all, replace_all, replaced, to_chars};
use vstd::prelude::*;

verus! {

/// The import patterns, in the order in which they are applied: `from` and
/// `import`, each followed by a blank and an opening quote, double or single.
pub open spec fn patterns() -> Seq<Seq<char>> {
    seq![
        seq!['f', 'r', 'o', 'm', ' ', '"'],
        seq!['f', 'r', 'o', 'm', ' ', '\''],
        seq!['i', 'm', 'p', 'o', 'r', 't', ' ', '"'],
        seq!['i', 'm', 'p', 'o', 'r', 't', ' ', '\''],
    ]
}

/// What is searched for: `pattern` directly followed by `name`.
pub open spec fn matcher(pattern: Seq<char>, name: Seq<char>) -> Seq<char> {
    pattern + name
}

/// What a match is replaced by: `pattern`, the alias, a slash, `name`.
pub open spec fn destination(pattern: Seq<char>, alias: Seq<char>, name: Seq<char>) -> Seq<char> {
    pattern + alias + seq!['/'] + name
}

/// `text` after the first `count` patterns have been applied for `name`,
/// one after the other, each to what the one before it left.
pub open spec fn aliased_through(text: Seq<char>, alias: Seq<char>, name: Seq<char>, count: nat) -> Seq<
    char,
>
    decreases count,
{
    if count == 0 || count > patterns().len() {
        text
    } else {
        let pattern = patterns()[count - 1];
        replaced(
            aliased_through(text, alias, name, (count - 1) as nat),
            matcher(pattern, name),
            destination(pattern, alias, name),
        )
    }
}

/// `text` after every pattern has been applied for `name`.
pub open spec fn aliased(text: Seq<char>, alias: Seq<char>, name: Seq<char>) -> Seq<char> {
    aliased_through(text, alias, name, patterns().len())
}

/// `text` after every pattern has been applied for every one of `names`,
/// name by name in the order given, each to what the one before it left.
pub open spec fn rewritten(text: Seq<char>, alias: Seq<char>, names: Seq<Seq<char>>) -> Seq<char>
    decreases names.len(),
{
    if names.len() == 0 {
        text
    } else {
        aliased(rewritten(text, alias, names.drop_last()), alias, names.last())
    }
}

/// The pattern at `index`.
fn pattern_at(index: usize) -> (pattern: Vec<char>)
    requires
        index < patterns().len(),
    ensures
        pattern@ == patterns()[index as int],
{
    let mut pattern: Vec<char> = if index < 2 {
        vec!['f', 'r', 'o', 'm', ' ']
    } else {
        vec!['i', 'm', 'p', 'o', 'r', 't', ' ']
    };
    if index % 2 == 0 {
        pattern.push('"');
    } else {
        pattern.push('\'');
    }
    assert(pattern@ =~= patterns()[index as int]);
    pattern
}

/// Applies every pattern for `name` to `text`.
pub fn alias_name(text: Vec<char>, alias: &[char], name: &[char]) -> (out: Vec<char>)
    ensures
        out@ == aliased(text@, alias@, name@),
{
    let ghost start = text@;
    let mut text = text;
    let mut k: usize = 0;
    while k < 4
        invariant
            k <= 4,
            patterns().len() == 4,
            text@ == aliased_through(start, alias@, name@, k as nat),
        decreases 4 - k,
    {
        let pattern = pattern_at(k);
        let mut from: Vec<char> = Vec::new();
        push_all(&mut from, pattern.as_slice());
        push_all(&mut from, name);
        let mut to: Vec<char> = pattern;
        push_all(&mut to, alias);
        to.push('/');
        push_all(&mut to, name);
        assert(from@ =~= matcher(patterns()[k as int], name@));
        assert(to@ =~= destination(patterns()[k as int], alias@, name@));
        text = replace_all(text.as_slice(), from.as_slice(), to.as_slice());
        k += 1;
    }
    text
}

/// The text of one file, rewritten: wherever a pattern is directly followed
/// by the name of one of `root_entries`, the alias and a slash are put
/// between the two. The entries are taken in the order given and, for each,
/// the patterns in their fixed order; each replacement works on what the one
/// before it left.
pub fn inject(content: &str, alias: &str, root_entries: &[RootEntry]) -> (out: String)
    ensures
        out@ == rewritten(content@, alias@, names_of(root_entries@)),
{
    let alias_chars = to_chars(alias);
    let mut text = to_chars(content);
    let mut i: usize = 0;
    assert(names_of(root_entries@).subrange(0, 0) =~= Seq::<Seq<char>>::empty());
    while i < root_entries.len()
        invariant
            i <= root_entries.len(),
            alias_chars@ == alias@,
            text@ == rewritten(content@, alias@, names_of(root_entries@).subrange(0, i as int)),
        decreases root_entries.len() - i,
    {
        let name = to_chars(root_entries[i].file_name.as_str());
        proof {
            let now = names_of(root_entries@).subrange(0, i + 1);
            assert(now.drop_last() =~= names_of(root_entries@).subrange(0, i as int));
            assert(now.last() == name@);
        }
        text = alias_name(text, alias_chars.as_slice(), name.as_slice());
        i += 1;
    }
    assert(names_of(root_entries@).subrange(0, root_entries.len() as int) =~= names_of(
        root_entries@,
    ));
    from_chars(text.as_slice())
}

} // verus!

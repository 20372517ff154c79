//! What holds of every rewrite and of every walk.

use crate::entry::{child_spec, is_kept, kept_children};
use crate::passes::{
    lemma_aliased_stranger_resists, lemma_rewrite_leaves_no_match, lemma_rewrite_leaves_stranger,
    lemma_rewrite_makes_no_match, overlaps_itself, resists, sought,
};
use crate::rewrite::{aliased_through, destination, matcher, patterns, rewritten};
use crate::shape::{
    alias_is_tame, aliased_name, has_no_quote, lemma_patterns_shape, name_is_plain, name_is_tame,
    one_begins_the_other,
};
use crate::text::{lemma_replaced_without_occurrence, occurs, occurs_at};
use crate::walk::{
    allowed_extensions, listing_at, step_for, steps_of, walked, DirEntry, EntryKind, Step,
};
use std::path::PathBuf;
use vstd::prelude::*;

verus! {

/// Some pattern is directly followed by `name` somewhere in `text`.
pub open spec fn refers_to(text: Seq<char>, name: Seq<char>) -> bool {
    exists|k: int| 0 <= k < patterns().len() && occurs(text, matcher(#[trigger] patterns()[k], name))
}

/// A text in which no pattern is directly followed by `name` is left as it
/// is when the patterns are applied for `name`.
pub proof fn lemma_aliased_without_reference(
    text: Seq<char>,
    alias: Seq<char>,
    name: Seq<char>,
    count: nat,
)
    requires
        !refers_to(text, name),
    ensures
        aliased_through(text, alias, name, count) == text,
    decreases count,
{
    if 0 < count <= patterns().len() {
        lemma_aliased_without_reference(text, alias, name, (count - 1) as nat);
        let pattern = patterns()[count - 1];
        assert(!occurs(text, matcher(pattern, name)));
        lemma_replaced_without_occurrence(
            text,
            matcher(pattern, name),
            destination(pattern, alias, name),
        );
    }
}

/// A text is rewritten only where a pattern is directly followed by the name
/// of an entry: one in which that happens for none of `names` comes back
/// unchanged, whatever else stands behind its patterns, be it the name of an
/// excluded child or a placeholder.
pub proof fn law_text_without_reference_is_kept(
    text: Seq<char>,
    alias: Seq<char>,
    names: Seq<Seq<char>>,
)
    requires
        forall|i: int| 0 <= i < names.len() ==> !refers_to(text, #[trigger] names[i]),
    ensures
        rewritten(text, alias, names) == text,
    decreases names.len(),
{
    if names.len() > 0 {
        law_text_without_reference_is_kept(text, alias, names.drop_last());
        lemma_aliased_without_reference(text, alias, names.last(), patterns().len());
    }
}

/// Some matcher of `names` occurs in `text` twice, the second time
/// beginning inside the first, as `import "ui` does in `import "uimport "ui`.
/// Of two such occurrences a rewrite replaces only the first.
pub open spec fn some_match_overlaps_itself(text: Seq<char>, names: Seq<Seq<char>>) -> bool {
    exists|i: int, k: int|
        0 <= i < names.len() && 0 <= k < patterns().len() && overlaps_itself(
            text,
            matcher(#[trigger] patterns()[k], #[trigger] names[i]),
        )
}

/// After a rewrite no pattern is directly followed by the name of an entry
/// any more. This holds where the alias holds no quote, every name is the
/// name of a file that the alias does not begin with, and no matcher
/// overlaps itself in the text.
pub proof fn law_rewritten_text_refers_to_no_name(
    text: Seq<char>,
    alias: Seq<char>,
    names: Seq<Seq<char>>,
)
    requires
        alias_is_tame(alias),
        forall|i: int| 0 <= i < names.len() ==> name_is_tame(alias, #[trigger] names[i]),
        !some_match_overlaps_itself(text, names),
    ensures
        forall|i: int|
            0 <= i < names.len() ==> !refers_to(rewritten(text, alias, names), #[trigger] names[i]),
{
    let once = rewritten(text, alias, names);
    lemma_patterns_shape();
    assert forall|i: int| 0 <= i < names.len() implies !refers_to(once, #[trigger] names[i]) by {
        if refers_to(once, names[i]) {
            let k = choose|k: int|
                0 <= k < patterns().len() && occurs(once, matcher(#[trigger] patterns()[k], names[i]));
            let at = choose|at: int| occurs_at(once, matcher(patterns()[k], names[i]), at);
            lemma_rewrite_leaves_no_match(text, alias, names, k, names[i], at);
            assert(sought(k, names[i]) == matcher(patterns()[k], names[i]));
            assert(overlaps_itself(text, matcher(patterns()[k], names[i])));
        }
    }
}

/// A second rewrite changes nothing: the rewrite of a rewritten text is that
/// text. This holds where the alias holds no quote, every name is the name
/// of a file that the alias does not begin with, and no matcher overlaps
/// itself in the text.
pub proof fn law_second_rewrite_changes_nothing(
    text: Seq<char>,
    alias: Seq<char>,
    names: Seq<Seq<char>>,
)
    requires
        alias_is_tame(alias),
        forall|i: int| 0 <= i < names.len() ==> name_is_tame(alias, #[trigger] names[i]),
        !some_match_overlaps_itself(text, names),
    ensures
        rewritten(rewritten(text, alias, names), alias, names) == rewritten(text, alias, names),
{
    law_rewritten_text_refers_to_no_name(text, alias, names);
    law_text_without_reference_is_kept(rewritten(text, alias, names), alias, names);
}

/// A rewrite puts the alias in front of no name but those of the entries:
/// for a name that neither begins the name of an entry nor begins with one,
/// a pattern is directly followed by the alias, a slash and that name in the
/// rewritten text only where it was so in the text before. This holds where
/// neither the alias nor that name holds a quote and the names of the
/// entries are names of files.
pub proof fn law_no_alias_for_an_unrelated_name(
    text: Seq<char>,
    alias: Seq<char>,
    names: Seq<Seq<char>>,
    stranger: Seq<char>,
    k: int,
)
    requires
        alias_is_tame(alias),
        forall|i: int| 0 <= i < names.len() ==> name_is_plain(#[trigger] names[i]),
        has_no_quote(stranger),
        forall|i: int| 0 <= i < names.len() ==> !one_begins_the_other(stranger, #[trigger] names[i]),
        0 <= k < patterns().len(),
        occurs(rewritten(text, alias, names), destination(patterns()[k], alias, stranger)),
    ensures
        occurs(text, destination(patterns()[k], alias, stranger)),
{
    lemma_patterns_shape();
    let once = rewritten(text, alias, names);
    let body = aliased_name(alias, stranger);
    assert(destination(patterns()[k], alias, stranger) =~= sought(k, body));
    if names.len() > 0 {
        let at = choose|at: int| occurs_at(once, sought(k, body), at);
        assert forall|e: int, j: int| 0 <= e < names.len() && 0 <= j < 4 implies #[trigger] resists(
            sought(k, body),
            j,
            alias,
            names[e],
        ) by {
            lemma_aliased_stranger_resists(k, stranger, j, alias, names[e]);
        }
        lemma_rewrite_makes_no_match(text, alias, names, 4, k, body, at);
    }
}

/// A reference to an unrelated name stays: where a pattern is directly
/// followed by a name that neither begins the name of an entry nor begins
/// with one, it still is in the rewritten text. This holds where neither
/// that name nor the name of any entry holds a quote.
pub proof fn law_reference_to_an_unrelated_name_stays(
    text: Seq<char>,
    alias: Seq<char>,
    names: Seq<Seq<char>>,
    stranger: Seq<char>,
    k: int,
)
    requires
        forall|i: int| 0 <= i < names.len() ==> has_no_quote(#[trigger] names[i]),
        has_no_quote(stranger),
        forall|i: int| 0 <= i < names.len() ==> !one_begins_the_other(stranger, #[trigger] names[i]),
        0 <= k < patterns().len(),
        occurs(text, matcher(patterns()[k], stranger)),
    ensures
        occurs(rewritten(text, alias, names), matcher(patterns()[k], stranger)),
{
    lemma_patterns_shape();
    if names.len() > 0 {
        lemma_rewrite_leaves_stranger(text, alias, names, 4, k, stranger);
    }
}

/// An excluded child is no entry: every entry of a root is one of its
/// children, and none bears an excluded name. So no excluded child is
/// walked, and no reference is rewritten for the sake of its name.
pub proof fn law_excluded_child_is_no_entry(
    children: Seq<(String, PathBuf)>,
    excluded: Seq<Seq<char>>,
    i: int,
)
    requires
        0 <= i < kept_children(children, excluded).len(),
    ensures
        !excluded.contains(kept_children(children, excluded)[i].name),
        exists|j: int|
            0 <= j < children.len() && child_spec(#[trigger] children[j]) == kept_children(
                children,
                excluded,
            )[i],
{
    let kept = children.filter(is_kept(excluded));
    children.lemma_filter_pred(is_kept(excluded), i);
    children.lemma_filter_contains_rev(is_kept(excluded), kept[i]);
    let j = choose|j: int| 0 <= j < children.len() && children[j] == kept[i];
    assert(child_spec(children[j]) == kept_children(children, excluded)[i]);
}

/// A file is rewritten only for its extension: an entry of a listing asks
/// for a rewrite exactly when it is a regular file with an extension that is
/// one of the allowed ones. A file without extension asks for none. A
/// directory is listed whatever its name. An entry that is neither a
/// directory nor a regular file is never passed over: it is refused, which
/// ends the walk. Only a regular file that is no source file asks for no
/// step.
pub proof fn law_only_source_files_are_rewritten(entry: DirEntry)
    ensures
        step_for(entry) == Some(Step::Rewrite(entry.path)) <==> (entry.kind == EntryKind::File
            && entry.extension is Some && allowed_extensions().contains(
            entry.extension->0@,
        )),
        step_for(entry) == Some(Step::List(entry.path)) <==> entry.kind == EntryKind::Directory,
        step_for(entry) == Some(Step::Refuse(entry.path)) <==> entry.kind == EntryKind::Other,
        step_for(entry) is None <==> (entry.kind == EntryKind::File && !(entry.extension is Some
            && allowed_extensions().contains(entry.extension->0@))),
{
}

/// Every step that a listing asks for is the step of one of its entries.
pub proof fn law_steps_come_from_entries(listing: Seq<DirEntry>, i: int)
    requires
        0 <= i < steps_of(listing).len(),
    ensures
        exists|j: int|
            0 <= j < listing.len() && step_for(#[trigger] listing[j]) == Some(steps_of(listing)[i]),
    decreases listing.len(),
{
    let rest = listing.drop_first();
    if step_for(listing[0]) is Some && i == 0 {
        assert(step_for(listing[0]) == Some(steps_of(listing)[0]));
    } else {
        let shifted = if step_for(listing[0]) is Some {
            i - 1
        } else {
            i
        };
        law_steps_come_from_entries(rest, shifted);
        let j = choose|j: int|
            0 <= j < rest.len() && step_for(#[trigger] rest[j]) == Some(steps_of(rest)[shifted]);
        assert(listing[j + 1] == rest[j]);
    }
}

/// The step at `j` lists the directory at `place`, and the listing there
/// asks for `step`.
pub open spec fn is_found_by(
    steps: Seq<Step>,
    tree: Map<PathBuf, Seq<DirEntry>>,
    j: int,
    place: PathBuf,
    step: Step,
) -> bool {
    &&& 0 <= j < steps.len()
    &&& steps[j] == Step::List(place)
    &&& steps_of(listing_at(tree, place)).contains(step)
}

/// Nothing is opened that was not found: every step of a walk is one that
/// the walk began with, or one that the listing of a directory asked for
/// which the walk had listed before. With [`law_steps_come_from_entries`]
/// and [`law_only_source_files_are_rewritten`]: a file is rewritten only if
/// it is a source file found below an entry of the root, and a directory is
/// listed only if it is such an entry or was found below one.
pub proof fn law_every_step_has_a_source(
    agenda: Seq<Step>,
    tree: Map<PathBuf, Seq<DirEntry>>,
    limit: nat,
    i: int,
)
    requires
        0 <= i < walked(agenda, tree, limit).len(),
    ensures
        agenda.contains(walked(agenda, tree, limit)[i]) || exists|j: int, place: PathBuf|
            j < i && #[trigger] is_found_by(
                walked(agenda, tree, limit),
                tree,
                j,
                place,
                walked(agenda, tree, limit)[i],
            ),
    decreases limit,
{
    let all = walked(agenda, tree, limit);
    let step = all[i];
    let found = match agenda[0] {
        Step::List(place) => steps_of(listing_at(tree, place)),
        Step::Rewrite(_) => Seq::empty(),
        Step::Refuse(_) => Seq::empty(),
    };
    let then = match agenda[0] {
        Step::Refuse(_) => Seq::empty(),
        _ => found + agenda.drop_first(),
    };
    let later = walked(then, tree, (limit - 1) as nat);
    assert(then =~= match agenda[0] {
        Step::List(place) => steps_of(listing_at(tree, place)) + agenda.drop_first(),
        Step::Rewrite(_) => agenda.drop_first(),
        Step::Refuse(_) => Seq::empty(),
    });
    assert(all == seq![agenda[0]] + later);
    if i == 0 {
        assert(agenda[0] == step);
    } else {
        assert(later[i - 1] == step);
        law_every_step_has_a_source(then, tree, (limit - 1) as nat, i - 1);
        if then.contains(step) {
            let a = choose|a: int| 0 <= a < then.len() && then[a] == step;
            if a < found.len() {
                assert(found[a] == step);
                match agenda[0] {
                    Step::List(place) => {
                        assert(is_found_by(all, tree, 0, place, step));
                    },
                    Step::Rewrite(_) => {},
                    Step::Refuse(_) => {},
                }
            } else {
                assert(agenda[a - found.len() + 1] == step);
            }
        } else {
            let (j, place) = choose|j: int, place: PathBuf|
                j < i - 1 && #[trigger] is_found_by(later, tree, j, place, step);
            assert(all[j + 1] == later[j]);
            assert(is_found_by(all, tree, j + 1, place, step));
        }
    }
}

/// A refusal ends the walk: no step follows a `Refuse` step.
pub proof fn law_refusal_is_the_last_step(
    agenda: Seq<Step>,
    tree: Map<PathBuf, Seq<DirEntry>>,
    limit: nat,
    i: int,
)
    requires
        0 <= i < walked(agenda, tree, limit).len(),
        walked(agenda, tree, limit)[i] is Refuse,
    ensures
        i == walked(agenda, tree, limit).len() - 1,
    decreases limit,
{
    let then = match agenda[0] {
        Step::List(place) => steps_of(listing_at(tree, place)) + agenda.drop_first(),
        Step::Rewrite(_) => agenda.drop_first(),
        Step::Refuse(_) => Seq::empty(),
    };
    let later = walked(then, tree, (limit - 1) as nat);
    assert(walked(agenda, tree, limit) == seq![agenda[0]] + later);
    if i > 0 {
        assert(later[i - 1] == walked(agenda, tree, limit)[i]);
        law_refusal_is_the_last_step(then, tree, (limit - 1) as nat, i - 1);
    }
}

} // verus!

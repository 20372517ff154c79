//! The top-level children of the scanned root that references are rewritten
//! towards.

use std::path::PathBuf;
use vstd::prelude::*;

verus! {

/// `std::path::PathBuf`: a location in the file system. The library carries
/// such a value from where it was found to where it is used and never looks
/// into it.
#[verifier::external_type_specification]
#[verifier::external_body]
pub struct ExPathBuf(PathBuf);

/// `Clone::clone` of `std::path::PathBuf`: the copy is the same location.
pub assume_specification[ <PathBuf as Clone>::clone ](path: &PathBuf) -> (copy: PathBuf)
    ensures
        copy == *path,
;

/// One top-level child of the scanned root: a name that imports may refer
/// to, and the place where the child lies.
pub struct RootEntry {
    pub file_name: String,
    pub path: PathBuf,
}

/// What a [`RootEntry`] stands for: its name as characters, and its place.
pub struct RootEntrySpec {
    pub name: Seq<char>,
    pub path: PathBuf,
}

impl View for RootEntry {
    type V = RootEntrySpec;

    open spec fn view(&self) -> RootEntrySpec {
        RootEntrySpec { name: self.file_name@, path: self.path }
    }
}

impl RootEntry {
    /// The entry of the child called `file_name` that lies at `path`.
    pub fn new(file_name: String, path: PathBuf) -> (entry: RootEntry)
        ensures
            entry@ == (RootEntrySpec { name: file_name@, path: path }),
    {
        RootEntry { file_name, path }
    }
}

/// The names of `entries`, in order.
pub open spec fn names_of(entries: Seq<RootEntry>) -> Seq<Seq<char>> {
    entries.map_values(|e: RootEntry| e.file_name@)
}

/// The views of `strings`, in order.
pub open spec fn views_of(strings: Seq<String>) -> Seq<Seq<char>> {
    strings.map_values(|s: String| s@)
}

/// No two entries bear the same name.
pub open spec fn names_are_unique(entries: Seq<RootEntrySpec>) -> bool {
    forall|i: int, j: int| 0 <= i < j < entries.len() ==> entries[i].name != entries[j].name
}

/// No two children bear the same name, as in the listing of one directory.
pub open spec fn children_are_unique(children: Seq<(String, PathBuf)>) -> bool {
    forall|i: int, j: int| 0 <= i < j < children.len() ==> children[i].0@ != children[j].0@
}

/// Whether `name` is one of `names`.
pub fn is_listed(names: &[String], name: &String) -> (listed: bool)
    ensures
        listed == views_of(names@).contains(name@),
{
    let mut i: usize = 0;
    while i < names.len()
        invariant
            i <= names.len(),
            forall|j: int| 0 <= j < i ==> names@[j]@ != name@,
        decreases names.len() - i,
    {
        if names[i] == *name {
            assert(views_of(names@)[i as int] == name@);
            return true;
        }
        i += 1;
    }
    false
}

/// What the child called `child.0` that lies at `child.1` stands for.
pub open spec fn child_spec(child: (String, PathBuf)) -> RootEntrySpec {
    RootEntrySpec { name: child.0@, path: child.1 }
}

/// The test that a child passes when its name is none of `excluded`.
pub open spec fn is_kept(excluded: Seq<Seq<char>>) -> spec_fn((String, PathBuf)) -> bool {
    |c: (String, PathBuf)| !excluded.contains(c.0@)
}

/// The children whose name is none of `excluded`, in the order in which
/// they were listed.
pub open spec fn kept_children(children: Seq<(String, PathBuf)>, excluded: Seq<Seq<char>>) -> Seq<
    RootEntrySpec,
> {
    children.filter(is_kept(excluded)).map_values(|c: (String, PathBuf)| child_spec(c))
}

/// The entries of children with unique names have unique names.
pub proof fn lemma_kept_children_are_unique(
    children: Seq<(String, PathBuf)>,
    excluded: Seq<Seq<char>>,
)
    requires
        children_are_unique(children),
    ensures
        names_are_unique(kept_children(children, excluded)),
    decreases children.len(),
{
    reveal(Seq::filter);
    let keep = is_kept(excluded);
    if children.len() > 0 {
        let first = children.drop_last();
        let last = children.last();
        lemma_kept_children_are_unique(first, excluded);
        if keep(last) {
            let kept = first.filter(keep);
            assert(children.filter(keep) == kept.push(last));
            assert forall|i: int| 0 <= i < kept.len() implies kept[i].0@ != last.0@ by {
                first.lemma_filter_contains_rev(keep, kept[i]);
                let a = choose|a: int| 0 <= a < first.len() && first[a] == kept[i];
                assert(children[a] == first[a]);
            }
            let all = kept_children(children, excluded);
            assert forall|i: int, j: int| 0 <= i < j < all.len() implies all[i].name
                != all[j].name by {
                if j < kept.len() {
                    assert(kept_children(first, excluded)[i].name == all[i].name);
                    assert(kept_children(first, excluded)[j].name == all[j].name);
                }
            }
        }
    }
}

/// What `entries` stand for, in order.
pub open spec fn specs_of(entries: Seq<RootEntry>) -> Seq<RootEntrySpec> {
    entries.map_values(|e: RootEntry| e@)
}

/// The entries of a root whose children are `children`, each given by its
/// name and its place: one entry for every child whose name is none of
/// `excluded`, in the order of the listing. An excluded child gets no entry,
/// so it is neither walked nor a name that references are rewritten towards.
pub fn root_entries(children: Vec<(String, PathBuf)>, excluded: &[String]) -> (entries: Vec<
    RootEntry,
>)
    ensures
        specs_of(entries@) == kept_children(children@, views_of(excluded@)),
        forall|i: int|
            0 <= i < entries@.len() ==> !views_of(excluded@).contains(
                #[trigger] entries@[i].file_name@,
            ),
        children_are_unique(children@) ==> names_are_unique(specs_of(entries@)),
{
    proof {
        if children_are_unique(children@) {
            lemma_kept_children_are_unique(children@, views_of(excluded@));
        }
    }
    let mut entries: Vec<RootEntry> = Vec::new();
    assert(specs_of(entries@) =~= kept_children(
        children@.subrange(0, 0),
        views_of(excluded@),
    )) by {
        reveal(Seq::filter);
    }
    for child in it: children
        invariant
            it.seq() == children@,
            specs_of(entries@) == kept_children(
                it.seq().subrange(0, it.index()),
                views_of(excluded@),
            ),
            forall|i: int|
                0 <= i < entries@.len() ==> !views_of(excluded@).contains(
                    #[trigger] entries@[i].file_name@,
                ),
    {
        let ghost seen = it.seq().subrange(0, it.index());
        let ghost now = it.seq().subrange(0, it.index() + 1);
        let ghost before = entries@;
        let ghost keep = is_kept(views_of(excluded@));
        let (file_name, path) = child;
        proof {
            reveal(Seq::filter);
            assert(now.drop_last() =~= seen);
            assert(now.last() == child);
            assert(now.filter(keep) == if keep(child) {
                seen.filter(keep).push(child)
            } else {
                seen.filter(keep)
            });
        }
        if !is_listed(excluded, &file_name) {
            entries.push(RootEntry::new(file_name, path));
            proof {
                assert(specs_of(entries@) =~= specs_of(before).push(child_spec(child)));
                assert(kept_children(now, views_of(excluded@)) =~= kept_children(
                    seen,
                    views_of(excluded@),
                ).push(child_spec(child)));
            }
        }
    }
    proof {
        assert(children@.subrange(0, children@.len() as int) =~= children@);
    }
    entries
}

} // verus!

//! The walk through the tree: which directories are listed and which files
//! are rewritten, and in what order. The walk itself touches no file: it
//! hands out one step at a time and is told what a listing held.

use crate::entry::RootEntry;
use crate::text::{matches_at, to_chars};
use std::path::PathBuf;
use vstd::prelude::*;

verus! {

/// What a directory's listing says an entry is.
#[derive(Clone, Copy, Debug, PartialEq, Eq, Structural)]
pub enum EntryKind {
    Directory,
    File,
    /// Neither a directory nor a regular file: nothing that the walk can
    /// list or rewrite.
    Other,
}

/// One entry of a directory's listing, as far as the walk reads it.
pub struct DirEntry {
    pub path: PathBuf,
    pub kind: EntryKind,
    /// What stands behind the last dot of the file name, if anything.
    pub extension: Option<String>,
}

/// What is done with an entry of a listing.
#[derive(Clone, Copy, Debug, PartialEq, Eq, Structural)]
pub enum Visit {
    /// A directory: its own listing is walked too.
    Descend,
    /// A source file: its text is rewritten.
    Rewrite,
    /// A file that is no source file is passed over.
    Skip,
    /// Neither a directory nor a regular file: the walk cannot go on.
    Refuse,
}

/// One step of the walk, to be carried out by the caller.
pub enum Step {
    /// List this directory and report what it holds.
    List(PathBuf),
    /// Rewrite the text of this file.
    Rewrite(PathBuf),
    /// This entry is neither a directory nor a regular file: fail, and take
    /// no further step.
    Refuse(PathBuf),
}

/// The extensions of the files that are rewritten.
pub open spec fn allowed_extensions() -> Seq<Seq<char>> {
    seq![seq!['j', 's'], seq!['j', 's', 'x'], seq!['t', 's'], seq!['t', 's', 'x']]
}

/// The extension of an entry, as characters.
pub open spec fn extension_spec(extension: Option<String>) -> Option<Seq<char>> {
    match extension {
        Some(e) => Some(e@),
        None => None,
    }
}

/// What is done with an entry of the given kind and extension: a directory
/// is descended into whatever its name; a file is rewritten where it has an
/// extension and that extension is allowed, and passed over otherwise; an
/// entry that is neither is refused.
pub open spec fn visit_spec(kind: EntryKind, extension: Option<Seq<char>>) -> Visit {
    match kind {
        EntryKind::Directory => Visit::Descend,
        EntryKind::File => match extension {
            Some(e) => if allowed_extensions().contains(e) {
                Visit::Rewrite
            } else {
                Visit::Skip
            },
            None => Visit::Skip,
        },
        EntryKind::Other => Visit::Refuse,
    }
}

/// Whether files with this extension are rewritten.
pub fn is_allowed_extension(extension: &str) -> (allowed: bool)
    ensures
        allowed == allowed_extensions().contains(extension@),
{
    let ext = to_chars(extension);
    let js: [char; 2] = ['j', 's'];
    let jsx: [char; 3] = ['j', 's', 'x'];
    let ts: [char; 2] = ['t', 's'];
    let tsx: [char; 3] = ['t', 's', 'x'];
    let allowed = (ext.len() == 2 && (matches_at(ext.as_slice(), js.as_slice(), 0) || matches_at(
        ext.as_slice(),
        ts.as_slice(),
        0,
    ))) || (ext.len() == 3 && (matches_at(ext.as_slice(), jsx.as_slice(), 0) || matches_at(
        ext.as_slice(),
        tsx.as_slice(),
        0,
    )));
    proof {
        let all = allowed_extensions();
        assert(js@ =~= all[0]);
        assert(jsx@ =~= all[1]);
        assert(ts@ =~= all[2]);
        assert(tsx@ =~= all[3]);
        assert(ext@.subrange(0, ext@.len() as int) =~= ext@);
    }
    allowed
}

/// What is done with an entry of the given kind and extension.
pub fn visit_of(kind: EntryKind, extension: &Option<String>) -> (visit: Visit)
    ensures
        visit == visit_spec(kind, extension_spec(*extension)),
{
    match kind {
        EntryKind::Directory => Visit::Descend,
        EntryKind::File => match extension {
            Some(e) => if is_allowed_extension(e.as_str()) {
                Visit::Rewrite
            } else {
                Visit::Skip
            },
            None => Visit::Skip,
        },
        EntryKind::Other => Visit::Refuse,
    }
}

/// The step that an entry of a listing asks for, if any: a directory is
/// listed in its turn, a source file is rewritten, and an entry that is
/// neither a directory nor a regular file is refused.
pub open spec fn step_for(entry: DirEntry) -> Option<Step> {
    match visit_spec(entry.kind, extension_spec(entry.extension)) {
        Visit::Descend => Some(Step::List(entry.path)),
        Visit::Rewrite => Some(Step::Rewrite(entry.path)),
        Visit::Skip => None,
        Visit::Refuse => Some(Step::Refuse(entry.path)),
    }
}

/// The steps that a listing asks for, in the order of the listing: one for
/// every entry that is not passed over.
pub open spec fn steps_of(listing: Seq<DirEntry>) -> Seq<Step>
    decreases listing.len(),
{
    if listing.len() == 0 {
        Seq::empty()
    } else {
        match step_for(listing[0]) {
            Some(step) => seq![step] + steps_of(listing.drop_first()),
            None => steps_of(listing.drop_first()),
        }
    }
}

/// The steps that a walk begins with: the listing of every root entry, in
/// the order of the entries.
pub open spec fn first_steps(root_entries: Seq<RootEntry>) -> Seq<Step> {
    root_entries.map_values(|e: RootEntry| Step::List(e.path))
}

/// What the directory at `place` holds according to `tree`; nothing where
/// `tree` does not know the place.
pub open spec fn listing_at(tree: Map<PathBuf, Seq<DirEntry>>, place: PathBuf) -> Seq<DirEntry> {
    if tree.dom().contains(place) {
        tree[place]
    } else {
        Seq::empty()
    }
}

/// The first `limit` steps that a walk hands out which has `agenda` before
/// it and is told after each `List` step what `tree` holds at that place.
/// A `Refuse` step is the last one: the walk ends there.
pub open spec fn walked(agenda: Seq<Step>, tree: Map<PathBuf, Seq<DirEntry>>, limit: nat) -> Seq<
    Step,
>
    decreases limit,
{
    if limit == 0 || agenda.len() == 0 {
        Seq::empty()
    } else {
        let then = match agenda[0] {
            Step::List(place) => steps_of(listing_at(tree, place)) + agenda.drop_first(),
            Step::Rewrite(_) => agenda.drop_first(),
            Step::Refuse(_) => Seq::empty(),
        };
        seq![agenda[0]] + walked(then, tree, (limit - 1) as nat)
    }
}

/// A walk under way: the steps that are known and not yet handed out.
pub struct Walk {
    /// The steps to come, the next one last.
    agenda: Vec<Step>,
}

impl Walk {
    /// The steps to come as far as they are known, the next one first.
    pub closed spec fn remaining(&self) -> Seq<Step> {
        self.agenda@.reverse()
    }

    /// A walk that lists every one of `root_entries`, the first one first.
    pub fn start(root_entries: &[RootEntry]) -> (walk: Walk)
        ensures
            walk.remaining() == first_steps(root_entries@),
    {
        let mut agenda: Vec<Step> = Vec::new();
        let mut i: usize = root_entries.len();
        while i > 0
            invariant
                i <= root_entries.len(),
                agenda@.len() == root_entries.len() - i,
                forall|j: int|
                    0 <= j < agenda@.len() ==> agenda@[j] == Step::List(
                        root_entries@[root_entries.len() - 1 - j].path,
                    ),
            decreases i,
        {
            i -= 1;
            agenda.push(Step::List(root_entries[i].path.clone()));
        }
        assert(agenda@.reverse() =~= first_steps(root_entries@));
        Walk { agenda }
    }

    /// Hands out the next step, or `None` when the walk is over. A `Refuse`
    /// step ends the walk: whatever was still to come is dropped.
    pub fn next(&mut self) -> (step: Option<Step>)
        ensures
            old(self).remaining().len() == 0 ==> step is None && final(self).remaining() == old(
                self,
            ).remaining(),
            old(self).remaining().len() > 0 ==> step == Some(old(self).remaining()[0]),
            old(self).remaining().len() > 0 ==> final(self).remaining() == if old(
                self,
            ).remaining()[0] is Refuse {
                Seq::<Step>::empty()
            } else {
                old(self).remaining().drop_first()
            },
    {
        let step = self.agenda.pop();
        assert(self.agenda@.reverse() =~= if old(self).agenda@.len() > 0 {
            old(self).agenda@.reverse().drop_first()
        } else {
            old(self).agenda@.reverse()
        });
        match step {
            Some(Step::Refuse(path)) => {
                self.agenda.clear();
                assert(self.agenda@.reverse() =~= Seq::<Step>::empty());
                Some(Step::Refuse(path))
            },
            other => other,
        }
    }

    /// Takes in what the directory of the last `List` step holds: the steps
    /// that the listing asks for come next, in the order of the listing, and
    /// before everything that was known so far. So the walk goes depth
    /// first.
    pub fn listed(&mut self, listing: Vec<DirEntry>)
        ensures
            final(self).remaining() == steps_of(listing@) + old(self).remaining(),
    {
        let mut listing = listing;
        let ghost whole = listing@;
        assert(whole.subrange(whole.len() as int, whole.len() as int) =~= Seq::<DirEntry>::empty());
        assert(steps_of(Seq::<DirEntry>::empty()) + old(self).remaining() =~= old(
            self,
        ).remaining());
        while listing.len() > 0
            invariant
                listing@ == whole.subrange(0, listing@.len() as int),
                listing@.len() <= whole.len(),
                self.agenda@.reverse() == steps_of(
                    whole.subrange(listing@.len() as int, whole.len() as int),
                ) + old(self).agenda@.reverse(),
            decreases listing.len(),
        {
            let ghost todo = whole.subrange(listing@.len() as int, whole.len() as int);
            let ghost before = self.agenda@;
            let popped = listing.pop();
            let entry = popped.unwrap();
            proof {
                let now = whole.subrange(listing@.len() as int, whole.len() as int);
                assert(now.drop_first() =~= todo);
                assert(now[0] == entry);
                assert(listing@ =~= whole.subrange(0, listing@.len() as int));
            }
            match visit_of(entry.kind, &entry.extension) {
                Visit::Descend => {
                    self.agenda.push(Step::List(entry.path));
                    assert(self.agenda@.reverse() =~= seq![Step::List(entry.path)]
                        + before.reverse());
                },
                Visit::Rewrite => {
                    self.agenda.push(Step::Rewrite(entry.path));
                    assert(self.agenda@.reverse() =~= seq![Step::Rewrite(entry.path)]
                        + before.reverse());
                },
                Visit::Skip => {},
                Visit::Refuse => {
                    self.agenda.push(Step::Refuse(entry.path));
                    assert(self.agenda@.reverse() =~= seq![Step::Refuse(entry.path)]
                        + before.reverse());
                },
            }
            assert(self.agenda@.reverse() =~= steps_of(
                whole.subrange(listing@.len() as int, whole.len() as int),
            ) + old(self).agenda@.reverse());
        }
        assert(whole.subrange(0, whole.len() as int) =~= whole);
    }
}

} // verus!

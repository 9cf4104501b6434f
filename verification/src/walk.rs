//! The walk over every directory below the root, one directory at a time.
//!
//! The walk keeps a work list of directories that are still to be read. Its
//! owner reads each directory that the walk asks for and hands the members
//! back; the walk decides what is read next and collects the files.

use crate::entry::{child_views, Child, ChildView, Kind};
use crate::error::{ListError, ListErrorView, Operation};
use crate::path::{joined, Location};
use vstd::prelude::*;

verus! {

/// A walk in progress.
#[derive(Debug)]
pub struct Walk {
    pending: Vec<Location>,
    files: Vec<String>,
}

/// A `Walk` as a mathematical value.
pub struct WalkView {
    /// The directories that are still to be read; the last one is read next.
    pub pending: Seq<Seq<Seq<char>>>,
    /// The relative paths of the files found so far, in the order in which
    /// they were found.
    pub files: Seq<Seq<char>>,
}

/// What a walk asks of its owner next.
#[derive(Debug)]
pub enum Progress {
    /// Read this directory and record its members in `rest`.
    Read { directory: Location, rest: Walk },
    /// Nothing is left to read: these are the files.
    Finished { files: Vec<String> },
}

impl View for Walk {
    type V = WalkView;

    closed spec fn view(&self) -> WalkView {
        WalkView {
            pending: Seq::new(self.pending.len() as nat, |i: int| self.pending[i]@),
            files: Seq::new(self.files.len() as nat, |i: int| self.files[i]@),
        }
    }
}

/// The texts of a sequence of strings.
pub open spec fn texts(strings: Seq<String>) -> Seq<Seq<char>> {
    Seq::new(strings.len(), |i: int| strings[i]@)
}

/// The locations of the members of one kind in a directory, in the order of
/// the members.
pub open spec fn members_of_kind(
    directory: Seq<Seq<char>>,
    children: Seq<ChildView>,
    kind: Kind,
) -> Seq<Seq<Seq<char>>>
    decreases children.len(),
{
    if children.len() == 0 {
        Seq::empty()
    } else {
        let rest = members_of_kind(directory, children.drop_last(), kind);
        if children.last().kind == kind {
            rest.push(directory.push(children.last().name))
        } else {
            rest
        }
    }
}

/// The relative paths of a sequence of locations.
pub open spec fn relative_paths(locations: Seq<Seq<Seq<char>>>) -> Seq<Seq<char>> {
    Seq::new(locations.len(), |i: int| joined(locations[i]))
}

impl Walk {
    /// A walk that has read nothing yet: the root is to be read.
    pub fn new() -> (walk: Walk)
        ensures
            walk@.pending == seq![Seq::<Seq<char>>::empty()],
            walk@.files == Seq::<Seq<char>>::empty(),
    {
        let mut pending: Vec<Location> = Vec::new();
        pending.push(Location::root());
        let walk = Walk { pending, files: Vec::new() };
        assert(walk@.pending =~= seq![Seq::<Seq<char>>::empty()]);
        assert(walk@.files =~= Seq::<Seq<char>>::empty());
        walk
    }

    /// Takes the next directory off the work list, the one that was put
    /// there last. With an empty work list the walk is over and hands out
    /// its files.
    pub fn advance(self) -> (progress: Progress)
        ensures
            match progress {
                Progress::Finished { files } => self@.pending.len() == 0 && texts(files@)
                    == self@.files,
                Progress::Read { directory, rest } => self@.pending.len() > 0 && directory@
                    == self@.pending.last() && rest@.pending == self@.pending.drop_last()
                    && rest@.files == self@.files,
            },
    {
        let ghost before = self@;
        let Walk { mut pending, files } = self;
        match pending.pop() {
            None => {
                assert(texts(files@) =~= before.files);
                Progress::Finished { files }
            },
            Some(directory) => {
                let rest = Walk { pending, files };
                assert(rest@.pending =~= before.pending.drop_last());
                assert(rest@.files =~= before.files);
                Progress::Read { directory, rest }
            },
        }
    }

    /// Records the members of a directory that was read: its files join the
    /// files found, its directories the work list. Other members are passed
    /// over.
    pub fn record(self, directory: &Location, children: &Vec<Child>) -> (walk: Walk)
        ensures
            walk@.files == self@.files + relative_paths(
                members_of_kind(directory@, child_views(children@), Kind::File),
            ),
            walk@.pending == self@.pending + members_of_kind(
                directory@,
                child_views(children@),
                Kind::Directory,
            ),
    {
        let ghost before = self@;
        let ghost all = child_views(children@);
        let mut walk = self;
        let mut i: usize = 0;
        while i < children.len()
            invariant
                i <= children.len(),
                all == child_views(children@),
                walk@.files == before.files + relative_paths(
                    members_of_kind(directory@, all.take(i as int), Kind::File),
                ),
                walk@.pending == before.pending + members_of_kind(
                    directory@,
                    all.take(i as int),
                    Kind::Directory,
                ),
            decreases children.len() - i,
        {
            let child = &children[i];
            let ghost old_walk = walk@;
            proof {
                assert(all.take(i + 1).drop_last() == all.take(i as int));
                assert(all.take(i + 1).last() == child@);
            }
            match child.kind {
                Kind::File => {
                    let path = directory.child(child.name.as_str()).to_relative_path();
                    walk.files.push(path);
                    assert(walk@.files =~= old_walk.files.push(path@));
                    assert(relative_paths(
                        members_of_kind(directory@, all.take(i + 1), Kind::File),
                    ) =~= relative_paths(
                        members_of_kind(directory@, all.take(i as int), Kind::File),
                    ).push(path@));
                    assert(walk@.pending =~= old_walk.pending);
                },
                Kind::Directory => {
                    let location = directory.child(child.name.as_str());
                    walk.pending.push(location);
                    assert(walk@.pending =~= old_walk.pending.push(location@));
                    assert(walk@.files =~= old_walk.files);
                },
                Kind::Other => {},
            }
            i = i + 1;
        }
        assert(all.take(children.len() as int) == all);
        walk
    }
}

/// The failure of a walk at a directory that could not be read: it names
/// the directory by its relative path and gives the reason as it was given.
pub fn read_failure(directory: &Location, message: String) -> (error: ListError)
    ensures
        error@ == (ListErrorView::DirectoryRead {
            operation: Operation::ListAllFiles,
            path: joined(directory@),
            message: message@,
        }),
{
    ListError::DirectoryRead {
        operation: Operation::ListAllFiles,
        path: directory.to_relative_path(),
        message,
    }
}

} // verus!

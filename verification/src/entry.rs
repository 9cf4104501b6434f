//! The members of one directory, and the choice of those that a listing shows.

use crate::error::{ListError, ListErrorView, Operation};
use vstd::prelude::*;
use vstd::string::StringExecFns;

verus! {

/// What a member of a directory is.
#[derive(Clone, Copy, Debug, PartialEq, Eq, Structural)]
pub enum Kind {
    /// A regular file.
    File,
    /// A directory.
    Directory,
    /// Neither of the two: it appears in no listing.
    Other,
}

/// One member of a directory as it was read: its base name and its kind.
#[derive(Clone, Debug, PartialEq, Eq)]
pub struct Child {
    pub name: String,
    pub kind: Kind,
}

/// One line of a listing: the base name of a member, and whether it is a
/// directory.
#[derive(Clone, Debug, PartialEq, Eq)]
pub struct Entry {
    pub name: String,
    pub is_dir: bool,
}

/// A `Child` as a mathematical value.
pub struct ChildView {
    pub name: Seq<char>,
    pub kind: Kind,
}

/// An `Entry` as a mathematical value.
pub struct EntryView {
    pub name: Seq<char>,
    pub is_dir: bool,
}

impl View for Child {
    type V = ChildView;

    open spec fn view(&self) -> ChildView {
        ChildView { name: self.name@, kind: self.kind }
    }
}

impl View for Entry {
    type V = EntryView;

    open spec fn view(&self) -> EntryView {
        EntryView { name: self.name@, is_dir: self.is_dir }
    }
}

/// The value of an include flag: a flag that was left out counts as set.
pub open spec fn flag_value(flag: Option<bool>) -> bool {
    match flag {
        Some(b) => b,
        None => true,
    }
}

/// Whether a member of the given kind is shown under the two flags.
pub open spec fn is_shown(kind: Kind, include_dirs: bool, include_files: bool) -> bool {
    match kind {
        Kind::Directory => include_dirs,
        Kind::File => include_files,
        Kind::Other => false,
    }
}

/// The line that stands for a member in a listing.
pub open spec fn entry_of(child: ChildView) -> EntryView {
    EntryView { name: child.name, is_dir: child.kind == Kind::Directory }
}

/// The listing of a directory with the given members: the lines of those that
/// are shown, in the order of the members.
pub open spec fn shown_entries(
    children: Seq<ChildView>,
    include_dirs: bool,
    include_files: bool,
) -> Seq<EntryView>
    decreases children.len(),
{
    if children.len() == 0 {
        Seq::empty()
    } else {
        let rest = shown_entries(children.drop_last(), include_dirs, include_files);
        if is_shown(children.last().kind, include_dirs, include_files) {
            rest.push(entry_of(children.last()))
        } else {
            rest
        }
    }
}

/// The views of a sequence of members.
pub open spec fn child_views(children: Seq<Child>) -> Seq<ChildView> {
    Seq::new(children.len(), |i: int| children[i]@)
}

/// The views of a sequence of lines.
pub open spec fn entry_views(entries: Seq<Entry>) -> Seq<EntryView> {
    Seq::new(entries.len(), |i: int| entries[i]@)
}

/// Whether a line stands for one of the members that are shown.
pub open spec fn is_line_of(
    children: Seq<ChildView>,
    include_dirs: bool,
    include_files: bool,
    line: EntryView,
) -> bool {
    exists|i: int|
        0 <= i < children.len() && is_shown((#[trigger] children[i]).kind, include_dirs, include_files)
            && line == entry_of(children[i])
}

/// Every line of a listing stands for a member that is shown, so a listing
/// without directories holds files only, and one without files holds
/// directories only.
pub proof fn lemma_shown_entries_members(
    children: Seq<ChildView>,
    include_dirs: bool,
    include_files: bool,
)
    ensures
        forall|j: int|
            0 <= j < shown_entries(children, include_dirs, include_files).len() ==> is_line_of(
                children,
                include_dirs,
                include_files,
                #[trigger] shown_entries(children, include_dirs, include_files)[j],
            ),
        !include_dirs ==> forall|j: int|
            0 <= j < shown_entries(children, include_dirs, include_files).len()
                ==> !(#[trigger] shown_entries(children, include_dirs, include_files)[j]).is_dir,
        !include_files ==> forall|j: int|
            0 <= j < shown_entries(children, include_dirs, include_files).len()
                ==> (#[trigger] shown_entries(children, include_dirs, include_files)[j]).is_dir,
    decreases children.len(),
{
    if children.len() > 0 {
        let front = children.drop_last();
        lemma_shown_entries_members(front, include_dirs, include_files);
        let rest = shown_entries(front, include_dirs, include_files);
        let all = shown_entries(children, include_dirs, include_files);
        assert forall|j: int| 0 <= j < all.len() implies is_line_of(
            children,
            include_dirs,
            include_files,
            #[trigger] all[j],
        ) by {
            if j < rest.len() {
                assert(is_line_of(front, include_dirs, include_files, rest[j]));
                let i = choose|i: int|
                    0 <= i < front.len() && is_shown(
                        (#[trigger] front[i]).kind,
                        include_dirs,
                        include_files,
                    ) && rest[j] == entry_of(front[i]);
                assert(children[i] == front[i]);
            } else {
                assert(all[j] == entry_of(children[children.len() - 1]));
            }
        }
    }
}

/// Every member that is shown has its line in the listing.
pub proof fn lemma_shown_entries_complete(
    children: Seq<ChildView>,
    include_dirs: bool,
    include_files: bool,
    i: int,
)
    requires
        0 <= i < children.len(),
        is_shown(children[i].kind, include_dirs, include_files),
    ensures
        shown_entries(children, include_dirs, include_files).contains(entry_of(children[i])),
    decreases children.len(),
{
    let all = shown_entries(children, include_dirs, include_files);
    if i == children.len() - 1 {
        assert(all[all.len() - 1] == entry_of(children[i]));
    } else {
        lemma_shown_entries_complete(children.drop_last(), include_dirs, include_files, i);
        let rest = shown_entries(children.drop_last(), include_dirs, include_files);
        let j = choose|j: int| 0 <= j < rest.len() && rest[j] == entry_of(children.drop_last()[i]);
        assert(all[j] == entry_of(children[i]));
    }
}

/// Chooses the members of a directory that a listing shows. A flag that is
/// left out counts as set. The members keep their order; a member that is
/// neither a file nor a directory is never shown.
pub fn select_entries(
    children: &Vec<Child>,
    include_dirs: Option<bool>,
    include_files: Option<bool>,
) -> (entries: Vec<Entry>)
    ensures
        entry_views(entries@) == shown_entries(
            child_views(children@),
            flag_value(include_dirs),
            flag_value(include_files),
        ),
        include_dirs == Some(false) ==> forall|j: int|
            0 <= j < entries.len() ==> !(#[trigger] entries[j]).is_dir,
        include_files == Some(false) ==> forall|j: int|
            0 <= j < entries.len() ==> (#[trigger] entries[j]).is_dir,
{
    let dirs = match include_dirs {
        Some(b) => b,
        None => true,
    };
    let files = match include_files {
        Some(b) => b,
        None => true,
    };
    let mut entries: Vec<Entry> = Vec::new();
    let mut i: usize = 0;
    while i < children.len()
        invariant
            i <= children.len(),
            dirs == flag_value(include_dirs),
            files == flag_value(include_files),
            entry_views(entries@) == shown_entries(child_views(children@).take(i as int), dirs, files),
        decreases children.len() - i,
    {
        let child = &children[i];
        let ghost before = child_views(children@).take(i as int);
        let ghost after = child_views(children@).take(i + 1);
        proof {
            assert(after.drop_last() == before);
            assert(after.last() == child@);
        }
        let shown = match child.kind {
            Kind::Directory => dirs,
            Kind::File => files,
            Kind::Other => false,
        };
        if shown {
            let ghost old_entries = entries@;
            let is_dir = match child.kind {
                Kind::Directory => true,
                _ => false,
            };
            entries.push(Entry { name: child.name.clone(), is_dir });
            proof {
                assert(entry_views(entries@) == entry_views(old_entries).push(entry_of(child@)));
            }
        }
        i = i + 1;
    }
    proof {
        assert(child_views(children@).take(children.len() as int) == child_views(children@));
        lemma_shown_entries_members(child_views(children@), dirs, files);
        assert forall|j: int| 0 <= j < entries.len() && !dirs implies !(#[trigger] entries[j]).is_dir by {
            assert(entry_views(entries@)[j] == entries[j]@);
        }
        assert forall|j: int| 0 <= j < entries.len() && !files implies (#[trigger] entries[j]).is_dir by {
            assert(entry_views(entries@)[j] == entries[j]@);
        }
    }
    entries
}

/// The answer to a request for the listing of the directory at `path`,
/// made from what reading that directory gave: the members that the flags
/// show, or, where the directory could not be read, the failure with the
/// path as it was requested and the reason as it was given.
pub fn listing_of_reading(
    path: &str,
    reading: Result<Vec<Child>, String>,
    include_dirs: Option<bool>,
    include_files: Option<bool>,
) -> (result: Result<Vec<Entry>, ListError>)
    ensures
        match reading {
            Ok(children) => result is Ok && entry_views(result->Ok_0@) == shown_entries(
                child_views(children@),
                flag_value(include_dirs),
                flag_value(include_files),
            ),
            Err(message) => result is Err && result->Err_0@ == (ListErrorView::DirectoryRead {
                operation: Operation::ListDirectory,
                path: path@,
                message: message@,
            }),
        },
        include_dirs == Some(false) && result is Ok ==> forall|j: int|
            0 <= j < result->Ok_0.len() ==> !(#[trigger] result->Ok_0[j]).is_dir,
        include_files == Some(false) && result is Ok ==> forall|j: int|
            0 <= j < result->Ok_0.len() ==> (#[trigger] result->Ok_0[j]).is_dir,
{
    match reading {
        Ok(children) => Ok(select_entries(&children, include_dirs, include_files)),
        Err(message) => Err(
            ListError::DirectoryRead {
                operation: Operation::ListDirectory,
                path: String::from_str(path),
                message,
            },
        ),
    }
}

} // verus!

//! A directory tree held in memory, and the two listings over it.
//!
//! A `Tree` stands for what lies below a root: files, directories with their
//! members, directories that cannot be read, and members that are neither
//! file nor directory. It is built member by member, so the names in each
//! directory are names of members and no two of them are alike.

use crate::entry::{
    child_views, entry_of, entry_views, flag_value, is_shown, lemma_shown_entries_complete,
    lemma_shown_entries_members, listing_of_reading, shown_entries, Child, ChildView, Entry, EntryView,
    Kind,
};
use crate::error::{ListError, ListErrorView, Operation};
use crate::path::{is_name, is_valid_name, lemma_resolved_joined, resolve, resolved, Location};
use vstd::prelude::*;
use vstd::string::StringExecFns;

verus! {

/// What lies at one place of a tree.
#[derive(Debug)]
pub struct Tree {
    pub(crate) shape: Shape,
}

/// The four shapes of a tree.
#[derive(Debug)]
pub(crate) enum Shape {
    File,
    Other,
    Unreadable(String),
    Directory(Vec<Member>),
}

/// A member of a directory: its name and what lies under it.
#[derive(Debug)]
pub struct Member {
    pub name: String,
    pub tree: Tree,
}

/// The reason given when a path names nothing.
pub open spec fn missing_reason() -> Seq<char> {
    "no such file or directory"@
}

/// The reason given when a path names something that is no directory.
pub open spec fn not_a_directory_reason() -> Seq<char> {
    "not a directory"@
}

/// The first of the members that has the given name, if any has it.
pub open(crate) spec fn index_of(members: Seq<Member>, name: Seq<char>) -> Option<int>
    decreases members.len(),
{
    if members.len() == 0 {
        None
    } else {
        match index_of(members.drop_last(), name) {
            Some(i) => Some(i),
            None => if members.last().name@ == name {
                Some(members.len() - 1)
            } else {
                None
            },
        }
    }
}

/// What `index_of` finds has the name, and nothing before it has.
pub(crate) proof fn lemma_index_of(members: Seq<Member>, name: Seq<char>)
    ensures
        match index_of(members, name) {
            Some(i) => 0 <= i < members.len() && members[i].name@ == name && forall|j: int|
                0 <= j < i ==> (#[trigger] members[j]).name@ != name,
            None => forall|j: int| 0 <= j < members.len() ==> (#[trigger] members[j]).name@ != name,
        },
    decreases members.len(),
{
    if members.len() > 0 {
        let front = members.drop_last();
        lemma_index_of(front, name);
        assert(forall|j: int| 0 <= j < front.len() ==> front[j] == members[j]);
    }
}

/// What is found among the first members is found among all of them.
pub(crate) proof fn lemma_index_of_prefix(members: Seq<Member>, count: int, name: Seq<char>)
    requires
        0 <= count <= members.len(),
        index_of(members.take(count), name) is Some,
    ensures
        index_of(members, name) == index_of(members.take(count), name),
    decreases members.len() - count,
{
    if count < members.len() {
        assert(members.drop_last().take(count) == members.take(count));
        lemma_index_of_prefix(members.drop_last(), count, name);
    } else {
        assert(members.take(count) == members);
    }
}

/// Where something lies at a location, something lies at each location on
/// the way to it.
pub(crate) proof fn lemma_lookup_on_the_way(tree: Tree, names: Seq<Seq<char>>, count: int)
    requires
        0 <= count <= names.len(),
        tree.lookup(names) is Some,
    ensures
        tree.lookup(names.take(count)) is Some,
        count < names.len() ==> tree.lookup(names.take(count))->Some_0.is_directory(),
    decreases names.len() - count,
{
    if count == names.len() {
        assert(names.take(count) == names);
    } else {
        let front = names.drop_last();
        let parent = tree.lookup(front)->Some_0;
        assert(parent.member(names.last()) is Some);
        assert(parent.is_directory());
        if count == names.len() - 1 {
            assert(names.take(count) == front);
        } else {
            assert(front.take(count) == names.take(count));
            lemma_lookup_on_the_way(tree, front, count);
        }
    }
}

/// The place of the first member with the given name.
fn position(members: &Vec<Member>, name: &String) -> (found: Option<usize>)
    ensures
        match found {
            Some(i) => index_of(members@, name@) == Some(i as int) && i < members.len(),
            None => index_of(members@, name@) is None,
        },
{
    let mut i: usize = 0;
    while i < members.len()
        invariant
            i <= members.len(),
            index_of(members@.take(i as int), name@) is None,
        decreases members.len() - i,
    {
        proof {
            assert(members@.take(i + 1).drop_last() == members@.take(i as int));
            assert(members@.take(i + 1).last() == members[i as int]);
        }
        if members[i].name == *name {
            proof {
                lemma_index_of_prefix(members@, i + 1, name@);
            }
            return Some(i);
        }
        i = i + 1;
    }
    assert(members@.take(members.len() as int) == members@);
    None
}

impl Tree {
    /// Whether this is a regular file.
    pub open(crate) spec fn is_file(self) -> bool {
        self.shape is File
    }

    /// Whether this is a directory that can be read.
    pub open(crate) spec fn is_directory(self) -> bool {
        self.shape is Directory
    }

    /// Whether this is a directory that cannot be read.
    pub open(crate) spec fn is_unreadable(self) -> bool {
        self.shape is Unreadable
    }

    /// The reason why an unreadable directory cannot be read.
    pub open(crate) spec fn reason(self) -> Seq<char> {
        match self.shape {
            Shape::Unreadable(message) => message@,
            _ => Seq::empty(),
        }
    }

    /// The kind under which this appears in the listing of its directory. A
    /// directory that cannot be read still appears as a directory.
    pub open(crate) spec fn kind(self) -> Kind {
        match self.shape {
            Shape::File => Kind::File,
            Shape::Other => Kind::Other,
            Shape::Unreadable(_) => Kind::Directory,
            Shape::Directory(_) => Kind::Directory,
        }
    }

    /// The members of a directory, in their order; none for anything else.
    pub open(crate) spec fn members(self) -> Seq<Member> {
        match self.shape {
            Shape::Directory(members) => members@,
            _ => Seq::empty(),
        }
    }

    /// The members of a directory as a reader of it sees them.
    pub open(crate) spec fn children(self) -> Seq<ChildView> {
        Seq::new(
            self.members().len(),
            |i: int| ChildView { name: self.members()[i].name@, kind: self.members()[i].tree.kind() },
        )
    }

    /// What lies under the given name in this directory.
    pub open(crate) spec fn member(self, name: Seq<char>) -> Option<Tree> {
        match index_of(self.members(), name) {
            Some(i) => Some(self.members()[i].tree),
            None => None,
        }
    }

    /// What lies at a location, taken from this tree as the root.
    pub open(crate) spec fn lookup(self, names: Seq<Seq<char>>) -> Option<Tree>
        decreases names.len(),
    {
        if names.len() == 0 {
            Some(self)
        } else {
            match self.lookup(names.drop_last()) {
                Some(parent) => parent.member(names.last()),
                None => None,
            }
        }
    }

    /// What a reader of the directory at a location gets: its members, or
    /// the reason why it cannot be read.
    pub open(crate) spec fn read(self, names: Seq<Seq<char>>) -> Result<Seq<ChildView>, Seq<char>> {
        match self.lookup(names) {
            None => Err(missing_reason()),
            Some(found) => if found.is_directory() {
                Ok(found.children())
            } else if found.is_unreadable() {
                Err(found.reason())
            } else {
                Err(not_a_directory_reason())
            },
        }
    }

    /// The listing of the directory that a requested path names, or the
    /// failure. It depends on the tree, the path and the flags alone: asked
    /// twice, the same tree gives the same answer. A path that leaves the root
    /// is refused whatever the tree holds.
    pub open(crate) spec fn directory_listing(
        self,
        path: Seq<char>,
        include_dirs: bool,
        include_files: bool,
    ) -> Result<Seq<EntryView>, ListErrorView> {
        match resolved(path) {
            None => Err(ListErrorView::PathEscape { path }),
            Some(names) => match self.read(names) {
                Err(reason) => Err(
                    ListErrorView::DirectoryRead {
                        operation: Operation::ListDirectory,
                        path,
                        message: reason,
                    },
                ),
                Ok(children) => Ok(shown_entries(children, include_dirs, include_files)),
            },
        }
    }

    /// The invariant of a tree: in every directory of it, each name is the
    /// name of a member, and no two members have the same name.
    pub open(crate) spec fn wf(self) -> bool
        decreases self,
    {
        match self.shape {
            Shape::Directory(members) => {
                &&& forall|i: int|
                    0 <= i < members.len() ==> is_name((#[trigger] members[i]).name@)
                        && members[i].tree.wf()
                &&& forall|i: int, j: int|
                    0 <= i < j < members.len() ==> (#[trigger] members[i]).name@
                        != (#[trigger] members[j]).name@
            },
            _ => true,
        }
    }

    /// A regular file.
    pub fn file() -> (tree: Tree)
        ensures
            tree.wf(),
            tree.is_file(),
    {
        Tree { shape: Shape::File }
    }

    /// Something that is neither a file nor a directory.
    pub fn other() -> (tree: Tree)
        ensures
            tree.wf(),
            tree.kind() == Kind::Other,
    {
        Tree { shape: Shape::Other }
    }

    /// A directory without members.
    pub fn directory() -> (tree: Tree)
        ensures
            tree.wf(),
            tree.is_directory(),
            tree.members().len() == 0,
    {
        Tree { shape: Shape::Directory(Vec::new()) }
    }

    /// A directory that cannot be read, with the reason that a reader gets.
    pub fn unreadable(reason: &str) -> (tree: Tree)
        ensures
            tree.wf(),
            tree.is_unreadable(),
            tree.reason() == reason@,
    {
        Tree { shape: Shape::Unreadable(String::from_str(reason)) }
    }

    /// Puts a member under the given name into this directory, after the
    /// members that are there. Nothing is put, and the answer is `false`,
    /// where this is no directory that can be read, where the name is not the
    /// name of a member, and where a member has that name already.
    pub fn insert(&mut self, name: &str, member: Tree) -> (inserted: bool)
        requires
            old(self).wf(),
            member.wf(),
        ensures
            final(self).wf(),
            inserted == (old(self).is_directory() && is_name(name@) && old(self).member(name@)
                is None),
            inserted ==> final(self).is_directory() && final(self).members().len() == old(
                self,
            ).members().len() + 1 && final(self).members().drop_last() == old(self).members()
                && final(self).members().last().name@ == name@ && final(self).members().last().tree
                == member,
            !inserted ==> *final(self) == *old(self),
    {
        if !is_valid_name(name) {
            return false;
        }
        let name = String::from_str(name);
        match &mut self.shape {
            Shape::Directory(members) => {
                let ghost before = members@;
                if position(members, &name).is_some() {
                    return false;
                }
                members.push(Member { name, tree: member });
                proof {
                    lemma_index_of(before, name@);
                    assert(members@.drop_last() == before);
                }
                true
            },
            _ => false,
        }
    }

    /// The kind under which this appears in the listing of its directory.
    pub fn entry_kind(&self) -> (kind: Kind)
        ensures
            kind == self.kind(),
    {
        match &self.shape {
            Shape::File => Kind::File,
            Shape::Other => Kind::Other,
            Shape::Unreadable(_) => Kind::Directory,
            Shape::Directory(_) => Kind::Directory,
        }
    }

    /// What lies at a location, taken from this tree as the root.
    pub fn descend(&self, location: &Location) -> (found: Option<&Tree>)
        ensures
            match found {
                Some(tree) => self.lookup(location@) == Some(*tree),
                None => self.lookup(location@) is None,
            },
    {
        let mut current: &Tree = self;
        let mut count: usize = 0;
        while count < location.segments.len()
            invariant
                count <= location.segments.len(),
                self.lookup(location@.take(count as int)) == Some(*current),
            decreases location.segments.len() - count,
        {
            proof {
                assert(location@.take(count + 1).drop_last() == location@.take(count as int));
                assert(location@.take(count + 1).last() == location.segments[count as int]@);
            }
            let next = match &current.shape {
                Shape::Directory(members) => match position(members, &location.segments[count]) {
                    Some(i) => Some(&members[i].tree),
                    None => None,
                },
                _ => None,
            };
            match next {
                Some(tree) => {
                    current = tree;
                },
                None => {
                    proof {
                        assert(self.lookup(location@.take(count + 1)) is None);
                        if self.lookup(location@) is Some {
                            lemma_lookup_on_the_way(*self, location@, count + 1);
                        }
                    }
                    return None;
                },
            }
            count = count + 1;
        }
        assert(location@.take(location.segments.len() as int) == location@);
        Some(current)
    }

    /// Reads the directory at a location as a reader of a file system
    /// would: the answer holds its members in their order, or the reason why
    /// there is nothing to read.
    pub fn read_directory(&self, location: &Location) -> (result: Result<Vec<Child>, String>)
        ensures
            match self.read(location@) {
                Ok(children) => result is Ok && child_views(result->Ok_0@) == children,
                Err(reason) => result is Err && result->Err_0@ == reason,
            },
    {
        match self.descend(location) {
            None => Err(String::from_str("no such file or directory")),
            Some(found) => match &found.shape {
                Shape::Directory(members) => {
                    let mut children: Vec<Child> = Vec::new();
                    let mut i: usize = 0;
                    while i < members.len()
                        invariant
                            i <= members.len(),
                            found.members() == members@,
                            child_views(children@) == found.children().take(i as int),
                        decreases members.len() - i,
                    {
                        let kind = members[i].tree.entry_kind();
                        let ghost before = children@;
                        let child = Child { name: members[i].name.clone(), kind };
                        children.push(child);
                        proof {
                            assert(child_views(children@) =~= child_views(before).push(child@));
                            assert(found.children().take(i + 1) =~= found.children().take(
                                i as int,
                            ).push(child@));
                        }
                        i = i + 1;
                    }
                    assert(found.children().take(members.len() as int) == found.children());
                    Ok(children)
                },
                Shape::Unreadable(reason) => Err(reason.clone()),
                _ => Err(String::from_str("not a directory")),
            },
        }
    }

    /// Lists the directory that a requested path names: its members in
    /// their order, each with its name and whether it is a directory, without
    /// those that a flag leaves out. A flag that is absent counts as set, and
    /// the empty path names the root. A path that leaves the root is refused
    /// before anything is read; a path that names no directory that can be
    /// read fails with the reason.
    pub fn list_directory(
        &self,
        path: &str,
        include_dirs: Option<bool>,
        include_files: Option<bool>,
    ) -> (result: Result<Vec<Entry>, ListError>)
        ensures
            match self.directory_listing(path@, flag_value(include_dirs), flag_value(include_files)) {
                Ok(lines) => result is Ok && entry_views(result->Ok_0@) == lines,
                Err(error) => result is Err && result->Err_0@ == error,
            },
            include_dirs == Some(false) && result is Ok ==> forall|j: int|
                0 <= j < result->Ok_0.len() ==> !(#[trigger] result->Ok_0[j]).is_dir,
            include_files == Some(false) && result is Ok ==> forall|j: int|
                0 <= j < result->Ok_0.len() ==> (#[trigger] result->Ok_0[j]).is_dir,
    {
        let location = match resolve(path) {
            Ok(location) => location,
            Err(error) => {
                return Err(error);
            },
        };
        listing_of_reading(path, self.read_directory(&location), include_dirs, include_files)
    }
}

/// The listing of the root with both flags set holds the files and the
/// directories that are members of the root, each once and in their order,
/// and nothing from further down.
pub proof fn lemma_root_listing(tree: Tree)
    requires
        tree.is_directory(),
    ensures
        tree.directory_listing(Seq::empty(), true, true) == Ok::<Seq<EntryView>, ListErrorView>(
            shown_entries(tree.children(), true, true),
        ),
        forall|j: int|
            0 <= j < shown_entries(tree.children(), true, true).len() ==> exists|i: int|
                0 <= i < tree.children().len() && #[trigger] shown_entries(
                    tree.children(),
                    true,
                    true,
                )[j] == entry_of(#[trigger] tree.children()[i]),
        forall|i: int|
            0 <= i < tree.children().len() && (#[trigger] tree.children()[i]).kind != Kind::Other
                ==> shown_entries(tree.children(), true, true).contains(entry_of(tree.children()[i])),
{
    let nothing = Seq::<Seq<char>>::empty();
    lemma_resolved_joined(nothing);
    assert(tree.lookup(nothing) == Some(tree));
    let children = tree.children();
    let lines = shown_entries(children, true, true);
    lemma_shown_entries_members(children, true, true);
    assert forall|j: int| 0 <= j < lines.len() implies exists|i: int|
        0 <= i < children.len() && #[trigger] lines[j] == entry_of(#[trigger] children[i]) by {
        let i = choose|i: int|
            0 <= i < children.len() && is_shown((#[trigger] children[i]).kind, true, true)
                && lines[j] == entry_of(children[i]);
        assert(lines[j] == entry_of(children[i]));
    }
    assert forall|i: int|
        0 <= i < children.len() && (#[trigger] children[i]).kind != Kind::Other implies lines.contains(
        entry_of(children[i]),
    ) by {
        lemma_shown_entries_complete(children, true, true, i);
    }
}

/// A path that stays in the root but names nothing in the tree gives a
/// read failure, whatever the flags.
pub proof fn lemma_missing_directory(
    tree: Tree,
    path: Seq<char>,
    include_dirs: bool,
    include_files: bool,
)
    requires
        resolved(path) is Some,
        tree.lookup(resolved(path)->Some_0) is None,
    ensures
        tree.directory_listing(path, include_dirs, include_files) == Err::<
            Seq<EntryView>,
            ListErrorView,
        >(
            ListErrorView::DirectoryRead {
                operation: Operation::ListDirectory,
                path,
                message: missing_reason(),
            },
        ),
{
}

/// A path that leaves the root is refused, whatever the tree holds and
/// whatever the flags.
pub proof fn lemma_escape_refused(
    tree: Tree,
    path: Seq<char>,
    include_dirs: bool,
    include_files: bool,
)
    requires
        resolved(path) is None,
    ensures
        tree.directory_listing(path, include_dirs, include_files) == Err::<
            Seq<EntryView>,
            ListErrorView,
        >(ListErrorView::PathEscape { path }),
{
}

} // verus!

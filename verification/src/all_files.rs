//! The listing of every file of a tree, and the proof that the walk finds
//! each of them exactly once.

use crate::entry::{ChildView, Kind};
use crate::error::{ListError, ListErrorView, Operation};
use crate::path::{all_names, is_name, joined, lemma_joined_injective};
use crate::tree::{
    index_of, lemma_index_of, lemma_lookup_on_the_way, not_a_directory_reason, Member, Shape, Tree,
};
use crate::walk::{members_of_kind, read_failure, relative_paths, texts, Progress, Walk};
use vstd::prelude::*;

verus! {

/// Whether one location lies on the way to another, or is that location.
pub open spec fn is_prefix(short: Seq<Seq<char>>, long: Seq<Seq<char>>) -> bool {
    short.len() <= long.len() && long.take(short.len() as int) == short
}

impl Tree {
    /// Whether a regular file lies at a location.
    pub open(crate) spec fn has_file_at(self, names: Seq<Seq<char>>) -> bool {
        self.lookup(names) is Some && self.lookup(names)->Some_0.is_file()
    }

    /// Whether a directory that cannot be read lies at a location.
    pub open(crate) spec fn has_unreadable_at(self, names: Seq<Seq<char>>) -> bool {
        self.lookup(names) is Some && self.lookup(names)->Some_0.is_unreadable()
    }

    /// Whether a text is the relative path of a regular file of this tree.
    pub open(crate) spec fn is_file_path(self, text: Seq<char>) -> bool {
        exists|names: Seq<Seq<char>>| #[trigger] self.has_file_at(names) && joined(names) == text
    }

    /// Whether every directory of this tree can be read.
    pub open(crate) spec fn is_readable(self) -> bool {
        forall|names: Seq<Seq<char>>| !#[trigger] self.has_unreadable_at(names)
    }

    /// Whether a sequence of texts holds the relative path of every regular
    /// file of this tree, each once, and nothing else.
    pub open(crate) spec fn is_file_listing(self, paths: Seq<Seq<char>>) -> bool {
        &&& paths.no_duplicates()
        &&& forall|text: Seq<char>| paths.contains(text) <==> self.is_file_path(text)
    }

    /// Whether a failure is the one that a reader of this tree meets: the
    /// root is no directory, or some directory of the tree cannot be read and
    /// the failure names it and gives its reason.
    pub open(crate) spec fn is_read_failure(self, error: ListErrorView) -> bool {
        if self.kind() != Kind::Directory {
            error == (ListErrorView::DirectoryRead {
                operation: Operation::ListAllFiles,
                path: Seq::empty(),
                message: not_a_directory_reason(),
            })
        } else {
            exists|names: Seq<Seq<char>>| #[trigger]
                self.has_unreadable_at(names) && error == (ListErrorView::DirectoryRead {
                    operation: Operation::ListAllFiles,
                    path: joined(names),
                    message: self.lookup(names)->Some_0.reason(),
                })
        }
    }

    /// The answer of the walk over this tree from its root. It depends on
    /// the tree alone: asked twice, the same tree gives the same answer.
    pub open(crate) spec fn file_walk(self) -> Result<Seq<Seq<char>>, ListErrorView> {
        walk_from(self, seq![Seq::<Seq<char>>::empty()], Seq::<Seq<char>>::empty())
    }

    /// The number of places in this tree, itself included.
    pub open(crate) spec fn weight(self) -> nat
        decreases self, 0nat,
    {
        match self.shape {
            Shape::Directory(members) => 1 + members_weight(members, members.len() as nat),
            _ => 1,
        }
    }
}

/// The number of places under the first `count` members of a directory.
pub open(crate) spec fn members_weight(members: Vec<Member>, count: nat) -> nat
    decreases members, count,
{
    if count == 0 || count > members.len() {
        0
    } else {
        members[count - 1].tree.weight() + members_weight(members, (count - 1) as nat)
    }
}

/// In a directory of a tree that is built as it should be, each member lies
/// under its own name.
pub(crate) proof fn lemma_member_at(directory: Tree, i: int)
    requires
        directory.wf(),
        0 <= i < directory.members().len(),
    ensures
        directory.member(directory.members()[i].name@) == Some(directory.members()[i].tree),
        directory.members()[i].tree.wf(),
        is_name(directory.members()[i].name@),
{
    let members = directory.members();
    lemma_index_of(members, members[i].name@);
    let found = index_of(members, members[i].name@);
    assert(found is Some);
    if found->Some_0 < i {
        assert(members[found->Some_0].name@ != members[i].name@);
    }
}

/// What lies at a location of a tree is built as it should be, and the
/// location is made of names of members.
pub(crate) proof fn lemma_lookup_wf(tree: Tree, names: Seq<Seq<char>>)
    requires
        tree.wf(),
        tree.lookup(names) is Some,
    ensures
        tree.lookup(names)->Some_0.wf(),
        all_names(names),
    decreases names.len(),
{
    if names.len() > 0 {
        let front = names.drop_last();
        lemma_lookup_wf(tree, front);
        let parent = tree.lookup(front)->Some_0;
        lemma_index_of(parent.members(), names.last());
        let i = index_of(parent.members(), names.last())->Some_0;
        lemma_member_at(parent, i);
        assert forall|k: int| 0 <= k < names.len() implies is_name(#[trigger] names[k]) by {
            if k < front.len() {
                assert(front[k] == names[k]);
            }
        }
    }
}

/// Whether no two members have the same name.
pub open spec fn distinct_names(children: Seq<ChildView>) -> bool {
    forall|i: int, j: int|
        0 <= i < j < children.len() ==> (#[trigger] children[i]).name != (#[trigger] children[j]).name
}

/// Whether a location is that of a member of the given kind.
pub open spec fn is_member_of_kind(
    directory: Seq<Seq<char>>,
    children: Seq<ChildView>,
    kind: Kind,
    location: Seq<Seq<char>>,
) -> bool {
    exists|i: int|
        0 <= i < children.len() && (#[trigger] children[i]).kind == kind && location
            == directory.push(children[i].name)
}

/// The locations of the members of one kind are those of these members and
/// no others, each once where the names differ.
pub(crate) proof fn lemma_members_of_kind(
    directory: Seq<Seq<char>>,
    children: Seq<ChildView>,
    kind: Kind,
)
    ensures
        forall|k: int|
            0 <= k < members_of_kind(directory, children, kind).len() ==> is_member_of_kind(
                directory,
                children,
                kind,
                #[trigger] members_of_kind(directory, children, kind)[k],
            ),
        forall|location: Seq<Seq<char>>|
            is_member_of_kind(directory, children, kind, location) ==> members_of_kind(
                directory,
                children,
                kind,
            ).contains(location),
        distinct_names(children) ==> members_of_kind(directory, children, kind).no_duplicates(),
    decreases children.len(),
{
    let all = members_of_kind(directory, children, kind);
    if children.len() > 0 {
        let front = children.drop_last();
        let rest = members_of_kind(directory, front, kind);
        lemma_members_of_kind(directory, front, kind);
        assert(forall|i: int| 0 <= i < front.len() ==> front[i] == children[i]);
        assert forall|k: int| 0 <= k < all.len() implies is_member_of_kind(
            directory,
            children,
            kind,
            #[trigger] all[k],
        ) by {
            if k < rest.len() {
                assert(all[k] == rest[k]);
                assert(is_member_of_kind(directory, front, kind, rest[k]));
                let i = choose|i: int|
                    0 <= i < front.len() && (#[trigger] front[i]).kind == kind && rest[k]
                        == directory.push(front[i].name);
                assert(children[i] == front[i]);
            } else {
                assert(children[children.len() - 1].kind == kind);
            }
        }
        assert forall|location: Seq<Seq<char>>|
            is_member_of_kind(directory, children, kind, location) implies all.contains(
            location,
        ) by {
            let i = choose|i: int|
                0 <= i < children.len() && (#[trigger] children[i]).kind == kind && location
                    == directory.push(children[i].name);
            if i < front.len() {
                assert(front[i] == children[i]);
                assert(is_member_of_kind(directory, front, kind, location));
                assert(rest.contains(location));
                let k = choose|k: int| 0 <= k < rest.len() && rest[k] == location;
                assert(all[k] == location);
            } else {
                assert(all[all.len() - 1] == location);
            }
        }
        if distinct_names(children) {
            assert(distinct_names(front));
            assert forall|a: int, b: int| 0 <= a < all.len() && 0 <= b < all.len() && a != b implies all[a]
                != all[b] by {
                if a < rest.len() && b < rest.len() {
                    assert(rest[a] != rest[b]);
                } else {
                    let inner = if a < rest.len() { a } else { b };
                    assert(is_member_of_kind(directory, front, kind, rest[inner]));
                    let i = choose|i: int|
                        0 <= i < front.len() && (#[trigger] front[i]).kind == kind && rest[inner]
                            == directory.push(front[i].name);
                    assert(children[i].name != children[children.len() - 1].name);
                    assert(directory.push(children[i].name).last() == children[i].name);
                    assert(directory.push(children.last().name).last() == children.last().name);
                }
            }
        }
    }
}

/// The number of places under a location of a tree.
pub open(crate) spec fn weight_at(tree: Tree, names: Seq<Seq<char>>) -> nat {
    match tree.lookup(names) {
        Some(found) => found.weight(),
        None => 0,
    }
}

/// The number of places under a sequence of locations of a tree.
pub open(crate) spec fn pending_weight(tree: Tree, pending: Seq<Seq<Seq<char>>>) -> nat
    decreases pending.len(),
{
    if pending.len() == 0 {
        0
    } else {
        pending_weight(tree, pending.drop_last()) + weight_at(tree, pending.last())
    }
}

/// The places under two sequences of locations add up.
pub(crate) proof fn lemma_pending_weight_sum(
    tree: Tree,
    first: Seq<Seq<Seq<char>>>,
    second: Seq<Seq<Seq<char>>>,
)
    ensures
        pending_weight(tree, first + second) == pending_weight(tree, first) + pending_weight(
            tree,
            second,
        ),
    decreases second.len(),
{
    if second.len() == 0 {
        assert(first + second == first);
    } else {
        lemma_pending_weight_sum(tree, first, second.drop_last());
        assert((first + second).drop_last() == first + second.drop_last());
        assert((first + second).last() == second.last());
    }
}

/// The directories among the first members of a directory hold no more
/// places than these members do.
pub(crate) proof fn lemma_directories_weight(
    tree: Tree,
    names: Seq<Seq<char>>,
    members: Vec<Member>,
    count: nat,
)
    requires
        tree.lookup(names) is Some,
        tree.lookup(names)->Some_0.shape == Shape::Directory(members),
        tree.lookup(names)->Some_0.wf(),
        count <= members.len(),
    ensures
        pending_weight(
            tree,
            members_of_kind(
                names,
                tree.lookup(names)->Some_0.children().take(count as int),
                Kind::Directory,
            ),
        ) <= members_weight(members, count),
    decreases count,
{
    let directory = tree.lookup(names)->Some_0;
    let children = directory.children();
    let first = children.take(count as int);
    let all = members_of_kind(names, first, Kind::Directory);
    if count == 0 {
        assert(first.len() == 0);
        assert(all.len() == 0);
    } else {
        lemma_directories_weight(tree, names, members, (count - 1) as nat);
        assert(first.drop_last() == children.take(count - 1));
        let rest = members_of_kind(names, first.drop_last(), Kind::Directory);
        let last = first.last();
        assert(last == children[count - 1]);
        assert(members_weight(members, count) == members[count - 1].tree.weight()
            + members_weight(members, (count - 1) as nat));
        if last.kind == Kind::Directory {
            let location = names.push(last.name);
            assert(all == rest.push(location));
            assert(all.drop_last() == rest);
            assert(all.last() == location);
            assert(location.drop_last() == names);
            assert(location.last() == last.name);
            lemma_member_at(directory, count - 1);
            assert(directory.members()[count - 1] == members[count - 1]);
            assert(tree.lookup(location) == Some(members[count - 1].tree));
            assert(weight_at(tree, location) == members[count - 1].tree.weight());
        } else {
            assert(all == rest);
        }
    }
}

/// A step of the walk leaves less to read: the directories of the directory
/// that was read hold fewer places than it does.
pub(crate) proof fn lemma_walk_step_weight(tree: Tree, pending: Seq<Seq<Seq<char>>>)
    requires
        tree.wf(),
        pending.len() > 0,
        tree.lookup(pending.last()) is Some,
        tree.lookup(pending.last())->Some_0.is_directory(),
    ensures
        pending_weight(
            tree,
            pending.drop_last() + members_of_kind(
                pending.last(),
                tree.lookup(pending.last())->Some_0.children(),
                Kind::Directory,
            ),
        ) < pending_weight(tree, pending),
{
    let directory = pending.last();
    let parent = tree.lookup(directory)->Some_0;
    let children = parent.children();
    let directories = members_of_kind(directory, children, Kind::Directory);
    lemma_pending_weight_sum(tree, pending.drop_last(), directories);
    lemma_lookup_wf(tree, directory);
    let members = parent.shape->Directory_0;
    lemma_directories_weight(tree, directory, members, members.len() as nat);
    assert(children.take(members.len() as int) == children);
}

/// The answer of the walk that has the given directories pending and has
/// found the given files: the files in the order in which the walk finds
/// them, or the failure at the first directory that it cannot read.
pub open(crate) spec fn walk_from(
    tree: Tree,
    pending: Seq<Seq<Seq<char>>>,
    files: Seq<Seq<char>>,
) -> Result<Seq<Seq<char>>, ListErrorView>
    decreases pending_weight(tree, pending),
    when tree.wf()
    via walk_from_decreases
{
    if pending.len() == 0 {
        Ok(files)
    } else {
        match tree.read(pending.last()) {
            Err(reason) => Err(
                ListErrorView::DirectoryRead {
                    operation: Operation::ListAllFiles,
                    path: joined(pending.last()),
                    message: reason,
                },
            ),
            Ok(children) => walk_from(
                tree,
                pending.drop_last() + members_of_kind(pending.last(), children, Kind::Directory),
                files + relative_paths(members_of_kind(pending.last(), children, Kind::File)),
            ),
        }
    }
}

#[via_fn]
proof fn walk_from_decreases(tree: Tree, pending: Seq<Seq<Seq<char>>>, files: Seq<Seq<char>>) {
    if pending.len() > 0 && tree.read(pending.last()) is Ok {
        lemma_walk_step_weight(tree, pending);
    }
}

/// Whether a directory, readable or not, lies at a location.
pub open(crate) spec fn has_directory_at(tree: Tree, names: Seq<Seq<char>>) -> bool {
    tree.lookup(names) is Some && tree.lookup(names)->Some_0.kind() == Kind::Directory
}

/// Whether a location is that of a member of the directory at `directory`.
pub open spec fn is_child_location(directory: Seq<Seq<char>>, location: Seq<Seq<char>>) -> bool {
    location.len() == directory.len() + 1 && location.drop_last() == directory
}

/// What lies on the way to a member of a directory lies on the way to the
/// directory, or is the member.
pub(crate) proof fn lemma_prefix_of_child(
    short: Seq<Seq<char>>,
    directory: Seq<Seq<char>>,
    location: Seq<Seq<char>>,
)
    requires
        is_child_location(directory, location),
        is_prefix(short, location),
    ensures
        is_prefix(short, directory) || short == location,
{
    if short.len() <= directory.len() {
        assert(directory.take(short.len() as int) =~= location.take(short.len() as int));
    } else {
        assert(location.take(short.len() as int) =~= location);
    }
}

/// A directory lies on the way to whatever one of its members lies on the
/// way to.
pub(crate) proof fn lemma_child_prefix(
    directory: Seq<Seq<char>>,
    location: Seq<Seq<char>>,
    long: Seq<Seq<char>>,
)
    requires
        is_child_location(directory, location),
        is_prefix(location, long),
    ensures
        is_prefix(directory, long),
{
    assert(long.take(directory.len() as int) =~= location.take(directory.len() as int));
    assert(location.take(directory.len() as int) =~= location.drop_last());
}

/// The members of one kind of the directory at a location lie in that
/// directory, each at a place of its own, and are of that kind.
pub(crate) proof fn lemma_child_locations(tree: Tree, names: Seq<Seq<char>>, kind: Kind)
    requires
        tree.wf(),
        tree.lookup(names) is Some,
    ensures
        members_of_kind(names, tree.lookup(names)->Some_0.children(), kind).no_duplicates(),
        forall|k: int|
            0 <= k < members_of_kind(names, tree.lookup(names)->Some_0.children(), kind).len() ==> {
                let location = #[trigger] members_of_kind(
                    names,
                    tree.lookup(names)->Some_0.children(),
                    kind,
                )[k];
                &&& is_child_location(names, location)
                &&& tree.lookup(location) is Some
                &&& tree.lookup(location)->Some_0.kind() == kind
            },
{
    let directory = tree.lookup(names)->Some_0;
    let children = directory.children();
    let all = members_of_kind(names, children, kind);
    lemma_lookup_wf(tree, names);
    lemma_members_of_kind(names, children, kind);
    assert(distinct_names(children)) by {
        assert forall|i: int, j: int| 0 <= i < j < children.len() implies (#[trigger] children[i]).name
            != (#[trigger] children[j]).name by {
            lemma_member_at(directory, i);
            lemma_member_at(directory, j);
            lemma_index_of(directory.members(), directory.members()[j].name@);
        }
    }
    assert forall|k: int| 0 <= k < all.len() implies {
        let location = #[trigger] all[k];
        &&& is_child_location(names, location)
        &&& tree.lookup(location) is Some
        &&& tree.lookup(location)->Some_0.kind() == kind
    } by {
        let location = all[k];
        assert(is_member_of_kind(names, children, kind, location));
        let i = choose|i: int|
            0 <= i < children.len() && (#[trigger] children[i]).kind == kind && location
                == names.push(children[i].name);
        lemma_member_at(directory, i);
        assert(location.drop_last() == names);
        assert(location.last() == directory.members()[i].name@);
    }
}

/// Whether one of the pending directories lies on the way to a location,
/// or is that location.
pub open spec fn is_covered(pending: Seq<Seq<Seq<char>>>, names: Seq<Seq<char>>) -> bool {
    exists|i: int| 0 <= i < pending.len() && is_prefix(#[trigger] pending[i], names)
}

/// What holds of a walk over a tree between two steps. `pending` holds the
/// directories that are still to be read, `found` the locations of the files
/// found so far.
///
/// Every pending location is a directory and every found one a file. No
/// pending directory lies within another, and no file found lies within one,
/// so nothing will be found twice. Every file that is not found yet, and
/// every directory that cannot be read, lies within a pending directory, so
/// nothing will be missed.
pub open(crate) spec fn walk_invariant(
    tree: Tree,
    pending: Seq<Seq<Seq<char>>>,
    found: Seq<Seq<Seq<char>>>,
) -> bool {
    &&& forall|i: int| 0 <= i < pending.len() ==> has_directory_at(tree, #[trigger] pending[i])
    &&& forall|j: int| 0 <= j < found.len() ==> tree.has_file_at(#[trigger] found[j])
    &&& found.no_duplicates()
    &&& forall|i: int, j: int|
        0 <= i < pending.len() && 0 <= j < pending.len() && i != j ==> !is_prefix(
            #[trigger] pending[i],
            #[trigger] pending[j],
        )
    &&& forall|i: int, j: int|
        0 <= i < pending.len() && 0 <= j < found.len() ==> !is_prefix(
            #[trigger] pending[i],
            #[trigger] found[j],
        )
    &&& forall|names: Seq<Seq<char>>| #[trigger]
        tree.has_file_at(names) ==> found.contains(names) || is_covered(pending, names)
    &&& forall|names: Seq<Seq<char>>| #[trigger]
        tree.has_unreadable_at(names) ==> is_covered(pending, names)
}

/// The invariant holds before the first step, with the root pending.
pub(crate) proof fn lemma_walk_begins(tree: Tree)
    requires
        tree.shape is Directory || tree.shape is Unreadable,
    ensures
        walk_invariant(tree, seq![Seq::<Seq<char>>::empty()], Seq::<Seq<Seq<char>>>::empty()),
{
    let root = Seq::<Seq<char>>::empty();
    let pending = seq![root];
    assert(tree.lookup(root) == Some(tree));
    assert forall|names: Seq<Seq<char>>| is_covered(pending, names) by {
        assert(names.take(0) =~= root);
        assert(is_prefix(pending[0], names));
    }
}

/// A location that is sought within the directory that was just read lies
/// at or under one of its members.
pub(crate) proof fn lemma_sought_under_member(
    tree: Tree,
    directory: Seq<Seq<char>>,
    names: Seq<Seq<char>>,
)
    requires
        tree.wf(),
        tree.lookup(directory) is Some,
        tree.lookup(directory)->Some_0.is_directory(),
        is_prefix(directory, names),
        tree.has_file_at(names) || tree.has_unreadable_at(names),
    ensures
        tree.has_file_at(names) ==> members_of_kind(
            directory,
            tree.lookup(directory)->Some_0.children(),
            Kind::File,
        ).contains(names) || is_covered(
            members_of_kind(directory, tree.lookup(directory)->Some_0.children(), Kind::Directory),
            names,
        ),
        tree.has_unreadable_at(names) ==> is_covered(
            members_of_kind(directory, tree.lookup(directory)->Some_0.children(), Kind::Directory),
            names,
        ),
{
    let parent = tree.lookup(directory)->Some_0;
    let children = parent.children();
    let files = members_of_kind(directory, children, Kind::File);
    let directories = members_of_kind(directory, children, Kind::Directory);
    if names.len() == directory.len() {
        assert(names.take(directory.len() as int) == names);
    } else {
        let count = directory.len() + 1;
        let step = names.take(count as int);
        assert(step.drop_last() =~= directory);
        lemma_lookup_on_the_way(tree, names, count as int);
        let below = tree.lookup(step)->Some_0;
        assert(parent.member(step.last()) == Some(below));
        lemma_index_of(parent.members(), step.last());
        let i = index_of(parent.members(), step.last())->Some_0;
        assert(children[i].name == step.last());
        assert(children[i].kind == below.kind());
        assert(directory.push(children[i].name) =~= step);
        assert(is_prefix(step, names));
        lemma_members_of_kind(directory, children, Kind::File);
        lemma_members_of_kind(directory, children, Kind::Directory);
        if count == names.len() {
            assert(step == names);
        }
        if below.kind() == Kind::Directory {
            assert(is_member_of_kind(directory, children, Kind::Directory, step));
            assert(directories.contains(step));
            let k = choose|k: int| 0 <= k < directories.len() && directories[k] == step;
            assert(is_prefix(directories[k], names));
        } else {
            assert(count == names.len());
            assert(is_member_of_kind(directory, children, Kind::File, step));
        }
    }
}

/// What was in sight before a step of the walk is in sight after it.
pub(crate) proof fn lemma_walk_step_misses_nothing(
    tree: Tree,
    pending: Seq<Seq<Seq<char>>>,
    found: Seq<Seq<Seq<char>>>,
    names: Seq<Seq<char>>,
)
    requires
        tree.wf(),
        walk_invariant(tree, pending, found),
        pending.len() > 0,
        tree.lookup(pending.last()) is Some,
        tree.lookup(pending.last())->Some_0.is_directory(),
        tree.has_file_at(names) || tree.has_unreadable_at(names),
    ensures
        (tree.has_file_at(names) && (found + members_of_kind(
            pending.last(),
            tree.lookup(pending.last())->Some_0.children(),
            Kind::File,
        )).contains(names)) || is_covered(
            pending.drop_last() + members_of_kind(
                pending.last(),
                tree.lookup(pending.last())->Some_0.children(),
                Kind::Directory,
            ),
            names,
        ),
{
    let directory = pending.last();
    let parent = tree.lookup(directory)->Some_0;
    let children = parent.children();
    let rest = pending.drop_last();
    let directories = members_of_kind(directory, children, Kind::Directory);
    let files = members_of_kind(directory, children, Kind::File);
    let next_pending = rest + directories;
    let next_found = found + files;
    if tree.has_file_at(names) && found.contains(names) {
        let j = choose|j: int| 0 <= j < found.len() && found[j] == names;
        assert(next_found[j] == names);
    } else {
        assert(is_covered(pending, names));
        let i = choose|i: int| 0 <= i < pending.len() && is_prefix(#[trigger] pending[i], names);
        if i < rest.len() {
            assert(next_pending[i] == pending[i]);
        } else {
            lemma_sought_under_member(tree, directory, names);
            if tree.has_file_at(names) && files.contains(names) {
                let k = choose|k: int| 0 <= k < files.len() && files[k] == names;
                assert(next_found[found.len() + k] == names);
            } else {
                assert(is_covered(directories, names));
                let k = choose|k: int|
                    0 <= k < directories.len() && is_prefix(#[trigger] directories[k], names);
                assert(next_pending[rest.len() + k] == directories[k]);
            }
        }
    }
}

/// A step of the walk keeps the invariant: the directory that was pending
/// last is read, its directories become pending in its place, and its files
/// are found.
pub(crate) proof fn lemma_walk_step(
    tree: Tree,
    pending: Seq<Seq<Seq<char>>>,
    found: Seq<Seq<Seq<char>>>,
)
    requires
        tree.wf(),
        walk_invariant(tree, pending, found),
        pending.len() > 0,
        tree.lookup(pending.last()) is Some,
        tree.lookup(pending.last())->Some_0.is_directory(),
    ensures
        walk_invariant(
            tree,
            pending.drop_last() + members_of_kind(
                pending.last(),
                tree.lookup(pending.last())->Some_0.children(),
                Kind::Directory,
            ),
            found + members_of_kind(
                pending.last(),
                tree.lookup(pending.last())->Some_0.children(),
                Kind::File,
            ),
        ),
{
    let directory = pending.last();
    let last = pending.len() - 1;
    let parent = tree.lookup(directory)->Some_0;
    let children = parent.children();
    let rest = pending.drop_last();
    let directories = members_of_kind(directory, children, Kind::Directory);
    let files = members_of_kind(directory, children, Kind::File);
    let next_pending = rest + directories;
    let next_found = found + files;
    lemma_child_locations(tree, directory, Kind::Directory);
    lemma_child_locations(tree, directory, Kind::File);
    assert(pending[last] == directory);

    assert forall|i: int| 0 <= i < next_pending.len() implies has_directory_at(
        tree,
        #[trigger] next_pending[i],
    ) by {
        if i < rest.len() {
            assert(next_pending[i] == pending[i]);
        } else {
            assert(next_pending[i] == directories[i - rest.len()]);
        }
    }
    assert forall|j: int| 0 <= j < next_found.len() implies tree.has_file_at(
        #[trigger] next_found[j],
    ) by {
        if j < found.len() {
            assert(next_found[j] == found[j]);
        } else {
            assert(next_found[j] == files[j - found.len()]);
        }
    }
    assert forall|a: int, b: int|
        0 <= a < next_found.len() && 0 <= b < next_found.len() && a != b implies next_found[a]
        != next_found[b] by {
        if a < found.len() && b < found.len() {
        } else if a >= found.len() && b >= found.len() {
            assert(next_found[a] == files[a - found.len()]);
            assert(next_found[b] == files[b - found.len()]);
        } else {
            let old_one = if a < found.len() { a } else { b };
            let new_one = if a < found.len() { b } else { a };
            let location = files[new_one - found.len()];
            assert(next_found[new_one] == location);
            assert(next_found[old_one] == found[old_one]);
            if found[old_one] == location {
                assert(is_prefix(location, location)) by {
                    assert(location.take(location.len() as int) =~= location);
                }
                lemma_child_prefix(directory, location, location);
                assert(is_prefix(pending[last], found[old_one]));
            }
        }
    }
    assert forall|i: int, j: int|
        0 <= i < next_pending.len() && 0 <= j < next_pending.len() && i != j implies !is_prefix(
        #[trigger] next_pending[i],
        #[trigger] next_pending[j],
    ) by {
        let short = next_pending[i];
        let long = next_pending[j];
        if is_prefix(short, long) {
            if i < rest.len() && j < rest.len() {
                assert(short == pending[i] && long == pending[j]);
            } else if i < rest.len() {
                assert(short == pending[i]);
                assert(long == directories[j - rest.len()]);
                lemma_prefix_of_child(short, directory, long);
                if short == long {
                    assert(is_prefix(directory, short)) by {
                        assert(short.take(directory.len() as int) =~= short.drop_last());
                    }
                    assert(is_prefix(pending[last], pending[i]));
                } else {
                    assert(is_prefix(pending[i], pending[last]));
                }
            } else if j < rest.len() {
                assert(long == pending[j]);
                assert(short == directories[i - rest.len()]);
                lemma_child_prefix(directory, short, long);
                assert(is_prefix(pending[last], pending[j]));
            } else {
                assert(short == directories[i - rest.len()]);
                assert(long == directories[j - rest.len()]);
                assert(long.take(short.len() as int) =~= long);
            }
        }
    }
    assert forall|i: int, j: int|
        0 <= i < next_pending.len() && 0 <= j < next_found.len() implies !is_prefix(
        #[trigger] next_pending[i],
        #[trigger] next_found[j],
    ) by {
        let short = next_pending[i];
        let long = next_found[j];
        if is_prefix(short, long) {
            if i < rest.len() && j < found.len() {
                assert(short == pending[i] && long == found[j]);
            } else if i < rest.len() {
                assert(short == pending[i]);
                assert(long == files[j - found.len()]);
                lemma_prefix_of_child(short, directory, long);
                if short == long {
                } else {
                    assert(is_prefix(pending[i], pending[last]));
                }
            } else if j < found.len() {
                assert(long == found[j]);
                assert(short == directories[i - rest.len()]);
                lemma_child_prefix(directory, short, long);
                assert(is_prefix(pending[last], found[j]));
            } else {
                assert(short == directories[i - rest.len()]);
                assert(long == files[j - found.len()]);
                assert(long.take(short.len() as int) =~= long);
            }
        }
    }
    assert(next_found.no_duplicates());
    assert forall|names: Seq<Seq<char>>| #[trigger] tree.has_file_at(names) implies next_found.contains(
        names,
    ) || is_covered(next_pending, names) by {
        lemma_walk_step_misses_nothing(tree, pending, found, names);
    }
    assert forall|names: Seq<Seq<char>>| #[trigger] tree.has_unreadable_at(names) implies is_covered(
        next_pending,
        names,
    ) by {
        lemma_walk_step_misses_nothing(tree, pending, found, names);
    }
    assert(walk_invariant(tree, next_pending, next_found));
}

/// When nothing is pending, every directory has been read, and the files
/// found are the files of the tree, each once.
pub(crate) proof fn lemma_walk_ends(tree: Tree, found: Seq<Seq<Seq<char>>>)
    requires
        tree.wf(),
        walk_invariant(tree, Seq::<Seq<Seq<char>>>::empty(), found),
    ensures
        tree.is_readable(),
        tree.is_file_listing(relative_paths(found)),
{
    let nothing = Seq::<Seq<Seq<char>>>::empty();
    let paths = relative_paths(found);
    assert(forall|names: Seq<Seq<char>>| !is_covered(nothing, names));
    assert forall|a: int, b: int| 0 <= a < paths.len() && 0 <= b < paths.len() && a != b implies paths[a]
        != paths[b] by {
        assert(tree.has_file_at(found[a]) && tree.has_file_at(found[b]));
        lemma_lookup_wf(tree, found[a]);
        lemma_lookup_wf(tree, found[b]);
        if joined(found[a]) == joined(found[b]) {
            lemma_joined_injective(found[a], found[b]);
        }
    }
    assert forall|text: Seq<char>| paths.contains(text) <==> tree.is_file_path(text) by {
        if paths.contains(text) {
            let j = choose|j: int| 0 <= j < paths.len() && paths[j] == text;
            assert(tree.has_file_at(found[j]));
        }
        if tree.is_file_path(text) {
            let names = choose|names: Seq<Seq<char>>| #[trigger]
                tree.has_file_at(names) && joined(names) == text;
            assert(found.contains(names));
            let j = choose|j: int| 0 <= j < found.len() && found[j] == names;
            assert(paths[j] == text);
        }
    }
}

/// Two listings of the files of one tree hold the same paths, each once:
/// they differ at most in the order of the paths, and are of the same length.
pub proof fn lemma_file_listings_agree(tree: Tree, first: Seq<Seq<char>>, second: Seq<Seq<char>>)
    requires
        tree.is_file_listing(first),
        tree.is_file_listing(second),
    ensures
        first.to_multiset() == second.to_multiset(),
        first.len() == second.len(),
{
    first.lemma_multiset_has_no_duplicates();
    second.lemma_multiset_has_no_duplicates();
    first.to_multiset_ensures();
    second.to_multiset_ensures();
    assert forall|text: Seq<char>| first.to_multiset().count(text) == second.to_multiset().count(
        text,
    ) by {
        assert(first.contains(text) <==> tree.is_file_path(text));
        assert(second.contains(text) <==> tree.is_file_path(text));
    }
    assert(first.to_multiset() =~= second.to_multiset());
}

/// The listing of the files of a tree holds the relative path of a file at
/// any depth, and of nothing that is no regular file.
pub proof fn lemma_file_listing_members(tree: Tree, paths: Seq<Seq<char>>, names: Seq<Seq<char>>)
    requires
        tree.wf(),
        tree.is_file_listing(paths),
        tree.lookup(names) is Some,
    ensures
        paths.contains(joined(names)) <==> tree.lookup(names)->Some_0.is_file(),
{
    if tree.lookup(names)->Some_0.is_file() {
        assert(tree.has_file_at(names));
        assert(tree.is_file_path(joined(names)));
    }
    if paths.contains(joined(names)) {
        assert(tree.is_file_path(joined(names)));
        let other = choose|other: Seq<Seq<char>>| #[trigger]
            tree.has_file_at(other) && joined(other) == joined(names);
        lemma_lookup_wf(tree, other);
        lemma_lookup_wf(tree, names);
        lemma_joined_injective(other, names);
    }
}

/// The walk that goes on from a state of which the invariant holds gives
/// the files of the tree, each once, if every directory of the tree can be
/// read, and fails at one that cannot be read otherwise.
pub(crate) proof fn lemma_walk_from(
    tree: Tree,
    pending: Seq<Seq<Seq<char>>>,
    found: Seq<Seq<Seq<char>>>,
)
    requires
        tree.wf(),
        tree.kind() == Kind::Directory,
        walk_invariant(tree, pending, found),
    ensures
        match walk_from(tree, pending, relative_paths(found)) {
            Ok(paths) => tree.is_readable() && tree.is_file_listing(paths),
            Err(error) => !tree.is_readable() && tree.is_read_failure(error),
        },
    decreases pending_weight(tree, pending),
{
    if pending.len() == 0 {
        assert(pending =~= Seq::<Seq<Seq<char>>>::empty());
        lemma_walk_ends(tree, found);
    } else {
        let directory = pending.last();
        assert(has_directory_at(tree, pending[pending.len() - 1]));
        match tree.read(directory) {
            Err(reason) => {
                assert(tree.has_unreadable_at(directory));
            },
            Ok(children) => {
                let files = members_of_kind(directory, children, Kind::File);
                let directories = members_of_kind(directory, children, Kind::Directory);
                lemma_walk_step(tree, pending, found);
                lemma_walk_step_weight(tree, pending);
                assert(relative_paths(found + files) =~= relative_paths(found) + relative_paths(
                    files,
                ));
                lemma_walk_from(tree, pending.drop_last() + directories, found + files);
            },
        }
    }
}

/// The walk over a tree finds every regular file of it, at any depth, each
/// once, and nothing else, whatever the order in which it reads the
/// directories. It gives the files if and only if the root is a directory
/// and every directory of the tree can be read; otherwise it fails, with
/// nothing found, at the root or at a directory that cannot be read.
pub proof fn lemma_file_walk(tree: Tree)
    requires
        tree.wf(),
    ensures
        tree.file_walk() is Ok <==> tree.kind() == Kind::Directory && tree.is_readable(),
        tree.file_walk() is Ok ==> tree.is_file_listing(tree.file_walk()->Ok_0),
        tree.file_walk() is Err ==> tree.is_read_failure(tree.file_walk()->Err_0),
{
    let root = Seq::<Seq<char>>::empty();
    let nothing = Seq::<Seq<Seq<char>>>::empty();
    assert(tree.lookup(root) == Some(tree));
    assert(joined(root) == Seq::<char>::empty());
    if tree.kind() == Kind::Directory {
        lemma_walk_begins(tree);
        lemma_walk_from(tree, seq![root], nothing);
        assert(relative_paths(nothing) =~= Seq::<Seq<char>>::empty());
    }
}

impl Tree {
    /// Lists every regular file of the tree by its relative path, with a
    /// slash between the names. The directories are read one at a time from a
    /// work list, so the depth of the tree costs no stack. Each file is there
    /// once and nothing else is; callers are to make nothing of the order.
    ///
    /// There is no listing in part: if the root is no directory, or a single
    /// directory below it cannot be read, the whole listing fails.
    pub fn list_all_files(&self) -> (result: Result<Vec<String>, ListError>)
        requires
            self.wf(),
        ensures
            match self.file_walk() {
                Ok(paths) => result is Ok && texts(result->Ok_0@) == paths,
                Err(error) => result is Err && result->Err_0@ == error,
            },
            result is Ok <==> self.kind() == Kind::Directory && self.is_readable(),
            result is Ok ==> self.is_file_listing(texts(result->Ok_0@)),
            result is Err ==> self.is_read_failure(result->Err_0@),
    {
        let mut walk = Walk::new();
        loop
            invariant
                self.wf(),
                walk_from(*self, walk@.pending, walk@.files) == self.file_walk(),
            decreases pending_weight(*self, walk@.pending),
        {
            let ghost pending = walk@.pending;
            match walk.advance() {
                Progress::Finished { files } => {
                    proof {
                        lemma_file_walk(*self);
                    }
                    return Ok(files);
                },
                Progress::Read { directory, rest } => {
                    match self.read_directory(&directory) {
                        Err(message) => {
                            proof {
                                lemma_file_walk(*self);
                            }
                            return Err(read_failure(&directory, message));
                        },
                        Ok(children) => {
                            proof {
                                lemma_walk_step_weight(*self, pending);
                            }
                            walk = rest.record(&directory, &children);
                        },
                    }
                },
            }
        }
    }
}

} // verus!

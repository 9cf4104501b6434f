//! Locations below the root, and the reading of a requested path.

use crate::error::{ListError, ListErrorView};
use vstd::prelude::*;
use vstd::string::{StrSliceExecFns, StringExecFns};

verus! {

/// A place below the root: the names of the directories that lead to it, and
/// its own name last. The empty location is the root itself.
#[derive(Clone, Debug, PartialEq, Eq)]
pub struct Location {
    pub segments: Vec<String>,
}

impl View for Location {
    type V = Seq<Seq<char>>;

    open spec fn view(&self) -> Seq<Seq<char>> {
        Seq::new(self.segments.len() as nat, |i: int| self.segments[i]@)
    }
}

/// Whether a character parts the segments of a requested path. Both slashes
/// do, so that a request cannot climb with either.
pub open spec fn is_separator(c: char) -> bool {
    c == '/' || c == '\\'
}

/// The segment that stands for the directory itself.
pub open spec fn current_segment() -> Seq<char> {
    seq!['.']
}

/// The segment that stands for the directory above.
pub open spec fn parent_segment() -> Seq<char> {
    seq!['.', '.']
}

/// Whether a text holds no separator.
pub open spec fn is_plain(text: Seq<char>) -> bool {
    forall|i: int| 0 <= i < text.len() ==> !is_separator(#[trigger] text[i])
}

/// Whether a segment names a member of a directory: it is not empty, holds no
/// separator, and is neither of the two special segments.
pub open spec fn is_name(segment: Seq<char>) -> bool {
    &&& segment.len() > 0
    &&& is_plain(segment)
    &&& segment != current_segment()
    &&& segment != parent_segment()
}

/// Whether every segment of a location names a member of a directory.
pub open spec fn all_names(segments: Seq<Seq<char>>) -> bool {
    forall|i: int| 0 <= i < segments.len() ==> is_name(#[trigger] segments[i])
}

/// The pieces between the separators of a text, empty ones included. A text
/// with n separators has n + 1 pieces.
pub open spec fn pieces(text: Seq<char>) -> Seq<Seq<char>>
    decreases text.len(),
{
    if text.len() == 0 {
        seq![Seq::empty()]
    } else {
        let front = pieces(text.drop_last());
        if is_separator(text.last()) {
            front.push(Seq::empty())
        } else {
            front.drop_last().push(front.last().push(text.last()))
        }
    }
}

/// Where one more segment leads from a location: an empty segment and the
/// one for the directory itself lead nowhere else, the one for the directory
/// above drops the last name, and there is nothing above the root.
pub open spec fn walk_segment(from: Option<Seq<Seq<char>>>, segment: Seq<char>) -> Option<
    Seq<Seq<char>>,
> {
    match from {
        None => None,
        Some(names) => if segment.len() == 0 || segment == current_segment() {
            Some(names)
        } else if segment == parent_segment() {
            if names.len() == 0 {
                None
            } else {
                Some(names.drop_last())
            }
        } else {
            Some(names.push(segment))
        },
    }
}

/// Where a sequence of segments leads from the root, or `None` if at some
/// point it climbs above the root.
pub open spec fn walk_segments(segments: Seq<Seq<char>>) -> Option<Seq<Seq<char>>>
    decreases segments.len(),
{
    if segments.len() == 0 {
        Some(Seq::empty())
    } else {
        walk_segment(walk_segments(segments.drop_last()), segments.last())
    }
}

/// Whether a requested path starts at the top of the file system instead of
/// at the root.
pub open spec fn is_absolute(text: Seq<char>) -> bool {
    text.len() > 0 && is_separator(text[0])
}

/// The location that a requested path names, or `None` if the path leaves the
/// root: it starts with a separator, or climbs above the root on its way.
pub open spec fn resolved(text: Seq<char>) -> Option<Seq<Seq<char>>> {
    if is_absolute(text) {
        None
    } else {
        walk_segments(pieces(text))
    }
}

/// The relative path of a location: its names with a slash between them.
pub open spec fn joined(names: Seq<Seq<char>>) -> Seq<char>
    decreases names.len(),
{
    if names.len() == 0 {
        Seq::empty()
    } else if names.len() == 1 {
        names[0]
    } else {
        joined(names.drop_last()) + seq!['/'] + names.last()
    }
}

impl Location {
    /// The root.
    pub fn root() -> (location: Location)
        ensures
            location@ == Seq::<Seq<char>>::empty(),
    {
        let location = Location { segments: Vec::new() };
        assert(location@ =~= Seq::<Seq<char>>::empty());
        location
    }

    /// The member `name` of the directory at this location.
    pub fn child(&self, name: &str) -> (location: Location)
        ensures
            location@ == self@.push(name@),
    {
        let mut segments: Vec<String> = Vec::new();
        let mut i: usize = 0;
        while i < self.segments.len()
            invariant
                i <= self.segments.len(),
                segments.len() == i,
                forall|j: int| 0 <= j < i ==> segments[j]@ == self.segments[j]@,
            decreases self.segments.len() - i,
        {
            segments.push(self.segments[i].clone());
            i = i + 1;
        }
        segments.push(String::from_str(name));
        let location = Location { segments };
        assert(location@ =~= self@.push(name@));
        location
    }

    /// The relative path of this location, with a slash between its names;
    /// the empty text for the root.
    pub fn to_relative_path(&self) -> (text: String)
        ensures
            text@ == joined(self@),
    {
        let mut text = String::new();
        let mut i: usize = 0;
        while i < self.segments.len()
            invariant
                i <= self.segments.len(),
                text@ == joined(self@.take(i as int)),
            decreases self.segments.len() - i,
        {
            let ghost before = self@.take(i as int);
            let ghost after = self@.take(i + 1);
            proof {
                assert(after.drop_last() == before);
                assert(after.last() == self.segments[i as int]@);
            }
            if i > 0 {
                proof {
                    reveal_strlit("/");
                    assert("/"@ == seq!['/']);
                }
                text.append("/");
            } else {
                assert(text@ == Seq::<char>::empty());
                assert(after =~= seq![self.segments[0]@]);
            }
            text.append(self.segments[i].as_str());
            i = i + 1;
        }
        assert(self@.take(self.segments.len() as int) == self@);
        text
    }
}

/// Whether a text can be the name of a member of a directory.
pub fn is_valid_name(name: &str) -> (valid: bool)
    ensures
        valid == is_name(name@),
{
    let total = name.unicode_len();
    let mut plain = true;
    let mut dots: usize = 0;
    let mut i: usize = 0;
    for c in it: name.chars()
        invariant
            it.seq() == name@,
            i == it.index(),
            total == name@.len(),
            dots <= i,
            plain == is_plain(name@.take(i as int)),
            dots == i <==> (forall|k: int| 0 <= k < i ==> name@[k] == '.'),
    {
        proof {
            assert(forall|k: int| 0 <= k < i ==> name@.take(i as int)[k] == name@[k]);
            assert(forall|k: int| 0 <= k < i + 1 ==> name@.take(i + 1)[k] == name@[k]);
            if is_plain(name@.take(i + 1)) {
                assert forall|k: int| 0 <= k < i implies !is_separator(
                    #[trigger] name@.take(i as int)[k],
                ) by {
                    assert(!is_separator(name@.take(i + 1)[k]));
                }
                assert(!is_separator(name@.take(i + 1)[i as int]));
            }
        }
        if c == '/' || c == '\\' {
            plain = false;
        }
        if c == '.' && dots == i {
            dots = dots + 1;
        }
        i = i + 1;
    }
    proof {
        assert(name@.take(total as int) == name@);
        if dots == total && total == 1 {
            assert(name@ =~= current_segment());
        }
        if dots == total && total == 2 {
            assert(name@ =~= parent_segment());
        }
        if name@ == current_segment() {
            assert(name@.len() == 1 && name@[0] == '.');
        }
        if name@ == parent_segment() {
            assert(name@.len() == 2 && name@[0] == '.' && name@[1] == '.');
        }
    }
    total > 0 && plain && !(dots == total && total <= 2)
}

/// Takes one more segment of a requested path: `names` holds the location
/// reached so far, and `inside` says whether the path has stayed in the root.
fn take_segment(names: &mut Vec<String>, inside: &mut bool, segment: &str)
    ensures
        walk_segment(
            if *old(inside) {
                Some(Seq::new(old(names).len() as nat, |i: int| old(names)[i]@))
            } else {
                None
            },
            segment@,
        ) == (if *final(inside) {
            Some(Seq::new(final(names).len() as nat, |i: int| final(names)[i]@))
        } else {
            None::<Seq<Seq<char>>>
        }),
{
    if !*inside {
        return ;
    }
    let ghost before = Seq::new(names.len() as nat, |i: int| names[i]@);
    let length = segment.unicode_len();
    if length == 0 {
        return ;
    }
    let first = segment.get_char(0);
    if length == 1 && first == '.' {
        assert(segment@ =~= current_segment());
        return ;
    }
    if length == 2 && first == '.' && segment.get_char(1) == '.' {
        assert(segment@ =~= parent_segment());
        if names.len() == 0 {
            *inside = false;
        } else {
            names.pop();
            assert(Seq::new(names.len() as nat, |i: int| names[i]@) =~= before.drop_last());
        }
        return ;
    }
    assert(segment@ != current_segment());
    assert(segment@ != parent_segment()) by {
        if segment@ == parent_segment() {
            assert(segment@.len() == 2 && segment@[0] == '.' && segment@[1] == '.');
        }
    }
    names.push(String::from_str(segment));
    assert(Seq::new(names.len() as nat, |i: int| names[i]@) =~= before.push(segment@));
}

/// Reads a requested path. It is taken from the root, segment by segment;
/// either slash parts the segments. The answer is the location that the path
/// names, made of plain names only. A path that starts with a separator, or
/// that climbs above the root at any point, is refused.
pub fn resolve(path: &str) -> (result: Result<Location, ListError>)
    ensures
        match resolved(path@) {
            Some(names) => result is Ok && result->Ok_0@ == names && all_names(names),
            None => result is Err && result->Err_0@ == (ListErrorView::PathEscape { path: path@ }),
        },
{
    let total = path.unicode_len();
    let mut names: Vec<String> = Vec::new();
    let mut inside = true;
    let mut start: usize = 0;
    let mut i: usize = 0;
    let mut absolute = false;
    for c in it: path.chars()
        invariant
            it.seq() == path@,
            i == it.index(),
            total == path@.len(),
            start <= i,
            absolute == (i > 0 && is_separator(path@[0])),
            pieces(path@.take(i as int)).len() > 0,
            pieces(path@.take(i as int)).last() == path@.subrange(start as int, i as int),
            walk_segments(pieces(path@.take(i as int)).drop_last()) == (if inside {
                Some(Seq::new(names.len() as nat, |k: int| names[k]@))
            } else {
                None::<Seq<Seq<char>>>
            }),
    {
        let ghost before = path@.take(i as int);
        let ghost after = path@.take(i + 1);
        proof {
            assert(after.drop_last() == before);
            assert(after.last() == c);
        }
        if c == '/' || c == '\\' {
            if i == 0 {
                absolute = true;
            }
            let segment = path.substring_char(start, i);
            proof {
                assert(pieces(after) == pieces(before).push(Seq::empty()));
                assert(pieces(after).drop_last() == pieces(before));
                assert(pieces(before).drop_last().push(pieces(before).last()) == pieces(before));
            }
            take_segment(&mut names, &mut inside, segment);
            start = i + 1;
            proof {
                assert(path@.subrange(start as int, start as int) =~= Seq::<char>::empty());
            }
        } else {
            proof {
                assert(pieces(after) == pieces(before).drop_last().push(
                    pieces(before).last().push(c),
                ));
                assert(pieces(after).drop_last() == pieces(before).drop_last());
                assert(path@.subrange(start as int, i + 1) =~= path@.subrange(
                    start as int,
                    i as int,
                ).push(c));
            }
        }
        i = i + 1;
    }
    proof {
        assert(path@.take(total as int) == path@);
        assert(pieces(path@).drop_last().push(pieces(path@).last()) == pieces(path@));
    }
    let segment = path.substring_char(start, total);
    take_segment(&mut names, &mut inside, segment);
    if absolute || !inside {
        Err(ListError::PathEscape { path: String::from_str(path) })
    } else {
        let location = Location { segments: names };
        proof {
            lemma_pieces_plain(path@);
            lemma_walk_segments_names(pieces(path@));
        }
        Ok(location)
    }
}

/// No piece of a text holds a separator.
pub proof fn lemma_pieces_plain(text: Seq<char>)
    ensures
        pieces(text).len() > 0,
        forall|i: int| 0 <= i < pieces(text).len() ==> is_plain(#[trigger] pieces(text)[i]),
    decreases text.len(),
{
    if text.len() > 0 {
        lemma_pieces_plain(text.drop_last());
    }
}

/// A walk over segments without separators that stays in the root ends at a
/// location of names.
pub proof fn lemma_walk_segments_names(segments: Seq<Seq<char>>)
    requires
        forall|i: int| 0 <= i < segments.len() ==> is_plain(#[trigger] segments[i]),
    ensures
        walk_segments(segments) matches Some(names) ==> all_names(names),
    decreases segments.len(),
{
    if segments.len() > 0 {
        lemma_walk_segments_names(segments.drop_last());
    }
}

/// A text without separators is its own single piece.
pub proof fn lemma_pieces_of_plain(text: Seq<char>)
    requires
        is_plain(text),
    ensures
        pieces(text) == seq![text],
    decreases text.len(),
{
    if text.len() == 0 {
        assert(text =~= Seq::<char>::empty());
    } else {
        let front = text.drop_last();
        assert forall|i: int| 0 <= i < front.len() implies !is_separator(#[trigger] front[i]) by {
            assert(front[i] == text[i]);
        }
        lemma_pieces_of_plain(front);
        assert(!is_separator(text[text.len() - 1]));
        assert(front.push(text.last()) =~= text);
        assert(seq![front].drop_last().push(front.push(text.last())) =~= seq![text]);
    }
}

/// A separator and a text without separators after it add one piece.
pub proof fn lemma_pieces_after_separator(head: Seq<char>, separator: char, tail: Seq<char>)
    requires
        is_separator(separator),
        is_plain(tail),
    ensures
        pieces(head + seq![separator] + tail) == pieces(head).push(tail),
    decreases tail.len(),
{
    let text = head + seq![separator] + tail;
    if tail.len() == 0 {
        assert(text.drop_last() =~= head);
        assert(text.last() == separator);
        assert(tail =~= Seq::<char>::empty());
    } else {
        let front = tail.drop_last();
        assert forall|i: int| 0 <= i < front.len() implies !is_separator(#[trigger] front[i]) by {
            assert(front[i] == tail[i]);
        }
        lemma_pieces_after_separator(head, separator, front);
        assert(text.drop_last() =~= head + seq![separator] + front);
        assert(text.last() == tail[tail.len() - 1]);
        assert(front.push(tail.last()) =~= tail);
        assert(pieces(head).push(front).drop_last() =~= pieces(head));
    }
}

/// The pieces of a relative path are the names it was joined from.
pub proof fn lemma_pieces_joined(names: Seq<Seq<char>>)
    requires
        names.len() > 0,
        forall|i: int| 0 <= i < names.len() ==> is_plain(#[trigger] names[i]),
    ensures
        pieces(joined(names)) == names,
    decreases names.len(),
{
    if names.len() == 1 {
        lemma_pieces_of_plain(names[0]);
        assert(seq![names[0]] =~= names);
    } else {
        let front = names.drop_last();
        assert forall|i: int| 0 <= i < front.len() implies is_plain(#[trigger] front[i]) by {
            assert(front[i] == names[i]);
        }
        lemma_pieces_joined(front);
        assert(is_plain(names[names.len() - 1]));
        lemma_pieces_after_separator(joined(front), '/', names.last());
        assert(front.push(names.last()) =~= names);
    }
}

/// A walk over names goes down at every segment and ends at those names.
pub proof fn lemma_walk_names(names: Seq<Seq<char>>)
    requires
        all_names(names),
    ensures
        walk_segments(names) == Some(names),
    decreases names.len(),
{
    if names.len() == 0 {
        assert(names =~= Seq::<Seq<char>>::empty());
    } else {
        let front = names.drop_last();
        assert forall|i: int| 0 <= i < front.len() implies is_name(#[trigger] front[i]) by {
            assert(front[i] == names[i]);
        }
        lemma_walk_names(front);
        assert(is_name(names[names.len() - 1]));
        assert(front.push(names.last()) =~= names);
    }
}

/// A relative path begins with its first name.
pub proof fn lemma_joined_first(names: Seq<Seq<char>>)
    requires
        names.len() > 0,
    ensures
        joined(names).len() >= names[0].len(),
        forall|i: int| 0 <= i < names[0].len() ==> joined(names)[i] == names[0][i],
    decreases names.len(),
{
    if names.len() > 1 {
        lemma_joined_first(names.drop_last());
        assert(names.drop_last()[0] == names[0]);
    }
}

/// Reading the relative path of a location of names gives that location
/// back: such a path never leaves the root.
pub proof fn lemma_resolved_joined(names: Seq<Seq<char>>)
    requires
        all_names(names),
    ensures
        resolved(joined(names)) == Some(names),
{
    if names.len() == 0 {
        assert(joined(names) =~= Seq::<char>::empty());
        let only = seq![Seq::<char>::empty()];
        assert(pieces(joined(names)) == only);
        assert(only.drop_last() =~= Seq::<Seq<char>>::empty());
        assert(walk_segments(only.drop_last()) == Some(Seq::<Seq<char>>::empty()));
        assert(walk_segments(only) == Some(Seq::<Seq<char>>::empty()));
        assert(names =~= Seq::<Seq<char>>::empty());
    } else {
        lemma_joined_first(names);
        assert(is_name(names[0]));
        assert(!is_separator(names[0][0]));
        lemma_pieces_joined(names);
        lemma_walk_names(names);
    }
}

/// Two locations of names with the same relative path are the same location.
pub proof fn lemma_joined_injective(first: Seq<Seq<char>>, second: Seq<Seq<char>>)
    requires
        all_names(first),
        all_names(second),
        joined(first) == joined(second),
    ensures
        first == second,
{
    lemma_resolved_joined(first);
    lemma_resolved_joined(second);
}

/// What a requested path resolves to lies in the root: it is made of names
/// of members only, and its own relative path resolves to it again.
pub proof fn lemma_resolved_stays_inside(text: Seq<char>)
    ensures
        resolved(text) matches Some(names) ==> all_names(names) && resolved(joined(names)) == Some(
            names,
        ),
{
    if resolved(text) is Some {
        lemma_pieces_plain(text);
        lemma_walk_segments_names(pieces(text));
        lemma_resolved_joined(resolved(text)->Some_0);
    }
}

/// A path that begins with a separator leaves the root, and so does one
/// that begins with a step up.
pub proof fn lemma_escapes(text: Seq<char>)
    ensures
        text.len() > 0 && is_separator(text[0]) ==> resolved(text) is None,
        pieces(text)[0] == parent_segment() ==> resolved(text) is None,
{
    lemma_pieces_plain(text);
    if pieces(text)[0] == parent_segment() {
        lemma_walk_climbs_first(pieces(text));
    }
}

/// A walk whose first segment is a step up ends above the root.
pub proof fn lemma_walk_climbs_first(segments: Seq<Seq<char>>)
    requires
        segments.len() > 0,
        segments[0] == parent_segment(),
    ensures
        walk_segments(segments) is None,
    decreases segments.len(),
{
    if segments.len() == 1 {
        assert(segments.drop_last() =~= Seq::<Seq<char>>::empty());
        assert(walk_segments(segments.drop_last()) == Some(Seq::<Seq<char>>::empty()));
        assert(segments.last() == parent_segment());
        assert(parent_segment().len() == 2);
        assert(parent_segment() != current_segment()) by {
            assert(current_segment().len() == 1);
        }
    } else {
        assert(segments.drop_last()[0] == segments[0]);
        lemma_walk_climbs_first(segments.drop_last());
    }
}

} // verus!

//! Paths of files and directories inside a repository.
use crate::order::{
    lemma_name_lt_irreflexive, lemma_path_lt_irreflexive, path_lt, place_of_name, Place,
};
use vstd::prelude::*;
use vstd::string::*;

verus! {

/// Whether `name` can stand as one component of a repository path.
pub open spec fn valid_component(name: Seq<char>) -> bool {
    &&& name.len() > 0
    &&& !name.contains('/')
    &&& name != seq!['.']
    &&& name != seq!['.', '.']
}

/// Whether every one of `components` can stand in a repository path.
pub open spec fn valid_components(components: Seq<Seq<char>>) -> bool {
    forall|i: int| 0 <= i < components.len() ==> valid_component(#[trigger] components[i])
}

/// The pieces into which the slashes cut `text`: one more than there are slashes.
pub open spec fn pieces(text: Seq<char>) -> Seq<Seq<char>>
    decreases text.len(),
{
    if text.len() == 0 {
        seq![Seq::<char>::empty()]
    } else {
        let before = pieces(text.drop_last());
        if text.last() == '/' {
            before.push(Seq::<char>::empty())
        } else {
            before.drop_last().push(before.last().push(text.last()))
        }
    }
}

/// The components of the path that `text` spells. The empty text spells the root of the
/// repository, which has none.
pub open spec fn components_of(text: Seq<char>) -> Seq<Seq<char>> {
    if text.len() == 0 {
        Seq::<Seq<char>>::empty()
    } else {
        pieces(text)
    }
}

/// The parts, in order, with one slash between each two.
pub open spec fn join(parts: Seq<Seq<char>>) -> Seq<char>
    decreases parts.len(),
{
    if parts.len() == 0 {
        Seq::<char>::empty()
    } else if parts.len() == 1 {
        parts[0]
    } else {
        join(parts.drop_last()).push('/') + parts.last()
    }
}

/// The views of the strings of a vector.
pub open spec fn texts(strings: Seq<String>) -> Seq<Seq<char>> {
    strings.map_values(|s: String| s@)
}

proof fn lemma_pieces_shape(text: Seq<char>)
    ensures
        pieces(text).len() > 0,
        forall|i: int| 0 <= i < pieces(text).len() ==> !(#[trigger] pieces(text)[i]).contains('/'),
    decreases text.len(),
{
    if text.len() > 0 {
        lemma_pieces_shape(text.drop_last());
        let before = pieces(text.drop_last());
        if text.last() != '/' {
            assert(before[before.len() - 1] == before.last());
            assert forall|k: int| 0 <= k < before.last().push(text.last()).len() implies
                before.last().push(text.last())[k] != '/' by {
                if k < before.last().len() {
                    assert(before.last()[k] == before.last().push(text.last())[k]);
                }
            }
        }
    }
}

proof fn lemma_join_pieces(text: Seq<char>)
    ensures
        join(pieces(text)) == text,
    decreases text.len(),
{
    if text.len() > 0 {
        let init = text.drop_last();
        let before = pieces(init);
        lemma_join_pieces(init);
        lemma_pieces_shape(init);
        assert(text =~= init.push(text.last()));
        if text.last() == '/' {
            assert(pieces(text).drop_last() =~= before);
            assert(join(pieces(text)) =~= text);
        } else {
            assert(pieces(text).drop_last() =~= before.drop_last());
            assert(join(pieces(text)) =~= text);
        }
    } else {
        assert(join(pieces(text)) =~= text);
    }
}

proof fn lemma_pieces_of_more(text: Seq<char>, more: Seq<char>)
    requires
        !more.contains('/'),
    ensures
        pieces(text + more) == pieces(text).drop_last().push(pieces(text).last() + more),
    decreases more.len(),
{
    lemma_pieces_shape(text);
    if more.len() == 0 {
        assert(text + more =~= text);
        assert(pieces(text).last() + more =~= pieces(text).last());
        assert(pieces(text) =~= pieces(text).drop_last().push(pieces(text).last()));
    } else {
        let init = more.drop_last();
        assert(more.contains(more.last()));
        assert forall|k: int| 0 <= k < init.len() implies init[k] != '/' by {
            assert(more[k] == init[k]);
            assert(more.contains(more[k]));
        }
        lemma_pieces_of_more(text, init);
        assert((text + more).drop_last() =~= text + init);
        assert((text + more).last() == more.last());
        assert(pieces(text).last() + more =~= (pieces(text).last() + init).push(more.last()));
        assert(pieces(text + more) =~= pieces(text).drop_last().push(pieces(text).last() + more));
    }
}

proof fn lemma_pieces_join(parts: Seq<Seq<char>>)
    requires
        parts.len() > 0,
        forall|i: int| 0 <= i < parts.len() ==> !(#[trigger] parts[i]).contains('/'),
    ensures
        pieces(join(parts)) == parts,
    decreases parts.len(),
{
    let last = parts.last();
    assert(!parts[parts.len() - 1].contains('/'));
    if parts.len() == 1 {
        lemma_pieces_of_more(Seq::<char>::empty(), last);
        assert(Seq::<char>::empty() + last =~= last);
        assert(pieces(last) =~= parts);
    } else {
        let init = parts.drop_last();
        lemma_pieces_join(init);
        let text = join(init).push('/');
        assert(text.drop_last() =~= join(init));
        assert(pieces(text) =~= init.push(Seq::<char>::empty()));
        lemma_pieces_of_more(text, last);
        assert(Seq::<char>::empty() + last =~= last);
        assert(pieces(text).drop_last() =~= init);
        assert(pieces(join(parts)) =~= parts);
    }
}

/// The path that a text spells is spelled as that text again.
pub proof fn law_text_round_trip(text: Seq<char>)
    ensures
        join(components_of(text)) == text,
{
    if text.len() > 0 {
        lemma_join_pieces(text);
    } else {
        assert(join(components_of(text)) =~= text);
    }
}

/// Every path can be read back from how it is spelled.
pub proof fn law_components_round_trip(components: Seq<Seq<char>>)
    requires
        valid_components(components),
    ensures
        components_of(join(components)) == components,
        valid_components(components_of(join(components))),
{
    if components.len() == 0 {
        assert(components_of(join(components)) =~= components);
    } else {
        lemma_pieces_join(components);
        assert(join(components).len() > 0) by {
            assert(valid_component(components.last()));
        }
    }
}

/// Two different paths are never spelled alike.
pub proof fn law_spelled_alike_is_same(a: Seq<Seq<char>>, b: Seq<Seq<char>>)
    requires
        valid_components(a),
        valid_components(b),
        join(a) == join(b),
    ensures
        a == b,
{
    law_components_round_trip(a);
    law_components_round_trip(b);
}

/// The text given does not spell a repository path in its normal form.
#[derive(Clone, Copy, Debug, PartialEq, Eq, Structural)]
pub struct InvalidRepoPath;

/// The path of a file or a directory, relative to the root of its repository and in normal form:
/// no component is empty, is `.` or `..`, or holds a slash.
#[derive(Debug, PartialEq, Eq)]
pub struct RepoPath {
    components: Vec<String>,
}

impl View for RepoPath {
    type V = Seq<Seq<char>>;

    closed spec fn view(&self) -> Seq<Seq<char>> {
        texts(self.components@)
    }
}

/// The parts of `parts`, spelled with one slash between each two.
pub fn join_with_slashes(parts: &Vec<String>) -> (joined: String)
    ensures
        joined@ == join(texts(parts@)),
{
    let ghost all = texts(parts@);
    let mut joined = String::new();
    let mut i: usize = 0;
    while i < parts.len()
        invariant
            all == texts(parts@),
            i <= parts@.len(),
            joined@ == join(all.take(i as int)),
        decreases parts@.len() - i,
    {
        let ghost next = all.take(i + 1);
        assert(next.drop_last() =~= all.take(i as int));
        assert(next.last() == parts@[i as int]@);
        if i > 0 {
            joined.append("/");
            proof {
                reveal_strlit("/");
            }
            assert(joined@ =~= join(all.take(i as int)).push('/'));
        }
        joined.append(parts[i].as_str());
        assert(joined@ =~= join(next));
        i += 1;
    }
    assert(all.take(parts@.len() as int) =~= all);
    joined
}

/// Whether `name`, which holds no slash, can stand as one component of a repository path.
fn is_valid_piece(name: &str) -> (valid: bool)
    requires
        !name@.contains('/'),
    ensures
        valid == valid_component(name@),
{
    proof {
        reveal_strlit(".");
        reveal_strlit("..");
        assert("."@ =~= seq!['.']);
        assert(".."@ =~= seq!['.', '.']);
    }
    let here = place_of_name(name, ".");
    let up = place_of_name(name, "..");
    !name.is_empty() && here != Place::Same && up != Place::Same
}

impl RepoPath {
    #[verifier::type_invariant]
    spec fn in_normal_form(self) -> bool {
        valid_components(self@)
    }

    /// The path that `text` spells, with a slash between each two components.
    ///
    /// A text that is not in normal form is refused: one that starts or ends with a slash, or has
    /// two in a row, or a component `.` or `..`.
    pub fn new(text: &str) -> (path: Result<RepoPath, InvalidRepoPath>)
        ensures
            path is Ok <==> valid_components(components_of(text@)),
            path matches Ok(path) ==> path@ == components_of(text@),
    {
        if text.is_empty() {
            let components: Vec<String> = Vec::new();
            assert(texts(components@) =~= components_of(text@));
            return Ok(RepoPath { components });
        }
        let mut components: Vec<String> = Vec::new();
        let mut start: usize = 0;
        let mut i: usize = 0;
        let length = text.unicode_len();
        let mut rest = text.chars();
        assert(text@.take(0) =~= Seq::<char>::empty());
        assert(text@.subrange(0, 0) =~= Seq::<char>::empty());
        assert(pieces(text@.take(0)) =~= texts(components@).push(text@.subrange(0, 0)));
        while i < length
            invariant
                length == text@.len(),
                start <= i <= length,
                vstd::std_specs::iter::IteratorSpec::remaining(&rest) == text@.skip(i as int),
                pieces(text@.take(i as int)) == texts(components@).push(
                    text@.subrange(start as int, i as int),
                ),
                valid_components(texts(components@)),
                text@.len() > 0,
            decreases length - i,
        {
            let ghost before = text@.take(i as int);
            let ghost after = text@.take(i + 1);
            let ghost current = text@.subrange(start as int, i as int);
            assert(after.drop_last() =~= before);
            assert(after.last() == text@[i as int]);
            proof {
                lemma_pieces_shape(before);
                assert(pieces(before).last() == current);
                assert(pieces(before).drop_last() =~= texts(components@));
                assert(pieces(before)[pieces(before).len() - 1] == current);
            }
            if let Some(c) = rest.next() {
                assert(c == text@[i as int]);
                if c == '/' {
                    let piece = text.substring_char(start, i);
                    if !is_valid_piece(piece) {
                        proof {
                            lemma_pieces_keep_finished(text@, i + 1);
                            let at = components@.len() as int;
                            assert(pieces(after)[at] == current);
                            assert(pieces(text@)[at] == current);
                        }
                        return Err(InvalidRepoPath);
                    }
                    let ghost old_components = components@;
                    components.push(piece.to_owned());
                    start = i + 1;
                    assert(texts(components@) =~= texts(old_components).push(current));
                    assert(text@.subrange(start as int, i + 1) =~= Seq::<char>::empty());
                } else {
                    assert(text@.subrange(start as int, i + 1) =~= current.push(c));
                }
            } else {
                assert(text@.skip(i as int).len() > 0);
            }
            i += 1;
            assert(vstd::std_specs::iter::IteratorSpec::remaining(&rest) =~= text@.skip(i as int));
        }
        assert(text@.take(i as int) =~= text@);
        let ghost current = text@.subrange(start as int, i as int);
        proof {
            lemma_pieces_shape(text@);
            assert(pieces(text@)[pieces(text@).len() - 1] == current);
        }
        let piece = text.substring_char(start, length);
        if !is_valid_piece(piece) {
            return Err(InvalidRepoPath);
        }
        let ghost old_components = components@;
        components.push(piece.to_owned());
        assert(texts(components@) =~= texts(old_components).push(current));
        Ok(RepoPath { components })
    }

    /// The components of the path, from the root down.
    pub fn components(&self) -> (components: &Vec<String>)
        ensures
            texts(components@) == self@,
            valid_components(self@),
            components@.len() == self@.len(),
            forall|i: int| 0 <= i < self@.len() ==> (#[trigger] components@[i])@ == self@[i],
    {
        proof {
            use_type_invariant(self);
        }
        &self.components
    }

    /// The path made of the first `length` components.
    pub fn prefix(&self, length: usize) -> (path: RepoPath)
        requires
            length <= self@.len(),
        ensures
            path@ == self@.take(length as int),
    {
        proof {
            use_type_invariant(self);
        }
        let mut components: Vec<String> = Vec::new();
        let mut i: usize = 0;
        while i < length
            invariant
                i <= length <= self@.len(),
                self@ == texts(self.components@),
                texts(components@) == self@.take(i as int),
            decreases length - i,
        {
            let ghost old_components = components@;
            components.push(self.components[i].clone());
            assert(texts(components@) =~= texts(old_components).push(self@[i as int]));
            assert(self@.take(i + 1) =~= self@.take(i as int).push(self@[i as int]));
            i += 1;
        }
        RepoPath { components }
    }

    /// The last component, or nothing for the root of the repository.
    pub fn file_name(&self) -> (name: Option<&str>)
        ensures
            name is None <==> self@.len() == 0,
            name matches Some(name) ==> name@ == self@.last(),
    {
        let length = self.components.len();
        if length == 0 {
            None
        } else {
            Some(self.components[length - 1].as_str())
        }
    }

    /// The path spelled with a slash between each two components.
    pub fn as_unix_str(&self) -> (text: String)
        ensures
            text@ == join(self@),
    {
        join_with_slashes(&self.components)
    }

    /// Whether both are the path of the same file or directory.
    pub fn is_same_as(&self, other: &RepoPath) -> (same: bool)
        ensures
            same == (self@ == other@),
    {
        let place = self.place(other);
        place == Place::Same
    }

    /// The place of this path relative to `other` in the order of paths.
    pub fn place(&self, other: &RepoPath) -> (place: Place)
        ensures
            place == Place::Before <==> path_lt(self@, other@),
            place == Place::Same <==> self@ == other@,
            place == Place::After <==> path_lt(other@, self@),
    {
        let ghost a = self@;
        let ghost b = other@;
        proof {
            lemma_path_lt_irreflexive(a);
            assert(a.skip(0) =~= a);
            assert(b.skip(0) =~= b);
        }
        let mut i: usize = 0;
        while i < self.components.len() && i < other.components.len()
            invariant
                a == texts(self.components@),
                b == texts(other.components@),
                i <= a.len(),
                i <= b.len(),
                a.take(i as int) == b.take(i as int),
                path_lt(a, b) == path_lt(a.skip(i as int), b.skip(i as int)),
                path_lt(b, a) == path_lt(b.skip(i as int), a.skip(i as int)),
                !path_lt(a, a),
            decreases a.len() - i,
        {
            let place = place_of_name(self.components[i].as_str(), other.components[i].as_str());
            assert(a[i as int] == self.components@[i as int]@);
            assert(b[i as int] == other.components@[i as int]@);
            proof {
                lemma_name_lt_irreflexive(a[i as int]);
            }
            if place != Place::Same {
                return place;
            }
            assert(a.skip(i as int).drop_first() =~= a.skip(i + 1));
            assert(b.skip(i as int).drop_first() =~= b.skip(i + 1));
            assert(a.take(i + 1) =~= a.take(i as int).push(a[i as int]));
            assert(b.take(i + 1) =~= b.take(i as int).push(b[i as int]));
            i += 1;
        }
        if i < other.components.len() {
            Place::Before
        } else if i < self.components.len() {
            Place::After
        } else {
            assert(a =~= a.take(i as int));
            assert(b =~= b.take(i as int));
            Place::Same
        }
    }
}

impl Clone for RepoPath {
    fn clone(&self) -> (path: Self)
        ensures
            path@ == self@,
    {
        let path = self.prefix(self.components.len());
        assert(self@.take(self@.len() as int) =~= self@);
        path
    }
}

/// A piece that a slash has closed stays a piece of every longer text.
proof fn lemma_pieces_keep_finished(text: Seq<char>, end: int)
    requires
        0 <= end <= text.len(),
    ensures
        pieces(text).len() >= pieces(text.take(end)).len(),
        forall|k: int|
            0 <= k < pieces(text.take(end)).len() - 1 ==> #[trigger] pieces(text)[k] == pieces(
                text.take(end),
            )[k],
    decreases text.len() - end,
{
    if end == text.len() {
        assert(text.take(end) =~= text);
    } else {
        lemma_pieces_keep_finished(text, end + 1);
        let next = text.take(end + 1);
        assert(next.drop_last() =~= text.take(end));
        lemma_pieces_shape(text.take(end));
        assert(forall|k: int|
            0 <= k < pieces(text.take(end)).len() - 1 ==> pieces(next)[k] == pieces(
                text.take(end),
            )[k]);
    }
}

/// The empty text spells the root, and a text without a slash a path of one component: itself.
pub proof fn law_text_without_slash(text: Seq<char>)
    requires
        !text.contains('/'),
    ensures
        components_of(text) == if text.len() == 0 {
            Seq::<Seq<char>>::empty()
        } else {
            seq![text]
        },
{
    if text.len() > 0 {
        lemma_pieces_of_more(Seq::<char>::empty(), text);
        assert(Seq::<char>::empty() + text =~= text);
        assert(components_of(text) =~= seq![text]);
    }
}

proof fn lemma_pieces_around_slash(a: Seq<char>, b: Seq<char>)
    ensures
        pieces(a.push('/') + b) == pieces(a) + pieces(b),
    decreases b.len(),
{
    lemma_pieces_shape(b);
    let text = a.push('/') + b;
    if b.len() == 0 {
        assert(text =~= a.push('/'));
        assert(text.drop_last() =~= a);
        assert(pieces(text) =~= pieces(a) + pieces(b));
    } else {
        let init = b.drop_last();
        lemma_pieces_around_slash(a, init);
        lemma_pieces_shape(init);
        assert(text.drop_last() =~= a.push('/') + init);
        assert(text.last() == b.last());
        assert((pieces(a) + pieces(init)).drop_last() =~= pieces(a) + pieces(init).drop_last());
        assert(pieces(text) =~= pieces(a) + pieces(b));
    }
}

/// What stands before a slash and what stands after it are read each for itself.
pub proof fn law_text_around_slash(a: Seq<char>, b: Seq<char>)
    requires
        a.len() > 0,
        b.len() > 0,
    ensures
        components_of(a.push('/') + b) == components_of(a) + components_of(b),
{
    lemma_pieces_around_slash(a, b);
}

/// A text that starts or ends with a slash, or has two in a row, spells no path: it has an empty
/// component.
pub proof fn law_stray_slash_is_refused(a: Seq<char>, b: Seq<char>)
    requires
        a.len() == 0 || a.last() == '/' || b.len() == 0,
    ensures
        !valid_components(components_of(a.push('/') + b)),
{
    let text = a.push('/') + b;
    lemma_pieces_around_slash(a, b);
    lemma_pieces_shape(a);
    lemma_pieces_shape(b);
    if a.len() == 0 || a.last() == '/' {
        let at = pieces(a).len() - 1;
        assert(pieces(text)[at] =~= Seq::<char>::empty());
        assert(!valid_component(pieces(text)[at]));
    } else {
        let at = pieces(a).len() as int;
        assert(pieces(text)[at] =~= Seq::<char>::empty());
        assert(!valid_component(pieces(text)[at]));
    }
}

/// A name is refused as a component exactly if it is empty, is `.` or `..`, or holds a slash, and
/// components are refused exactly if one of them is.
pub proof fn law_what_is_refused(components: Seq<Seq<char>>)
    ensures
        !valid_components(components) <==> exists|i: int|
            0 <= i < components.len() && {
                ||| (#[trigger] components[i]).len() == 0
                ||| components[i] == seq!['.']
                ||| components[i] == seq!['.', '.']
                ||| components[i].contains('/')
            },
{
}

/// A path of one component is spelled as that component, and two paths in a row are spelled as the
/// one, a slash and the other.
pub proof fn law_spelled_in_a_row(a: Seq<Seq<char>>, b: Seq<Seq<char>>)
    ensures
        a.len() == 0 ==> join(a).len() == 0,
        a.len() == 1 ==> join(a) == a[0],
        a.len() > 0 && b.len() > 0 ==> join(a + b) == join(a).push('/') + join(b),
    decreases b.len(),
{
    if a.len() > 0 && b.len() > 0 {
        let init = b.drop_last();
        assert((a + b).drop_last() =~= a + init);
        assert((a + b).last() == b.last());
        law_spelled_in_a_row(a, init);
        if init.len() == 0 {
            assert(a + init =~= a);
        } else {
            assert(join(a + b) =~= join(a).push('/') + join(b));
        }
    }
}

/// The strings of a vector are seen one by one.
pub proof fn law_texts_seen_as_they_are(strings: Seq<String>, i: int)
    requires
        0 <= i < strings.len(),
    ensures
        texts(strings).len() == strings.len(),
        texts(strings)[i] == strings[i]@,
{
}

} // verus!

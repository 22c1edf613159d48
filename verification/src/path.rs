//! Paths as the resolver sees them: a fixed anchor and the names below it.

use vstd::prelude::*;

use crate::matcher::matches_spec;
use crate::text::{texts_of, AsText};

verus! {

/// One component of a path, as the standard library's path parser gives it.
#[derive(Debug, PartialEq, Eq)]
pub struct PathPart {
    /// Whether the component is a root or a prefix: a part that has no
    /// parent and that nothing can be popped off.
    pub fixed: bool,
    /// The component's text.
    pub text: String,
}

/// The components of the path written as `path`, in order, each with its
/// text and whether it is a root or prefix. The standard library's path
/// parser decides them by the path syntax of the platform the library is
/// built for; on that platform they depend on the text alone.
pub uninterp spec fn path_components(path: Seq<char>) -> Seq<(bool, Seq<char>)>;

/// What a list of components says, for comparison with [`path_components`].
pub open spec fn parts_view(parts: Seq<PathPart>) -> Seq<(bool, Seq<char>)> {
    Seq::new(parts.len(), |i: int| (parts[i].fixed, parts[i].text@))
}

/// `std::path::Path::components`: splits `path` into its components. Each
/// is handed out with its text and with the mark of a root or prefix; nothing
/// is claimed of the outcome but that it is [`path_components`] of the text.
#[verifier::external_body]
pub(crate) fn split_path(path: &str) -> (parts: Vec<PathPart>)
    ensures
        parts_view(parts@) == path_components(path@),
{
    let mut parts = Vec::new();
    for c in std::path::Path::new(path).components() {
        parts.push(
            PathPart {
                fixed: matches!(c, std::path::Component::Prefix(_) | std::path::Component::RootDir),
                text: c.as_os_str().to_string_lossy().into_owned(),
            },
        );
    }
    parts
}

/// The texts of a list of components, in order.
pub open spec fn part_texts(parts: Seq<(bool, Seq<char>)>) -> Seq<Seq<char>> {
    Seq::new(parts.len(), |i: int| parts[i].1)
}

/// Whether there are exactly as many components as queries and each query
/// matches the component in its place.
pub open spec fn components_match(parts: Seq<Seq<char>>, queries: Seq<Seq<char>>) -> bool {
    &&& parts.len() == queries.len()
    &&& forall|i: int| 0 <= i < parts.len() ==> matches_spec(#[trigger] parts[i], queries[i])
}

/// Whether the queries match the given components one for one: as many
/// queries as components, and each query matching the component in its place.
pub fn parts_match<S: AsText>(parts: &[PathPart], queries: &[S]) -> (r: bool)
    ensures
        r == components_match(part_texts(parts_view(parts@)), texts_of(queries@)),
{
    let ghost texts = part_texts(parts_view(parts@));
    let ghost asks = texts_of(queries@);
    let mut next: usize = 0;
    for i in 0..parts.len()
        invariant
            texts == part_texts(parts_view(parts@)),
            asks == texts_of(queries@),
            next == i,
            i <= queries.len(),
            forall|k: int| 0 <= k < i ==> matches_spec(#[trigger] texts[k], asks[k]),
    {
        if next < queries.len() {
            let query = queries[next].as_text();
            next = next + 1;
            if !crate::matcher::matches(parts[i].text.as_str(), query) {
                assert(!matches_spec(texts[i as int], asks[i as int]));
                return false;
            }
        } else {
            return false;
        }
    }
    next == queries.len()
}

/// Whether a sequence of queries matches a path component by component:
/// the path has exactly as many components as there are queries, and each
/// query matches the component in its place.
pub fn path_matches<S: AsText>(path: &str, queries: &[S]) -> (r: bool)
    ensures
        r == components_match(part_texts(path_components(path@)), texts_of(queries@)),
{
    let parts = split_path(path);
    parts_match(parts.as_slice(), queries)
}

/// A working path: a fixed anchor (a root, a prefix, or nothing for a
/// relative path) and the names that lead down from it, outermost first.
#[derive(Debug, PartialEq, Eq)]
pub struct WorkingPath {
    /// The part that nothing can be popped off.
    pub anchor: String,
    /// The names below the anchor, outermost first.
    pub names: Vec<String>,
}

/// What a working path says, with its strings taken as character sequences.
pub struct PathView {
    pub anchor: Seq<char>,
    pub names: Seq<Seq<char>>,
}

impl View for WorkingPath {
    type V = PathView;

    open spec fn view(&self) -> PathView {
        PathView { anchor: self.anchor@, names: texts_of(self.names@) }
    }
}

/// The anchor that a list of components gives: the texts of the root and
/// prefix components, one after the other.
pub open spec fn anchor_of(parts: Seq<(bool, Seq<char>)>) -> Seq<char>
    decreases parts.len(),
{
    if parts.len() == 0 {
        Seq::empty()
    } else if parts.last().0 {
        anchor_of(parts.drop_last()) + parts.last().1
    } else {
        anchor_of(parts.drop_last())
    }
}

/// The names that a list of components gives: the texts of all components
/// but roots and prefixes, in order.
pub open spec fn names_of(parts: Seq<(bool, Seq<char>)>) -> Seq<Seq<char>>
    decreases parts.len(),
{
    if parts.len() == 0 {
        Seq::empty()
    } else if parts.last().0 {
        names_of(parts.drop_last())
    } else {
        names_of(parts.drop_last()).push(parts.last().1)
    }
}

/// The working path that a list of components gives.
pub open spec fn path_of(parts: Seq<(bool, Seq<char>)>) -> PathView {
    PathView { anchor: anchor_of(parts), names: names_of(parts) }
}

/// The path with `count` names popped off its end, or with all of them
/// popped where it has no more than `count`. The anchor stays.
pub open spec fn popped(path: PathView, count: nat) -> PathView {
    PathView {
        anchor: path.anchor,
        names: if count >= path.names.len() {
            Seq::empty()
        } else {
            path.names.take(path.names.len() - count)
        },
    }
}

/// The first place at or after `from` whose name `query` matches;
/// `names.len()` if there is none.
pub open spec fn first_match(names: Seq<Seq<char>>, query: Seq<char>, from: int) -> int
    decreases names.len() - from,
{
    if from >= names.len() {
        names.len() as int
    } else if 0 <= from && matches_spec(names[from], query) {
        from
    } else {
        first_match(names, query, from + 1)
    }
}

/// The path cut off after the first of its names, counted from the anchor,
/// that `query` matches; nothing where it matches none.
pub open spec fn climbed(path: PathView, query: Seq<char>) -> Option<PathView> {
    let hit = first_match(path.names, query, 0);
    if hit < path.names.len() {
        Some(PathView { anchor: path.anchor, names: path.names.take(hit + 1) })
    } else {
        None
    }
}

/// The path with further names added at its end.
pub open spec fn extended(path: PathView, more: Seq<Seq<char>>) -> PathView {
    PathView { anchor: path.anchor, names: path.names + more }
}

/// The names written one after the other with a `/` between neighbours.
pub open spec fn joined(names: Seq<Seq<char>>) -> Seq<char>
    decreases names.len(),
{
    if names.len() == 0 {
        Seq::empty()
    } else if names.len() == 1 {
        names[0]
    } else {
        joined(names.drop_last()) + seq!['/'] + names.last()
    }
}

/// The path as text: the anchor, then the names with a `/` between
/// neighbours.
pub open spec fn rendered(path: PathView) -> Seq<char> {
    path.anchor + joined(path.names)
}

/// Popping takes off exactly as many names as asked where the path has
/// them, and all of its names where it has fewer; what is left are the
/// path's first names, under the same anchor.
pub proof fn lemma_popped(path: PathView, count: nat)
    ensures
        popped(path, count).anchor == path.anchor,
        count <= path.names.len() ==> popped(path, count).names.len() == path.names.len() - count,
        count >= path.names.len() ==> popped(path, count).names.len() == 0,
        popped(path, count).names.is_prefix_of(path.names),
{
}

/// `first_match` finds the first name that the query matches: it lies at or
/// after `from`, the query matches it unless the names ran out, and the query
/// matches no name passed on the way.
pub proof fn lemma_first_match(names: Seq<Seq<char>>, query: Seq<char>, from: int)
    requires
        0 <= from <= names.len(),
    ensures
        from <= first_match(names, query, from) <= names.len(),
        first_match(names, query, from) < names.len() ==> matches_spec(
            names[first_match(names, query, from)],
            query,
        ),
        forall|k: int|
            from <= k < first_match(names, query, from) ==> !matches_spec(
                #[trigger] names[k],
                query,
            ),
    decreases names.len() - from,
{
    if from < names.len() && !matches_spec(names[from], query) {
        lemma_first_match(names, query, from + 1);
    }
}

impl WorkingPath {
    /// The working path that a list of components gives: roots and prefixes
    /// make up the anchor, all other components are names.
    pub fn from_parts(parts: &[PathPart]) -> (path: WorkingPath)
        ensures
            path@ == path_of(parts_view(parts@)),
    {
        let ghost all = parts_view(parts@);
        let mut anchor = String::new();
        let mut names: Vec<String> = Vec::new();
        for i in 0..parts.len()
            invariant
                all == parts_view(parts@),
                anchor@ == anchor_of(all.take(i as int)),
                texts_of(names@) == names_of(all.take(i as int)),
        {
            assert(all.take(i + 1).drop_last() == all.take(i as int));
            assert(all.take(i + 1).last() == (parts@[i as int].fixed, parts@[i as int].text@));
            if parts[i].fixed {
                anchor.append(parts[i].text.as_str());
            } else {
                let ghost before = names@;
                names.push(parts[i].text.clone());
                assert(texts_of(names@) == texts_of(before).push(parts@[i as int].text@));
            }
        }
        assert(all.take(parts.len() as int) == all);
        WorkingPath { anchor, names }
    }

    /// The working path that `text` writes.
    pub fn parse(text: &str) -> (path: WorkingPath)
        ensures
            path@ == path_of(path_components(text@)),
    {
        let parts = split_path(text);
        WorkingPath::from_parts(parts.as_slice())
    }

    /// Pops `count` names off the end of the path. Popping stops at the
    /// anchor: a path with fewer names than `count` is left with none.
    pub fn pop(&mut self, count: u64)
        ensures
            final(self)@ == popped(old(self)@, count as nat),
    {
        let len = self.names.len();
        let keep = if count >= len as u64 {
            0
        } else {
            len - count as usize
        };
        self.names.truncate(keep);
        assert(texts_of(self.names@) == texts_of(old(self).names@).take(keep as int));
        assert(self@.names == popped(old(self)@, count as nat).names);
    }

    /// Climbs to the first name, counted from the anchor, that `query`
    /// matches, and cuts the path off after it. Where the query matches no
    /// name the path is left as it was and `false` is returned.
    pub fn climb_to(&mut self, query: &str) -> (found: bool)
        ensures
            match climbed(old(self)@, query@) {
                Some(path) => found && final(self)@ == path,
                None => !found && final(self)@ == old(self)@,
            },
    {
        let ghost names = texts_of(self.names@);
        let mut at: usize = 0;
        while at < self.names.len()
            invariant
                *self == *old(self),
                names == texts_of(self.names@),
                at <= self.names.len(),
                first_match(names, query@, 0) == first_match(names, query@, at as int),
            decreases self.names.len() - at,
        {
            if crate::matcher::matches(self.names[at].as_str(), query) {
                assert(matches_spec(names[at as int], query@));
                self.names.truncate(at + 1);
                assert(texts_of(self.names@) == names.take(at + 1));
                return true;
            }
            assert(!matches_spec(names[at as int], query@));
            at = at + 1;
        }
        false
    }

    /// A copy of the path.
    pub fn duplicate(&self) -> (copy: WorkingPath)
        ensures
            copy@ == self@,
    {
        let mut names: Vec<String> = Vec::new();
        for i in 0..self.names.len()
            invariant
                texts_of(names@) == texts_of(self.names@).take(i as int),
        {
            let ghost before = names@;
            names.push(self.names[i].clone());
            assert(texts_of(names@) == texts_of(before).push(self.names@[i as int]@));
        }
        assert(texts_of(self.names@).take(self.names.len() as int) == texts_of(self.names@));
        WorkingPath { anchor: self.anchor.clone(), names }
    }

    /// The path one level below this one, under `name`.
    pub fn child(&self, name: &str) -> (below: WorkingPath)
        ensures
            below@ == extended(self@, seq![name@]),
    {
        let mut below = self.duplicate();
        let ghost before = below.names@;
        below.names.push(name.to_owned());
        assert(texts_of(below.names@) == texts_of(before).push(name@));
        assert(texts_of(before).push(name@) == texts_of(before) + seq![name@]);
        below
    }

    /// Adds `more` names at the end of the path.
    pub fn extend(&mut self, more: &[String])
        ensures
            final(self)@ == extended(old(self)@, texts_of(more@)),
    {
        for i in 0..more.len()
            invariant
                self.anchor == old(self).anchor,
                texts_of(self.names@) == texts_of(old(self).names@) + texts_of(more@).take(
                    i as int,
                ),
        {
            let ghost before = self.names@;
            self.names.push(more[i].clone());
            assert(texts_of(self.names@) == texts_of(before).push(more@[i as int]@));
            assert(texts_of(more@).take(i + 1) == texts_of(more@).take(i as int).push(
                more@[i as int]@,
            ));
        }
        assert(texts_of(more@).take(more.len() as int) == texts_of(more@));
    }

    /// The path as text: the anchor, then the names with a `/` between
    /// neighbours.
    pub fn render(&self) -> (text: String)
        ensures
            text@ == rendered(self@),
    {
        let ghost names = texts_of(self.names@);
        let mut text = self.anchor.clone();
        for i in 0..self.names.len()
            invariant
                names == texts_of(self.names@),
                text@ == self.anchor@ + joined(names.take(i as int)),
        {
            assert(names.take(i + 1).drop_last() == names.take(i as int));
            assert(names.take(i + 1).last() == self.names@[i as int]@);
            if i > 0 {
                proof {
                    reveal_strlit("/");
                }
                assert("/"@ == seq!['/']);
                text.append("/");
            } else {
                assert(names.take(1)[0] == self.names@[0]@);
                assert(joined(names.take(0)) == Seq::<char>::empty());
            }
            text.append(self.names[i].as_str());
        }
        assert(names.take(self.names.len() as int) == names);
        text
    }
}

} // verus!

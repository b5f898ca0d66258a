//! Paths, held as their text.  What a path means (its components, its final
//! name, how two paths compare) comes from std's `Path`, through the trusted
//! functions below; the rest is stated and proved here.
use vstd::prelude::*;
use crate::order::{Atom, key_lt, key_view, lemma_key_lt_first_difference, lemma_key_lt_prefix, text_lt};
use crate::text::{chars_of, lowercase, to_lowercase};

verus! {

/// Names what `std::path::Path::components` yields for a path given as text,
/// each component taken as the text `Component::as_os_str` gives: `/` for the
/// root, `.` and `..` for those components, the name itself otherwise.
pub uninterp spec fn path_components(path: Seq<char>) -> Seq<Seq<char>>;

/// What `Path::join` returns for two paths given as text, on Unix: an
/// absolute `tail` (one starting with `/`) replaces `base`; otherwise `tail`
/// follows `base`, with a `/` between them where `base` is not empty and
/// does not already end in one.
pub open spec fn path_joined(base: Seq<char>, tail: Seq<char>) -> Seq<char> {
    if tail.len() > 0 && tail[0] == '/' {
        tail
    } else if base.len() > 0 && base.last() != '/' {
        base.push('/') + tail
    } else {
        base + tail
    }
}

/// Names what `Path::strip_prefix` returns for two paths given as text:
/// the rest of the path, or `None` where `prefix` is not a prefix of it.
pub uninterp spec fn path_stripped(path: Seq<char>, prefix: Seq<char>) -> Option<Seq<char>>;

/// Trusted: walks `Path::new(path).components()` and takes each component as
/// text (`Component::as_os_str`, lossless here since the path is UTF-8).
/// Claims only that the result is `path_components` of the path.
#[verifier::external_body]
pub(crate) fn components(path: &str) -> (parts: Vec<String>)
    ensures
        parts.deep_view() == path_components(path@),
{
    let mut parts = Vec::new();
    for c in std::path::Path::new(path).components() {
        parts.push(c.as_os_str().to_string_lossy().into_owned());
    }
    parts
}

/// Trusted: calls `Path::join` and takes the result as text (lossless, both
/// inputs being UTF-8).  Claims that the result is `path_joined` of the
/// arguments, the Unix behaviour of `PathBuf::push`.
#[verifier::external_body]
pub(crate) fn join(base: &str, tail: &str) -> (joined: String)
    ensures
        joined@ == path_joined(base@, tail@),
{
    std::path::Path::new(base).join(tail).to_string_lossy().into_owned()
}

/// Trusted: calls `Path::strip_prefix`, mapping its error to `None`.
/// Claims only that the result is `path_stripped` of the arguments.
#[verifier::external_body]
pub(crate) fn strip_prefix(path: &str, prefix: &str) -> (rest: Option<String>)
    ensures
        opt_view(rest) == path_stripped(path@, prefix@),
{
    match std::path::Path::new(path).strip_prefix(prefix) {
        Ok(rest) => Some(rest.to_string_lossy().into_owned()),
        Err(_) => None,
    }
}

/// The text inside an optional string.
pub open spec fn opt_view(o: Option<String>) -> Option<Seq<char>> {
    match o {
        Some(s) => Some(s@),
        None => None,
    }
}

/// The rank of a component in std's order of components: the root, then
/// `.`, then `..`, then names.
pub open spec fn part_rank(part: Seq<char>) -> u8 {
    if part == seq!['/'] {
        1
    } else if part == seq!['.'] {
        2
    } else if part == seq!['.', '.'] {
        3
    } else {
        4
    }
}

/// The sort key of a list of components: each component with its rank.
/// Paths compare as these keys do, component by component.
pub open spec fn parts_key(parts: Seq<Seq<char>>) -> Seq<(u8, Seq<char>)> {
    parts.map_values(|p: Seq<char>| (part_rank(p), p))
}

/// The order std gives paths (`Ord for Path`): by components.
pub open spec fn path_key(path: Seq<char>) -> Seq<(u8, Seq<char>)> {
    parts_key(path_components(path))
}

/// The final component of a path, where it is a name (`Path::file_name`).
pub open spec fn file_name(path: Seq<char>) -> Option<Seq<char>> {
    final_name_in(path_components(path))
}

/// The last of the components `parts`, where it is a name.
pub open spec fn final_name_in(parts: Seq<Seq<char>>) -> Option<Seq<char>> {
    if parts.len() > 0 && part_rank(parts.last()) == 4 {
        Some(parts.last())
    } else {
        None
    }
}

/// The name a path with components `parts` is shown under: its final name,
/// or the whole path where it ends in no name.
pub open spec fn shown_name_in(path: Seq<char>, parts: Seq<Seq<char>>) -> Seq<char> {
    match final_name_in(parts) {
        Some(name) => name,
        None => path,
    }
}

/// The repository name used for matching and ordering: the final name of
/// the path, lowercased.
pub open spec fn basename_of(path: Seq<char>) -> Option<Seq<char>> {
    match file_name(path) {
        Some(name) => Some(lowercase(name)),
        None => None,
    }
}

/// The repository name shown to users: the final name as it is, or the whole
/// path where the path ends in no name.
pub open spec fn list_name_of(path: Seq<char>) -> Seq<char> {
    shown_name_in(path, path_components(path))
}

/// A component is a name unless it is the root `/`, `.` or `..`.
pub open spec fn is_name(part: Seq<char>) -> bool {
    part != seq!['/'] && part != seq!['.'] && part != seq!['.', '.']
}

proof fn lemma_parts_key_split(p: Seq<Seq<char>>, a: Seq<char>, x: Seq<Seq<char>>)
    ensures
        parts_key(p.push(a) + x) == parts_key(p).push((part_rank(a), a)) + parts_key(x),
{
    assert(parts_key(p.push(a) + x) =~= parts_key(p).push((part_rank(a), a)) + parts_key(x));
}

/// Paths are ordered component by component: at the first differing
/// component the root comes before `.`, `.` before `..`, `..` before any
/// name, and two names compare as texts; a path that is a proper beginning
/// of another comes first.
pub proof fn lemma_path_order(
    p: Seq<Seq<char>>,
    a: Seq<char>,
    b: Seq<char>,
    x: Seq<Seq<char>>,
    y: Seq<Seq<char>>,
)
    ensures
        is_name(a) && is_name(b) && text_lt(a, b) ==> key_lt(parts_key(p.push(a) + x), parts_key(p.push(b) + y)),
        a == seq!['/'] && b != seq!['/'] ==> key_lt(parts_key(p.push(a) + x), parts_key(p.push(b) + y)),
        a == seq!['.'] && b != seq!['/'] && b != seq!['.'] ==> key_lt(
            parts_key(p.push(a) + x),
            parts_key(p.push(b) + y),
        ),
        a == seq!['.', '.'] && is_name(b) ==> key_lt(parts_key(p.push(a) + x), parts_key(p.push(b) + y)),
        y.len() > 0 ==> key_lt(parts_key(p), parts_key(p + y)),
{
    lemma_parts_key_split(p, a, x);
    lemma_parts_key_split(p, b, y);
    let ra = part_rank(a);
    let rb = part_rank(b);
    if (is_name(a) && is_name(b) && text_lt(a, b)) || (a == seq!['/'] && b != seq!['/']) || (a
        == seq!['.'] && b != seq!['/'] && b != seq!['.']) || (a == seq!['.', '.'] && is_name(b)) {
        lemma_key_lt_first_difference(parts_key(p), (ra, a), (rb, b), parts_key(x), parts_key(y));
    }
    if y.len() > 0 {
        assert(parts_key(p + y) =~= parts_key(p) + parts_key(y));
        lemma_key_lt_prefix(parts_key(p), parts_key(y));
    }
}

/// The final name of a path is its last component where that is a name, and
/// a path without one is shown as the whole path.
pub proof fn lemma_final_name(p: Seq<Seq<char>>, n: Seq<char>, path: Seq<char>)
    ensures
        is_name(n) ==> final_name_in(p.push(n)) == Some(n) && shown_name_in(path, p.push(n)) == n,
        !is_name(n) ==> final_name_in(p.push(n)) is None && shown_name_in(path, p.push(n)) == path,
        final_name_in(Seq::empty()) is None,
        shown_name_in(path, Seq::empty()) == path,
{
    assert(p.push(n).last() == n);
}

/// The rank of a component, computed.
pub fn rank_of(part: &Vec<char>) -> (r: u8)
    ensures
        r == part_rank(part@),
{
    if part.len() == 1 && part[0] == '/' {
        assert(part@ =~= seq!['/']);
        1
    } else if part.len() == 1 && part[0] == '.' {
        assert(part@ =~= seq!['.']);
        2
    } else if part.len() == 2 && part[0] == '.' && part[1] == '.' {
        assert(part@ =~= seq!['.', '.']);
        3
    } else {
        4
    }
}

/// The sort key of the components `parts`.
pub fn parts_key_of(parts: &Vec<String>) -> (key: Vec<Atom>)
    ensures
        key_view(key@) == parts_key(parts.deep_view()),
{
    let mut key: Vec<Atom> = Vec::new();
    let mut i: usize = 0;
    while i < parts.len()
        invariant
            i <= parts.len(),
            key.len() == i,
            key_view(key@) == parts_key(parts.deep_view().take(i as int)),
        decreases parts.len() - i,
    {
        let text = chars_of(parts[i].as_str());
        let rank = rank_of(&text);
        let ghost before = key@;
        key.push(Atom { rank, text });
        assert(key_view(key@) =~= key_view(before).push((rank, parts@[i as int]@)));
        assert(parts.deep_view().take(i + 1) =~= parts.deep_view().take(i as int).push(parts@[i as int]@));
        assert(key_view(key@) =~= parts_key(parts.deep_view().take(i + 1)));
        i = i + 1;
    }
    assert(parts.deep_view().take(i as int) =~= parts.deep_view());
    key
}

/// The final name of `path`, where its last component is a name.
pub fn file_name_of(path: &str) -> (name: Option<String>)
    ensures
        opt_view(name) == file_name(path@),
{
    final_name(&components(path))
}

/// The last of the components `parts`, where it is a name.
pub fn final_name(parts: &Vec<String>) -> (name: Option<String>)
    ensures
        opt_view(name) == final_name_in(parts.deep_view()),
{
    let n: usize = parts.len();
    if n == 0 {
        return None;
    }
    proof {
        assert(parts.deep_view()[n - 1] == parts@[n - 1]@);
    }
    let last = chars_of(parts[n - 1].as_str());
    if rank_of(&last) == 4 {
        Some(parts[n - 1].clone())
    } else {
        None
    }
}

/// The lowercased final name of `path`: the name that a query is matched
/// against and that repositories are listed by.
pub fn basename(path: &str) -> (name: Option<String>)
    ensures
        opt_view(name) == basename_of(path@),
{
    match file_name_of(path) {
        Some(n) => Some(to_lowercase(n.as_str())),
        None => None,
    }
}

/// The name a repository is shown under: its final name with its case kept,
/// or the whole path where the path ends in no name.
pub fn list_name(path: &str) -> (name: String)
    ensures
        name@ == list_name_of(path@),
{
    shown_name(path, &components(path))
}

/// The name a path with components `parts` is shown under: its final name,
/// or the whole path where it ends in no name.
pub fn shown_name(path: &str, parts: &Vec<String>) -> (name: String)
    ensures
        name@ == shown_name_in(path@, parts.deep_view()),
{
    match final_name(parts) {
        Some(n) => n,
        None => path.to_owned(),
    }
}

} // verus!

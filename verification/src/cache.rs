//! The repository index kept on disk: its first line is the search root the
//! index was built for, each further line a repository path.
use vstd::prelude::*;
use crate::path::{components, path_components};
use crate::text::{
    chars_between, chars_of, find_char, first_index, lemma_filter_step, non_empty, push_char, text_of,
};

verus! {

/// The index text for `root` and `repos`: the root, then each path, each
/// followed by a newline.
pub open spec fn serialized(root: Seq<char>, repos: Seq<Seq<char>>) -> Seq<char> {
    root.push('\n') + joined_lines(repos)
}

/// Each text followed by a newline, one after the other.
pub open spec fn joined_lines(lines: Seq<Seq<char>>) -> Seq<char>
    decreases lines.len(),
{
    if lines.len() == 0 {
        Seq::empty()
    } else {
        lines[0].push('\n') + joined_lines(lines.drop_first())
    }
}

/// A line ended by a newline, without the carriage return before it.
pub open spec fn strip_cr(line: Seq<char>) -> Seq<char> {
    if line.len() > 0 && line.last() == '\r' {
        line.drop_last()
    } else {
        line
    }
}

/// The lines of a text as `str::lines` yields them: split after each
/// newline, a line ended by a newline losing that newline and a carriage
/// return just before it, and a last line without newline kept as it is
/// where it is not empty.
pub open spec fn text_lines(s: Seq<char>) -> Seq<Seq<char>>
    decreases s.len(),
{
    if s.len() == 0 {
        Seq::empty()
    } else if first_index(s, '\n') < s.len() {
        seq![strip_cr(s.take(first_index(s, '\n') as int))] + text_lines(s.skip(first_index(s, '\n') as int + 1))
    } else {
        seq![s]
    }
}

/// What an index text gives back for `root`: nothing where the text has no
/// line or its first line names another path than `root` (compared by
/// components, as std compares paths); else the non-empty lines after it.
pub open spec fn parsed(contents: Seq<char>, root: Seq<char>) -> Option<Seq<Seq<char>>> {
    match index_parts(contents) {
        None => None,
        Some((stored, repos)) => if path_components(stored) != path_components(root) {
            None
        } else {
            Some(repos)
        },
    }
}

/// The root an index text records (its first line) and the paths it holds
/// (the non-empty lines after it); nothing where the text has no line.
pub open spec fn index_parts(contents: Seq<char>) -> Option<(Seq<char>, Seq<Seq<char>>)> {
    let lines = text_lines(contents);
    if lines.len() == 0 {
        None
    } else {
        Some((lines[0], lines.drop_first().filter(non_empty())))
    }
}

/// The texts inside an optional vector of strings.
pub open spec fn opt_lines(o: Option<Vec<String>>) -> Option<Seq<Seq<char>>> {
    match o {
        Some(v) => Some(v.deep_view()),
        None => None,
    }
}

proof fn lemma_joined_lines_push(lines: Seq<Seq<char>>, last: Seq<char>)
    ensures
        joined_lines(lines.push(last)) == joined_lines(lines) + last.push('\n'),
    decreases lines.len(),
{
    if lines.len() == 0 {
        assert(lines.push(last).drop_first() =~= Seq::<Seq<char>>::empty());
        assert(joined_lines(Seq::<Seq<char>>::empty()) =~= Seq::<char>::empty());
        assert(joined_lines(lines.push(last)) =~= last.push('\n'));
    } else {
        assert(lines.push(last).drop_first() =~= lines.drop_first().push(last));
        lemma_joined_lines_push(lines.drop_first(), last);
        assert(joined_lines(lines.push(last)) =~= joined_lines(lines) + last.push('\n'));
    }
}

/// The index text for `root` and `repos`.
pub fn serialize_cache(root: &str, repos: &Vec<String>) -> (body: String)
    ensures
        body@ == serialized(root@, repos.deep_view()),
{
    let ghost rv = repos.deep_view();
    let mut body = root.to_owned();
    push_char(&mut body, '\n');
    let mut i: usize = 0;
    assert(rv.take(0) =~= Seq::<Seq<char>>::empty());
    while i < repos.len()
        invariant
            i <= repos.len(),
            rv == repos.deep_view(),
            body@ == root@.push('\n') + joined_lines(rv.take(i as int)),
        decreases repos.len() - i,
    {
        let ghost before = body@;
        body.append(repos[i].as_str());
        push_char(&mut body, '\n');
        proof {
            assert(rv[i as int] == repos@[i as int]@);
            assert(rv.take(i + 1) =~= rv.take(i as int).push(rv[i as int]));
            lemma_joined_lines_push(rv.take(i as int), rv[i as int]);
            assert(body@ =~= root@.push('\n') + joined_lines(rv.take(i + 1)));
        }
        i = i + 1;
    }
    assert(rv.take(i as int) =~= rv);
    body
}

/// The lines of `cs`, as `str::lines` yields them.
fn lines_of(cs: &Vec<char>) -> (lines: Vec<Vec<char>>)
    ensures
        lines.deep_view() == text_lines(cs@),
{
    let ghost s = cs@;
    let mut lines: Vec<Vec<char>> = Vec::new();
    let mut pos: usize = 0;
    assert(s.skip(0) =~= s);
    while pos < cs.len()
        invariant
            pos <= cs.len(),
            s == cs@,
            text_lines(s) == lines.deep_view() + text_lines(s.skip(pos as int)),
        decreases cs.len() - pos,
    {
        let ghost rest = s.skip(pos as int);
        let end: usize = find_char(cs, pos, '\n');
        let mut line = chars_between(cs, pos, end);
        assert(rest.take(end - pos) =~= s.subrange(pos as int, end as int));
        let ghost before = lines.deep_view();
        if end < cs.len() {
            if line.len() > 0 && line[line.len() - 1] == '\r' {
                line.pop();
            }
            assert(line@ == strip_cr(s.subrange(pos as int, end as int)));
            assert(line.deep_view() =~= line@);
            lines.push(line);
            proof {
                assert(rest.skip(end - pos + 1) =~= s.skip(end + 1));
                assert(lines.deep_view() =~= before.push(strip_cr(rest.take(end - pos))));
                assert(text_lines(rest) =~= seq![strip_cr(rest.take(end - pos))] + text_lines(s.skip(end + 1)));
                assert(text_lines(s) =~= lines.deep_view() + text_lines(s.skip(end + 1)));
            }
            pos = end + 1;
        } else {
            assert(line.deep_view() =~= line@);
            lines.push(line);
            proof {
                assert(rest =~= s.subrange(pos as int, end as int));
                assert(lines.deep_view() =~= before.push(rest));
                assert(s.skip(end as int) =~= Seq::<char>::empty());
                assert(text_lines(s) =~= lines.deep_view() + text_lines(s.skip(end as int)));
            }
            pos = end;
        }
    }
    assert(s.skip(pos as int) =~= Seq::<char>::empty());
    assert(text_lines(s) =~= lines.deep_view());
    lines
}

/// Whether two component lists are the same.
fn same_parts(a: &Vec<String>, b: &Vec<String>) -> (r: bool)
    ensures
        r == (a.deep_view() == b.deep_view()),
{
    if a.len() != b.len() {
        return false;
    }
    let mut i: usize = 0;
    while i < a.len()
        invariant
            i <= a.len(),
            a.len() == b.len(),
            a.deep_view().take(i as int) == b.deep_view().take(i as int),
        decreases a.len() - i,
    {
        proof {
            assert(a.deep_view()[i as int] == a@[i as int]@);
            assert(b.deep_view()[i as int] == b@[i as int]@);
        }
        if a[i] != b[i] {
            return false;
        }
        assert(a.deep_view().take(i + 1) =~= a.deep_view().take(i as int).push(a@[i as int]@));
        assert(b.deep_view().take(i + 1) =~= b.deep_view().take(i as int).push(b@[i as int]@));
        i = i + 1;
    }
    assert(a.deep_view().take(i as int) =~= a.deep_view());
    assert(b.deep_view().take(i as int) =~= b.deep_view());
    true
}

/// The repository paths an index text holds for `root`: `None` where the
/// text is empty or was built for another root (compared by components),
/// else the non-empty lines after the first.
pub fn parse_cache(contents: &str, root: &str) -> (repos: Option<Vec<String>>)
    ensures
        opt_lines(repos) == parsed(contents@, root@),
{
    match read_index(contents) {
        None => None,
        Some((stored_root, repos)) => {
            if same_parts(&components(stored_root.as_str()), &components(root)) {
                Some(repos)
            } else {
                None
            }
        },
    }
}

/// The root an index text records and the paths it holds: its first line,
/// and the non-empty lines after it; `None` where the text has no line.
pub fn read_index(contents: &str) -> (index: Option<(String, Vec<String>)>)
    ensures
        match index {
            Some((stored, repos)) => index_parts(contents@) == Some((stored@, repos.deep_view())),
            None => index_parts(contents@) is None,
        },
{
    let cs = chars_of(contents);
    let lines = lines_of(&cs);
    let ghost lv = lines.deep_view();
    if lines.len() == 0 {
        return None;
    }
    let stored_root = text_of(&lines[0]);
    proof {
        assert(lv[0] == lines@[0]@);
    }
    let ghost tail = lv.drop_first();
    let mut repos: Vec<String> = Vec::new();
    let mut i: usize = 1;
    assert(tail.take(0) =~= Seq::<Seq<char>>::empty());
    while i < lines.len()
        invariant
            1 <= i <= lines.len(),
            lv == lines.deep_view(),
            tail == lv.drop_first(),
            repos.deep_view() == tail.take(i - 1).filter(non_empty()),
        decreases lines.len() - i,
    {
        proof {
            assert(tail[i - 1] == lines@[i as int]@);
            lemma_filter_step(tail, non_empty(), i - 1);
        }
        if lines[i].len() > 0 {
            let ghost before = repos.deep_view();
            repos.push(text_of(&lines[i]));
            assert(repos.deep_view() =~= before.push(tail[i - 1]));
        }
        i = i + 1;
    }
    assert(tail.take(i - 1) =~= tail);
    Some((stored_root, repos))
}

/// Whether the index is old enough to be refreshed: always where its age is
/// not known (no index, or one dated in the future), else where it is older
/// than `limit` (both in nanoseconds).
pub fn is_stale(age: Option<u128>, limit: u128) -> (stale: bool)
    ensures
        stale == match age {
            Some(a) => a > limit,
            None => true,
        },
{
    match age {
        Some(a) => a > limit,
        None => true,
    }
}

/// A path that an index line can hold unchanged: not empty, without newline,
/// and not ending in a carriage return.
pub open spec fn storable(line: Seq<char>) -> bool {
    &&& line.len() > 0
    &&& !line.contains('\n')
    &&& line.last() != '\r'
}

proof fn lemma_first_index_of_line(l: Seq<char>, rest: Seq<char>)
    requires
        !l.contains('\n'),
    ensures
        first_index(l.push('\n') + rest, '\n') == l.len(),
    decreases l.len(),
{
    let s = l.push('\n') + rest;
    if l.len() == 0 {
        assert(s[0] == '\n');
    } else {
        assert(s[0] == l[0]);
        assert(!l.drop_first().contains('\n')) by {
            if l.drop_first().contains('\n') {
                let k = choose|k: int| 0 <= k < l.drop_first().len() && l.drop_first()[k] == '\n';
                assert(l[k + 1] == '\n');
            }
        }
        assert(s.drop_first() =~= l.drop_first().push('\n') + rest);
        lemma_first_index_of_line(l.drop_first(), rest);
    }
}

proof fn lemma_text_lines_of_line(l: Seq<char>, rest: Seq<char>)
    requires
        !l.contains('\n'),
    ensures
        text_lines(l.push('\n') + rest) == seq![strip_cr(l)] + text_lines(rest),
{
    let s = l.push('\n') + rest;
    lemma_first_index_of_line(l, rest);
    assert(s.take(l.len() as int) =~= l);
    assert(s.skip(l.len() as int + 1) =~= rest);
}

proof fn lemma_text_lines_of_joined(lines: Seq<Seq<char>>)
    requires
        forall|i: int| 0 <= i < lines.len() ==> storable(#[trigger] lines[i]),
    ensures
        text_lines(joined_lines(lines)) == lines,
    decreases lines.len(),
{
    if lines.len() == 0 {
        assert(text_lines(Seq::<char>::empty()) =~= Seq::<Seq<char>>::empty());
    } else {
        assert(storable(lines[0]));
        assert forall|i: int| 0 <= i < lines.drop_first().len() implies storable(
            #[trigger] lines.drop_first()[i],
        ) by {
            assert(lines.drop_first()[i] == lines[i + 1]);
        }
        lemma_text_lines_of_joined(lines.drop_first());
        lemma_text_lines_of_line(lines[0], joined_lines(lines.drop_first()));
        assert(lines =~= seq![lines[0]] + lines.drop_first());
    }
}

proof fn lemma_filter_keeps_all(s: Seq<Seq<char>>)
    requires
        forall|i: int| 0 <= i < s.len() ==> (#[trigger] s[i]).len() > 0,
    ensures
        s.filter(non_empty()) == s,
    decreases s.len(),
{
    reveal_with_fuel(Seq::filter, 1);
    if s.len() > 0 {
        lemma_filter_keeps_all(s.drop_last());
        assert(s.drop_last().push(s.last()) =~= s);
    }
}

proof fn lemma_first_index_none(l: Seq<char>)
    requires
        !l.contains('\n'),
    ensures
        first_index(l, '\n') == l.len(),
    decreases l.len(),
{
    if l.len() > 0 {
        assert(l[0] != '\n');
        assert(!l.drop_first().contains('\n')) by {
            if l.drop_first().contains('\n') {
                let k = choose|k: int| 0 <= k < l.drop_first().len() && l.drop_first()[k] == '\n';
                assert(l[k + 1] == '\n');
            }
        }
        lemma_first_index_none(l.drop_first());
    }
}

/// The index text is the root's line, then one line per path, in order:
/// with no path it is the root and a newline, and one more path adds that
/// path and a newline at the end.
pub proof fn lemma_serialized_lines(root: Seq<char>, repos: Seq<Seq<char>>, path: Seq<char>)
    ensures
        serialized(root, Seq::empty()) == root.push('\n'),
        serialized(root, repos.push(path)) == serialized(root, repos) + path.push('\n'),
{
    assert(joined_lines(Seq::<Seq<char>>::empty()) =~= Seq::<char>::empty());
    assert(serialized(root, Seq::empty()) =~= root.push('\n'));
    lemma_joined_lines_push(repos, path);
    assert(serialized(root, repos.push(path)) =~= serialized(root, repos) + path.push('\n'));
}

/// How a text splits into lines: a newline ends a line, and the carriage
/// return just before it goes with it; a last line without newline is kept
/// as it is; an empty text has no line.
pub proof fn lemma_lines_split(l: Seq<char>, rest: Seq<char>)
    requires
        !l.contains('\n'),
    ensures
        text_lines(l.push('\n') + rest) == seq![
            if l.len() > 0 && l.last() == '\r' {
                l.drop_last()
            } else {
                l
            },
        ] + text_lines(rest),
        l.len() > 0 ==> text_lines(l) == seq![l],
        text_lines(Seq::empty()) == Seq::<Seq<char>>::empty(),
{
    lemma_text_lines_of_line(l, rest);
    if l.len() > 0 {
        lemma_first_index_none(l);
    }
}

/// Reading an index: nothing where the text has no line or its first line
/// names a path with other components than the root; else exactly the
/// non-empty lines after the first.
pub proof fn lemma_parsed_lines(contents: Seq<char>, root: Seq<char>)
    ensures
        parsed(contents, root) is None <==> (text_lines(contents).len() == 0 || path_components(
            text_lines(contents)[0],
        ) != path_components(root)),
        parsed(contents, root) is Some ==> {
            let lines = text_lines(contents);
            let ps = parsed(contents, root)->0;
            &&& forall|k: int| 0 <= k < ps.len() ==> (#[trigger] ps[k]).len() > 0
            &&& forall|k: int| 0 <= k < ps.len() ==> lines.drop_first().contains(#[trigger] ps[k])
            &&& forall|j: int|
                1 <= j < lines.len() && (#[trigger] lines[j]).len() > 0 ==> ps.contains(lines[j])
        },
{
    let lines = text_lines(contents);
    if parsed(contents, root) is Some {
        let t = lines.drop_first();
        let ps = t.filter(non_empty());
        assert forall|k: int| 0 <= k < ps.len() implies (#[trigger] ps[k]).len() > 0 by {
            t.lemma_filter_pred(non_empty(), k);
        }
        assert forall|k: int| 0 <= k < ps.len() implies t.contains(#[trigger] ps[k]) by {
            assert(ps.contains(ps[k]));
            t.lemma_filter_contains_rev(non_empty(), ps[k]);
        }
        assert forall|j: int| 1 <= j < lines.len() && (#[trigger] lines[j]).len() > 0 implies ps.contains(
            lines[j],
        ) by {
            assert(t[j - 1] == lines[j]);
            t.lemma_filter_contains(non_empty(), j - 1);
        }
    }
}

/// Reading an index back for the root it was written for gives back the
/// repositories written, in order, where the root and each path fit on a
/// line unchanged (no newline, no final carriage return, paths not empty).
pub proof fn lemma_cache_round_trip(root: Seq<char>, repos: Seq<Seq<char>>)
    requires
        !root.contains('\n'),
        root.len() == 0 || root.last() != '\r',
        forall|i: int| 0 <= i < repos.len() ==> storable(#[trigger] repos[i]),
    ensures
        parsed(serialized(root, repos), root) == Some(repos),
{
    lemma_text_lines_of_joined(repos);
    lemma_text_lines_of_line(root, joined_lines(repos));
    assert(strip_cr(root) == root);
    let lines = text_lines(serialized(root, repos));
    assert(lines == seq![root] + repos);
    assert(lines.drop_first() =~= repos);
    lemma_filter_keeps_all(repos);
}

/// An index written for one root is not read back for a root with other
/// components: switching roots invalidates the index.
pub proof fn lemma_cache_other_root_rejected(root: Seq<char>, other: Seq<char>, repos: Seq<Seq<char>>)
    requires
        !root.contains('\n'),
        root.len() == 0 || root.last() != '\r',
        path_components(root) != path_components(other),
    ensures
        parsed(serialized(root, repos), other) == None::<Seq<Seq<char>>>,
{
    lemma_text_lines_of_line(root, joined_lines(repos));
    assert(strip_cr(root) == root);
}

} // verus!

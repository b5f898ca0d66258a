//! Matching a query against repositories, ordering them, the `--list` table
//! and the tab-completion candidates.
//!
//! Each operation comes twice: once on the facts std gives about each path
//! (its components, its lowercased name), handed in, and once on the paths
//! alone, where those facts are taken from std first.
use vstd::prelude::*;
use vstd::utf8::encode_utf8;
use crate::order::{
    Atom, is_stable_order, is_stable_sort, key_lt, key_view, lemma_key_lt_first_difference,
    lemma_text_lt_irreflexive, lists, sort_by_keys, text_lt,
};
use crate::path::{
    basename_of, components, final_name, list_name, list_name_of, opt_view, parts_key,
    parts_key_of, path_components,
};
use crate::text::{
    chars_of, contains_text, is_substring, lemma_filter_step, lowercase, push_char, to_lowercase,
};

verus! {

/// A repository as matching and listing see it: its path, its lowercased
/// final name where the path ends in a name, and its components.
pub struct RepoInfo {
    pub path: Seq<char>,
    pub name: Option<Seq<char>>,
    pub parts: Seq<Seq<char>>,
}

/// What std gives about the repository at `path`.
pub open spec fn repo_info(path: Seq<char>) -> RepoInfo {
    RepoInfo { path, name: basename_of(path), parts: path_components(path) }
}

/// What std gives about each repository.
pub open spec fn infos_of(repos: Seq<Seq<char>>) -> Seq<RepoInfo> {
    repos.map_values(|p: Seq<char>| repo_info(p))
}

/// The texts inside optional strings.
pub open spec fn opt_views(v: Seq<Option<String>>) -> Seq<Option<Seq<char>>> {
    v.map_values(|o: Option<String>| opt_view(o))
}

/// Repositories from their paths, names and components, position by position.
pub open spec fn given_infos(
    paths: Seq<Seq<char>>,
    names: Seq<Option<Seq<char>>>,
    parts: Seq<Seq<Seq<char>>>,
) -> Seq<RepoInfo> {
    Seq::new(paths.len(), |i: int| RepoInfo { path: paths[i], name: names[i], parts: parts[i] })
}

/// The repository is named exactly `query`.
pub open spec fn names_exactly(query: Seq<char>) -> spec_fn(RepoInfo) -> bool {
    |r: RepoInfo| r.name == Some(query)
}

/// The repository's name holds `query`.
pub open spec fn names_partly(query: Seq<char>) -> spec_fn(RepoInfo) -> bool {
    |r: RepoInfo|
        match r.name {
            Some(name) => is_substring(query, name),
            None => false,
        }
}

/// The repositories a query selects, in their given order: those named
/// exactly the query where there is one, else those whose name holds it.
pub open spec fn chosen(repos: Seq<RepoInfo>, query: Seq<char>) -> Seq<RepoInfo> {
    let exact = repos.filter(names_exactly(query));
    if exact.len() > 0 {
        exact
    } else {
        repos.filter(names_partly(query))
    }
}

/// The paths of repositories.
pub open spec fn paths_of(repos: Seq<RepoInfo>) -> Seq<Seq<char>> {
    repos.map_values(|r: RepoInfo| r.path)
}

/// The keys of repositories in the order std gives their paths.
pub open spec fn path_keys_of(repos: Seq<RepoInfo>) -> Seq<Seq<(u8, Seq<char>)>> {
    repos.map_values(|r: RepoInfo| parts_key(r.parts))
}

/// The order of the `--list` table: by lowercased name (a path without a
/// name first), then by path.
pub open spec fn listing_key(r: RepoInfo) -> Seq<(u8, Seq<char>)> {
    let first: (u8, Seq<char>) = match r.name {
        None => (0u8, Seq::<char>::empty()),
        Some(name) => (1u8, name),
    };
    seq![first] + parts_key(r.parts)
}

/// The listing keys of repositories.
pub open spec fn listing_keys_of(repos: Seq<RepoInfo>) -> Seq<Seq<(u8, Seq<char>)>> {
    repos.map_values(|r: RepoInfo| listing_key(r))
}

/// The key of a text compared as it is.
pub open spec fn text_key(text: Seq<char>) -> Seq<(u8, Seq<char>)> {
    seq![(0u8, text)]
}

/// The key of a completion candidate: its lowercased form.
pub open spec fn completion_key(name: Seq<char>) -> Seq<(u8, Seq<char>)> {
    text_key(lowercase(name))
}

/// The names the repositories are shown under.
pub open spec fn shown_names(repos: Seq<Seq<char>>) -> Seq<Seq<char>> {
    repos.map_values(|p: Seq<char>| list_name_of(p))
}

/// `s` with every name kept where it first occurs and dropped where it occurs again.
pub open spec fn first_occurrences(s: Seq<Seq<char>>) -> Seq<Seq<char>>
    decreases s.len(),
{
    if s.len() == 0 {
        s
    } else if s.drop_last().contains(s.last()) {
        first_occurrences(s.drop_last())
    } else {
        first_occurrences(s.drop_last()).push(s.last())
    }
}

/// The length in bytes of a text's UTF-8 encoding, as `str::len` reports it.
pub open spec fn byte_len(text: Seq<char>) -> usize {
    encode_utf8(text).len() as usize
}

/// The widest name, in bytes.
pub open spec fn name_width(names: Seq<Seq<char>>) -> usize
    decreases names.len(),
{
    if names.len() == 0 {
        0
    } else {
        let w = name_width(names.drop_last());
        if byte_len(names.last()) > w {
            byte_len(names.last())
        } else {
            w
        }
    }
}

/// A row of the `--list` table: the name padded with spaces to `width`
/// characters, two spaces, then the path.
pub open spec fn table_row(name: Seq<char>, width: usize, path: Seq<char>) -> Seq<char> {
    let pad: int = if width > name.len() {
        width - name.len()
    } else {
        0
    };
    name + Seq::new(pad as nat, |i: int| ' ') + seq![' ', ' '] + path
}

/// The lowercased final names and the components of the repositories.
fn repo_facts(repos: &Vec<String>) -> (facts: (Vec<Option<String>>, Vec<Vec<String>>))
    ensures
        facts.0.len() == repos.len(),
        facts.1.len() == repos.len(),
        given_infos(repos.deep_view(), opt_views(facts.0@), facts.1.deep_view()) == infos_of(
            repos.deep_view(),
        ),
{
    let ghost rv = repos.deep_view();
    let mut names: Vec<Option<String>> = Vec::new();
    let mut parts: Vec<Vec<String>> = Vec::new();
    let mut i: usize = 0;
    while i < repos.len()
        invariant
            i <= repos.len(),
            rv == repos.deep_view(),
            names.len() == i,
            parts.len() == i,
            forall|k: int| 0 <= k < i ==> #[trigger] opt_views(names@)[k] == basename_of(rv[k]),
            forall|k: int| 0 <= k < i ==> #[trigger] parts.deep_view()[k] == path_components(rv[k]),
        decreases repos.len() - i,
    {
        let path = repos[i].as_str();
        let p = components(path);
        let name = match final_name(&p) {
            Some(n) => Some(to_lowercase(n.as_str())),
            None => None,
        };
        proof {
            assert(rv[i as int] == path@);
            assert(opt_view(name) == basename_of(path@));
        }
        let ghost nb = opt_views(names@);
        let ghost pb = parts.deep_view();
        names.push(name);
        parts.push(p);
        proof {
            assert(opt_views(names@) =~= nb.push(opt_view(name)));
            assert(parts.deep_view() =~= pb.push(p.deep_view()));
            assert(parts.deep_view()[i as int] == path_components(rv[i as int]));
            assert(opt_views(names@)[i as int] == basename_of(rv[i as int]));
            assert forall|k: int| 0 <= k < i + 1 implies #[trigger] opt_views(names@)[k] == basename_of(rv[k]) by {
                if k < i {
                    assert(nb[k] == basename_of(rv[k]));
                }
            }
            assert forall|k: int| 0 <= k < i + 1 implies #[trigger] parts.deep_view()[k] == path_components(rv[k]) by {
                if k < i {
                    assert(pb[k] == path_components(rv[k]));
                }
            }
        }
        i = i + 1;
    }
    assert(given_infos(rv, opt_views(names@), parts.deep_view()) =~= infos_of(rv));
    (names, parts)
}

/// The repositories matching `query`, from each repository's path, its
/// lowercased final name and its components: those named exactly `query`,
/// or, where there is none, those whose name holds it; in either case sorted
/// stably by components.
pub fn match_infos(
    paths: &Vec<String>,
    names: &Vec<Option<String>>,
    parts: &Vec<Vec<String>>,
    query: &str,
) -> (matched: Vec<String>)
    requires
        names.len() == paths.len(),
        parts.len() == paths.len(),
    ensures
        ({
            let c = chosen(given_infos(paths.deep_view(), opt_views(names@), parts.deep_view()), query@);
            is_stable_sort(matched.deep_view(), paths_of(c), path_keys_of(c))
        }),
{
    let ghost es = given_infos(paths.deep_view(), opt_views(names@), parts.deep_view());
    let q = chars_of(query);
    let mut exact: Vec<String> = Vec::new();
    let mut exact_keys: Vec<Vec<Atom>> = Vec::new();
    let mut partial: Vec<String> = Vec::new();
    let mut partial_keys: Vec<Vec<Atom>> = Vec::new();
    let mut i: usize = 0;
    while i < paths.len()
        invariant
            i <= paths.len(),
            names.len() == paths.len(),
            parts.len() == paths.len(),
            es == given_infos(paths.deep_view(), opt_views(names@), parts.deep_view()),
            q@ == query@,
            exact.deep_view() == paths_of(es.take(i as int).filter(names_exactly(query@))),
            partial.deep_view() == paths_of(es.take(i as int).filter(names_partly(query@))),
            exact_keys@.map_values(|k: Vec<Atom>| key_view(k@)) == path_keys_of(
                es.take(i as int).filter(names_exactly(query@)),
            ),
            partial_keys@.map_values(|k: Vec<Atom>| key_view(k@)) == path_keys_of(
                es.take(i as int).filter(names_partly(query@)),
            ),
        decreases paths.len() - i,
    {
        let ghost e = es[i as int];
        proof {
            assert(e.path == paths@[i as int]@);
            assert(e.name == opt_view(names@[i as int]));
            assert(e.parts == parts@[i as int].deep_view());
            lemma_filter_step(es, names_exactly(query@), i as int);
            lemma_filter_step(es, names_partly(query@), i as int);
        }
        if let Some(name) = &names[i] {
            let name_chars = chars_of(name.as_str());
            let is_exact = crate::order::text_equal(&name_chars, &q);
            let is_partial = contains_text(&name_chars, &q);
            if is_exact {
                let key = parts_key_of(&parts[i]);
                let ghost before = exact.deep_view();
                let ghost kbefore = exact_keys@;
                let ghost eb = es.take(i as int).filter(names_exactly(query@));
                exact.push(paths[i].clone());
                exact_keys.push(key);
                proof {
                    assert(exact.deep_view() =~= before.push(e.path));
                    assert(exact_keys@ == kbefore.push(key));
                    assert(exact_keys@.map_values(|k: Vec<Atom>| key_view(k@)) =~= kbefore.map_values(
                        |k: Vec<Atom>| key_view(k@),
                    ).push(parts_key(e.parts)));
                    assert(paths_of(eb.push(e)) =~= paths_of(eb).push(e.path));
                    assert(path_keys_of(eb.push(e)) =~= path_keys_of(eb).push(parts_key(e.parts)));
                }
            }
            if is_partial {
                let key = parts_key_of(&parts[i]);
                let ghost before = partial.deep_view();
                let ghost kbefore = partial_keys@;
                let ghost pb = es.take(i as int).filter(names_partly(query@));
                partial.push(paths[i].clone());
                partial_keys.push(key);
                proof {
                    assert(partial.deep_view() =~= before.push(e.path));
                    assert(partial_keys@ == kbefore.push(key));
                    assert(partial_keys@.map_values(|k: Vec<Atom>| key_view(k@)) =~= kbefore.map_values(
                        |k: Vec<Atom>| key_view(k@),
                    ).push(parts_key(e.parts)));
                    assert(paths_of(pb.push(e)) =~= paths_of(pb).push(e.path));
                    assert(path_keys_of(pb.push(e)) =~= path_keys_of(pb).push(parts_key(e.parts)));
                }
            }
        }
        i = i + 1;
    }
    proof {
        assert(es.take(i as int) =~= es);
    }
    if exact.len() > 0 {
        sort_by_keys(&exact, &exact_keys)
    } else {
        sort_by_keys(&partial, &partial_keys)
    }
}

/// The repositories matching `query`: those whose lowercased name equals it,
/// or, where there is none, those whose lowercased name contains it; in
/// either case sorted by path, in std's order of paths.  `query` is compared
/// as given (callers lowercase it first).
pub fn match_repos(repos: &Vec<String>, query: &str) -> (matched: Vec<String>)
    ensures
        ({
            let c = chosen(infos_of(repos.deep_view()), query@);
            is_stable_sort(matched.deep_view(), paths_of(c), path_keys_of(c))
        }),
{
    let facts = repo_facts(repos);
    match_infos(repos, &facts.0, &facts.1, query)
}

/// The repositories ordered for the `--list` table, from each repository's
/// path, lowercased final name and components: by name (paths without one
/// first), then by components; equal ones keep their order.
pub fn sort_infos(paths: &Vec<String>, names: &Vec<Option<String>>, parts: &Vec<Vec<String>>) -> (sorted: Vec<String>)
    requires
        names.len() == paths.len(),
        parts.len() == paths.len(),
    ensures
        is_stable_sort(
            sorted.deep_view(),
            paths.deep_view(),
            listing_keys_of(given_infos(paths.deep_view(), opt_views(names@), parts.deep_view())),
        ),
{
    let ghost es = given_infos(paths.deep_view(), opt_views(names@), parts.deep_view());
    let mut keys: Vec<Vec<Atom>> = Vec::new();
    let mut i: usize = 0;
    while i < paths.len()
        invariant
            i <= paths.len(),
            names.len() == paths.len(),
            parts.len() == paths.len(),
            es == given_infos(paths.deep_view(), opt_views(names@), parts.deep_view()),
            keys.len() == i,
            keys@.map_values(|k: Vec<Atom>| key_view(k@)) == listing_keys_of(es.take(i as int)),
        decreases paths.len() - i,
    {
        let ghost e = es[i as int];
        let first = match &names[i] {
            None => Atom { rank: 0, text: Vec::new() },
            Some(name) => Atom { rank: 1, text: chars_of(name.as_str()) },
        };
        let mut rest = parts_key_of(&parts[i]);
        let mut key: Vec<Atom> = Vec::new();
        key.push(first);
        let ghost head = key@;
        let ghost tail = rest@;
        key.append(&mut rest);
        proof {
            assert(e.name == opt_view(names@[i as int]));
            assert(e.parts == parts@[i as int].deep_view());
            assert(key@ == head + tail);
            assert(key_view(key@) =~= listing_key(e));
        }
        let ghost kbefore = keys@;
        keys.push(key);
        proof {
            assert(keys@ == kbefore.push(key));
            assert(keys@.map_values(|k: Vec<Atom>| key_view(k@)) =~= kbefore.map_values(
                |k: Vec<Atom>| key_view(k@),
            ).push(listing_key(e)));
            assert(es.take(i + 1) =~= es.take(i as int).push(e));
            assert(listing_keys_of(es.take(i + 1)) =~= listing_keys_of(es.take(i as int)).push(listing_key(e)));
        }
        i = i + 1;
    }
    assert(es.take(i as int) =~= es);
    sort_by_keys(paths, &keys)
}

/// All repositories, sorted by lowercased name, with the path as tiebreaker
/// (in std's order of paths); repositories equal in both keep their order.
pub fn sorted_repos(repos: &Vec<String>) -> (sorted: Vec<String>)
    ensures
        is_stable_sort(sorted.deep_view(), repos.deep_view(), listing_keys_of(infos_of(repos.deep_view()))),
{
    let facts = repo_facts(repos);
    sort_infos(repos, &facts.0, &facts.1)
}

fn names_of(repos: &Vec<String>) -> (names: Vec<String>)
    ensures
        names.len() == repos.len(),
        names.deep_view() == shown_names(repos.deep_view()),
{
    let ghost rv = repos.deep_view();
    let mut names: Vec<String> = Vec::new();
    let mut i: usize = 0;
    while i < repos.len()
        invariant
            i <= repos.len(),
            rv == repos.deep_view(),
            names.deep_view() == shown_names(rv.take(i as int)),
        decreases repos.len() - i,
    {
        let name = list_name(repos[i].as_str());
        let ghost before = names.deep_view();
        names.push(name);
        proof {
            assert(rv[i as int] == repos@[i as int]@);
            assert(rv.take(i + 1) =~= rv.take(i as int).push(rv[i as int]));
            assert(names.deep_view() =~= before.push(name@));
            assert(names.deep_view() =~= shown_names(rv.take(i + 1)));
        }
        i = i + 1;
    }
    assert(rv.take(i as int) =~= rv);
    names
}

proof fn lemma_first_occurrences_step(s: Seq<Seq<char>>, i: int)
    requires
        0 <= i < s.len(),
    ensures
        first_occurrences(s.take(i + 1)) == if s.take(i).contains(s[i]) {
            first_occurrences(s.take(i))
        } else {
            first_occurrences(s.take(i)).push(s[i])
        },
{
    assert(s.take(i + 1).drop_last() =~= s.take(i));
}

/// Whether `name` is among `names`.
fn holds(names: &Vec<String>, name: &String) -> (r: bool)
    ensures
        r == names.deep_view().contains(name@),
{
    let mut i: usize = 0;
    while i < names.len()
        invariant
            i <= names.len(),
            forall|k: int| 0 <= k < i ==> names.deep_view()[k] != name@,
        decreases names.len() - i,
    {
        assert(names.deep_view()[i as int] == names@[i as int]@);
        if names[i] == *name {
            return true;
        }
        i = i + 1;
    }
    false
}

/// The tab-completion candidates from the names shown and their lowercased
/// forms, position by position: the names sorted stably by the lowercased
/// forms, each name kept once, where it first occurs.
pub fn completion_from(shown: &Vec<String>, lowered: &Vec<String>) -> (names: Vec<String>)
    requires
        lowered.len() == shown.len(),
    ensures
        exists|sorted: Seq<Seq<char>>|
            is_stable_sort(
                sorted,
                shown.deep_view(),
                lowered.deep_view().map_values(|l: Seq<char>| text_key(l)),
            ) && names.deep_view() == first_occurrences(sorted),
        names.deep_view().no_duplicates(),
{
    let ghost lv = lowered.deep_view();
    let mut keys: Vec<Vec<Atom>> = Vec::new();
    let mut i: usize = 0;
    while i < lowered.len()
        invariant
            i <= lowered.len(),
            lv == lowered.deep_view(),
            keys.len() == i,
            keys@.map_values(|k: Vec<Atom>| key_view(k@)) == lv.take(i as int).map_values(
                |l: Seq<char>| text_key(l),
            ),
        decreases lowered.len() - i,
    {
        let mut key: Vec<Atom> = Vec::new();
        key.push(Atom { rank: 0, text: chars_of(lowered[i].as_str()) });
        let ghost kbefore = keys@;
        keys.push(key);
        proof {
            assert(lv[i as int] == lowered@[i as int]@);
            assert(key_view(key@) =~= text_key(lv[i as int]));
            assert(keys@ == kbefore.push(key));
            assert(keys@.map_values(|k: Vec<Atom>| key_view(k@)) =~= kbefore.map_values(|k: Vec<Atom>| key_view(k@)).push(text_key(lv[i as int])));
            assert(lv.take(i + 1) =~= lv.take(i as int).push(lv[i as int]));
            assert(keys@.map_values(|k: Vec<Atom>| key_view(k@)) =~= lv.take(i + 1).map_values(
                |l: Seq<char>| text_key(l),
            ));
        }
        i = i + 1;
    }
    assert(lv.take(i as int) =~= lv);
    let sorted = sort_by_keys(shown, &keys);
    let ghost sv = sorted.deep_view();
    let mut out: Vec<String> = Vec::new();
    let mut k: usize = 0;
    while k < sorted.len()
        invariant
            k <= sorted.len(),
            sv == sorted.deep_view(),
            out.deep_view() == first_occurrences(sv.take(k as int)),
        decreases sorted.len() - k,
    {
        proof {
            lemma_first_occurrences_step(sv, k as int);
            lemma_first_occurrences_same_names(sv.take(k as int));
            assert(sv[k as int] == sorted@[k as int]@);
            assert(sv.take(k as int).contains(sv[k as int]) == sv.take(k as int).to_set().contains(sv[k as int]));
            assert(out.deep_view().contains(sv[k as int]) == out.deep_view().to_set().contains(sv[k as int]));
        }
        if !holds(&out, &sorted[k]) {
            let ghost before = out.deep_view();
            out.push(sorted[k].clone());
            assert(out.deep_view() =~= before.push(sv[k as int]));
        }
        k = k + 1;
    }
    assert(sv.take(k as int) =~= sv);
    proof {
        lemma_first_occurrences_no_duplicates(sv);
    }
    out
}

/// The tab-completion candidates: each repository's name with its case kept,
/// sorted stably by the lowercased name, each name kept once, where it
/// first occurs.
pub fn completion_names(repos: &Vec<String>) -> (names: Vec<String>)
    ensures
        exists|sorted: Seq<Seq<char>>|
            is_stable_sort(
                sorted,
                shown_names(repos.deep_view()),
                shown_names(repos.deep_view()).map_values(|n: Seq<char>| completion_key(n)),
            ) && names.deep_view() == first_occurrences(sorted),
        names.deep_view().no_duplicates(),
        names.deep_view().to_set() == shown_names(repos.deep_view()).to_set(),
{
    let shown = names_of(repos);
    let ghost sv = shown.deep_view();
    let mut lowered: Vec<String> = Vec::new();
    let mut i: usize = 0;
    while i < shown.len()
        invariant
            i <= shown.len(),
            sv == shown.deep_view(),
            lowered.deep_view() == sv.take(i as int).map_values(|n: Seq<char>| lowercase(n)),
        decreases shown.len() - i,
    {
        let lower = to_lowercase(shown[i].as_str());
        let ghost before = lowered.deep_view();
        lowered.push(lower);
        proof {
            assert(sv[i as int] == shown@[i as int]@);
            assert(lowered.deep_view() =~= before.push(lowercase(sv[i as int])));
            assert(sv.take(i + 1) =~= sv.take(i as int).push(sv[i as int]));
            assert(lowered.deep_view() =~= sv.take(i + 1).map_values(|n: Seq<char>| lowercase(n)));
        }
        i = i + 1;
    }
    assert(sv.take(i as int) =~= sv);
    assert(lowered.deep_view().map_values(|l: Seq<char>| text_key(l)) =~= sv.map_values(
        |n: Seq<char>| completion_key(n),
    ));
    let out = completion_from(&shown, &lowered);
    proof {
        let sorted = choose|sorted: Seq<Seq<char>>|
            is_stable_sort(
                sorted,
                shown.deep_view(),
                lowered.deep_view().map_values(|l: Seq<char>| text_key(l)),
            ) && out.deep_view() == first_occurrences(sorted);
        lemma_completion_candidates(sv, sorted);
    }
    out
}

/// The rows of the `--list` table from each repository's path and the name
/// it is shown under: the name padded to the width in bytes of the widest
/// name, two spaces, then the path.
pub fn table_rows(paths: &Vec<String>, shown: &Vec<String>) -> (rows: Vec<String>)
    requires
        shown.len() == paths.len(),
    ensures
        rows.len() == paths.len(),
        forall|i: int|
            0 <= i < paths.len() ==> #[trigger] rows@[i]@ == table_row(
                shown@[i]@,
                name_width(shown.deep_view()),
                paths@[i]@,
            ),
{
    let ghost nv = shown.deep_view();
    let mut width: usize = 0;
    let mut i: usize = 0;
    while i < shown.len()
        invariant
            i <= shown.len(),
            nv == shown.deep_view(),
            width == name_width(nv.take(i as int)),
        decreases shown.len() - i,
    {
        let w: usize = shown[i].as_str().len();
        proof {
            assert(nv.take(i + 1).drop_last() =~= nv.take(i as int));
            assert(nv[i as int] == shown@[i as int]@);
        }
        if w > width {
            width = w;
        }
        i = i + 1;
    }
    assert(nv.take(i as int) =~= nv);
    let mut rows: Vec<String> = Vec::new();
    let mut j: usize = 0;
    while j < paths.len()
        invariant
            j <= paths.len(),
            shown.len() == paths.len(),
            nv == shown.deep_view(),
            width == name_width(nv),
            rows.len() == j,
            forall|k: int|
                0 <= k < j ==> #[trigger] rows@[k]@ == table_row(shown@[k]@, width, paths@[k]@),
        decreases paths.len() - j,
    {
        let mut row = shown[j].clone();
        let n: usize = chars_of(shown[j].as_str()).len();
        let pad: usize = if width > n {
            width - n
        } else {
            0
        };
        let ghost name = shown@[j as int]@;
        let mut p: usize = 0;
        while p < pad
            invariant
                p <= pad,
                row@ == name + Seq::new(p as nat, |i: int| ' '),
            decreases pad - p,
        {
            push_char(&mut row, ' ');
            assert(row@ =~= name + Seq::new((p + 1) as nat, |i: int| ' '));
            p = p + 1;
        }
        push_char(&mut row, ' ');
        push_char(&mut row, ' ');
        row.append(paths[j].as_str());
        assert(row@ =~= table_row(name, width, paths@[j as int]@));
        rows.push(row);
        j = j + 1;
    }
    rows
}

/// The `--list` table: one row per repository, its name padded to the width
/// in bytes of the widest name, two spaces, then its path.
pub fn format_list(repos: &Vec<String>) -> (rows: Vec<String>)
    ensures
        rows.len() == repos.len(),
        forall|i: int|
            0 <= i < repos.len() ==> #[trigger] rows@[i]@ == table_row(
                list_name_of(repos@[i]@),
                name_width(shown_names(repos.deep_view())),
                repos@[i]@,
            ),
{
    let shown = names_of(repos);
    proof {
        assert forall|i: int| 0 <= i < repos.len() implies shown@[i]@ == list_name_of(repos@[i]@) by {
            assert(shown.deep_view()[i] == shown@[i]@);
            assert(shown_names(repos.deep_view())[i] == list_name_of(repos.deep_view()[i]));
            assert(repos.deep_view()[i] == repos@[i]@);
        }
    }
    table_rows(repos, &shown)
}

/// Where some repository is named exactly the query, the query selects
/// exactly the repositories so named: every one of them, and no other.
pub proof fn lemma_exact_match_wins(repos: Seq<RepoInfo>, query: Seq<char>, named: int)
    requires
        0 <= named < repos.len(),
        repos[named].name == Some(query),
    ensures
        chosen(repos, query) == repos.filter(names_exactly(query)),
        forall|k: int|
            0 <= k < chosen(repos, query).len() ==> (#[trigger] chosen(repos, query)[k]).name == Some(query),
        forall|i: int|
            0 <= i < repos.len() && (#[trigger] repos[i]).name == Some(query) ==> chosen(repos, query).contains(repos[i]),
{
    let exact = repos.filter(names_exactly(query));
    repos.lemma_filter_contains(names_exactly(query), named);
    assert(exact.len() > 0);
    assert forall|k: int| 0 <= k < exact.len() implies (#[trigger] exact[k]).name == Some(query) by {
        repos.lemma_filter_pred(names_exactly(query), k);
    }
    assert forall|i: int| 0 <= i < repos.len() && (#[trigger] repos[i]).name == Some(query) implies exact.contains(repos[i]) by {
        repos.lemma_filter_contains(names_exactly(query), i);
    }
}

/// Where no repository is named exactly the query, the query selects the
/// repositories whose name holds it: every one of them, and no other.
pub proof fn lemma_partial_match_fallback(repos: Seq<RepoInfo>, query: Seq<char>)
    requires
        forall|i: int| 0 <= i < repos.len() ==> (#[trigger] repos[i]).name != Some(query),
    ensures
        chosen(repos, query) == repos.filter(names_partly(query)),
        forall|k: int|
            0 <= k < chosen(repos, query).len() ==> names_partly(query)(#[trigger] chosen(repos, query)[k]),
        forall|i: int|
            0 <= i < repos.len() && names_partly(query)(#[trigger] repos[i]) ==> chosen(repos, query).contains(repos[i]),
{
    let exact = repos.filter(names_exactly(query));
    if exact.len() > 0 {
        repos.lemma_filter_pred(names_exactly(query), 0);
        assert(exact.contains(exact[0]));
        repos.lemma_filter_contains_rev(names_exactly(query), exact[0]);
        let i = choose|i: int| 0 <= i < repos.len() && repos[i] == exact[0];
        assert(repos[i].name != Some(query));
    }
    let partial = repos.filter(names_partly(query));
    assert forall|k: int| 0 <= k < partial.len() implies names_partly(query)(#[trigger] partial[k]) by {
        repos.lemma_filter_pred(names_partly(query), k);
    }
    assert forall|i: int| 0 <= i < repos.len() && names_partly(query)(#[trigger] repos[i]) implies partial.contains(repos[i]) by {
        repos.lemma_filter_contains(names_partly(query), i);
    }
}

/// Where no repository is named exactly the query, a repository is selected
/// exactly when the query occurs in its lowercased name as a run of
/// consecutive characters, at any position.
pub proof fn lemma_partial_match_anywhere(repos: Seq<RepoInfo>, query: Seq<char>)
    requires
        forall|i: int| 0 <= i < repos.len() ==> (#[trigger] repos[i]).name != Some(query),
    ensures
        forall|i: int|
            0 <= i < repos.len() ==> (chosen(repos, query).contains(#[trigger] repos[i]) <==> (
            repos[i].name is Some && exists|k: int|
                0 <= k && k + query.len() <= repos[i].name->0.len() && #[trigger] repos[i].name->0.subrange(
                    k,
                    k + query.len(),
                ) == query)),
        forall|j: int|
            0 <= j < chosen(repos, query).len() ==> (#[trigger] chosen(repos, query)[j]).name is Some
                && exists|k: int|
                0 <= k && k + query.len() <= chosen(repos, query)[j].name->0.len()
                    && #[trigger] chosen(repos, query)[j].name->0.subrange(k, k + query.len()) == query,
{
    lemma_partial_match_fallback(repos, query);
    let c = chosen(repos, query);
    assert forall|i: int| 0 <= i < repos.len() implies (c.contains(#[trigger] repos[i]) <==> (
    repos[i].name is Some && exists|k: int|
        0 <= k && k + query.len() <= repos[i].name->0.len() && #[trigger] repos[i].name->0.subrange(
            k,
            k + query.len(),
        ) == query)) by {
        if c.contains(repos[i]) {
            let j = choose|j: int| 0 <= j < c.len() && c[j] == repos[i];
            assert(names_partly(query)(c[j]));
        }
    }
    assert forall|j: int| 0 <= j < c.len() implies (#[trigger] c[j]).name is Some && exists|k: int|
        0 <= k && k + query.len() <= c[j].name->0.len() && #[trigger] c[j].name->0.subrange(k, k + query.len())
            == query by {
        assert(names_partly(query)(c[j]));
    }
}

/// The `--list` order: a repository without a name comes before one with a
/// name; two names compare as texts; repositories with the same name compare
/// by their paths.
pub proof fn lemma_listing_order(r: RepoInfo, s: RepoInfo)
    ensures
        r.name is None && s.name is Some ==> key_lt(listing_key(r), listing_key(s)),
        r.name is Some && s.name is Some && text_lt(r.name->0, s.name->0) ==> key_lt(
            listing_key(r),
            listing_key(s),
        ),
        r.name == s.name ==> (key_lt(listing_key(r), listing_key(s)) <==> key_lt(
            parts_key(r.parts),
            parts_key(s.parts),
        )),
{
    let kr = listing_key(r);
    let ks = listing_key(s);
    let e = Seq::<(u8, Seq<char>)>::empty();
    assert(kr =~= e.push(kr[0]) + parts_key(r.parts));
    assert(ks =~= e.push(ks[0]) + parts_key(s.parts));
    if (r.name is None && s.name is Some) || (r.name is Some && s.name is Some && text_lt(
        r.name->0,
        s.name->0,
    )) {
        lemma_key_lt_first_difference(e, kr[0], ks[0], parts_key(r.parts), parts_key(s.parts));
    }
    if r.name == s.name {
        assert(kr[0] == ks[0]);
        assert(kr.drop_first() =~= parts_key(r.parts));
        assert(ks.drop_first() =~= parts_key(s.parts));
    }
}

/// Completion candidates are ordered by their lowercase forms, as texts.
pub proof fn lemma_completion_order(a: Seq<char>, b: Seq<char>)
    ensures
        key_lt(completion_key(a), completion_key(b)) <==> text_lt(lowercase(a), lowercase(b)),
{
    let ka = completion_key(a);
    let kb = completion_key(b);
    assert(ka.len() == 1 && ka[0] == (0u8, lowercase(a)));
    assert(kb.len() == 1 && kb[0] == (0u8, lowercase(b)));
    if lowercase(a) == lowercase(b) {
        lemma_text_lt_irreflexive(lowercase(a));
        assert(ka.drop_first() =~= Seq::<(u8, Seq<char>)>::empty());
        assert(kb.drop_first() =~= Seq::<(u8, Seq<char>)>::empty());
        assert(!key_lt(ka.drop_first(), kb.drop_first()));
    }
}

/// The width of the `--list` name column is the byte length of the widest
/// name, and nothing where there is no name.
pub proof fn lemma_name_width_is_widest(names: Seq<Seq<char>>)
    ensures
        forall|k: int| 0 <= k < names.len() ==> byte_len(#[trigger] names[k]) <= name_width(names),
        names.len() == 0 ==> name_width(names) == 0,
        names.len() > 0 ==> exists|k: int| 0 <= k < names.len() && name_width(names) == byte_len(#[trigger] names[k]),
    decreases names.len(),
{
    assert forall|k: int| 0 <= k < names.len() implies byte_len(#[trigger] names[k]) <= name_width(names) by {
        lemma_width_covers(names, k);
    }
    if names.len() > 1 {
        let p = names.drop_last();
        lemma_name_width_is_widest(p);
        if byte_len(names.last()) <= name_width(p) {
            let k = choose|k: int| 0 <= k < p.len() && name_width(p) == byte_len(#[trigger] p[k]);
            assert(names[k] == p[k]);
        } else {
            assert(name_width(names) == byte_len(names[names.len() - 1]));
        }
    } else if names.len() == 1 {
        assert(name_width(names.drop_last()) == 0);
        assert(name_width(names) == byte_len(names[0]));
    }
}

/// `x` occurs in `s` before any occurrence of `y`.
pub open spec fn occurs_before(s: Seq<Seq<char>>, x: Seq<char>, y: Seq<char>) -> bool {
    exists|a: int| 0 <= a < s.len() && s[a] == x && forall|b: int| 0 <= b < s.len() && s[b] == y ==> a < b
}

/// Keeping first occurrences keeps the order in which names first occur:
/// of two kept names, the one that first occurs earlier comes first.
pub proof fn lemma_first_occurrences_in_order(s: Seq<Seq<char>>)
    ensures
        forall|i: int, j: int|
            0 <= i < j < first_occurrences(s).len() ==> occurs_before(
                s,
                #[trigger] first_occurrences(s)[i],
                #[trigger] first_occurrences(s)[j],
            ),
    decreases s.len(),
{
    if s.len() > 0 {
        let p = s.drop_last();
        let d = first_occurrences(p);
        lemma_first_occurrences_in_order(p);
        lemma_first_occurrences_same_names(p);
        let r = first_occurrences(s);
        assert forall|i: int, j: int| 0 <= i < j < r.len() implies occurs_before(s, #[trigger] r[i], #[trigger] r[j]) by {
            if j < d.len() {
                assert(r[i] == d[i] && r[j] == d[j]);
                assert(occurs_before(p, d[i], d[j]));
                let a = choose|a: int| 0 <= a < p.len() && p[a] == d[i] && forall|b: int|
                    0 <= b < p.len() && p[b] == d[j] ==> a < b;
                assert(s[a] == d[i]);
                assert forall|b: int| 0 <= b < s.len() && s[b] == r[j] implies a < b by {
                    if b < p.len() {
                        assert(p[b] == s[b]);
                    }
                }
            } else {
                assert(!p.contains(s.last()));
                assert(r[j] == s.last() && r[i] == d[i]);
                assert(d.contains(d[i]));
                assert(d.to_set().contains(d[i]));
                assert(p.to_set().contains(d[i]));
                let a = choose|a: int| 0 <= a < p.len() && p[a] == d[i];
                assert(s[a] == r[i]);
                assert forall|b: int| 0 <= b < s.len() && s[b] == r[j] implies a < b by {
                    if b < p.len() {
                        assert(p[b] == s[b]);
                        assert(p.contains(s.last()));
                    }
                }
            }
        }
    }
}

/// The name a repository is matched and listed by is the lowercase form of
/// the name it is shown under; a path without a name is shown as a whole.
pub proof fn lemma_names_agree(path: Seq<char>)
    ensures
        basename_of(path) is Some ==> basename_of(path)->0 == lowercase(list_name_of(path)),
        basename_of(path) is None ==> list_name_of(path) == path,
{
}

/// `out` holds the paths of `c` as `order` picks them, each once, in the
/// order of their components.
pub open spec fn in_path_order(order: Seq<int>, out: Seq<Seq<char>>, c: Seq<RepoInfo>) -> bool {
    &&& order.len() == out.len() == c.len()
    &&& forall|i: int| 0 <= i < out.len() ==> 0 <= #[trigger] order[i] < c.len() && out[i] == c[order[i]].path
    &&& forall|i: int, j: int| 0 <= i < j < out.len() ==> #[trigger] order[i] != #[trigger] order[j]
    &&& forall|i: int, j: int|
        0 <= i < j < out.len() ==> !key_lt(
            parts_key(c[#[trigger] order[j]].parts),
            parts_key(c[#[trigger] order[i]].parts),
        )
}

/// `out` holds the paths `repos` as `order` picks them, each once, in the
/// `--list` order.
pub open spec fn in_listing_order(order: Seq<int>, out: Seq<Seq<char>>, repos: Seq<Seq<char>>) -> bool {
    &&& order.len() == out.len() == repos.len()
    &&& forall|i: int| 0 <= i < out.len() ==> 0 <= #[trigger] order[i] < repos.len() && out[i] == repos[order[i]]
    &&& forall|i: int, j: int| 0 <= i < j < out.len() ==> #[trigger] order[i] != #[trigger] order[j]
    &&& forall|i: int, j: int|
        0 <= i < j < out.len() ==> !key_lt(
            listing_key(repo_info(repos[#[trigger] order[j]])),
            listing_key(repo_info(repos[#[trigger] order[i]])),
        )
}

/// The repositories a query matches come out in the order of their
/// components, each chosen repository once.
pub proof fn lemma_matches_in_path_order(repos: Seq<RepoInfo>, query: Seq<char>, out: Seq<Seq<char>>)
    requires
        is_stable_sort(out, paths_of(chosen(repos, query)), path_keys_of(chosen(repos, query))),
    ensures
        exists|order: Seq<int>| #[trigger] in_path_order(order, out, chosen(repos, query)),
{
    let c = chosen(repos, query);
    let keys = path_keys_of(c);
    let order = choose|order: Seq<int>|
        #[trigger] is_stable_order(order, keys) && out.len() == order.len() && forall|i: int|
            0 <= i < out.len() ==> out[i] == paths_of(c)[#[trigger] order[i]];
    assert forall|i: int| 0 <= i < out.len() implies 0 <= #[trigger] order[i] < c.len() && out[i] == c[order[i]].path by {
        assert(out[i] == paths_of(c)[order[i]]);
    }
    assert forall|i: int, j: int| 0 <= i < j < out.len() implies !key_lt(
        parts_key(c[#[trigger] order[j]].parts),
        parts_key(c[#[trigger] order[i]].parts),
    ) by {
        assert(keys[order[i]] == parts_key(c[order[i]].parts));
        assert(keys[order[j]] == parts_key(c[order[j]].parts));
    }
    assert(keys.len() == c.len());
    assert(in_path_order(order, out, c));
}

/// The `--list` order holds in the listing: every repository once, no
/// repository after one that the `--list` order puts later.
pub proof fn lemma_listing_in_order(repos: Seq<Seq<char>>, out: Seq<Seq<char>>)
    requires
        is_stable_sort(out, repos, listing_keys_of(infos_of(repos))),
    ensures
        exists|order: Seq<int>| #[trigger] in_listing_order(order, out, repos),
{
    let keys = listing_keys_of(infos_of(repos));
    let order = choose|order: Seq<int>|
        #[trigger] is_stable_order(order, keys) && out.len() == order.len() && forall|i: int|
            0 <= i < out.len() ==> out[i] == repos[#[trigger] order[i]];
    assert forall|i: int, j: int| 0 <= i < j < out.len() implies !key_lt(
        listing_key(repo_info(repos[#[trigger] order[j]])),
        listing_key(repo_info(repos[#[trigger] order[i]])),
    ) by {
        assert(keys[order[i]] == listing_key(repo_info(repos[order[i]])));
        assert(keys[order[j]] == listing_key(repo_info(repos[order[j]])));
    }
    assert(keys.len() == repos.len());
    assert(in_listing_order(order, out, repos));
}

/// Keeping first occurrences keeps every name and adds none.
pub proof fn lemma_first_occurrences_same_names(s: Seq<Seq<char>>)
    ensures
        first_occurrences(s).to_set() == s.to_set(),
    decreases s.len(),
{
    if s.len() > 0 {
        let p = s.drop_last();
        lemma_first_occurrences_same_names(p);
        assert(s =~= p.push(s.last()));
        p.lemma_push_to_set_commute(s.last());
        if p.contains(s.last()) {
            assert(s.to_set() =~= p.to_set());
        } else {
            first_occurrences(p).lemma_push_to_set_commute(s.last());
        }
    }
}

/// Keeping first occurrences leaves every name once.
pub proof fn lemma_first_occurrences_no_duplicates(s: Seq<Seq<char>>)
    ensures
        first_occurrences(s).no_duplicates(),
    decreases s.len(),
{
    if s.len() > 0 {
        let p = s.drop_last();
        lemma_first_occurrences_no_duplicates(p);
        if !p.contains(s.last()) {
            lemma_first_occurrences_same_names(p);
            let d = first_occurrences(p);
            assert(!d.contains(s.last())) by {
                if d.contains(s.last()) {
                    assert(d.to_set().contains(s.last()));
                    assert(p.to_set().contains(s.last()));
                }
            }
            assert forall|a: int, b: int|
                0 <= a < d.push(s.last()).len() && 0 <= b < d.push(s.last()).len() && a != b implies d.push(
                s.last(),
            )[a] != d.push(s.last())[b] by {
                if a < d.len() && b < d.len() {
                } else if a == d.len() {
                    assert(d.contains(d[b]));
                } else {
                    assert(d.contains(d[a]));
                }
            }
        }
    }
}

/// Keeping first occurrences of a sequence ordered by `key` leaves it ordered.
pub proof fn lemma_first_occurrences_ordered(
    s: Seq<Seq<char>>,
    key: spec_fn(Seq<char>) -> Seq<(u8, Seq<char>)>,
)
    requires
        forall|i: int, j: int| 0 <= i < j < s.len() ==> !key_lt(key(#[trigger] s[j]), key(#[trigger] s[i])),
    ensures
        forall|i: int, j: int|
            0 <= i < j < first_occurrences(s).len() ==> !key_lt(
                key(#[trigger] first_occurrences(s)[j]),
                key(#[trigger] first_occurrences(s)[i]),
            ),
    decreases s.len(),
{
    if s.len() > 0 {
        let p = s.drop_last();
        assert forall|i: int, j: int| 0 <= i < j < p.len() implies !key_lt(key(#[trigger] p[j]), key(#[trigger] p[i])) by {
            assert(p[i] == s[i] && p[j] == s[j]);
        }
        lemma_first_occurrences_ordered(p, key);
        if !p.contains(s.last()) {
            lemma_first_occurrences_same_names(p);
            let d = first_occurrences(p);
            let e = d.push(s.last());
            assert forall|i: int, j: int| 0 <= i < j < e.len() implies !key_lt(key(#[trigger] e[j]), key(#[trigger] e[i])) by {
                if j == d.len() {
                    assert(d.contains(d[i]));
                    assert(d.to_set().contains(d[i]));
                    assert(p.to_set().contains(d[i]));
                    let k = choose|k: int| 0 <= k < p.len() && p[k] == d[i];
                    assert(s[k] == d[i]);
                    assert(!key_lt(key(s[s.len() - 1]), key(s[k])));
                } else {
                    assert(e[i] == d[i] && e[j] == d[j]);
                }
            }
        }
    }
}

/// Laws of the completion candidates, for the stable sort `sorted` of the
/// shown names by their lowercase forms: every name is offered, no other,
/// and each exactly once; and they stay ordered by lowercase form.
pub proof fn lemma_completion_candidates(names: Seq<Seq<char>>, sorted: Seq<Seq<char>>)
    requires
        is_stable_sort(sorted, names, names.map_values(|n: Seq<char>| completion_key(n))),
    ensures
        first_occurrences(sorted).to_set() == names.to_set(),
        first_occurrences(sorted).no_duplicates(),
        forall|i: int, j: int|
            0 <= i < j < first_occurrences(sorted).len() ==> !key_lt(
                completion_key(#[trigger] first_occurrences(sorted)[j]),
                completion_key(#[trigger] first_occurrences(sorted)[i]),
            ),
{
    let keys = names.map_values(|n: Seq<char>| completion_key(n));
    let order = choose|order: Seq<int>|
        #[trigger] is_stable_order(order, keys) && sorted.len() == order.len() && forall|i: int|
            0 <= i < sorted.len() ==> sorted[i] == names[#[trigger] order[i]];
    lemma_first_occurrences_same_names(sorted);
    lemma_first_occurrences_no_duplicates(sorted);
    assert(sorted.to_set() =~= names.to_set()) by {
        assert forall|x: Seq<char>| names.contains(x) implies sorted.contains(x) by {
            let p = choose|p: int| 0 <= p < names.len() && names[p] == x;
            assert(lists(order, p));
            let i = choose|i: int| 0 <= i < order.len() && order[i] == p;
            assert(sorted[i] == x);
        }
        assert forall|x: Seq<char>| sorted.contains(x) implies names.contains(x) by {
            let i = choose|i: int| 0 <= i < sorted.len() && sorted[i] == x;
            assert(names[order[i]] == x);
        }
    }
    let key = |n: Seq<char>| completion_key(n);
    assert forall|i: int, j: int| 0 <= i < j < sorted.len() implies !key_lt(key(#[trigger] sorted[j]), key(#[trigger] sorted[i])) by {
        assert(keys[order[i]] == completion_key(names[order[i]]));
        assert(keys[order[j]] == completion_key(names[order[j]]));
        assert(!key_lt(keys[order[j]], keys[order[i]]));
    }
    lemma_first_occurrences_ordered(sorted, key);
}

/// A byte per character at least: a text's UTF-8 encoding is never shorter
/// than the text.
proof fn lemma_utf8_not_shorter(t: Seq<char>)
    ensures
        encode_utf8(t).len() >= t.len(),
    decreases t.len(),
{
    if t.len() > 0 {
        lemma_utf8_not_shorter(t.drop_first());
    }
}

proof fn lemma_width_covers(names: Seq<Seq<char>>, k: int)
    requires
        0 <= k < names.len(),
    ensures
        byte_len(names[k]) <= name_width(names),
    decreases names.len(),
{
    if k < names.len() - 1 {
        lemma_width_covers(names.drop_last(), k);
    }
}

/// In the `--list` table every path starts in the same column, two past the
/// width in bytes of the widest name, each row starting with its name: the
/// paths line up.  (Names longer in bytes than `usize` can count are left out.)
pub proof fn lemma_list_paths_align(names: Seq<Seq<char>>, paths: Seq<Seq<char>>, i: int)
    requires
        0 <= i < names.len(),
        forall|k: int| 0 <= k < names.len() ==> encode_utf8(#[trigger] names[k]).len() <= usize::MAX,
    ensures
        ({
            let w = name_width(names);
            let row = table_row(names[i], w, paths[i]);
            &&& row.len() == w + 2 + paths[i].len()
            &&& row.subrange(w + 2, row.len() as int) == paths[i]
            &&& row.subrange(0, names[i].len() as int) == names[i]
            &&& forall|j: int| names[i].len() <= j < w + 2 ==> row[j] == ' '
        }),
{
    let name = names[i];
    lemma_utf8_not_shorter(name);
    lemma_width_covers(names, i);
    let w = name_width(names);
    assert(name.len() <= w);
    let row = table_row(name, w, paths[i]);
    assert(row.subrange(w + 2, row.len() as int) =~= paths[i]);
    assert(row.subrange(0, name.len() as int) =~= name);
}

} // verus!

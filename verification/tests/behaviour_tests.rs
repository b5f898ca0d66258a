use std::path::PathBuf;

use goto::cache::{is_stale, parse_cache, read_index, serialize_cache};
use goto::command::Command;
use goto::locations::{cache_path_from, expand_tilde_with, resolve_root_from};
use goto::path::{basename, file_name_of, final_name, list_name, shown_name};
use goto::prune::prune_set;
use goto::repos::{
    completion_from, completion_names, format_list, match_infos, match_repos, sort_infos,
    sorted_repos, table_rows,
};

fn repos(paths: &[&str]) -> Vec<String> {
    paths.iter().map(|p| p.to_string()).collect()
}

// ---- matching ----

#[test]
fn matches_sort_by_components_not_by_text() {
    // As text, "/src/a-b/x" sorts first ('-' < '/'); by components "a" < "a-b".
    let r = repos(&["/src/a-b/x", "/src/a/x"]);
    assert_eq!(match_repos(&r, "x"), ["/src/a/x", "/src/a-b/x"]);
}

#[test]
fn substring_matches_are_all_returned_sorted() {
    let r = repos(&["/src/z/aws-redis", "/src/a/redis-tools", "/src/m/other"]);
    assert_eq!(match_repos(&r, "redis"), ["/src/a/redis-tools", "/src/z/aws-redis"]);
}

#[test]
fn query_is_compared_as_given() {
    // Callers lowercase the query; an uppercase query matches no lowercased name.
    let r = repos(&["/src/a/Nitro"]);
    assert!(match_repos(&r, "Nitro").is_empty());
}

#[test]
fn empty_query_matches_every_named_repo() {
    let r = repos(&["/src/b/two", "/src/a/one"]);
    assert_eq!(match_repos(&r, ""), ["/src/a/one", "/src/b/two"]);
}

#[test]
fn root_path_has_no_name_and_never_matches() {
    let r = repos(&["/"]);
    assert!(match_repos(&r, "").is_empty());
}

#[test]
fn match_of_no_repos_is_empty() {
    assert!(match_repos(&vec![], "nitro").is_empty());
}

#[test]
fn trailing_separator_still_names_the_repo() {
    let r = repos(&["/src/a/nitro/"]);
    assert_eq!(match_repos(&r, "nitro"), ["/src/a/nitro/"]);
}

// ---- names of paths ----

#[test]
fn file_name_is_the_last_component() {
    assert_eq!(file_name_of("/src/a/Nitro"), Some("Nitro".to_string()));
    assert_eq!(file_name_of("/"), None);
    assert_eq!(file_name_of("/src/.."), None);
    assert_eq!(file_name_of("nitro"), Some("nitro".to_string()));
}

#[test]
fn list_name_falls_back_to_the_path() {
    assert_eq!(list_name("/src/a/Nitro"), "Nitro");
    assert_eq!(list_name("/"), "/");
}

#[test]
fn basename_of_rootless_path_is_none() {
    assert_eq!(basename("/"), None);
    assert_eq!(basename("/x/ÄBC"), Some("äbc".to_string()));
}

// ---- listing ----

#[test]
fn sorted_repos_puts_nameless_paths_first() {
    let r = repos(&["/src/a/nitro", "/"]);
    assert_eq!(sorted_repos(&r), ["/", "/src/a/nitro"]);
}

#[test]
fn sorted_repos_compares_names_lowercased() {
    let r = repos(&["/src/a/beta", "/src/b/Alpha"]);
    assert_eq!(sorted_repos(&r), ["/src/b/Alpha", "/src/a/beta"]);
}

#[test]
fn sorted_repos_keeps_equal_paths_in_order() {
    // Equal by components, different as text: a stable sort keeps them as given.
    let r = repos(&["/src/a/x/", "/src/a/x"]);
    assert_eq!(sorted_repos(&r), ["/src/a/x/", "/src/a/x"]);
}

#[test]
fn list_width_counts_bytes_and_pads_by_characters() {
    // "é" is two bytes and one character: the width is 2, so one space pads it.
    let r = repos(&["/x/é", "/x/a"]);
    assert_eq!(format_list(&r), ["é   /x/é", "a   /x/a"]);
}

#[test]
fn list_row_of_single_repo() {
    assert_eq!(format_list(&repos(&["/src/ab"])), ["ab  /src/ab"]);
}

// ---- completion ----

#[test]
fn completion_keeps_differently_cased_names() {
    let r = repos(&["/a/Skills", "/b/skills"]);
    assert_eq!(completion_names(&r), ["Skills", "skills"]);
}

#[test]
fn completion_sorts_case_insensitively_and_stably() {
    let r = repos(&["/a/beta", "/b/Alpha", "/c/alpha"]);
    assert_eq!(completion_names(&r), ["Alpha", "alpha", "beta"]);
}

#[test]
fn completion_of_no_repos_is_empty() {
    assert!(completion_names(&vec![]).is_empty());
}

// ---- cache ----

#[test]
fn serialized_cache_is_root_then_one_path_per_line() {
    let body = serialize_cache("/r", &repos(&["/r/a", "/r/b"]));
    assert_eq!(body, "/r\n/r/a\n/r/b\n");
}

#[test]
fn cache_lines_drop_carriage_returns_and_blank_lines() {
    assert_eq!(
        parse_cache("/r\r\n/r/a\r\n\n/r/b", "/r"),
        Some(repos(&["/r/a", "/r/b"]))
    );
}

#[test]
fn cache_root_is_compared_by_components() {
    assert_eq!(parse_cache("/r/\n/r/a\n", "/r"), Some(repos(&["/r/a"])));
}

#[test]
fn cache_round_trips_many_repos() {
    let r = repos(&["/h/a", "/h/b/c", "/h/d e/f", "/h/ü"]);
    let body = serialize_cache("/h", &r);
    assert_eq!(parse_cache(&body, "/h"), Some(r));
}

#[test]
fn cache_of_only_newline_has_empty_root() {
    assert_eq!(parse_cache("\n", "/r"), None);
}

// ---- prune set ----

#[test]
fn prune_set_lets_the_crawl_into_other_dirs() {
    let set = prune_set(Some(String::from("vendor")));
    assert!(!set.descends_into(Some("vendor")));
    assert!(!set.descends_into(Some(".git")));
    assert!(set.descends_into(Some("src")));
    assert!(set.descends_into(None));
}

#[test]
fn prune_set_holds_repeated_names_once() {
    let set = prune_set(Some(String::from("vendor,vendor,.git")));
    assert_eq!(set.len(), 4);
    assert_eq!(set.names().len(), 4);
}

// ---- locations ----

#[test]
fn tilde_in_the_middle_is_left_alone() {
    let got = expand_tilde_with(String::from("/a/~/b"), Some("/home/kris"));
    assert_eq!(got, "/a/~/b");
    let got = expand_tilde_with(String::from("~kris/b"), Some("/home/kris"));
    assert_eq!(got, "~kris/b");
}

#[test]
fn goto_root_without_tilde_is_used_as_is() {
    let got = resolve_root_from(Some(String::from("/srv/code")), None);
    assert_eq!(got.map(PathBuf::from), Some(PathBuf::from("/srv/code")));
}

#[test]
fn cache_path_prefers_xdg_cache_home() {
    let got = cache_path_from(Some(String::from("/x")), Some(String::from("/home/k")));
    assert_eq!(got.map(PathBuf::from), Some(PathBuf::from("/x/goto/index")));
}

#[test]
fn cache_path_falls_back_to_home_cache() {
    let got = cache_path_from(None, Some(String::from("/home/k")));
    assert_eq!(got.map(PathBuf::from), Some(PathBuf::from("/home/k/.cache/goto/index")));
}

#[test]
fn cache_path_needs_a_directory() {
    assert_eq!(cache_path_from(None, None), None);
}

// ---- command line ----

#[test]
fn flags_are_recognised() {
    assert_eq!(Command::parse(Some("--version")), Command::Version);
    assert_eq!(Command::parse(Some("-v")), Command::Version);
    assert_eq!(Command::parse(Some("--help")), Command::Help);
    assert_eq!(Command::parse(Some("-h")), Command::Help);
    assert_eq!(Command::parse(Some("--source")), Command::Source);
    assert_eq!(Command::parse(Some("--reindex")), Command::Reindex);
    assert_eq!(Command::parse(Some("--list")), Command::List);
    assert_eq!(Command::parse(Some("--complete")), Command::Complete);
}

#[test]
fn query_is_lowercased() {
    assert_eq!(Command::parse(Some("HW-Admin")), Command::Jump("hw-admin".to_string()));
    assert_eq!(Command::parse(Some("-")), Command::Jump("-".to_string()));
}

#[test]
fn missing_or_empty_query_asks_for_usage() {
    assert_eq!(Command::parse(None), Command::Usage);
    assert_eq!(Command::parse(Some("")), Command::Usage);
}

#[test]
fn only_version_help_and_source_run_without_a_root() {
    assert!(!Command::Version.needs_root());
    assert!(!Command::Help.needs_root());
    assert!(!Command::Source.needs_root());
    assert!(Command::List.needs_root());
    assert!(Command::Usage.needs_root());
    assert!(Command::Jump("x".to_string()).needs_root());
}

// ---- the same logic on facts handed in ----

fn parts(list: &[&[&str]]) -> Vec<Vec<String>> {
    list.iter().map(|p| p.iter().map(|c| c.to_string()).collect()).collect()
}

#[test]
fn match_infos_uses_the_names_and_components_given() {
    let paths = repos(&["/p/one", "/p/two", "/p/three"]);
    let names = vec![Some("x".to_string()), None, Some("x".to_string())];
    let comps = parts(&[&["/", "b"], &["/", "c"], &["/", "a"]]);
    assert_eq!(match_infos(&paths, &names, &comps, "x"), ["/p/three", "/p/one"]);
    assert_eq!(match_infos(&paths, &names, &comps, ""), ["/p/three", "/p/one"]);
    assert!(match_infos(&paths, &names, &comps, "y").is_empty());
}

#[test]
fn sort_infos_orders_by_name_then_components() {
    let paths = repos(&["/p/one", "/p/two", "/p/three"]);
    let names = vec![Some("b".to_string()), None, Some("a".to_string())];
    let comps = parts(&[&["/", "x"], &["/"], &["/", "y"]]);
    assert_eq!(sort_infos(&paths, &names, &comps), ["/p/two", "/p/three", "/p/one"]);
}

#[test]
fn completion_from_sorts_by_the_forms_given() {
    let shown = repos(&["B", "a", "B"]);
    let lowered = repos(&["b", "a", "b"]);
    assert_eq!(completion_from(&shown, &lowered), ["a", "B"]);
}

#[test]
fn table_rows_pad_to_the_widest_name() {
    let rows = table_rows(&repos(&["/p/1", "/p/2"]), &repos(&["abc", "d"]));
    assert_eq!(rows, ["abc  /p/1", "d    /p/2"]);
}

#[test]
fn read_index_splits_root_and_paths() {
    assert_eq!(
        read_index("/r\n\n/a\r\n/b"),
        Some(("/r".to_string(), repos(&["/a", "/b"])))
    );
    assert_eq!(read_index(""), None);
}

#[test]
fn final_and_shown_names_of_components() {
    let named = parts(&[&["/", "src", "Nitro"]]);
    assert_eq!(final_name(&named[0]), Some("Nitro".to_string()));
    assert_eq!(shown_name("/src/Nitro", &named[0]), "Nitro");
    let rootless = parts(&[&["/"]]);
    assert_eq!(final_name(&rootless[0]), None);
    assert_eq!(shown_name("/", &rootless[0]), "/");
    let parent = parts(&[&["a", ".."]]);
    assert_eq!(final_name(&parent[0]), None);
}

// ---- deduplication over the whole list, the cache location, staleness ----

#[test]
fn completion_names_each_name_once() {
    let r = repos(&["/a/Nitro", "/b/nitro", "/c/Nitro"]);
    assert_eq!(completion_names(&r), ["Nitro", "nitro"]);
}

#[test]
fn completion_from_keeps_first_occurrences() {
    let shown = repos(&["B", "b", "B", "a"]);
    let lowered = repos(&["b", "b", "b", "a"]);
    assert_eq!(completion_from(&shown, &lowered), ["a", "B", "b"]);
}

#[test]
fn empty_xdg_cache_home_means_home_cache() {
    let got = cache_path_from(Some(String::new()), Some(String::from("/home/k")));
    assert_eq!(got, Some(String::from("/home/k/.cache/goto/index")));
    assert_eq!(cache_path_from(Some(String::new()), None), None);
}

#[test]
fn join_adds_one_separator_and_absolute_tail_replaces() {
    assert_eq!(resolve_root_from(None, Some(String::from("/home/k/"))), Some(String::from("/home/k/src")));
    assert_eq!(resolve_root_from(Some(String::from("~")), Some(String::from("/h"))), Some(String::from("/h/")));
    assert_eq!(expand_tilde_with(String::from("~//abs"), Some("/h")), "/h/abs");
}

#[test]
fn prune_trims_unicode_white_space() {
    let set = prune_set(Some(String::from("\u{3000}vendor\u{a0},\t\n")));
    assert!(set.contains("vendor"));
    assert_eq!(set.len(), 4);
}

#[test]
fn staleness_of_the_index() {
    assert!(is_stale(None, 3));
    assert!(is_stale(Some(4), 3));
    assert!(!is_stale(Some(3), 3));
    assert!(!is_stale(Some(0), 3));
}

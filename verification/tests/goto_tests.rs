use std::path::PathBuf;

use goto::cache::{parse_cache, serialize_cache};
use goto::locations::{expand_tilde_with, resolve_root_from};
use goto::path::basename;
use goto::prune::prune_set;
use goto::repos::{completion_names, format_list, match_repos, sorted_repos};

fn repos(paths: &[&str]) -> Vec<String> {
    paths.iter().map(|p| p.to_string()).collect()
}

fn names(matched: &[String]) -> Vec<String> {
    matched.iter().map(|p| p.clone()).collect()
}

// ---- match_repos ----

#[test]
fn exact_basename_match() {
    let r = repos(&["/src/a/nitro", "/src/b/other"]);
    assert_eq!(names(&match_repos(&r, "nitro")), ["/src/a/nitro"]);
}

#[test]
fn match_is_case_insensitive() {
    let r = repos(&["/src/a/Nitro"]);
    assert_eq!(names(&match_repos(&r, "nitro")), ["/src/a/Nitro"]);
}

#[test]
fn falls_back_to_substring_when_no_exact_match() {
    let r = repos(&["/src/developers/hw-admin", "/src/x/unrelated"]);
    assert_eq!(names(&match_repos(&r, "adm")), ["/src/developers/hw-admin"]);
}

#[test]
fn exact_match_wins_over_substring() {
    // "skills" is both an exact name and a substring of "skills-extra";
    // only the exact match should be returned.
    let r = repos(&["/src/a/skills", "/src/b/skills-extra"]);
    assert_eq!(names(&match_repos(&r, "skills")), ["/src/a/skills"]);
}

#[test]
fn ambiguous_exact_matches_return_all_sorted() {
    let r = repos(&["/src/kris/skills", "/src/ai/skills"]);
    assert_eq!(
        names(&match_repos(&r, "skills")),
        ["/src/ai/skills", "/src/kris/skills"]
    );
}

#[test]
fn no_match_returns_empty() {
    let r = repos(&["/src/a/nitro"]);
    assert!(match_repos(&r, "zzz").is_empty());
}

#[test]
fn matches_deeply_nested_repo() {
    let r = repos(&["/src/devops/terraform/modules/aws-redis"]);
    assert_eq!(
        names(&match_repos(&r, "aws-redis")),
        ["/src/devops/terraform/modules/aws-redis"]
    );
}

// ---- sorted_repos ----

#[test]
fn sorted_repos_orders_by_leaf_name() {
    // Sorted by repo name, not path: "alpha" precedes "zeta" even though its
    // parent dir ("z") sorts after zeta's ("a").
    let r = repos(&["/src/a/zeta", "/src/z/alpha"]);
    assert_eq!(names(&sorted_repos(&r)), ["/src/z/alpha", "/src/a/zeta"]);
}

#[test]
fn sorted_repos_breaks_name_ties_by_path() {
    let r = repos(&["/src/kris/skills", "/src/ai/skills"]);
    assert_eq!(
        names(&sorted_repos(&r)),
        ["/src/ai/skills", "/src/kris/skills"]
    );
}

// ---- format_list ----

#[test]
fn list_pads_names_so_paths_align() {
    let r = repos(&["/src/devops/ansible", "/src/a/nitro"]);
    let sorted = sorted_repos(&r);
    assert_eq!(
        format_list(&sorted),
        [
            "ansible  /src/devops/ansible",
            "nitro    /src/a/nitro",
        ]
    );
}

#[test]
fn list_preserves_name_case() {
    let r = repos(&["/src/a/Nitro"]);
    assert_eq!(format_list(&sorted_repos(&r)), ["Nitro  /src/a/Nitro"]);
}

#[test]
fn list_of_no_repos_is_empty() {
    assert!(format_list(&vec![]).is_empty());
}

// ---- completion_names ----

#[test]
fn completion_names_are_sorted_leaf_names() {
    let r = repos(&["/src/z/nitro", "/src/a/ansible"]);
    assert_eq!(completion_names(&r), ["ansible", "nitro"]);
}

#[test]
fn completion_names_dedup_same_named_repos() {
    // `skills` in two namespaces collapses to a single candidate.
    let r = repos(&["/src/kris/skills", "/src/ai/skills"]);
    assert_eq!(completion_names(&r), ["skills"]);
}

#[test]
fn completion_names_preserve_case() {
    let r = repos(&["/src/a/Nitro"]);
    assert_eq!(completion_names(&r), ["Nitro"]);
}

// ---- basename ----

#[test]
fn basename_lowercases_leaf() {
    assert_eq!(basename("/a/B/Nitro"), Some("nitro".into()));
}

// ---- expand_tilde_with ----

#[test]
fn tilde_expands_to_home() {
    let got = expand_tilde_with(String::from("~/code"), Some("/home/kris"));
    assert_eq!(PathBuf::from(got), PathBuf::from("/home/kris/code"));
}

#[test]
fn bare_tilde_expands_to_home() {
    let got = expand_tilde_with(String::from("~"), Some("/home/kris"));
    assert_eq!(PathBuf::from(got), PathBuf::from("/home/kris"));
}

#[test]
fn absolute_path_is_left_alone() {
    let got = expand_tilde_with(String::from("/etc/foo"), Some("/home/kris"));
    assert_eq!(PathBuf::from(got), PathBuf::from("/etc/foo"));
}

#[test]
fn tilde_without_home_is_left_alone() {
    let got = expand_tilde_with(String::from("~/code"), None);
    assert_eq!(PathBuf::from(got), PathBuf::from("~/code"));
}

// ---- resolve_root_from ----

#[test]
fn root_defaults_to_home_src() {
    let got = resolve_root_from(None, Some(String::from("/home/kris")));
    assert_eq!(got.map(PathBuf::from), Some(PathBuf::from("/home/kris/src")));
}

#[test]
fn goto_root_overrides_default_and_expands_tilde() {
    let got = resolve_root_from(
        Some(String::from("~/code")),
        Some(String::from("/home/kris")),
    );
    assert_eq!(got.map(PathBuf::from), Some(PathBuf::from("/home/kris/code")));
}

#[test]
fn empty_goto_root_falls_back_to_default() {
    let got = resolve_root_from(Some(String::new()), Some(String::from("/home/kris")));
    assert_eq!(got.map(PathBuf::from), Some(PathBuf::from("/home/kris/src")));
}

#[test]
fn no_home_and_no_goto_root_is_none() {
    assert_eq!(resolve_root_from(None, None), None);
}

// ---- prune_set ----

#[test]
fn prune_defaults_present_without_env() {
    let set = prune_set(None);
    assert!(set.contains("node_modules"));
    assert!(set.contains(".terraform"));
    assert!(set.contains(".git"));
    assert_eq!(set.len(), 3);
}

#[test]
fn prune_appends_extra_dirs_to_defaults() {
    let set = prune_set(Some(String::from("vendor,dist")));
    assert!(set.contains("vendor"));
    assert!(set.contains("dist"));
    // Defaults are still pruned alongside the extras.
    assert!(set.contains("node_modules"));
    assert_eq!(set.len(), 5);
}

#[test]
fn prune_trims_whitespace_and_drops_empties() {
    let set = prune_set(Some(String::from(" vendor , , dist ,")));
    assert!(set.contains("vendor"));
    assert!(set.contains("dist"));
    assert!(!set.contains(""));
    assert_eq!(set.len(), 5); // 3 defaults + vendor + dist
}

#[test]
fn prune_empty_env_adds_nothing() {
    assert_eq!(prune_set(Some(String::new())).len(), 3);
}

// ---- cache serialization ----

#[test]
fn cache_round_trips() {
    let root = "/home/kris/src";
    let r = repos(&["/home/kris/src/a/nitro", "/home/kris/src/b/hw-admin"]);
    let serialized = serialize_cache(root, &r);
    assert_eq!(parse_cache(&serialized, root), Some(r));
}

#[test]
fn cache_rejected_when_root_differs() {
    let serialized = serialize_cache("/home/kris/src", &repos(&["/x/y"]));
    assert_eq!(parse_cache(&serialized, "/other/root"), None);
}

#[test]
fn empty_cache_parses_to_no_repos() {
    let serialized = serialize_cache("/home/kris/src", &[].to_vec());
    assert_eq!(parse_cache(&serialized, "/home/kris/src"), Some(vec![]));
}

#[test]
fn empty_contents_is_none() {
    assert_eq!(parse_cache("", "/home/kris/src"), None);
}

//! Where the search root and the index file are, from the environment's
//! values (handed in as text by the caller that reads the environment).
use vstd::prelude::*;
use crate::path::{join, opt_view, path_joined, path_stripped, strip_prefix};

verus! {

/// `path` with a leading `~` component replaced by `home`, where there is a home.
pub open spec fn expanded(path: Seq<char>, home: Option<Seq<char>>) -> Seq<char> {
    match home {
        None => path,
        Some(h) => match path_stripped(path, "~"@) {
            Some(rest) => path_joined(h, rest),
            None => path,
        },
    }
}

/// The search root: the configured root where it is set and not empty (a
/// leading `~` expanded), else `src` under the home directory.
pub open spec fn search_root(configured: Option<Seq<char>>, home: Option<Seq<char>>) -> Option<Seq<char>> {
    match configured {
        Some(v) if v.len() > 0 => Some(expanded(v, home)),
        _ => match home {
            Some(h) => Some(path_joined(h, "src"@)),
            None => None,
        },
    }
}

/// The index file: `goto/index` under the cache directory, which is the
/// configured one where it is set and not empty, else `.cache` under the
/// home directory.
pub open spec fn index_location(cache_dir: Option<Seq<char>>, home: Option<Seq<char>>) -> Option<Seq<char>> {
    let dir = match cache_dir {
        Some(d) if d.len() > 0 => Some(d),
        _ => match home {
            Some(h) => Some(path_joined(h, ".cache"@)),
            None => None,
        },
    };
    match dir {
        Some(d) => Some(path_joined(path_joined(d, "goto"@), "index"@)),
        None => None,
    }
}

/// A configured root that is set and not empty always wins over the default,
/// whatever the home directory; it is taken as it is where there is no home
/// or it does not start with a `~` component, and with that component
/// replaced by the home directory otherwise.
pub proof fn lemma_configured_root_wins(v: Seq<char>, home: Option<Seq<char>>)
    requires
        v.len() > 0,
    ensures
        search_root(Some(v), home) == Some(expanded(v, home)),
        (home is None || path_stripped(v, "~"@) is None) ==> search_root(Some(v), home) == Some(v),
        (home is Some && path_stripped(v, "~"@) is Some) ==> search_root(Some(v), home) == Some(
            path_joined(home->0, path_stripped(v, "~"@)->0),
        ),
{
}

/// Without a configured root (unset or empty) the root is `src` under the
/// home directory, and there is none without a home.
pub proof fn lemma_default_root(configured: Option<Seq<char>>, home: Option<Seq<char>>)
    requires
        configured is None || configured->0.len() == 0,
    ensures
        home is None ==> search_root(configured, home) is None,
        home is Some && home->0.len() > 0 && home->0.last() != '/' ==> search_root(configured, home)
            == Some(home->0.push('/') + seq!['s', 'r', 'c']),
{
    reveal_strlit("src");
    if home is Some {
        assert("src"@ =~= seq!['s', 'r', 'c']);
    }
}

/// The index lives at `goto/index` under the configured cache directory
/// where it is set and not empty, else under `.cache` in the home directory,
/// and nowhere without either.
pub proof fn lemma_index_location(cache_dir: Option<Seq<char>>, home: Option<Seq<char>>)
    ensures
        (cache_dir is Some && cache_dir->0.len() > 0 && cache_dir->0.last() != '/') ==> index_location(
            cache_dir,
            home,
        ) == Some(cache_dir->0 + seq!['/', 'g', 'o', 't', 'o', '/', 'i', 'n', 'd', 'e', 'x']),
        (cache_dir is None || cache_dir->0.len() == 0) && home is Some && home->0.len() > 0
            && home->0.last() != '/' ==> index_location(cache_dir, home) == Some(
            home->0 + seq!['/', '.', 'c', 'a', 'c', 'h', 'e', '/', 'g', 'o', 't', 'o', '/', 'i', 'n', 'd', 'e', 'x'],
        ),
        (cache_dir is None || cache_dir->0.len() == 0) && home is None ==> index_location(cache_dir, home) is None,
{
    reveal_strlit("goto");
    reveal_strlit("index");
    reveal_strlit(".cache");
    if cache_dir is Some && cache_dir->0.len() > 0 && cache_dir->0.last() != '/' {
        let d = cache_dir->0;
        let g = path_joined(d, "goto"@);
        assert(g =~= d.push('/') + seq!['g', 'o', 't', 'o']);
        assert(path_joined(g, "index"@) =~= d + seq!['/', 'g', 'o', 't', 'o', '/', 'i', 'n', 'd', 'e', 'x']);
    }
    if (cache_dir is None || cache_dir->0.len() == 0) && home is Some && home->0.len() > 0
        && home->0.last() != '/' {
        let h = home->0;
        let c = path_joined(h, ".cache"@);
        assert(c =~= h.push('/') + seq!['.', 'c', 'a', 'c', 'h', 'e']);
        let g = path_joined(c, "goto"@);
        assert(g =~= c.push('/') + seq!['g', 'o', 't', 'o']);
        assert(path_joined(g, "index"@) =~= h + seq!['/', '.', 'c', 'a', 'c', 'h', 'e', '/', 'g', 'o', 't', 'o', '/', 'i', 'n', 'd', 'e', 'x']);
    }
}

/// `path` with a leading `~` component replaced by `home`; left alone where
/// there is no home or the path does not start with `~`.
pub fn expand_tilde_with(path: String, home: Option<&str>) -> (out: String)
    ensures
        out@ == expanded(
            path@,
            match home {
                Some(h) => Some(h@),
                None => None,
            },
        ),
{
    match home {
        None => path,
        Some(h) => match strip_prefix(path.as_str(), "~") {
            Some(rest) => join(h, rest.as_str()),
            None => path,
        },
    }
}

/// The search root from the configured root and the home directory.
pub fn resolve_root_from(configured: Option<String>, home: Option<String>) -> (root: Option<String>)
    ensures
        opt_view(root) == search_root(opt_view(configured), opt_view(home)),
{
    if let Some(val) = configured {
        if !val.as_str().is_empty() {
            let h: Option<&str> = match &home {
                Some(h) => Some(h.as_str()),
                None => None,
            };
            return Some(expand_tilde_with(val, h));
        }
    }
    match home {
        Some(h) => Some(join(h.as_str(), "src")),
        None => None,
    }
}

/// The index file from the configured cache directory and the home directory.
pub fn cache_path_from(cache_dir: Option<String>, home: Option<String>) -> (path: Option<String>)
    ensures
        opt_view(path) == index_location(opt_view(cache_dir), opt_view(home)),
{
    let configured = match cache_dir {
        Some(d) => if d.as_str().is_empty() {
            None
        } else {
            Some(d)
        },
        None => None,
    };
    let dir = match configured {
        Some(d) => d,
        None => match home {
            Some(h) => join(h.as_str(), ".cache"),
            None => {
                return None;
            },
        },
    };
    let goto_dir = join(dir.as_str(), "goto");
    Some(join(goto_dir.as_str(), "index"))
}

} // verus!

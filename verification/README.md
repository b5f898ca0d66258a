# goto

`gt` jumps to any git repository under a source root by its directory name.
This crate is its logic, verified with Verus; `app/main.rs` is the program
around it (arguments, environment, the filesystem crawl with the `ignore`
crate, the index file, the background refresh).

Layout of `src/`:

- `text.rs`: texts as character sequences, substring search, splitting, and
  the std string operations called (`to_lowercase`, whose result is named;
  `trim`, stated by the Unicode White_Space property).
- `order.rs`: sort keys, their total order (proved), and a stable sort.
- `path.rs`: paths as text; components, `join` (stated for Unix) and
  `strip_prefix` come from std's `Path`; final names, ranks of components,
  the order of paths.
- `repos.rs`: matching a query, the `--list` order and table, completion
  candidates (each name once), with their laws.
- `cache.rs`: the index text (root line, then one path per line), reading it
  back, the round-trip law, and when the index is stale.
- `prune.rs`: the set of directory names the crawl skips.
- `locations.rs`: the search root and the index file's location.
- `command.rs`: what the first argument asks for.

# dropignore

Watches a directory with inotify and marks build artifacts below it with
Dropbox's `user.com.dropbox.ignored` extended attribute.

What to mark, what to watch and when to stop is decided by functions in `src/`
whose contracts are proved by Verus. The library performs no I/O: it asks for one
look at the file system, one attribute or one watch at a time and is told what
came of it.

| Part | What it holds |
| --- | --- |
| `src/rules.rs`, `src/engine.rs` | the rules, and the engine that applies them |
| `src/discovery.rs`, `src/tree.rs` | the walk through a tree, and what it finds |
| `src/events.rs`, `src/round.rs` | what file system events ask for |
| `src/watch.rs`, `src/reconcile.rs` | the watched directories, and bringing them in line with the tree |
| `src/settling.rs`, `src/recovery.rs`, `src/exactness.rs`, `src/marking.rs` | proofs that they end up in line, and that what matches is marked |
| `src/dropbox.rs`, `src/app.rs`, `src/error.rs` | marking, one-shot scans, the event loop, failures |
| `src/cli.rs` | command line arguments |
| `src/path.rs`, `src/text.rs`, `src/sequence.rs`, `src/kernel.rs` | paths, text, sequences, kernel constants |
| `app/` | the program: file system, extended attributes, inotify, signals, logging |

## Usage

```bash
dropignore --dry-run /home/foo/Dropbox    # inspect what would be ignored
dropignore /home/foo/Dropbox              # mark, then keep watching
dropignore --scan-once /home/foo/Dropbox  # mark existing matches once and exit
```

`--scan-once` exits non-zero when at least one matched path could not be marked.
Logs default to `info`; override with `RUST_LOG`. If the watched root itself is
moved or deleted, the program exits with an error so that a supervisor can
restart it.

## Extending the rules

For directories with fixed names, add a constructor to `ArtifactDirsRule`; for a
build directory that matches only next to a marker file, add one to
`MarkedBuildDirRule`, whose markers become rescan triggers. Register it in
`default_rules` and `default_models`. For anything else, implement `Rule` and
register it as `AnyRule::Custom`.

//! Walks and rounds of work on a file system in memory.

use dropignore::app::{loop_turn, mark_discovered, poll_inotify, scan_once, LoopTurn, PollResult};
use dropignore::discovery::{
    DiscoveredPaths, Inspection, ListedEntry, Walk, WalkRequest,
};
use dropignore::engine::RuleEngine;
use dropignore::error::Failure;
use dropignore::events::{plan_entry, EntryAction, Event, EventStep};
use dropignore::path::TreePath;
use dropignore::reconcile::{Action, Reconcile, Task};
use dropignore::round::{Round, RoundAction};
use dropignore::rules::{
    default_rules, AnyRule, ArtifactDirsRule, Candidate, EggInfoRule, FileType, MarkedBuildDirRule,
};
use dropignore::watch::{WatchOutcome, WatchRegistry, WatchReply};
use inotify::EventMask;
use std::collections::BTreeMap;

fn at(path: &str) -> TreePath {
    TreePath::new(path.as_bytes())
}

fn shown(path: &TreePath) -> String {
    String::from_utf8(path.shortest_spelling()).expect("test paths are text")
}

fn all_shown(paths: &[TreePath]) -> Vec<String> {
    paths.iter().map(shown).collect()
}

/// An entry of the file system: its type, its inode, and whether it can be read.
#[derive(Clone)]
struct Node {
    file_type: FileType,
    inode: i32,
    readable: bool,
}

/// A file system with a watch table, and a record of what was done to it.
struct Host {
    nodes: BTreeMap<String, Node>,
    next_inode: i32,
    watched: Vec<i32>,
    unwatched: Vec<i32>,
    marked: Vec<String>,
    unmarkable: Vec<String>,
    limit: usize,
}

impl Host {
    fn new() -> Host {
        Host {
            nodes: BTreeMap::new(),
            next_inode: 1,
            watched: Vec::new(),
            unwatched: Vec::new(),
            marked: Vec::new(),
            unmarkable: Vec::new(),
            limit: 1000,
        }
    }

    fn add(&mut self, path: &str, file_type: FileType) {
        let node = Node { file_type, inode: self.next_inode, readable: true };
        self.next_inode += 1;
        self.nodes.insert(path.to_string(), node);
    }

    fn dir(&mut self, path: &str) {
        self.add(path, FileType::Directory);
    }

    fn file(&mut self, path: &str) {
        self.add(path, FileType::Other);
    }

    fn link(&mut self, path: &str) {
        self.add(path, FileType::Symlink);
    }

    fn below(&self, path: &str) -> Vec<String> {
        let prefix = format!("{path}/");
        self.nodes
            .keys()
            .filter(|key| *key == path || key.starts_with(&prefix))
            .cloned()
            .collect()
    }

    fn remove(&mut self, path: &str) {
        for key in self.below(path) {
            self.nodes.remove(&key);
        }
    }

    fn rename(&mut self, from: &str, to: &str) {
        for key in self.below(from) {
            let node = self.nodes.remove(&key).expect("listed above");
            self.nodes.insert(format!("{to}{}", &key[from.len()..]), node);
        }
    }

    fn siblings(
        &self,
        rules: &RuleEngine,
        path: &TreePath,
        file_type: FileType,
    ) -> Vec<Vec<u8>> {
        let Some(parent) = path.parent() else {
            return Vec::new();
        };
        rules
            .consulted(path, file_type)
            .into_iter()
            .filter(|name| self.nodes.contains_key(&shown(&parent.join(name))))
            .collect()
    }

    fn inspect(&self, rules: &RuleEngine, path: &TreePath) -> Option<Inspection> {
        let node = self.nodes.get(&shown(path))?;
        Some(Inspection {
            file_type: node.file_type,
            siblings: self.siblings(rules, path, node.file_type),
        })
    }

    fn list(&self, rules: &RuleEngine, dir: &TreePath) -> Option<Vec<ListedEntry>> {
        let name = shown(dir);
        let node = self.nodes.get(&name)?;
        if node.file_type != FileType::Directory || !node.readable {
            return None;
        }
        let prefix = format!("{name}/");
        let mut entries = Vec::new();
        for (key, node) in &self.nodes {
            if let Some(entry) = key.strip_prefix(&prefix) {
                if !entry.contains('/') {
                    let path = at(key);
                    entries.push(ListedEntry {
                        name: entry.as_bytes().to_vec(),
                        file_type: Some(node.file_type),
                        siblings: self.siblings(rules, &path, node.file_type),
                    });
                }
            }
        }
        Some(entries)
    }

    fn watch(&mut self, path: &TreePath) -> WatchReply {
        match self.nodes.get(&shown(path)) {
            None => WatchReply::Refused(Some(libc::ENOENT)),
            Some(node) if node.file_type != FileType::Directory => {
                WatchReply::Refused(Some(libc::ENOTDIR))
            }
            Some(node) => {
                if !self.watched.contains(&node.inode) {
                    if self.watched.len() >= self.limit {
                        return WatchReply::Refused(Some(libc::ENOSPC));
                    }
                    self.watched.push(node.inode);
                }
                WatchReply::Watching(node.inode)
            }
        }
    }

    fn unwatch(&mut self, descriptor: i32) {
        self.watched.retain(|watched| *watched != descriptor);
        self.unwatched.push(descriptor);
    }

    fn mark(&mut self, path: &TreePath) -> Result<(), ()> {
        let path = shown(path);
        if self.unmarkable.contains(&path) {
            return Err(());
        }
        self.marked.push(path);
        Ok(())
    }

    fn mark_all(&mut self, paths: &[TreePath]) {
        mark_discovered(paths, self, |host, path| {
            let outcome = host.mark(path);
            (host, outcome)
        });
    }

    fn inode(&self, path: &str) -> i32 {
        self.nodes[path].inode
    }

    fn run(
        &mut self,
        mut round: Round,
        registry: &mut WatchRegistry,
        rules: &RuleEngine,
    ) -> Result<Vec<String>, Failure> {
        let mut steps = Vec::new();
        loop {
            match round.advance(registry, rules)? {
                RoundAction::Event(step) => {
                    steps.push(format!("{step:?}"));
                    if let EventStep::Inspect { path, .. } = step {
                        let action = round.entry(rules, self.inspect(rules, &path));
                        if action.apply_ignore {
                            let _ = self.mark(&path);
                        }
                    }
                }
                RoundAction::Work(action) => match action {
                    Action::Continue => {}
                    Action::Unwatch(descriptor) => self.unwatch(descriptor),
                    Action::Inspect(path) => {
                        round.inspected(rules, self.inspect(rules, &path));
                    }
                    Action::List(path) => {
                        round.listed(rules, self.list(rules, &path));
                    }
                    Action::Mark(paths) => self.mark_all(&paths),
                    Action::Watch(path) => {
                        let reply = self.watch(&path);
                        round.watched(registry, reply)?;
                    }
                    Action::Done => return Ok(steps),
                },
            }
        }
    }

    fn seed(&mut self, root: &str, registry: &mut WatchRegistry, rules: &RuleEngine) {
        self.run(Round::seed(&at(root)), registry, rules).expect("seeding must succeed");
    }

    fn drain(
        &mut self,
        root: &str,
        registry: &mut WatchRegistry,
        rules: &RuleEngine,
        events: Vec<Event>,
    ) -> Result<Vec<String>, Failure> {
        self.run(Round::new(&at(root), events), registry, rules)
    }

    fn work(
        &mut self,
        tasks: Vec<Task>,
        registry: &mut WatchRegistry,
        rules: &RuleEngine,
    ) -> Result<(), Failure> {
        let mut job = Reconcile::new(tasks);
        loop {
            match job.advance(registry)? {
                Action::Continue => {}
                Action::Unwatch(descriptor) => self.unwatch(descriptor),
                Action::Inspect(path) => {
                    job.inspected(rules, self.inspect(rules, &path));
                }
                Action::List(path) => {
                    job.listed(rules, self.list(rules, &path));
                }
                Action::Mark(paths) => self.mark_all(&paths),
                Action::Watch(path) => {
                    let reply = self.watch(&path);
                    job.watched(registry, reply)?;
                }
                Action::Done => return Ok(()),
            }
        }
    }

    fn rescan(&mut self, scope: &str, registry: &mut WatchRegistry, rules: &RuleEngine) {
        self.work(vec![Task::Rescan(at(scope))], registry, rules).expect("rescan must succeed");
    }

    fn discover(&self, mut walk: Walk, rules: &RuleEngine) -> DiscoveredPaths {
        loop {
            match walk.request() {
                WalkRequest::Inspect(path) => {
                    walk.inspected(rules, self.inspect(rules, &path));
                }
                WalkRequest::List(path) => {
                    walk.listed(rules, self.list(rules, &path));
                }
                WalkRequest::Done => return walk.finish(),
            }
        }
    }

    fn targets(&self, start: &str, rules: &RuleEngine) -> DiscoveredPaths {
        self.discover(Walk::discover_watch_targets(&at(start)), rules)
    }

    fn matches(&self, start: &str, rules: &RuleEngine) -> Vec<TreePath> {
        self.discover(Walk::discover_matches(&at(start)), rules).matches
    }
}

fn engine() -> RuleEngine {
    RuleEngine::new(vec![AnyRule::Artifact(ArtifactDirsRule::node_modules())])
}

fn cargo() -> RuleEngine {
    RuleEngine::new(vec![AnyRule::Marked(MarkedBuildDirRule::cargo_target())])
}

fn event(descriptor: i32, mask: EventMask, name: Option<&str>) -> Event {
    Event { descriptor, mask: mask.bits(), name: name.map(|name| name.as_bytes().to_vec()) }
}

fn watches(registry: &WatchRegistry, path: &str) -> bool {
    registry.contains_path(&at(path))
}

fn plan(path: &str, file_type: FileType, rules: &RuleEngine) -> EntryAction {
    plan_entry(&Candidate { path: &at(path), file_type, siblings: &Vec::new() }, rules)
}

#[test]
fn plan_entry_skips_symlink_to_directory() {
    let action = plan("/t/link", FileType::Symlink, &engine());
    assert!(!action.apply_ignore, "symlink must not be marked");
    assert!(!action.watch_dir, "symlink target must not be watched");

    let action = plan("/t/node_modules", FileType::Symlink, &engine());
    assert!(!action.apply_ignore, "a symlink with a matching name is no match");
    assert!(!action.watch_dir);
    assert!(action.matched.is_none());
}

#[test]
fn plan_entry_watches_plain_directory() {
    let action = plan("/t/plain", FileType::Directory, &engine());
    assert!(!action.apply_ignore);
    assert!(action.watch_dir, "unmatched directory should be watched");
}

#[test]
fn plan_entry_applies_and_skips_matched_directory() {
    let action = plan("/t/node_modules", FileType::Directory, &engine());
    assert!(action.apply_ignore, "node_modules must be marked");
    assert!(!action.watch_dir, "ignored directory must not be watched");
    assert_eq!(action.matched.map(|matched| matched.name), Some("node_modules directory"));
}

#[test]
fn plan_entry_applies_matched_non_directory_without_watching() {
    let rules = RuleEngine::new(vec![AnyRule::EggInfo(EggInfoRule)]);
    let action = plan("/t/pkg.egg-info", FileType::Other, &rules);
    assert!(action.apply_ignore, "matched *.egg-info file must be marked");
    assert!(!action.watch_dir, "a non-directory must not be watched");
}

#[test]
fn discover_watch_targets_skips_ignored_subtrees() {
    let mut host = Host::new();
    host.dir("/t");
    host.dir("/t/keep");
    host.dir("/t/node_modules");
    host.dir("/t/node_modules/deep");

    let discovered = host.targets("/t", &engine());
    let watchers = all_shown(&discovered.watchers);
    assert!(watchers.contains(&"/t".to_string()), "root should be watched");
    assert!(
        watchers.contains(&"/t/keep".to_string()),
        "non matching directory should be watched"
    );
    assert!(
        !watchers.contains(&"/t/node_modules".to_string()),
        "ignored directory should not be watched"
    );
    assert!(
        !watchers.contains(&"/t/node_modules/deep".to_string()),
        "child of ignored directory should not be watched"
    );
    assert!(
        all_shown(&discovered.matches).contains(&"/t/node_modules".to_string()),
        "ignored directory should be marked for attribute application"
    );
}

#[test]
fn discover_watch_targets_handles_cargo_target() {
    let mut host = Host::new();
    host.dir("/t");
    host.file("/t/Cargo.toml");
    host.dir("/t/target");
    host.dir("/t/target/debug");

    let rules = RuleEngine::new(vec![
        AnyRule::Marked(MarkedBuildDirRule::cargo_target()),
        AnyRule::Artifact(ArtifactDirsRule::node_modules()),
    ]);
    let discovered = host.targets("/t", &rules);
    assert_eq!(
        all_shown(&discovered.matches),
        ["/t/target"],
        "target should be marked for attribute application"
    );
    assert_eq!(
        all_shown(&discovered.watchers),
        ["/t"],
        "neither target nor its children should be watched"
    );
}

#[test]
fn discover_watch_targets_skips_python_envs() {
    let mut host = Host::new();
    host.dir("/t");
    host.dir("/t/.venv");
    let rules = RuleEngine::new(vec![AnyRule::Artifact(ArtifactDirsRule::python_caches())]);
    let discovered = host.targets("/t", &rules);
    assert!(all_shown(&discovered.matches).contains(&"/t/.venv".to_string()));
    assert!(!all_shown(&discovered.watchers).contains(&"/t/.venv".to_string()));
}

#[test]
fn discover_watch_targets_marks_egg_info_files() {
    let mut host = Host::new();
    host.dir("/t");
    host.file("/t/pkg.egg-info");
    host.dir("/t/sub");
    host.file("/t/sub/inner.egg-info");
    let rules = RuleEngine::new(vec![AnyRule::EggInfo(EggInfoRule)]);
    let matches = all_shown(&host.targets("/t", &rules).matches);
    assert!(
        matches.contains(&"/t/pkg.egg-info".to_string()),
        "top-level *.egg-info file must be marked"
    );
    assert!(
        matches.contains(&"/t/sub/inner.egg-info".to_string()),
        "nested *.egg-info file must be marked"
    );
}

#[test]
fn discover_watch_targets_skips_pycache_subtree() {
    let mut host = Host::new();
    host.dir("/t");
    host.dir("/t/__pycache__");
    host.dir("/t/__pycache__/sub");
    let rules = RuleEngine::new(vec![AnyRule::Artifact(ArtifactDirsRule::python_caches())]);
    let discovered = host.targets("/t", &rules);
    assert_eq!(all_shown(&discovered.matches), ["/t/__pycache__"], "__pycache__ must be marked");
    assert_eq!(all_shown(&discovered.watchers), ["/t"], "nothing of it must be watched");
}

#[test]
fn discover_matches_agrees_with_full_discovery() {
    let mut host = Host::new();
    host.dir("/t");
    host.dir("/t/keep");
    host.dir("/t/keep/node_modules");
    host.dir("/t/node_modules");
    let matches = host.matches("/t", &engine());
    let full = host.targets("/t", &engine());
    assert_eq!(
        all_shown(&matches),
        all_shown(&full.matches),
        "both discovery entry points must report the same matches"
    );
    assert_eq!(matches.len(), 2);
}

#[test]
fn discover_watch_targets_skips_vcs_dirs_without_marking() {
    let mut host = Host::new();
    host.dir("/t");
    host.dir("/t/.git");
    host.dir("/t/.git/objects");
    host.dir("/t/src");
    let discovered = host.targets("/t", &RuleEngine::new(default_rules()));
    assert_eq!(all_shown(&discovered.matches), Vec::<String>::new());
    assert_eq!(all_shown(&discovered.watchers), ["/t", "/t/src"]);
}

#[test]
fn walk_skips_symlinks_without_evaluating_them() {
    let mut host = Host::new();
    host.dir("/t");
    host.link("/t/pkg.egg-info");
    host.link("/t/node_modules");
    host.dir("/t/real");
    let discovered = host.targets("/t", &RuleEngine::new(default_rules()));
    assert_eq!(all_shown(&discovered.matches), Vec::<String>::new());
    assert_eq!(all_shown(&discovered.watchers), ["/t", "/t/real"]);
}

#[test]
fn unreadable_directory_is_skipped_and_walk_continues() {
    let mut host = Host::new();
    host.dir("/t");
    host.dir("/t/a");
    host.dir("/t/b");
    host.dir("/t/b/node_modules");
    host.dir("/t/c");
    host.dir("/t/c/node_modules");
    host.nodes.get_mut("/t/c").expect("just added").readable = false;
    let discovered = host.targets("/t", &engine());
    assert_eq!(all_shown(&discovered.matches), ["/t/b/node_modules"]);
    let mut watchers = all_shown(&discovered.watchers);
    watchers.sort();
    assert_eq!(watchers, ["/t", "/t/a", "/t/b", "/t/c"]);
    assert_eq!(host.targets("/gone", &engine()).watchers.len(), 0);
}

#[test]
fn entries_of_unknown_type_are_passed_over() {
    let rules = RuleEngine::new(vec![AnyRule::EggInfo(EggInfoRule)]);
    let mut walk = Walk::discover_watch_targets(&at("/t"));
    let seen = Inspection { file_type: FileType::Directory, siblings: Vec::new() };
    assert!(walk.inspected(&rules, Some(seen)).is_none());
    let entry = |name: &str, file_type| ListedEntry {
        name: name.as_bytes().to_vec(),
        file_type,
        siblings: Vec::new(),
    };
    let reported = walk.listed(
        &rules,
        Some(vec![
            entry("a.egg-info", None),
            entry("b.egg-info", Some(FileType::Other)),
            entry("c", Some(FileType::Other)),
        ]),
    );
    assert_eq!(reported.len(), 1);
    assert_eq!(shown(&reported[0].path), "/t/b.egg-info");
    assert_eq!(reported[0].matched.name, "Python egg-info metadata");
    assert_eq!(all_shown(&walk.finish().matches), ["/t/b.egg-info"]);
}

#[test]
fn answers_that_nobody_asked_for_change_nothing() {
    let rules = engine();
    let mut walk = Walk::discover_watch_targets(&at("/t"));
    assert!(walk.listed(&rules, Some(Vec::new())).is_empty());
    assert!(walk.inspected(&rules, None).is_none());
    let seen = Inspection { file_type: FileType::Directory, siblings: Vec::new() };
    assert!(walk.inspected(&rules, Some(seen)).is_none());
    assert!(walk.finish().watchers.is_empty());

    let mut registry = WatchRegistry::new();
    let mut job = Reconcile::new(Vec::new());
    assert!(matches!(job.watched(&mut registry, WatchReply::Watching(1)), Ok(None)));
    assert!(job.inspected(&rules, None).is_none());
    assert!(job.listed(&rules, None).is_empty());
    assert_eq!(registry.watched_count(), 0);

    let mut round = Round::new(&at("/t"), Vec::new());
    let action = round.entry(&rules, None);
    assert!(!action.apply_ignore && !action.watch_dir && action.matched.is_none());
    assert!(matches!(round.watched(&mut registry, WatchReply::Watching(1)), Ok(None)));
    assert!(round.inspected(&rules, None).is_none());
    assert!(round.listed(&rules, None).is_empty());
    assert_eq!(registry.watched_count(), 0);
}

#[test]
fn rescan_is_idempotent() {
    let mut host = Host::new();
    host.dir("/t");
    host.dir("/t/a");
    host.dir("/t/a/b");
    host.dir("/t/node_modules");
    let rules = engine();
    let mut registry = WatchRegistry::default();

    host.seed("/t", &mut registry, &rules);
    let after_first = registry.watched_count();
    host.seed("/t", &mut registry, &rules);
    let after_second = registry.watched_count();
    assert_eq!(after_first, after_second, "re-scan must not add duplicate watches");
    assert!(after_first >= 3, "root + a + a/b should be watched, node_modules skipped");
    assert_eq!(after_first, 3);
    assert!(host.unwatched.is_empty());
}

#[test]
fn rebuild_watches_reconciles_stale_entries() {
    let mut host = Host::new();
    host.dir("/t");
    host.dir("/t/a");
    host.dir("/t/a/b");
    let rules = engine();
    let mut registry = WatchRegistry::default();
    host.seed("/t", &mut registry, &rules);

    registry.insert(at("/t/ghost"), 900);
    assert!(watches(&registry, "/t/ghost"), "stale entry seeded");
    host.rescan("/t", &mut registry, &rules);

    assert!(!watches(&registry, "/t/ghost"), "stale entry must be pruned");
    assert!(host.unwatched.contains(&900), "the stale watch must be dropped");
    assert!(watches(&registry, "/t"), "root must be re-watched");
    assert!(watches(&registry, "/t/a"), "a must be re-watched");
    assert!(watches(&registry, "/t/a/b"), "a/b must be re-watched");
    assert_eq!(
        registry.watched_count(),
        host.targets("/t", &rules).watchers.len(),
        "registry must match a fresh discovery exactly"
    );
}

#[test]
fn rescan_subtree_reconciles_newly_matched_sibling() {
    let mut host = Host::new();
    host.dir("/t/proj");
    host.dir("/t/proj/target");
    host.dir("/t/proj/target/debug");
    host.dir("/t/proj/src");
    let rules = cargo();
    let mut registry = WatchRegistry::default();
    host.seed("/t/proj", &mut registry, &rules);
    assert!(watches(&registry, "/t/proj/target"), "target watched pre-trigger");
    assert!(watches(&registry, "/t/proj/target/debug"), "target/debug watched pre-trigger");

    host.file("/t/proj/Cargo.toml");
    host.rescan("/t/proj", &mut registry, &rules);
    assert!(!watches(&registry, "/t/proj/target"), "matched target must not be watched");
    assert!(!watches(&registry, "/t/proj/target/debug"), "target subtree must be pruned");
    assert!(watches(&registry, "/t/proj"), "project dir stays watched");
    assert!(watches(&registry, "/t/proj/src"), "sibling src stays watched");
    assert_eq!(host.marked, ["/t/proj/target"]);
}

#[test]
fn rescan_subtree_reconciles_gradle_build_after_marker() {
    let mut host = Host::new();
    host.dir("/t/proj");
    host.dir("/t/proj/build");
    host.dir("/t/proj/build/classes");
    let rules = RuleEngine::new(vec![AnyRule::Marked(MarkedBuildDirRule::gradle_build())]);
    let mut registry = WatchRegistry::default();
    host.seed("/t/proj", &mut registry, &rules);
    assert!(watches(&registry, "/t/proj/build"), "build watched pre-marker");

    host.file("/t/proj/build.gradle.kts");
    host.rescan("/t/proj", &mut registry, &rules);
    assert!(!watches(&registry, "/t/proj/build"), "matched build must not be watched");
    assert!(!watches(&registry, "/t/proj/build/classes"), "build subtree must be pruned");
    assert!(watches(&registry, "/t/proj"), "project dir stays watched");
}

#[test]
fn rescan_subtree_leaves_out_of_scope_watches_intact() {
    let mut host = Host::new();
    host.dir("/t");
    host.dir("/t/a");
    host.dir("/t/a/inner");
    host.dir("/t/b");
    host.dir("/t/b/inner");
    let rules = engine();
    let mut registry = WatchRegistry::default();
    host.seed("/t", &mut registry, &rules);
    assert!(watches(&registry, "/t/b/inner"));

    let outside = host.inode("/t/b/inner");
    host.rescan("/t/a", &mut registry, &rules);
    assert!(watches(&registry, "/t/a/inner"), "in-scope descendant re-added");
    assert!(watches(&registry, "/t/b"), "out-of-scope project untouched");
    assert!(watches(&registry, "/t/b/inner"), "out-of-scope descendant untouched");
    assert!(!host.unwatched.contains(&outside));
    assert_eq!(
        registry.path_for(outside).map(shown).as_deref(),
        Some("/t/b/inner"),
        "out-of-scope descriptor untouched"
    );
}

#[test]
fn drain_events_registers_new_dir_and_skips_ignored() {
    let mut host = Host::new();
    host.dir("/t");
    let rules = engine();
    let mut registry = WatchRegistry::default();
    host.seed("/t", &mut registry, &rules);
    assert!(watches(&registry, "/t"), "root must be watched after seeding");

    host.dir("/t/node_modules");
    host.dir("/t/plain");
    let root = host.inode("/t");
    let events = vec![
        event(root, EventMask::CREATE | EventMask::ISDIR, Some("node_modules")),
        event(root, EventMask::CREATE | EventMask::ISDIR, Some("plain")),
    ];
    host.drain("/t", &mut registry, &rules, events).expect("no failure");
    assert!(watches(&registry, "/t/plain"), "a new plain dir must be watched via the event path");
    assert!(
        !watches(&registry, "/t/node_modules"),
        "node_modules must be skipped (matched), not watched"
    );
    assert_eq!(host.marked, ["/t/node_modules"]);
}

#[test]
fn drain_events_skips_new_vcs_dir() {
    let mut host = Host::new();
    host.dir("/t");
    let rules = RuleEngine::new(default_rules());
    let mut registry = WatchRegistry::default();
    host.seed("/t", &mut registry, &rules);
    host.dir("/t/.git");
    let root = host.inode("/t");
    let events = vec![event(root, EventMask::CREATE, Some(".git"))];
    host.drain("/t", &mut registry, &rules, events).expect("no failure");
    assert!(!watches(&registry, "/t/.git"));
    assert!(host.marked.is_empty());
}

#[test]
fn drain_events_prunes_subtree_moved_out_of_tree() {
    let mut host = Host::new();
    host.dir("/t");
    host.dir("/t/a");
    host.dir("/t/a/x");
    let rules = engine();
    let mut registry = WatchRegistry::default();
    host.seed("/t", &mut registry, &rules);
    assert!(watches(&registry, "/t/a/x"), "a/x watched before the move");

    let moved = host.inode("/t/a");
    host.rename("/t/a", "/outside/a");
    let events = vec![event(moved, EventMask::MOVE_SELF, None)];
    host.drain("/t", &mut registry, &rules, events).expect("no failure");
    assert!(!watches(&registry, "/t/a"), "moved dir must be pruned");
    assert!(!watches(&registry, "/t/a/x"), "descendant of moved dir must be pruned");
    assert_eq!(
        registry.watched_count(),
        host.targets("/t", &rules).watchers.len(),
        "registry must match a fresh discovery of the root"
    );
}

#[test]
fn drain_events_reconciles_in_tree_rename() {
    let mut host = Host::new();
    host.dir("/t");
    host.dir("/t/a");
    host.dir("/t/a/x");
    let rules = engine();
    let mut registry = WatchRegistry::default();
    host.seed("/t", &mut registry, &rules);
    assert!(watches(&registry, "/t/a/x"), "a/x watched before the rename");

    let root = host.inode("/t");
    let moved = host.inode("/t/a");
    host.rename("/t/a", "/t/b");
    let events = vec![
        event(root, EventMask::MOVED_FROM | EventMask::ISDIR, Some("a")),
        event(root, EventMask::MOVED_TO | EventMask::ISDIR, Some("b")),
        event(moved, EventMask::MOVE_SELF, None),
    ];
    host.drain("/t", &mut registry, &rules, events).expect("no failure");
    assert!(watches(&registry, "/t/b"), "renamed dir must be watched");
    assert!(watches(&registry, "/t/b/x"), "descendant must follow the rename");
    assert!(!watches(&registry, "/t/a"), "old path must be pruned");
    assert!(!watches(&registry, "/t/a/x"), "old descendant must be pruned");
    assert_eq!(
        registry.watched_count(),
        host.targets("/t", &rules).watchers.len(),
        "registry must match a fresh discovery of the root"
    );
}

#[test]
fn rename_and_overflow_in_one_batch_are_reconciled() {
    let mut host = Host::new();
    host.dir("/t");
    host.dir("/t/a");
    host.dir("/t/a/x");
    let rules = engine();
    let mut registry = WatchRegistry::default();
    host.seed("/t", &mut registry, &rules);
    let root = host.inode("/t");
    host.rename("/t/a", "/t/b");
    host.dir("/t/b/node_modules");
    let events = vec![
        event(root, EventMask::MOVED_TO | EventMask::ISDIR, Some("b")),
        event(-1, EventMask::Q_OVERFLOW, None),
    ];
    host.drain("/t", &mut registry, &rules, events).expect("no failure");
    for path in all_shown(&host.targets("/t", &rules).watchers) {
        assert!(watches(&registry, &path), "{path}");
    }
    assert_eq!(registry.watched_count(), 3);
    assert!(host.marked.contains(&"/t/b/node_modules".to_string()));
}

#[test]
fn failed_marks_change_nothing_else() {
    let rules = engine();
    let run = |unmarkable: &[&str]| {
        let mut host = Host::new();
        host.unmarkable = unmarkable.iter().map(|path| path.to_string()).collect();
        for path in ["/t", "/t/a", "/t/a/node_modules", "/t/b"] {
            host.dir(path);
        }
        let mut registry = WatchRegistry::default();
        host.seed("/t", &mut registry, &rules);
        host.dir("/t/node_modules");
        host.dir("/t/c");
        host.dir("/t/c/node_modules");
        let root = host.inode("/t");
        let events = vec![
            event(root, EventMask::CREATE | EventMask::ISDIR, Some("node_modules")),
            event(root, EventMask::CREATE | EventMask::ISDIR, Some("c")),
        ];
        let steps = host.drain("/t", &mut registry, &rules, events).expect("no failure");
        let watched: Vec<String> =
            host.nodes.keys().filter(|path| watches(&registry, path)).cloned().collect();
        (steps, watched, host.marked)
    };
    let (steps, watched, marked) = run(&[]);
    assert_eq!(marked, ["/t/a/node_modules", "/t/node_modules", "/t/c/node_modules"]);
    let (same_steps, same_watched, fewer) = run(&["/t/a/node_modules", "/t/node_modules"]);
    assert_eq!(steps, same_steps);
    assert_eq!(watched, same_watched);
    assert_eq!(watched, ["/t", "/t/a", "/t/b", "/t/c"]);
    assert_eq!(fewer, ["/t/c/node_modules"]);
}

#[test]
fn walk_finds_nothing_twice() {
    let mut host = Host::new();
    for path in ["/t", "/t/a", "/t/a/b", "/t/b", "/t/b/a", "/t/b/a/node_modules"] {
        host.dir(path);
    }
    host.file("/t/a/node_modules");
    let found = host.targets("/t", &engine());
    for mut paths in [all_shown(&found.watchers), all_shown(&found.matches)] {
        let count = paths.len();
        paths.sort();
        paths.dedup();
        assert_eq!(paths.len(), count);
    }
    assert_eq!(all_shown(&found.matches), ["/t/b/a/node_modules"]);
    assert_eq!(found.watchers.len(), 5);
}

#[test]
fn found_paths_are_spelled_from_the_start() {
    let mut host = Host::new();
    for path in ["/t", "/t/a", "/t/a/node_modules"] {
        host.dir(path);
    }
    let found = host.targets("//t/./", &engine());
    let spelled: Vec<String> = found.watchers.iter().map(TreePath::display).collect();
    assert_eq!(spelled, ["//t/./", "//t/./a"]);
    assert_eq!(found.matches[0].display(), "//t/./a/node_modules");
}

#[test]
fn drain_events_errors_when_root_is_moved() {
    let mut host = Host::new();
    host.dir("/t/root");
    let rules = engine();
    let mut registry = WatchRegistry::default();
    host.seed("/t/root", &mut registry, &rules);
    let root = host.inode("/t/root");
    host.rename("/t/root", "/t/elsewhere");
    let failure = host
        .drain("/t/root", &mut registry, &rules, vec![event(root, EventMask::MOVE_SELF, None)])
        .expect_err("root move must surface an error");
    assert!(failure.message().contains("was moved or renamed"), "got: {failure:?}");
    assert_eq!(failure.message(), "Watched root /t/root was moved or renamed");
}

#[test]
fn drain_events_errors_when_root_is_deleted() {
    let mut host = Host::new();
    host.dir("/t/root");
    let rules = engine();
    let mut registry = WatchRegistry::default();
    host.seed("/t/root", &mut registry, &rules);
    let root = host.inode("/t/root");
    host.remove("/t/root");
    let failure = host
        .drain("/t/root", &mut registry, &rules, vec![event(root, EventMask::DELETE_SELF, None)])
        .expect_err("root deletion must surface an error");
    assert!(failure.message().contains("was deleted"), "got: {failure:?}");
    assert_eq!(failure.message(), "Watched root /t/root was deleted");
}

#[test]
fn drain_events_removes_registry_entry_for_deleted_subdir() {
    let mut host = Host::new();
    host.dir("/t");
    host.dir("/t/a");
    let rules = engine();
    let mut registry = WatchRegistry::default();
    host.seed("/t", &mut registry, &rules);
    assert!(watches(&registry, "/t/a"), "a watched before deletion");

    let gone = host.inode("/t/a");
    host.remove("/t/a");
    let events = vec![event(gone, EventMask::DELETE_SELF, None)];
    host.drain("/t", &mut registry, &rules, events).expect("no failure");
    assert!(
        !watches(&registry, "/t/a"),
        "deleted subdir must leave the registry via DELETE_SELF"
    );
    assert!(watches(&registry, "/t"), "root stays watched");
}

#[test]
fn drain_events_rescans_when_trigger_file_appears() {
    let mut host = Host::new();
    host.dir("/t");
    host.dir("/t/proj");
    host.dir("/t/proj/target");
    let rules = cargo();
    let mut registry = WatchRegistry::default();
    host.seed("/t", &mut registry, &rules);
    assert!(watches(&registry, "/t/proj/target"), "target watched while no Cargo.toml exists");

    host.file("/t/proj/Cargo.toml");
    let proj = host.inode("/t/proj");
    let events = vec![event(proj, EventMask::CREATE, Some("Cargo.toml"))];
    host.drain("/t", &mut registry, &rules, events).expect("no failure");
    assert!(
        !watches(&registry, "/t/proj/target"),
        "trigger CREATE event must un-watch target via scoped rescan"
    );
    assert!(watches(&registry, "/t/proj"), "project dir stays watched");
    assert!(watches(&registry, "/t"), "root stays watched");
    assert_eq!(host.marked, ["/t/proj/target"]);
    assert_eq!(
        registry.watched_count(),
        host.targets("/t", &rules).watchers.len(),
        "the scoped rescan leaves what a fresh discovery of the root finds"
    );
}

#[test]
fn seeding_marks_exactly_what_matches() {
    let mut host = Host::new();
    for dir in ["/t", "/t/.git", "/t/a", "/t/a/node_modules", "/t/a/node_modules/venv", "/t/venv"] {
        host.dir(dir);
    }
    host.file("/t/x.egg-info");
    host.file("/t/a/node_modules/y.egg-info");
    host.link("/t/z.egg-info");
    let rules = RuleEngine::new(default_rules());
    let mut registry = WatchRegistry::default();
    host.seed("/t", &mut registry, &rules);
    host.marked.sort();
    assert_eq!(host.marked, ["/t/a/node_modules", "/t/venv", "/t/x.egg-info"]);
    assert_eq!(registry.watched_count(), 2);
}

#[test]
fn trigger_is_noticed_even_if_it_cannot_be_read() {
    let mut host = Host::new();
    host.dir("/t");
    host.dir("/t/proj");
    let rules = cargo();
    let mut registry = WatchRegistry::default();
    host.seed("/t", &mut registry, &rules);
    let proj = host.inode("/t/proj");
    let events = vec![
        event(proj, EventMask::CREATE, Some("Cargo.toml")),
        event(proj, EventMask::MOVED_TO, Some("Cargo.toml")),
    ];
    host.drain("/t", &mut registry, &rules, events).expect("no failure");
    assert_eq!(host.unwatched, [proj], "the directory is rescanned, once");
    assert!(watches(&registry, "/t/proj"));
}

#[test]
fn drain_events_recovers_from_queue_overflow() {
    let mut host = Host::new();
    host.dir("/t");
    host.dir("/t/old");
    let rules = engine();
    let mut registry = WatchRegistry::default();
    host.seed("/t", &mut registry, &rules);

    host.remove("/t/old");
    host.dir("/t/late_dir");
    host.dir("/t/node_modules");
    let events = vec![
        event(-1, EventMask::Q_OVERFLOW, None),
        event(host.inode("/t"), EventMask::CREATE, Some("f0")),
        event(-1, EventMask::Q_OVERFLOW, None),
    ];
    host.drain("/t", &mut registry, &rules, events).expect("no failure");
    assert!(
        watches(&registry, "/t/late_dir"),
        "overflow rescan must find a directory whose CREATE was dropped"
    );
    assert!(
        !watches(&registry, "/t/node_modules"),
        "overflow rescan must skip matched node_modules"
    );
    assert_eq!(
        registry.watched_count(),
        host.targets("/t", &rules).watchers.len(),
        "registry must match a fresh discovery after overflow recovery"
    );
    assert_eq!(host.unwatched.len(), 2, "overflows collapse into a single rescan");
    assert_eq!(host.marked, ["/t/node_modules"], "what the lost events hid is marked");
}

#[test]
fn drain_events_errors_when_root_vanishes_during_overflow() {
    let mut host = Host::new();
    host.dir("/t/root");
    let rules = engine();
    let mut registry = WatchRegistry::default();
    host.seed("/t/root", &mut registry, &rules);
    host.remove("/t/root");
    let failure = host
        .drain("/t/root", &mut registry, &rules, vec![event(-1, EventMask::Q_OVERFLOW, None)])
        .expect_err("vanished root must surface an error after overflow");
    assert!(
        failure.message().contains("disappeared during overflow rescan"),
        "got: {failure:?}"
    );
    assert_eq!(failure.message(), "Watched root /t/root disappeared during overflow rescan");
}

#[test]
fn overflow_supersedes_scopes() {
    let mut host = Host::new();
    host.dir("/t");
    host.dir("/t/proj");
    let rules = cargo();
    let mut registry = WatchRegistry::default();
    host.seed("/t", &mut registry, &rules);
    host.file("/t/proj/Cargo.toml");
    let proj = host.inode("/t/proj");
    let events = vec![
        event(proj, EventMask::CREATE, Some("Cargo.toml")),
        event(0, EventMask::Q_OVERFLOW, Some("Cargo.toml")),
    ];
    host.drain("/t", &mut registry, &rules, events).expect("no failure");
    assert_eq!(host.unwatched.len(), 2, "each watch is dropped once");
}

#[test]
fn events_are_told_apart() {
    let mut host = Host::new();
    host.dir("/t");
    let rules = engine();
    let mut registry = WatchRegistry::default();
    host.seed("/t", &mut registry, &rules);
    let root = host.inode("/t");
    let events = vec![
        event(root, EventMask::MODIFY, Some("a")),
        event(77, EventMask::MOVE_SELF, None),
        event(77, EventMask::DELETE_SELF, None),
        event(77, EventMask::CREATE, Some("a")),
        event(root, EventMask::CREATE, None),
        event(root, EventMask::CREATE, Some("gone")),
        event(root, EventMask::IGNORED, None),
    ];
    let steps = host.drain("/t", &mut registry, &rules, events).expect("no failure");
    let kinds: Vec<&str> =
        steps.iter().map(|step| step.split([' ', '(']).next().expect("a word")).collect();
    assert_eq!(
        kinds,
        ["Ignored", "Ignored", "Deleted", "UnknownDescriptor", "Unnamed", "Inspect", "Ignored"]
    );
    assert_eq!(steps[3], "UnknownDescriptor(77)");
    assert_eq!(registry.watched_count(), 1);
    assert!(host.marked.is_empty());
}

#[test]
fn full_watch_table_is_fatal_and_other_refusals_are_not() {
    let mut host = Host::new();
    host.dir("/t");
    host.dir("/t/a");
    host.dir("/t/b");
    host.limit = 2;
    let rules = engine();
    let mut registry = WatchRegistry::default();
    let failure = host
        .run(Round::seed(&at("/t")), &mut registry, &rules)
        .expect_err("the watch table is full");
    assert!(failure.message().contains("max_user_watches"), "got: {failure:?}");
    assert_eq!(registry.watched_count(), 2);

    let mut job = Reconcile::new(vec![Task::Seed(at("/x"))]);
    let mut registry = WatchRegistry::default();
    let mut outcomes = Vec::new();
    loop {
        match job.advance(&mut registry).expect("no failure") {
            Action::Inspect(_) => {
                let seen = Inspection { file_type: FileType::Directory, siblings: Vec::new() };
                job.inspected(&rules, Some(seen));
            }
            Action::List(_) => {
                job.listed(&rules, None);
            }
            Action::Watch(_) => {
                let reply = WatchReply::Refused(Some(libc::EACCES));
                outcomes.push(job.watched(&mut registry, reply).expect("not fatal"));
            }
            Action::Done => break,
            _ => {}
        }
    }
    assert_eq!(outcomes.len(), 1);
    match &outcomes[0] {
        Some(WatchOutcome::Skipped(message)) => {
            assert_eq!(message, "Failed to add watch for /x");
        }
        other => panic!("unexpected {other:?}"),
    }
    assert!(!watches(&registry, "/x"));
}

#[test]
fn root_is_required_where_asked_for() {
    let rules = engine();
    let mut host = Host::new();
    host.dir("/t");
    let mut registry = WatchRegistry::default();
    host.seed("/t", &mut registry, &rules);
    host.work(vec![Task::RequireRoot(at("/t"))], &mut registry, &rules).expect("it is watched");
    let failure = host
        .work(vec![Task::RequireRoot(at("/u"))], &mut registry, &rules)
        .expect_err("it is not watched");
    assert!(matches!(failure, Failure::RootDisappeared(_)));
}

#[test]
fn event_loop_stops_when_shutdown_flag_is_set() {
    let mut host = Host::new();
    host.dir("/t");
    let rules = engine();
    let mut registry = WatchRegistry::default();
    host.seed("/t", &mut registry, &rules);

    assert_eq!(loop_turn(false), LoopTurn::Wait(500));
    assert!(matches!(poll_inotify(0, None), Ok(PollResult::TimedOut)));
    assert_eq!(loop_turn(true), LoopTurn::Stop, "shutdown must be prompt");
    assert!(watches(&registry, "/t"), "returned registry must retain the root watch");
}

#[test]
fn event_loop_processes_events_before_shutdown() {
    let mut host = Host::new();
    host.dir("/t");
    let rules = engine();
    let mut registry = WatchRegistry::default();
    host.seed("/t", &mut registry, &rules);

    host.dir("/t/newdir");
    let mut pending = vec![event(host.inode("/t"), EventMask::CREATE, Some("newdir"))];
    let mut turns = 0;
    while loop_turn(turns > 2) != LoopTurn::Stop {
        turns += 1;
        let queued = if pending.is_empty() { 0 } else { 1 };
        if let Ok(PollResult::Readable) = poll_inotify(queued, None) {
            let events = std::mem::take(&mut pending);
            host.drain("/t", &mut registry, &rules, events).expect("no failure");
        }
    }
    assert!(
        watches(&registry, "/t/newdir"),
        "the event loop must watch a directory created while it runs"
    );
}

#[test]
fn scan_once_visits_matches_only() {
    let mut host = Host::new();
    host.dir("/t");
    host.dir("/t/node_modules");
    host.dir("/t/src");
    let matches = host.matches("/t", &engine());
    let (visited, total) = scan_once(&matches, Vec::new(), |mut visited, path| {
        visited.push(shown(path));
        (visited, Ok::<(), String>(()))
    });
    assert_eq!(visited, ["/t/node_modules"], "only the matched path is applied");
    assert!(matches!(total, Ok(1)));
}

#[test]
fn scan_tries_each_match_once_in_order_despite_failures() {
    let mut host = Host::new();
    for path in ["/t", "/t/a", "/t/a/node_modules", "/t/b", "/t/b/node_modules"] {
        host.dir(path);
    }
    host.dir("/t/node_modules");
    let matches = host.matches("/t", &engine());
    let (tried, result) = scan_once(&matches, Vec::new(), |mut tried, path| {
        tried.push(path.clone());
        let outcome = if tried.len() == 2 { Ok(()) } else { Err("boom") };
        (tried, outcome)
    });
    assert_eq!(tried, matches);
    assert_eq!(tried.len(), 3);
    let failure = result.expect_err("two attempts failed");
    assert_eq!(failure.message(), "Failed to mark 2 of 3 matched path(s)");
}

#[test]
fn runtime_agrees_with_discovery() {
    let mut host = Host::new();
    for path in ["/t", "/t/a", "/t/node_modules", "/t/target", "/t/.git", "/t/p.egg-info"] {
        host.dir(path);
    }
    host.file("/t/Cargo.toml");
    host.file("/t/q.egg-info");
    host.file("/t/plain");
    host.link("/t/venv");
    let rules = RuleEngine::new(default_rules());
    let found = host.targets("/t", &rules);
    for entry in host.list(&rules, &at("/t")).expect("is readable") {
        let path = at("/t").join(&entry.name);
        let seen = host.inspect(&rules, &path).expect("is readable");
        let action = plan_entry(
            &Candidate { path: &path, file_type: seen.file_type, siblings: &seen.siblings },
            &rules,
        );
        assert_eq!(action.apply_ignore, found.matches.contains(&path), "{}", path.display());
        assert_eq!(action.watch_dir, found.watchers.contains(&path), "{}", path.display());
    }
    assert_eq!(
        all_shown(&found.matches).len(),
        4,
        "node_modules, target and both egg-info entries: {:?}",
        all_shown(&found.matches)
    );
    assert_eq!(all_shown(&found.watchers), ["/t", "/t/a"]);
}

#[test]
fn scan_once_fails_when_any_apply_fails() {
    let mut host = Host::new();
    host.dir("/t");
    host.dir("/t/node_modules");
    let matches = host.matches("/t", &engine());
    let ((), result) = scan_once(&matches, (), |(), _| ((), Err("boom")));
    let failure = result.expect_err("a failed apply must fail the scan");
    assert!(
        failure.message().contains("1 of 1"),
        "message must carry failure/total counts, got: {failure:?}"
    );
    assert_eq!(failure.message(), "Failed to mark 1 of 1 matched path(s)");
}

#[test]
fn discovered_matches_are_all_tried_and_failures_summed_up() {
    let paths: Vec<TreePath> = (0..12).map(|i| at(&format!("/t/{i}"))).collect();
    let (tried, summary) = mark_discovered(&paths, Vec::new(), |mut tried, path| {
        let outcome = if tried.is_empty() { Ok(()) } else { Err(()) };
        tried.push(path.clone());
        (tried, outcome)
    });
    assert_eq!(tried, paths, "each path is tried once, in order");
    assert_eq!(
        summary.as_deref(),
        Some("Failed to mark 11 of 12 discovered path(s) as ignored")
    );
    assert_eq!(mark_discovered(&paths, (), |(), _| ((), Ok::<(), ()>(()))), ((), None));
    assert_eq!(mark_discovered(&[], 7, |n, _| (n + 1, Err(()))), (7, None));
}

//! Watch bookkeeping.

use dropignore::kernel::contains_flag;
use dropignore::path::TreePath;
use dropignore::watch::{
    add_watch, watch_error_context, watch_mask, WatchOutcome, WatchRegistry, WatchReply,
};
use inotify::WatchMask;

fn at(path: &str) -> TreePath {
    TreePath::new(path.as_bytes())
}

#[test]
fn watch_mask_includes_move_and_delete_self() {
    let mask = WatchMask::from_bits_retain(watch_mask());
    assert!(mask.contains(WatchMask::MOVE_SELF), "MOVE_SELF must be watched");
    assert!(mask.contains(WatchMask::DELETE_SELF), "DELETE_SELF must be watched");
    assert_eq!(
        mask,
        WatchMask::CREATE
            | WatchMask::MOVED_TO
            | WatchMask::DELETE_SELF
            | WatchMask::MOVE_SELF
            | WatchMask::ONLYDIR
    );
    assert_eq!(watch_mask(), 0x0100_0d80);
}

#[test]
fn flags_are_contained_whole() {
    assert!(contains_flag(0x4100, 0x4000));
    assert!(contains_flag(0x4100, 0x4100));
    assert!(!contains_flag(0x4000, 0x4100));
    assert!(contains_flag(0, 0));
}

#[test]
fn registry_insert_lookup_and_remove() {
    let path = at("/tmp/watched");
    let descriptor = 7;
    let mut registry = WatchRegistry::default();
    registry.insert(path.clone(), descriptor);

    assert!(registry.contains_path(&path));
    assert_eq!(registry.path_for(descriptor), Some(&path));

    registry.remove_by_descriptor(descriptor);
    assert!(!registry.contains_path(&path), "path mapping must be gone");
    assert_eq!(registry.path_for(descriptor), None, "descriptor mapping must be gone");

    registry.remove_by_descriptor(descriptor);
    assert_eq!(registry.watched_count(), 0);
}

#[test]
fn watch_error_context_mentions_limit_on_enospc() {
    let msg = watch_error_context(&at("/some/dir"), Some(libc::ENOSPC));
    assert!(msg.contains("max_user_watches"), "got: {msg}");
    assert_eq!(
        msg,
        "Failed to add watch for /some/dir (inotify watch limit reached; increase \
         /proc/sys/fs/inotify/max_user_watches)"
    );
}

#[test]
fn watch_error_context_is_plain_for_other_errors() {
    let msg = watch_error_context(&at("/some/dir"), Some(libc::EACCES));
    assert!(!msg.contains("max_user_watches"), "got: {msg}");
    assert_eq!(msg, "Failed to add watch for /some/dir");
    assert_eq!(watch_error_context(&at("/some/dir"), None), msg);
}

#[test]
fn registry_insert_evicts_stale_path_on_descriptor_reuse() {
    let old_path = at("/tmp/t/old");
    let new_path = at("/tmp/t/new");
    let descriptor = 3;
    let mut registry = WatchRegistry::default();
    registry.insert(old_path.clone(), descriptor);
    registry.insert(new_path.clone(), descriptor);

    assert!(!registry.contains_path(&old_path), "stale path must be evicted");
    assert!(registry.contains_path(&new_path));
    assert_eq!(registry.path_for(descriptor), Some(&new_path));
    assert_eq!(registry.watched_count(), 1);

    registry.insert(new_path.clone(), descriptor);
    assert!(registry.contains_path(&new_path), "inserting the same pair again keeps it");
}

#[test]
fn drain_subtree_removes_prefix_and_descendants_only() {
    let mut registry = WatchRegistry::default();
    registry.insert(at("/t"), 1);
    registry.insert(at("/t/a"), 2);
    registry.insert(at("/t/a/b"), 3);
    registry.insert(at("/t/c"), 4);

    let mut drained = registry.drain_subtree(&at("/t/a"));
    drained.sort();
    assert_eq!(drained, [2, 3], "only a and a/b descriptors returned");
    assert!(!registry.contains_path(&at("/t/a")), "a removed");
    assert!(!registry.contains_path(&at("/t/a/b")), "a/b removed");
    assert!(registry.contains_path(&at("/t")), "root retained");
    assert!(registry.contains_path(&at("/t/c")), "sibling c retained");
    assert_eq!(registry.path_for(2), None);
    assert_eq!(registry.path_for(4), Some(&at("/t/c")));
}

#[test]
fn drain_subtree_respects_component_boundaries() {
    let mut registry = WatchRegistry::default();
    registry.insert(at("/t/a/b"), 1);
    registry.insert(at("/t/a/bc"), 2);

    let drained = registry.drain_subtree(&at("/t/a/b"));
    assert_eq!(drained.len(), 1, "only a/b drained");
    assert!(!registry.contains_path(&at("/t/a/b")));
    assert!(
        registry.contains_path(&at("/t/a/bc")),
        "a/bc must NOT be treated as a child of a/b"
    );
}

#[test]
fn drain_subtree_with_root_prefix_empties_registry() {
    let mut registry = WatchRegistry::default();
    registry.insert(at("/t"), 1);
    registry.insert(at("/t/a"), 2);
    registry.insert(at("/t/b"), 3);
    assert_eq!(registry.watched_count(), 3);

    let drained = registry.drain_subtree(&at("/t"));
    assert_eq!(drained.len(), 3, "every descriptor returned");
    assert_eq!(registry.watched_count(), 0, "registry empty after root drain");
    assert!(registry.drain_subtree(&at("/t")).is_empty());
}

#[test]
fn add_watch_skips_nonexistent_path() {
    let missing = at("/nonexistent-dropignore-test-path");
    let mut registry = WatchRegistry::default();
    let outcome = add_watch(&mut registry, &missing, WatchReply::Refused(Some(libc::ENOENT)));
    match outcome {
        Ok(WatchOutcome::Skipped(message)) => assert_eq!(
            message,
            "Failed to add watch for /nonexistent-dropignore-test-path"
        ),
        other => panic!("unexpected {other:?}"),
    }
    assert!(
        !registry.contains_path(&missing),
        "a path that failed to register must not enter the registry"
    );
}

#[test]
fn add_watch_registers_once_and_fails_on_a_full_table() {
    let path = at("/t/a");
    let mut registry = WatchRegistry::default();
    let failure = add_watch(&mut registry, &path, WatchReply::Refused(Some(libc::ENOSPC)))
        .expect_err("a full watch table is fatal");
    assert!(failure.message().contains("max_user_watches"));
    assert_eq!(registry.watched_count(), 0);

    let outcome = add_watch(&mut registry, &path, WatchReply::Watching(5));
    assert!(matches!(outcome, Ok(WatchOutcome::Watching)));
    let outcome = add_watch(&mut registry, &path, WatchReply::Watching(6));
    assert!(matches!(outcome, Ok(WatchOutcome::AlreadyWatched)));
    assert_eq!(registry.path_for(5), Some(&path));
    assert_eq!(registry.path_for(6), None);
}

#[test]
fn paths_that_differ_in_bytes_only_are_kept_apart() {
    let mut registry = WatchRegistry::default();
    registry.insert(TreePath::new(b"/t/\xff"), 1);
    registry.insert(TreePath::new(b"/t/\xfe"), 2);
    registry.insert(TreePath::new("/t/\u{ff}".as_bytes()), 3);
    assert_eq!(registry.watched_count(), 3);
    assert!(registry.contains_path(&TreePath::new(b"/t//\xff/")));
    assert!(!registry.contains_path(&TreePath::new(b"t/\xff")));
}

//! What the program does with what it finds, and when it stops.

use dropignore::app::{
    apply_all, ensure_directory, events_unread, loop_turn, poll_inotify, LoopTurn, PollResult,
    POLL_TIMEOUT_MS,
};
use dropignore::error::Failure;
use dropignore::path::TreePath;
use dropignore::text::{decimal, widen};

#[test]
fn apply_all_visits_every_path_despite_failures() {
    let paths = vec![TreePath::new(b"a"), TreePath::new(b"b"), TreePath::new(b"c")];
    let (seen, failures) = apply_all(&paths, Vec::new(), |mut seen, p| {
        seen.push(p.clone());
        if *p == TreePath::new(b"b") {
            return (seen, Err("boom"));
        }
        (seen, Ok(()))
    });
    assert_eq!(failures, 1, "the single failing path should be counted");
    assert_eq!(seen, paths, "every path must be visited even after a failure");
}

#[test]
fn ensure_directory_rejects_non_directory() {
    let file = TreePath::new(b"/t/plain");
    assert!(ensure_directory(&TreePath::new(b"/t"), Some(true)).is_ok());
    let failure =
        ensure_directory(&file, Some(false)).expect_err("a regular file must be rejected");
    assert!(failure.message().contains("is not a directory"), "got: {failure:?}");
    assert_eq!(failure.message(), "/t/plain is not a directory");

    let failure = ensure_directory(&file, None).expect_err("nothing could be read");
    assert_eq!(failure.message(), "Failed to read metadata for /t/plain");
}

#[test]
fn waiting_ends_in_one_of_four_ways() {
    assert!(matches!(poll_inotify(1, None), Ok(PollResult::Readable)));
    assert!(matches!(poll_inotify(0, None), Ok(PollResult::TimedOut)));
    assert!(matches!(poll_inotify(-1, Some(libc::EINTR)), Ok(PollResult::Interrupted)));
    let failure = poll_inotify(-1, Some(libc::EBADF)).expect_err("any other error is fatal");
    assert_eq!(failure.message(), "poll on inotify fd failed");
    assert!(poll_inotify(-1, None).is_err());
}

#[test]
fn shutdown_is_noticed_within_the_poll_timeout() {
    assert_eq!(POLL_TIMEOUT_MS, 500);
    assert_eq!(loop_turn(false), LoopTurn::Wait(500));
    assert_eq!(loop_turn(true), LoopTurn::Stop);
}

#[test]
fn empty_queue_is_no_failure() {
    assert!(events_unread(true).is_ok());
    let failure = events_unread(false).expect_err("any other error is fatal");
    assert_eq!(failure.message(), "Failed to read inotify events");
}

#[test]
fn failures_say_what_went_wrong() {
    let path = || TreePath::new(b"/t");
    let cases = [
        (Failure::UnreadableMetadata(path()), "Failed to read metadata for /t"),
        (Failure::NotADirectory(path()), "/t is not a directory"),
        (Failure::InteriorNul(path()), "Path contains interior NUL byte: /t"),
        (Failure::AttributeNotSet(path()), "setxattr failed for /t"),
        (
            Failure::WatchLimit(path()),
            "Failed to add watch for /t (inotify watch limit reached; increase \
             /proc/sys/fs/inotify/max_user_watches)",
        ),
        (Failure::RootMoved(path()), "Watched root /t was moved or renamed"),
        (Failure::RootDeleted(path()), "Watched root /t was deleted"),
        (
            Failure::RootDisappeared(path()),
            "Watched root /t disappeared during overflow rescan",
        ),
        (Failure::PollFailed, "poll on inotify fd failed"),
        (Failure::EventsUnreadable, "Failed to read inotify events"),
        (
            Failure::ScanIncomplete { failures: 3, total: 120 },
            "Failed to mark 3 of 120 matched path(s)",
        ),
    ];
    for (failure, message) in &cases {
        assert_eq!(failure.message(), *message);
    }
}

#[test]
fn numbers_are_written_in_decimal() {
    for n in [0, 7, 9, 10, 19, 100, 65536, usize::MAX] {
        assert_eq!(decimal(n), format!("{n}"));
    }
}

#[test]
fn widening_keeps_bytes_apart() {
    assert_eq!(widen(b"a/\xff"), "a/\u{ff}");
    assert_eq!(widen("\u{e9}".as_bytes()), "\u{c3}\u{a9}");
}

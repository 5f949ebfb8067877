//! What can go wrong, and how it is said.

use crate::path::TreePath;
use crate::text;
use vstd::prelude::*;
use vstd::string::*;

verus! {

/// A failure that ends what the program was asked to do.
#[derive(Debug)]
pub enum Failure {
    /// The root could not be read.
    UnreadableMetadata(TreePath),
    /// The root is no directory.
    NotADirectory(TreePath),
    /// The path cannot be handed to the kernel.
    InteriorNul(TreePath),
    /// The attribute could not be written.
    AttributeNotSet(TreePath),
    /// The kernel refuses further watches.
    WatchLimit(TreePath),
    /// The root was moved or renamed.
    RootMoved(TreePath),
    /// The root was deleted.
    RootDeleted(TreePath),
    /// The root could not be watched again after events were lost.
    RootDisappeared(TreePath),
    /// Waiting for events failed.
    PollFailed,
    /// Events could not be read.
    EventsUnreadable,
    /// A one-shot scan could not mark everything that matched.
    ScanIncomplete { failures: usize, total: usize },
}

/// The text of a failure to watch `path`, shown as `shown`. A full watch table
/// points at the setting that limits it.
pub open spec fn watch_failure_text(shown: Seq<char>, limit_reached: bool) -> Seq<char> {
    if limit_reached {
        "Failed to add watch for "@ + shown
            + " (inotify watch limit reached; increase /proc/sys/fs/inotify/max_user_watches)"@
    } else {
        "Failed to add watch for "@ + shown
    }
}

/// The text of `failures` failed marks out of `total`, followed by `what`.
pub open spec fn mark_failure_text(failures: nat, total: nat, what: Seq<char>) -> Seq<char> {
    "Failed to mark "@ + text::decimal_text(failures) + " of "@ + text::decimal_text(total) + what
}

impl Failure {
    /// The spelling of the path that the failure is about.
    pub open spec fn subject(self) -> Option<Seq<u8>> {
        match self {
            Failure::UnreadableMetadata(path) => Some(path.spelling()),
            Failure::NotADirectory(path) => Some(path.spelling()),
            Failure::InteriorNul(path) => Some(path.spelling()),
            Failure::AttributeNotSet(path) => Some(path.spelling()),
            Failure::WatchLimit(path) => Some(path.spelling()),
            Failure::RootMoved(path) => Some(path.spelling()),
            Failure::RootDeleted(path) => Some(path.spelling()),
            Failure::RootDisappeared(path) => Some(path.spelling()),
            Failure::PollFailed => None,
            Failure::EventsUnreadable => None,
            Failure::ScanIncomplete { failures, total } => None,
        }
    }

    /// True when the path that the failure is about is spelled by joining names
    /// to `base`.
    pub open spec fn spelled_from(self, base: Seq<u8>) -> bool {
        match self {
            Failure::UnreadableMetadata(path) => path.spelled_from(base),
            Failure::NotADirectory(path) => path.spelled_from(base),
            Failure::InteriorNul(path) => path.spelled_from(base),
            Failure::AttributeNotSet(path) => path.spelled_from(base),
            Failure::WatchLimit(path) => path.spelled_from(base),
            Failure::RootMoved(path) => path.spelled_from(base),
            Failure::RootDeleted(path) => path.spelled_from(base),
            Failure::RootDisappeared(path) => path.spelled_from(base),
            Failure::PollFailed => true,
            Failure::EventsUnreadable => true,
            Failure::ScanIncomplete { failures, total } => true,
        }
    }

    /// What the user is told.
    pub open spec fn text(self) -> Seq<char> {
        match self {
            Failure::UnreadableMetadata(path) => "Failed to read metadata for "@ + path.text(),
            Failure::NotADirectory(path) => path.text() + " is not a directory"@,
            Failure::InteriorNul(path) => "Path contains interior NUL byte: "@ + path.text(),
            Failure::AttributeNotSet(path) => "setxattr failed for "@ + path.text(),
            Failure::WatchLimit(path) => watch_failure_text(path.text(), true),
            Failure::RootMoved(path) => "Watched root "@ + path.text()
                + " was moved or renamed"@,
            Failure::RootDeleted(path) => "Watched root "@ + path.text() + " was deleted"@,
            Failure::RootDisappeared(path) => "Watched root "@ + path.text()
                + " disappeared during overflow rescan"@,
            Failure::PollFailed => "poll on inotify fd failed"@,
            Failure::EventsUnreadable => "Failed to read inotify events"@,
            Failure::ScanIncomplete { failures, total } => mark_failure_text(
                failures as nat,
                total as nat,
                " matched path(s)"@,
            ),
        }
    }

    /// Says what went wrong.
    pub fn message(&self) -> (message: String)
        ensures
            message@ == self.text(),
            self.subject() is Some ==> text::shows(
                self.subject()->0,
                text::lossy_text(self.subject()->0),
            ),
    {
        proof {
            reveal_strlit("");
        }
        match self {
            Failure::UnreadableMetadata(path) => around("Failed to read metadata for ", path, ""),
            Failure::NotADirectory(path) => around("", path, " is not a directory"),
            Failure::InteriorNul(path) => around("Path contains interior NUL byte: ", path, ""),
            Failure::AttributeNotSet(path) => around("setxattr failed for ", path, ""),
            Failure::WatchLimit(path) => watch_failure_message(path, true),
            Failure::RootMoved(path) => around("Watched root ", path, " was moved or renamed"),
            Failure::RootDeleted(path) => around("Watched root ", path, " was deleted"),
            Failure::RootDisappeared(path) => around(
                "Watched root ",
                path,
                " disappeared during overflow rescan",
            ),
            Failure::PollFailed => String::from_str("poll on inotify fd failed"),
            Failure::EventsUnreadable => String::from_str("Failed to read inotify events"),
            Failure::ScanIncomplete { failures, total } => mark_failure_message(
                *failures,
                *total,
                " matched path(s)",
            ),
        }
    }
}

/// The path as shown, between `before` and `after`.
fn around(before: &str, path: &TreePath, after: &str) -> (message: String)
    ensures
        message@ == before@ + path.text() + after@,
        before@.len() == 0 ==> message@ == path.text() + after@,
        after@.len() == 0 ==> message@ == before@ + path.text(),
        text::shows(path.spelling(), path.text()),
{
    let mut message = String::from_str(before);
    message.append(path.display().as_str());
    message.append(after);
    proof {
        if before@.len() == 0 {
            assert(message@ =~= path.text() + after@);
        }
        if after@.len() == 0 {
            assert(message@ =~= before@ + path.text());
        }
    }
    message
}

/// Says that `path` could not be watched.
pub(crate) fn watch_failure_message(path: &TreePath, limit_reached: bool) -> (message: String)
    ensures
        message@ == watch_failure_text(path.text(), limit_reached),
        text::shows(path.spelling(), path.text()),
{
    proof {
        reveal_strlit("");
    }
    if limit_reached {
        around(
            "Failed to add watch for ",
            path,
            " (inotify watch limit reached; increase /proc/sys/fs/inotify/max_user_watches)",
        )
    } else {
        around("Failed to add watch for ", path, "")
    }
}

/// Says that `failures` of `total` marks failed.
pub(crate) fn mark_failure_message(failures: usize, total: usize, what: &str) -> (message: String)
    ensures
        message@ == mark_failure_text(failures as nat, total as nat, what@),
{
    let mut message = String::from_str("Failed to mark ");
    message.append(text::decimal(failures).as_str());
    message.append(" of ");
    message.append(text::decimal(total).as_str());
    message.append(what);
    message
}

/// A message about a path shows the path in full.
pub proof fn messages_name_their_path(failure: Failure)
    requires
        failure.subject() is Some,
    ensures
        exists|before: Seq<char>, after: Seq<char>|
            failure.text() == #[trigger] (before + text::lossy_text(failure.subject()->0) + after),
{
    let shown = text::lossy_text(failure.subject()->0);
    let none = Seq::<char>::empty();
    let (before, after) = match failure {
        Failure::UnreadableMetadata(path) => ("Failed to read metadata for "@, none),
        Failure::NotADirectory(path) => (none, " is not a directory"@),
        Failure::InteriorNul(path) => ("Path contains interior NUL byte: "@, none),
        Failure::AttributeNotSet(path) => ("setxattr failed for "@, none),
        Failure::WatchLimit(path) => (
            "Failed to add watch for "@,
            " (inotify watch limit reached; increase /proc/sys/fs/inotify/max_user_watches)"@,
        ),
        Failure::RootMoved(path) => ("Watched root "@, " was moved or renamed"@),
        Failure::RootDeleted(path) => ("Watched root "@, " was deleted"@),
        _ => ("Watched root "@, " disappeared during overflow rescan"@),
    };
    assert(failure.text() =~= before + shown + after);
}

/// A message about failed marks says how many failed, and of how many.
pub proof fn messages_count_failures(failures: nat, total: nat, what: Seq<char>)
    ensures
        exists|failed: Seq<char>, all: Seq<char>| #[trigger]
            text::number_of(failed) == failures && #[trigger] text::number_of(all) == total
                && mark_failure_text(failures, total, what) == "Failed to mark "@ + failed
                + " of "@ + all + what,
{
    text::decimal_reads_back(failures);
    text::decimal_reads_back(total);
    assert(text::number_of(text::decimal_text(failures)) == failures);
    assert(text::number_of(text::decimal_text(total)) == total);
}

} // verus!

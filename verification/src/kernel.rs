//! Numbers that the kernel and the library agree on: inotify flags and error
//! codes, as the `inotify` and `libc` crates define them for Linux.

use vstd::prelude::*;

verus! {

/// `IN_CREATE`: an entry was created in a watched directory.
pub open spec fn in_create() -> u32 {
    0x0000_0100u32
}

/// `IN_MOVED_TO`: an entry was moved into a watched directory.
pub open spec fn in_moved_to() -> u32 {
    0x0000_0080u32
}

/// `IN_DELETE_SELF`: the watched directory itself was deleted.
pub open spec fn in_delete_self() -> u32 {
    0x0000_0400u32
}

/// `IN_MOVE_SELF`: the watched directory itself was moved.
pub open spec fn in_move_self() -> u32 {
    0x0000_0800u32
}

/// `IN_ONLYDIR`: watch the path only if it is a directory.
pub open spec fn in_only_dir() -> u32 {
    0x0100_0000u32
}

/// `IN_Q_OVERFLOW`: the event queue overflowed.
pub open spec fn in_queue_overflow() -> u32 {
    0x0000_4000u32
}

/// `ENOSPC`: no space left, which for a watch means that the limit is reached.
pub open spec fn no_space() -> i32 {
    28
}

/// `EINTR`: a signal interrupted the call.
pub open spec fn interrupted() -> i32 {
    4
}

/// True when every bit of `flag` is set in `mask`.
pub open spec fn has_flag(mask: u32, flag: u32) -> bool {
    mask & flag == flag
}

/// True when every bit of `flag` is set in `mask`.
pub fn contains_flag(mask: u32, flag: u32) -> (result: bool)
    ensures
        result == has_flag(mask, flag),
{
    mask & flag == flag
}

/// `inotify::WatchMask::CREATE` is the flag `IN_CREATE`.
#[verifier::external_body]
pub(crate) fn watch_create() -> (bits: u32)
    ensures
        bits == in_create(),
{
    inotify::WatchMask::CREATE.bits()
}

/// `inotify::WatchMask::MOVED_TO` is the flag `IN_MOVED_TO`.
#[verifier::external_body]
pub(crate) fn watch_moved_to() -> (bits: u32)
    ensures
        bits == in_moved_to(),
{
    inotify::WatchMask::MOVED_TO.bits()
}

/// `inotify::WatchMask::DELETE_SELF` is the flag `IN_DELETE_SELF`.
#[verifier::external_body]
pub(crate) fn watch_delete_self() -> (bits: u32)
    ensures
        bits == in_delete_self(),
{
    inotify::WatchMask::DELETE_SELF.bits()
}

/// `inotify::WatchMask::MOVE_SELF` is the flag `IN_MOVE_SELF`.
#[verifier::external_body]
pub(crate) fn watch_move_self() -> (bits: u32)
    ensures
        bits == in_move_self(),
{
    inotify::WatchMask::MOVE_SELF.bits()
}

/// `inotify::WatchMask::ONLYDIR` is the flag `IN_ONLYDIR`.
#[verifier::external_body]
pub(crate) fn watch_only_dir() -> (bits: u32)
    ensures
        bits == in_only_dir(),
{
    inotify::WatchMask::ONLYDIR.bits()
}

/// `inotify::EventMask::CREATE` is the flag `IN_CREATE`.
#[verifier::external_body]
pub(crate) fn event_create() -> (bits: u32)
    ensures
        bits == in_create(),
{
    inotify::EventMask::CREATE.bits()
}

/// `inotify::EventMask::MOVED_TO` is the flag `IN_MOVED_TO`.
#[verifier::external_body]
pub(crate) fn event_moved_to() -> (bits: u32)
    ensures
        bits == in_moved_to(),
{
    inotify::EventMask::MOVED_TO.bits()
}

/// `inotify::EventMask::DELETE_SELF` is the flag `IN_DELETE_SELF`.
#[verifier::external_body]
pub(crate) fn event_delete_self() -> (bits: u32)
    ensures
        bits == in_delete_self(),
{
    inotify::EventMask::DELETE_SELF.bits()
}

/// `inotify::EventMask::MOVE_SELF` is the flag `IN_MOVE_SELF`.
#[verifier::external_body]
pub(crate) fn event_move_self() -> (bits: u32)
    ensures
        bits == in_move_self(),
{
    inotify::EventMask::MOVE_SELF.bits()
}

/// `inotify::EventMask::Q_OVERFLOW` is the flag `IN_Q_OVERFLOW`.
#[verifier::external_body]
pub(crate) fn event_queue_overflow() -> (bits: u32)
    ensures
        bits == in_queue_overflow(),
{
    inotify::EventMask::Q_OVERFLOW.bits()
}

/// `libc::ENOSPC` on Linux, the one system that has inotify.
#[verifier::external_body]
pub(crate) fn enospc() -> (code: i32)
    ensures
        code == no_space(),
{
    libc::ENOSPC
}

/// `libc::EINTR` on Linux, the one system that has inotify.
#[verifier::external_body]
pub(crate) fn eintr() -> (code: i32)
    ensures
        code == interrupted(),
{
    libc::EINTR
}

} // verus!

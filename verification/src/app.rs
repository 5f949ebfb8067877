//! What the program does with what it finds, and when it stops.

use crate::discovery;
use crate::discovery::WalkView;
use crate::error;
use crate::error::Failure;
use crate::kernel;
use crate::path::{PathView, TreePath};
use crate::rules::RuleView;
use crate::tree;
use crate::tree::World;
use vstd::prelude::*;

verus! {

/// How many of `outcomes` are failures.
pub open spec fn failures_among<E>(outcomes: Seq<Result<(), E>>) -> nat
    decreases outcomes.len(),
{
    if outcomes.len() == 0 {
        0
    } else {
        failures_among(outcomes.drop_last()) + (if outcomes.last() is Err {
            1nat
        } else {
            0nat
        })
    }
}

/// True when `apply` was called on each of `paths`, in order and once each, and
/// never else: the calls led from the first of `states` through all of them to the
/// last, and returned `outcomes`. Every call takes the state that the one before
/// it left, so no call can be left out, repeated or put in another place.
pub open spec fn applied<S, E, F: Fn(S, &TreePath) -> (S, Result<(), E>)>(
    apply: F,
    paths: Seq<TreePath>,
    states: Seq<S>,
    outcomes: Seq<Result<(), E>>,
) -> bool {
    &&& states.len() == paths.len() + 1
    &&& outcomes.len() == paths.len()
    &&& forall|i: int|
        0 <= i < paths.len() ==> call_ensures(
            apply,
            (states[i], &paths[i]),
            (states[i + 1], #[trigger] outcomes[i]),
        )
}

/// True when `apply` can be applied to each of `paths`.
pub open spec fn applicable<S, E, F: Fn(S, &TreePath) -> (S, Result<(), E>)>(
    apply: F,
    paths: Seq<TreePath>,
) -> bool {
    forall|state: S, i: int|
        0 <= i < paths.len() ==> #[trigger] call_requires(apply, (state, &paths[i]))
}

/// Apply `apply` to every path, in order and once each, continuing past
/// individual failures, and return how many failed. What `apply` keeps between
/// calls is handed from one to the next, beginning with `state`, and returned.
/// Callees are expected to log their own errors.
pub fn apply_all<S, E, F: Fn(S, &TreePath) -> (S, Result<(), E>)>(
    paths: &[TreePath],
    state: S,
    apply: F,
) -> (done: (S, usize))
    requires
        applicable(apply, paths@),
    ensures
        exists|states: Seq<S>, outcomes: Seq<Result<(), E>>|
            #[trigger] applied(apply, paths@, states, outcomes) && states[0] == state
                && states.last() == done.0 && done.1 == failures_among(outcomes),
{
    let ghost mut states: Seq<S> = seq![state];
    let ghost mut outcomes: Seq<Result<(), E>> = Seq::empty();
    let mut current = state;
    let mut failures: usize = 0;
    let mut i: usize = 0;
    while i < paths.len()
        invariant
            i <= paths@.len(),
            applicable(apply, paths@),
            states.len() == i + 1,
            states[0] == state,
            states.last() == current,
            outcomes.len() == i,
            forall|k: int|
                0 <= k < i ==> call_ensures(
                    apply,
                    (states[k], &paths@[k]),
                    (states[k + 1], #[trigger] outcomes[k]),
                ),
            failures == failures_among(outcomes),
            failures <= i,
        decreases paths@.len() - i,
    {
        assert(call_requires(apply, (current, &paths@[i as int])));
        let (after, outcome) = apply(current, &paths[i]);
        proof {
            let fewer = outcomes;
            let earlier = states;
            outcomes = fewer.push(outcome);
            states = earlier.push(after);
            assert(outcomes.drop_last() =~= fewer);
            assert forall|k: int| 0 <= k < i + 1 implies call_ensures(
                apply,
                (states[k], &paths@[k]),
                (states[k + 1], #[trigger] outcomes[k]),
            ) by {
                if k < i {
                    assert(outcomes[k] == fewer[k]);
                    assert(states[k] == earlier[k] && states[k + 1] == earlier[k + 1]);
                }
            }
        }
        current = after;
        if outcome.is_err() {
            failures = failures + 1;
        }
        i = i + 1;
    }
    assert(applied(apply, paths@, states, outcomes));
    (current, failures)
}

/// True when `result` is what a one-shot scan comes to whose attempts to mark had
/// these `outcomes`.
pub open spec fn is_scan_result<E>(
    outcomes: Seq<Result<(), E>>,
    result: Result<usize, Failure>,
) -> bool {
    match result {
        Ok(total) => total == outcomes.len() && failures_among(outcomes) == 0,
        Err(Failure::ScanIncomplete { failures, total }) => total == outcomes.len() && failures
            == failures_among(outcomes) && failures > 0,
        Err(_) => false,
    }
}

/// Applies `apply` to every match of a one-shot scan, in order and once each, and
/// returns how many there are. Fails when at least one matched path could not be
/// marked, after all of them were tried, so that a supervisor sees a non-zero
/// exit code. What `apply` keeps between calls begins with `state`.
pub fn scan_once<S, E, F: Fn(S, &TreePath) -> (S, Result<(), E>)>(
    matches: &[TreePath],
    state: S,
    apply: F,
) -> (done: (S, Result<usize, Failure>))
    requires
        applicable(apply, matches@),
    ensures
        exists|states: Seq<S>, outcomes: Seq<Result<(), E>>|
            #[trigger] applied(apply, matches@, states, outcomes) && states[0] == state
                && states.last() == done.0 && is_scan_result(outcomes, done.1),
{
    let total = matches.len();
    let (state, failures) = apply_all(matches, state, apply);
    if failures > 0 {
        return (state, Err(Failure::ScanIncomplete { failures, total }));
    }
    (state, Ok(total))
}

/// Applies `apply` to every discovered match, in order and once each, continuing
/// past individual failures so one bad path cannot terminate the watcher, and
/// returns a summary if any failed. What `apply` keeps between calls begins with
/// `state`.
pub fn mark_discovered<S, E, F: Fn(S, &TreePath) -> (S, Result<(), E>)>(
    matches: &[TreePath],
    state: S,
    apply: F,
) -> (done: (S, Option<String>))
    requires
        applicable(apply, matches@),
    ensures
        exists|states: Seq<S>, outcomes: Seq<Result<(), E>>|
            #[trigger] applied(apply, matches@, states, outcomes) && states[0] == state
                && states.last() == done.0 && match done.1 {
                Some(message) => failures_among(outcomes) > 0 && message@
                    == error::mark_failure_text(
                    failures_among(outcomes),
                    matches@.len(),
                    " discovered path(s) as ignored"@,
                ),
                None => failures_among(outcomes) == 0,
            },
{
    let (state, failures) = apply_all(matches, state, apply);
    if failures > 0 {
        let summary = error::mark_failure_message(
            failures,
            matches.len(),
            " discovered path(s) as ignored",
        );
        return (state, Some(summary));
    }
    (state, None)
}

/// True when `log` shows the calls of `apply`: each call adds its path.
pub open spec fn is_log_of<S, E, F: Fn(S, &TreePath) -> (S, Result<(), E>)>(
    apply: F,
    log: spec_fn(S) -> Seq<PathView>,
) -> bool {
    forall|state: S, path: &TreePath, after: S, outcome: Result<(), E>| #[trigger]
        call_ensures(apply, (state, path), (after, outcome)) ==> log(after) == log(state).push(
            path@,
        )
}

/// A log of the calls shows every path, in order and once each, whatever the calls
/// returned, and nothing else.
pub proof fn calls_are_the_paths_in_order<S, E, F: Fn(S, &TreePath) -> (S, Result<(), E>)>(
    apply: F,
    paths: Seq<TreePath>,
    states: Seq<S>,
    outcomes: Seq<Result<(), E>>,
    log: spec_fn(S) -> Seq<PathView>,
)
    requires
        applied(apply, paths, states, outcomes),
        is_log_of(apply, log),
    ensures
        log(states.last()) == log(states[0]) + discovery::path_views(paths),
    decreases paths.len(),
{
    let all = discovery::path_views(paths);
    if paths.len() == 0 {
        assert(log(states[0]) + all =~= log(states[0]));
    } else {
        let n = paths.len() - 1;
        let fewer = paths.drop_last();
        let earlier = states.drop_last();
        let before = outcomes.drop_last();
        assert forall|i: int| 0 <= i < fewer.len() implies call_ensures(
            apply,
            (earlier[i], &fewer[i]),
            (earlier[i + 1], #[trigger] before[i]),
        ) by {
            assert(before[i] == outcomes[i]);
            assert(earlier[i] == states[i] && earlier[i + 1] == states[i + 1]);
        }
        calls_are_the_paths_in_order(apply, fewer, earlier, before, log);
        assert(call_ensures(apply, (states[n], &paths[n]), (states[n + 1], outcomes[n])));
        assert(log(states[0]) + all =~= (log(states[0]) + discovery::path_views(fewer)).push(
            paths[n]@,
        ));
    }
}

/// A failure is counted exactly when some application failed.
pub proof fn no_failure_means_all_succeeded<E>(outcomes: Seq<Result<(), E>>)
    ensures
        failures_among(outcomes) == 0 <==> forall|i: int|
            0 <= i < outcomes.len() ==> (#[trigger] outcomes[i]) is Ok,
        failures_among(outcomes) <= outcomes.len(),
    decreases outcomes.len(),
{
    if outcomes.len() > 0 {
        let fewer = outcomes.drop_last();
        no_failure_means_all_succeeded(fewer);
        assert(outcomes.last() == outcomes[outcomes.len() - 1]);
        if failures_among(outcomes) == 0 {
            assert forall|i: int| 0 <= i < outcomes.len() implies (#[trigger] outcomes[i]) is Ok by {
                if i < fewer.len() {
                    assert(fewer[i] is Ok);
                }
            }
        }
        if forall|i: int| 0 <= i < outcomes.len() ==> (#[trigger] outcomes[i]) is Ok {
            assert forall|i: int| 0 <= i < fewer.len() implies (#[trigger] fewer[i]) is Ok by {
                assert(outcomes[i] is Ok);
            }
        }
    }
}

/// True when `path` was among those tried, and no attempt on it failed.
pub open spec fn tried_well<E>(
    paths: Seq<TreePath>,
    outcomes: Seq<Result<(), E>>,
    path: PathView,
) -> bool {
    &&& discovery::path_views(paths).contains(path)
    &&& forall|i: int| 0 <= i < paths.len() && paths[i]@ == path ==> (#[trigger] outcomes[i]) is Ok
}

/// A one-shot scan, from the walk to the outcome: it succeeds exactly when every
/// path to mark below the root was tried and no attempt failed. Where the attempts
/// keep a log, it shows what the walk found, in that order and once each, whatever
/// failed, and nothing else. In a tree without names that occur twice no path is
/// tried twice. Nothing is to be watched.
pub proof fn one_shot_scan_is_exact<S, E, F: Fn(S, &TreePath) -> (S, Result<(), E>)>(
    world: World,
    rules: Seq<RuleView>,
    root: PathView,
    walk: Seq<WalkView>,
    matches: Seq<TreePath>,
    apply: F,
    states: Seq<S>,
    outcomes: Seq<Result<(), E>>,
    result: Result<usize, Failure>,
    log: spec_fn(S) -> Seq<PathView>,
)
    requires
        tree::is_walk(world, rules, root, false, walk),
        walk.last().done(),
        discovery::path_views(matches) == walk.last().found.matches,
        applied(apply, matches, states, outcomes),
        is_scan_result(outcomes, result),
    ensures
        result is Ok <==> forall|path: PathView| #[trigger]
            world.mark_target(rules, root, path) ==> tried_well(matches, outcomes, path),
        is_log_of(apply, log) ==> log(states.last()) == log(states[0])
            + walk.last().found.matches,
        forall|path: PathView| #[trigger]
            walk.last().found.matches.contains(path) <==> world.mark_target(rules, root, path),
        world.well_named() && world.distinctly_named()
            ==> walk.last().found.matches.no_duplicates(),
        walk.last().found.watchers.len() == 0,
{
    if is_log_of(apply, log) {
        calls_are_the_paths_in_order(apply, matches, states, outcomes, log);
    }
    let paths = discovery::path_views(matches);
    tree::walk_is_exact(world, rules, root, false, walk);
    no_failure_means_all_succeeded(outcomes);
    if world.well_named() && world.distinctly_named() {
        tree::walk_finds_nothing_twice(world, rules, root, false, walk);
    }
    let watchers = walk.last().found.watchers;
    if watchers.len() > 0 {
        assert(watchers.contains(watchers[0]));
    }
    if result is Ok {
        assert forall|path: PathView| #[trigger]
            world.mark_target(rules, root, path) implies tried_well(matches, outcomes, path) by {
            assert(paths.contains(path));
        }
    }
    if forall|path: PathView| #[trigger]
        world.mark_target(rules, root, path) ==> tried_well(matches, outcomes, path) {
        assert forall|i: int| 0 <= i < outcomes.len() implies (#[trigger] outcomes[i]) is Ok by {
            assert(paths[i] == matches[i]@);
            assert(paths.contains(paths[i]));
            assert(world.mark_target(rules, root, paths[i]));
        }
    }
}

/// Ensure the path exists and is a directory, given whether it is one, or
/// nothing if it could not be read.
pub fn ensure_directory(path: &TreePath, is_dir: Option<bool>) -> (result: Result<(), Failure>)
    ensures
        match result {
            Ok(_) => is_dir == Some(true),
            Err(Failure::NotADirectory(rejected)) => is_dir == Some(false)
                && rejected.is_copy_of(path),
            Err(Failure::UnreadableMetadata(unread)) => is_dir is None && unread.is_copy_of(path),
            Err(_) => false,
        },
{
    match is_dir {
        None => Err(Failure::UnreadableMetadata(path.clone())),
        Some(false) => Err(Failure::NotADirectory(path.clone())),
        Some(true) => Ok(()),
    }
}

/// Worst-case latency, in milliseconds, between a shutdown request and the loop
/// noticing it.
pub const POLL_TIMEOUT_MS: i32 = 500;

/// What the event loop does next.
#[derive(Clone, Copy, Debug, PartialEq, Eq, Structural)]
pub enum LoopTurn {
    /// Stop: a signal asked for it.
    Stop,
    /// Wait for events, for at most this many milliseconds. The limit lets the
    /// loop regain control periodically, so shutdown never depends on a signal
    /// interrupting the wait.
    Wait(i32),
}

/// Begins a turn of the event loop, given whether shutdown was requested.
pub fn loop_turn(shutdown: bool) -> (turn: LoopTurn)
    ensures
        turn == (if shutdown {
            LoopTurn::Stop
        } else {
            LoopTurn::Wait(POLL_TIMEOUT_MS)
        }),
{
    if shutdown {
        LoopTurn::Stop
    } else {
        LoopTurn::Wait(POLL_TIMEOUT_MS)
    }
}

/// Result of waiting for events.
#[derive(Clone, Copy, Debug, PartialEq, Eq, Structural)]
pub enum PollResult {
    /// Events are queued and ready to read.
    Readable,
    /// No events arrived within the window; wait again.
    TimedOut,
    /// A signal interrupted the wait; check for shutdown and wait again.
    Interrupted,
}

/// Takes what waiting for events returned, with the error code if it failed.
/// Fails on any error but an interruption.
pub fn poll_inotify(returned: i32, os_error: Option<i32>) -> (result: Result<PollResult, Failure>)
    ensures
        match result {
            Ok(PollResult::Interrupted) => returned == -1 && os_error == Some(
                kernel::interrupted(),
            ),
            Ok(PollResult::TimedOut) => returned == 0,
            Ok(PollResult::Readable) => returned != -1 && returned != 0,
            Err(Failure::PollFailed) => returned == -1 && os_error != Some(kernel::interrupted()),
            Err(_) => false,
        },
{
    if returned == -1 {
        let interrupted = match os_error {
            Some(code) => code == kernel::eintr(),
            None => false,
        };
        if interrupted {
            Ok(PollResult::Interrupted)
        } else {
            Err(Failure::PollFailed)
        }
    } else if returned == 0 {
        Ok(PollResult::TimedOut)
    } else {
        Ok(PollResult::Readable)
    }
}

/// Takes the failure to read events, given whether it only means that none are
/// queued. Events are read without blocking, so an empty queue is normal.
pub fn events_unread(would_block: bool) -> (result: Result<(), Failure>)
    ensures
        match result {
            Ok(_) => would_block,
            Err(Failure::EventsUnreadable) => !would_block,
            Err(_) => false,
        },
{
    if would_block {
        Ok(())
    } else {
        Err(Failure::EventsUnreadable)
    }
}

/// The failures that are counted are exactly the outcomes that are failures.
pub proof fn failures_are_counted<E>(outcomes: Seq<Result<(), E>>)
    ensures
        failures_among(outcomes) == outcomes.filter(|outcome: Result<(), E>| outcome is Err).len(),
    decreases outcomes.len(),
{
    reveal(Seq::filter);
    if outcomes.len() > 0 {
        failures_are_counted(outcomes.drop_last());
    }
}

/// A one-shot scan reports how many paths it tried, and fails exactly when at least
/// one of them failed, with how many did.
pub proof fn scan_reports_what_failed<E>(
    outcomes: Seq<Result<(), E>>,
    result: Result<usize, Failure>,
)
    requires
        is_scan_result(outcomes, result),
    ensures
        ({
            let failed = outcomes.filter(|outcome: Result<(), E>| outcome is Err).len();
            &&& result is Ok <==> failed == 0
            &&& result is Ok ==> result->Ok_0 == outcomes.len()
            &&& result is Err ==> result->Err_0 is ScanIncomplete
                && result->Err_0->failures == failed && result->Err_0->total == outcomes.len()
        }),
{
    failures_are_counted(outcomes);
}

} // verus!

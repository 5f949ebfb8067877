//! What a round without lost events has done when it is over.

use crate::discovery::InspectionView;
use crate::engine;
use crate::events::EventView;
use crate::events;
use crate::exactness;
use crate::path::PathView;
use crate::reconcile::{ActionView, ReconcileView, TaskView};
use crate::recovery;
use crate::recovery::RoundState;
use crate::round::{RoundStageView, RoundView};
use crate::rules::{CandidateView, FileType, RuleView};
use crate::sequence;
use crate::settling;
use crate::settling::JobState;
use crate::signals;
use crate::targets;
use crate::tree;
use crate::tree::World;
use crate::watch::RegistryView;
use vstd::prelude::*;

verus! {

/// The paths that a task is still to rescan.
pub open spec fn to_be_rescanned(tasks: Seq<TaskView>) -> Set<PathView> {
    Set::new(
        |path: PathView|
            exists|k: int|
                0 <= k < tasks.len() && (#[trigger] tasks[k]) is Rescan && path.starts_with(
                    settling::place_of(tasks[k]),
                ),
    )
}

/// The paths that are to be watched in the tree below a directory that a task
/// seeds.
pub open spec fn to_be_seeded(
    world: World,
    rules: Seq<RuleView>,
    tasks: Seq<TaskView>,
    path: PathView,
) -> bool {
    exists|k: int|
        0 <= k < tasks.len() && (#[trigger] tasks[k]) is Seed && world.watch_target(
            rules,
            settling::place_of(tasks[k]),
            path,
        )
}

/// True when the work takes a descriptor from another path only where that path is
/// still to be rescanned. So it goes with a directory that was renamed.
pub open spec fn evicts_what_is_rescanned(states: Seq<JobState>) -> bool {
    forall|i: int, j: int|
        0 <= i && j == i + 1 && j < states.len() ==> #[trigger] states[i].evicts_only(
            to_be_rescanned(states[i].job.tasks),
            states[j],
        )
}

/// True when the walk from the root comes to `place`, or nothing goes into it.
pub open spec fn is_sound(
    world: World,
    rules: Seq<RuleView>,
    root: PathView,
    place: PathView,
) -> bool {
    &&& exactness::at_or_below(place, root)
    &&& world.reached(rules, root, place) || !world.descended(rules, place)
}

/// True when the tasks are to seed directories and then to rescan sound places.
pub open spec fn are_in_order(
    world: World,
    rules: Seq<RuleView>,
    root: PathView,
    tasks: Seq<TaskView>,
) -> bool {
    &&& forall|k: int|
        0 <= k < tasks.len() ==> (#[trigger] tasks[k]) is Seed || (tasks[k] is Rescan && is_sound(
            world,
            rules,
            root,
            settling::place_of(tasks[k]),
        ))
    &&& forall|j: int, k: int|
        0 <= j < k < tasks.len() && (#[trigger] tasks[k]) is Seed ==> (#[trigger] tasks[j]) is Seed
}

/// What is to be watched below a sound place is to be watched below the root, and
/// the other way round for what lies below the place.
proof fn sound_places_agree(
    world: World,
    rules: Seq<RuleView>,
    root: PathView,
    place: PathView,
    path: PathView,
)
    requires
        world.well_named(),
        root.absolute,
        is_sound(world, rules, root, place),
    ensures
        world.watch_target(rules, place, path) ==> world.watch_target(rules, root, path)
            && path.starts_with(place),
        path.starts_with(place) ==> (world.watch_target(rules, place, path)
            <==> world.watch_target(rules, root, path)),
{
    if world.watch_target(rules, place, path) {
        tree::walk_stays_below_start(world, rules, place, path);
    }
    if path.starts_with(place) {
        if world.reached(rules, root, place) {
            exactness::walks_agree_below(world, rules, root, place, path);
        } else {
            if world.watch_target(rules, place, path) {
                let steps = choose|steps: nat| world.reached_in(rules, place, steps, path);
                settling::nothing_below_a_skipped_start(world, rules, place, steps, path);
            }
            if world.watch_target(rules, root, path) {
                let steps = choose|steps: nat| world.reached_in(rules, root, steps, path);
                exactness::reached_by_way_of(world, rules, root, place, path, steps);
            }
        }
    }
}

/// The work on the first task evicts nothing but what the others are to rescan.
proof fn first_task_evicts_what_is_rescanned(
    world: World,
    rules: Seq<RuleView>,
    task: TaskView,
    rest: Seq<TaskView>,
    states: Seq<JobState>,
    k: int,
)
    requires
        0 < k < states.len(),
        evicts_what_is_rescanned(states),
        forall|i: int|
            0 <= i < k ==> recovery::in_first_task((#[trigger] states[i]).job, task, rest),
    ensures
        settling::evict_only(states.take(k + 1), to_be_rescanned(rest)),
        evicts_what_is_rescanned(states.skip(k)),
{
    let prefix = states.take(k + 1);
    assert forall|i: int, j: int| 0 <= i && j == i + 1 && j < prefix.len() implies #[trigger]
        prefix[i].evicts_only(to_be_rescanned(rest), prefix[j]) by {
        assert(prefix[i] == states[i]);
        assert(prefix[j] == states[j]);
        assert(recovery::in_first_task(states[i].job, task, rest));
        assert(states[i].evicts_only(to_be_rescanned(states[i].job.tasks), states[j]));
    }
    let left = states.skip(k);
    assert forall|i: int, j: int| 0 <= i && j == i + 1 && j < left.len() implies #[trigger]
        left[i].evicts_only(to_be_rescanned(left[i].job.tasks), left[j]) by {
        assert(left[i] == states[k + i]);
        assert(left[j] == states[k + j]);
        assert(states[k + i].evicts_only(to_be_rescanned(states[k + i].job.tasks), states[k + j]));
    }
}

/// What the first task adds to what the others come to.
proof fn tasks_with_one_more(
    world: World,
    rules: Seq<RuleView>,
    task: TaskView,
    rest: Seq<TaskView>,
    path: PathView,
)
    ensures
        to_be_rescanned(seq![task] + rest).contains(path) <==> to_be_rescanned(rest).contains(path)
            || (task is Rescan && path.starts_with(settling::place_of(task))),
        to_be_seeded(world, rules, seq![task] + rest, path) <==> to_be_seeded(
            world,
            rules,
            rest,
            path,
        ) || (task is Seed && world.watch_target(rules, settling::place_of(task), path)),
{
    let all = seq![task] + rest;
    assert(all[0] == task);
    if to_be_rescanned(rest).contains(path) {
        let k = choose|k: int|
            0 <= k < rest.len() && (#[trigger] rest[k]) is Rescan && path.starts_with(
                settling::place_of(rest[k]),
            );
        assert(all[k + 1] == rest[k]);
    }
    if to_be_rescanned(all).contains(path) {
        let k = choose|k: int|
            0 <= k < all.len() && (#[trigger] all[k]) is Rescan && path.starts_with(
                settling::place_of(all[k]),
            );
        if k > 0 {
            assert(all[k] == rest[k - 1]);
        }
    }
    if to_be_seeded(world, rules, rest, path) {
        let k = choose|k: int|
            0 <= k < rest.len() && (#[trigger] rest[k]) is Seed && world.watch_target(
                rules,
                settling::place_of(rest[k]),
                path,
            );
        assert(all[k + 1] == rest[k]);
    }
    if to_be_seeded(world, rules, all, path) {
        let k = choose|k: int|
            0 <= k < all.len() && (#[trigger] all[k]) is Seed && world.watch_target(
                rules,
                settling::place_of(all[k]),
                path,
            );
        if k > 0 {
            assert(all[k] == rest[k - 1]);
        }
    }
}

/// The tasks that follow the first are in order, too.
proof fn order_is_kept(
    world: World,
    rules: Seq<RuleView>,
    root: PathView,
    task: TaskView,
    rest: Seq<TaskView>,
)
    requires
        are_in_order(world, rules, root, seq![task] + rest),
    ensures
        are_in_order(world, rules, root, rest),
{
    let all = seq![task] + rest;
    assert forall|k: int| 0 <= k < rest.len() implies (#[trigger] rest[k]) is Seed || (rest[k]
        is Rescan && is_sound(world, rules, root, settling::place_of(rest[k]))) by {
        assert(all[k + 1] == rest[k]);
    }
    assert forall|j: int, k: int|
        0 <= j < k < rest.len() && (#[trigger] rest[k]) is Seed implies (#[trigger] rest[j])
            is Seed by {
        assert(all[k + 1] == rest[k]);
        assert(all[j + 1] == rest[j]);
    }
}

/// True when the work has at some point handed over for marking exactly what is to
/// be marked below `place`.
pub open spec fn has_marked_below(
    world: World,
    rules: Seq<RuleView>,
    states: Seq<JobState>,
    place: PathView,
) -> bool {
    exists|n: int|
        0 <= n < states.len() && (#[trigger] states[n]).job.to_mark() is Some
            && settling::are_mark_targets(world, rules, place, states[n].job.to_mark()->0)
}

/// True when `paths` are exactly what is to be marked below the directory of one of
/// the tasks.
pub open spec fn marks_for_some(
    world: World,
    rules: Seq<RuleView>,
    tasks: Seq<TaskView>,
    paths: Seq<PathView>,
) -> bool {
    exists|k: int|
        0 <= k < tasks.len() && settling::are_mark_targets(
            world,
            rules,
            settling::place_of(#[trigger] tasks[k]),
            paths,
        )
}

/// What all tasks together come to. In a place that was rescanned, a path is
/// watched exactly when it is to be watched below the root. Elsewhere a path is
/// watched if it was before, or if it is to be watched below a directory that was
/// seeded. In every place, exactly what is to be marked there was handed over for
/// marking, and nothing else was.
pub proof fn all_tasks_are_done(
    world: World,
    rules: Seq<RuleView>,
    root: PathView,
    tasks: Seq<TaskView>,
    states: Seq<JobState>,
)
    requires
        world.well_named(),
        root.absolute,
        are_in_order(world, rules, root, tasks),
        settling::is_work(world, rules, states),
        states[0].job == ReconcileView::of(tasks),
        states.last().job == ReconcileView::of(Seq::empty()),
        evicts_what_is_rescanned(states),
    ensures
        forall|path: PathView| #[trigger]
            states.last().registry.contains_path(path) <==> if to_be_rescanned(tasks).contains(
                path,
            ) {
                world.watch_target(rules, root, path)
            } else {
                states[0].registry.contains_path(path) || to_be_seeded(world, rules, tasks, path)
            },
        forall|k: int|
            0 <= k < tasks.len() ==> has_marked_below(
                world,
                rules,
                states,
                settling::place_of(#[trigger] tasks[k]),
            ),
        forall|n: int|
            0 <= n < states.len() && (#[trigger] states[n]).job.to_mark() is Some ==> marks_for_some(
                world,
                rules,
                tasks,
                states[n].job.to_mark()->0,
            ),
    decreases tasks.len(),
{
    if tasks.len() == 0 {
        assert forall|n: int| 0 <= n < states.len() implies (
        #[trigger] states[n]).job.to_mark() is None by {
            assert(tasks =~= Seq::<TaskView>::empty());
            recovery::finished_work_rests(world, rules, states, n);
        }
        assert(tasks =~= Seq::<TaskView>::empty());
        recovery::finished_work_rests(world, rules, states, states.len() - 1);
    } else {
        let task = tasks[0];
        let rest = tasks.drop_first();
        assert(tasks =~= seq![task] + rest);
        let k = recovery::first_task_is_done(world, rules, task, rest, states, 0);
        let prefix = states.take(k + 1);
        let left = states.skip(k);
        recovery::rest_of_work(world, rules, states, k);
        first_task_evicts_what_is_rescanned(world, rules, task, rest, states, k);
        assert(left[0] == prefix.last());
        order_is_kept(world, rules, root, task, rest);
        all_tasks_are_done(world, rules, root, rest, left);
        first_task_and_the_rest(world, rules, root, task, rest, prefix, left);
        let n = settling::settled_work_has_marked(world, rules, task, rest, prefix);
        assert(prefix[n] == states[n]);
        assert forall|m: int|
            0 <= m < states.len() && (#[trigger] states[m]).job.to_mark() is Some implies marks_for_some(
            world,
            rules,
            tasks,
            states[m].job.to_mark()->0,
        ) by {
            if m < k {
                assert(prefix[m] == states[m]);
                settling::marking_is_exact(
                    world,
                    rules,
                    task,
                    rest,
                    prefix,
                    m,
                    states[m].job.walk()->0,
                );
                assert(settling::place_of(tasks[0]) == settling::place_of(task));
            } else {
                assert(left[m - k] == states[m]);
                let at = choose|at: int|
                    0 <= at < rest.len() && settling::are_mark_targets(
                        world,
                        rules,
                        settling::place_of(#[trigger] rest[at]),
                        states[m].job.to_mark()->0,
                    );
                assert(tasks[at + 1] == rest[at]);
            }
        }
        assert forall|m: int| 0 <= m < tasks.len() implies has_marked_below(
            world,
            rules,
            states,
            settling::place_of(#[trigger] tasks[m]),
        ) by {
            if m > 0 {
                assert(tasks[m] == rest[m - 1]);
                let at = choose|at: int|
                    0 <= at < left.len() && (#[trigger] left[at]).job.to_mark() is Some
                        && settling::are_mark_targets(
                        world,
                        rules,
                        settling::place_of(rest[m - 1]),
                        left[at].job.to_mark()->0,
                    );
                assert(left[at] == states[k + at]);
            }
        }
    }
}

/// The registry after the first task and the others.
proof fn first_task_and_the_rest(
    world: World,
    rules: Seq<RuleView>,
    root: PathView,
    task: TaskView,
    rest: Seq<TaskView>,
    first: Seq<JobState>,
    left: Seq<JobState>,
)
    requires
        world.well_named(),
        root.absolute,
        are_in_order(world, rules, root, seq![task] + rest),
        settling::settles(world, rules, task, rest, first),
        settling::evict_only(first, to_be_rescanned(rest)),
        left[0] == first.last(),
        forall|path: PathView| #[trigger]
            left.last().registry.contains_path(path) <==> if to_be_rescanned(rest).contains(path) {
                world.watch_target(rules, root, path)
            } else {
                left[0].registry.contains_path(path) || to_be_seeded(world, rules, rest, path)
            },
    ensures
        forall|path: PathView| #[trigger]
            left.last().registry.contains_path(path) <==> if to_be_rescanned(
                seq![task] + rest,
            ).contains(path) {
                world.watch_target(rules, root, path)
            } else {
                first[0].registry.contains_path(path) || to_be_seeded(
                    world,
                    rules,
                    seq![task] + rest,
                    path,
                )
            },
{
    let all = seq![task] + rest;
    let place = settling::place_of(task);
    let spare = to_be_rescanned(rest);
    let before = first[0].registry;
    let middle = first.last().registry;
    assert(all[0] == task);
    settling::settling_is_exact(world, rules, task, rest, first, spare);
    assert forall|path: PathView| #[trigger]
        left.last().registry.contains_path(path) <==> if to_be_rescanned(all).contains(path) {
            world.watch_target(rules, root, path)
        } else {
            before.contains_path(path) || to_be_seeded(world, rules, all, path)
        } by {
        tasks_with_one_more(world, rules, task, rest, path);
        if task is Rescan {
            sound_places_agree(world, rules, root, place, path);
        }
        assert(before.contains_path(path) && (task is Seed || !path.starts_with(place))
            && !spare.contains(path) ==> settling::keeps(before, middle, path));
        assert(world.watch_target(rules, place, path) && !spare.contains(path)
            ==> middle.contains_path(path));
        if to_be_seeded(world, rules, rest, path) {
            let k = choose|k: int|
                0 <= k < rest.len() && (#[trigger] rest[k]) is Seed && world.watch_target(
                    rules,
                    settling::place_of(rest[k]),
                    path,
                );
            assert(all[k + 1] == rest[k]);
            assert(all[0] is Seed);
        }
    }
}

/// True when `sights` are what was seen of the entries that the events of the round
/// are about.
pub open spec fn are_sights(
    rules: Seq<RuleView>,
    events: Seq<EventView>,
    states: Seq<RoundState>,
    sights: Seq<Option<InspectionView>>,
) -> bool {
    &&& sights.len() == events.len()
    &&& events.len() < states.len()
    &&& forall|i: int, j: int|
        0 <= i < events.len() && j == i + 1 ==> #[trigger] sees(
            rules,
            states[i],
            sights[i],
            states[j],
        )
}

/// True when the next event was taken with `seen` for the entry that it is about.
pub open spec fn sees(
    rules: Seq<RuleView>,
    now: RoundState,
    seen: Option<InspectionView>,
    next: RoundState,
) -> bool {
    exists|marking: Seq<PathView>| #[trigger] now.takes_event(rules, seen, marking, next)
}

/// True when what was seen at `path` is a directory, and the first rule that matches
/// it, if any, lets the walk go into it.
pub open spec fn is_open_directory(
    rules: Seq<RuleView>,
    path: PathView,
    seen: Option<InspectionView>,
) -> bool {
    match seen {
        Some(inspection) => {
            &&& inspection.file_type == FileType::Directory
            &&& forall|k: int| #[trigger]
                targets::decides(
                    rules,
                    CandidateView {
                        path,
                        file_type: FileType::Directory,
                        siblings: inspection.siblings,
                    },
                    k,
                ) ==> !rules[k].action.skip_descendants
        },
        None => false,
    }
}

/// The directories that appeared with the first `n` events and are to be gone into,
/// in order.
pub open spec fn new_directories(
    rules: Seq<RuleView>,
    events: Seq<EventView>,
    states: Seq<RoundState>,
    sights: Seq<Option<InspectionView>>,
    n: int,
) -> Seq<PathView>
    decreases n,
{
    if n <= 0 {
        Seq::empty()
    } else {
        let before = new_directories(rules, events, states, sights, n - 1);
        match signals::arrived(states[n - 1].registry, events[n - 1]) {
            Some(path) => if is_open_directory(rules, path, sights[n - 1]) {
                before.push(path)
            } else {
                before
            },
            None => before,
        }
    }
}

/// True when one of the first `n` events asks to rescan `dir`.
pub open spec fn asked_to_rescan(
    rules: Seq<RuleView>,
    events: Seq<EventView>,
    states: Seq<RoundState>,
    n: int,
    dir: PathView,
) -> bool {
    exists|i: int|
        0 <= i < n && #[trigger] signals::asks_to_rescan(
            rules,
            states[i].registry,
            events[i],
            dir,
        )
}

/// A directory is to be watched exactly when the first rule that matches lets the
/// walk go into it.
proof fn open_directories_are_watched(
    rules: Seq<RuleView>,
    path: PathView,
    seen: Option<InspectionView>,
)
    ensures
        is_open_directory(rules, path, seen) <==> seen is Some && events::planned(
            rules,
            (seen->0).candidate(path),
        ).watch_dir,
{
    if let Some(inspection) = seen {
        let candidate = inspection.candidate(path);
        engine::first_match_wins(rules, candidate);
        assert forall|k: int| #[trigger] targets::decides(rules, candidate, k) implies engine::is_first_match(
            rules,
            candidate,
            k,
        ) by {}
        if engine::verdict(rules, candidate) is Some {
            let k = choose|k: int| engine::is_first_match(rules, candidate, k);
            assert(targets::decides(rules, candidate, k));
        }
    }
}

/// What a batch has collected after `n` events: every directory that appeared and is
/// to be gone into, in order, every directory that an event asks to rescan, once,
/// and whether events were lost. Nothing else is collected, and nothing is lost.
pub proof fn batch_collects_what_events_ask(
    world: World,
    rules: Seq<RuleView>,
    root: PathView,
    events: Seq<EventView>,
    states: Seq<RoundState>,
    sights: Seq<Option<InspectionView>>,
    n: int,
)
    requires
        recovery::proceeds(world, rules, root, events, states),
        are_sights(rules, events, states, sights),
        0 <= n <= events.len(),
    ensures
        states[n].round.batch.pending_directories == new_directories(
            rules,
            events,
            states,
            sights,
            n,
        ),
        states[n].round.batch.needs_rescan <==> exists|i: int|
            0 <= i < n && signals::is_overflow(#[trigger] events[i]),
        states[n].round.batch.rescan_scopes.no_duplicates(),
        forall|dir: PathView| #[trigger]
            states[n].round.batch.rescan_scopes.contains(dir) <==> asked_to_rescan(
                rules,
                events,
                states,
                n,
                dir,
            ),
    decreases n,
{
    recovery::events_are_taken_in_turn(world, rules, root, events, states, n);
    if n > 0 {
        batch_collects_what_events_ask(world, rules, root, events, states, sights, n - 1);
        recovery::events_are_taken_in_turn(world, rules, root, events, states, n - 1);
        assert(states[n - 1].goes_on_to(world, rules, states[n]));
        assert(sees(rules, states[n - 1], sights[n - 1], states[n]));
        let before = states[n - 1];
        let event = events[n - 1];
        assert(before.round.events[0] == event);
        let taken = before.round.took_event(before.registry, rules);
        let means = events::reaction(before.registry, root, event);
        let path = before.registry.by_descriptor[event.descriptor];
        assert(states[n].round == taken.entry(rules, sights[n - 1]));
        sequence::contains_after_push(before.round.batch.rescan_scopes, path);
        sequence::distinct_after_push(before.round.batch.rescan_scopes, path);
        if let Some(entry) = signals::arrived(before.registry, event) {
            open_directories_are_watched(rules, entry, sights[n - 1]);
        }
        assert forall|dir: PathView| #[trigger]
            states[n].round.batch.rescan_scopes.contains(dir) <==> asked_to_rescan(
                rules,
                events,
                states,
                n,
                dir,
            ) by {
            one_more_event(rules, events, states, n, dir);
        }
    }
}

/// One more event asks for a rescan if it does, or if one before it does.
proof fn one_more_event(
    rules: Seq<RuleView>,
    events: Seq<EventView>,
    states: Seq<RoundState>,
    n: int,
    dir: PathView,
)
    requires
        n > 0,
    ensures
        asked_to_rescan(rules, events, states, n, dir) <==> asked_to_rescan(
            rules,
            events,
            states,
            n - 1,
            dir,
        ) || signals::asks_to_rescan(rules, states[n - 1].registry, events[n - 1], dir),
{
    if asked_to_rescan(rules, events, states, n, dir) {
        let i = choose|i: int|
            0 <= i < n && #[trigger] signals::asks_to_rescan(
                rules,
                states[i].registry,
                events[i],
                dir,
            );
        assert(i < n - 1 || i == n - 1);
    }
}

/// The work that follows the events: new directories are seeded in order; then
/// either every directory is rescanned, once, that an event asks to rescan, and no
/// other; or, when events were lost, the root is rescanned and required.
pub proof fn work_is_what_events_ask(
    world: World,
    rules: Seq<RuleView>,
    root: PathView,
    events: Seq<EventView>,
    states: Seq<RoundState>,
    sights: Seq<Option<InspectionView>>,
)
    requires
        recovery::proceeds(world, rules, root, events, states),
        are_sights(rules, events, states, sights),
        events.len() + 1 < states.len(),
    ensures
        ({
            let count = events.len() as int;
            let new = new_directories(rules, events, states, sights, count);
            let tasks = states[count + 1].round.job()->0.tasks;
            &&& states[count + 1].round.job() is Some
            &&& states[count + 1].round.job()->0.stage is Idle
            &&& states[count + 1].registry == states[count].registry
            &&& new.len() <= tasks.len()
            &&& forall|k: int| 0 <= k < new.len() ==> #[trigger] tasks[k] == TaskView::Seed(new[k])
            &&& if exists|i: int| 0 <= i < count && signals::is_overflow(#[trigger] events[i]) {
                &&& tasks.len() == new.len() + 2
                &&& tasks[new.len() as int] == TaskView::Rescan(root)
                &&& tasks[new.len() as int + 1] == TaskView::RequireRoot(root)
            } else {
                &&& forall|k: int|
                    new.len() <= k < tasks.len() ==> (#[trigger] tasks[k]) is Rescan
                        && asked_to_rescan(rules, events, states, count, tasks[k]->Rescan_0)
                &&& forall|dir: PathView| #[trigger]
                    asked_to_rescan(rules, events, states, count, dir) ==> tasks.contains(
                        TaskView::Rescan(dir),
                    )
                &&& forall|j: int, k: int|
                    new.len() <= j < k < tasks.len() ==> #[trigger] tasks[j] != #[trigger] tasks[k]
            }
        }),
{
    let count = events.len() as int;
    let new = new_directories(rules, events, states, sights, count);
    recovery::events_are_taken_in_turn(world, rules, root, events, states, count);
    assert(states[count].goes_on_to(world, rules, states[count + 1]));
    batch_collects_what_events_ask(world, rules, root, events, states, sights, count);
    let batch = states[count].round.batch;
    let scopes = batch.rescan_scopes;
    let tasks = batch.tasks(root);
    assert(states[count + 1].round.job()->0.tasks == tasks);
    if !batch.needs_rescan {
        assert forall|k: int|
            new.len() <= k < tasks.len() implies #[trigger] tasks[k] == TaskView::Rescan(
            scopes[k - new.len()],
        ) && scopes.contains(scopes[k - new.len()]) by {}
        assert forall|dir: PathView| #[trigger]
            asked_to_rescan(rules, events, states, count, dir) implies tasks.contains(
            TaskView::Rescan(dir),
        ) by {
            assert(scopes.contains(dir));
            let k = choose|k: int| 0 <= k < scopes.len() && scopes[k] == dir;
            assert(tasks[new.len() + k] == TaskView::Rescan(dir));
        }
    }
}

/// True when the round has at some point handed over for marking exactly what is to
/// be marked below `place`.
pub open spec fn round_has_marked_below(
    world: World,
    rules: Seq<RuleView>,
    states: Seq<RoundState>,
    place: PathView,
) -> bool {
    exists|n: int| #[trigger] hands_over(world, rules, states, place, n)
}

/// True when step `n` of the round hands over exactly what is to be marked below
/// `place`.
pub open spec fn hands_over(
    world: World,
    rules: Seq<RuleView>,
    states: Seq<RoundState>,
    place: PathView,
    n: int,
) -> bool {
    &&& 0 <= n < states.len() - 1
    &&& forall|marking: Seq<PathView>| #[trigger]
        states[n].steps_to(world, rules, marking, states[n + 1]) ==> forall|path: PathView|
            #[trigger]
            marking.contains(path) <==> world.mark_target(rules, place, path)
}

/// True when step `n` of the round hands over `path` for marking.
pub open spec fn is_handed_over(
    world: World,
    rules: Seq<RuleView>,
    states: Seq<RoundState>,
    n: int,
    path: PathView,
) -> bool {
    exists|marking: Seq<PathView>| #[trigger]
        states[n].steps_to(world, rules, marking, states[n + 1]) && marking.contains(path)
}

/// True when an event of the round asks to rescan `dir`, or `dir` appeared and is to
/// be gone into.
pub open spec fn is_brought_in_line(
    rules: Seq<RuleView>,
    events: Seq<EventView>,
    states: Seq<RoundState>,
    sights: Seq<Option<InspectionView>>,
    dir: PathView,
) -> bool {
    let count = events.len() as int;
    ||| asked_to_rescan(rules, events, states, count, dir)
    ||| new_directories(rules, events, states, sights, count).contains(dir)
}

/// True when every watch is granted under a descriptor that is not in use, or that
/// stood for a path which is still to be rescanned. So it goes in a tree that holds
/// still: a descriptor is in use already only where its directory was renamed, and
/// the path that it had is rescanned.
pub open spec fn round_evicts_what_is_rescanned(states: Seq<RoundState>) -> bool {
    forall|i: int, j: int|
        0 <= i && j == i + 1 && j < states.len() && states[i].round.job() is Some ==> #[trigger]
            states[i].job_state().evicts_only(
                to_be_rescanned(states[i].round.job()->0.tasks),
                states[j].job_state(),
            )
}

/// The work of a round without lost events is over when the round is.
proof fn round_works_off_its_tasks(
    world: World,
    rules: Seq<RuleView>,
    root: PathView,
    events: Seq<EventView>,
    states: Seq<RoundState>,
    sights: Seq<Option<InspectionView>>,
)
    requires
        world.well_named(),
        root.absolute,
        recovery::completes(world, rules, root, events, states),
        are_sights(rules, events, states, sights),
        forall|i: int| 0 <= i < events.len() ==> !signals::is_overflow(#[trigger] events[i]),
        round_evicts_what_is_rescanned(states),
        forall|dir: PathView| #[trigger]
            asked_to_rescan(rules, events, states, events.len() as int, dir) ==> is_sound(
                world,
                rules,
                root,
                dir,
            ),
    ensures
        ({
            let count = events.len() as int;
            let jobs = recovery::jobs_of(events, states);
            let tasks = states[count + 1].round.job()->0.tasks;
            &&& count + 1 < states.len()
            &&& forall|path: PathView| #[trigger]
                states.last().registry.contains_path(path) <==> if to_be_rescanned(
                    tasks,
                ).contains(path) {
                    world.watch_target(rules, root, path)
                } else {
                    states[count].registry.contains_path(path) || to_be_seeded(
                        world,
                        rules,
                        tasks,
                        path,
                    )
                }
            &&& forall|k: int|
                0 <= k < tasks.len() ==> has_marked_below(
                    world,
                    rules,
                    jobs,
                    settling::place_of(#[trigger] tasks[k]),
                )
            &&& forall|n: int|
                0 <= n < jobs.len() && (#[trigger] jobs[n]).job.to_mark() is Some
                    ==> marks_for_some(world, rules, tasks, jobs[n].job.to_mark()->0)
        }),
{
    let count = events.len() as int;
    recovery::events_come_to_an_end(world, rules, root, events, states);
    recovery::round_becomes_work(world, rules, root, events, states);
    work_is_what_events_ask(world, rules, root, events, states, sights);
    let jobs = recovery::jobs_of(events, states);
    let tasks = states[count + 1].round.job()->0.tasks;
    assert(jobs[0] == states[count + 1].job_state());
    assert(jobs[0].job == ReconcileView::of(tasks));
    tasks_are_in_order(world, rules, root, events, states, sights, tasks);
    jobs_evict_what_is_rescanned(world, rules, root, events, states);
    all_tasks_are_done(world, rules, root, tasks, jobs);
    assert forall|path: PathView| #[trigger]
        states.last().registry.contains_path(path) <==> if to_be_rescanned(tasks).contains(path) {
            world.watch_target(rules, root, path)
        } else {
            states[count].registry.contains_path(path) || to_be_seeded(world, rules, tasks, path)
        } by {
        assert(jobs.last().registry.contains_path(path) == states.last().registry.contains_path(
            path,
        ));
    }
}

/// What the tasks of a round without lost events are about.
proof fn tasks_of_a_round(
    world: World,
    rules: Seq<RuleView>,
    root: PathView,
    events: Seq<EventView>,
    states: Seq<RoundState>,
    sights: Seq<Option<InspectionView>>,
    path: PathView,
)
    requires
        recovery::proceeds(world, rules, root, events, states),
        are_sights(rules, events, states, sights),
        events.len() + 1 < states.len(),
        forall|i: int| 0 <= i < events.len() ==> !signals::is_overflow(#[trigger] events[i]),
    ensures
        ({
            let count = events.len() as int;
            let new = new_directories(rules, events, states, sights, count);
            let tasks = states[count + 1].round.job()->0.tasks;
            &&& to_be_rescanned(tasks).contains(path) <==> exists|dir: PathView|
                #[trigger] asked_to_rescan(rules, events, states, count, dir)
                    && path.starts_with(dir)
            &&& to_be_seeded(world, rules, tasks, path) <==> exists|k: int|
                0 <= k < new.len() && world.watch_target(rules, #[trigger] new[k], path)
        }),
{
    let count = events.len() as int;
    let new = new_directories(rules, events, states, sights, count);
    let tasks = states[count + 1].round.job()->0.tasks;
    work_is_what_events_ask(world, rules, root, events, states, sights);
    if to_be_rescanned(tasks).contains(path) {
        let k = choose|k: int|
            0 <= k < tasks.len() && (#[trigger] tasks[k]) is Rescan && path.starts_with(
                settling::place_of(tasks[k]),
            );
        assert(asked_to_rescan(rules, events, states, count, settling::place_of(tasks[k])));
    }
    if exists|dir: PathView|
        #[trigger] asked_to_rescan(rules, events, states, count, dir) && path.starts_with(dir) {
        let dir = choose|dir: PathView|
            #[trigger] asked_to_rescan(rules, events, states, count, dir) && path.starts_with(dir);
        let k = choose|k: int| 0 <= k < tasks.len() && tasks[k] == TaskView::Rescan(dir);
        assert(tasks[k] is Rescan);
    }
    if to_be_seeded(world, rules, tasks, path) {
        let k = choose|k: int|
            0 <= k < tasks.len() && (#[trigger] tasks[k]) is Seed && world.watch_target(
                rules,
                settling::place_of(tasks[k]),
                path,
            );
        assert(world.watch_target(rules, new[k], path));
    }
    if exists|k: int| 0 <= k < new.len() && world.watch_target(rules, #[trigger] new[k], path) {
        let k = choose|k: int|
            0 <= k < new.len() && world.watch_target(rules, #[trigger] new[k], path);
        assert(tasks[k] == TaskView::Seed(new[k]));
    }
}

/// What a round without lost events leaves watched, in a tree that holds still.
///
/// Every directory that one of its events asks to rescan is brought in line: a path
/// at or below it is watched exactly when it is to be watched below the root. Any
/// other path is watched if it was when the events were taken, or if it is to be
/// watched below a directory that appeared, and not otherwise. A directory that
/// appeared is watched, if it is to be watched below the root.
pub proof fn round_watches_what_its_events_ask(
    world: World,
    rules: Seq<RuleView>,
    root: PathView,
    events: Seq<EventView>,
    states: Seq<RoundState>,
    sights: Seq<Option<InspectionView>>,
)
    requires
        world.well_named(),
        root.absolute,
        recovery::completes(world, rules, root, events, states),
        are_sights(rules, events, states, sights),
        forall|i: int| 0 <= i < events.len() ==> !signals::is_overflow(#[trigger] events[i]),
        round_evicts_what_is_rescanned(states),
        forall|dir: PathView| #[trigger]
            asked_to_rescan(rules, events, states, events.len() as int, dir) ==> is_sound(
                world,
                rules,
                root,
                dir,
            ),
    ensures
        ({
            let count = events.len() as int;
            let new = new_directories(rules, events, states, sights, count);
            let last = states.last().registry;
            &&& forall|path: PathView, dir: PathView|
                #![trigger last.contains_path(path), asked_to_rescan(
                    rules,
                    events,
                    states,
                    count,
                    dir,
                )]
                asked_to_rescan(rules, events, states, count, dir) && path.starts_with(dir) ==> (
                last.contains_path(path) <==> world.watch_target(rules, root, path))
            &&& forall|path: PathView|
                #![trigger last.contains_path(path)]
                (forall|dir: PathView| #[trigger]
                    asked_to_rescan(rules, events, states, count, dir) ==> !path.starts_with(dir))
                    ==> (last.contains_path(path) <==> states[count].registry.contains_path(path)
                    || exists|k: int|
                    0 <= k < new.len() && world.watch_target(rules, #[trigger] new[k], path))
            &&& forall|k: int|
                0 <= k < new.len() && world.watch_target(rules, root, #[trigger] new[k])
                    ==> last.contains_path(new[k])
        }),
{
    let count = events.len() as int;
    let new = new_directories(rules, events, states, sights, count);
    let last = states.last().registry;
    let tasks = states[count + 1].round.job()->0.tasks;
    round_works_off_its_tasks(world, rules, root, events, states, sights);
    assert forall|path: PathView, dir: PathView|
        #![trigger last.contains_path(path), asked_to_rescan(rules, events, states, count, dir)]
        asked_to_rescan(rules, events, states, count, dir) && path.starts_with(dir) implies (
    last.contains_path(path) <==> world.watch_target(rules, root, path)) by {
        tasks_of_a_round(world, rules, root, events, states, sights, path);
    }
    assert forall|path: PathView|
        #![trigger last.contains_path(path)]
        (forall|dir: PathView| #[trigger]
            asked_to_rescan(rules, events, states, count, dir) ==> !path.starts_with(
                dir,
            )) implies (last.contains_path(path) <==> states[count].registry.contains_path(path)
        || exists|k: int|
        0 <= k < new.len() && world.watch_target(rules, #[trigger] new[k], path)) by {
        tasks_of_a_round(world, rules, root, events, states, sights, path);
    }
    assert forall|k: int|
        0 <= k < new.len() && world.watch_target(rules, root, #[trigger] new[k]) implies (
    last.contains_path(new[k])) by {
        assert(world.reached_in(rules, new[k], 0, new[k]));
        assert(world.watch_target(rules, new[k], new[k]));
        tasks_of_a_round(world, rules, root, events, states, sights, new[k]);
    }
}

/// What a round without lost events hands over for marking once its events are
/// taken, in a tree that holds still: for every directory that one of its events
/// asks to rescan, and for every directory that appeared and is to be gone into,
/// exactly what is to be marked below it, and nothing else.
pub proof fn round_marks_what_its_events_ask(
    world: World,
    rules: Seq<RuleView>,
    root: PathView,
    events: Seq<EventView>,
    states: Seq<RoundState>,
    sights: Seq<Option<InspectionView>>,
)
    requires
        world.well_named(),
        root.absolute,
        recovery::completes(world, rules, root, events, states),
        are_sights(rules, events, states, sights),
        forall|i: int| 0 <= i < events.len() ==> !signals::is_overflow(#[trigger] events[i]),
        round_evicts_what_is_rescanned(states),
        forall|dir: PathView| #[trigger]
            asked_to_rescan(rules, events, states, events.len() as int, dir) ==> is_sound(
                world,
                rules,
                root,
                dir,
            ),
    ensures
        ({
            let count = events.len() as int;
            let new = new_directories(rules, events, states, sights, count);
            &&& forall|dir: PathView| #[trigger]
                asked_to_rescan(rules, events, states, count, dir) ==> round_has_marked_below(
                    world,
                    rules,
                    states,
                    dir,
                )
            &&& forall|k: int|
                0 <= k < new.len() ==> round_has_marked_below(
                    world,
                    rules,
                    states,
                    #[trigger] new[k],
                )
            &&& forall|n: int, path: PathView|
                count < n < states.len() - 1 && #[trigger] is_handed_over(
                    world,
                    rules,
                    states,
                    n,
                    path,
                ) ==> exists|dir: PathView| #[trigger]
                    is_brought_in_line(rules, events, states, sights, dir) && world.mark_target(
                        rules,
                        dir,
                        path,
                    )
        }),
{
    let count = events.len() as int;
    let new = new_directories(rules, events, states, sights, count);
    let tasks = states[count + 1].round.job()->0.tasks;
    let jobs = recovery::jobs_of(events, states);
    round_works_off_its_tasks(world, rules, root, events, states, sights);
    work_is_what_events_ask(world, rules, root, events, states, sights);
    assert forall|m: int| 0 <= m < tasks.len() implies round_has_marked_below(
        world,
        rules,
        states,
        settling::place_of(#[trigger] tasks[m]),
    ) by {
        round_marks_what_work_marks(
            world,
            rules,
            root,
            events,
            states,
            settling::place_of(tasks[m]),
        );
    }
    assert forall|dir: PathView| #[trigger]
        asked_to_rescan(rules, events, states, count, dir) implies round_has_marked_below(
        world,
        rules,
        states,
        dir,
    ) by {
        let k = choose|k: int| 0 <= k < tasks.len() && tasks[k] == TaskView::Rescan(dir);
        assert(settling::place_of(tasks[k]) == dir);
    }
    assert forall|k: int| 0 <= k < new.len() implies round_has_marked_below(
        world,
        rules,
        states,
        #[trigger] new[k],
    ) by {
        assert(tasks[k] == TaskView::Seed(new[k]));
        assert(settling::place_of(tasks[k]) == new[k]);
    }
    assert forall|n: int, path: PathView|
        count < n < states.len() - 1 && #[trigger] is_handed_over(
            world,
            rules,
            states,
            n,
            path,
        ) implies exists|dir: PathView| #[trigger]
        is_brought_in_line(rules, events, states, sights, dir) && world.mark_target(
            rules,
            dir,
            path,
        ) by {
        let at = n - count - 1;
        recovery::job_goes_on(world, rules, root, events, states, n);
        assert(jobs[at] == states[n].job_state());
        let marking = choose|marking: Seq<PathView>| #[trigger]
            states[n].steps_to(world, rules, marking, states[n + 1]) && marking.contains(path);
        let action = choose|action: ActionView| #[trigger]
            states[n].job_state().does(world, rules, action, states[n + 1].job_state())
                && marking == settling::marked_by(action);
        settling::marks_are_handed_over(
            world,
            rules,
            states[n].job_state(),
            action,
            states[n + 1].job_state(),
        );
        assert(jobs[at].job.to_mark() is Some);
        let k = choose|k: int|
            0 <= k < tasks.len() && settling::are_mark_targets(
                world,
                rules,
                settling::place_of(#[trigger] tasks[k]),
                marking,
            );
        let dir = settling::place_of(tasks[k]);
        if k < new.len() {
            assert(tasks[k] == TaskView::Seed(new[k]));
            assert(new.contains(dir));
        }
        assert(is_brought_in_line(rules, events, states, sights, dir));
    }
}

/// The tasks of a round without lost events are in order.
proof fn tasks_are_in_order(
    world: World,
    rules: Seq<RuleView>,
    root: PathView,
    events: Seq<EventView>,
    states: Seq<RoundState>,
    sights: Seq<Option<InspectionView>>,
    tasks: Seq<TaskView>,
)
    requires
        recovery::proceeds(world, rules, root, events, states),
        are_sights(rules, events, states, sights),
        events.len() + 1 < states.len(),
        tasks == states[events.len() as int + 1].round.job()->0.tasks,
        forall|i: int| 0 <= i < events.len() ==> !signals::is_overflow(#[trigger] events[i]),
        forall|dir: PathView| #[trigger]
            asked_to_rescan(rules, events, states, events.len() as int, dir) ==> is_sound(
                world,
                rules,
                root,
                dir,
            ),
    ensures
        are_in_order(world, rules, root, tasks),
{
    let new = new_directories(rules, events, states, sights, events.len() as int);
    work_is_what_events_ask(world, rules, root, events, states, sights);
    assert forall|k: int| 0 <= k < tasks.len() implies (#[trigger] tasks[k]) is Seed || (tasks[k]
        is Rescan && is_sound(world, rules, root, settling::place_of(tasks[k]))) by {
        if k < new.len() {
            assert(tasks[k] == TaskView::Seed(new[k]));
        } else {
            assert(asked_to_rescan(
                rules,
                events,
                states,
                events.len() as int,
                settling::place_of(tasks[k]),
            ));
        }
    }
    assert forall|j: int, k: int|
        0 <= j < k < tasks.len() && (#[trigger] tasks[k]) is Seed implies (#[trigger] tasks[j])
            is Seed by {
        if k < new.len() {
            assert(tasks[j] == TaskView::Seed(new[j]));
        }
    }
}

/// The work of a round evicts what the round does.
proof fn jobs_evict_what_is_rescanned(
    world: World,
    rules: Seq<RuleView>,
    root: PathView,
    events: Seq<EventView>,
    states: Seq<RoundState>,
)
    requires
        recovery::proceeds(world, rules, root, events, states),
        events.len() + 1 < states.len(),
        round_evicts_what_is_rescanned(states),
    ensures
        evicts_what_is_rescanned(recovery::jobs_of(events, states)),
{
    let jobs = recovery::jobs_of(events, states);
    assert forall|i: int, j: int| 0 <= i && j == i + 1 && j < jobs.len() implies #[trigger]
        jobs[i].evicts_only(to_be_rescanned(jobs[i].job.tasks), jobs[j]) by {
        let n = events.len() + 1 + i;
        recovery::job_goes_on(world, rules, root, events, states, n);
        assert(jobs[i] == states[n].job_state());
        assert(jobs[j] == states[n + 1].job_state());
        assert(states[n].job_state().evicts_only(
            to_be_rescanned(states[n].round.job()->0.tasks),
            states[n + 1].job_state(),
        ));
    }
}

/// What the work of a round has handed over, the round has.
proof fn round_marks_what_work_marks(
    world: World,
    rules: Seq<RuleView>,
    root: PathView,
    events: Seq<EventView>,
    states: Seq<RoundState>,
    place: PathView,
)
    requires
        recovery::completes(world, rules, root, events, states),
        events.len() + 1 < states.len(),
        has_marked_below(world, rules, recovery::jobs_of(events, states), place),
    ensures
        round_has_marked_below(world, rules, states, place),
{
    let jobs = recovery::jobs_of(events, states);
    let at = choose|at: int|
        0 <= at < jobs.len() && (#[trigger] jobs[at]).job.to_mark() is Some
            && settling::are_mark_targets(world, rules, place, jobs[at].job.to_mark()->0);
    let n = events.len() + 1 + at;
    recovery::job_goes_on(world, rules, root, events, states, n);
    assert(jobs[at] == states[n].job_state());
    assert(n < states.len() - 1);
    assert forall|marking: Seq<PathView>| #[trigger]
        states[n].steps_to(world, rules, marking, states[n + 1]) implies forall|path: PathView|
        #[trigger] marking.contains(path) <==> world.mark_target(rules, place, path) by {
        let action = choose|action: ActionView| #[trigger]
            states[n].job_state().does(world, rules, action, states[n + 1].job_state())
                && marking == settling::marked_by(action);
        settling::marks_are_handed_over(
            world,
            rules,
            states[n].job_state(),
            action,
            states[n + 1].job_state(),
        );
    }
    assert(hands_over(world, rules, states, place, n));
}

/// What a round does about one event, in a tree that holds still. An entry that
/// arrived in a directory which is to be watched is handed over for marking exactly
/// when it is to be marked below the root, be it a directory or any other file, and
/// joins the new directories exactly when it is to be watched below the root. Nothing
/// is handed over for an event that is about no entry, or about one that could not be
/// looked at.
pub proof fn arrivals_are_marked_at_once(
    world: World,
    rules: Seq<RuleView>,
    root: PathView,
    events: Seq<EventView>,
    states: Seq<RoundState>,
    sights: Seq<Option<InspectionView>>,
    n: int,
    marking: Seq<PathView>,
)
    requires
        engine::all_local(rules),
        world.well_named(),
        world.distinctly_named(),
        recovery::proceeds(world, rules, root, events, states),
        are_sights(rules, events, states, sights),
        0 <= n < events.len(),
        states[n].takes_event(rules, sights[n], marking, states[n + 1]),
        signals::arrived(states[n].registry, events[n]) is Some && sights[n] is Some ==> is_seen_in(
            world,
            rules,
            root,
            states[n].registry.by_descriptor[events[n].descriptor],
            signals::arrived(states[n].registry, events[n])->0,
            sights[n]->0,
        ),
    ensures
        match signals::arrived(states[n].registry, events[n]) {
            Some(path) => if sights[n] is Some {
                &&& marking == (if world.mark_target(rules, root, path) {
                    seq![path]
                } else {
                    Seq::empty()
                })
                &&& states[n + 1].round.batch.pending_directories == (if world.watch_target(
                    rules,
                    root,
                    path,
                ) {
                    states[n].round.batch.pending_directories.push(path)
                } else {
                    states[n].round.batch.pending_directories
                })
            } else {
                &&& marking.len() == 0
                &&& states[n + 1].round.batch.pending_directories
                    == states[n].round.batch.pending_directories
            },
            None => {
                &&& marking.len() == 0
                &&& states[n + 1].round.batch.pending_directories
                    == states[n].round.batch.pending_directories
            },
        },
{
    recovery::events_are_taken_in_turn(world, rules, root, events, states, n);
    assert(states[n].goes_on_to(world, rules, states[n + 1]));
    assert(states[n].round.events[0] == events[n]);
    let taken = states[n].round.took_event(states[n].registry, rules);
    if let Some(path) = signals::arrived(states[n].registry, events[n]) {
        assert(taken.stage == RoundStageView::Entry(path));
        assert(taken.batch.pending_directories == states[n].round.batch.pending_directories);
        if let Some(seen) = sights[n] {
            let dir = states[n].registry.by_descriptor[events[n].descriptor];
            let i = choose|i: int| #[trigger] world.holds(dir, i, path, seen.file_type);
            signals::inspected_entry_gets_its_due(world, rules, root, taken, dir, i, path, seen);
        }
    }
}

/// True when `seen` is what a look at `path`, an entry of `dir`, shows in the tree,
/// and `dir` is to be watched there.
pub open spec fn is_seen_in(
    world: World,
    rules: Seq<RuleView>,
    root: PathView,
    dir: PathView,
    path: PathView,
    seen: InspectionView,
) -> bool {
    &&& world.watch_target(rules, root, dir)
    &&& exists|i: int| #[trigger] world.holds(dir, i, path, seen.file_type)
    &&& seen.file_type == FileType::Directory ==> (world.metadata)(path) == Some(seen.file_type)
    &&& seen.candidate(path).agrees_on(
        world.candidate(path, seen.file_type),
        engine::consulted(rules, path, seen.file_type),
    )
}

/// True when `states` are the successive states of a fresh start below `root` that
/// ends without a failure.
pub open spec fn starts_afresh(
    world: World,
    rules: Seq<RuleView>,
    root: PathView,
    states: Seq<RoundState>,
) -> bool {
    &&& states.len() > 0
    &&& states[0].round == RoundView::seeding(root)
    &&& states[0].registry == RegistryView::empty()
    &&& forall|i: int, j: int|
        0 <= i && j == i + 1 && j < states.len() ==> #[trigger] states[i].goes_on_to(
            world,
            rules,
            states[j],
        )
    &&& states.last().round.job() == Some(ReconcileView::of(Seq::empty()))
}

/// The work of a fresh start.
proof fn fresh_start_is_work(
    world: World,
    rules: Seq<RuleView>,
    root: PathView,
    states: Seq<RoundState>,
    n: int,
)
    requires
        starts_afresh(world, rules, root, states),
        0 <= n < states.len(),
    ensures
        states[n].round.job() is Some,
    decreases n,
{
    if n > 0 {
        fresh_start_is_work(world, rules, root, states, n - 1);
        assert(states[n - 1].goes_on_to(world, rules, states[n]));
    }
}

/// A fresh start in a tree that holds still, with watches granted under descriptors
/// that are not in use, ends with exactly those directories watched that are to be
/// watched below the root. On the way, exactly what is to be marked below the root
/// was handed over for marking.
pub proof fn fresh_start_is_exact(
    world: World,
    rules: Seq<RuleView>,
    root: PathView,
    states: Seq<RoundState>,
)
    requires
        starts_afresh(world, rules, root, states),
        forall|i: int, j: int|
            0 <= i && j == i + 1 && j < states.len() ==> #[trigger]
                states[i].job_state().evicts_only(Set::empty(), states[j].job_state()),
    ensures
        forall|path: PathView| #[trigger]
            states.last().registry.contains_path(path) <==> world.watch_target(rules, root, path),
        round_has_marked_below(world, rules, states, root),
{
    let task = TaskView::Seed(root);
    let rest = Seq::<TaskView>::empty();
    let jobs = Seq::new(states.len(), |i: int| states[i].job_state());
    fresh_start_is_work(world, rules, root, states, states.len() - 1);
    assert(jobs[0].job.tasks =~= seq![task] + rest);
    assert forall|i: int, j: int| 0 <= i && j == i + 1 && j < jobs.len() implies #[trigger]
        jobs[i].steps_to(world, rules, jobs[j]) by {
        fresh_start_is_work(world, rules, root, states, i);
        assert(states[i].goes_on_to(world, rules, states[j]));
    }
    assert(jobs.last() == states.last().job_state());
    let k = recovery::first_task_is_done(world, rules, task, rest, jobs, 0);
    let first = jobs.take(k + 1);
    assert forall|i: int, j: int| 0 <= i && j == i + 1 && j < first.len() implies #[trigger]
        first[i].evicts_only(Set::empty(), first[j]) by {
        assert(states[i].job_state().evicts_only(Set::empty(), states[j].job_state()));
    }
    settling::settling_is_exact(world, rules, task, rest, first, Set::empty());
    assert(settling::place_of(task) == root);
    recovery::rest_of_work(world, rules, jobs, k);
    let left = jobs.skip(k);
    assert(left[0] == first.last());
    recovery::finished_work_rests(world, rules, left, left.len() - 1);
    assert(states.last().registry == first.last().registry);
    assert forall|path: PathView| #[trigger]
        states.last().registry.contains_path(path) <==> world.watch_target(rules, root, path) by {
        assert(!first[0].registry.contains_path(path));
        assert(first.last().registry.contains_path(path) ==> world.watch_target(
            rules,
            root,
            path,
        ));
    }
    let n = settling::settled_work_has_marked(world, rules, task, rest, first);
    assert(first[n] == states[n].job_state());
    fresh_start_is_work(world, rules, root, states, n);
    assert forall|marking: Seq<PathView>| #[trigger]
        states[n].steps_to(world, rules, marking, states[n + 1]) implies forall|path: PathView|
        #[trigger] marking.contains(path) <==> world.mark_target(rules, root, path) by {
        let action = choose|action: ActionView| #[trigger]
            states[n].job_state().does(world, rules, action, states[n + 1].job_state())
                && marking == settling::marked_by(action);
        settling::marks_are_handed_over(
            world,
            rules,
            states[n].job_state(),
            action,
            states[n + 1].job_state(),
        );
    }
    assert(hands_over(world, rules, states, root, n));
}

} // verus!

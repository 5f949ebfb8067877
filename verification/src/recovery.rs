//! What a round of work leaves behind in a tree that holds still.

use crate::discovery::InspectionView;
use crate::events;
use crate::events::{BatchView, EventView};
use crate::kernel;
use crate::path;
use crate::path::PathView;
use crate::reconcile::{ActionView, ReconcileView, TaskView};
use crate::round::{RoundStageView, RoundView};
use crate::rules::RuleView;
use crate::settling;
use crate::settling::JobState;
use crate::tree;
use crate::tree::World;
use crate::watch::RegistryView;
use vstd::prelude::*;

verus! {

impl RoundView {
    /// The paths that are marked at once for the entry in question.
    pub open spec fn entry_marks(
        self,
        rules: Seq<RuleView>,
        seen: Option<InspectionView>,
    ) -> Seq<PathView> {
        match self.stage {
            RoundStageView::Entry(path) => if self.entry_action(rules, seen).apply_ignore {
                seq![path]
            } else {
                Seq::empty()
            },
            _ => Seq::empty(),
        }
    }
}

/// A round of work and the registry beside it.
#[verifier::ext_equal]
pub struct RoundState {
    pub round: RoundView,
    pub registry: RegistryView,
}

impl RoundState {
    /// The work on the watch set that is under way, with the registry.
    pub open spec fn job_state(self) -> JobState {
        JobState { job: self.round.job()->0, registry: self.registry }
    }

    /// The paths that the work on the watch set hands over for marking next.
    pub open spec fn to_mark(self) -> Option<Seq<PathView>> {
        match self.round.job() {
            Some(job) => job.to_mark(),
            None => None,
        }
    }

    /// True when the next event was taken, `seen` is what was seen of the entry
    /// that it is about, and `marking` is handed over for marking.
    pub open spec fn takes_event(
        self,
        rules: Seq<RuleView>,
        seen: Option<InspectionView>,
        marking: Seq<PathView>,
        next: RoundState,
    ) -> bool {
        let taken = self.round.took_event(self.registry, rules);
        &&& next.round == taken.entry(rules, seen)
        &&& marking == taken.entry_marks(rules, seen)
    }

    /// True when the root is found to be gone, so that the round fails.
    pub open spec fn fails(self) -> bool {
        match self.round.job() {
            Some(job) => job.root_is_missing(self.registry),
            None => self.round.events.len() > 0 && {
                let means = self.round.next_reaction(self.registry);
                means is RootMoved || means is RootDeleted
            },
        }
    }

    /// True when `next` follows, with `marking` handed over for marking: an
    /// event is taken, whatever is seen of the entry that it is about, or the
    /// work on the watch set goes on.
    pub open spec fn steps_to(
        self,
        world: World,
        rules: Seq<RuleView>,
        marking: Seq<PathView>,
        next: RoundState,
    ) -> bool {
        if self.round.job() is Some {
            &&& next.round.job() is Some
            &&& next.round == self.round.with_job(next.round.job()->0)
            &&& exists|action: ActionView| #[trigger]
                self.job_state().does(world, rules, action, next.job_state()) && marking
                    == settling::marked_by(action)
        } else if self.round.events.len() == 0 {
            &&& next.round == self.round.took_all()
            &&& next.registry == self.registry
            &&& marking == Seq::<PathView>::empty()
        } else {
            let means = self.round.next_reaction(self.registry);
            &&& !self.fails()
            &&& next.registry == events::registry_after(self.registry, means)
            &&& exists|seen: Option<InspectionView>| #[trigger]
                self.takes_event(rules, seen, marking, next)
        }
    }

    /// True when `next` follows.
    pub open spec fn goes_on_to(
        self,
        world: World,
        rules: Seq<RuleView>,
        next: RoundState,
    ) -> bool {
        exists|marking: Seq<PathView>| #[trigger] self.steps_to(world, rules, marking, next)
    }

    /// True while everything is done but to rescan the root.
    pub open spec fn rescans_root(self) -> bool {
        &&& self.round.job() is Some
        &&& self.round.job()->0.tasks == seq![TaskView::RequireRoot(self.round.root)]
    }
}

/// True when `states` are successive states of a round that takes `events`.
pub open spec fn proceeds(
    world: World,
    rules: Seq<RuleView>,
    root: PathView,
    events: Seq<EventView>,
    states: Seq<RoundState>,
) -> bool {
    &&& states.len() > 0
    &&& states[0].round == RoundView::of(root, events)
    &&& forall|i: int, j: int|
        0 <= i && j == i + 1 && j < states.len() ==> #[trigger] states[i].goes_on_to(
            world,
            rules,
            states[j],
        )
}

/// True when `states` are the successive states of a round that takes `events`
/// and ends without a failure.
pub open spec fn completes(
    world: World,
    rules: Seq<RuleView>,
    root: PathView,
    events: Seq<EventView>,
    states: Seq<RoundState>,
) -> bool {
    &&& proceeds(world, rules, root, events, states)
    &&& states.last().round.job() == Some(ReconcileView::of(Seq::empty()))
}

/// True when a rescan of the root is granted watches under descriptors that are
/// not in use. What is watched before may reuse descriptors.
pub open spec fn rescan_has_unused_descriptors(states: Seq<RoundState>) -> bool {
    forall|i: int, j: int|
        0 <= i && j == i + 1 && j < states.len() && states[i].rescans_root() ==> #[trigger]
            states[i].job_state().evicts_only(Set::empty(), states[j].job_state())
}

/// True when one of the events reports an overflow.
pub open spec fn reports_overflow(events: Seq<EventView>) -> bool {
    overflowed(events, events.len() as int)
}

/// True when one of the first `n` events reports an overflow.
pub open spec fn overflowed(events: Seq<EventView>, n: int) -> bool {
    exists|i: int|
        0 <= i < n && i < events.len() && kernel::has_flag(
            (#[trigger] events[i]).mask,
            kernel::in_queue_overflow(),
        )
}

/// True when no event reports that what is watched as `root` was moved or
/// deleted.
pub open spec fn leave_root_alone(
    events: Seq<EventView>,
    registry: RegistryView,
    root: PathView,
) -> bool {
    forall|i: int|
        0 <= i < events.len() && (kernel::has_flag(
            (#[trigger] events[i]).mask,
            kernel::in_move_self(),
        ) || kernel::has_flag(events[i].mask, kernel::in_delete_self()))
            ==> !registry.by_descriptor.contains_key(events[i].descriptor)
            || registry.by_descriptor[events[i].descriptor] != root
}

/// True when nothing is watched but what is `root` or lies below it.
pub open spec fn watches_only_below(registry: RegistryView, root: PathView) -> bool {
    forall|path: PathView| #[trigger] registry.contains_path(path) ==> path.starts_with(root)
}

/// True when the root is watched, and exactly those paths at or below it that
/// are to be watched.
pub open spec fn restored(
    world: World,
    rules: Seq<RuleView>,
    root: PathView,
    registry: RegistryView,
) -> bool {
    &&& registry.contains_path(root)
    &&& forall|path: PathView| #[trigger]
        registry.contains_path(path) && path.starts_with(root) ==> world.watch_target(
            rules,
            root,
            path,
        )
    &&& forall|path: PathView| #[trigger]
        world.watch_target(rules, root, path) ==> registry.contains_path(path)
}

/// Taking one event leads to the next, and an overflow is kept in mind.
proof fn event_is_taken(
    world: World,
    rules: Seq<RuleView>,
    before: RoundState,
    after: RoundState,
)
    requires
        before.round.job() is None,
        before.round.events.len() > 0,
        before.goes_on_to(world, rules, after),
    ensures
        after.round.job() is None,
        after.round.root == before.round.root,
        after.round.events == before.round.events.drop_first(),
        after.round.batch.needs_rescan <==> before.round.batch.needs_rescan || kernel::has_flag(
            before.round.events[0].mask,
            kernel::in_queue_overflow(),
        ),
{
    let means = before.round.next_reaction(before.registry);
    let taken = before.round.took_event(before.registry, rules);
    let marking = choose|marking: Seq<PathView>| #[trigger]
        before.steps_to(world, rules, marking, after);
    let seen = choose|seen: Option<InspectionView>| #[trigger]
        before.takes_event(rules, seen, marking, after);
    assert(after.round == taken.entry(rules, seen));
    assert(taken.batch.needs_rescan == (before.round.batch.needs_rescan || means is Overflow));
}

/// As long as events are taken, the round is where it should be.
pub proof fn events_are_taken_in_turn(
    world: World,
    rules: Seq<RuleView>,
    root: PathView,
    events: Seq<EventView>,
    states: Seq<RoundState>,
    n: int,
)
    requires
        proceeds(world, rules, root, events, states),
        0 <= n <= events.len(),
        n < states.len(),
    ensures
        states[n].round.job() is None,
        states[n].round.root == root,
        states[n].round.events == events.skip(n),
        states[n].round.batch.needs_rescan <==> overflowed(events, n),
    decreases n,
{
    if n == 0 {
        assert(events.skip(0) =~= events);
    } else {
        events_are_taken_in_turn(world, rules, root, events, states, n - 1);
        let before = states[n - 1];
        assert(before.goes_on_to(world, rules, states[n]));
        event_is_taken(world, rules, before, states[n]);
        assert(before.round.events[0] == events[n - 1]);
        assert(events.skip(n - 1).drop_first() =~= events.skip(n));
        overflow_is_kept(events, n);
    }
}

/// One more event overflows if it does, or if one before it does.
proof fn overflow_is_kept(events: Seq<EventView>, n: int)
    requires
        0 < n <= events.len(),
    ensures
        overflowed(events, n) <==> overflowed(events, n - 1) || kernel::has_flag(
            events[n - 1].mask,
            kernel::in_queue_overflow(),
        ),
{
    if overflowed(events, n) {
        let i = choose|i: int|
            0 <= i < n && i < events.len() && kernel::has_flag(
                (#[trigger] events[i]).mask,
                kernel::in_queue_overflow(),
            );
        assert(i < n - 1 || i == n - 1);
    }
}

/// What holds of the registry and the batch while events are taken: nothing new
/// is watched, and new directories lie below the root.
spec fn stays_below(first: RegistryView, root: PathView, now: RoundState) -> bool {
    &&& now.registry.inverse()
    &&& forall|path: PathView| #[trigger]
        now.registry.contains_path(path) ==> first.contains_path(path)
    &&& forall|i: int|
        0 <= i < now.round.batch.pending_directories.len() ==> (
        #[trigger] now.round.batch.pending_directories[i]).starts_with(root)
}

/// An event keeps what is watched and what is to be watched below the root.
proof fn event_stays_below(
    world: World,
    rules: Seq<RuleView>,
    first: RegistryView,
    root: PathView,
    before: RoundState,
    after: RoundState,
)
    requires
        watches_only_below(first, root),
        before.round.job() is None,
        before.round.events.len() > 0,
        before.round.events[0].name is Some ==> path::is_entry_name(before.round.events[0].name->0),
        before.goes_on_to(world, rules, after),
        stays_below(first, root, before),
    ensures
        stays_below(first, root, after),
{
    let means = before.round.next_reaction(before.registry);
    let taken = before.round.took_event(before.registry, rules);
    let marking = choose|marking: Seq<PathView>| #[trigger]
        before.steps_to(world, rules, marking, after);
    let seen = choose|seen: Option<InspectionView>| #[trigger]
        before.takes_event(rules, seen, marking, after);
    events::events_keep_maps_inverse(before.registry, means);
    if let events::Reaction::Appeared(dir, name) = means {
        path::entry_path_of_directory(dir, name);
        assert(before.registry.by_descriptor.contains_key(before.round.events[0].descriptor));
        assert(before.registry.contains_path(dir));
        assert(first.contains_path(dir));
        path::starts_with_is_transitive(dir.join(name), dir, root);
    }
    let pending = before.round.batch.pending_directories;
    assert(taken.batch.pending_directories == pending);
    assert(after.round == taken.entry(rules, seen));
    assert forall|path: PathView| #[trigger]
        after.registry.contains_path(path) implies first.contains_path(path) by {
        assert(before.registry.contains_path(path));
    }
    let more = after.round.batch.pending_directories;
    assert forall|i: int| 0 <= i < more.len() implies (#[trigger] more[i]).starts_with(root) by {
        if i < pending.len() {
            assert(more[i] == pending[i]);
        }
    }
}

/// As long as events are taken, what is watched and what is to be watched stays
/// below the root.
proof fn events_stay_below(
    world: World,
    rules: Seq<RuleView>,
    root: PathView,
    events: Seq<EventView>,
    states: Seq<RoundState>,
    n: int,
)
    requires
        proceeds(world, rules, root, events, states),
        events::name_entries(events),
        states[0].registry.inverse(),
        watches_only_below(states[0].registry, root),
        0 <= n <= events.len(),
        n < states.len(),
    ensures
        stays_below(states[0].registry, root, states[n]),
    decreases n,
{
    if n > 0 {
        events_stay_below(world, rules, root, events, states, n - 1);
        events_are_taken_in_turn(world, rules, root, events, states, n - 1);
        assert(states[n - 1].goes_on_to(world, rules, states[n]));
        assert(states[n - 1].round.events[0] == events[n - 1]);
        event_stays_below(
            world,
            rules,
            states[0].registry,
            root,
            states[n - 1],
            states[n],
        );
    }
}

/// As long as events are taken, no descriptor comes to stand for another path.
proof fn events_add_no_descriptor(
    world: World,
    rules: Seq<RuleView>,
    root: PathView,
    events: Seq<EventView>,
    states: Seq<RoundState>,
    n: int,
    descriptor: i32,
)
    requires
        proceeds(world, rules, root, events, states),
        0 <= n <= events.len(),
        n < states.len(),
        states[n].registry.by_descriptor.contains_key(descriptor),
    ensures
        states[0].registry.by_descriptor.contains_key(descriptor),
        states[0].registry.by_descriptor[descriptor]
            == states[n].registry.by_descriptor[descriptor],
    decreases n,
{
    if n > 0 {
        events_are_taken_in_turn(world, rules, root, events, states, n - 1);
        assert(states[n - 1].goes_on_to(world, rules, states[n]));
        let marking = choose|marking: Seq<PathView>| #[trigger]
            states[n - 1].steps_to(world, rules, marking, states[n]);
        events_add_no_descriptor(world, rules, root, events, states, n - 1, descriptor);
    }
}

/// True when the work is on the first task, with the tasks in `rest` to follow.
pub open spec fn in_first_task(job: ReconcileView, task: TaskView, rest: Seq<TaskView>) -> bool {
    ||| job == ReconcileView::of(seq![task] + rest)
    ||| job.tasks == rest && !(job.stage is Idle)
}

/// The work on the first task ends where only the others are left.
proof fn first_task_ends_in_the_rest(
    world: World,
    rules: Seq<RuleView>,
    task: TaskView,
    rest: Seq<TaskView>,
    now: JobState,
    next: JobState,
)
    requires
        in_first_task(now.job, task, rest),
        now.steps_to(world, rules, next),
    ensures
        in_first_task(next.job, task, rest) || next.job == ReconcileView::of(rest),
{
    settling::step_unfolds(world, rules, now, next);
    if now.job == ReconcileView::of(seq![task] + rest) {
        assert(now.job.tasks[0] == task);
        assert(now.job.tasks.drop_first() =~= rest);
    }
}

/// Work that has left its first task has come to the point where it was done.
pub proof fn first_task_is_done(
    world: World,
    rules: Seq<RuleView>,
    task: TaskView,
    rest: Seq<TaskView>,
    states: Seq<JobState>,
    n: int,
) -> (k: int)
    requires
        settling::is_work(world, rules, states),
        states[0].job == ReconcileView::of(seq![task] + rest),
        !in_first_task(states.last().job, task, rest),
        0 <= n < states.len(),
        forall|i: int| 0 <= i <= n ==> in_first_task((#[trigger] states[i]).job, task, rest),
    ensures
        0 < k < states.len(),
        settling::settles(world, rules, task, rest, states.take(k + 1)),
        forall|i: int| 0 <= i < k ==> in_first_task((#[trigger] states[i]).job, task, rest),
    decreases states.len() - n,
{
    if n == states.len() - 1 {
        assert(in_first_task(states[n].job, task, rest));
        assert(states[n] == states.last());
        assert(false);
    }
    assert(states[n].steps_to(world, rules, states[n + 1]));
    assert(in_first_task(states[n].job, task, rest));
    first_task_ends_in_the_rest(world, rules, task, rest, states[n], states[n + 1]);
    if in_first_task(states[n + 1].job, task, rest) {
        first_task_is_done(world, rules, task, rest, states, n + 1)
    } else {
        let prefix = states.take(n + 2);
        assert forall|i: int, j: int| 0 <= i && j == i + 1 && j < prefix.len() implies #[trigger]
            prefix[i].steps_to(world, rules, prefix[j]) by {
            assert(states[i].steps_to(world, rules, states[j]));
        }
        assert forall|i: int| 0 <= i < prefix.len() - 1 implies (#[trigger] prefix[i]).job
            != ReconcileView::of(rest) by {
            assert(in_first_task(states[i].job, task, rest));
            if states[i].job == ReconcileView::of(seq![task] + rest) {
                assert((seq![task] + rest).len() != rest.len());
            }
        }
        n + 1
    }
}

/// What is left of work after its first steps is work.
pub proof fn rest_of_work(world: World, rules: Seq<RuleView>, states: Seq<JobState>, k: int)
    requires
        settling::is_work(world, rules, states),
        0 <= k < states.len(),
    ensures
        settling::is_work(world, rules, states.skip(k)),
        states.skip(k).last() == states.last(),
{
    let left = states.skip(k);
    assert forall|i: int, j: int| 0 <= i && j == i + 1 && j < left.len() implies #[trigger]
        left[i].steps_to(world, rules, left[j]) by {
        assert(states[k + i].steps_to(world, rules, states[k + j]));
    }
}

/// A step takes on one task at most.
proof fn one_task_is_taken(
    world: World,
    rules: Seq<RuleView>,
    now: JobState,
    next: JobState,
)
    requires
        now.steps_to(world, rules, next),
    ensures
        next.job.tasks == now.job.tasks || (now.job.tasks.len() > 0 && next.job.tasks
            == now.job.tasks.drop_first()),
{
    settling::step_unfolds(world, rules, now, next);
}

/// Tasks are worked off from the front.
proof fn tasks_are_worked_off(
    world: World,
    rules: Seq<RuleView>,
    states: Seq<JobState>,
    n: int,
) -> (k: int)
    requires
        settling::is_work(world, rules, states),
        0 <= n < states.len(),
    ensures
        0 <= k <= states[0].job.tasks.len(),
        states[n].job.tasks == states[0].job.tasks.skip(k),
    decreases n,
{
    let all = states[0].job.tasks;
    if n == 0 {
        assert(all.skip(0) =~= all);
        0
    } else {
        let k = tasks_are_worked_off(world, rules, states, n - 1);
        assert(states[n - 1].steps_to(world, rules, states[n]));
        one_task_is_taken(world, rules, states[n - 1], states[n]);
        if states[n].job.tasks == states[n - 1].job.tasks {
            k
        } else {
            assert(all.skip(k).drop_first() =~= all.skip(k + 1));
            k + 1
        }
    }
}

/// True when the tasks are to seed directories at or below `root`.
spec fn seed_below(tasks: Seq<TaskView>, root: PathView) -> bool {
    forall|i: int|
        0 <= i < tasks.len() ==> (#[trigger] tasks[i]) is Seed && settling::place_of(
            tasks[i],
        ).starts_with(root)
}

/// Seeding a directory below the root keeps what is watched below the root.
proof fn seeding_stays_below(
    world: World,
    rules: Seq<RuleView>,
    root: PathView,
    task: TaskView,
    rest: Seq<TaskView>,
    states: Seq<JobState>,
)
    requires
        world.well_named(),
        settling::settles(world, rules, task, rest, states),
        task is Seed,
        settling::place_of(task).starts_with(root),
        watches_only_below(states[0].registry, root),
    ensures
        watches_only_below(states.last().registry, root),
{
    let dir = settling::place_of(task);
    settling::settling_is_exact(world, rules, task, rest, states, Set::full());
    assert forall|path: PathView| #[trigger]
        states.last().registry.contains_path(path) implies path.starts_with(root) by {
        if world.watch_target(rules, dir, path) {
            tree::walk_stays_below_start(world, rules, dir, path);
            path::starts_with_is_transitive(path, dir, root);
        }
    }
}

/// Work that has come to its last tasks has come to the point where all tasks
/// before `tail` were done.
proof fn leading_tasks_are_done(
    world: World,
    rules: Seq<RuleView>,
    root: PathView,
    lead: Seq<TaskView>,
    tail: Seq<TaskView>,
    states: Seq<JobState>,
) -> (k: int)
    requires
        settling::is_work(world, rules, states),
        states[0].job == ReconcileView::of(lead + tail),
        states.last().job.stage is Idle,
        states.last().job.tasks.len() <= tail.len(),
    ensures
        0 <= k < states.len(),
        states[k].job == ReconcileView::of(tail),
        world.well_named() && seed_below(lead, root) && watches_only_below(
            states[0].registry,
            root,
        ) ==> watches_only_below(states[k].registry, root),
    decreases lead.len(),
{
    if lead.len() == 0 {
        assert(lead + tail =~= tail);
        0
    } else {
        let task = lead[0];
        let others = lead.drop_first();
        let rest = others + tail;
        assert(seq![task] + rest =~= lead + tail);
        let first = first_task_is_done(world, rules, task, rest, states, 0);
        rest_of_work(world, rules, states, first);
        assert(states.take(first + 1).last() == states[first]);
        if world.well_named() && seed_below(lead, root) && watches_only_below(
            states[0].registry,
            root,
        ) {
            seeding_stays_below(world, rules, root, task, rest, states.take(first + 1));
            assert forall|i: int| 0 <= i < others.len() implies (#[trigger] others[i]) is Seed
                && settling::place_of(others[i]).starts_with(root) by {
                assert(others[i] == lead[i + 1]);
            }
        }
        let more = leading_tasks_are_done(
            world,
            rules,
            root,
            others,
            tail,
            states.skip(first),
        );
        assert(states.skip(first)[more] == states[first + more]);
        first + more
    }
}

/// Nothing changes once the work is over.
pub proof fn finished_work_rests(
    world: World,
    rules: Seq<RuleView>,
    states: Seq<JobState>,
    n: int,
)
    requires
        settling::is_work(world, rules, states),
        states[0].job == ReconcileView::of(Seq::empty()),
        0 <= n < states.len(),
    ensures
        states[n] == states[0],
    decreases n,
{
    if n > 0 {
        finished_work_rests(world, rules, states, n - 1);
        assert(states[n - 1].steps_to(world, rules, states[n]));
        settling::step_unfolds(world, rules, states[n - 1], states[n]);
    }
}

/// Once only the check for the root is left, the registry stays as it is, and
/// the check is passed if there is a next step.
proof fn check_changes_nothing(
    world: World,
    rules: Seq<RuleView>,
    root: PathView,
    states: Seq<JobState>,
)
    requires
        settling::is_work(world, rules, states),
        states[0].job == ReconcileView::of(seq![TaskView::RequireRoot(root)]),
    ensures
        states.last().registry == states[0].registry,
        states.len() > 1 ==> states[0].registry.contains_path(root) && states.last().job
            == ReconcileView::of(Seq::empty()),
{
    if states.len() > 1 {
        assert(states[0].steps_to(world, rules, states[1]));
        settling::step_unfolds(world, rules, states[0], states[1]);
        assert(states[0].job.tasks[0] == TaskView::RequireRoot(root));
        assert(states[1].job.tasks =~= Seq::<TaskView>::empty());
        rest_of_work(world, rules, states, 1);
        finished_work_rests(world, rules, states.skip(1), states.len() - 2);
    }
}

/// Once the work is begun, it goes on.
pub proof fn job_goes_on(
    world: World,
    rules: Seq<RuleView>,
    root: PathView,
    events: Seq<EventView>,
    states: Seq<RoundState>,
    n: int,
)
    requires
        proceeds(world, rules, root, events, states),
        events.len() < n < states.len(),
    ensures
        states[n].round.job() is Some,
        states[n].round.root == root,
    decreases n,
{
    events_are_taken_in_turn(world, rules, root, events, states, events.len() as int);
    assert(states[n - 1].goes_on_to(world, rules, states[n]));
    if n > events.len() + 1 {
        job_goes_on(world, rules, root, events, states, n - 1);
    } else {
        assert(states[n - 1].round.events.len() == 0);
    }
}

/// The states of a round from where the work on the watch set begins.
pub open spec fn jobs_of(events: Seq<EventView>, states: Seq<RoundState>) -> Seq<JobState> {
    Seq::new(
        (states.len() - events.len() - 1) as nat,
        |i: int| states[events.len() + 1 + i].job_state(),
    )
}

/// They are work on what the events ask for.
pub proof fn round_becomes_work(
    world: World,
    rules: Seq<RuleView>,
    root: PathView,
    events: Seq<EventView>,
    states: Seq<RoundState>,
)
    requires
        proceeds(world, rules, root, events, states),
        events.len() + 1 < states.len(),
    ensures
        settling::is_work(world, rules, jobs_of(events, states)),
        jobs_of(events, states).last() == states.last().job_state(),
        jobs_of(events, states)[0].registry == states[events.len() as int].registry,
        jobs_of(events, states)[0].job == ReconcileView::of(
            states[events.len() as int].round.batch.tasks(root),
        ),
{
    let jobs = jobs_of(events, states);
    let count = events.len() as int;
    assert forall|i: int, j: int| 0 <= i && j == i + 1 && j < jobs.len() implies #[trigger]
        jobs[i].steps_to(world, rules, jobs[j]) by {
        let n = count + 1 + i;
        job_goes_on(world, rules, root, events, states, n);
        assert(states[n].goes_on_to(world, rules, states[n + 1]));
    }
    events_are_taken_in_turn(world, rules, root, events, states, count);
    assert(states[count].goes_on_to(world, rules, states[count + 1]));
}

/// A round that ends has gone beyond its events.
pub proof fn events_come_to_an_end(
    world: World,
    rules: Seq<RuleView>,
    root: PathView,
    events: Seq<EventView>,
    states: Seq<RoundState>,
)
    requires
        proceeds(world, rules, root, events, states),
        states.last().round.job() is Some,
    ensures
        events.len() + 1 < states.len(),
{
    if states.len() <= events.len() + 1 {
        events_are_taken_in_turn(world, rules, root, events, states, states.len() - 1);
    }
}

/// What is done about the root when events were lost.
spec fn root_tasks(root: PathView) -> Seq<TaskView> {
    seq![TaskView::Rescan(root)] + seq![TaskView::RequireRoot(root)]
}

/// True when the rescan of the root is granted unused descriptors.
spec fn rescan_is_fresh(root: PathView, states: Seq<JobState>) -> bool {
    forall|i: int, j: int|
        0 <= i && j == i + 1 && j < states.len() && states[i].job.tasks == seq![
            TaskView::RequireRoot(root),
        ] ==> #[trigger] states[i].evicts_only(Set::empty(), states[j])
}

/// Work that has done everything but, at most, to check for the root has rescanned
/// it. Gives the states of the rescan, and those that follow.
proof fn rescan_is_done(
    world: World,
    rules: Seq<RuleView>,
    root: PathView,
    states: Seq<JobState>,
) -> (k: int)
    requires
        settling::is_work(world, rules, states),
        states[0].job == ReconcileView::of(root_tasks(root)),
        states.last().job.stage is Idle,
        states.last().job.tasks.len() <= 1,
        rescan_is_fresh(root, states),
    ensures
        0 < k < states.len(),
        settling::settles(
            world,
            rules,
            TaskView::Rescan(root),
            seq![TaskView::RequireRoot(root)],
            states.take(k + 1),
        ),
        settling::unused_descriptors(states.take(k + 1)),
        states.last().registry == states[k].registry,
        states.last().job == ReconcileView::of(Seq::empty()) ==> states[k].registry.contains_path(
            root,
        ),
{
    let check = seq![TaskView::RequireRoot(root)];
    let k = first_task_is_done(world, rules, TaskView::Rescan(root), check, states, 0);
    let prefix = states.take(k + 1);
    assert forall|i: int, j: int| 0 <= i && j == i + 1 && j < prefix.len() implies #[trigger]
        prefix[i].evicts_only(Set::empty(), prefix[j]) by {
        assert(prefix[i] == states[i]);
        assert(prefix[j] == states[j]);
        assert(in_first_task(states[i].job, TaskView::Rescan(root), check));
        if prefix[i].adds_watch() {
            assert(states[i].job.tasks == check);
            assert(states[i].evicts_only(Set::empty(), states[j]));
        }
    }
    rest_of_work(world, rules, states, k);
    assert(states.skip(k)[0] == prefix.last());
    check_changes_nothing(world, rules, root, states.skip(k));
    assert(check.len() == 1);
    k
}

/// What the rescan of the root leaves behind. Gives the point at which it hands
/// over what is to be marked.
proof fn root_is_rescanned(
    world: World,
    rules: Seq<RuleView>,
    root: PathView,
    states: Seq<JobState>,
) -> (n: int)
    requires
        settling::is_work(world, rules, states),
        states[0].job == ReconcileView::of(root_tasks(root)),
        states.last().job.stage is Idle,
        states.last().job.tasks.len() <= 1,
        rescan_is_fresh(root, states),
    ensures
        0 <= n < states.len() - 1,
        states[n].job.to_mark() is Some,
        settling::are_mark_targets(world, rules, root, states[n].job.to_mark()->0),
        world.descended(rules, root) || states.last().job == ReconcileView::of(Seq::empty())
            ==> restored(world, rules, root, states.last().registry),
        watches_only_below(states[0].registry, root) ==> forall|path: PathView| #[trigger]
            states.last().registry.contains_path(path) ==> world.watch_target(rules, root, path),
{
    let task = TaskView::Rescan(root);
    let check = seq![TaskView::RequireRoot(root)];
    let k = rescan_is_done(world, rules, root, states);
    let prefix = states.take(k + 1);
    let last = states.last().registry;
    assert(prefix.last() == states[k]);
    settling::settling_is_exact(world, rules, task, check, prefix, Set::empty());
    assert(settling::place_of(task) == root);
    assert(world.reached_in(rules, root, 0, root));
    if world.descended(rules, root) {
        assert(world.watch_target(rules, root, root));
    }
    let n = settling::settled_work_has_marked(world, rules, task, check, prefix);
    assert(prefix[n] == states[n]);
    n
}

/// What a batch of events in which some were lost has left to do: new directories
/// come first, then the root.
proof fn tasks_after_overflow(batch: BatchView, root: PathView) -> (lead: Seq<TaskView>)
    requires
        batch.needs_rescan,
    ensures
        batch.tasks(root) == lead + root_tasks(root),
        lead.len() == batch.pending_directories.len(),
        forall|i: int|
            0 <= i < lead.len() ==> #[trigger] lead[i] == TaskView::Seed(
                batch.pending_directories[i],
            ),
{
    let lead = batch.pending_directories.map_values(|path: PathView| TaskView::Seed(path));
    assert(root_tasks(root) =~= seq![TaskView::Rescan(root), TaskView::RequireRoot(root)]);
    lead
}

/// A batch of events in which none was lost never asks to check for the root.
proof fn no_check_without_overflow(batch: BatchView, root: PathView, k: int)
    requires
        0 <= k < batch.tasks(root).len(),
        batch.tasks(root)[k] is RequireRoot,
    ensures
        batch.needs_rescan,
        batch.tasks(root).skip(k) == seq![TaskView::RequireRoot(root)],
{
    let all = batch.tasks(root);
    let pending = batch.pending_directories.len() as int;
    if k < pending {
        assert(all[k] == TaskView::Seed(batch.pending_directories[k]));
    } else if !batch.needs_rescan {
        assert(all[k] == TaskView::Rescan(batch.rescan_scopes[k - pending]));
    } else {
        assert(all[pending] == TaskView::Rescan(root));
        assert(all[pending + 1] == TaskView::RequireRoot(root));
        assert(all.skip(k) =~= seq![TaskView::RequireRoot(root)]);
    }
}

/// The work of a round in which events were lost, and the point at which it begins
/// to rescan the root.
proof fn overflow_leads_to_rescan(
    world: World,
    rules: Seq<RuleView>,
    root: PathView,
    events: Seq<EventView>,
    states: Seq<RoundState>,
) -> (begin: int)
    requires
        proceeds(world, rules, root, events, states),
        reports_overflow(events),
        states.last().round.job() is Some,
        states.last().round.job()->0.stage is Idle,
        states.last().round.job()->0.tasks.len() <= 1,
    ensures
        events.len() + 1 < states.len(),
        0 <= begin < jobs_of(events, states).len(),
        settling::is_work(world, rules, jobs_of(events, states)),
        jobs_of(events, states).last() == states.last().job_state(),
        jobs_of(events, states)[begin].job == ReconcileView::of(root_tasks(root)),
        world.well_named() && events::name_entries(events) && states[0].registry.inverse()
            && watches_only_below(states[0].registry, root) ==> watches_only_below(
            jobs_of(events, states)[begin].registry,
            root,
        ),
{
    let count = events.len() as int;
    let jobs = jobs_of(events, states);
    events_come_to_an_end(world, rules, root, events, states);
    events_are_taken_in_turn(world, rules, root, events, states, count);
    round_becomes_work(world, rules, root, events, states);
    let pending = states[count].round.batch.pending_directories;
    let lead = tasks_after_overflow(states[count].round.batch, root);
    assert(jobs[0].job == ReconcileView::of(lead + root_tasks(root)));
    if world.well_named() && events::name_entries(events) && states[0].registry.inverse()
        && watches_only_below(states[0].registry, root) {
        events_stay_below(world, rules, root, events, states, count);
        assert forall|i: int| 0 <= i < lead.len() implies (#[trigger] lead[i]) is Seed
            && settling::place_of(lead[i]).starts_with(root) by {
            assert(lead[i] == TaskView::Seed(pending[i]));
        }
        assert forall|path: PathView| #[trigger] jobs[0].registry.contains_path(
            path,
        ) implies path.starts_with(root) by {
            assert(states[0].registry.contains_path(path));
        }
    }
    leading_tasks_are_done(world, rules, root, lead, root_tasks(root), jobs)
}

/// The work that is left from some point on is as fresh as the round.
proof fn rescan_stays_fresh(
    world: World,
    rules: Seq<RuleView>,
    root: PathView,
    events: Seq<EventView>,
    states: Seq<RoundState>,
    begin: int,
)
    requires
        proceeds(world, rules, root, events, states),
        events.len() + 1 < states.len(),
        rescan_has_unused_descriptors(states),
        0 <= begin < jobs_of(events, states).len(),
    ensures
        rescan_is_fresh(root, jobs_of(events, states).skip(begin)),
{
    let jobs = jobs_of(events, states);
    let left = jobs.skip(begin);
    assert forall|i: int, j: int|
        0 <= i && j == i + 1 && j < left.len() && left[i].job.tasks == seq![
            TaskView::RequireRoot(root),
        ] implies #[trigger] left[i].evicts_only(Set::empty(), left[j]) by {
        let n = events.len() + 1 + begin + i;
        job_goes_on(world, rules, root, events, states, n);
        assert(left[i] == states[n].job_state());
        assert(left[j] == states[n + 1].job_state());
        assert(states[n].rescans_root());
        assert(states[n].job_state().evicts_only(Set::empty(), states[n + 1].job_state()));
    }
}

/// A round that fails once its events are taken is one in which events were lost,
/// and has nothing left but to check for the root.
proof fn late_failure_is_a_missing_root(
    world: World,
    rules: Seq<RuleView>,
    root: PathView,
    events: Seq<EventView>,
    states: Seq<RoundState>,
)
    requires
        proceeds(world, rules, root, events, states),
        states.last().round.job() is Some,
        states.last().fails(),
    ensures
        reports_overflow(events),
        states.last().round.job() == Some(ReconcileView::of(seq![TaskView::RequireRoot(root)])),
{
    let count = events.len() as int;
    let jobs = jobs_of(events, states);
    events_come_to_an_end(world, rules, root, events, states);
    events_are_taken_in_turn(world, rules, root, events, states, count);
    round_becomes_work(world, rules, root, events, states);
    let batch = states[count].round.batch;
    let all = batch.tasks(root);
    let k = tasks_are_worked_off(world, rules, jobs, jobs.len() - 1);
    let left = states.last().round.job()->0.tasks;
    assert(left == all.skip(k));
    assert(left[0] == all[k]);
    no_check_without_overflow(batch, root, k);
}

/// A round does not fail where the root is not reported to be gone and, if
/// events were lost, is still there.
pub proof fn round_does_not_fail(
    world: World,
    rules: Seq<RuleView>,
    root: PathView,
    events: Seq<EventView>,
    states: Seq<RoundState>,
)
    requires
        proceeds(world, rules, root, events, states),
        leave_root_alone(events, states[0].registry, root),
        reports_overflow(events) ==> world.descended(rules, root)
            && rescan_has_unused_descriptors(states),
    ensures
        !states.last().fails(),
{
    let end = states.len() - 1;
    let last = states.last();
    if last.round.job() is None {
        if end > events.len() {
            job_goes_on(world, rules, root, events, states, end);
        }
        events_are_taken_in_turn(world, rules, root, events, states, end);
        if last.round.events.len() > 0 {
            let event = last.round.events[0];
            assert(event == events[end]);
            if last.registry.by_descriptor.contains_key(event.descriptor) {
                events_add_no_descriptor(
                    world,
                    rules,
                    root,
                    events,
                    states,
                    end,
                    event.descriptor,
                );
            }
        }
    } else if last.fails() {
        late_failure_is_a_missing_root(world, rules, root, events, states);
        let jobs = jobs_of(events, states);
        let begin = overflow_leads_to_rescan(world, rules, root, events, states);
        rescan_stays_fresh(world, rules, root, events, states, begin);
        rest_of_work(world, rules, jobs, begin);
        let n = root_is_rescanned(world, rules, root, jobs.skip(begin));
    }
}

/// Recovery from an overflow: a round in which events were lost and that does not
/// fail ends with the root watched and with exactly those paths at or below the
/// root watched that a fresh discovery of the tree finds. So dropped events cannot
/// leave a directory unwatched or a stale entry behind. On the way, exactly what
/// is to be marked below the root is handed over for marking. Where nothing
/// outside of the root was watched, nothing is afterwards.
pub proof fn overflow_round_restores_the_tree(
    world: World,
    rules: Seq<RuleView>,
    root: PathView,
    events: Seq<EventView>,
    states: Seq<RoundState>,
)
    requires
        completes(world, rules, root, events, states),
        reports_overflow(events),
        rescan_has_unused_descriptors(states),
    ensures
        restored(world, rules, root, states.last().registry),
        exists|n: int|
            0 <= n < states.len() - 1 && (#[trigger] states[n]).to_mark() is Some
                && settling::are_mark_targets(world, rules, root, states[n].to_mark()->0),
        world.well_named() && events::name_entries(events) && states[0].registry.inverse()
            && watches_only_below(states[0].registry, root) ==> forall|path: PathView| #[trigger]
            states.last().registry.contains_path(path) <==> world.watch_target(rules, root, path),
{
    let jobs = jobs_of(events, states);
    let begin = overflow_leads_to_rescan(world, rules, root, events, states);
    rescan_stays_fresh(world, rules, root, events, states, begin);
    rest_of_work(world, rules, jobs, begin);
    let left = jobs.skip(begin);
    let n = root_is_rescanned(world, rules, root, left);
    let at = events.len() + 1 + begin + n;
    assert(left[n] == states[at].job_state());
    job_goes_on(world, rules, root, events, states, at);
    assert(states[at].to_mark() == left[n].job.to_mark());
    assert(left[0] == jobs[begin]);
    assert forall|path: PathView| #[trigger]
        states.last().registry.contains_path(path) && path.starts_with(
            root,
        ) implies world.watch_target(rules, root, path) by {}
}

} // verus!

//! What a reconciliation leaves watched in a tree that holds still.

use crate::discovery::WalkView;
use crate::path;
use crate::path::PathView;
use crate::reconcile::{ActionView, ReconcileView, StageView, TaskView};
use crate::rules::{FileType, RuleView};
use crate::sequence;
use crate::tree;
use crate::tree::World;
use crate::watch;
use crate::watch::{RegistryView, WatchOutcome, WatchReply};
use vstd::prelude::*;

verus! {

/// A reconciliation and the registry beside it.
#[verifier::ext_equal]
pub struct JobState {
    pub job: ReconcileView,
    pub registry: RegistryView,
}

impl JobState {
    /// True when a watch is asked for.
    pub open spec fn adds_watch(self) -> bool {
        self.job.to_watch() is Some && !self.registry.contains_path(self.job.to_watch()->0)
    }

    /// True when no watched path loses its place in the step to `next`, but for
    /// those in `spare`: a watch that is granted has a descriptor that is not in
    /// use, or one that such a path has.
    pub open spec fn evicts_only(self, spare: Set<PathView>, next: JobState) -> bool {
        self.adds_watch() ==> {
            let descriptor = next.registry.by_path[self.job.to_watch()->0];
            self.registry.by_descriptor.contains_key(descriptor) ==> spare.contains(
                self.registry.by_descriptor[descriptor],
            )
        }
    }

    /// True when the reconciliation asks for `action` and is in the state `asked`
    /// then.
    pub open spec fn asks(self, action: ActionView, asked: JobState) -> bool {
        self.job.advances(self.registry, action, asked.job, asked.registry)
    }

    /// True when `next` follows once `action` was done, with everything seen that
    /// there is to see, and with a watch granted, under whatever descriptor.
    pub open spec fn answered(
        self,
        world: World,
        rules: Seq<RuleView>,
        action: ActionView,
        next: JobState,
    ) -> bool {
        match action {
            ActionView::Inspect(path) => {
                &&& next.registry == self.registry
                &&& next.job == self.job.inspected(rules, world.inspection(path))
            },
            ActionView::List(path) => {
                &&& next.registry == self.registry
                &&& next.job == self.job.listed(rules, world.entries(path))
            },
            ActionView::Watch(path) => exists|descriptor: i32, outcome: WatchOutcome| #[trigger]
                self.job.takes_reply(
                    self.registry,
                    WatchReply::Watching(descriptor),
                    Ok(Some(outcome)),
                    next.job,
                    next.registry,
                ),
            _ => next == self,
        }
    }

    /// True when `action` is asked for and done, and `next` follows.
    pub open spec fn does(
        self,
        world: World,
        rules: Seq<RuleView>,
        action: ActionView,
        next: JobState,
    ) -> bool {
        exists|asked: JobState| #[trigger]
            self.asks(action, asked) && asked.answered(world, rules, action, next)
    }

    /// True when `next` follows.
    pub open spec fn steps_to(self, world: World, rules: Seq<RuleView>, next: JobState) -> bool {
        exists|action: ActionView| #[trigger] self.does(world, rules, action, next)
    }

    /// What a step comes to: the walk goes on, a directory is watched, or nothing
    /// had to be answered.
    spec fn moves_to(self, world: World, rules: Seq<RuleView>, next: JobState) -> bool {
        if self.job.walk() is Some && !self.job.walk()->0.done() {
            &&& next.registry == self.registry
            &&& next.job == ReconcileView {
                stage: StageView::Walking(self.job.walk()->0.advance(world, rules)),
                ..self.job
            }
        } else if self.adds_watch() {
            &&& next.job == self.job.watched()
            &&& exists|descriptor: i32|
                next.registry == #[trigger] self.registry.add_watch(
                    self.job.to_watch()->0,
                    WatchReply::Watching(descriptor),
                )
        } else {
            exists|action|
                #[trigger] self.job.advances(self.registry, action, next.job, next.registry)
        }
    }
}

/// The paths that an action hands over for marking.
pub open spec fn marked_by(action: ActionView) -> Seq<PathView> {
    match action {
        ActionView::Mark(paths) => paths,
        _ => Seq::empty(),
    }
}

/// What a step that does `action` comes to.
proof fn step_is_move(
    world: World,
    rules: Seq<RuleView>,
    now: JobState,
    action: ActionView,
    next: JobState,
)
    requires
        now.does(world, rules, action, next),
    ensures
        now.moves_to(world, rules, next),
        now.job.to_mark() is Some ==> action == ActionView::Mark(now.job.to_mark()->0),
{
    let asked = choose|asked: JobState| #[trigger]
        now.asks(action, asked) && asked.answered(world, rules, action, next);
    if now.job.walk() is Some && !now.job.walk()->0.done() {
        assert(asked.job =~= now.job);
    } else if now.adds_watch() {
        assert(asked.job =~= now.job);
        let (descriptor, outcome) = choose|descriptor: i32, outcome: WatchOutcome| #[trigger]
            asked.job.takes_reply(
                asked.registry,
                WatchReply::Watching(descriptor),
                Ok(Some(outcome)),
                next.job,
                next.registry,
            );
        assert(next.registry == now.registry.add_watch(
            now.job.to_watch()->0,
            WatchReply::Watching(descriptor),
        ));
    } else {
        assert(next == asked);
        assert(now.job.advances(now.registry, action, next.job, next.registry));
    }
}

/// The same of a step that does something.
pub proof fn step_unfolds(world: World, rules: Seq<RuleView>, now: JobState, next: JobState)
    requires
        now.steps_to(world, rules, next),
    ensures
        next.job.tasks == now.job.tasks || (now.job.stage is Idle && now.job.tasks.len() > 0
            && next.job.tasks == now.job.tasks.drop_first()),
        now.job.stage is Idle && now.job.tasks.len() == 0 ==> next == now,
        now.job.stage is Idle && now.job.tasks.len() > 0 && now.job.tasks[0] is RequireRoot
            ==> next.job == ReconcileView::of(now.job.tasks.drop_first()) && next.registry
            == now.registry && now.registry.contains_path(place_of(now.job.tasks[0])),
        next.job.stage is Idle ==> now.job.stage is Watching || (now.job.stage is Idle && (
        now.job.tasks.len() == 0 || now.job.tasks[0] is RequireRoot)),
{
    let action = choose|action: ActionView| #[trigger] now.does(world, rules, action, next);
    step_is_move(world, rules, now, action, next);
}

/// What a step hands over for marking is what was due to be marked, if anything was.
pub proof fn marks_are_handed_over(
    world: World,
    rules: Seq<RuleView>,
    now: JobState,
    action: ActionView,
    next: JobState,
)
    requires
        now.does(world, rules, action, next),
    ensures
        marked_by(action) == (match now.job.to_mark() {
            Some(paths) => paths,
            None => Seq::empty(),
        }),
{
    step_is_move(world, rules, now, action, next);
}

/// True when `states` are the successive states of the work on one task, up to
/// the point where only the tasks in `rest` are left.
pub open spec fn settles(
    world: World,
    rules: Seq<RuleView>,
    task: TaskView,
    rest: Seq<TaskView>,
    states: Seq<JobState>,
) -> bool {
    &&& is_work(world, rules, states)
    &&& states[0].job == ReconcileView::of(seq![task] + rest)
    &&& states.last().job == ReconcileView::of(rest)
    &&& forall|i: int|
        0 <= i < states.len() - 1 ==> (#[trigger] states[i]).job != ReconcileView::of(rest)
}

/// True when `states` are successive states of a reconciliation.
pub open spec fn is_work(world: World, rules: Seq<RuleView>, states: Seq<JobState>) -> bool {
    &&& states.len() > 0
    &&& forall|i: int, j: int|
        0 <= i && j == i + 1 && j < states.len() ==> #[trigger] states[i].steps_to(
            world,
            rules,
            states[j],
        )
}

/// True when no watched path loses its place, but for those in `spare`.
pub open spec fn evict_only(states: Seq<JobState>, spare: Set<PathView>) -> bool {
    forall|i: int, j: int|
        0 <= i && j == i + 1 && j < states.len() ==> #[trigger] states[i].evicts_only(
            spare,
            states[j],
        )
}

/// True when every watch is granted under a descriptor that is not in use.
pub open spec fn unused_descriptors(states: Seq<JobState>) -> bool {
    evict_only(states, Set::empty())
}

/// The paths that are `base` or lie below it.
pub open spec fn subtree(base: PathView) -> Set<PathView> {
    Set::new(|path: PathView| path.starts_with(base))
}

/// The directory that a task is about.
pub open spec fn place_of(task: TaskView) -> PathView {
    match task {
        TaskView::Seed(path) => path,
        TaskView::Rescan(scope) => scope,
        TaskView::RequireRoot(root) => root,
    }
}

/// What a task keeps of what was watched before.
pub open spec fn kept_by(task: TaskView, registry: RegistryView) -> RegistryView {
    match task {
        TaskView::Rescan(scope) => registry.without_subtree(scope),
        _ => registry,
    }
}

/// True when a walk from `start` can be in the state `walk`.
spec fn walk_can_be(
    world: World,
    rules: Seq<RuleView>,
    start: PathView,
    walk: WalkView,
) -> bool {
    exists|states: Seq<WalkView>|
        #[trigger] tree::is_walk(world, rules, start, true, states) && states.last() == walk
}

/// True when `path` is watched in `after` under the descriptor that it has in
/// `before`.
pub open spec fn keeps(before: RegistryView, after: RegistryView, path: PathView) -> bool {
    after.contains_path(path) && after.by_path[path] == before.by_path[path]
}

/// What holds at every point of the work on a task.
spec fn on_course(
    world: World,
    rules: Seq<RuleView>,
    task: TaskView,
    rest: Seq<TaskView>,
    first: RegistryView,
    spare: Set<PathView>,
    now: JobState,
) -> bool {
    let start = place_of(task);
    let kept = kept_by(task, first);
    match now.job.stage {
        StageView::Idle => if now.job.tasks.len() > rest.len() {
            now.job.tasks == seq![task] + rest && now.registry == first
        } else {
            &&& now.job.tasks == rest
            &&& forall|path: PathView| #[trigger]
                now.registry.contains_path(path) ==> kept.contains_path(path)
                    || world.watch_target(rules, start, path)
            &&& forall|path: PathView| #[trigger]
                kept.contains_path(path) && !spare.contains(path) ==> keeps(
                    kept,
                    now.registry,
                    path,
                )
            &&& forall|path: PathView| #[trigger]
                world.watch_target(rules, start, path) && !spare.contains(path)
                    ==> now.registry.contains_path(path)
        },
        StageView::Unwatching { descriptors, scope } => now.job.tasks == rest && scope == start
            && now.registry == kept,
        StageView::Walking(walk) => now.job.tasks == rest && now.registry == kept && walk_can_be(
            world,
            rules,
            start,
            walk,
        ),
        StageView::Watching(directories) => {
            &&& now.job.tasks == rest
            &&& forall|path: PathView| #[trigger]
                now.registry.contains_path(path) ==> kept.contains_path(path)
                    || world.watch_target(rules, start, path)
            &&& forall|path: PathView| #[trigger]
                kept.contains_path(path) && !spare.contains(path) ==> keeps(
                    kept,
                    now.registry,
                    path,
                )
            &&& forall|path: PathView| #[trigger]
                world.watch_target(rules, start, path) && !spare.contains(path)
                    ==> now.registry.contains_path(path) || directories.contains(path)
            &&& forall|path: PathView| #[trigger]
                directories.contains(path) ==> world.watch_target(rules, start, path)
        },
    }
}

/// A step of the walk leads to a state that a walk can be in.
proof fn walk_can_go_on(world: World, rules: Seq<RuleView>, start: PathView, walk: WalkView)
    requires
        walk_can_be(world, rules, start, walk),
    ensures
        walk_can_be(world, rules, start, walk.advance(world, rules)),
{
    let states = choose|states: Seq<WalkView>|
        #[trigger] tree::is_walk(world, rules, start, true, states) && states.last() == walk;
    let more = states.push(walk.advance(world, rules));
    assert forall|i: int| 0 <= i < more.len() - 1 implies more[i + 1] == (
    #[trigger] more[i]).advance(world, rules) by {
        assert(more[i] == states[i]);
        if i < states.len() - 1 {
            assert(states[i + 1] == states[i].advance(world, rules));
        }
    }
    assert(tree::is_walk(world, rules, start, true, more));
}

/// A walk that begins can be in its first state.
proof fn walk_can_begin(world: World, rules: Seq<RuleView>, start: PathView)
    ensures
        walk_can_be(world, rules, start, WalkView::starting(start, true)),
{
    let states = seq![WalkView::starting(start, true)];
    assert(tree::is_walk(world, rules, start, true, states));
}

/// Every step keeps the work on course.
proof fn step_keeps_on_course(
    world: World,
    rules: Seq<RuleView>,
    task: TaskView,
    rest: Seq<TaskView>,
    first: RegistryView,
    spare: Set<PathView>,
    now: JobState,
    next: JobState,
)
    requires
        !(task is RequireRoot),
        on_course(world, rules, task, rest, first, spare, now),
        now.job != ReconcileView::of(rest),
        now.steps_to(world, rules, next),
        now.evicts_only(spare, next),
    ensures
        on_course(world, rules, task, rest, first, spare, next),
{
    let start = place_of(task);
    let done = choose|action: ActionView| #[trigger]
        now.does(world, rules, action, next);
    step_is_move(world, rules, now, done, next);
    match now.job.stage {
        StageView::Idle => {
            walk_can_begin(world, rules, start);
            assert(now.job.tasks[0] == task);
            assert(next.job.tasks =~= rest);
        },
        StageView::Unwatching { descriptors, scope } => {
            walk_can_begin(world, rules, start);
        },
        StageView::Walking(walk) => {
            if walk.done() {
                let states = choose|states: Seq<WalkView>|
                    #[trigger] tree::is_walk(world, rules, start, true, states) && states.last()
                        == walk;
                tree::walk_is_exact(world, rules, start, true, states);
                assert forall|path: PathView| #[trigger]
                    world.watch_target(rules, start, path) implies walk.found.watchers.contains(
                    path,
                ) by {
                    assert(states.last().found.watchers.contains(path) <==> world.watch_target(
                        rules,
                        start,
                        path,
                    ));
                }
            } else {
                walk_can_go_on(world, rules, start, walk);
            }
        },
        StageView::Watching(directories) => {
            if directories.len() > 0 {
                let path = directories[0];
                sequence::contains_before_drop_first(directories);
                assert(directories.contains(path));
                if !now.registry.contains_path(path) {
                    let descriptor = choose|descriptor: i32|
                        next.registry == #[trigger] now.registry.add_watch(
                            path,
                            WatchReply::Watching(descriptor),
                        );
                    assert(next.registry.by_path[path] == descriptor);
                    assert forall|p: PathView| #[trigger]
                        next.registry.contains_path(p) implies now.registry.contains_path(p) || p
                            == path by {}
                    assert forall|p: PathView|
                        now.registry.contains_path(p) && !spare.contains(p) implies (
                    #[trigger] keeps(now.registry, next.registry, p)) by {}
                    assert(next.registry.contains_path(path));
                    let kept = kept_by(task, first);
                    assert forall|p: PathView| #[trigger]
                        kept.contains_path(p) && !spare.contains(p) implies keeps(
                        kept,
                        next.registry,
                        p,
                    ) by {
                        assert(keeps(kept, now.registry, p));
                        assert(keeps(now.registry, next.registry, p));
                    }
                    assert forall|p: PathView| #[trigger]
                        world.watch_target(rules, start, p) && !spare.contains(p) implies (
                    next.registry.contains_path(p) || directories.drop_first().contains(p)) by {
                        if now.registry.contains_path(p) {
                            assert(keeps(now.registry, next.registry, p));
                        }
                    }
                }
            }
        },
    }
}

/// The work on a task is on course throughout.
proof fn settling_stays_on_course(
    world: World,
    rules: Seq<RuleView>,
    task: TaskView,
    rest: Seq<TaskView>,
    states: Seq<JobState>,
    spare: Set<PathView>,
    n: int,
)
    requires
        !(task is RequireRoot),
        settles(world, rules, task, rest, states),
        evict_only(states, spare),
        0 <= n < states.len(),
    ensures
        on_course(world, rules, task, rest, states[0].registry, spare, states[n]),
    decreases n,
{
    if n > 0 {
        settling_stays_on_course(world, rules, task, rest, states, spare, n - 1);
        assert(states[n - 1].steps_to(world, rules, states[n]));
        assert(states[n - 1].job != ReconcileView::of(rest));
        assert(states[n - 1].evicts_only(spare, states[n]));
        step_keeps_on_course(
            world,
            rules,
            task,
            rest,
            states[0].registry,
            spare,
            states[n - 1],
            states[n],
        );
    }
}

/// Once a directory is seeded, what is watched is what was watched before and
/// the directories to watch below it, and nothing else. Once a subtree is
/// rescanned, what is watched outside of it is what was watched there before,
/// and inside of it no entry is left but the directories to watch now. What was
/// watched before and is left alone keeps its descriptor.
///
/// A path in `spare` may lose its place to another path: so it goes with a
/// directory that was renamed, which is watched under its new path with the
/// descriptor that it had.
pub proof fn settling_is_exact(
    world: World,
    rules: Seq<RuleView>,
    task: TaskView,
    rest: Seq<TaskView>,
    states: Seq<JobState>,
    spare: Set<PathView>,
)
    requires
        !(task is RequireRoot),
        settles(world, rules, task, rest, states),
        evict_only(states, spare),
    ensures
        forall|path: PathView| #[trigger]
            states.last().registry.contains_path(path) ==> (states[0].registry.contains_path(path)
                && (task is Seed || !path.starts_with(place_of(task)))) || world.watch_target(
                rules,
                place_of(task),
                path,
            ),
        forall|path: PathView|
            #![trigger states[0].registry.contains_path(path)]
            states[0].registry.contains_path(path) && (task is Seed || !path.starts_with(
                place_of(task),
            )) && !spare.contains(path) ==> keeps(
                states[0].registry,
                states.last().registry,
                path,
            ),
        forall|path: PathView| #[trigger]
            world.watch_target(rules, place_of(task), path) && !spare.contains(path)
                ==> states.last().registry.contains_path(path),
{
    let first = states[0].registry;
    let kept = kept_by(task, first);
    settling_stays_on_course(world, rules, task, rest, states, spare, states.len() - 1);
    assert forall|path: PathView| #[trigger]
        states.last().registry.contains_path(path) implies (first.contains_path(path) && (
    task is Seed || !path.starts_with(place_of(task)))) || world.watch_target(
        rules,
        place_of(task),
        path,
    ) by {
        watch::drain_is_exact(first, place_of(task), path);
    }
    assert forall|path: PathView| #[trigger]
        first.contains_path(path) && (task is Seed || !path.starts_with(place_of(task)))
            && !spare.contains(path) implies keeps(first, states.last().registry, path) by {
        watch::drain_is_exact(first, place_of(task), path);
        assert(kept.contains_path(path));
    }
}

/// What is marked is exact, too: once the walk is done, the paths that are handed
/// over for marking are exactly those below the directory that a rule asks to
/// mark.
pub proof fn marking_is_exact(
    world: World,
    rules: Seq<RuleView>,
    task: TaskView,
    rest: Seq<TaskView>,
    states: Seq<JobState>,
    n: int,
    walk: WalkView,
)
    requires
        !(task is RequireRoot),
        settles(world, rules, task, rest, states),
        0 <= n < states.len(),
        states[n].job.walk() == Some(walk),
        walk.done(),
    ensures
        states[n].job.advances(
            states[n].registry,
            ActionView::Mark(walk.found.matches),
            ReconcileView {
                stage: StageView::Watching(walk.found.watchers),
                ..states[n].job
            },
            states[n].registry,
        ),
        forall|path: PathView| #[trigger]
            walk.found.matches.contains(path) <==> world.mark_target(rules, place_of(task), path),
{
    settling_stays_on_course(world, rules, task, rest, states, Set::full(), n);
    let walked = choose|walked: Seq<WalkView>|
        #[trigger] tree::is_walk(world, rules, place_of(task), true, walked) && walked.last()
            == walk;
    tree::walk_is_exact(world, rules, place_of(task), true, walked);
}

/// True when `paths` are those to mark in the tree below `start`, and no others.
pub open spec fn are_mark_targets(
    world: World,
    rules: Seq<RuleView>,
    start: PathView,
    paths: Seq<PathView>,
) -> bool {
    forall|path: PathView| #[trigger]
        paths.contains(path) <==> world.mark_target(rules, start, path)
}

/// Work that has come to watching has handed over its matches before.
proof fn marking_precedes_watching(
    world: World,
    rules: Seq<RuleView>,
    task: TaskView,
    rest: Seq<TaskView>,
    states: Seq<JobState>,
    n: int,
) -> (k: int)
    requires
        !(task is RequireRoot),
        settles(world, rules, task, rest, states),
        0 <= n < states.len(),
        states[n].job.stage is Watching,
    ensures
        0 <= k < n,
        states[k].job.to_mark() is Some,
    decreases n,
{
    if n > 0 {
        settling_stays_on_course(world, rules, task, rest, states, Set::full(), n - 1);
        assert(states[n - 1].steps_to(world, rules, states[n]));
        assert(states[n - 1].job != ReconcileView::of(rest));
        let done = choose|action: ActionView| #[trigger]
            states[n - 1].does(world, rules, action, states[n]);
        step_is_move(world, rules, states[n - 1], done, states[n]);
        if states[n - 1].job.stage is Watching {
            marking_precedes_watching(world, rules, task, rest, states, n - 1)
        } else {
            if states[n - 1].job.stage is Idle {
                assert(states[n - 1].job.tasks[0] == task);
            }
            n - 1
        }
    } else {
        0
    }
}

/// Once a task is done, everything below its directory that a rule asks to mark
/// was handed over for marking, at one point and with nothing else.
pub proof fn settled_work_has_marked(
    world: World,
    rules: Seq<RuleView>,
    task: TaskView,
    rest: Seq<TaskView>,
    states: Seq<JobState>,
) -> (n: int)
    requires
        !(task is RequireRoot),
        settles(world, rules, task, rest, states),
    ensures
        0 <= n < states.len() - 1,
        states[n].job.to_mark() is Some,
        are_mark_targets(world, rules, place_of(task), states[n].job.to_mark()->0),
{
    let end = states.len() - 1;
    if end == 0 {
        assert((seq![task] + rest).len() != rest.len());
    }
    settling_stays_on_course(world, rules, task, rest, states, Set::full(), end - 1);
    assert(states[end - 1].steps_to(world, rules, states[end]));
    assert(states[end - 1].job != ReconcileView::of(rest));
    let done = choose|action: ActionView| #[trigger]
        states[end - 1].does(world, rules, action, states[end]);
    step_is_move(world, rules, states[end - 1], done, states[end]);
    if states[end - 1].job.stage is Idle {
        assert(states[end - 1].job.tasks[0] == task);
    }
    let n = marking_precedes_watching(world, rules, task, rest, states, end - 1);
    if let StageView::Walking(walk) = states[n].job.stage {
        marking_is_exact(world, rules, task, rest, states, n, walk);
    }
    n
}

/// A rescan reconciles its scope and leaves the rest alone: afterwards a path in
/// the scope is watched exactly when a fresh discovery of the scope finds it, so
/// stale entries are pruned and what was missed is watched; a path outside of the
/// scope is watched exactly if it was before, under the same descriptor. Nothing
/// about it fails.
pub proof fn rescan_matches_fresh_discovery(
    world: World,
    rules: Seq<RuleView>,
    scope: PathView,
    rest: Seq<TaskView>,
    states: Seq<JobState>,
)
    requires
        world.well_named(),
        settles(world, rules, TaskView::Rescan(scope), rest, states),
        unused_descriptors(states),
    ensures
        forall|path: PathView|
            path.starts_with(scope) ==> (#[trigger] states.last().registry.contains_path(path)
                <==> world.watch_target(rules, scope, path)),
        forall|path: PathView|
            !path.starts_with(scope) ==> (#[trigger] states.last().registry.contains_path(path)
                <==> states[0].registry.contains_path(path)),
        forall|path: PathView|
            !path.starts_with(scope) && #[trigger] states.last().registry.contains_path(path)
                ==> states.last().registry.by_path[path] == states[0].registry.by_path[path],
        forall|n: int|
            0 <= n < states.len() - 1 ==> !(#[trigger] states[n]).job.root_is_missing(
                states[n].registry,
            ),
{
    let task = TaskView::Rescan(scope);
    let last = states.last().registry;
    settling_is_exact(world, rules, task, rest, states, Set::empty());
    assert(place_of(task) == scope);
    assert forall|path: PathView| path.starts_with(scope) implies (
    #[trigger] last.contains_path(path) <==> world.watch_target(rules, scope, path)) by {
        assert(world.watch_target(rules, scope, path) ==> last.contains_path(path));
    }
    assert forall|path: PathView| !path.starts_with(scope) implies (
    #[trigger] last.contains_path(path) <==> states[0].registry.contains_path(path)) && (
    last.contains_path(path) ==> last.by_path[path] == states[0].registry.by_path[path]) by {
        if world.watch_target(rules, scope, path) {
            tree::walk_stays_below_start(world, rules, scope, path);
        }
        assert(states[0].registry.contains_path(path) ==> keeps(
            states[0].registry,
            last,
            path,
        ));
    }
    assert forall|n: int| 0 <= n < states.len() - 1 implies !(
    #[trigger] states[n]).job.root_is_missing(states[n].registry) by {
        settling_stays_on_course(world, rules, task, rest, states, Set::empty(), n);
        assert(states[n].job != ReconcileView::of(rest));
        if states[n].job.stage is Idle && states[n].job.tasks.len() > rest.len() {
            assert(states[n].job.tasks[0] == task);
        }
    }
}

/// A rescan leaves everything outside its scope as it was, down to the
/// descriptors.
pub proof fn rescan_leaves_the_rest_alone(
    world: World,
    rules: Seq<RuleView>,
    scope: PathView,
    rest: Seq<TaskView>,
    states: Seq<JobState>,
    path: PathView,
)
    requires
        world.well_named(),
        settles(world, rules, TaskView::Rescan(scope), rest, states),
        unused_descriptors(states),
        !path.starts_with(scope),
    ensures
        states.last().registry.contains_path(path) <==> states[0].registry.contains_path(path),
        states[0].registry.contains_path(path) ==> states.last().registry.by_path[path]
            == states[0].registry.by_path[path],
{
    rescan_matches_fresh_discovery(world, rules, scope, rest, states);
}

/// Nothing is reached below a start that the walk does not go into.
pub proof fn nothing_below_a_skipped_start(
    world: World,
    rules: Seq<RuleView>,
    start: PathView,
    steps: nat,
    path: PathView,
)
    requires
        !world.descended(rules, start),
        world.reached_in(rules, start, steps, path),
    ensures
        path == start,
    decreases steps,
{
    if steps > 0 {
        let (dir, i) = choose|dir: PathView, i: int|
            #![trigger world.holds(dir, i, path, FileType::Directory)]
            world.reached_in(rules, start, (steps - 1) as nat, dir) && world.descended(rules, dir)
                && world.holds(dir, i, path, FileType::Directory);
        nothing_below_a_skipped_start(world, rules, start, (steps - 1) as nat, dir);
    }
}

/// A rescan of a directory that is gone, or that a rule has come to skip, leaves
/// nothing at or below it watched.
pub proof fn rescan_prunes_what_is_gone(
    world: World,
    rules: Seq<RuleView>,
    scope: PathView,
    rest: Seq<TaskView>,
    states: Seq<JobState>,
    path: PathView,
)
    requires
        settles(world, rules, TaskView::Rescan(scope), rest, states),
        !world.descended(rules, scope),
        path.starts_with(scope),
    ensures
        !states.last().registry.contains_path(path),
{
    settling_is_exact(world, rules, TaskView::Rescan(scope), rest, states, Set::full());
    if world.watch_target(rules, scope, path) {
        let steps = choose|steps: nat| world.reached_in(rules, scope, steps, path);
        nothing_below_a_skipped_start(world, rules, scope, steps, path);
    }
}

/// A root that cannot be read, or that a rule keeps the walk out of, is not
/// watched after a rescan, so requiring it fails.
pub proof fn vanished_root_is_noticed(
    world: World,
    rules: Seq<RuleView>,
    root: PathView,
    states: Seq<JobState>,
)
    requires
        settles(
            world,
            rules,
            TaskView::Rescan(root),
            seq![TaskView::RequireRoot(root)],
            states,
        ),
        !world.descended(rules, root),
    ensures
        states.last().job.root_is_missing(states.last().registry),
{
    path::starts_with_is_reflexive(root);
    rescan_prunes_what_is_gone(
        world,
        rules,
        root,
        seq![TaskView::RequireRoot(root)],
        states,
        root,
    );
}

/// Seeding a directory again, when everything to watch below it is watched,
/// adds no watch and changes nothing.
pub proof fn seeding_again_changes_nothing(
    world: World,
    rules: Seq<RuleView>,
    start: PathView,
    rest: Seq<TaskView>,
    states: Seq<JobState>,
    n: int,
)
    requires
        settles(world, rules, TaskView::Seed(start), rest, states),
        forall|path: PathView| #[trigger]
            world.watch_target(rules, start, path) ==> states[0].registry.contains_path(path),
        0 <= n < states.len(),
    ensures
        states[n].registry == states[0].registry,
        states[n].job.to_watch() is Some ==> states[n].registry.contains_path(
            states[n].job.to_watch()->0,
        ),
    decreases n,
{
    let task = TaskView::Seed(start);
    settling_stays_on_course(world, rules, task, rest, states, Set::full(), n);
    if n > 0 {
        seeding_again_changes_nothing(world, rules, start, rest, states, n - 1);
        settling_stays_on_course(world, rules, task, rest, states, Set::full(), n - 1);
        assert(states[n - 1].steps_to(world, rules, states[n]));
        assert(states[n - 1].job != ReconcileView::of(rest));
        let done = choose|action: ActionView| #[trigger]
            states[n - 1].does(world, rules, action, states[n]);
        step_is_move(world, rules, states[n - 1], done, states[n]);
        if states[n - 1].job.stage is Idle {
            assert(states[n - 1].job.tasks[0] == task);
        }
    }
    if states[n].job.to_watch() is Some {
        if let StageView::Watching(directories) = states[n].job.stage {
            assert(directories.contains(directories[0]));
        }
    }
}

/// Where a watch is still to be dropped, it is dropped later on.
proof fn unwatching_goes_on(
    world: World,
    rules: Seq<RuleView>,
    states: Seq<JobState>,
    n: int,
    descriptors: Seq<i32>,
    scope: PathView,
    k: int,
) -> (m: int)
    requires
        is_work(world, rules, states),
        states.last().job.stage is Idle,
        0 <= n < states.len(),
        states[n].job.stage == (StageView::Unwatching { descriptors, scope }),
        0 <= k < descriptors.len(),
    ensures
        n <= m < states.len() - 1,
        drops_watch(world, rules, states, m, descriptors[k]),
    decreases k,
{
    assert(n < states.len() - 1);
    assert(states[n].steps_to(world, rules, states[n + 1]));
    assert forall|action: ActionView| #[trigger]
        states[n].does(world, rules, action, states[n + 1]) implies action == ActionView::Unwatch(
        descriptors[0],
    ) && states[n + 1].job.stage == (StageView::Unwatching {
        descriptors: descriptors.drop_first(),
        scope,
    }) by {
        let asked = choose|asked: JobState| #[trigger]
            states[n].asks(action, asked) && asked.answered(world, rules, action, states[n + 1]);
    }
    if k == 0 {
        n
    } else {
        let action = choose|action: ActionView| #[trigger]
            states[n].does(world, rules, action, states[n + 1]);
        unwatching_goes_on(
            world,
            rules,
            states,
            n + 1,
            descriptors.drop_first(),
            scope,
            k - 1,
        )
    }
}

/// True when step `n` has the watch with this descriptor dropped.
pub open spec fn drops_watch(
    world: World,
    rules: Seq<RuleView>,
    states: Seq<JobState>,
    n: int,
    descriptor: i32,
) -> bool {
    &&& 0 <= n < states.len() - 1
    &&& forall|action: ActionView| #[trigger]
        states[n].does(world, rules, action, states[n + 1]) ==> action == ActionView::Unwatch(
            descriptor,
        )
}

/// A rescan has the watch of every path dropped that was watched at or below its
/// scope, so that none lingers in the kernel under a descriptor that nothing stands
/// for.
pub proof fn rescan_drops_every_watch(
    world: World,
    rules: Seq<RuleView>,
    scope: PathView,
    rest: Seq<TaskView>,
    states: Seq<JobState>,
    path: PathView,
)
    requires
        settles(world, rules, TaskView::Rescan(scope), rest, states),
        states[0].registry.contains_path(path),
        path.starts_with(scope),
    ensures
        exists|n: int| #[trigger]
            drops_watch(world, rules, states, n, states[0].registry.by_path[path]),
{
    let registry = states[0].registry;
    let descriptor = registry.by_path[path];
    if states.len() == 1 {
        assert((seq![TaskView::Rescan(scope)] + rest).len() != rest.len());
    }
    assert(states[0].steps_to(world, rules, states[1]));
    let action = choose|action: ActionView| #[trigger]
        states[0].does(world, rules, action, states[1]);
    let asked = choose|asked: JobState| #[trigger]
        states[0].asks(action, asked) && asked.answered(world, rules, action, states[1]);
    assert(states[0].job.tasks[0] == TaskView::Rescan(scope));
    if let StageView::Unwatching { descriptors, scope: below } = states[1].job.stage {
        assert(registry.watched_under(scope, path));
        assert(registry.descriptors_under(scope).contains(descriptor));
        assert(descriptors.to_set().contains(descriptor));
        let k = choose|k: int| 0 <= k < descriptors.len() && descriptors[k] == descriptor;
        let m = unwatching_goes_on(world, rules, states, 1, descriptors, below, k);
    }
}

/// A task drops no watch but those that a rescan of its scope has to drop.
proof fn only_these_are_dropped(
    world: World,
    rules: Seq<RuleView>,
    task: TaskView,
    rest: Seq<TaskView>,
    states: Seq<JobState>,
    n: int,
)
    requires
        !(task is RequireRoot),
        settles(world, rules, task, rest, states),
        0 <= n < states.len(),
    ensures
        states[n].job.stage matches StageView::Unwatching { descriptors, scope } ==> task is Rescan
            && forall|descriptor: i32| #[trigger]
            descriptors.contains(descriptor) ==> states[0].registry.descriptors_under(
                place_of(task),
            ).contains(descriptor),
    decreases n,
{
    if n > 0 {
        only_these_are_dropped(world, rules, task, rest, states, n - 1);
        settling_stays_on_course(world, rules, task, rest, states, Set::full(), n - 1);
        assert(states[n - 1].steps_to(world, rules, states[n]));
        assert(states[n - 1].job != ReconcileView::of(rest));
        let done = choose|action: ActionView| #[trigger]
            states[n - 1].does(world, rules, action, states[n]);
        step_is_move(world, rules, states[n - 1], done, states[n]);
        match states[n - 1].job.stage {
            StageView::Idle => {
                assert(states[n - 1].job.tasks[0] == task);
                if let StageView::Unwatching { descriptors, scope } = states[n].job.stage {
                    assert forall|descriptor: i32| #[trigger]
                        descriptors.contains(descriptor) implies states[0].registry.descriptors_under(
                        place_of(task),
                    ).contains(descriptor) by {
                        assert(descriptors.to_set().contains(descriptor));
                    }
                }
            },
            StageView::Unwatching { descriptors, scope } => {
                if descriptors.len() > 0 {
                    sequence::contains_before_drop_first(descriptors);
                }
            },
            _ => {},
        }
    }
}

/// Seeding drops no watch, and a rescan drops none but those of paths that were
/// watched at or below its scope.
pub proof fn watches_elsewhere_are_not_dropped(
    world: World,
    rules: Seq<RuleView>,
    task: TaskView,
    rest: Seq<TaskView>,
    states: Seq<JobState>,
    n: int,
    descriptor: i32,
)
    requires
        !(task is RequireRoot),
        settles(world, rules, task, rest, states),
        0 <= n < states.len() - 1,
        states[n].does(world, rules, ActionView::Unwatch(descriptor), states[n + 1]),
    ensures
        task is Rescan,
        exists|path: PathView| #[trigger]
            states[0].registry.contains_path(path) && path.starts_with(task->Rescan_0)
                && states[0].registry.by_path[path] == descriptor,
{
    let action = ActionView::Unwatch(descriptor);
    let asked = choose|asked: JobState| #[trigger]
        states[n].asks(action, asked) && asked.answered(world, rules, action, states[n + 1]);
    only_these_are_dropped(world, rules, task, rest, states, n);
    settling_stays_on_course(world, rules, task, rest, states, Set::full(), n);
    if let StageView::Unwatching { descriptors, scope } = states[n].job.stage {
        assert(descriptors[0] == descriptor);
        assert(descriptors.contains(descriptor));
        let path = choose|path: PathView| #[trigger]
            states[0].registry.watched_under(place_of(task), path)
                && states[0].registry.by_path[path] == descriptor;
        assert(states[0].registry.contains_path(path));
    }
}

} // verus!

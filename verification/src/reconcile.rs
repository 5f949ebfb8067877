//! Bringing the watch set in line with the tree.
//!
//! A reconciliation works off a list of tasks. It asks for one thing at a time
//! (drop a watch, look at the tree, mark what matches, add a watch) and is told
//! what came of it.

use crate::discovery;
use crate::discovery::{
    EntryView, Inspection, InspectionView, ListedEntry, PathMatch, PathMatchView,
    Walk, WalkRequest, WalkView,
};
use crate::engine::RuleEngine;
use crate::error;
use crate::error::Failure;
use crate::path;
use crate::path::{PathView, TreePath};
use crate::rules::{RuleMatch, RuleView};
use crate::text;
use crate::watch;
use crate::watch::{RegistryView, WatchOutcome, WatchRegistry, WatchReply};
use vstd::prelude::*;

verus! {

/// A piece of work on the watch set, as a mathematical value.
#[verifier::ext_equal]
pub enum TaskView {
    Seed(PathView),
    Rescan(PathView),
    RequireRoot(PathView),
}

/// A piece of work on the watch set.
#[derive(Debug)]
pub enum Task {
    /// Mark what matches below this directory, and watch what is to be watched.
    Seed(TreePath),
    /// Drop every watch at or below this directory, and seed it anew. Used after
    /// a queue overflow (for the root), where dropped events mean that no
    /// descriptor can be trusted, when a trigger file appears (for its
    /// directory), where a sibling may have just started matching, and when a
    /// directory moves away (for its old path).
    Rescan(TreePath),
    /// Fail unless the root is watched.
    RequireRoot(TreePath),
}

impl View for Task {
    type V = TaskView;

    open spec fn view(&self) -> TaskView {
        match self {
            Task::Seed(path) => TaskView::Seed(path@),
            Task::Rescan(path) => TaskView::Rescan(path@),
            Task::RequireRoot(path) => TaskView::RequireRoot(path@),
        }
    }
}

/// The tasks behind a sequence of `Task`s.
pub open spec fn task_views(tasks: Seq<Task>) -> Seq<TaskView> {
    tasks.map_values(|task: Task| task@)
}

impl Task {
    /// True when the path is spelled by joining names to `base`.
    pub open spec fn spelled_from(&self, base: Seq<u8>) -> bool {
        match self {
            Task::Seed(path) => path.spelled_from(base),
            Task::Rescan(path) => path.spelled_from(base),
            Task::RequireRoot(path) => path.spelled_from(base),
        }
    }
}

/// True when the paths of all tasks are spelled by joining names to `base`.
pub open spec fn tasks_spelled_from(tasks: Seq<Task>, base: Seq<u8>) -> bool {
    forall|i: int| 0 <= i < tasks.len() ==> (#[trigger] tasks[i]).spelled_from(base)
}

/// How far the current task is, as a mathematical value.
#[verifier::ext_equal]
pub enum StageView {
    /// No task is under way.
    Idle,
    /// These descriptors are still to be dropped; then the scope is walked.
    Unwatching { descriptors: Seq<i32>, scope: PathView },
    /// A walk is under way.
    Walking(WalkView),
    /// These directories are still to be watched.
    Watching(Seq<PathView>),
}

/// A reconciliation as a mathematical value.
#[verifier::ext_equal]
pub struct ReconcileView {
    pub tasks: Seq<TaskView>,
    pub stage: StageView,
}

/// What is asked for, as a mathematical value.
#[verifier::ext_equal]
pub enum ActionView {
    Continue,
    Unwatch(i32),
    Inspect(PathView),
    List(PathView),
    Mark(Seq<PathView>),
    Watch(PathView),
    Done,
}

/// What has to be done next.
#[derive(Debug)]
pub enum Action {
    /// Nothing; ask again.
    Continue,
    /// Drop this watch. It makes no difference whether that succeeds: the kernel
    /// may have dropped it already.
    Unwatch(i32),
    /// Report what this path leads to, to `Reconcile::inspected`.
    Inspect(TreePath),
    /// Report the entries of this directory, to `Reconcile::listed`.
    List(TreePath),
    /// Mark these paths, continuing past individual failures.
    Mark(Vec<TreePath>),
    /// Watch this directory, and report the answer to `Reconcile::watched`.
    Watch(TreePath),
    /// Nothing is left to do.
    Done,
}

impl View for Action {
    type V = ActionView;

    open spec fn view(&self) -> ActionView {
        match self {
            Action::Continue => ActionView::Continue,
            Action::Unwatch(descriptor) => ActionView::Unwatch(*descriptor),
            Action::Inspect(path) => ActionView::Inspect(path@),
            Action::List(path) => ActionView::List(path@),
            Action::Mark(paths) => ActionView::Mark(discovery::path_views(paths@)),
            Action::Watch(path) => ActionView::Watch(path@),
            Action::Done => ActionView::Done,
        }
    }
}

impl Action {
    /// True when the paths are spelled by joining names to `base`.
    pub open spec fn spelled_from(&self, base: Seq<u8>) -> bool {
        match self {
            Action::Inspect(path) => path.spelled_from(base),
            Action::List(path) => path.spelled_from(base),
            Action::Mark(paths) => discovery::all_spelled_from(paths@, base),
            Action::Watch(path) => path.spelled_from(base),
            _ => true,
        }
    }
}

impl ReconcileView {
    /// The reconciliation that is about to do `tasks`.
    pub open spec fn of(tasks: Seq<TaskView>) -> ReconcileView {
        ReconcileView { tasks, stage: StageView::Idle }
    }

    /// True when the next task is to require a root that is not watched.
    pub open spec fn root_is_missing(self, registry: RegistryView) -> bool {
        &&& self.stage is Idle
        &&& self.tasks.len() > 0
        &&& self.tasks[0] matches TaskView::RequireRoot(root) && !registry.contains_path(root)
    }

    /// True when asking for the next action can give `action` and leave
    /// `next` and `next_registry` behind. A rescan forgets its subtree at once
    /// and then has the watches dropped one by one, in no particular order.
    pub open spec fn advances(
        self,
        registry: RegistryView,
        action: ActionView,
        next: ReconcileView,
        next_registry: RegistryView,
    ) -> bool {
        match self.stage {
            StageView::Idle => if self.tasks.len() == 0 {
                &&& action is Done
                &&& next == self
                &&& next_registry == registry
            } else {
                &&& action is Continue
                &&& next.tasks == self.tasks.drop_first()
                &&& match self.tasks[0] {
                    TaskView::Seed(path) => {
                        &&& next.stage == StageView::Walking(WalkView::starting(path, true))
                        &&& next_registry == registry
                    },
                    TaskView::Rescan(scope) => {
                        &&& next.stage matches StageView::Unwatching { descriptors, scope: below }
                            && below == scope && descriptors.no_duplicates()
                            && descriptors.to_set() == registry.descriptors_under(scope)
                        &&& next_registry == registry.without_subtree(scope)
                    },
                    TaskView::RequireRoot(root) => {
                        &&& registry.contains_path(root)
                        &&& next.stage is Idle
                        &&& next_registry == registry
                    },
                }
            },
            StageView::Unwatching { descriptors, scope } => {
                &&& next.tasks == self.tasks
                &&& next_registry == registry
                &&& if descriptors.len() == 0 {
                    &&& action is Continue
                    &&& next.stage == StageView::Walking(WalkView::starting(scope, true))
                } else {
                    &&& action == ActionView::Unwatch(descriptors[0])
                    &&& next.stage == StageView::Unwatching {
                        descriptors: descriptors.drop_first(),
                        scope,
                    }
                }
            },
            StageView::Walking(walk) => {
                &&& next.tasks == self.tasks
                &&& next_registry == registry
                &&& match walk.listing {
                    Some(dir) => action == ActionView::List(dir) && next.stage == self.stage,
                    None => if walk.stack.len() > 0 {
                        action == ActionView::Inspect(walk.stack.last()) && next.stage
                            == self.stage
                    } else {
                        action == ActionView::Mark(walk.found.matches) && next.stage
                            == StageView::Watching(walk.found.watchers)
                    },
                }
            },
            StageView::Watching(directories) => {
                &&& next.tasks == self.tasks
                &&& next_registry == registry
                &&& if directories.len() == 0 {
                    action is Continue && next.stage is Idle
                } else if registry.contains_path(directories[0]) {
                    action is Continue && next.stage == StageView::Watching(
                        directories.drop_first(),
                    )
                } else {
                    action == ActionView::Watch(directories[0]) && next.stage == self.stage
                }
            },
        }
    }

    /// The walk that is under way.
    pub open spec fn walk(self) -> Option<WalkView> {
        match self.stage {
            StageView::Walking(walk) => Some(walk),
            _ => None,
        }
    }

    /// The paths that are handed over for marking next.
    pub open spec fn to_mark(self) -> Option<Seq<PathView>> {
        match self.stage {
            StageView::Walking(walk) => if walk.done() {
                Some(walk.found.matches)
            } else {
                None
            },
            _ => None,
        }
    }

    /// The reconciliation after the path in question was inspected.
    pub open spec fn inspected(
        self,
        rules: Seq<RuleView>,
        seen: Option<InspectionView>,
    ) -> ReconcileView {
        match self.stage {
            StageView::Walking(walk) => ReconcileView {
                stage: StageView::Walking(walk.inspected(rules, seen)),
                ..self
            },
            _ => self,
        }
    }

    /// The reconciliation after the directory in question was listed.
    pub open spec fn listed(
        self,
        rules: Seq<RuleView>,
        seen: Option<Seq<EntryView>>,
    ) -> ReconcileView {
        match self.stage {
            StageView::Walking(walk) => ReconcileView {
                stage: StageView::Walking(walk.listed(rules, seen)),
                ..self
            },
            _ => self,
        }
    }

    /// The directory to be watched next.
    pub open spec fn to_watch(self) -> Option<PathView> {
        match self.stage {
            StageView::Watching(directories) => if directories.len() > 0 {
                Some(directories[0])
            } else {
                None
            },
            _ => None,
        }
    }

    /// True when taking `reply` can give `result` and leave `next` and
    /// `next_registry` behind. Only a full watch table is a failure.
    pub open spec fn takes_reply(
        self,
        registry: RegistryView,
        reply: WatchReply,
        result: Result<Option<WatchOutcome>, Failure>,
        next: ReconcileView,
        next_registry: RegistryView,
    ) -> bool {
        match self.to_watch() {
            None => result matches Ok(None) && next == self && next_registry == registry,
            Some(path) => {
                &&& next_registry == registry.add_watch(path, reply)
                &&& match result {
                    Ok(Some(outcome)) => {
                        &&& next == self.watched()
                        &&& outcome is AlreadyWatched <==> registry.contains_path(path)
                        &&& outcome is Watching <==> !registry.contains_path(path)
                            && reply is Watching
                        &&& registry.contains_path(path) || !reply.is_watch_limit()
                    },
                    Ok(None) => false,
                    Err(Failure::WatchLimit(full)) => {
                        &&& next == self
                        &&& !registry.contains_path(path)
                        &&& reply.is_watch_limit()
                        &&& full@ == path
                    },
                    Err(_) => false,
                }
            },
        }
    }

    /// The reconciliation after the directory in question was watched or
    /// skipped.
    pub open spec fn watched(self) -> ReconcileView {
        match self.stage {
            StageView::Watching(directories) => if directories.len() > 0 {
                ReconcileView { stage: StageView::Watching(directories.drop_first()), ..self }
            } else {
                self
            },
            _ => self,
        }
    }
}

/// How far the current task is.
enum Stage {
    Idle,
    Unwatching { descriptors: Vec<i32>, next: usize, scope: TreePath },
    Walking(Walk),
    Watching { directories: Vec<TreePath>, next: usize },
}

impl View for Stage {
    type V = StageView;

    closed spec fn view(&self) -> StageView {
        match self {
            Stage::Idle => StageView::Idle,
            Stage::Unwatching { descriptors, next, scope } => StageView::Unwatching {
                descriptors: descriptors@.skip(*next as int),
                scope: scope@,
            },
            Stage::Walking(walk) => StageView::Walking(walk@),
            Stage::Watching { directories, next } => StageView::Watching(
                discovery::path_views(directories@).skip(*next as int),
            ),
        }
    }
}

impl Stage {
    spec fn well_formed(self) -> bool {
        match self {
            Stage::Unwatching { descriptors, next, scope } => next <= descriptors@.len(),
            Stage::Watching { directories, next } => next <= directories@.len(),
            _ => true,
        }
    }

    spec fn spelled_from(self, base: Seq<u8>) -> bool {
        match self {
            Stage::Idle => true,
            Stage::Unwatching { descriptors, next, scope } => scope.spelled_from(base),
            Stage::Walking(walk) => walk.spelled_from(base),
            Stage::Watching { directories, next } => discovery::all_spelled_from(
                directories@,
                base,
            ),
        }
    }
}

/// Work on the watch set that is under way.
pub struct Reconcile {
    tasks: Vec<Task>,
    next: usize,
    stage: Stage,
}

impl View for Reconcile {
    type V = ReconcileView;

    closed spec fn view(&self) -> ReconcileView {
        ReconcileView {
            tasks: task_views(self.tasks@).skip(self.next as int),
            stage: self.stage@,
        }
    }
}

impl Reconcile {
    #[verifier::type_invariant]
    closed spec fn well_formed(self) -> bool {
        &&& self.next <= self.tasks@.len()
        &&& self.stage.well_formed()
    }

    /// True when every path is spelled by joining names to `base`.
    pub closed spec fn spelled_from(&self, base: Seq<u8>) -> bool {
        tasks_spelled_from(self.tasks@, base) && self.stage.spelled_from(base)
    }

    /// Takes on `tasks`, to be done in order.
    pub fn new(tasks: Vec<Task>) -> (job: Reconcile)
        ensures
            job@ == ReconcileView::of(task_views(tasks@)),
            forall|base: Seq<u8>| #[trigger]
                tasks_spelled_from(tasks@, base) ==> job.spelled_from(base),
    {
        let job = Reconcile { tasks, next: 0, stage: Stage::Idle };
        assert(job@.tasks =~= task_views(tasks@));
        job
    }

    /// Says what has to be done next. Fails when a root that must be watched is
    /// not: the tree is gone, and idling with no watches would hide it.
    pub fn advance(&mut self, registry: &mut WatchRegistry) -> (result: Result<Action, Failure>)
        ensures
            match result {
                Ok(action) => old(self)@.advances(
                    old(registry)@,
                    action@,
                    final(self)@,
                    final(registry)@,
                ),
                Err(Failure::RootDisappeared(root)) => old(self)@.root_is_missing(old(registry)@)
                    && old(self)@.tasks[0] == TaskView::RequireRoot(root@) && final(registry)@
                    == old(registry)@ && final(self)@ == old(self)@,
                Err(_) => false,
            },
            forall|base: Seq<u8>| #[trigger]
                old(self).spelled_from(base) && old(registry).spelled_from(base) ==> {
                    &&& final(self).spelled_from(base)
                    &&& final(registry).spelled_from(base)
                    &&& match result {
                        Ok(action) => action.spelled_from(base),
                        Err(failure) => failure.spelled_from(base),
                    }
                },
    {
        proof {
            use_type_invariant(&*self);
        }
        let ghost before = self@;
        let mut stage = Stage::Idle;
        std::mem::swap(&mut stage, &mut self.stage);
        match stage {
            Stage::Idle => self.begin(registry),
            Stage::Unwatching { descriptors, next, scope } => {
                if next < descriptors.len() {
                    let descriptor = descriptors[next];
                    proof {
                        let left = descriptors@.skip(next as int);
                        assert(left[0] == descriptor);
                        assert(descriptors@.skip(next + 1) =~= left.drop_first());
                    }
                    self.stage = Stage::Unwatching { descriptors, next: next + 1, scope };
                    Ok(Action::Unwatch(descriptor))
                } else {
                    self.stage = Stage::Walking(Walk::discover_watch_targets(&scope));
                    Ok(Action::Continue)
                }
            },
            Stage::Walking(walk) => {
                match walk.request() {
                    WalkRequest::Inspect(path) => {
                        self.stage = Stage::Walking(walk);
                        Ok(Action::Inspect(path))
                    },
                    WalkRequest::List(path) => {
                        self.stage = Stage::Walking(walk);
                        Ok(Action::List(path))
                    },
                    WalkRequest::Done => {
                        let found = walk.finish();
                        let ghost directories = discovery::path_views(found.watchers@);
                        assert(directories.skip(0) =~= directories);
                        self.stage = Stage::Watching { directories: found.watchers, next: 0 };
                        Ok(Action::Mark(found.matches))
                    },
                }
            },
            Stage::Watching { directories, next } => {
                let ghost left = discovery::path_views(directories@).skip(next as int);
                if next >= directories.len() {
                    return Ok(Action::Continue);
                }
                let path = directories[next].clone();
                assert(left[0] == path@);
                if registry.contains_path(&path) {
                    assert(discovery::path_views(directories@).skip(next + 1)
                        =~= left.drop_first());
                    self.stage = Stage::Watching { directories, next: next + 1 };
                    return Ok(Action::Continue);
                }
                self.stage = Stage::Watching { directories, next };
                Ok(Action::Watch(path))
            },
        }
    }

    /// Begins the next task.
    fn begin(&mut self, registry: &mut WatchRegistry) -> (result: Result<Action, Failure>)
        requires
            old(self)@.stage is Idle,
        ensures
            match result {
                Ok(action) => old(self)@.advances(
                    old(registry)@,
                    action@,
                    final(self)@,
                    final(registry)@,
                ),
                Err(Failure::RootDisappeared(root)) => old(self)@.root_is_missing(old(registry)@)
                    && old(self)@.tasks[0] == TaskView::RequireRoot(root@) && final(registry)@
                    == old(registry)@ && final(self)@ == old(self)@,
                Err(_) => false,
            },
            forall|base: Seq<u8>| #[trigger]
                old(self).spelled_from(base) && old(registry).spelled_from(base) ==> {
                    &&& final(self).spelled_from(base)
                    &&& final(registry).spelled_from(base)
                    &&& match result {
                        Ok(action) => action.spelled_from(base),
                        Err(failure) => failure.spelled_from(base),
                    }
                },
    {
        proof {
            use_type_invariant(&*self);
        }
        let ghost before = self@;
        if self.next >= self.tasks.len() {
            return Ok(Action::Done);
        }
        let ghost rest = before.tasks.drop_first();
        proof {
            assert(before.tasks[0] == self.tasks@[self.next as int]@);
            assert(task_views(self.tasks@).skip(self.next + 1) =~= rest);
            assert forall|base: Seq<u8>| #[trigger] self.spelled_from(base) implies self.tasks@[
                self.next as int
            ].spelled_from(base) by {}
        }
        match &self.tasks[self.next] {
            Task::Seed(path) => {
                let walk = Walk::discover_watch_targets(path);
                self.next = self.next + 1;
                self.stage = Stage::Walking(walk);
            },
            Task::Rescan(scope) => {
                let scope = scope.clone();
                let descriptors = registry.drain_subtree(&scope);
                assert(descriptors@.skip(0) =~= descriptors@);
                assert forall|base: Seq<u8>| #[trigger]
                    old(registry).spelled_from(base) implies registry.spelled_from(base) by {
                    assert forall|descriptor: i32| #[trigger]
                        registry@.by_descriptor.contains_key(
                            descriptor,
                        ) implies registry.spellings().contains_key(descriptor)
                        && registry.spellings()[descriptor] == path::respelled(
                        base,
                        registry@.by_descriptor[descriptor],
                    ) by {
                        assert(old(registry)@.by_descriptor.contains_key(descriptor));
                    }
                }
                self.next = self.next + 1;
                self.stage = Stage::Unwatching { descriptors, next: 0, scope };
            },
            Task::RequireRoot(root) => {
                if !registry.contains_path(root) {
                    return Err(Failure::RootDisappeared(root.clone()));
                }
                self.next = self.next + 1;
            },
        }
        Ok(Action::Continue)
    }

    /// Takes what was seen at the path that `Action::Inspect` names, nothing if
    /// it could not be read, and returns the match to report. Does nothing when
    /// no inspection is due.
    pub fn inspected(&mut self, rules: &RuleEngine, seen: Option<Inspection>) -> (matched: Option<
        RuleMatch,
    >)
        ensures
            final(self)@ == old(self)@.inspected(rules@, discovery::inspection_view(seen)),
            ({
                let verdict = match old(self)@.walk() {
                    Some(walk) => walk.inspected_verdict(
                        rules@,
                        discovery::inspection_view(seen),
                    ),
                    None => None,
                };
                match matched {
                    Some(found) => verdict == Some(found@),
                    None => verdict is None,
                }
            }),
            forall|base: Seq<u8>| #[trigger]
                old(self).spelled_from(base) ==> final(self).spelled_from(base),
    {
        proof {
            use_type_invariant(&*self);
        }
        let mut stage = Stage::Idle;
        std::mem::swap(&mut stage, &mut self.stage);
        if let Stage::Walking(mut walk) = stage {
            let matched = walk.inspected(rules, seen);
            self.stage = Stage::Walking(walk);
            return matched;
        }
        self.stage = stage;
        None
    }

    /// Takes the entries of the directory that `Action::List` names, nothing if
    /// it could not be read, and returns the matches to report. Does nothing
    /// when no listing is due.
    pub fn listed(&mut self, rules: &RuleEngine, seen: Option<Vec<ListedEntry>>) -> (matched: Vec<
        PathMatch,
    >)
        ensures
            final(self)@ == old(self)@.listed(rules@, discovery::listing_view(seen)),
            discovery::match_views(matched@) == (match old(self)@.walk() {
                Some(walk) => walk.listed_matches(rules@, discovery::listing_view(seen)),
                None => Seq::empty(),
            }),
            forall|base: Seq<u8>| #[trigger]
                old(self).spelled_from(base) && discovery::plainly_named(
                    discovery::listing_view(seen),
                ) ==> final(self).spelled_from(base) && discovery::matches_spelled_from(
                    matched@,
                    base,
                ),
    {
        proof {
            use_type_invariant(&*self);
        }
        let mut stage = Stage::Idle;
        std::mem::swap(&mut stage, &mut self.stage);
        if let Stage::Walking(mut walk) = stage {
            let matched = walk.listed(rules, seen);
            self.stage = Stage::Walking(walk);
            return matched;
        }
        self.stage = stage;
        let none: Vec<PathMatch> = Vec::new();
        assert(discovery::match_views(none@) =~= Seq::<PathMatchView>::empty());
        none
    }

    /// Takes the answer to the request to watch the directory that
    /// `Action::Watch` names. Fails when the watch limit is reached; any other
    /// refusal skips the directory. Does nothing when no watch is due.
    pub fn watched(&mut self, registry: &mut WatchRegistry, reply: WatchReply) -> (result: Result<
        Option<WatchOutcome>,
        Failure,
    >)
        ensures
            old(self)@.takes_reply(old(registry)@, reply, result, final(self)@, final(registry)@),
            forall|base: Seq<u8>| #[trigger]
                old(self).spelled_from(base) ==> {
                    let shown = text::lossy_text(
                        path::respelled(base, old(self)@.to_watch()->0),
                    );
                    &&& final(self).spelled_from(base)
                    &&& old(registry).spelled_from(base) ==> final(registry).spelled_from(base)
                    &&& match result {
                        Ok(Some(WatchOutcome::Skipped(message))) => message@
                            == error::watch_failure_text(shown, false) && text::shows(
                            path::respelled(base, old(self)@.to_watch()->0),
                            shown,
                        ),
                        Ok(_) => true,
                        Err(failure) => failure.spelled_from(base),
                    }
                },
    {
        proof {
            use_type_invariant(&*self);
        }
        let mut stage = Stage::Idle;
        std::mem::swap(&mut stage, &mut self.stage);
        if let Stage::Watching { directories, next } = stage {
            let ghost left = discovery::path_views(directories@).skip(next as int);
            if next >= directories.len() {
                self.stage = Stage::Watching { directories, next };
                return Ok(None);
            }
            assert(left[0] == directories@[next as int]@);
            assert(discovery::path_views(directories@).skip(next + 1) =~= left.drop_first());
            match watch::add_watch(registry, &directories[next], reply) {
                Ok(outcome) => {
                    self.stage = Stage::Watching { directories, next: next + 1 };
                    Ok(Some(outcome))
                },
                Err(failure) => {
                    self.stage = Stage::Watching { directories, next };
                    Err(failure)
                },
            }
        } else {
            self.stage = stage;
            Ok(None)
        }
    }
}

/// No step of a reconciliation makes an entry of the registry go stale: as long
/// as paths and descriptors are in one-to-one correspondence, they stay so,
/// whatever the kernel answers.
pub proof fn work_keeps_maps_inverse(
    job: ReconcileView,
    registry: RegistryView,
    action: ActionView,
    next: ReconcileView,
    next_registry: RegistryView,
    reply: WatchReply,
    result: Result<Option<WatchOutcome>, Failure>,
)
    requires
        registry.inverse(),
        job.advances(registry, action, next, next_registry) || job.takes_reply(
            registry,
            reply,
            result,
            next,
            next_registry,
        ),
    ensures
        next_registry.inverse(),
{
    if job.takes_reply(registry, reply, result, next, next_registry) {
        if let Some(path) = job.to_watch() {
            watch::watching_keeps_maps_inverse(registry, path, reply, 0, path);
        }
    } else if job.stage is Idle && job.tasks.len() > 0 {
        if let TaskView::Rescan(scope) = job.tasks[0] {
            watch::watching_keeps_maps_inverse(registry, scope, reply, 0, scope);
        }
    }
}

/// What becomes of the directory that is to be watched next. If it is watched
/// already, nothing changes. If the kernel watches it, it is found under that
/// descriptor from then on. If the kernel refuses, it is skipped and the work goes
/// on with the next, except that a full watch table, and nothing else, is a failure.
pub proof fn replies_are_taken_for_what_they_are(
    job: ReconcileView,
    directories: Seq<PathView>,
    registry: RegistryView,
    reply: WatchReply,
    result: Result<Option<WatchOutcome>, Failure>,
    next: ReconcileView,
    next_registry: RegistryView,
)
    requires
        job.stage == StageView::Watching(directories),
        directories.len() > 0,
        job.takes_reply(registry, reply, result, next, next_registry),
    ensures
        ({
            let path = directories[0];
            let known = registry.by_path.contains_key(path);
            &&& result is Err <==> !known && reply == WatchReply::Refused(Some(28i32))
            &&& result is Err ==> {
                &&& result->Err_0 is WatchLimit
                &&& (result->Err_0->WatchLimit_0)@ == path
                &&& next == job
            }
            &&& result is Ok ==> {
                &&& result->Ok_0 is Some
                &&& next.tasks == job.tasks
                &&& next.stage == StageView::Watching(directories.drop_first())
                &&& result->Ok_0->0 is AlreadyWatched <==> known
                &&& result->Ok_0->0 is Watching <==> !known && reply is Watching
                &&& result->Ok_0->0 is Skipped <==> !known && reply is Refused
            }
            &&& known || reply is Refused ==> next_registry == registry
            &&& !known && reply is Watching ==> {
                &&& next_registry.by_path.contains_key(path)
                &&& next_registry.by_path[path] == reply->Watching_0
                &&& next_registry.by_descriptor.contains_key(reply->Watching_0)
                &&& next_registry.by_descriptor[reply->Watching_0] == path
            }
        }),
{
}

/// True when a walk that looks for directories to watch, too, is about to visit
/// `start`, and has found nothing yet.
pub open spec fn is_new_walk(stage: StageView, start: PathView) -> bool {
    &&& stage is Walking
    &&& stage->Walking_0.stack == seq![start]
    &&& stage->Walking_0.listing is None
    &&& stage->Walking_0.found.watchers.len() == 0
    &&& stage->Walking_0.found.matches.len() == 0
    &&& stage->Walking_0.collect_watchers
}

/// The order of the work on a task: a rescan first forgets its scope and has each of
/// its watches dropped, one after the other; then, as seeding does at once, the tree
/// below is looked at, what matches is handed over for marking, and what is not yet
/// watched is watched, one directory after the other. Every step brings the work
/// further.
pub proof fn work_goes_in_this_order(
    job: ReconcileView,
    registry: RegistryView,
    action: ActionView,
    next: ReconcileView,
    next_registry: RegistryView,
)
    requires
        job.advances(registry, action, next, next_registry),
    ensures
        match job.stage {
            StageView::Idle => if job.tasks.len() == 0 {
                action is Done && next == job && next_registry == registry
            } else {
                &&& action is Continue
                &&& next.tasks == job.tasks.drop_first()
                &&& match job.tasks[0] {
                    TaskView::Seed(path) => is_new_walk(next.stage, path) && next_registry
                        == registry,
                    TaskView::Rescan(scope) => {
                        &&& next.stage is Unwatching
                        &&& next.stage->scope == scope
                        &&& forall|path: PathView| #[trigger]
                            next_registry.by_path.contains_key(path)
                                <==> registry.by_path.contains_key(path) && !path.starts_with(
                                scope,
                            )
                    },
                    TaskView::RequireRoot(root) => {
                        &&& registry.by_path.contains_key(root)
                        &&& next.stage is Idle
                        &&& next_registry == registry
                    },
                }
            },
            StageView::Unwatching { descriptors, scope } => {
                &&& next.tasks == job.tasks
                &&& next_registry == registry
                &&& if descriptors.len() > 0 {
                    &&& action == ActionView::Unwatch(descriptors[0])
                    &&& next.stage is Unwatching
                    &&& next.stage->descriptors == descriptors.skip(1)
                    &&& next.stage->scope == scope
                } else {
                    action is Continue && is_new_walk(next.stage, scope)
                }
            },
            StageView::Walking(walk) => {
                &&& next.tasks == job.tasks
                &&& next_registry == registry
                &&& if walk.listing is Some {
                    action == ActionView::List(walk.listing->0) && next.stage == job.stage
                } else if walk.stack.len() > 0 {
                    action == ActionView::Inspect(walk.stack.last()) && next.stage == job.stage
                } else {
                    action == ActionView::Mark(walk.found.matches) && next.stage
                        == StageView::Watching(walk.found.watchers)
                }
            },
            StageView::Watching(directories) => {
                &&& next.tasks == job.tasks
                &&& next_registry == registry
                &&& if directories.len() == 0 {
                    action is Continue && next.stage is Idle
                } else if registry.by_path.contains_key(directories[0]) {
                    action is Continue && next.stage == StageView::Watching(directories.skip(1))
                } else {
                    action == ActionView::Watch(directories[0]) && next.stage == job.stage
                }
            },
        },
{
    if job.stage is Idle && job.tasks.len() > 0 {
        if let TaskView::Rescan(scope) = job.tasks[0] {
            assert forall|path: PathView| #[trigger]
                next_registry.by_path.contains_key(path) <==> registry.by_path.contains_key(path)
                    && !path.starts_with(scope) by {
                watch::drain_is_exact(registry, scope, path);
                assert(registry.contains_path(path) == registry.by_path.contains_key(path));
            }
        }
    }
    if let StageView::Unwatching { descriptors, scope } = job.stage {
        if descriptors.len() > 0 {
            assert(descriptors.drop_first() =~= descriptors.skip(1));
        }
    }
    if let StageView::Watching(directories) = job.stage {
        if directories.len() > 0 {
            assert(directories.drop_first() =~= directories.skip(1));
        }
    }
}

/// A reconciliation does the tasks that it is given, in order, each for what it is.
pub proof fn tasks_are_done_as_given(tasks: Seq<Task>)
    ensures
        ({
            let job = ReconcileView::of(task_views(tasks));
            &&& job.stage is Idle
            &&& job.tasks.len() == tasks.len()
            &&& forall|i: int|
                0 <= i < tasks.len() ==> #[trigger] job.tasks[i] == (match tasks[i] {
                    Task::Seed(path) => TaskView::Seed(path@),
                    Task::Rescan(path) => TaskView::Rescan(path@),
                    Task::RequireRoot(path) => TaskView::RequireRoot(path@),
                })
        }),
{
}

/// What is asked for is seen for what it is.
pub proof fn requests_are_seen_as_given(action: Action)
    ensures
        action@ == (match action {
            Action::Continue => ActionView::Continue,
            Action::Unwatch(descriptor) => ActionView::Unwatch(descriptor),
            Action::Inspect(path) => ActionView::Inspect(path@),
            Action::List(path) => ActionView::List(path@),
            Action::Mark(paths) => ActionView::Mark(
                Seq::new(paths@.len(), |i: int| paths@[i]@),
            ),
            Action::Watch(path) => ActionView::Watch(path@),
            Action::Done => ActionView::Done,
        }),
{
    if let Action::Mark(paths) = action {
        assert(discovery::path_views(paths@) =~= Seq::new(paths@.len(), |i: int| paths@[i]@));
    }
}

} // verus!

//! A round of work: a fresh start, or one read of the event queue.
//!
//! First every event is taken in turn, and the entry that it is about is looked
//! at; then the watch set is brought in line with the tree.

use crate::discovery;
use crate::discovery::{Inspection, InspectionView, ListedEntry, PathMatch};
use crate::engine::RuleEngine;
use crate::error;
use crate::error::Failure;
use crate::events;
use crate::events::{
    Batch, BatchView, EntryAction, EntryActionView, Event, EventStep, EventView, Reaction,
};
use crate::path;
use crate::path::{PathView, TreePath};
use crate::reconcile;
use crate::reconcile::{Action, Reconcile, ReconcileView, Task, TaskView};
use crate::rules::{RuleMatch, RuleView};
use crate::text;
use crate::watch::{RegistryView, WatchOutcome, WatchRegistry, WatchReply};
use vstd::prelude::*;

verus! {

/// The events behind a sequence of `Event`s.
pub open spec fn event_views(events: Seq<Event>) -> Seq<EventView> {
    events.map_values(|event: Event| event@)
}

/// How far the work is, as a mathematical value.
#[verifier::ext_equal]
pub enum RoundStageView {
    /// The next event is due.
    Events,
    /// The entry at this path is to be looked at.
    Entry(PathView),
    /// The watch set is being brought in line.
    Reconciling(ReconcileView),
}

/// A round of work, as a mathematical value.
#[verifier::ext_equal]
pub struct RoundView {
    pub root: PathView,
    /// The events still to be taken, in order.
    pub events: Seq<EventView>,
    pub batch: BatchView,
    pub stage: RoundStageView,
}

impl RoundView {
    /// The work that is about to take `events`.
    pub open spec fn of(root: PathView, events: Seq<EventView>) -> RoundView {
        RoundView { root, events, batch: BatchView::empty(), stage: RoundStageView::Events }
    }

    /// The work of a fresh start: everything below `root` is to be marked and
    /// watched as it should be.
    pub open spec fn seeding(root: PathView) -> RoundView {
        RoundView {
            root,
            events: Seq::empty(),
            batch: BatchView::empty(),
            stage: RoundStageView::Reconciling(ReconcileView::of(seq![TaskView::Seed(root)])),
        }
    }

    /// What the next event means.
    pub open spec fn next_reaction(self, registry: RegistryView) -> Reaction {
        events::reaction(registry, self.root, self.events[0])
    }

    /// The work after the next event was taken.
    pub open spec fn took_event(self, registry: RegistryView, rules: Seq<RuleView>) -> RoundView {
        let means = self.next_reaction(registry);
        RoundView {
            events: self.events.drop_first(),
            batch: self.batch.after(rules, means),
            stage: match means {
                Reaction::Appeared(dir, name) => RoundStageView::Entry(dir.join(name)),
                _ => RoundStageView::Events,
            },
            ..self
        }
    }

    /// The work once every event was taken: what the events ask for is begun.
    pub open spec fn took_all(self) -> RoundView {
        RoundView {
            batch: BatchView::empty(),
            stage: RoundStageView::Reconciling(
                ReconcileView::of(self.batch.tasks(self.root)),
            ),
            ..self
        }
    }

    /// The work on the watch set that is under way.
    pub open spec fn job(self) -> Option<ReconcileView> {
        match self.stage {
            RoundStageView::Reconciling(job) => Some(job),
            _ => None,
        }
    }

    /// The same with another state of the work on the watch set.
    pub open spec fn with_job(self, job: ReconcileView) -> RoundView {
        RoundView { stage: RoundStageView::Reconciling(job), ..self }
    }

    /// The work after the entry in question was looked at.
    pub open spec fn entry(
        self,
        rules: Seq<RuleView>,
        seen: Option<InspectionView>,
    ) -> RoundView {
        match self.stage {
            RoundStageView::Entry(path) => RoundView {
                batch: self.batch.after_entry(rules, path, seen),
                stage: RoundStageView::Events,
                ..self
            },
            _ => self,
        }
    }

    /// What is due for the entry in question.
    pub open spec fn entry_action(
        self,
        rules: Seq<RuleView>,
        seen: Option<InspectionView>,
    ) -> EntryActionView {
        match (self.stage, seen) {
            (RoundStageView::Entry(path), Some(inspection)) => events::planned(
                rules,
                inspection.candidate(path),
            ),
            _ => EntryActionView::nothing(),
        }
    }
}

/// What has to be done next.
#[derive(Debug)]
pub enum RoundAction {
    /// An event was taken. If it asks to inspect a path, report what the entry
    /// itself is (symlinks not followed) to `Round::entry`; an entry that is not
    /// reported is left alone.
    Event(EventStep),
    /// The watch set is being brought in line; `Action::Done` ends the work.
    Work(Action),
}

/// How far the work is.
enum RoundStage {
    Events,
    Entry(TreePath),
    Reconciling(Reconcile),
}

impl View for RoundStage {
    type V = RoundStageView;

    closed spec fn view(&self) -> RoundStageView {
        match self {
            RoundStage::Events => RoundStageView::Events,
            RoundStage::Entry(path) => RoundStageView::Entry(path@),
            RoundStage::Reconciling(job) => RoundStageView::Reconciling(job@),
        }
    }
}

impl RoundStage {
    spec fn spelled_from(self, base: Seq<u8>) -> bool {
        match self {
            RoundStage::Events => true,
            RoundStage::Entry(path) => path.spelled_from(base),
            RoundStage::Reconciling(job) => job.spelled_from(base),
        }
    }
}

/// A round of work.
pub struct Round {
    root: TreePath,
    /// The events still to be taken, the next one last.
    queue: Vec<Event>,
    batch: Batch,
    stage: RoundStage,
}

impl View for Round {
    type V = RoundView;

    closed spec fn view(&self) -> RoundView {
        RoundView {
            root: self.root@,
            events: event_views(self.queue@).reverse(),
            batch: self.batch@,
            stage: self.stage@,
        }
    }
}

impl Round {
    /// True when every path is spelled by joining names to `base`.
    pub closed spec fn spelled_from(&self, base: Seq<u8>) -> bool {
        &&& self.root.spelled_from(base)
        &&& self.batch.spelled_from(base)
        &&& self.stage.spelled_from(base)
    }

    /// Takes on `events`, to be taken in order, of the tree below `root`.
    pub fn new(root: &TreePath, events: Vec<Event>) -> (round: Round)
        ensures
            round@ == RoundView::of(root@, event_views(events@)),
            round.spelled_from(root.spelling()),
    {
        let ghost all = event_views(events@);
        let mut left = events;
        let mut queue: Vec<Event> = Vec::new();
        assert(event_views(queue@) =~= all.skip(all.len() as int).reverse());
        while left.len() > 0
            invariant
                left@.len() <= all.len(),
                event_views(left@) == all.take(left@.len() as int),
                event_views(queue@) == all.skip(left@.len() as int).reverse(),
            decreases left@.len(),
        {
            let ghost before = left@;
            let ghost moved = queue@;
            if let Some(event) = left.pop() {
                proof {
                    let n = before.len() - 1;
                    assert(event_views(before)[n] == event@);
                    assert(event_views(left@) =~= all.take(n));
                    assert(all[n] == event@);
                }
                queue.push(event);
                proof {
                    let n = before.len() - 1;
                    let now = all.skip(n).reverse();
                    let earlier = all.skip(n + 1).reverse();
                    assert(event_views(queue@) =~= event_views(moved).push(all[n]));
                    assert(now =~= earlier.push(all[n]));
                }
            }
        }
        let round = Round {
            root: root.clone(),
            queue,
            batch: Batch::new(),
            stage: RoundStage::Events,
        };
        proof {
            assert(all.skip(0) =~= all);
            assert(all.reverse().reverse() =~= all);
        }
        round
    }

    /// Takes on what a fresh start needs: everything below `root` is marked and
    /// watched as it should be.
    pub fn seed(root: &TreePath) -> (round: Round)
        ensures
            round@ == RoundView::seeding(root@),
            round.spelled_from(root.spelling()),
    {
        let mut tasks: Vec<Task> = Vec::new();
        tasks.push(Task::Seed(root.clone()));
        assert(reconcile::task_views(tasks@) =~= seq![TaskView::Seed(root@)]);
        assert(reconcile::tasks_spelled_from(tasks@, root.spelling()));
        let round = Round {
            root: root.clone(),
            queue: Vec::new(),
            batch: Batch::new(),
            stage: RoundStage::Reconciling(Reconcile::new(tasks)),
        };
        assert(round@.events =~= Seq::<EventView>::empty());
        round
    }

    /// Says what has to be done next. Fails when the root was moved or deleted,
    /// or is gone after a rescan.
    pub fn advance(&mut self, registry: &mut WatchRegistry, rules: &RuleEngine) -> (result: Result<
        RoundAction,
        Failure,
    >)
        ensures
            match old(self)@.job() {
                Some(job) => match result {
                    Ok(RoundAction::Work(action)) => {
                        &&& final(self)@.job() is Some
                        &&& final(self)@ == old(self)@.with_job(final(self)@.job()->0)
                        &&& job.advances(
                            old(registry)@,
                            action@,
                            final(self)@.job()->0,
                            final(registry)@,
                        )
                    },
                    Ok(RoundAction::Event(_)) => false,
                    Err(Failure::RootDisappeared(root)) => job.root_is_missing(old(registry)@)
                        && job.tasks[0] == TaskView::RequireRoot(root@) && final(self)@
                        == old(self)@ && final(registry)@ == old(registry)@,
                    Err(_) => false,
                },
                None => if old(self)@.events.len() == 0 {
                    &&& result matches Ok(RoundAction::Work(Action::Continue))
                    &&& final(self)@ == old(self)@.took_all()
                    &&& final(registry)@ == old(registry)@
                } else {
                    let means = old(self)@.next_reaction(old(registry)@);
                    &&& final(self)@ == old(self)@.took_event(old(registry)@, rules@)
                    &&& final(registry)@ == events::registry_after(old(registry)@, means)
                    &&& match result {
                        Ok(RoundAction::Event(step)) => events::step_for(rules@, means, step),
                        Ok(RoundAction::Work(_)) => false,
                        Err(Failure::RootMoved(path)) => means is RootMoved && path@
                            == old(self)@.root,
                        Err(Failure::RootDeleted(path)) => means is RootDeleted && path@
                            == old(self)@.root,
                        Err(_) => false,
                    }
                },
            },
            forall|base: Seq<u8>| #[trigger]
                old(self).spelled_from(base) && old(registry).spelled_from(base)
                    && events::name_entries(old(self)@.events) ==> {
                    &&& final(self).spelled_from(base)
                    &&& final(registry).spelled_from(base)
                    &&& match result {
                        Ok(RoundAction::Event(step)) => step.spelled_from(base),
                        Ok(RoundAction::Work(action)) => action.spelled_from(base),
                        Err(failure) => failure.spelled_from(base),
                    }
                },
    {
        let ghost before = self@;
        if let RoundStage::Reconciling(job) = &mut self.stage {
            return match job.advance(registry) {
                Ok(action) => Ok(RoundAction::Work(action)),
                Err(failure) => Err(failure),
            };
        }
        let ghost queued = event_views(self.queue@);
        match self.queue.pop() {
            None => {
                let mut batch = Batch::new();
                std::mem::swap(&mut batch, &mut self.batch);
                let tasks = batch.tasks(&self.root);
                self.stage = RoundStage::Reconciling(Reconcile::new(tasks));
                Ok(RoundAction::Work(Action::Continue))
            },
            Some(event) => {
                proof {
                    assert(before.events[0] == event@);
                    assert(event_views(self.queue@) =~= queued.drop_last());
                    assert(event_views(self.queue@).reverse() =~= before.events.drop_first());
                }
                let step = match self.batch.event(registry, rules, &self.root, &event) {
                    Ok(step) => step,
                    Err(failure) => {
                        self.stage = RoundStage::Events;
                        return Err(failure);
                    },
                };
                self.stage = match &step {
                    EventStep::Inspect { path, directory, trigger } => RoundStage::Entry(
                        path.clone(),
                    ),
                    _ => RoundStage::Events,
                };
                Ok(RoundAction::Event(step))
            },
        }
    }

    /// Takes what was seen at the path that the last event asks to inspect,
    /// nothing if it could not be read, and says what is due for it. Does
    /// nothing when no entry is in question.
    pub fn entry(&mut self, rules: &RuleEngine, seen: Option<Inspection>) -> (action: EntryAction)
        ensures
            final(self)@ == old(self)@.entry(rules@, discovery::inspection_view(seen)),
            action@ == old(self)@.entry_action(rules@, discovery::inspection_view(seen)),
            forall|base: Seq<u8>| #[trigger]
                old(self).spelled_from(base) ==> final(self).spelled_from(base),
    {
        let mut stage = RoundStage::Events;
        std::mem::swap(&mut stage, &mut self.stage);
        if let RoundStage::Entry(path) = stage {
            return self.batch.entry(rules, &path, seen);
        }
        self.stage = stage;
        EntryAction { apply_ignore: false, watch_dir: false, matched: None }
    }

    /// Takes what was seen at the path that `Action::Inspect` names; see
    /// `Reconcile::inspected`.
    pub fn inspected(&mut self, rules: &RuleEngine, seen: Option<Inspection>) -> (matched: Option<
        RuleMatch,
    >)
        ensures
            match old(self)@.job() {
                Some(job) => {
                    let verdict = match job.walk() {
                        Some(walk) => walk.inspected_verdict(
                            rules@,
                            discovery::inspection_view(seen),
                        ),
                        None => None,
                    };
                    &&& final(self)@ == old(self)@.with_job(
                        job.inspected(rules@, discovery::inspection_view(seen)),
                    )
                    &&& match matched {
                        Some(found) => verdict == Some(found@),
                        None => verdict is None,
                    }
                },
                None => final(self)@ == old(self)@ && matched is None,
            },
            forall|base: Seq<u8>| #[trigger]
                old(self).spelled_from(base) ==> final(self).spelled_from(base),
    {
        match &mut self.stage {
            RoundStage::Reconciling(job) => job.inspected(rules, seen),
            _ => None,
        }
    }

    /// Takes the entries of the directory that `Action::List` names; see
    /// `Reconcile::listed`.
    pub fn listed(&mut self, rules: &RuleEngine, seen: Option<Vec<ListedEntry>>) -> (matched: Vec<
        PathMatch,
    >)
        ensures
            match old(self)@.job() {
                Some(job) => {
                    &&& final(self)@ == old(self)@.with_job(
                        job.listed(rules@, discovery::listing_view(seen)),
                    )
                    &&& discovery::match_views(matched@) == (match job.walk() {
                        Some(walk) => walk.listed_matches(rules@, discovery::listing_view(seen)),
                        None => Seq::empty(),
                    })
                },
                None => final(self)@ == old(self)@ && matched@.len() == 0,
            },
            forall|base: Seq<u8>| #[trigger]
                old(self).spelled_from(base) && discovery::plainly_named(
                    discovery::listing_view(seen),
                ) ==> final(self).spelled_from(base) && discovery::matches_spelled_from(
                    matched@,
                    base,
                ),
    {
        match &mut self.stage {
            RoundStage::Reconciling(job) => job.listed(rules, seen),
            _ => Vec::new(),
        }
    }

    /// Takes the answer to the request to watch the directory that
    /// `Action::Watch` names; see `Reconcile::watched`.
    pub fn watched(&mut self, registry: &mut WatchRegistry, reply: WatchReply) -> (result: Result<
        Option<WatchOutcome>,
        Failure,
    >)
        ensures
            match old(self)@.job() {
                Some(job) => {
                    &&& final(self)@.job() is Some
                    &&& final(self)@ == old(self)@.with_job(final(self)@.job()->0)
                    &&& job.takes_reply(
                        old(registry)@,
                        reply,
                        result,
                        final(self)@.job()->0,
                        final(registry)@,
                    )
                },
                None => result matches Ok(None) && final(self)@ == old(self)@ && final(registry)@
                    == old(registry)@,
            },
            forall|base: Seq<u8>| #[trigger]
                old(self).spelled_from(base) ==> {
                    &&& final(self).spelled_from(base)
                    &&& old(registry).spelled_from(base) ==> final(registry).spelled_from(base)
                    &&& match result {
                        Ok(Some(WatchOutcome::Skipped(message))) => {
                            let spelling = path::respelled(
                                base,
                                old(self)@.job()->0.to_watch()->0,
                            );
                            &&& message@ == error::watch_failure_text(
                                text::lossy_text(spelling),
                                false,
                            )
                            &&& text::shows(spelling, text::lossy_text(spelling))
                        },
                        Ok(_) => true,
                        Err(failure) => failure.spelled_from(base),
                    }
                },
    {
        match &mut self.stage {
            RoundStage::Reconciling(job) => job.watched(registry, reply),
            _ => Ok(None),
        }
    }
}

/// A round takes the events that it is given, in order, each for what it is, and
/// begins with nothing left to do.
pub proof fn events_are_taken_as_given(root: PathView, events: Seq<Event>)
    ensures
        ({
            let round = RoundView::of(root, event_views(events));
            &&& round.root == root
            &&& round.stage is Events
            &&& round.batch.pending_directories.len() == 0
            &&& round.batch.rescan_scopes.len() == 0
            &&& !round.batch.needs_rescan
            &&& round.events.len() == events.len()
            &&& forall|i: int|
                0 <= i < events.len() ==> {
                    let event = #[trigger] round.events[i];
                    &&& event.descriptor == events[i].descriptor
                    &&& event.mask == events[i].mask
                    &&& event.name is Some <==> events[i].name is Some
                    &&& event.name is Some ==> event.name->0 == (events[i].name->0)@
                }
        }),
{
}

/// True when `path` is spelled as `base`, with one name joined after the other.
pub open spec fn is_spelled_below(path: TreePath, base: Seq<u8>) -> bool {
    path.spelling() == path::respelled(base, path@)
}

/// What is handed out with paths that are said to be spelled from `base` has every
/// one of its paths spelled so, and a copy of a path is the same path, spelled alike.
pub proof fn handed_out_paths_are_spelled(
    base: Seq<u8>,
    action: Action,
    step: EventStep,
    failure: Failure,
    paths: Seq<TreePath>,
    found: Seq<PathMatch>,
    copy: TreePath,
    path: TreePath,
)
    ensures
        action.spelled_from(base) ==> match action {
            Action::Inspect(at) => is_spelled_below(at, base),
            Action::List(at) => is_spelled_below(at, base),
            Action::Watch(at) => is_spelled_below(at, base),
            Action::Mark(all) => forall|i: int|
                0 <= i < all@.len() ==> is_spelled_below(#[trigger] all@[i], base),
            _ => true,
        },
        step.spelled_from(base) ==> match step {
            EventStep::Moved(at) => is_spelled_below(at, base),
            EventStep::Unnamed(at) => is_spelled_below(at, base),
            EventStep::Inspect { path: at, directory, trigger } => is_spelled_below(at, base)
                && is_spelled_below(directory, base),
            _ => true,
        },
        failure.spelled_from(base) ==> match failure {
            Failure::WatchLimit(at) => is_spelled_below(at, base),
            Failure::RootMoved(at) => is_spelled_below(at, base),
            Failure::RootDeleted(at) => is_spelled_below(at, base),
            Failure::RootDisappeared(at) => is_spelled_below(at, base),
            _ => true,
        },
        discovery::all_spelled_from(paths, base) ==> forall|i: int|
            0 <= i < paths.len() ==> is_spelled_below(#[trigger] paths[i], base),
        discovery::matches_spelled_from(found, base) ==> forall|i: int|
            0 <= i < found.len() ==> is_spelled_below((#[trigger] found[i]).path, base),
        copy.is_copy_of(&path) ==> copy@ == path@ && copy.spelling() == path.spelling(),
{
}

} // verus!

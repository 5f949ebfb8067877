//! What to do about file system events.

use crate::discovery;
use crate::discovery::{Inspection, InspectionView, WalkView};
use crate::engine;
use crate::engine::RuleEngine;
use crate::error::Failure;
use crate::kernel;
use crate::path;
use crate::path::{PathView, TreePath};
use crate::reconcile;
use crate::reconcile::{Task, TaskView};
use crate::rules::{Candidate, CandidateView, FileType, MatchView, RuleMatch, RuleView};
use crate::sequence;
use crate::tree;
use crate::tree::World;
use crate::watch;
use crate::watch::{RegistryView, WatchRegistry, WatchReply};
use vstd::prelude::*;

verus! {

/// The outcome of evaluating a single entry, as a mathematical value.
#[verifier::ext_equal]
pub struct EntryActionView {
    pub apply_ignore: bool,
    pub watch_dir: bool,
    pub matched: Option<MatchView>,
}

/// Outcome of evaluating a single filesystem entry seen at runtime.
#[derive(Debug)]
pub struct EntryAction {
    pub apply_ignore: bool,
    pub watch_dir: bool,
    /// The match to report.
    pub matched: Option<RuleMatch>,
}

impl View for EntryAction {
    type V = EntryActionView;

    open spec fn view(&self) -> EntryActionView {
        EntryActionView {
            apply_ignore: self.apply_ignore,
            watch_dir: self.watch_dir,
            matched: match self.matched {
                Some(matched) => Some(matched@),
                None => None,
            },
        }
    }
}

impl EntryActionView {
    /// Leave the entry alone.
    pub open spec fn nothing() -> EntryActionView {
        EntryActionView { apply_ignore: false, watch_dir: false, matched: None }
    }
}

/// What is due for an entry: it is marked if a rule says so, and watched if it
/// is a directory that no rule keeps the walk out of. Symlinks are left alone.
pub open spec fn planned(rules: Seq<RuleView>, candidate: CandidateView) -> EntryActionView {
    if candidate.file_type == FileType::Symlink {
        EntryActionView::nothing()
    } else {
        EntryActionView {
            apply_ignore: engine::marks(rules, candidate),
            watch_dir: candidate.file_type == FileType::Directory && !engine::skips(
                rules,
                candidate,
            ),
            matched: engine::verdict(rules, candidate),
        }
    }
}

/// Decide what to do with one entry, given what the entry itself is (not a
/// symlink target). Symlinks are skipped wholesale to mirror the walk and avoid
/// escaping the watched tree.
pub fn plan_entry(candidate: &Candidate<'_>, rules: &RuleEngine) -> (action: EntryAction)
    ensures
        action@ == planned(rules@, candidate@),
{
    if candidate.is_symlink() {
        return EntryAction { apply_ignore: false, watch_dir: false, matched: None };
    }
    let matched = rules.evaluate(candidate);
    let mut apply_ignore = false;
    let mut skip_descendants = false;
    if let Some(found) = matched {
        apply_ignore = found.action.set_dropbox_ignore;
        skip_descendants = found.action.skip_descendants;
    }
    EntryAction { apply_ignore, watch_dir: candidate.is_dir() && !skip_descendants, matched }
}

/// An event as a mathematical value.
#[verifier::ext_equal]
pub struct EventView {
    pub descriptor: i32,
    pub mask: u32,
    pub name: Option<Seq<u8>>,
}

/// An event as the kernel reports it.
#[derive(Debug)]
pub struct Event {
    pub descriptor: i32,
    pub mask: u32,
    pub name: Option<Vec<u8>>,
}

impl View for Event {
    type V = EventView;

    open spec fn view(&self) -> EventView {
        EventView {
            descriptor: self.descriptor,
            mask: self.mask,
            name: match self.name {
                Some(name) => Some(name@),
                None => None,
            },
        }
    }
}

/// True when the events name entries by plain names, as those of the kernel do.
pub open spec fn name_entries(events: Seq<EventView>) -> bool {
    forall|i: int| 0 <= i < events.len() ==> (#[trigger] events[i]).names_entry()
}

impl EventView {
    /// True when the event names no entry, or names one by a plain name.
    pub open spec fn names_entry(self) -> bool {
        self.name is Some ==> path::is_entry_name(self.name->0)
    }
}

/// What an event means.
#[verifier::ext_equal]
pub enum Reaction {
    /// Events were lost.
    Overflow,
    /// The root itself was moved or renamed.
    RootMoved,
    /// This watched directory was moved away from its path.
    Moved(PathView),
    /// The root itself was deleted.
    RootDeleted,
    /// The directory of this descriptor was deleted.
    Deleted(i32),
    /// Nothing of interest.
    Ignored,
    /// An entry appeared in a directory that is not known; this is its
    /// descriptor.
    Unknown(i32),
    /// An entry without a name appeared in this directory.
    Unnamed(PathView),
    /// An entry of this name appeared in this directory.
    Appeared(PathView, Seq<u8>),
}

/// What `event` means while `registry` is watched below `root`. An overflow
/// comes first: its descriptor and name are invalid.
pub open spec fn reaction(registry: RegistryView, root: PathView, event: EventView) -> Reaction {
    let known = registry.by_descriptor.contains_key(event.descriptor);
    let path = registry.by_descriptor[event.descriptor];
    if kernel::has_flag(event.mask, kernel::in_queue_overflow()) {
        Reaction::Overflow
    } else if kernel::has_flag(event.mask, kernel::in_move_self()) {
        if !known {
            Reaction::Ignored
        } else if path == root {
            Reaction::RootMoved
        } else {
            Reaction::Moved(path)
        }
    } else if kernel::has_flag(event.mask, kernel::in_delete_self()) {
        if known && path == root {
            Reaction::RootDeleted
        } else {
            Reaction::Deleted(event.descriptor)
        }
    } else if !(kernel::has_flag(event.mask, kernel::in_create()) || kernel::has_flag(
        event.mask,
        kernel::in_moved_to(),
    )) {
        Reaction::Ignored
    } else if !known {
        Reaction::Unknown(event.descriptor)
    } else {
        match event.name {
            None => Reaction::Unnamed(path),
            Some(name) => Reaction::Appeared(path, name),
        }
    }
}

/// What a batch of events has left to do, as a mathematical value.
#[verifier::ext_equal]
pub struct BatchView {
    /// New directories to watch, in order.
    pub pending_directories: Seq<PathView>,
    /// True when events were lost.
    pub needs_rescan: bool,
    /// Distinct subtrees to rescan.
    pub rescan_scopes: Seq<PathView>,
}

impl BatchView {
    /// Nothing to do.
    pub open spec fn empty() -> BatchView {
        BatchView {
            pending_directories: Seq::empty(),
            needs_rescan: false,
            rescan_scopes: Seq::empty(),
        }
    }

    /// The batch with the subtree of `scope` to rescan, once.
    pub open spec fn with_scope(self, scope: PathView) -> BatchView {
        if self.rescan_scopes.contains(scope) {
            self
        } else {
            BatchView { rescan_scopes: self.rescan_scopes.push(scope), ..self }
        }
    }

    /// The batch after an event. A trigger file can flip the verdict on a
    /// sibling that already exists, so its directory is rescanned.
    pub open spec fn after(self, rules: Seq<RuleView>, reaction: Reaction) -> BatchView {
        match reaction {
            Reaction::Overflow => BatchView { needs_rescan: true, ..self },
            Reaction::Moved(path) => self.with_scope(path),
            Reaction::Appeared(dir, name) => if engine::names_trigger(rules, name) {
                self.with_scope(dir)
            } else {
                self
            },
            _ => self,
        }
    }

    /// The batch after the entry at `path` was inspected.
    pub open spec fn after_entry(
        self,
        rules: Seq<RuleView>,
        path: PathView,
        seen: Option<InspectionView>,
    ) -> BatchView {
        match seen {
            Some(inspection) => if planned(rules, inspection.candidate(path)).watch_dir {
                BatchView { pending_directories: self.pending_directories.push(path), ..self }
            } else {
                self
            },
            None => self,
        }
    }

    /// What is left to do, in order: new directories are watched; then either
    /// the whole tree is rescanned, after which the root must still be watched,
    /// or each scope is. A rescan of the root supersedes every scope.
    pub open spec fn tasks(self, root: PathView) -> Seq<TaskView> {
        self.pending_directories.map_values(|path: PathView| TaskView::Seed(path)) + (
        if self.needs_rescan {
            seq![TaskView::Rescan(root), TaskView::RequireRoot(root)]
        } else {
            self.rescan_scopes.map_values(|path: PathView| TaskView::Rescan(path))
        })
    }
}

/// What has to be done at once about an event.
#[derive(Debug)]
pub enum EventStep {
    /// Events were lost; the tree will be rescanned.
    Overflowed,
    /// A watched directory was moved; what was below it will be rescanned.
    Moved(TreePath),
    /// The directory of this descriptor was deleted and is forgotten.
    Deleted(i32),
    /// Nothing.
    Ignored,
    /// This descriptor is not known.
    UnknownDescriptor(i32),
    /// The event in this directory has no name.
    Unnamed(TreePath),
    /// Look at the entry at `path` and report what it is. If the entry is a
    /// trigger, its directory will be rescanned.
    Inspect { path: TreePath, directory: TreePath, trigger: bool },
}

impl EventStep {
    /// True when the paths are spelled by joining names to `base`.
    pub open spec fn spelled_from(&self, base: Seq<u8>) -> bool {
        match self {
            EventStep::Moved(path) => path.spelled_from(base),
            EventStep::Unnamed(directory) => directory.spelled_from(base),
            EventStep::Inspect { path, directory, trigger } => path.spelled_from(base)
                && directory.spelled_from(base),
            _ => true,
        }
    }

    /// True when the directory that `event` is about is spelled `known`, and an
    /// entry of it by joining the name.
    pub open spec fn is_spelled(&self, known: Seq<u8>, event: EventView) -> bool {
        match self {
            EventStep::Moved(path) => path.spelling() == known,
            EventStep::Unnamed(directory) => directory.spelling() == known,
            EventStep::Inspect { path, directory, trigger } => {
                &&& directory.spelling() == known
                &&& event.name is Some
                &&& path.spelling() == path::joined_spelling(known, event.name->0)
            },
            _ => true,
        }
    }
}

/// True when `step` is what `reaction` asks for.
pub open spec fn step_for(rules: Seq<RuleView>, reaction: Reaction, step: EventStep) -> bool {
    match reaction {
        Reaction::Overflow => step is Overflowed,
        Reaction::RootMoved => false,
        Reaction::Moved(path) => step matches EventStep::Moved(moved) && moved@ == path,
        Reaction::RootDeleted => false,
        Reaction::Deleted(descriptor) => step == EventStep::Deleted(descriptor),
        Reaction::Ignored => step is Ignored,
        Reaction::Unknown(descriptor) => step == EventStep::UnknownDescriptor(descriptor),
        Reaction::Unnamed(dir) => step matches EventStep::Unnamed(directory) && directory@ == dir,
        Reaction::Appeared(dir, name) => step matches EventStep::Inspect {
            path,
            directory,
            trigger,
        } && path@ == dir.join(name) && directory@ == dir && trigger == engine::names_trigger(
            rules,
            name,
        ),
    }
}

/// The registry after an event: a deleted directory is forgotten. The kernel
/// drops its watch by itself, and reports every directory of a deleted subtree.
pub open spec fn registry_after(registry: RegistryView, reaction: Reaction) -> RegistryView {
    match reaction {
        Reaction::Deleted(descriptor) => registry.remove_by_descriptor(descriptor),
        _ => registry,
    }
}

/// What a batch of events has left to do.
#[derive(Debug)]
pub struct Batch {
    pending_directories: Vec<TreePath>,
    needs_rescan: bool,
    rescan_scopes: Vec<TreePath>,
}

impl View for Batch {
    type V = BatchView;

    closed spec fn view(&self) -> BatchView {
        BatchView {
            pending_directories: discovery::path_views(self.pending_directories@),
            needs_rescan: self.needs_rescan,
            rescan_scopes: discovery::path_views(self.rescan_scopes@),
        }
    }
}

impl Batch {
    /// True when every path is spelled by joining names to `base`.
    pub closed spec fn spelled_from(&self, base: Seq<u8>) -> bool {
        &&& discovery::all_spelled_from(self.pending_directories@, base)
        &&& discovery::all_spelled_from(self.rescan_scopes@, base)
    }

    /// A batch of no events yet.
    pub fn new() -> (batch: Batch)
        ensures
            batch@ == BatchView::empty(),
            forall|base: Seq<u8>| #[trigger] batch.spelled_from(base),
    {
        let batch = Batch {
            pending_directories: Vec::new(),
            needs_rescan: false,
            rescan_scopes: Vec::new(),
        };
        assert(batch@.pending_directories =~= Seq::<PathView>::empty());
        assert(batch@.rescan_scopes =~= Seq::<PathView>::empty());
        batch
    }

    fn add_scope(&mut self, scope: TreePath)
        ensures
            final(self)@ == old(self)@.with_scope(scope@),
            forall|base: Seq<u8>| #[trigger]
                old(self).spelled_from(base) && scope.spelled_from(base)
                    ==> final(self).spelled_from(base),
    {
        let ghost before = self@;
        let mut i: usize = 0;
        while i < self.rescan_scopes.len()
            invariant
                i <= self.rescan_scopes@.len(),
                self@ == before,
                *self == *old(self),
                forall|k: int| 0 <= k < i ==> #[trigger] before.rescan_scopes[k] != scope@,
            decreases self.rescan_scopes@.len() - i,
        {
            assert(before.rescan_scopes[i as int] == self.rescan_scopes@[i as int]@);
            if self.rescan_scopes[i].same_as(&scope) {
                return;
            }
            i = i + 1;
        }
        let ghost scopes = self.rescan_scopes@;
        self.rescan_scopes.push(scope);
        assert(self@.rescan_scopes =~= discovery::path_views(scopes).push(scope@));
    }

    /// Takes one event. Fails when the root itself was moved or deleted: every
    /// watch is about to go stale, and a supervisor can restart the program.
    pub fn event(
        &mut self,
        registry: &mut WatchRegistry,
        rules: &RuleEngine,
        root: &TreePath,
        event: &Event,
    ) -> (result: Result<EventStep, Failure>)
        ensures
            ({
                let means = reaction(old(registry)@, root@, event@);
                &&& final(self)@ == old(self)@.after(rules@, means)
                &&& final(registry)@ == registry_after(old(registry)@, means)
                &&& match result {
                    Ok(step) => step_for(rules@, means, step),
                    Err(Failure::RootMoved(path)) => means is RootMoved && path.is_copy_of(root),
                    Err(Failure::RootDeleted(path)) => means is RootDeleted && path.is_copy_of(
                        root,
                    ),
                    Err(_) => false,
                }
                &&& final(registry).spellings() == (match means {
                    Reaction::Deleted(descriptor) => old(registry).spellings().remove(descriptor),
                    _ => old(registry).spellings(),
                })
            }),
            result is Ok ==> result->Ok_0.is_spelled(
                old(registry).spellings()[event.descriptor],
                event@,
            ),
            forall|base: Seq<u8>| #[trigger]
                old(self).spelled_from(base) && old(registry).spelled_from(base) ==> {
                    &&& final(self).spelled_from(base)
                    &&& final(registry).spelled_from(base)
                    &&& result is Ok && event@.names_entry() ==> result->Ok_0.spelled_from(base)
                },
    {
        if kernel::contains_flag(event.mask, kernel::event_queue_overflow()) {
            self.needs_rescan = true;
            return Ok(EventStep::Overflowed);
        }
        if kernel::contains_flag(event.mask, kernel::event_move_self()) {
            let path = match registry.path_for(event.descriptor) {
                Some(path) => path.clone(),
                None => {
                    return Ok(EventStep::Ignored);
                },
            };
            if path.same_as(root) {
                return Err(Failure::RootMoved(root.clone()));
            }
            self.add_scope(path.clone());
            return Ok(EventStep::Moved(path));
        }
        if kernel::contains_flag(event.mask, kernel::event_delete_self()) {
            if let Some(path) = registry.path_for(event.descriptor) {
                if path.same_as(root) {
                    return Err(Failure::RootDeleted(root.clone()));
                }
            }
            registry.remove_by_descriptor(event.descriptor);
            return Ok(EventStep::Deleted(event.descriptor));
        }
        if !(kernel::contains_flag(event.mask, kernel::event_create()) || kernel::contains_flag(
            event.mask,
            kernel::event_moved_to(),
        )) {
            return Ok(EventStep::Ignored);
        }
        let directory = match registry.path_for(event.descriptor) {
            Some(path) => path.clone(),
            None => {
                return Ok(EventStep::UnknownDescriptor(event.descriptor));
            },
        };
        assert forall|base: Seq<u8>| #[trigger]
            old(self).spelled_from(base) && old(registry).spelled_from(
                base,
            ) implies directory.spelled_from(base) by {}
        let name = match &event.name {
            Some(name) => name,
            None => {
                return Ok(EventStep::Unnamed(directory));
            },
        };
        let trigger = rules.is_trigger(name.as_slice());
        if trigger {
            self.add_scope(directory.clone());
        }
        let path = directory.join(name.as_slice());
        Ok(EventStep::Inspect { path, directory, trigger })
    }

    /// Takes what was seen at the path that `EventStep::Inspect` names, nothing
    /// if it could not be read, and says what is due for it. A new directory is
    /// watched once the batch is over.
    pub fn entry(
        &mut self,
        rules: &RuleEngine,
        path: &TreePath,
        seen: Option<Inspection>,
    ) -> (action: EntryAction)
        ensures
            final(self)@ == old(self)@.after_entry(
                rules@,
                path@,
                discovery::inspection_view(seen),
            ),
            action@ == (match discovery::inspection_view(seen) {
                Some(inspection) => planned(rules@, inspection.candidate(path@)),
                None => EntryActionView::nothing(),
            }),
            forall|base: Seq<u8>| #[trigger]
                old(self).spelled_from(base) && path.spelled_from(base)
                    ==> final(self).spelled_from(base),
    {
        let inspection = match seen {
            Some(inspection) => inspection,
            None => {
                return EntryAction { apply_ignore: false, watch_dir: false, matched: None };
            },
        };
        let action = plan_entry(
            &Candidate {
                path,
                file_type: inspection.file_type,
                siblings: &inspection.siblings,
            },
            rules,
        );
        if action.watch_dir {
            let ghost pending = self.pending_directories@;
            self.pending_directories.push(path.clone());
            assert(self@.pending_directories =~= discovery::path_views(pending).push(path@));
        }
        action
    }

    /// What is left to do, in order, now that every event was taken.
    pub fn tasks(self, root: &TreePath) -> (tasks: Vec<Task>)
        ensures
            reconcile::task_views(tasks@) == self@.tasks(root@),
            forall|base: Seq<u8>| #[trigger]
                self.spelled_from(base) && root.spelled_from(base)
                    ==> reconcile::tasks_spelled_from(tasks@, base),
    {
        let mut tasks: Vec<Task> = Vec::new();
        let mut i: usize = 0;
        while i < self.pending_directories.len()
            invariant
                i <= self.pending_directories@.len(),
                tasks@.len() == i,
                forall|k: int|
                    0 <= k < i ==> (#[trigger] tasks@[k])@ == TaskView::Seed(
                        self.pending_directories@[k]@,
                    ),
                forall|base: Seq<u8>| #[trigger]
                    self.spelled_from(base) ==> reconcile::tasks_spelled_from(tasks@, base),
            decreases self.pending_directories@.len() - i,
        {
            tasks.push(Task::Seed(self.pending_directories[i].clone()));
            i = i + 1;
        }
        let ghost seeds = tasks@;
        let ghost first = self@.pending_directories.map_values(
            |path: PathView| TaskView::Seed(path),
        );
        assert(reconcile::task_views(tasks@) =~= first);
        if self.needs_rescan {
            tasks.push(Task::Rescan(root.clone()));
            tasks.push(Task::RequireRoot(root.clone()));
            assert(reconcile::task_views(tasks@) =~= self@.tasks(root@));
            return tasks;
        }
        let mut j: usize = 0;
        while j < self.rescan_scopes.len()
            invariant
                j <= self.rescan_scopes@.len(),
                tasks@.len() == seeds.len() + j,
                forall|k: int| 0 <= k < seeds.len() ==> tasks@[k] == seeds[k],
                forall|k: int|
                    0 <= k < j ==> (#[trigger] tasks@[seeds.len() + k])@ == TaskView::Rescan(
                        self.rescan_scopes@[k]@,
                    ),
                forall|base: Seq<u8>| #[trigger]
                    self.spelled_from(base) ==> reconcile::tasks_spelled_from(tasks@, base),
            decreases self.rescan_scopes@.len() - j,
        {
            tasks.push(Task::Rescan(self.rescan_scopes[j].clone()));
            j = j + 1;
        }
        proof {
            let second = self@.rescan_scopes.map_values(|path: PathView| TaskView::Rescan(path));
            let all = reconcile::task_views(tasks@);
            assert forall|k: int| 0 <= k < all.len() implies all[k] == (first + second)[k] by {
                if k < seeds.len() {
                    assert(all[k] == seeds[k]@);
                    assert(reconcile::task_views(seeds)[k] == first[k]);
                } else {
                    let m = k - seeds.len();
                    assert(tasks@[seeds.len() + m]@ == TaskView::Rescan(
                        self.rescan_scopes@[m]@,
                    ));
                }
            }
            assert(all =~= first + second);
        }
        tasks
    }
}

/// No event makes an entry of the registry go stale: as long as paths and
/// descriptors are in one-to-one correspondence, they stay so.
pub proof fn events_keep_maps_inverse(registry: RegistryView, means: Reaction)
    requires
        registry.inverse(),
    ensures
        registry_after(registry, means).inverse(),
{
    if let Reaction::Deleted(descriptor) = means {
        let path = registry.by_descriptor[descriptor];
        watch::watching_keeps_maps_inverse(
            registry,
            path,
            WatchReply::Refused(None),
            descriptor,
            path,
        );
    }
}

/// An overflow means the same whatever is watched and whatever else the event
/// says: nothing about it is looked up.
pub proof fn overflow_needs_no_lookup(
    registry: RegistryView,
    other: RegistryView,
    root: PathView,
    event: EventView,
    descriptor: i32,
    name: Option<Seq<u8>>,
)
    requires
        kernel::has_flag(event.mask, kernel::in_queue_overflow()),
    ensures
        reaction(registry, root, event) == Reaction::Overflow,
        reaction(other, root, EventView { descriptor, name, ..event }) == Reaction::Overflow,
{
}

/// What is done about an entry that appears at runtime is what a walk would
/// have done: it is marked exactly when the walk marks it, and watched exactly
/// when it is a directory that the walk goes into.
pub proof fn runtime_mirrors_the_walk(
    world: World,
    rules: Seq<RuleView>,
    path: PathView,
    file_type: FileType,
)
    requires
        file_type != FileType::Symlink,
        (world.metadata)(path) == Some(file_type),
    ensures
        planned(rules, world.candidate(path, file_type)).apply_ignore
            <==> world.marked_directory(rules, path),
        planned(rules, world.candidate(path, file_type)).watch_dir <==> file_type
            == FileType::Directory && world.descended(rules, path),
{
}

/// Runtime and discovery agree on the entries of a watched directory: such an
/// entry is marked at runtime exactly when it is to be marked in the tree, and
/// watched exactly when it is to be watched. A directory must be readable as one.
pub proof fn runtime_agrees_with_targets(
    world: World,
    rules: Seq<RuleView>,
    start: PathView,
    dir: PathView,
    i: int,
    path: PathView,
    file_type: FileType,
)
    requires
        world.well_named(),
        world.distinctly_named(),
        world.watch_target(rules, start, dir),
        world.holds(dir, i, path, file_type),
        file_type == FileType::Directory ==> (world.metadata)(path) == Some(file_type),
    ensures
        planned(rules, world.candidate(path, file_type)).apply_ignore <==> world.mark_target(
            rules,
            start,
            path,
        ),
        planned(rules, world.candidate(path, file_type)).watch_dir <==> world.watch_target(
            rules,
            start,
            path,
        ),
{
    tree::entry_is_not_start(world, rules, start, dir, i, path, file_type);
    if file_type == FileType::Directory {
        tree::reached_one_further(world, rules, start, dir, i, path);
    } else if world.reached(rules, start, path) {
        let steps = choose|steps: nat| world.reached_in(rules, start, steps, path);
        let (above, j) = choose|above: PathView, j: int|
            #![trigger world.holds(above, j, path, FileType::Directory)]
            world.reached_in(rules, start, (steps - 1) as nat, above) && world.descended(
                rules,
                above,
            ) && world.holds(above, j, path, FileType::Directory);
        tree::entry_is_one(world, dir, i, file_type, above, j, FileType::Directory, path);
    }
    assert forall|above: PathView| #[trigger]
        world.watch_target(rules, start, above) && world.marked_file_in(
            rules,
            above,
            path,
        ) implies above == dir && file_type == FileType::Other by {
        let j = choose|j: int| #[trigger] world.holds(above, j, path, FileType::Other);
        tree::entry_is_one(world, dir, i, file_type, above, j, FileType::Other, path);
    }
    if file_type == FileType::Other && engine::marks(rules, world.candidate(path, file_type)) {
        assert(world.marked_file_in(rules, dir, path));
    }
}

/// The same, put in terms of what a discovery returns: for an entry of a
/// directory that it lists for watching, runtime marks the entry exactly when the
/// discovery lists it among its matches, and watches it exactly when the discovery
/// lists it for watching.
pub proof fn runtime_agrees_with_discovery(
    world: World,
    rules: Seq<RuleView>,
    start: PathView,
    walk: Seq<WalkView>,
    dir: PathView,
    i: int,
    path: PathView,
    file_type: FileType,
)
    requires
        world.well_named(),
        world.distinctly_named(),
        tree::is_walk(world, rules, start, true, walk),
        walk.last().done(),
        walk.last().found.watchers.contains(dir),
        world.holds(dir, i, path, file_type),
        file_type == FileType::Directory ==> (world.metadata)(path) == Some(file_type),
    ensures
        planned(rules, world.candidate(path, file_type)).apply_ignore
            <==> walk.last().found.matches.contains(path),
        planned(rules, world.candidate(path, file_type)).watch_dir
            <==> walk.last().found.watchers.contains(path),
{
    tree::walk_is_exact(world, rules, start, true, walk);
    runtime_agrees_with_targets(world, rules, start, dir, i, path, file_type);
}

/// A symlink that appears at runtime is neither marked nor watched, whatever it
/// is named and whatever it points at.
pub proof fn symlinks_are_never_acted_on(rules: Seq<RuleView>, candidate: CandidateView)
    requires
        candidate.file_type == FileType::Symlink,
    ensures
        planned(rules, candidate) == EntryActionView::nothing(),
{
}

/// A batch and the registry beside it.
#[verifier::ext_equal]
pub struct BatchState {
    pub batch: BatchView,
    pub registry: RegistryView,
}

/// True when `after` can follow `before` by `event`, whatever was seen of the
/// entry that the event is about.
pub open spec fn follows(
    rules: Seq<RuleView>,
    root: PathView,
    before: BatchState,
    event: EventView,
    after: BatchState,
) -> bool {
    let means = reaction(before.registry, root, event);
    &&& !(means is RootMoved)
    &&& !(means is RootDeleted)
    &&& after.registry == registry_after(before.registry, means)
    &&& match means {
        Reaction::Appeared(dir, name) => exists|seen: Option<InspectionView>|
            after.batch == #[trigger] before.batch.after(rules, means).after_entry(
                rules,
                dir.join(name),
                seen,
            ),
        _ => after.batch == before.batch.after(rules, means),
    }
}

/// True when `states` are the states of a batch that takes `events` and does
/// not fail.
pub open spec fn is_batch(
    rules: Seq<RuleView>,
    root: PathView,
    events: Seq<EventView>,
    states: Seq<BatchState>,
) -> bool {
    &&& states.len() == events.len() + 1
    &&& states[0].batch == BatchView::empty()
    &&& forall|i: int|
        0 <= i < events.len() ==> follows(
            rules,
            root,
            states[i],
            #[trigger] events[i],
            states[i + 1],
        )
}

/// True when the subtree of `scope` has to be rescanned because of `event`.
pub open spec fn asks_for_scope(
    rules: Seq<RuleView>,
    root: PathView,
    registry: RegistryView,
    event: EventView,
    scope: PathView,
) -> bool {
    match reaction(registry, root, event) {
        Reaction::Moved(path) => path == scope,
        Reaction::Appeared(dir, name) => dir == scope && engine::names_trigger(rules, name),
        _ => false,
    }
}

/// True when `path` stands for some descriptor of `registry`.
pub open spec fn has_descriptor(registry: RegistryView, path: PathView) -> bool {
    exists|descriptor: i32| #[trigger]
        registry.by_descriptor.contains_key(descriptor) && registry.by_descriptor[descriptor]
            == path
}

/// Taking an event never adds to the registry.
proof fn registry_only_shrinks(
    rules: Seq<RuleView>,
    root: PathView,
    before: BatchState,
    event: EventView,
    after: BatchState,
    path: PathView,
)
    requires
        follows(rules, root, before, event, after),
        has_descriptor(after.registry, path),
    ensures
        has_descriptor(before.registry, path),
{
    let d = choose|d: i32| #[trigger]
        after.registry.by_descriptor.contains_key(d) && after.registry.by_descriptor[d] == path;
    assert(before.registry.by_descriptor.contains_key(d));
}

/// Nothing that a batch of events asks for is lost or done twice: the tree is
/// rescanned exactly when some event reports an overflow, every directory that
/// moved away or got a trigger file is rescanned, each once, and no directory
/// is rescanned that was not watched when the batch began.
pub proof fn batch_loses_nothing(
    rules: Seq<RuleView>,
    root: PathView,
    events: Seq<EventView>,
    states: Seq<BatchState>,
)
    requires
        is_batch(rules, root, events, states),
    ensures
        states.last().batch.needs_rescan <==> exists|i: int|
            0 <= i < events.len() && kernel::has_flag(
                (#[trigger] events[i]).mask,
                kernel::in_queue_overflow(),
            ),
        forall|scope: PathView| #[trigger]
            states.last().batch.rescan_scopes.contains(scope) <==> exists|i: int|
                0 <= i < events.len() && asks_for_scope(
                    rules,
                    root,
                    states[i].registry,
                    #[trigger] events[i],
                    scope,
                ),
        states.last().batch.rescan_scopes.no_duplicates(),
        forall|scope: PathView| #[trigger]
            states.last().batch.rescan_scopes.contains(scope) ==> has_descriptor(
                states[0].registry,
                scope,
            ),
{
    batch_prefix_loses_nothing(rules, root, events, states, events.len() as int);
}

/// The same of the first `n` events.
proof fn batch_prefix_loses_nothing(
    rules: Seq<RuleView>,
    root: PathView,
    events: Seq<EventView>,
    states: Seq<BatchState>,
    n: int,
)
    requires
        is_batch(rules, root, events, states),
        0 <= n <= events.len(),
    ensures
        states[n].batch.needs_rescan <==> exists|i: int|
            0 <= i < n && kernel::has_flag(
                (#[trigger] events[i]).mask,
                kernel::in_queue_overflow(),
            ),
        forall|scope: PathView| #[trigger]
            states[n].batch.rescan_scopes.contains(scope) <==> exists|i: int|
                0 <= i < n && asks_for_scope(
                    rules,
                    root,
                    states[i].registry,
                    #[trigger] events[i],
                    scope,
                ),
        states[n].batch.rescan_scopes.no_duplicates(),
        forall|scope: PathView| #[trigger]
            states[n].batch.rescan_scopes.contains(scope) ==> has_descriptor(
                states[0].registry,
                scope,
            ),
        forall|path: PathView| #[trigger]
            has_descriptor(states[n].registry, path) ==> has_descriptor(states[0].registry, path),
    decreases n,
{
    if n > 0 {
        batch_prefix_loses_nothing(rules, root, events, states, n - 1);
        let before = states[n - 1];
        let event = events[n - 1];
        let after = states[n];
        let means = reaction(before.registry, root, event);
        assert(follows(rules, root, before, event, after));
        assert forall|path: PathView| #[trigger]
            has_descriptor(after.registry, path) implies has_descriptor(
            states[0].registry,
            path,
        ) by {
            registry_only_shrinks(rules, root, before, event, after, path);
        }
        let stepped = before.batch.after(rules, means);
        assert(after.batch.rescan_scopes == stepped.rescan_scopes);
        assert(after.batch.needs_rescan == stepped.needs_rescan);
        let known = before.registry.by_descriptor.contains_key(event.descriptor);
        let path = before.registry.by_descriptor[event.descriptor];
        sequence::contains_after_push(before.batch.rescan_scopes, path);
        assert forall|scope: PathView| #[trigger]
            after.batch.rescan_scopes.contains(scope) <==> before.batch.rescan_scopes.contains(
                scope,
            ) || asks_for_scope(rules, root, before.registry, event, scope) by {}
        assert forall|scope: PathView| #[trigger]
            after.batch.rescan_scopes.contains(scope) <==> exists|i: int|
                0 <= i < n && asks_for_scope(
                    rules,
                    root,
                    states[i].registry,
                    #[trigger] events[i],
                    scope,
                ) by {
            if asks_for_scope(rules, root, before.registry, event, scope) {
                assert(asks_for_scope(rules, root, states[n - 1].registry, events[n - 1], scope));
            }
            if before.batch.rescan_scopes.contains(scope) {
                let i = choose|i: int|
                    0 <= i < n - 1 && asks_for_scope(
                        rules,
                        root,
                        states[i].registry,
                        #[trigger] events[i],
                        scope,
                    );
                assert(asks_for_scope(rules, root, states[i].registry, events[i], scope));
            }
        }
        assert forall|scope: PathView| #[trigger]
            after.batch.rescan_scopes.contains(scope) implies has_descriptor(
            states[0].registry,
            scope,
        ) by {
            if asks_for_scope(rules, root, before.registry, event, scope) {
                assert(known && scope == path);
                assert(has_descriptor(before.registry, scope));
            }
        }
        assert(after.batch.rescan_scopes.no_duplicates()) by {
            let old_scopes = before.batch.rescan_scopes;
            assert(forall|k: int|
                0 <= k < old_scopes.len() ==> old_scopes.contains(#[trigger] old_scopes[k]));
        }
    }
}

/// A rescan of the root covers every scope of the batch: where everything that
/// is watched lies below the root, so does every scope.
pub proof fn root_rescan_supersedes_scopes(
    rules: Seq<RuleView>,
    root: PathView,
    events: Seq<EventView>,
    states: Seq<BatchState>,
)
    requires
        is_batch(rules, root, events, states),
        forall|path: PathView| #[trigger]
            has_descriptor(states[0].registry, path) ==> path.starts_with(root),
    ensures
        forall|scope: PathView| #[trigger]
            states.last().batch.rescan_scopes.contains(scope) ==> scope.starts_with(root),
{
    batch_loses_nothing(rules, root, events, states);
}

/// What is due for an entry is seen for what it is.
pub proof fn actions_are_seen_as_given(action: EntryAction)
    ensures
        action@.apply_ignore == action.apply_ignore,
        action@.watch_dir == action.watch_dir,
        action@.matched is Some <==> action.matched is Some,
        action.matched is Some ==> action@.matched->0 == (action.matched->0)@,
{
}

} // verus!

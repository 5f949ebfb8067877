//! What one event, and one entry that appeared, come to.
//!
//! Flags are written as the numbers that the kernel sets, so what is said here
//! holds of the events themselves.

use crate::engine;
use crate::events;
use crate::events::{BatchView, EntryActionView, EventStep, EventView};
use crate::discovery::InspectionView;
use crate::path;
use crate::path::PathView;
use crate::round::{RoundStageView, RoundView};
use crate::rules::{FileType, RuleView};
use crate::sequence;
use crate::tree::World;
use crate::watch::RegistryView;
use vstd::prelude::*;

verus! {

/// True when the event says that events were lost.
pub open spec fn is_overflow(event: EventView) -> bool {
    event.mask & 0x4000u32 == 0x4000u32
}

/// True when the event says that the watched directory itself was moved.
pub open spec fn is_move(event: EventView) -> bool {
    !is_overflow(event) && event.mask & 0x800u32 == 0x800u32
}

/// True when the event says that the watched directory itself was deleted.
pub open spec fn is_deletion(event: EventView) -> bool {
    !is_overflow(event) && !is_move(event) && event.mask & 0x400u32 == 0x400u32
}

/// True when the event says that an entry was created in the watched directory or
/// moved into it, whatever else it says of the entry.
pub open spec fn is_arrival(event: EventView) -> bool {
    &&& !is_overflow(event)
    &&& !is_move(event)
    &&& !is_deletion(event)
    &&& event.mask & 0x100u32 == 0x100u32 || event.mask & 0x80u32 == 0x80u32
}

/// The entry that appeared, if the event is about one in a watched directory.
pub open spec fn arrived(registry: RegistryView, event: EventView) -> Option<PathView> {
    if is_arrival(event) && registry.by_descriptor.contains_key(event.descriptor) && event.name
        is Some {
        Some(registry.by_descriptor[event.descriptor].join(event.name->0))
    } else {
        None
    }
}

/// True when the event asks to rescan `dir`: it moved away, or got an entry whose
/// creation may change what the rules say of its neighbours.
pub open spec fn asks_to_rescan(
    rules: Seq<RuleView>,
    registry: RegistryView,
    event: EventView,
    dir: PathView,
) -> bool {
    &&& registry.by_descriptor.contains_key(event.descriptor)
    &&& registry.by_descriptor[event.descriptor] == dir
    &&& is_move(event) || (is_arrival(event) && event.name is Some && engine::names_trigger(
        rules,
        event.name->0,
    ))
}

/// What an event does to the registry and to what is left to do, and what is asked
/// for at once: lost events ask for a rescan of everything; a directory that moved
/// away is rescanned; one that was deleted is forgotten; an entry that arrived in
/// a watched directory is looked at, and its directory is rescanned if the entry is
/// a trigger; anything else changes nothing. New directories are collected when
/// the entry was looked at, not before.
pub proof fn event_is_taken_for_what_it_is(
    rules: Seq<RuleView>,
    root: PathView,
    registry: RegistryView,
    batch: BatchView,
    event: EventView,
    step: EventStep,
)
    requires
        events::step_for(rules, events::reaction(registry, root, event), step),
    ensures
        ({
            let means = events::reaction(registry, root, event);
            let after = batch.after(rules, means);
            let after_registry = events::registry_after(registry, means);
            let known = registry.by_descriptor.contains_key(event.descriptor);
            let dir = registry.by_descriptor[event.descriptor];
            &&& after.pending_directories == batch.pending_directories
            &&& after.needs_rescan <==> batch.needs_rescan || is_overflow(event)
            &&& forall|scope: PathView| #[trigger]
                after.rescan_scopes.contains(scope) <==> batch.rescan_scopes.contains(scope)
                    || asks_to_rescan(rules, registry, event, scope)
            &&& batch.rescan_scopes.no_duplicates() ==> after.rescan_scopes.no_duplicates()
            &&& step is Overflowed <==> is_overflow(event)
            &&& step is Moved <==> is_move(event) && known
            &&& step matches EventStep::Moved(moved) ==> moved@ == dir
            &&& step is Deleted <==> is_deletion(event)
            &&& step matches EventStep::Deleted(descriptor) ==> descriptor == event.descriptor
            &&& step is UnknownDescriptor <==> is_arrival(event) && !known
            &&& step matches EventStep::UnknownDescriptor(descriptor) ==> descriptor
                == event.descriptor
            &&& step is Unnamed <==> is_arrival(event) && known && event.name is None
            &&& step matches EventStep::Unnamed(directory) ==> directory@ == dir
            &&& step is Inspect <==> is_arrival(event) && known && event.name is Some
            &&& step matches EventStep::Inspect { path, directory, trigger } ==> {
                &&& directory@ == dir
                &&& trigger <==> engine::names_trigger(rules, event.name->0)
                &&& path::is_entry_name(event.name->0) ==> path@.absolute == dir.absolute
                    && path@.names == dir.names.push(event.name->0)
            }
            &&& !is_deletion(event) ==> after_registry == registry
            &&& is_deletion(event) && !known ==> after_registry == registry
            &&& is_deletion(event) && known ==> {
                &&& after_registry.by_descriptor == registry.by_descriptor.remove(
                    event.descriptor,
                )
                &&& after_registry.by_path == registry.by_path.remove(dir)
            }
        }),
{
    let means = events::reaction(registry, root, event);
    let after = batch.after(rules, means);
    let dir = registry.by_descriptor[event.descriptor];
    sequence::contains_after_push(batch.rescan_scopes, dir);
    if batch.rescan_scopes.no_duplicates() {
        sequence::distinct_after_push(batch.rescan_scopes, dir);
    }
    if event.name is Some && path::is_entry_name(event.name->0) {
        path::entry_path_of_directory(dir, event.name->0);
    }
}

/// The round fails at an event exactly when it says that the root itself was moved
/// or deleted.
pub proof fn events_about_the_root_fail(
    registry: RegistryView,
    root: PathView,
    event: EventView,
)
    ensures
        ({
            let is_root = registry.by_descriptor.contains_key(event.descriptor)
                && registry.by_descriptor[event.descriptor] == root;
            &&& events::reaction(registry, root, event) is RootMoved <==> is_move(event)
                && is_root
            &&& events::reaction(registry, root, event) is RootDeleted <==> is_deletion(event)
                && is_root
        }),
{
}

/// A round that takes an event has that event behind it, keeps its root, and looks
/// at the entry that arrived next, if one did.
pub proof fn taken_event_leads_to_its_entry(
    rules: Seq<RuleView>,
    registry: RegistryView,
    round: RoundView,
)
    requires
        round.events.len() > 0,
        !(round.next_reaction(registry) is RootMoved),
        !(round.next_reaction(registry) is RootDeleted),
    ensures
        ({
            let next = round.took_event(registry, rules);
            &&& next.root == round.root
            &&& next.events == round.events.drop_first()
            &&& next.batch == round.batch.after(
                rules,
                events::reaction(registry, round.root, round.events[0]),
            )
            &&& match arrived(registry, round.events[0]) {
                Some(path) => next.stage == RoundStageView::Entry(path),
                None => next.stage is Events,
            }
        }),
{
}

/// An entry of a watched directory that a round looks at, in a tree that holds
/// still, gets what is due to it in the tree: it is marked exactly when it is to be
/// marked below the root, be it a directory or any other file, and it is to be
/// watched after the batch exactly when it is to be watched below the root. What
/// could not be read, or is not looked at, gets nothing.
pub proof fn inspected_entry_gets_its_due(
    world: World,
    rules: Seq<RuleView>,
    root: PathView,
    round: RoundView,
    dir: PathView,
    i: int,
    path: PathView,
    seen: InspectionView,
)
    requires
        engine::all_local(rules),
        world.well_named(),
        world.distinctly_named(),
        world.watch_target(rules, root, dir),
        world.holds(dir, i, path, seen.file_type),
        seen.file_type == FileType::Directory ==> (world.metadata)(path) == Some(seen.file_type),
        seen.candidate(path).agrees_on(
            world.candidate(path, seen.file_type),
            engine::consulted(rules, path, seen.file_type),
        ),
        round.stage == RoundStageView::Entry(path),
    ensures
        ({
            let action = round.entry_action(rules, Some(seen));
            let next = round.entry(rules, Some(seen));
            &&& action.apply_ignore <==> world.mark_target(rules, root, path)
            &&& action.watch_dir <==> world.watch_target(rules, root, path)
            &&& action.matched is Some ==> action.matched == engine::verdict(
                rules,
                world.candidate(path, seen.file_type),
            )
            &&& seen.file_type != FileType::Symlink ==> action.matched == engine::verdict(
                rules,
                world.candidate(path, seen.file_type),
            )
            &&& round.entry_marks(rules, Some(seen)) == (if world.mark_target(rules, root, path) {
                seq![path]
            } else {
                Seq::empty()
            })
            &&& next.root == round.root
            &&& next.events == round.events
            &&& next.stage is Events
            &&& next.batch.needs_rescan == round.batch.needs_rescan
            &&& next.batch.rescan_scopes == round.batch.rescan_scopes
            &&& next.batch.pending_directories == (if world.watch_target(rules, root, path) {
                round.batch.pending_directories.push(path)
            } else {
                round.batch.pending_directories
            })
            &&& round.entry_action(rules, None) == EntryActionView {
                apply_ignore: false,
                watch_dir: false,
                matched: None,
            }
            &&& round.entry(rules, None).batch == round.batch
            &&& round.entry_marks(rules, None).len() == 0
        }),
{
    engine::verdict_turns_on_consulted_siblings(
        rules,
        seen.candidate(path),
        world.candidate(path, seen.file_type),
    );
    events::runtime_agrees_with_targets(world, rules, root, dir, i, path, seen.file_type);
}

} // verus!

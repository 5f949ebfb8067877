//! When a piece of work brings the whole registry in line with the whole tree.
//!
//! The registry is exact when it watches precisely the directories that a walk
//! from the root goes into. A rescan of one subtree is enough to make it exact
//! again after a change that stays within that subtree.

use crate::engine;
use crate::path;
use crate::path::PathView;
use crate::reconcile::TaskView;
use crate::rules::{FileType, RuleView};
use crate::settling;
use crate::settling::JobState;
use crate::tree;
use crate::tree::{ListedName, World};
use crate::watch::RegistryView;
use vstd::prelude::*;

verus! {

/// True when `path` is `base` or lies below it.
pub open spec fn at_or_below(path: PathView, base: PathView) -> bool {
    path.absolute == base.absolute && base.names.is_prefix_of(path.names)
}

/// True when exactly the directories to watch below `root` are watched.
pub open spec fn is_exact(
    world: World,
    rules: Seq<RuleView>,
    root: PathView,
    registry: RegistryView,
) -> bool {
    forall|path: PathView| #[trigger]
        registry.contains_path(path) <==> world.watch_target(rules, root, path)
}

/// True when that holds of all paths outside of `scope`.
pub open spec fn is_exact_outside(
    world: World,
    rules: Seq<RuleView>,
    root: PathView,
    registry: RegistryView,
    scope: PathView,
) -> bool {
    forall|path: PathView|
        !at_or_below(path, scope) ==> (#[trigger] registry.contains_path(path)
            <==> world.watch_target(rules, root, path))
}

/// A walk that comes to a directory goes on below it as a walk from there does.
proof fn reached_through(
    world: World,
    rules: Seq<RuleView>,
    root: PathView,
    dir: PathView,
    path: PathView,
    to_dir: nat,
    to_path: nat,
)
    requires
        world.reached_in(rules, root, to_dir, dir),
        world.reached_in(rules, dir, to_path, path),
    ensures
        world.reached_in(rules, root, to_dir + to_path, path),
    decreases to_path,
{
    if to_path > 0 {
        let (above, i) = choose|above: PathView, i: int|
            #![trigger world.holds(above, i, path, FileType::Directory)]
            world.reached_in(rules, dir, (to_path - 1) as nat, above) && world.descended(
                rules,
                above,
            ) && world.holds(above, i, path, FileType::Directory);
        reached_through(world, rules, root, dir, above, to_dir, (to_path - 1) as nat);
        assert(world.reached_in(rules, root, (to_dir + to_path - 1) as nat, above));
    }
}

/// A walk that comes to a path has come through every directory above it that
/// lies below its start.
pub proof fn reached_by_way_of(
    world: World,
    rules: Seq<RuleView>,
    root: PathView,
    dir: PathView,
    path: PathView,
    steps: nat,
)
    requires
        world.well_named(),
        world.reached_in(rules, root, steps, path),
        at_or_below(dir, root),
        at_or_below(path, dir),
    ensures
        world.reached(rules, root, dir),
        world.reached(rules, dir, path),
    decreases steps,
{
    if path == dir {
        assert(world.reached_in(rules, dir, 0, path));
    } else if steps == 0 {
        assert(dir.names =~= path.names) by {
            assert(root.names =~= path.names);
        }
    } else {
        let (above, i) = choose|above: PathView, i: int|
            #![trigger world.holds(above, i, path, FileType::Directory)]
            world.reached_in(rules, root, (steps - 1) as nat, above) && world.descended(
                rules,
                above,
            ) && world.holds(above, i, path, FileType::Directory);
        let name = (world.listing)(above)->0[i].name;
        path::entry_path_of_directory(above, name);
        assert(path.names.drop_last() =~= above.names);
        if dir.names.len() == path.names.len() {
            assert(dir.names =~= path.names);
        }
        assert(dir.names =~= above.names.subrange(0, dir.names.len() as int));
        reached_by_way_of(world, rules, root, dir, above, (steps - 1) as nat);
        let below = choose|below: nat| world.reached_in(rules, dir, below, above);
        assert(world.reached_in(rules, dir, below + 1, path));
    }
}

/// Below a directory that a walk comes to, it finds what a walk from there
/// finds.
pub proof fn walks_agree_below(
    world: World,
    rules: Seq<RuleView>,
    root: PathView,
    dir: PathView,
    path: PathView,
)
    requires
        world.well_named(),
        at_or_below(dir, root),
        at_or_below(path, dir),
        world.reached(rules, root, dir),
    ensures
        world.watch_target(rules, root, path) <==> world.watch_target(rules, dir, path),
{
    if world.reached(rules, root, path) {
        let steps = choose|steps: nat| world.reached_in(rules, root, steps, path);
        reached_by_way_of(world, rules, root, dir, path, steps);
    }
    if world.reached(rules, dir, path) {
        let to_dir = choose|steps: nat| world.reached_in(rules, root, steps, dir);
        let to_path = choose|steps: nat| world.reached_in(rules, dir, steps, path);
        reached_through(world, rules, root, dir, path, to_dir, to_path);
    }
}

/// A rescan of a subtree outside of which the registry is exact makes it exact
/// everywhere, where the walk from the root comes to the subtree's directory or
/// nothing goes into it.
pub proof fn rescan_restores_exactness(
    world: World,
    rules: Seq<RuleView>,
    root: PathView,
    scope: PathView,
    rest: Seq<TaskView>,
    states: Seq<JobState>,
)
    requires
        world.well_named(),
        root.absolute,
        at_or_below(scope, root),
        is_exact_outside(world, rules, root, states[0].registry, scope),
        world.reached(rules, root, scope) || !world.descended(rules, scope),
        settling::settles(world, rules, TaskView::Rescan(scope), rest, states),
        settling::unused_descriptors(states),
    ensures
        is_exact(world, rules, root, states.last().registry),
{
    settling::rescan_matches_fresh_discovery(world, rules, scope, rest, states);
    assert forall|path: PathView| #[trigger]
        states.last().registry.contains_path(path) <==> world.watch_target(rules, root, path) by {
        if at_or_below(path, scope) {
            if world.reached(rules, root, scope) {
                walks_agree_below(world, rules, root, scope, path);
            } else {
                settling::rescan_prunes_what_is_gone(world, rules, scope, rest, states, path);
                if world.watch_target(rules, root, path) {
                    let steps = choose|steps: nat| world.reached_in(rules, root, steps, path);
                    reached_by_way_of(world, rules, root, scope, path, steps);
                }
            }
        } else {
            assert(!path.starts_with(scope));
            settling::rescan_leaves_the_rest_alone(world, rules, scope, rest, states, path);
        }
    }
}

/// Seeding a directory that a walk from the root comes to, where the registry is
/// exact outside of it and watches nothing inside of it that is not to be
/// watched, makes it exact everywhere. So a new directory is fully taken in.
pub proof fn seeding_restores_exactness(
    world: World,
    rules: Seq<RuleView>,
    root: PathView,
    dir: PathView,
    rest: Seq<TaskView>,
    states: Seq<JobState>,
)
    requires
        world.well_named(),
        root.absolute,
        at_or_below(dir, root),
        is_exact_outside(world, rules, root, states[0].registry, dir),
        forall|path: PathView| #[trigger]
            states[0].registry.contains_path(path) && at_or_below(path, dir)
                ==> world.watch_target(rules, root, path),
        world.reached(rules, root, dir),
        settling::settles(world, rules, TaskView::Seed(dir), rest, states),
        settling::unused_descriptors(states),
    ensures
        is_exact(world, rules, root, states.last().registry),
{
    settling::settling_is_exact(
        world,
        rules,
        TaskView::Seed(dir),
        rest,
        states,
        Set::empty(),
    );
    assert(settling::place_of(TaskView::Seed(dir)) == dir);
    assert forall|path: PathView| #[trigger]
        states.last().registry.contains_path(path) <==> world.watch_target(rules, root, path) by {
        assert(states[0].registry.contains_path(path) ==> settling::keeps(
            states[0].registry,
            states.last().registry,
            path,
        ));
        assert(world.watch_target(rules, dir, path) ==> states.last().registry.contains_path(path));
        if at_or_below(path, dir) {
            walks_agree_below(world, rules, root, dir, path);
        } else if world.watch_target(rules, dir, path) {
            tree::walk_stays_below_start(world, rules, dir, path);
        }
    }
}

/// Where the registry is exact but for what lies below `from` and `to`, seeding
/// `to` makes it exact outside of `from`, though paths below `from` may lose
/// their place.
proof fn seeding_restores_the_rest(
    world: World,
    rules: Seq<RuleView>,
    root: PathView,
    from: PathView,
    to: PathView,
    rest: Seq<TaskView>,
    states: Seq<JobState>,
)
    requires
        world.well_named(),
        root.absolute,
        at_or_below(from, root),
        at_or_below(to, root),
        forall|path: PathView|
            !at_or_below(path, from) && !at_or_below(path, to) ==> (
            #[trigger] states[0].registry.contains_path(path) <==> world.watch_target(
                rules,
                root,
                path,
            )),
        forall|path: PathView| #[trigger]
            states[0].registry.contains_path(path) && !at_or_below(path, from) && at_or_below(
                path,
                to,
            ) ==> world.watch_target(rules, root, path),
        world.reached(rules, root, to),
        settling::settles(world, rules, TaskView::Seed(to), rest, states),
        settling::evict_only(states, settling::subtree(from)),
    ensures
        is_exact_outside(world, rules, root, states.last().registry, from),
{
    let first = states[0].registry;
    let seeded = states.last().registry;
    settling::settling_is_exact(
        world,
        rules,
        TaskView::Seed(to),
        rest,
        states,
        settling::subtree(from),
    );
    assert(settling::place_of(TaskView::Seed(to)) == to);
    assert forall|path: PathView| !at_or_below(path, from) implies (
    #[trigger] seeded.contains_path(path) <==> world.watch_target(rules, root, path)) by {
        assert(!settling::subtree(from).contains(path));
        assert(first.contains_path(path) ==> settling::keeps(first, seeded, path));
        assert(world.watch_target(rules, to, path) ==> seeded.contains_path(path));
        if at_or_below(path, to) {
            walks_agree_below(world, rules, root, to, path);
        } else if world.watch_target(rules, to, path) {
            tree::walk_stays_below_start(world, rules, to, path);
        }
    }
}

/// A rename inside the tree is reconciled: where the registry is exact but for
/// what lies below the old path and the new one, seeding the new path and then
/// rescanning the old one makes it exact everywhere. The kernel watches the
/// renamed directories under the descriptors that they had, so while the new path
/// is seeded a path below the old one may lose its place.
pub proof fn rename_restores_exactness(
    world: World,
    rules: Seq<RuleView>,
    root: PathView,
    from: PathView,
    to: PathView,
    rest: Seq<TaskView>,
    seeding: Seq<JobState>,
    rescanning: Seq<JobState>,
)
    requires
        world.well_named(),
        root.absolute,
        at_or_below(from, root),
        at_or_below(to, root),
        forall|path: PathView|
            !at_or_below(path, from) && !at_or_below(path, to) ==> (
            #[trigger] seeding[0].registry.contains_path(path) <==> world.watch_target(
                rules,
                root,
                path,
            )),
        forall|path: PathView| #[trigger]
            seeding[0].registry.contains_path(path) && !at_or_below(path, from) && at_or_below(
                path,
                to,
            ) ==> world.watch_target(rules, root, path),
        world.reached(rules, root, to),
        world.reached(rules, root, from) || !world.descended(rules, from),
        settling::settles(
            world,
            rules,
            TaskView::Seed(to),
            seq![TaskView::Rescan(from)] + rest,
            seeding,
        ),
        settling::evict_only(seeding, settling::subtree(from)),
        rescanning[0] == seeding.last(),
        settling::settles(world, rules, TaskView::Rescan(from), rest, rescanning),
        settling::unused_descriptors(rescanning),
    ensures
        is_exact(world, rules, root, rescanning.last().registry),
{
    seeding_restores_the_rest(
        world,
        rules,
        root,
        from,
        to,
        seq![TaskView::Rescan(from)] + rest,
        seeding,
    );
    rescan_restores_exactness(world, rules, root, from, rest, rescanning);
}

/// True when `after` is `before` with one more file, named `name`, in `dir`.
pub open spec fn gains_file(
    before: World,
    after: World,
    dir: PathView,
    name: Seq<u8>,
) -> bool {
    &&& after.metadata == before.metadata
    &&& forall|path: PathView|
        path != dir ==> #[trigger] (after.listing)(path) == (before.listing)(path)
    &&& match ((before.listing)(dir), (after.listing)(dir)) {
        (Some(old_names), Some(new_names)) => exists|at: int|
            0 <= at <= old_names.len() && new_names == #[trigger] old_names.insert(
                at,
                ListedName { name, file_type: Some(FileType::Other) },
            ),
        (None, None) => true,
        _ => false,
    }
    &&& forall|path: PathView|
        path != dir.join(name) ==> #[trigger] (after.exists)(path) == (before.exists)(path)
}

/// The verdict on an entry outside of a directory does not change when a file
/// appears in the directory.
pub proof fn new_file_changes_no_verdict_elsewhere(
    before: World,
    after: World,
    rules: Seq<RuleView>,
    dir: PathView,
    name: Seq<u8>,
    path: PathView,
    file_type: FileType,
)
    requires
        engine::all_local(rules),
        engine::has_plain_triggers(rules),
        path::is_entry_name(name),
        gains_file(before, after, dir, name),
        path.parent() != Some(dir),
    ensures
        engine::verdict(rules, before.candidate(path, file_type)) == engine::verdict(
            rules,
            after.candidate(path, file_type),
        ),
{
    assert forall|trigger: Seq<u8>| #[trigger]
        engine::names_trigger(rules, trigger) implies before.candidate(
        path,
        file_type,
    ).siblings.contains(trigger) == after.candidate(path, file_type).siblings.contains(
        trigger,
    ) by {
        if let Some(parent) = path.parent() {
            path::entry_path_of_directory(parent, trigger);
            path::entry_path_of_directory(dir, name);
            if parent.join(trigger) == dir.join(name) {
                assert(parent == dir);
            }
        }
    }
    engine::verdict_turns_on_triggers_beside_it(
        rules,
        before.candidate(path, file_type),
        after.candidate(path, file_type),
    );
}

/// A directory outside of `dir` is gone into after a file appeared in `dir`
/// exactly if it was before.
proof fn new_file_keeps_descents_elsewhere(
    before: World,
    after: World,
    rules: Seq<RuleView>,
    dir: PathView,
    name: Seq<u8>,
    path: PathView,
)
    requires
        engine::all_local(rules),
        engine::has_plain_triggers(rules),
        path::is_entry_name(name),
        gains_file(before, after, dir, name),
        path.parent() != Some(dir),
    ensures
        before.descended(rules, path) == after.descended(rules, path),
{
    if let Some(file_type) = (before.metadata)(path) {
        new_file_changes_no_verdict_elsewhere(before, after, rules, dir, name, path, file_type);
    }
}

/// A child of a directory lies below it.
proof fn children_lie_below(dir: PathView, path: PathView)
    requires
        path.parent() == Some(dir),
    ensures
        at_or_below(path, dir),
{
    assert(dir.names =~= path.names.subrange(0, dir.names.len() as int));
}

/// What is reached outside of `dir` before a file appears there is reached
/// afterwards, and the other way round.
proof fn new_file_keeps_ways_elsewhere(
    from: World,
    to: World,
    before: World,
    after: World,
    rules: Seq<RuleView>,
    root: PathView,
    dir: PathView,
    name: Seq<u8>,
    steps: nat,
    path: PathView,
)
    requires
        engine::all_local(rules),
        engine::has_plain_triggers(rules),
        path::is_entry_name(name),
        gains_file(before, after, dir, name),
        from.well_named(),
        (from == before && to == after) || (from == after && to == before),
        from.reached_in(rules, root, steps, path),
        !at_or_below(path, dir) || path == dir,
    ensures
        to.reached_in(rules, root, steps, path),
    decreases steps,
{
    if steps > 0 {
        let (above, i) = choose|above: PathView, i: int|
            #![trigger from.holds(above, i, path, FileType::Directory)]
            from.reached_in(rules, root, (steps - 1) as nat, above) && from.descended(rules, above)
                && from.holds(above, i, path, FileType::Directory);
        path::entry_path_of_directory(above, (from.listing)(above)->0[i].name);
        assert(path.names.drop_last() =~= above.names);
        if at_or_below(above, dir) {
            assert(dir.names =~= path.names.subrange(0, dir.names.len() as int));
            assert(at_or_below(path, dir));
            assert(dir.names.len() <= above.names.len() < path.names.len());
        }
        if above.parent() == Some(dir) {
            children_lie_below(dir, above);
        }
        new_file_keeps_ways_elsewhere(
            from,
            to,
            before,
            after,
            rules,
            root,
            dir,
            name,
            (steps - 1) as nat,
            above,
        );
        new_file_keeps_descents_elsewhere(before, after, rules, dir, name, above);
        assert(above != dir);
        assert((after.listing)(above) == (before.listing)(above));
        assert(to.holds(above, i, path, FileType::Directory));
    }
}

/// A file that appears in a directory changes nothing about what is to be
/// watched outside of the directory.
pub proof fn new_file_keeps_targets_elsewhere(
    before: World,
    after: World,
    rules: Seq<RuleView>,
    root: PathView,
    dir: PathView,
    name: Seq<u8>,
    path: PathView,
)
    requires
        engine::all_local(rules),
        engine::has_plain_triggers(rules),
        path::is_entry_name(name),
        gains_file(before, after, dir, name),
        before.well_named(),
        after.well_named(),
        !at_or_below(path, dir) || path == dir,
    ensures
        before.watch_target(rules, root, path) <==> after.watch_target(rules, root, path),
        before.reached(rules, root, path) <==> after.reached(rules, root, path),
{
    if path.parent() == Some(dir) {
        children_lie_below(dir, path);
        assert(path.names.len() == dir.names.len() + 1);
    }
    new_file_keeps_descents_elsewhere(before, after, rules, dir, name, path);
    if before.reached(rules, root, path) {
        let steps = choose|steps: nat| before.reached_in(rules, root, steps, path);
        new_file_keeps_ways_elsewhere(
            before,
            after,
            before,
            after,
            rules,
            root,
            dir,
            name,
            steps,
            path,
        );
    }
    if after.reached(rules, root, path) {
        let steps = choose|steps: nat| after.reached_in(rules, root, steps, path);
        new_file_keeps_ways_elsewhere(
            after,
            before,
            before,
            after,
            rules,
            root,
            dir,
            name,
            steps,
            path,
        );
    }
}

/// A trigger file is reconciled by a rescan of its own directory: where the
/// registry was exact before a file (a `Cargo.toml`, say) appeared in a watched
/// directory, it is exact again after a rescan of just that directory. No wider
/// scan and no restart is needed.
pub proof fn trigger_rescan_restores_exactness(
    before: World,
    after: World,
    rules: Seq<RuleView>,
    root: PathView,
    dir: PathView,
    name: Seq<u8>,
    rest: Seq<TaskView>,
    states: Seq<JobState>,
)
    requires
        engine::all_local(rules),
        engine::has_plain_triggers(rules),
        path::is_entry_name(name),
        gains_file(before, after, dir, name),
        before.well_named(),
        after.well_named(),
        root.absolute,
        is_exact(before, rules, root, states[0].registry),
        states[0].registry.contains_path(dir),
        settling::settles(after, rules, TaskView::Rescan(dir), rest, states),
        settling::unused_descriptors(states),
    ensures
        is_exact(after, rules, root, states.last().registry),
{
    assert(before.watch_target(rules, root, dir));
    let steps = choose|steps: nat| before.reached_in(rules, root, steps, dir);
    tree::reached_paths_extend_start(before, rules, root, steps, dir);
    new_file_keeps_targets_elsewhere(before, after, rules, root, dir, name, dir);
    assert forall|path: PathView| !at_or_below(path, dir) implies (
    #[trigger] states[0].registry.contains_path(path) <==> after.watch_target(
        rules,
        root,
        path,
    )) by {
        new_file_keeps_targets_elsewhere(before, after, rules, root, dir, name, path);
    }
    rescan_restores_exactness(after, rules, root, dir, rest, states);
}

} // verus!

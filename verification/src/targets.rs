//! What is to be watched and marked in a tree, said of its entries one by one.

use crate::engine;
use crate::path;
use crate::path::PathView;
use crate::rules::{CandidateView, FileType, RuleView};
use crate::tree;
use crate::tree::World;
use vstd::prelude::*;

verus! {

/// True when rule `k` is the first that matches.
pub open spec fn decides(rules: Seq<RuleView>, candidate: CandidateView, k: int) -> bool {
    &&& 0 <= k < rules.len()
    &&& (rules[k].matches)(candidate)
    &&& forall|j: int| 0 <= j < k ==> !(#[trigger] rules[j].matches)(candidate)
}

/// True when the first rule that matches keeps out of the candidate.
pub open spec fn is_closed(rules: Seq<RuleView>, candidate: CandidateView) -> bool {
    exists|k: int| #[trigger]
        decides(rules, candidate, k) && rules[k].action.skip_descendants
}

/// True when the first rule that matches marks the candidate.
pub open spec fn is_marked(rules: Seq<RuleView>, candidate: CandidateView) -> bool {
    exists|k: int| #[trigger]
        decides(rules, candidate, k) && rules[k].action.set_dropbox_ignore
}

/// The entry at `path` with what stands beside it in the tree.
pub open spec fn found_at(world: World, path: PathView, file_type: FileType) -> CandidateView {
    CandidateView {
        path,
        file_type,
        siblings: Set::new(
            |name: Seq<u8>|
                path.names.len() > 0 && (world.exists)(
                    PathView { absolute: path.absolute, names: path.names.drop_last() }.join(name),
                ),
        ),
    }
}

/// True when `path` is an entry of the directory `dir`, of type `file_type`.
pub open spec fn is_entry(
    world: World,
    dir: PathView,
    path: PathView,
    file_type: FileType,
) -> bool {
    (world.listing)(dir) is Some && exists|i: int|
        #![trigger (world.listing)(dir)->0[i]]
        0 <= i < (world.listing)(dir)->0.len() && (world.listing)(dir)->0[i].file_type == Some(
            file_type,
        ) && path == dir.join((world.listing)(dir)->0[i].name)
}

/// What stands beside an entry is what exists in its directory.
pub proof fn neighbours_share_a_directory(world: World, path: PathView, name: Seq<u8>)
    requires
        path::is_entry_name(name),
    ensures
        world.siblings(path).contains(name) <==> path.names.len() > 0 && (world.exists)(
            PathView { absolute: path.absolute, names: path.names.drop_last().push(name) },
        ),
        found_at(world, path, FileType::Other).siblings == world.siblings(path),
{
    assert(found_at(world, path, FileType::Other).siblings =~= world.siblings(path));
    if path.names.len() > 0 {
        let dir = PathView { absolute: path.absolute, names: path.names.drop_last() };
        path::entry_path_of_directory(dir, name);
        assert(dir.join(name) == PathView {
            absolute: path.absolute,
            names: path.names.drop_last().push(name),
        });
    }
}

/// What the rules say of a candidate is what the first rule that matches says.
pub proof fn first_match_says_it(rules: Seq<RuleView>, candidate: CandidateView)
    ensures
        engine::skips(rules, candidate) <==> is_closed(rules, candidate),
        engine::marks(rules, candidate) <==> is_marked(rules, candidate),
{
    engine::first_match_wins(rules, candidate);
    assert forall|k: int| #[trigger] decides(rules, candidate, k) implies engine::is_first_match(
        rules,
        candidate,
        k,
    ) by {}
    if engine::verdict(rules, candidate) is Some {
        let k = choose|k: int| engine::is_first_match(rules, candidate, k);
        assert(decides(rules, candidate, k));
    }
}

/// A walk goes into a path exactly when something is there that no rule keeps out
/// of, and marks it on the way exactly when something is there that a rule marks.
pub proof fn walk_goes_by_the_rules(world: World, rules: Seq<RuleView>, path: PathView)
    ensures
        world.descended(rules, path) <==> (world.metadata)(path) is Some && !is_closed(
            rules,
            found_at(world, path, (world.metadata)(path)->0),
        ),
        world.marked_directory(rules, path) <==> (world.metadata)(path) is Some && is_marked(
            rules,
            found_at(world, path, (world.metadata)(path)->0),
        ),
{
    if let Some(file_type) = (world.metadata)(path) {
        let candidate = found_at(world, path, file_type);
        assert(candidate.siblings =~= world.siblings(path));
        assert(candidate == world.candidate(path, file_type));
        first_match_says_it(rules, candidate);
    }
}

/// What is to be watched, level by level: the start itself, and the directories that
/// are entries of a directory to be watched, where something is there that no rule
/// keeps out of. Nothing else is.
pub proof fn watch_targets_by_level(
    world: World,
    rules: Seq<RuleView>,
    start: PathView,
    path: PathView,
)
    ensures
        world.watch_target(rules, start, path) <==> {
            &&& (world.metadata)(path) is Some
            &&& !is_closed(rules, found_at(world, path, (world.metadata)(path)->0))
            &&& path == start || exists|dir: PathView| #[trigger]
                world.watch_target(rules, start, dir) && is_entry(
                    world,
                    dir,
                    path,
                    FileType::Directory,
                )
        },
{
    walk_goes_by_the_rules(world, rules, path);
    reached_by_level(world, rules, start, path);
}

/// What a walk comes to, level by level.
proof fn reached_by_level(world: World, rules: Seq<RuleView>, start: PathView, path: PathView)
    ensures
        world.reached(rules, start, path) <==> path == start || exists|dir: PathView| #[trigger]
            world.watch_target(rules, start, dir) && is_entry(
                world,
                dir,
                path,
                FileType::Directory,
            ),
{
    if world.reached(rules, start, path) && path != start {
        let steps = choose|steps: nat| world.reached_in(rules, start, steps, path);
        let (dir, i) = choose|dir: PathView, i: int|
            #![trigger world.holds(dir, i, path, FileType::Directory)]
            world.reached_in(rules, start, (steps - 1) as nat, dir) && world.descended(rules, dir)
                && world.holds(dir, i, path, FileType::Directory);
        assert(world.watch_target(rules, start, dir));
        assert((world.listing)(dir)->0[i].file_type == Some(FileType::Directory));
        assert(is_entry(world, dir, path, FileType::Directory));
    }
    if path == start {
        assert(world.reached_in(rules, start, 0, path));
    }
    if exists|dir: PathView| #[trigger]
        world.watch_target(rules, start, dir) && is_entry(world, dir, path, FileType::Directory) {
        let dir = choose|dir: PathView| #[trigger]
            world.watch_target(rules, start, dir) && is_entry(
                world,
                dir,
                path,
                FileType::Directory,
            );
        let i = choose|i: int|
            #![trigger (world.listing)(dir)->0[i]]
            0 <= i < (world.listing)(dir)->0.len() && (world.listing)(dir)->0[i].file_type == Some(
                FileType::Directory,
            ) && path == dir.join((world.listing)(dir)->0[i].name);
        assert(world.holds(dir, i, path, FileType::Directory));
        tree::reached_one_further(world, rules, start, dir, i, path);
    }
}

/// What is to be marked, level by level: the start itself and the directories that
/// are entries of a directory to be watched, where something is there that a rule
/// marks; and the other entries of a directory to be watched that a rule marks.
/// Symlinks are none of them, nor is anything else.
pub proof fn mark_targets_by_level(
    world: World,
    rules: Seq<RuleView>,
    start: PathView,
    path: PathView,
)
    ensures
        world.mark_target(rules, start, path) <==> {
            ||| (path == start || exists|dir: PathView| #[trigger]
                world.watch_target(rules, start, dir) && is_entry(
                    world,
                    dir,
                    path,
                    FileType::Directory,
                )) && (world.metadata)(path) is Some && is_marked(
                rules,
                found_at(world, path, (world.metadata)(path)->0),
            )
            ||| (exists|dir: PathView| #[trigger]
                world.watch_target(rules, start, dir) && is_entry(
                    world,
                    dir,
                    path,
                    FileType::Other,
                )) && is_marked(rules, found_at(world, path, FileType::Other))
        },
{
    walk_goes_by_the_rules(world, rules, path);
    reached_by_level(world, rules, start, path);
    let candidate = found_at(world, path, FileType::Other);
    assert(candidate.siblings =~= world.siblings(path));
    assert(candidate == world.candidate(path, FileType::Other));
    first_match_says_it(rules, candidate);
    assert forall|dir: PathView| is_entry(world, dir, path, FileType::Other) <==> exists|i: int|
        #[trigger] world.holds(dir, i, path, FileType::Other) by {
        if is_entry(world, dir, path, FileType::Other) {
            let i = choose|i: int|
                #![trigger (world.listing)(dir)->0[i]]
                0 <= i < (world.listing)(dir)->0.len() && (world.listing)(dir)->0[i].file_type
                    == Some(FileType::Other) && path == dir.join((world.listing)(dir)->0[i].name);
            assert(world.holds(dir, i, path, FileType::Other));
        }
        if exists|i: int| #[trigger] world.holds(dir, i, path, FileType::Other) {
            let i = choose|i: int| #[trigger] world.holds(dir, i, path, FileType::Other);
            assert((world.listing)(dir)->0[i].file_type == Some(FileType::Other));
        }
    }
}

} // verus!

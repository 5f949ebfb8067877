//! What a walk finds in a file system that holds still.

use crate::discovery;
use crate::discovery::{EntryView, InspectionView, PathMatchView, WalkView};
use crate::engine;
use crate::path;
use crate::path::PathView;
use crate::rules::{CandidateView, FileType, RuleView};
use crate::sequence;
use vstd::prelude::*;

verus! {

/// A name in a directory listing, with the type of the entry if it could be
/// read. The type of a symlink is that of the link.
#[verifier::ext_equal]
pub struct ListedName {
    pub name: Seq<u8>,
    pub file_type: Option<FileType>,
}

/// A file system at one moment.
pub struct World {
    /// What a path leads to, symlinks followed; nothing if it cannot be read.
    pub metadata: spec_fn(PathView) -> Option<FileType>,
    /// What a directory holds; nothing if it cannot be read.
    pub listing: spec_fn(PathView) -> Option<Seq<ListedName>>,
    /// Whether something exists at a path.
    pub exists: spec_fn(PathView) -> bool,
}

impl World {
    /// The names that exist in the parent directory of `path`.
    pub open spec fn siblings(self, path: PathView) -> Set<Seq<u8>> {
        match path.parent() {
            Some(dir) => Set::new(|name: Seq<u8>| (self.exists)(dir.join(name))),
            None => Set::empty(),
        }
    }

    /// The entry at `path` as a candidate.
    pub open spec fn candidate(self, path: PathView, file_type: FileType) -> CandidateView {
        CandidateView { path, file_type, siblings: self.siblings(path) }
    }

    /// All there is to see at `path`.
    pub open spec fn inspection(self, path: PathView) -> Option<InspectionView> {
        match (self.metadata)(path) {
            Some(file_type) => Some(InspectionView { file_type, siblings: self.siblings(path) }),
            None => None,
        }
    }

    /// All there is to see of one entry of `dir`.
    pub open spec fn entry(self, dir: PathView, listed: ListedName) -> EntryView {
        EntryView {
            name: listed.name,
            file_type: listed.file_type,
            siblings: self.siblings(dir.join(listed.name)),
        }
    }

    /// All there is to see in the directory `dir`.
    pub open spec fn entries(self, dir: PathView) -> Option<Seq<EntryView>> {
        match (self.listing)(dir) {
            Some(names) => Some(names.map_values(|listed: ListedName| self.entry(dir, listed))),
            None => None,
        }
    }

    /// True when `seen` is what `path` shows, as far as the rules ask.
    pub open spec fn shows(
        self,
        rules: Seq<RuleView>,
        path: PathView,
        seen: Option<InspectionView>,
    ) -> bool {
        match (seen, (self.metadata)(path)) {
            (Some(inspection), Some(file_type)) => inspection.file_type == file_type
                && inspection.candidate(path).agrees_on(
                self.candidate(path, file_type),
                engine::consulted(rules, path, file_type),
            ),
            (None, None) => true,
            _ => false,
        }
    }

    /// True when `seen` is one entry of `dir`, as far as the rules ask.
    pub open spec fn shows_entry(
        self,
        rules: Seq<RuleView>,
        dir: PathView,
        listed: ListedName,
        seen: EntryView,
    ) -> bool {
        &&& seen.name == listed.name
        &&& seen.file_type == listed.file_type
        &&& seen.file_type == Some(FileType::Other) ==> discovery::entry_candidate(
            dir,
            seen,
        ).agrees_on(
            self.candidate(dir.join(listed.name), FileType::Other),
            engine::consulted(rules, dir.join(listed.name), FileType::Other),
        )
    }

    /// True when `seen` is what the directory `dir` holds, as far as the rules
    /// ask.
    pub open spec fn shows_listing(
        self,
        rules: Seq<RuleView>,
        dir: PathView,
        seen: Option<Seq<EntryView>>,
    ) -> bool {
        match (seen, (self.listing)(dir)) {
            (Some(entries), Some(names)) => entries.len() == names.len() && forall|i: int|
                0 <= i < names.len() ==> self.shows_entry(
                    rules,
                    dir,
                    names[i],
                    #[trigger] entries[i],
                ),
            (None, None) => true,
            _ => false,
        }
    }

    /// True when the walk goes into `path`: it can be read, and no rule keeps
    /// the walk out.
    pub open spec fn descended(self, rules: Seq<RuleView>, path: PathView) -> bool {
        match (self.metadata)(path) {
            Some(file_type) => !engine::skips(rules, self.candidate(path, file_type)),
            None => false,
        }
    }

    /// True when a rule asks to mark the directory `path`.
    pub open spec fn marked_directory(self, rules: Seq<RuleView>, path: PathView) -> bool {
        match (self.metadata)(path) {
            Some(file_type) => engine::marks(rules, self.candidate(path, file_type)),
            None => false,
        }
    }

    /// True when `path` is the entry `i` of the directory `dir`, of type
    /// `file_type`.
    pub open spec fn holds(
        self,
        dir: PathView,
        i: int,
        path: PathView,
        file_type: FileType,
    ) -> bool {
        match (self.listing)(dir) {
            Some(names) => 0 <= i < names.len() && names[i].file_type == Some(file_type) && path
                == dir.join(names[i].name),
            None => false,
        }
    }

    /// True when the walk from `start` comes to `path` in `steps` steps down:
    /// every directory on the way is gone into, and the next one is one of its
    /// directories.
    pub open spec fn reached_in(
        self,
        rules: Seq<RuleView>,
        start: PathView,
        steps: nat,
        path: PathView,
    ) -> bool
        decreases steps,
    {
        if steps == 0 {
            path == start
        } else {
            exists|dir: PathView, i: int|
                #![trigger self.holds(dir, i, path, FileType::Directory)]
                self.reached_in(rules, start, (steps - 1) as nat, dir) && self.descended(rules, dir)
                    && self.holds(dir, i, path, FileType::Directory)
        }
    }

    /// True when the walk from `start` comes to `path`.
    pub open spec fn reached(
        self,
        rules: Seq<RuleView>,
        start: PathView,
        path: PathView,
    ) -> bool {
        exists|steps: nat| self.reached_in(rules, start, steps, path)
    }

    /// The directories to watch in the tree below `start`: those that the walk
    /// comes to and goes into.
    pub open spec fn watch_target(
        self,
        rules: Seq<RuleView>,
        start: PathView,
        path: PathView,
    ) -> bool {
        self.reached(rules, start, path) && self.descended(rules, path)
    }

    /// True when `path` is a marked file in `dir`: an entry that is neither a
    /// directory nor a symlink, and that a rule asks to mark.
    pub open spec fn marked_file_in(
        self,
        rules: Seq<RuleView>,
        dir: PathView,
        path: PathView,
    ) -> bool {
        &&& exists|i: int| #[trigger] self.holds(dir, i, path, FileType::Other)
        &&& engine::marks(rules, self.candidate(path, FileType::Other))
    }

    /// The paths to mark in the tree below `start`: directories that the walk
    /// comes to and files in directories that it goes into, where a rule asks
    /// for it.
    pub open spec fn mark_target(
        self,
        rules: Seq<RuleView>,
        start: PathView,
        path: PathView,
    ) -> bool {
        ||| self.reached(rules, start, path) && self.marked_directory(rules, path)
        ||| exists|dir: PathView| #[trigger]
            self.watch_target(rules, start, dir) && self.marked_file_in(rules, dir, path)
    }
}

impl WalkView {
    /// The walk one step on, with everything seen that there is to see.
    pub open spec fn advance(self, world: World, rules: Seq<RuleView>) -> WalkView {
        match self.listing {
            Some(dir) => self.listed(rules, world.entries(dir)),
            None => if self.stack.len() > 0 {
                self.inspected(rules, world.inspection(self.stack.last()))
            } else {
                self
            },
        }
    }
}

/// True when `states` are successive states of a walk from `start`.
pub open spec fn is_walk(
    world: World,
    rules: Seq<RuleView>,
    start: PathView,
    collect_watchers: bool,
    states: Seq<WalkView>,
) -> bool {
    &&& states.len() > 0
    &&& states[0] == WalkView::starting(start, collect_watchers)
    &&& forall|i: int|
        0 <= i < states.len() - 1 ==> states[i + 1] == (#[trigger] states[i]).advance(world, rules)
}

/// Two listings that show the same as far as the rules ask lead to the same
/// directories and matches.
proof fn same_listing_same_findings(
    world: World,
    rules: Seq<RuleView>,
    dir: PathView,
    names: Seq<ListedName>,
    seen: Seq<EntryView>,
)
    requires
        engine::all_local(rules),
        seen.len() == names.len(),
        forall|i: int|
            0 <= i < names.len() ==> world.shows_entry(rules, dir, names[i], #[trigger] seen[i]),
    ensures
        discovery::directories_in(dir, seen) == discovery::directories_in(
            dir,
            names.map_values(|listed: ListedName| world.entry(dir, listed)),
        ),
        discovery::files_matched_in(rules, dir, seen) == discovery::files_matched_in(
            rules,
            dir,
            names.map_values(|listed: ListedName| world.entry(dir, listed)),
        ),
    decreases names.len(),
{
    let full = names.map_values(|listed: ListedName| world.entry(dir, listed));
    if names.len() > 0 {
        let fewer = names.drop_last();
        let seen_fewer = seen.drop_last();
        assert forall|i: int| 0 <= i < fewer.len() implies world.shows_entry(
            rules,
            dir,
            fewer[i],
            #[trigger] seen_fewer[i],
        ) by {
            assert(world.shows_entry(rules, dir, names[i], seen[i]));
        }
        same_listing_same_findings(world, rules, dir, fewer, seen_fewer);
        assert(full.drop_last() =~= fewer.map_values(
            |listed: ListedName| world.entry(dir, listed),
        ));
        let last = seen[names.len() - 1];
        assert(world.shows_entry(rules, dir, names[names.len() - 1], last));
        assert(full.last() == world.entry(dir, names.last()));
        if last.file_type == Some(FileType::Other) {
            engine::verdict_turns_on_consulted_siblings(
                rules,
                discovery::entry_candidate(dir, last),
                discovery::entry_candidate(dir, full.last()),
            );
        }
    } else {
        assert(seen =~= full);
    }
}

/// It is enough to look for the siblings that the rules consult: a walk that is
/// told no more than that goes on exactly as one that sees everything.
pub proof fn consulted_siblings_suffice(
    world: World,
    rules: Seq<RuleView>,
    walk: WalkView,
    inspection: Option<InspectionView>,
    listing: Option<Seq<EntryView>>,
)
    requires
        engine::all_local(rules),
    ensures
        walk.inspecting() && world.shows(rules, walk.stack.last(), inspection) ==> walk.inspected(
            rules,
            inspection,
        ) == walk.advance(world, rules),
        walk.listing is Some && world.shows_listing(rules, walk.listing->0, listing)
            ==> walk.listed(rules, listing) == walk.advance(world, rules),
{
    if walk.inspecting() && world.shows(rules, walk.stack.last(), inspection) {
        let path = walk.stack.last();
        if let Some(seen) = inspection {
            engine::verdict_turns_on_consulted_siblings(
                rules,
                seen.candidate(path),
                world.candidate(path, seen.file_type),
            );
        }
    }
    if walk.listing is Some && world.shows_listing(rules, walk.listing->0, listing) {
        if let Some(seen) = listing {
            same_listing_same_findings(
                world,
                rules,
                walk.listing->0,
                (world.listing)(walk.listing->0)->0,
                seen,
            );
        }
    }
}

/// Which paths are directories among the entries of `dir`.
proof fn directories_are_those_listed(dir: PathView, entries: Seq<EntryView>)
    ensures
        forall|path: PathView| #[trigger]
            discovery::directories_in(dir, entries).contains(path) <==> exists|i: int|
                0 <= i < entries.len() && (#[trigger] entries[i]).file_type == Some(
                    FileType::Directory,
                ) && path == dir.join(entries[i].name),
    decreases entries.len(),
{
    if entries.len() > 0 {
        let fewer = entries.drop_last();
        let before = discovery::directories_in(dir, fewer);
        directories_are_those_listed(dir, fewer);
        sequence::contains_after_push(before, dir.join(entries.last().name));
        assert forall|path: PathView| #[trigger]
            discovery::directories_in(dir, entries).contains(path) <==> exists|i: int|
                0 <= i < entries.len() && (#[trigger] entries[i]).file_type == Some(
                    FileType::Directory,
                ) && path == dir.join(entries[i].name) by {
            if before.contains(path) {
                let i = choose|i: int|
                    0 <= i < fewer.len() && (#[trigger] fewer[i]).file_type == Some(
                        FileType::Directory,
                    ) && path == dir.join(fewer[i].name);
                assert(entries[i] == fewer[i]);
            }
            if exists|i: int|
                0 <= i < entries.len() && (#[trigger] entries[i]).file_type == Some(
                    FileType::Directory,
                ) && path == dir.join(entries[i].name) {
                let i = choose|i: int|
                    0 <= i < entries.len() && (#[trigger] entries[i]).file_type == Some(
                        FileType::Directory,
                    ) && path == dir.join(entries[i].name);
                if i < fewer.len() {
                    assert(fewer[i] == entries[i]);
                }
            }
            assert(entries.last() == entries[entries.len() - 1]);
        }
    }
}

/// True when entry `i` is a file that a rule asks to mark.
spec fn marks_entry(
    rules: Seq<RuleView>,
    dir: PathView,
    entries: Seq<EntryView>,
    i: int,
    path: PathView,
) -> bool {
    &&& 0 <= i < entries.len()
    &&& entries[i].file_type == Some(FileType::Other)
    &&& path == dir.join(entries[i].name)
    &&& engine::marks(rules, discovery::entry_candidate(dir, entries[i]))
}

/// Which paths are marked among the entries of `dir`.
proof fn marked_files_are_those_listed(
    rules: Seq<RuleView>,
    dir: PathView,
    entries: Seq<EntryView>,
)
    ensures
        forall|path: PathView| #[trigger]
            discovery::marked_among(discovery::files_matched_in(rules, dir, entries)).contains(path)
                <==> exists|i: int| marks_entry(rules, dir, entries, i, path),
    decreases entries.len(),
{
    let found = discovery::files_matched_in(rules, dir, entries);
    if entries.len() > 0 {
        let fewer = entries.drop_last();
        let found_before = discovery::files_matched_in(rules, dir, fewer);
        let before = discovery::marked_among(found_before);
        let last = entries.last();
        marked_files_are_those_listed(rules, dir, fewer);
        sequence::contains_after_push(before, dir.join(last.name));
        if found.len() > found_before.len() {
            assert(found.drop_last() =~= found_before);
        }
        assert forall|path: PathView| #[trigger]
            discovery::marked_among(found).contains(path) <==> exists|i: int|
                marks_entry(rules, dir, entries, i, path) by {
            if before.contains(path) {
                let i = choose|i: int| marks_entry(rules, dir, fewer, i, path);
                assert(marks_entry(rules, dir, entries, i, path));
            }
            if exists|i: int| marks_entry(rules, dir, entries, i, path) {
                let i = choose|i: int| marks_entry(rules, dir, entries, i, path);
                if i < fewer.len() {
                    assert(marks_entry(rules, dir, fewer, i, path));
                }
            }
            if marks_entry(rules, dir, entries, entries.len() - 1, path) {
                assert(found == found_before.push(
                    PathMatchView {
                        path,
                        matched: engine::verdict(
                            rules,
                            discovery::entry_candidate(dir, last),
                        )->0,
                    },
                ));
            }
        }
    }
}

/// The directories inspected before state `n`.
spec fn visited(states: Seq<WalkView>, n: int) -> Set<PathView>
    decreases n,
{
    if n <= 0 {
        Set::empty()
    } else if states[n - 1].inspecting() {
        visited(states, n - 1).insert(states[n - 1].stack.last())
    } else {
        visited(states, n - 1)
    }
}

/// The directories listed before state `n`.
spec fn opened(states: Seq<WalkView>, n: int) -> Set<PathView>
    decreases n,
{
    if n <= 0 {
        Set::empty()
    } else {
        match states[n - 1].listing {
            Some(dir) => opened(states, n - 1).insert(dir),
            None => opened(states, n - 1),
        }
    }
}

/// True when `path` is a marked file in one of the directories in `opened`.
spec fn marked_in_opened(
    world: World,
    rules: Seq<RuleView>,
    opened: Set<PathView>,
    path: PathView,
) -> bool {
    exists|dir: PathView| #[trigger]
        opened.contains(dir) && world.marked_file_in(rules, dir, path)
}

/// What holds of a walk after the directories in `visited` were inspected and
/// those in `opened` were listed.
spec fn on_track(
    world: World,
    rules: Seq<RuleView>,
    start: PathView,
    walk: WalkView,
    visited: Set<PathView>,
    opened: Set<PathView>,
) -> bool {
    &&& forall|path: PathView| #[trigger]
        walk.stack.contains(path) ==> world.reached(rules, start, path)
    &&& forall|path: PathView| #[trigger]
        visited.contains(path) ==> world.reached(rules, start, path)
    &&& match walk.listing {
        Some(dir) => visited.contains(dir) && world.descended(rules, dir),
        None => true,
    }
    &&& visited.contains(start) || walk.stack.contains(start)
    &&& forall|dir: PathView| #[trigger]
        opened.contains(dir) ==> visited.contains(dir) && world.descended(rules, dir)
    &&& forall|dir: PathView| #[trigger]
        visited.contains(dir) && world.descended(rules, dir) ==> opened.contains(dir)
            || walk.listing == Some(dir)
    &&& forall|dir: PathView, i: int, path: PathView| #[trigger]
        world.holds(dir, i, path, FileType::Directory) && opened.contains(dir) ==> visited.contains(
            path,
        ) || walk.stack.contains(path)
    &&& forall|path: PathView| #[trigger]
        walk.found.watchers.contains(path) <==> walk.collect_watchers && visited.contains(path)
            && world.descended(rules, path)
    &&& forall|path: PathView| #[trigger]
        walk.found.matches.contains(path) <==> (visited.contains(path) && world.marked_directory(
            rules,
            path,
        )) || marked_in_opened(world, rules, opened, path)
}

/// A directory of a directory that the walk goes into is reached.
pub proof fn reached_one_further(
    world: World,
    rules: Seq<RuleView>,
    start: PathView,
    dir: PathView,
    i: int,
    path: PathView,
)
    requires
        world.reached(rules, start, dir),
        world.descended(rules, dir),
        world.holds(dir, i, path, FileType::Directory),
    ensures
        world.reached(rules, start, path),
{
    let steps = choose|steps: nat| world.reached_in(rules, start, steps, dir);
    assert(world.reached_in(rules, start, steps + 1, path));
}

/// An inspection keeps the walk on track.
proof fn inspection_keeps_on_track(
    world: World,
    rules: Seq<RuleView>,
    start: PathView,
    walk: WalkView,
    visited: Set<PathView>,
    opened: Set<PathView>,
)
    requires
        on_track(world, rules, start, walk, visited, opened),
        walk.inspecting(),
    ensures
        on_track(
            world,
            rules,
            start,
            walk.advance(world, rules),
            visited.insert(walk.stack.last()),
            opened,
        ),
{
    let dir = walk.stack.last();
    let next = walk.advance(world, rules);
    sequence::contains_before_drop(walk.stack);
    sequence::contains_after_push(walk.found.watchers, dir);
    sequence::contains_after_push(walk.found.matches, dir);
    if let Some(file_type) = (world.metadata)(dir) {
        assert(world.inspection(dir)->0.candidate(dir) == world.candidate(dir, file_type));
    }
    assert(walk.stack.contains(dir));
    assert forall|path: PathView| #[trigger] next.stack.contains(path) implies world.reached(
        rules,
        start,
        path,
    ) by {
        assert(walk.stack.contains(path));
    }
    assert forall|path: PathView| #[trigger]
        next.found.matches.contains(path) <==> (visited.insert(dir).contains(path)
            && world.marked_directory(rules, path)) || marked_in_opened(
            world,
            rules,
            opened,
            path,
        ) by {
        assert(walk.found.matches.contains(path) <==> (visited.contains(path)
            && world.marked_directory(rules, path)) || marked_in_opened(
            world,
            rules,
            opened,
            path,
        ));
    }
    assert forall|path: PathView| #[trigger]
        next.found.watchers.contains(path) <==> next.collect_watchers && visited.insert(
            dir,
        ).contains(path) && world.descended(rules, path) by {
        assert(walk.found.watchers.contains(path) <==> walk.collect_watchers && visited.contains(
            path,
        ) && world.descended(rules, path));
    }
}

/// A listing keeps the walk on track.
proof fn listing_keeps_on_track(
    world: World,
    rules: Seq<RuleView>,
    start: PathView,
    walk: WalkView,
    visited: Set<PathView>,
    opened: Set<PathView>,
)
    requires
        on_track(world, rules, start, walk, visited, opened),
        walk.listing is Some,
    ensures
        on_track(
            world,
            rules,
            start,
            walk.advance(world, rules),
            visited,
            opened.insert(walk.listing->0),
        ),
{
    let dir = walk.listing->0;
    let next = walk.advance(world, rules);
    let more = opened.insert(dir);
    match (world.listing)(dir) {
        Some(names) => {
            let entries = world.entries(dir)->0;
            let directories = discovery::directories_in(dir, entries);
            let marked = discovery::marked_among(
                discovery::files_matched_in(rules, dir, entries),
            );
            directories_are_those_listed(dir, entries);
            marked_files_are_those_listed(rules, dir, entries);
            sequence::contains_in_both(walk.stack, directories);
            sequence::contains_in_both(walk.found.matches, marked);
            assert forall|path: PathView| #[trigger] next.stack.contains(path) implies world.reached(
                rules,
                start,
                path,
            ) by {
                if directories.contains(path) {
                    let i = choose|i: int|
                        0 <= i < entries.len() && (#[trigger] entries[i]).file_type == Some(
                            FileType::Directory,
                        ) && path == dir.join(entries[i].name);
                    assert(world.holds(dir, i, path, FileType::Directory));
                    reached_one_further(world, rules, start, dir, i, path);
                } else {
                    assert(walk.stack.contains(path));
                }
            }
            assert forall|d: PathView, i: int, path: PathView| #[trigger]
                world.holds(d, i, path, FileType::Directory) && more.contains(
                    d,
                ) implies visited.contains(path) || next.stack.contains(path) by {
                if d == dir {
                    assert(entries[i].file_type == Some(FileType::Directory));
                    assert(directories.contains(path));
                } else {
                    assert(visited.contains(path) || walk.stack.contains(path));
                }
            }
            assert forall|path: PathView| marked.contains(path) <==> #[trigger] world.marked_file_in(
                rules,
                dir,
                path,
            ) by {
                if marked.contains(path) {
                    let i = choose|i: int| marks_entry(rules, dir, entries, i, path);
                    assert(world.holds(dir, i, path, FileType::Other));
                    assert(discovery::entry_candidate(dir, entries[i]) == world.candidate(
                        path,
                        FileType::Other,
                    ));
                }
                if world.marked_file_in(rules, dir, path) {
                    let i = choose|i: int| #[trigger] world.holds(dir, i, path, FileType::Other);
                    assert(discovery::entry_candidate(dir, entries[i]) == world.candidate(
                        path,
                        FileType::Other,
                    ));
                    assert(marks_entry(rules, dir, entries, i, path));
                }
            }
        },
        None => {
            assert(forall|path: PathView| !world.marked_file_in(rules, dir, path));
        },
    }
    assert forall|path: PathView| marked_in_opened(world, rules, more, path) <==> #[trigger]
        marked_in_opened(world, rules, opened, path) || world.marked_file_in(rules, dir, path) by {
        assert(more.contains(dir));
        if marked_in_opened(world, rules, opened, path) {
            let d = choose|d: PathView| #[trigger]
                opened.contains(d) && world.marked_file_in(rules, d, path);
            assert(more.contains(d));
        }
        if marked_in_opened(world, rules, more, path) {
            let d = choose|d: PathView| #[trigger]
                more.contains(d) && world.marked_file_in(rules, d, path);
            if d != dir {
                assert(opened.contains(d));
            }
        }
    }
    assert forall|path: PathView| #[trigger]
        next.found.matches.contains(path) <==> (visited.contains(path) && world.marked_directory(
            rules,
            path,
        )) || marked_in_opened(world, rules, more, path) by {
        assert(walk.found.matches.contains(path) <==> (visited.contains(path)
            && world.marked_directory(rules, path)) || marked_in_opened(
            world,
            rules,
            opened,
            path,
        ));
    }
}

/// Every state of a walk is on track.
proof fn walk_stays_on_track(
    world: World,
    rules: Seq<RuleView>,
    start: PathView,
    collect_watchers: bool,
    states: Seq<WalkView>,
    n: int,
)
    requires
        is_walk(world, rules, start, collect_watchers, states),
        0 <= n < states.len(),
    ensures
        on_track(world, rules, start, states[n], visited(states, n), opened(states, n)),
        states[n].collect_watchers == collect_watchers,
    decreases n,
{
    if n == 0 {
        assert(world.reached_in(rules, start, 0, start));
        assert(states[0].stack[0] == start);
    } else {
        walk_stays_on_track(world, rules, start, collect_watchers, states, n - 1);
        let before = states[n - 1];
        assert(states[n] == before.advance(world, rules));
        if before.inspecting() {
            inspection_keeps_on_track(
                world,
                rules,
                start,
                before,
                visited(states, n - 1),
                opened(states, n - 1),
            );
        } else if before.listing is Some {
            listing_keeps_on_track(
                world,
                rules,
                start,
                before,
                visited(states, n - 1),
                opened(states, n - 1),
            );
        }
    }
}

/// Once nothing is left to visit, everything reached was visited.
proof fn all_reached_are_visited(
    world: World,
    rules: Seq<RuleView>,
    start: PathView,
    walk: WalkView,
    visited: Set<PathView>,
    opened: Set<PathView>,
    steps: nat,
    path: PathView,
)
    requires
        on_track(world, rules, start, walk, visited, opened),
        walk.done(),
        world.reached_in(rules, start, steps, path),
    ensures
        visited.contains(path),
    decreases steps,
{
    if steps > 0 {
        let (dir, i) = choose|dir: PathView, i: int|
            #![trigger world.holds(dir, i, path, FileType::Directory)]
            world.reached_in(rules, start, (steps - 1) as nat, dir) && world.descended(rules, dir)
                && world.holds(dir, i, path, FileType::Directory);
        all_reached_are_visited(
            world,
            rules,
            start,
            walk,
            visited,
            opened,
            (steps - 1) as nat,
            dir,
        );
    }
}

/// A finished walk has found exactly the directories to watch (where it
/// collects them) and exactly the paths to mark: nothing below a directory that
/// a rule skips, nothing behind a symlink, and no matching file or directory
/// missed.
pub proof fn walk_is_exact(
    world: World,
    rules: Seq<RuleView>,
    start: PathView,
    collect_watchers: bool,
    states: Seq<WalkView>,
)
    requires
        is_walk(world, rules, start, collect_watchers, states),
        states.last().done(),
    ensures
        forall|path: PathView| #[trigger]
            states.last().found.watchers.contains(path) <==> collect_watchers && world.watch_target(
                rules,
                start,
                path,
            ),
        forall|path: PathView| #[trigger]
            states.last().found.matches.contains(path) <==> world.mark_target(rules, start, path),
{
    let n = states.len() - 1;
    let last = states.last();
    let seen = visited(states, n);
    let listed = opened(states, n);
    walk_stays_on_track(world, rules, start, collect_watchers, states, n);
    assert forall|path: PathView| seen.contains(path) <==> #[trigger] world.reached(
        rules,
        start,
        path,
    ) by {
        if world.reached(rules, start, path) {
            let steps = choose|steps: nat| world.reached_in(rules, start, steps, path);
            all_reached_are_visited(world, rules, start, last, seen, listed, steps, path);
        }
    }
    assert forall|path: PathView| #[trigger]
        last.found.watchers.contains(path) <==> collect_watchers && world.watch_target(
            rules,
            start,
            path,
        ) by {
        assert(world.reached(rules, start, path) <==> seen.contains(path));
    }
    assert forall|path: PathView| #[trigger]
        last.found.matches.contains(path) <==> world.mark_target(rules, start, path) by {
        assert(world.reached(rules, start, path) <==> seen.contains(path));
        if marked_in_opened(world, rules, listed, path) {
            let dir = choose|dir: PathView| #[trigger]
                listed.contains(dir) && world.marked_file_in(rules, dir, path);
            assert(world.reached(rules, start, dir));
            assert(world.watch_target(rules, start, dir));
        }
        if exists|dir: PathView| #[trigger]
            world.watch_target(rules, start, dir) && world.marked_file_in(rules, dir, path) {
            let dir = choose|dir: PathView| #[trigger]
                world.watch_target(rules, start, dir) && world.marked_file_in(rules, dir, path);
            assert(seen.contains(dir));
            assert(listed.contains(dir));
        }
    }
}

/// Both ways to discover report the same matches in the same order, step by
/// step: whether directories to watch are collected makes no difference.
pub proof fn matches_do_not_depend_on_watchers(
    world: World,
    rules: Seq<RuleView>,
    start: PathView,
    full: Seq<WalkView>,
    matches_only: Seq<WalkView>,
    n: int,
)
    requires
        is_walk(world, rules, start, true, full),
        is_walk(world, rules, start, false, matches_only),
        0 <= n < full.len(),
        n < matches_only.len(),
    ensures
        full[n].found.matches == matches_only[n].found.matches,
        full[n].stack == matches_only[n].stack,
        full[n].listing == matches_only[n].listing,
        full[n].done() == matches_only[n].done(),
        matches_only[n].found.watchers.len() == 0,
        !matches_only[n].collect_watchers,
    decreases n,
{
    if n > 0 {
        matches_do_not_depend_on_watchers(world, rules, start, full, matches_only, n - 1);
        assert(full[n] == full[n - 1].advance(world, rules));
        assert(matches_only[n] == matches_only[n - 1].advance(world, rules));
    }
}

/// A symlink in a listing is neither followed nor marked: the walk goes on as if
/// the listing did not hold it.
pub proof fn symlinks_are_left_alone(
    rules: Seq<RuleView>,
    walk: WalkView,
    entries: Seq<EntryView>,
    i: int,
)
    requires
        0 <= i < entries.len(),
        entries[i].file_type == Some(FileType::Symlink),
    ensures
        walk.listed(rules, Some(entries)) == walk.listed(rules, Some(entries.remove(i))),
        walk.listed_matches(rules, Some(entries)) == walk.listed_matches(
            rules,
            Some(entries.remove(i)),
        ),
{
    if let Some(dir) = walk.listing {
        symlink_adds_nothing(rules, dir, entries, i);
    }
}

/// A symlink adds no directory and no match to a listing.
proof fn symlink_adds_nothing(
    rules: Seq<RuleView>,
    dir: PathView,
    entries: Seq<EntryView>,
    i: int,
)
    requires
        0 <= i < entries.len(),
        entries[i].file_type == Some(FileType::Symlink),
    ensures
        discovery::directories_in(dir, entries) == discovery::directories_in(
            dir,
            entries.remove(i),
        ),
        discovery::files_matched_in(rules, dir, entries) == discovery::files_matched_in(
            rules,
            dir,
            entries.remove(i),
        ),
    decreases entries.len(),
{
    if i == entries.len() - 1 {
        assert(entries.remove(i) =~= entries.drop_last());
    } else {
        symlink_adds_nothing(rules, dir, entries.drop_last(), i);
        assert(entries.remove(i).drop_last() =~= entries.drop_last().remove(i));
        assert(entries.remove(i).last() == entries.last());
    }
}

impl World {
    /// True when listings hold plain entry names, as those of a real directory
    /// do.
    pub open spec fn well_named(self) -> bool {
        forall|dir: PathView, i: int|
            #![trigger (self.listing)(dir)->0[i]]
            (self.listing)(dir) is Some && 0 <= i < (self.listing)(dir)->0.len()
                ==> path::is_entry_name((self.listing)(dir)->0[i].name)
    }
}

/// On the way to a path that is reached, every directory is one that the walk
/// goes into.
proof fn way_is_descended(
    world: World,
    rules: Seq<RuleView>,
    start: PathView,
    steps: nat,
    path: PathView,
    dir: PathView,
)
    requires
        world.well_named(),
        world.reached_in(rules, start, steps, path),
        path.absolute == dir.absolute,
        dir.absolute == start.absolute,
        start.names.is_prefix_of(dir.names),
        dir.names.is_prefix_of(path.names),
    ensures
        start.names.is_prefix_of(path.names),
        path.names.len() == start.names.len() + steps,
        dir != path ==> world.descended(rules, dir),
    decreases steps,
{
    if steps > 0 {
        let (above, i) = choose|above: PathView, i: int|
            #![trigger world.holds(above, i, path, FileType::Directory)]
            world.reached_in(rules, start, (steps - 1) as nat, above) && world.descended(
                rules,
                above,
            ) && world.holds(above, i, path, FileType::Directory);
        let name = (world.listing)(above)->0[i].name;
        path::entry_path_of_directory(above, name);
        assert(path.names.drop_last() =~= above.names);
        if dir != path {
            if dir.names.len() == path.names.len() {
                assert(dir.names =~= path.names);
            }
            assert(dir.names.is_prefix_of(above.names)) by {
                assert(dir.names =~= above.names.subrange(0, dir.names.len() as int));
            }
            way_is_descended(world, rules, start, (steps - 1) as nat, above, dir);
            if dir.names.len() == above.names.len() {
                assert(dir.names =~= above.names);
            }
        } else {
            reached_paths_extend_start(world, rules, start, (steps - 1) as nat, above);
        }
    } else {
        assert(dir.names =~= path.names) by {
            assert(start.names =~= path.names);
        }
    }
}

/// What is reached in some steps lies that many components below the start.
pub proof fn reached_paths_extend_start(
    world: World,
    rules: Seq<RuleView>,
    start: PathView,
    steps: nat,
    path: PathView,
)
    requires
        world.well_named(),
        world.reached_in(rules, start, steps, path),
    ensures
        path.absolute == start.absolute,
        start.names.is_prefix_of(path.names),
        path.names.len() == start.names.len() + steps,
    decreases steps,
{
    if steps > 0 {
        let (above, i) = choose|above: PathView, i: int|
            #![trigger world.holds(above, i, path, FileType::Directory)]
            world.reached_in(rules, start, (steps - 1) as nat, above) && world.descended(
                rules,
                above,
            ) && world.holds(above, i, path, FileType::Directory);
        let name = (world.listing)(above)->0[i].name;
        path::entry_path_of_directory(above, name);
        reached_paths_extend_start(world, rules, start, (steps - 1) as nat, above);
        assert(start.names =~= path.names.subrange(0, start.names.len() as int));
    } else {
        assert(start.names =~= path.names.subrange(0, start.names.len() as int));
    }
}

/// A walk stays below its start, and nothing below a directory that it does not
/// go into is watched or marked.
pub proof fn skipped_subtrees_are_left_alone(
    world: World,
    rules: Seq<RuleView>,
    start: PathView,
    dir: PathView,
    path: PathView,
)
    requires
        world.well_named(),
        dir.absolute == start.absolute,
        start.names.is_prefix_of(dir.names),
        !world.descended(rules, dir),
        path.absolute == dir.absolute,
        dir.names.is_prefix_of(path.names),
        path != dir,
    ensures
        !world.watch_target(rules, start, path),
        !world.mark_target(rules, start, path),
{
    if world.reached(rules, start, path) {
        let steps = choose|steps: nat| world.reached_in(rules, start, steps, path);
        way_is_descended(world, rules, start, steps, path, dir);
    }
    assert forall|above: PathView| #[trigger] world.watch_target(
        rules,
        start,
        above,
    ) implies !world.marked_file_in(rules, above, path) by {
        if world.marked_file_in(rules, above, path) {
            let i = choose|i: int| #[trigger] world.holds(above, i, path, FileType::Other);
            let name = (world.listing)(above)->0[i].name;
            path::entry_path_of_directory(above, name);
            let steps = choose|steps: nat| world.reached_in(rules, start, steps, above);
            assert(path.names.drop_last() =~= above.names);
            if dir.names.len() == path.names.len() {
                assert(dir.names =~= path.names);
            }
            assert(dir.names =~= above.names.subrange(0, dir.names.len() as int));
            way_is_descended(world, rules, start, steps, above, dir);
        }
    }
}

/// Everything that a walk watches or marks lies at or below its start.
pub proof fn walk_stays_below_start(
    world: World,
    rules: Seq<RuleView>,
    start: PathView,
    path: PathView,
)
    requires
        world.well_named(),
        world.watch_target(rules, start, path) || world.mark_target(rules, start, path),
    ensures
        path.starts_with(start),
{
    if world.reached(rules, start, path) {
        let steps = choose|steps: nat| world.reached_in(rules, start, steps, path);
        reached_paths_extend_start(world, rules, start, steps, path);
    } else {
        let dir = choose|dir: PathView| #[trigger]
            world.watch_target(rules, start, dir) && world.marked_file_in(rules, dir, path);
        let i = choose|i: int| #[trigger] world.holds(dir, i, path, FileType::Other);
        let steps = choose|steps: nat| world.reached_in(rules, start, steps, dir);
        reached_paths_extend_start(world, rules, start, steps, dir);
        path::entry_path_of_directory(dir, (world.listing)(dir)->0[i].name);
        path::starts_with_is_transitive(path, dir, start);
    }
}

impl World {
    /// True when no listing holds a name twice, as no real directory does.
    pub open spec fn distinctly_named(self) -> bool {
        forall|dir: PathView, i: int, j: int|
            #![trigger (self.listing)(dir)->0[i], (self.listing)(dir)->0[j]]
            (self.listing)(dir) is Some && 0 <= i < j < (self.listing)(dir)->0.len()
                ==> (self.listing)(dir)->0[i].name != (self.listing)(dir)->0[j].name
    }
}

/// A path is one entry of one directory.
pub proof fn entry_is_one(
    world: World,
    left: PathView,
    i: int,
    left_type: FileType,
    right: PathView,
    j: int,
    right_type: FileType,
    path: PathView,
)
    requires
        world.well_named(),
        world.distinctly_named(),
        world.holds(left, i, path, left_type),
        world.holds(right, j, path, right_type),
    ensures
        left == right,
        left_type == right_type,
{
    path::entry_path_of_directory(left, (world.listing)(left)->0[i].name);
    path::entry_path_of_directory(right, (world.listing)(right)->0[j].name);
    assert(path.names.drop_last() =~= left.names);
    assert(path.names.drop_last() =~= right.names);
    assert(path.names.last() == (world.listing)(left)->0[i].name);
    assert(path.names.last() == (world.listing)(right)->0[j].name);
}

/// An entry of a directory that is reached is not the start of the walk.
pub proof fn entry_is_not_start(
    world: World,
    rules: Seq<RuleView>,
    start: PathView,
    dir: PathView,
    i: int,
    path: PathView,
    file_type: FileType,
)
    requires
        world.well_named(),
        world.reached(rules, start, dir),
        world.holds(dir, i, path, file_type),
    ensures
        path != start,
{
    let steps = choose|steps: nat| world.reached_in(rules, start, steps, dir);
    reached_paths_extend_start(world, rules, start, steps, dir);
    path::entry_path_of_directory(dir, (world.listing)(dir)->0[i].name);
}

/// True when the names of the entries are plain and distinct.
spec fn plain_and_distinct(entries: Seq<EntryView>) -> bool {
    &&& forall|i: int|
        0 <= i < entries.len() ==> path::is_entry_name((#[trigger] entries[i]).name)
    &&& forall|i: int, j: int|
        0 <= i < j < entries.len() ==> (#[trigger] entries[i]).name != (
        #[trigger] entries[j]).name
}

/// Fewer entries are plain and distinct, too, and none of them has the path of
/// the last one.
proof fn last_entry_is_distinct(dir: PathView, entries: Seq<EntryView>)
    requires
        plain_and_distinct(entries),
        entries.len() > 0,
    ensures
        plain_and_distinct(entries.drop_last()),
        forall|i: int|
            0 <= i < entries.len() - 1 ==> dir.join((#[trigger] entries.drop_last()[i]).name)
                != dir.join(entries.last().name),
{
    let fewer = entries.drop_last();
    assert forall|i: int| 0 <= i < fewer.len() implies path::is_entry_name(
        (#[trigger] fewer[i]).name,
    ) by {
        assert(path::is_entry_name(entries[i].name));
    }
    assert forall|i: int, j: int| 0 <= i < j < fewer.len() implies (#[trigger] fewer[i]).name != (
    #[trigger] fewer[j]).name by {
        assert(entries[i].name != entries[j].name);
    }
    assert forall|i: int| 0 <= i < entries.len() - 1 implies dir.join((#[trigger] fewer[i]).name)
        != dir.join(entries.last().name) by {
        assert(fewer[i] == entries[i]);
        assert(entries[i].name != entries[entries.len() - 1].name);
        path::entry_path_of_directory(dir, entries[i].name);
        path::entry_path_of_directory(dir, entries.last().name);
        assert(dir.names.push(entries[i].name).last() == entries[i].name);
        assert(dir.names.push(entries.last().name).last() == entries.last().name);
    }
}

/// No directory is listed twice.
proof fn directories_are_distinct(dir: PathView, entries: Seq<EntryView>)
    requires
        plain_and_distinct(entries),
    ensures
        discovery::directories_in(dir, entries).no_duplicates(),
    decreases entries.len(),
{
    if entries.len() > 0 {
        let fewer = entries.drop_last();
        last_entry_is_distinct(dir, entries);
        directories_are_distinct(dir, fewer);
        directories_are_those_listed(dir, fewer);
        sequence::distinct_after_push(
            discovery::directories_in(dir, fewer),
            dir.join(entries.last().name),
        );
    }
}

/// No marked file is listed twice.
proof fn marked_files_are_distinct(rules: Seq<RuleView>, dir: PathView, entries: Seq<EntryView>)
    requires
        plain_and_distinct(entries),
    ensures
        discovery::marked_among(
            discovery::files_matched_in(rules, dir, entries),
        ).no_duplicates(),
    decreases entries.len(),
{
    if entries.len() > 0 {
        let fewer = entries.drop_last();
        let found = discovery::files_matched_in(rules, dir, entries);
        let found_before = discovery::files_matched_in(rules, dir, fewer);
        let before = discovery::marked_among(found_before);
        last_entry_is_distinct(dir, entries);
        marked_files_are_distinct(rules, dir, fewer);
        marked_files_are_those_listed(rules, dir, fewer);
        let path = dir.join(entries.last().name);
        if before.contains(path) {
            let i = choose|i: int| marks_entry(rules, dir, fewer, i, path);
            assert(dir.join(fewer[i].name) == path);
        }
        sequence::distinct_after_push(before, path);
        if found.len() > found_before.len() {
            assert(found.drop_last() =~= found_before);
        }
    }
}

/// True when `path` is a directory in one of the directories in `opened`.
spec fn held_in_opened(world: World, opened: Set<PathView>, path: PathView) -> bool {
    exists|dir: PathView, i: int| #[trigger]
        world.holds(dir, i, path, FileType::Directory) && opened.contains(dir)
}

/// What holds of a walk that comes to nothing twice.
spec fn finds_once(
    world: World,
    start: PathView,
    walk: WalkView,
    visited: Set<PathView>,
    opened: Set<PathView>,
) -> bool {
    &&& walk.stack.no_duplicates()
    &&& forall|path: PathView| #[trigger] walk.stack.contains(path) ==> !visited.contains(path)
    &&& forall|path: PathView| #[trigger]
        walk.stack.contains(path) ==> path == start || held_in_opened(world, opened, path)
    &&& forall|path: PathView| #[trigger]
        visited.contains(path) ==> path == start || held_in_opened(world, opened, path)
    &&& walk.listing is Some ==> !opened.contains(walk.listing->0)
    &&& walk.found.watchers.no_duplicates()
    &&& walk.found.matches.no_duplicates()
}

/// An inspection finds nothing twice.
proof fn inspection_finds_once(
    world: World,
    rules: Seq<RuleView>,
    start: PathView,
    walk: WalkView,
    visited: Set<PathView>,
    opened: Set<PathView>,
)
    requires
        world.well_named(),
        world.distinctly_named(),
        on_track(world, rules, start, walk, visited, opened),
        finds_once(world, start, walk, visited, opened),
        walk.inspecting(),
    ensures
        finds_once(
            world,
            start,
            walk.advance(world, rules),
            visited.insert(walk.stack.last()),
            opened,
        ),
{
    let dir = walk.stack.last();
    let next = walk.advance(world, rules);
    sequence::contains_before_drop(walk.stack);
    sequence::distinct_after_push(walk.found.watchers, dir);
    sequence::distinct_after_push(walk.found.matches, dir);
    assert(walk.stack.contains(dir));
    if marked_in_opened(world, rules, opened, dir) {
        let above = choose|above: PathView| #[trigger]
            opened.contains(above) && world.marked_file_in(rules, above, dir);
        let i = choose|i: int| #[trigger] world.holds(above, i, dir, FileType::Other);
        assert(visited.contains(above));
        entry_is_not_start(world, rules, start, above, i, dir, FileType::Other);
        let (other, j) = choose|other: PathView, j: int| #[trigger]
            world.holds(other, j, dir, FileType::Directory) && opened.contains(other);
        entry_is_one(world, above, i, FileType::Other, other, j, FileType::Directory, dir);
    }
    assert(!walk.found.matches.contains(dir));
    assert(!walk.found.watchers.contains(dir));
    assert forall|path: PathView| #[trigger] next.stack.contains(path) implies !visited.insert(
        dir,
    ).contains(path) && (path == start || held_in_opened(world, opened, path)) by {
        assert(walk.stack.contains(path));
        let k = choose|k: int| 0 <= k < next.stack.len() && next.stack[k] == path;
        assert(walk.stack[k] != walk.stack[walk.stack.len() - 1]);
    }
    assert(next.stack.no_duplicates()) by {
        assert forall|i: int, j: int|
            0 <= i < next.stack.len() && 0 <= j < next.stack.len() && i
                != j implies next.stack[i] != next.stack[j] by {
            assert(walk.stack[i] != walk.stack[j]);
        }
    }
}

/// What is held in some of the directories is held in more of them.
proof fn held_in_more(world: World, opened: Set<PathView>, dir: PathView, path: PathView)
    requires
        held_in_opened(world, opened, path),
    ensures
        held_in_opened(world, opened.insert(dir), path),
{
    let (above, i) = choose|above: PathView, i: int| #[trigger]
        world.holds(above, i, path, FileType::Directory) && opened.contains(above);
    assert(opened.insert(dir).contains(above));
}

/// An entry of a directory that was not listed yet was not found yet.
proof fn new_entry_is_new(
    world: World,
    rules: Seq<RuleView>,
    start: PathView,
    walk: WalkView,
    visited: Set<PathView>,
    opened: Set<PathView>,
    i: int,
    path: PathView,
    file_type: FileType,
)
    requires
        world.well_named(),
        world.distinctly_named(),
        on_track(world, rules, start, walk, visited, opened),
        finds_once(world, start, walk, visited, opened),
        walk.listing is Some,
        world.holds(walk.listing->0, i, path, file_type),
    ensures
        !walk.stack.contains(path),
        !visited.contains(path),
        !walk.found.matches.contains(path),
{
    let dir = walk.listing->0;
    entry_is_not_start(world, rules, start, dir, i, path, file_type);
    if held_in_opened(world, opened, path) {
        let (above, j) = choose|above: PathView, j: int| #[trigger]
            world.holds(above, j, path, FileType::Directory) && opened.contains(above);
        entry_is_one(world, dir, i, file_type, above, j, FileType::Directory, path);
    }
    if marked_in_opened(world, rules, opened, path) {
        let above = choose|above: PathView| #[trigger]
            opened.contains(above) && world.marked_file_in(rules, above, path);
        let j = choose|j: int| #[trigger] world.holds(above, j, path, FileType::Other);
        entry_is_one(world, dir, i, file_type, above, j, FileType::Other, path);
    }
}

/// A listing finds nothing twice.
proof fn listing_finds_once(
    world: World,
    rules: Seq<RuleView>,
    start: PathView,
    walk: WalkView,
    visited: Set<PathView>,
    opened: Set<PathView>,
)
    requires
        world.well_named(),
        world.distinctly_named(),
        on_track(world, rules, start, walk, visited, opened),
        finds_once(world, start, walk, visited, opened),
        walk.listing is Some,
    ensures
        finds_once(
            world,
            start,
            walk.advance(world, rules),
            visited,
            opened.insert(walk.listing->0),
        ),
{
    let dir = walk.listing->0;
    let next = walk.advance(world, rules);
    let more = opened.insert(dir);
    assert forall|path: PathView| #[trigger] visited.contains(path) implies path == start
        || held_in_opened(world, more, path) by {
        if path != start {
            held_in_more(world, opened, dir, path);
        }
    }
    assert forall|path: PathView| #[trigger] walk.stack.contains(path) implies path == start
        || held_in_opened(world, more, path) by {
        if path != start {
            held_in_more(world, opened, dir, path);
        }
    }
    if let Some(names) = (world.listing)(dir) {
        let entries = world.entries(dir)->0;
        let directories = discovery::directories_in(dir, entries);
        let marked = discovery::marked_among(discovery::files_matched_in(rules, dir, entries));
        assert forall|i: int| 0 <= i < entries.len() implies path::is_entry_name(
            (#[trigger] entries[i]).name,
        ) by {
            assert(entries[i].name == (world.listing)(dir)->0[i].name);
        }
        assert forall|i: int, j: int| 0 <= i < j < entries.len() implies (
        #[trigger] entries[i]).name != (#[trigger] entries[j]).name by {
            assert((world.listing)(dir)->0[i].name != (world.listing)(dir)->0[j].name);
        }
        directories_are_distinct(dir, entries);
        marked_files_are_distinct(rules, dir, entries);
        directories_are_those_listed(dir, entries);
        marked_files_are_those_listed(rules, dir, entries);
        assert forall|path: PathView| #[trigger] directories.contains(path) implies {
            &&& !walk.stack.contains(path)
            &&& !visited.contains(path)
            &&& held_in_opened(world, more, path)
        } by {
            let i = choose|i: int|
                0 <= i < entries.len() && (#[trigger] entries[i]).file_type == Some(
                    FileType::Directory,
                ) && path == dir.join(entries[i].name);
            assert(world.holds(dir, i, path, FileType::Directory));
            assert(more.contains(dir));
            new_entry_is_new(
                world,
                rules,
                start,
                walk,
                visited,
                opened,
                i,
                path,
                FileType::Directory,
            );
        }
        assert forall|path: PathView| #[trigger]
            marked.contains(path) implies !walk.found.matches.contains(path) by {
            let i = choose|i: int| marks_entry(rules, dir, entries, i, path);
            assert(world.holds(dir, i, path, FileType::Other));
            new_entry_is_new(
                world,
                rules,
                start,
                walk,
                visited,
                opened,
                i,
                path,
                FileType::Other,
            );
        }
        sequence::contains_in_both(walk.stack, directories);
        sequence::distinct_in_both(walk.stack, directories);
        sequence::distinct_in_both(walk.found.matches, marked);
    }
}

/// No state of a walk holds anything twice.
proof fn walk_finds_once(
    world: World,
    rules: Seq<RuleView>,
    start: PathView,
    collect_watchers: bool,
    states: Seq<WalkView>,
    n: int,
)
    requires
        world.well_named(),
        world.distinctly_named(),
        is_walk(world, rules, start, collect_watchers, states),
        0 <= n < states.len(),
    ensures
        finds_once(world, start, states[n], visited(states, n), opened(states, n)),
    decreases n,
{
    if n > 0 {
        walk_finds_once(world, rules, start, collect_watchers, states, n - 1);
        walk_stays_on_track(world, rules, start, collect_watchers, states, n - 1);
        let before = states[n - 1];
        assert(states[n] == before.advance(world, rules));
        if before.inspecting() {
            inspection_finds_once(
                world,
                rules,
                start,
                before,
                visited(states, n - 1),
                opened(states, n - 1),
            );
        } else if before.listing is Some {
            listing_finds_once(
                world,
                rules,
                start,
                before,
                visited(states, n - 1),
                opened(states, n - 1),
            );
        }
    }
}

/// A walk finds nothing twice: no directory is to be watched twice, and no path
/// to be marked twice.
pub proof fn walk_finds_nothing_twice(
    world: World,
    rules: Seq<RuleView>,
    start: PathView,
    collect_watchers: bool,
    states: Seq<WalkView>,
)
    requires
        world.well_named(),
        world.distinctly_named(),
        is_walk(world, rules, start, collect_watchers, states),
    ensures
        states.last().found.watchers.no_duplicates(),
        states.last().found.matches.no_duplicates(),
{
    walk_finds_once(world, rules, start, collect_watchers, states, states.len() - 1);
}

/// True when `path` is an entry of a directory among the first `n` of `directories`.
pub open spec fn is_entry_of_earlier(
    directories: Seq<PathView>,
    n: int,
    path: PathView,
) -> bool {
    exists|i: int|
        0 <= i < n && i < directories.len() && path.absolute == (
        #[trigger] directories[i]).absolute && path.names.len() > 0 && path.names.drop_last()
            == directories[i].names
}

/// What holds of the order in which a walk comes to directories.
spec fn comes_from_above(start: PathView, walk: WalkView) -> bool {
    let watchers = walk.found.watchers;
    &&& walk.collect_watchers
    &&& walk.listing is Some ==> watchers.contains(walk.listing->0)
    &&& forall|k: int|
        0 <= k < walk.stack.len() ==> #[trigger] walk.stack[k] == start || is_entry_of_earlier(
            watchers,
            watchers.len() as int,
            walk.stack[k],
        )
    &&& forall|k: int|
        0 <= k < watchers.len() ==> #[trigger] watchers[k] == start || is_entry_of_earlier(
            watchers,
            k,
            watchers[k],
        )
}

/// What is an entry of an earlier directory stays one when more directories follow.
proof fn earlier_stays_earlier(
    directories: Seq<PathView>,
    last: PathView,
    n: int,
    m: int,
    path: PathView,
)
    requires
        is_entry_of_earlier(directories, n, path),
        0 <= n <= m,
    ensures
        is_entry_of_earlier(directories.push(last), m, path),
        is_entry_of_earlier(directories, m, path),
{
    let i = choose|i: int|
        0 <= i < n && i < directories.len() && path.absolute == (
        #[trigger] directories[i]).absolute && path.names.len() > 0 && path.names.drop_last()
            == directories[i].names;
    assert(directories.push(last)[i] == directories[i]);
}

/// The directories of a listing are entries of the directory.
proof fn directories_come_from_above(
    directories: Seq<PathView>,
    dir: PathView,
    entries: Seq<EntryView>,
    k: int,
)
    requires
        directories.contains(dir),
        forall|i: int| 0 <= i < entries.len() ==> path::is_entry_name((#[trigger] entries[i]).name),
        0 <= k < discovery::directories_in(dir, entries).len(),
    ensures
        is_entry_of_earlier(
            directories,
            directories.len() as int,
            discovery::directories_in(dir, entries)[k],
        ),
    decreases entries.len(),
{
    let fewer = entries.drop_last();
    let before = discovery::directories_in(dir, fewer);
    if k < before.len() {
        assert forall|i: int| 0 <= i < fewer.len() implies path::is_entry_name(
            (#[trigger] fewer[i]).name,
        ) by {
            assert(fewer[i] == entries[i]);
        }
        directories_come_from_above(directories, dir, fewer, k);
        assert(discovery::directories_in(dir, entries)[k] == before[k]);
    } else {
        let name = entries[entries.len() - 1].name;
        assert(path::is_entry_name(name));
        path::entry_path_of_directory(dir, name);
        assert(dir.names.push(name).drop_last() =~= dir.names);
        let i = choose|i: int| 0 <= i < directories.len() && directories[i] == dir;
        assert(directories[i].names == dir.join(name).names.drop_last());
    }
}

/// A step keeps the order.
proof fn step_comes_from_above(
    world: World,
    rules: Seq<RuleView>,
    start: PathView,
    walk: WalkView,
)
    requires
        world.well_named(),
        comes_from_above(start, walk),
    ensures
        comes_from_above(start, walk.advance(world, rules)),
{
    let next = walk.advance(world, rules);
    let watchers = walk.found.watchers;
    let more = next.found.watchers;
    match walk.listing {
        Some(dir) => {
            if let Some(entries) = world.entries(dir) {
                let new = discovery::directories_in(dir, entries);
                assert forall|i: int| 0 <= i < entries.len() implies path::is_entry_name(
                    (#[trigger] entries[i]).name,
                ) by {
                    assert(entries[i].name == (world.listing)(dir)->0[i].name);
                }
                assert forall|k: int| 0 <= k < next.stack.len() implies #[trigger] next.stack[k]
                    == start || is_entry_of_earlier(more, more.len() as int, next.stack[k]) by {
                    if k < walk.stack.len() {
                        assert(next.stack[k] == walk.stack[k]);
                    } else {
                        directories_come_from_above(
                            watchers,
                            dir,
                            entries,
                            k - walk.stack.len(),
                        );
                        assert(next.stack[k] == new[k - walk.stack.len()]);
                    }
                }
            }
        },
        None => if walk.stack.len() > 0 {
            let dir = walk.stack.last();
            assert(walk.stack[walk.stack.len() - 1] == dir);
            if more != watchers {
                assert(more == watchers.push(dir));
                assert(more[watchers.len() as int] == dir);
                assert(more.contains(dir));
            }
            assert forall|k: int| 0 <= k < next.stack.len() implies #[trigger] next.stack[k]
                == start || is_entry_of_earlier(more, more.len() as int, next.stack[k]) by {
                assert(next.stack[k] == walk.stack[k]);
                if walk.stack[k] != start {
                    earlier_stays_earlier(
                        watchers,
                        dir,
                        watchers.len() as int,
                        more.len() as int,
                        walk.stack[k],
                    );
                }
            }
            assert forall|k: int| 0 <= k < more.len() implies #[trigger] more[k] == start
                || is_entry_of_earlier(more, k, more[k]) by {
                if k < watchers.len() {
                    assert(more[k] == watchers[k]);
                    if watchers[k] != start {
                        earlier_stays_earlier(watchers, dir, k, k, watchers[k]);
                    }
                } else if dir != start {
                    earlier_stays_earlier(watchers, dir, k, k, dir);
                }
            }
        },
    }
}

/// Directories are listed for watching from above: each but the start comes after the
/// directory that it is an entry of. So a directory is watched before anything in it
/// is.
pub proof fn directories_are_watched_from_above(
    world: World,
    rules: Seq<RuleView>,
    start: PathView,
    states: Seq<WalkView>,
    n: int,
    k: int,
)
    requires
        world.well_named(),
        is_walk(world, rules, start, true, states),
        0 <= n < states.len(),
        0 <= k < states[n].found.watchers.len(),
    ensures
        states[n].found.watchers[k] == start || is_entry_of_earlier(
            states[n].found.watchers,
            k,
            states[n].found.watchers[k],
        ),
{
    walk_comes_from_above(world, rules, start, states, n);
}

/// A walk keeps the order throughout.
proof fn walk_comes_from_above(
    world: World,
    rules: Seq<RuleView>,
    start: PathView,
    states: Seq<WalkView>,
    n: int,
)
    requires
        world.well_named(),
        is_walk(world, rules, start, true, states),
        0 <= n < states.len(),
    ensures
        comes_from_above(start, states[n]),
    decreases n,
{
    if n > 0 {
        walk_comes_from_above(world, rules, start, states, n - 1);
        assert(states[n - 1 + 1] == states[n - 1].advance(world, rules));
        step_comes_from_above(world, rules, start, states[n - 1]);
    }
}

} // verus!

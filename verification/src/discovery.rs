//! The walk that finds what to mark and what to watch.
//!
//! A walk asks for one look at the file system at a time and is told what was
//! seen; the stack of directories still to visit and the paths found so far are
//! kept here.

use crate::engine;
use crate::engine::RuleEngine;
use crate::path;
use crate::path::{PathView, TreePath};
use crate::rules::{Candidate, CandidateView, FileType, MatchView, RuleMatch, RuleView};
use crate::targets;
use crate::text;
use vstd::prelude::*;

verus! {

/// The paths behind a sequence of `TreePath`s.
pub open spec fn path_views(paths: Seq<TreePath>) -> Seq<PathView> {
    paths.map_values(|path: TreePath| path@)
}

/// True when all `paths` are spelled by joining names to `base`.
pub open spec fn all_spelled_from(paths: Seq<TreePath>, base: Seq<u8>) -> bool {
    forall|i: int| 0 <= i < paths.len() ==> (#[trigger] paths[i]).spelled_from(base)
}

/// Directories to watch and matching paths as a mathematical value.
#[verifier::ext_equal]
pub struct DiscoveredView {
    pub watchers: Seq<PathView>,
    pub matches: Seq<PathView>,
}

/// Directories to watch and matching paths discovered during a filesystem walk.
#[derive(Debug)]
pub struct DiscoveredPaths {
    pub watchers: Vec<TreePath>,
    pub matches: Vec<TreePath>,
}

impl View for DiscoveredPaths {
    type V = DiscoveredView;

    open spec fn view(&self) -> DiscoveredView {
        DiscoveredView {
            watchers: path_views(self.watchers@),
            matches: path_views(self.matches@),
        }
    }
}

/// What was seen at a path, as a mathematical value.
#[verifier::ext_equal]
pub struct InspectionView {
    pub file_type: FileType,
    pub siblings: Set<Seq<u8>>,
}

impl InspectionView {
    /// What was seen at `path`, as a candidate.
    pub open spec fn candidate(self, path: PathView) -> CandidateView {
        CandidateView { path, file_type: self.file_type, siblings: self.siblings }
    }
}

/// What was seen at a path: what the entry is, and which of the names that the
/// rules consult for it exist beside it.
#[derive(Debug)]
pub struct Inspection {
    pub file_type: FileType,
    pub siblings: Vec<Vec<u8>>,
}

impl View for Inspection {
    type V = InspectionView;

    open spec fn view(&self) -> InspectionView {
        InspectionView {
            file_type: self.file_type,
            siblings: text::byte_names(self.siblings@).to_set(),
        }
    }
}

/// One entry of a directory listing, as a mathematical value.
#[verifier::ext_equal]
pub struct EntryView {
    pub name: Seq<u8>,
    pub file_type: Option<FileType>,
    pub siblings: Set<Seq<u8>>,
}

/// One entry of a directory listing. An entry whose type could not be read has
/// none.
#[derive(Debug)]
pub struct ListedEntry {
    pub name: Vec<u8>,
    pub file_type: Option<FileType>,
    pub siblings: Vec<Vec<u8>>,
}

impl View for ListedEntry {
    type V = EntryView;

    open spec fn view(&self) -> EntryView {
        EntryView {
            name: self.name@,
            file_type: self.file_type,
            siblings: text::byte_names(self.siblings@).to_set(),
        }
    }
}

/// The entries behind a sequence of `ListedEntry`s.
pub open spec fn entry_views(entries: Seq<ListedEntry>) -> Seq<EntryView> {
    entries.map_values(|entry: ListedEntry| entry@)
}

/// A path and the rule that matched it.
#[verifier::ext_equal]
pub struct PathMatchView {
    pub path: PathView,
    pub matched: MatchView,
}

/// A path and the rule that matched it.
#[derive(Debug)]
pub struct PathMatch {
    pub path: TreePath,
    pub matched: RuleMatch,
}

impl View for PathMatch {
    type V = PathMatchView;

    open spec fn view(&self) -> PathMatchView {
        PathMatchView { path: self.path@, matched: self.matched@ }
    }
}

/// The matches behind a sequence of `PathMatch`es.
pub open spec fn match_views(found: Seq<PathMatch>) -> Seq<PathMatchView> {
    found.map_values(|one: PathMatch| one@)
}

/// True when the paths of all matches are spelled by joining names to `base`.
pub open spec fn matches_spelled_from(found: Seq<PathMatch>, base: Seq<u8>) -> bool {
    forall|i: int| 0 <= i < found.len() ==> (#[trigger] found[i]).path.spelled_from(base)
}

/// True when a listing holds plain entry names, as that of a real directory does.
pub open spec fn plainly_named(seen: Option<Seq<EntryView>>) -> bool {
    seen is Some ==> forall|i: int|
        0 <= i < seen->0.len() ==> path::is_entry_name((#[trigger] seen->0[i]).name)
}

/// The directories among the entries of `dir`, in order. Symlinks are none,
/// whatever they point at.
pub open spec fn directories_in(dir: PathView, entries: Seq<EntryView>) -> Seq<PathView>
    decreases entries.len(),
{
    if entries.len() == 0 {
        Seq::empty()
    } else {
        let before = directories_in(dir, entries.drop_last());
        if entries.last().file_type == Some(FileType::Directory) {
            before.push(dir.join(entries.last().name))
        } else {
            before
        }
    }
}

/// The entry as a candidate for the rules.
pub open spec fn entry_candidate(dir: PathView, entry: EntryView) -> CandidateView {
    CandidateView {
        path: dir.join(entry.name),
        file_type: FileType::Other,
        siblings: entry.siblings,
    }
}

/// The entries of `dir` that are neither directories nor symlinks and match a
/// rule, in order.
pub open spec fn files_matched_in(
    rules: Seq<RuleView>,
    dir: PathView,
    entries: Seq<EntryView>,
) -> Seq<PathMatchView>
    decreases entries.len(),
{
    if entries.len() == 0 {
        Seq::empty()
    } else {
        let before = files_matched_in(rules, dir, entries.drop_last());
        let entry = entries.last();
        match engine::verdict(rules, entry_candidate(dir, entry)) {
            Some(matched) => if entry.file_type == Some(FileType::Other) {
                before.push(PathMatchView { path: dir.join(entry.name), matched })
            } else {
                before
            },
            None => before,
        }
    }
}

/// The paths among `found` whose rule asks for the Dropbox attribute, in order.
pub open spec fn marked_among(found: Seq<PathMatchView>) -> Seq<PathView>
    decreases found.len(),
{
    if found.len() == 0 {
        Seq::empty()
    } else {
        let before = marked_among(found.drop_last());
        if found.last().matched.action.set_dropbox_ignore {
            before.push(found.last().path)
        } else {
            before
        }
    }
}

/// A walk as a mathematical value: the directories still to visit (the last one
/// next), the directory whose entries are to be listed, and what was found.
#[verifier::ext_equal]
pub struct WalkView {
    pub stack: Seq<PathView>,
    pub listing: Option<PathView>,
    pub found: DiscoveredView,
    pub collect_watchers: bool,
}

impl WalkView {
    /// The walk that is about to visit `start`.
    pub open spec fn starting(start: PathView, collect_watchers: bool) -> WalkView {
        WalkView {
            stack: seq![start],
            listing: None,
            found: DiscoveredView { watchers: Seq::empty(), matches: Seq::empty() },
            collect_watchers,
        }
    }

    /// True when the next thing to look at is what the last directory on the
    /// stack is.
    pub open spec fn inspecting(self) -> bool {
        self.listing is None && self.stack.len() > 0
    }

    /// True when nothing is left to visit.
    pub open spec fn done(self) -> bool {
        self.listing is None && self.stack.len() == 0
    }

    /// What the rules say of the directory that was inspected.
    pub open spec fn inspected_verdict(
        self,
        rules: Seq<RuleView>,
        seen: Option<InspectionView>,
    ) -> Option<MatchView> {
        match seen {
            Some(inspection) => if self.inspecting() {
                engine::verdict(rules, inspection.candidate(self.stack.last()))
            } else {
                None
            },
            None => None,
        }
    }

    /// The walk after the last directory on the stack was inspected. It is
    /// visited: dropped if nothing could be seen, marked if a rule says so, and
    /// watched and listed unless a rule keeps the walk out.
    pub open spec fn inspected(
        self,
        rules: Seq<RuleView>,
        seen: Option<InspectionView>,
    ) -> WalkView {
        if !self.inspecting() {
            self
        } else {
            let dir = self.stack.last();
            let rest = WalkView { stack: self.stack.drop_last(), ..self };
            match seen {
                None => rest,
                Some(inspection) => {
                    let candidate = inspection.candidate(dir);
                    let matches = if engine::marks(rules, candidate) {
                        self.found.matches.push(dir)
                    } else {
                        self.found.matches
                    };
                    if engine::skips(rules, candidate) {
                        WalkView { found: DiscoveredView { matches, ..self.found }, ..rest }
                    } else {
                        let watchers = if self.collect_watchers {
                            self.found.watchers.push(dir)
                        } else {
                            self.found.watchers
                        };
                        WalkView {
                            listing: Some(dir),
                            found: DiscoveredView { watchers, matches },
                            ..rest
                        }
                    }
                },
            }
        }
    }

    /// The entries that match, other than directories and symlinks, in the
    /// directory that was listed.
    pub open spec fn listed_matches(
        self,
        rules: Seq<RuleView>,
        seen: Option<Seq<EntryView>>,
    ) -> Seq<PathMatchView> {
        match (self.listing, seen) {
            (Some(dir), Some(entries)) => files_matched_in(rules, dir, entries),
            _ => Seq::empty(),
        }
    }

    /// The walk after the directory was listed: its directories are to be
    /// visited, its matching files are marked. One that could not be read adds
    /// nothing.
    pub open spec fn listed(
        self,
        rules: Seq<RuleView>,
        seen: Option<Seq<EntryView>>,
    ) -> WalkView {
        match (self.listing, seen) {
            (Some(dir), Some(entries)) => WalkView {
                stack: self.stack + directories_in(dir, entries),
                listing: None,
                found: DiscoveredView {
                    matches: self.found.matches + marked_among(
                        files_matched_in(rules, dir, entries),
                    ),
                    ..self.found
                },
                ..self
            },
            (Some(dir), None) => WalkView { listing: None, ..self },
            (None, _) => self,
        }
    }
}

/// The next thing that a walk has to be told.
#[derive(Debug)]
pub enum WalkRequest {
    /// What the entry at this path is, symlinks followed.
    Inspect(TreePath),
    /// The entries of this directory, symlinks not followed.
    List(TreePath),
    /// Nothing: the walk is over.
    Done,
}

/// A walk through a directory tree.
#[derive(Debug)]
pub struct Walk {
    stack: Vec<TreePath>,
    listing: Option<TreePath>,
    found: DiscoveredPaths,
    collect_watchers: bool,
}

impl View for Walk {
    type V = WalkView;

    closed spec fn view(&self) -> WalkView {
        WalkView {
            stack: path_views(self.stack@),
            listing: match self.listing {
                Some(dir) => Some(dir@),
                None => None,
            },
            found: self.found@,
            collect_watchers: self.collect_watchers,
        }
    }
}

impl Walk {
    /// True when every path is spelled by joining names to `base`.
    pub closed spec fn spelled_from(&self, base: Seq<u8>) -> bool {
        &&& all_spelled_from(self.stack@, base)
        &&& self.listing is Some ==> self.listing->0.spelled_from(base)
        &&& all_spelled_from(self.found.watchers@, base)
        &&& all_spelled_from(self.found.matches@, base)
    }

    fn starting(start: &TreePath, collect_watchers: bool) -> (walk: Walk)
        ensures
            walk@ == WalkView::starting(start@, collect_watchers),
            walk.spelled_from(start.spelling()),
            forall|base: Seq<u8>| #[trigger]
                start.spelled_from(base) ==> walk.spelled_from(base),
    {
        let mut stack: Vec<TreePath> = Vec::new();
        stack.push(start.clone());
        let walk = Walk {
            stack,
            listing: None,
            found: DiscoveredPaths { watchers: Vec::new(), matches: Vec::new() },
            collect_watchers,
        };
        assert(walk@ =~= WalkView::starting(start@, collect_watchers)) by {
            assert(walk@.stack =~= seq![start@]);
            assert(walk@.found.watchers =~= Seq::<PathView>::empty());
            assert(walk@.found.matches =~= Seq::<PathView>::empty());
        }
        walk
    }

    /// Walk the tree and gather both watch targets and rule matches.
    pub fn discover_watch_targets(start: &TreePath) -> (walk: Walk)
        ensures
            walk@ == WalkView::starting(start@, true),
            walk.spelled_from(start.spelling()),
            forall|base: Seq<u8>| #[trigger]
                start.spelled_from(base) ==> walk.spelled_from(base),
    {
        Walk::starting(start, true)
    }

    /// Walk the tree and gather only rule matches, skipping watcher collection.
    /// One-shot scans never register watches.
    pub fn discover_matches(start: &TreePath) -> (walk: Walk)
        ensures
            walk@ == WalkView::starting(start@, false),
            walk.spelled_from(start.spelling()),
            forall|base: Seq<u8>| #[trigger]
                start.spelled_from(base) ==> walk.spelled_from(base),
    {
        Walk::starting(start, false)
    }

    /// What has to be looked at next.
    pub fn request(&self) -> (request: WalkRequest)
        ensures
            match request {
                WalkRequest::Inspect(path) => self@.inspecting() && path@ == self@.stack.last(),
                WalkRequest::List(path) => self@.listing == Some(path@),
                WalkRequest::Done => self@.done(),
            },
            forall|base: Seq<u8>| #[trigger]
                self.spelled_from(base) ==> match request {
                    WalkRequest::Inspect(path) => path.spelled_from(base),
                    WalkRequest::List(path) => path.spelled_from(base),
                    WalkRequest::Done => true,
                },
    {
        match &self.listing {
            Some(dir) => WalkRequest::List(dir.clone()),
            None => {
                let count = self.stack.len();
                if count > 0 {
                    assert(self@.stack.last() == self.stack@[count - 1]@);
                    WalkRequest::Inspect(self.stack[count - 1].clone())
                } else {
                    WalkRequest::Done
                }
            },
        }
    }

    /// Takes what was seen at the path that `WalkRequest::Inspect` names,
    /// nothing if it could not be read, and returns the match to report. Does
    /// nothing when no inspection is due.
    pub fn inspected(&mut self, rules: &RuleEngine, seen: Option<Inspection>) -> (matched: Option<
        RuleMatch,
    >)
        ensures
            final(self)@ == old(self)@.inspected(rules@, inspection_view(seen)),
            match matched {
                Some(found) => old(self)@.inspected_verdict(rules@, inspection_view(seen)) == Some(
                    found@,
                ),
                None => old(self)@.inspected_verdict(rules@, inspection_view(seen)) is None,
            },
            forall|base: Seq<u8>| #[trigger]
                old(self).spelled_from(base) ==> final(self).spelled_from(base),
    {
        let ghost before = self@;
        if self.listing.is_some() {
            return None;
        }
        let dir = match self.stack.pop() {
            Some(dir) => dir,
            None => {
                return None;
            },
        };
        proof {
            assert(self@.stack =~= before.stack.drop_last());
            assert(before.stack.last() == dir@);
        }
        let inspection = match seen {
            Some(inspection) => inspection,
            None => {
                return None;
            },
        };
        let matched = rules.evaluate(
            &Candidate {
                path: &dir,
                file_type: inspection.file_type,
                siblings: &inspection.siblings,
            },
        );
        if let Some(found) = matched {
            if found.action.set_dropbox_ignore {
                let ghost matches = self.found.matches@;
                self.found.matches.push(dir.clone());
                assert(self@.found.matches =~= path_views(matches).push(dir@));
            }
            if found.action.skip_descendants {
                return matched;
            }
        }
        if self.collect_watchers {
            let ghost watchers = self.found.watchers@;
            self.found.watchers.push(dir.clone());
            assert(self@.found.watchers =~= path_views(watchers).push(dir@));
        }
        self.listing = Some(dir);
        matched
    }

    /// Takes the entries of the directory that `WalkRequest::List` names,
    /// nothing if it could not be read, and returns the matches to report. Does
    /// nothing when no listing is due.
    pub fn listed(&mut self, rules: &RuleEngine, seen: Option<Vec<ListedEntry>>) -> (matched: Vec<
        PathMatch,
    >)
        ensures
            final(self)@ == old(self)@.listed(rules@, listing_view(seen)),
            match_views(matched@) == old(self)@.listed_matches(rules@, listing_view(seen)),
            forall|base: Seq<u8>| #[trigger]
                old(self).spelled_from(base) && plainly_named(listing_view(seen))
                    ==> final(self).spelled_from(base) && matches_spelled_from(matched@, base),
    {
        let mut matched: Vec<PathMatch> = Vec::new();
        assert(match_views(matched@) =~= Seq::<PathMatchView>::empty());
        let dir = match self.listing.take() {
            Some(dir) => dir,
            None => {
                return matched;
            },
        };
        let entries = match seen {
            Some(entries) => entries,
            None => {
                return matched;
            },
        };
        let ghost before = self@;
        let ghost all = entry_views(entries@);
        let mut i: usize = 0;
        proof {
            assert(all.take(0) =~= Seq::<EntryView>::empty());
            assert(self@.stack =~= before.stack + directories_in(dir@, all.take(0)));
            assert(self@.found.matches =~= before.found.matches + marked_among(
                files_matched_in(rules@, dir@, all.take(0)),
            ));
        }
        while i < entries.len()
            invariant
                i <= entries@.len(),
                all == entry_views(entries@),
                self@.listing is None,
                forall|base: Seq<u8>| #[trigger]
                    old(self).spelled_from(base) && plainly_named(Some(all)) ==> {
                        &&& dir.spelled_from(base)
                        &&& self.spelled_from(base)
                        &&& matches_spelled_from(matched@, base)
                    },
                self@.collect_watchers == before.collect_watchers,
                self@.found.watchers == before.found.watchers,
                self@.stack == before.stack + directories_in(dir@, all.take(i as int)),
                match_views(matched@) == files_matched_in(rules@, dir@, all.take(i as int)),
                self@.found.matches == before.found.matches + marked_among(
                    files_matched_in(rules@, dir@, all.take(i as int)),
                ),
            decreases entries@.len() - i,
        {
            let entry = &entries[i];
            let ghost middle = self@;
            let ghost stack = self.stack@;
            let ghost matches = self.found.matches@;
            let ghost reported = matched@;
            proof {
                assert(all.take(i + 1).drop_last() =~= all.take(i as int));
                assert(all.take(i + 1).last() == entry@);
                assert(all[i as int] == entry@);
            }
            match entry.file_type {
                Some(FileType::Directory) => {
                    let path = dir.join(entry.name.as_slice());
                    self.stack.push(path);
                    assert(self@.stack =~= path_views(stack).push(dir@.join(entry@.name)));
                    assert(self@.stack =~= before.stack + directories_in(dir@, all.take(i + 1)));
                },
                Some(FileType::Other) => {
                    let path = dir.join(entry.name.as_slice());
                    let verdict = rules.evaluate(
                        &Candidate {
                            path: &path,
                            file_type: FileType::Other,
                            siblings: &entry.siblings,
                        },
                    );
                    if let Some(found) = verdict {
                        let ghost one = PathMatchView { path: path@, matched: found@ };
                        if found.action.set_dropbox_ignore {
                            self.found.matches.push(path.clone());
                            assert(self@.found.matches =~= path_views(matches).push(path@));
                        }
                        matched.push(PathMatch { path, matched: found });
                        proof {
                            let listed = files_matched_in(rules@, dir@, all.take(i as int));
                            assert(match_views(matched@) =~= match_views(reported).push(one));
                            assert(listed.push(one).drop_last() =~= listed);
                            assert(self@.found.matches =~= before.found.matches + marked_among(
                                listed.push(one),
                            ));
                        }
                    }
                },
                Some(FileType::Symlink) => {},
                None => {},
            }
            i = i + 1;
        }
        assert(all.take(entries@.len() as int) =~= all);
        matched
    }

    /// What was found.
    pub fn finish(self) -> (found: DiscoveredPaths)
        ensures
            found@ == self@.found,
            forall|base: Seq<u8>| #[trigger]
                self.spelled_from(base) ==> all_spelled_from(found.watchers@, base)
                    && all_spelled_from(found.matches@, base),
    {
        self.found
    }
}

/// What was seen, as a mathematical value.
pub open spec fn inspection_view(seen: Option<Inspection>) -> Option<InspectionView> {
    match seen {
        Some(inspection) => Some(inspection@),
        None => None,
    }
}

/// What was listed, as a mathematical value.
pub open spec fn listing_view(seen: Option<Vec<ListedEntry>>) -> Option<Seq<EntryView>> {
    match seen {
        Some(entries) => Some(entry_views(entries@)),
        None => None,
    }
}

/// What a walk takes from a listing, in the order of the entries: the directories
/// are those entries that are directories, the matches are those entries that are
/// neither directories nor symlinks and that the rules have a verdict on, and those
/// are marked whose verdict asks for it.
pub proof fn listing_is_taken_in_order(
    rules: Seq<RuleView>,
    dir: PathView,
    entries: Seq<EntryView>,
    found: Seq<PathMatchView>,
)
    ensures
        directories_in(dir, entries) == entries.filter(
            |entry: EntryView| entry.file_type == Some(FileType::Directory),
        ).map_values(|entry: EntryView| dir.join(entry.name)),
        files_matched_in(rules, dir, entries) == entries.filter(
            |entry: EntryView|
                entry.file_type == Some(FileType::Other) && engine::verdict(
                    rules,
                    CandidateView {
                        path: dir.join(entry.name),
                        file_type: FileType::Other,
                        siblings: entry.siblings,
                    },
                ) is Some,
        ).map_values(
            |entry: EntryView|
                PathMatchView {
                    path: dir.join(entry.name),
                    matched: engine::verdict(
                        rules,
                        CandidateView {
                            path: dir.join(entry.name),
                            file_type: FileType::Other,
                            siblings: entry.siblings,
                        },
                    )->0,
                },
        ),
        marked_among(found) == found.filter(
            |one: PathMatchView| one.matched.action.set_dropbox_ignore,
        ).map_values(|one: PathMatchView| one.path),
{
    directories_are_filtered(dir, entries);
    matches_are_filtered(rules, dir, entries);
    marks_are_filtered(found);
}

/// The directories of a listing.
proof fn directories_are_filtered(dir: PathView, entries: Seq<EntryView>)
    ensures
        directories_in(dir, entries) == entries.filter(
            |entry: EntryView| entry.file_type == Some(FileType::Directory),
        ).map_values(|entry: EntryView| dir.join(entry.name)),
    decreases entries.len(),
{
    reveal(Seq::filter);
    let kept = |entry: EntryView| entry.file_type == Some(FileType::Directory);
    let shown = |entry: EntryView| dir.join(entry.name);
    if entries.len() > 0 {
        let fewer = entries.drop_last();
        directories_are_filtered(dir, fewer);
        assert(fewer.filter(kept).push(entries.last()).map_values(shown) =~= fewer.filter(
            kept,
        ).map_values(shown).push(shown(entries.last())));
    }
    assert(directories_in(dir, entries) =~= entries.filter(kept).map_values(shown));
}

/// The matches of a listing.
proof fn matches_are_filtered(rules: Seq<RuleView>, dir: PathView, entries: Seq<EntryView>)
    ensures
        files_matched_in(rules, dir, entries) == entries.filter(
            |entry: EntryView|
                entry.file_type == Some(FileType::Other) && engine::verdict(
                    rules,
                    CandidateView {
                        path: dir.join(entry.name),
                        file_type: FileType::Other,
                        siblings: entry.siblings,
                    },
                ) is Some,
        ).map_values(
            |entry: EntryView|
                PathMatchView {
                    path: dir.join(entry.name),
                    matched: engine::verdict(
                        rules,
                        CandidateView {
                            path: dir.join(entry.name),
                            file_type: FileType::Other,
                            siblings: entry.siblings,
                        },
                    )->0,
                },
        ),
    decreases entries.len(),
{
    reveal(Seq::filter);
    let kept = |entry: EntryView|
        entry.file_type == Some(FileType::Other) && engine::verdict(
            rules,
            CandidateView {
                path: dir.join(entry.name),
                file_type: FileType::Other,
                siblings: entry.siblings,
            },
        ) is Some;
    let shown = |entry: EntryView|
        PathMatchView {
            path: dir.join(entry.name),
            matched: engine::verdict(
                rules,
                CandidateView {
                    path: dir.join(entry.name),
                    file_type: FileType::Other,
                    siblings: entry.siblings,
                },
            )->0,
        };
    if entries.len() > 0 {
        let fewer = entries.drop_last();
        matches_are_filtered(rules, dir, fewer);
        assert(fewer.filter(kept).push(entries.last()).map_values(shown) =~= fewer.filter(
            kept,
        ).map_values(shown).push(shown(entries.last())));
    }
    assert(files_matched_in(rules, dir, entries) =~= entries.filter(kept).map_values(shown));
}

/// The marks among matches.
proof fn marks_are_filtered(found: Seq<PathMatchView>)
    ensures
        marked_among(found) == found.filter(
            |one: PathMatchView| one.matched.action.set_dropbox_ignore,
        ).map_values(|one: PathMatchView| one.path),
    decreases found.len(),
{
    reveal(Seq::filter);
    let kept = |one: PathMatchView| one.matched.action.set_dropbox_ignore;
    let shown = |one: PathMatchView| one.path;
    if found.len() > 0 {
        let fewer = found.drop_last();
        marks_are_filtered(fewer);
        assert(fewer.filter(kept).push(found.last()).map_values(shown) =~= fewer.filter(
            kept,
        ).map_values(shown).push(shown(found.last())));
    }
    assert(marked_among(found) =~= found.filter(kept).map_values(shown));
}

/// What a walk reports of a directory that it visits is what the rules say of it,
/// whether it is marked or only kept out of, and of a listing every match, marked or
/// not. What could not be read is not reported.
pub proof fn walk_reports_every_match(
    walk: WalkView,
    rules: Seq<RuleView>,
    seen: Option<InspectionView>,
    listed: Option<Seq<EntryView>>,
)
    ensures
        walk.inspected_verdict(rules, seen) == (if walk.listing is None && walk.stack.len() > 0
            && seen is Some {
            engine::verdict(
                rules,
                CandidateView {
                    path: walk.stack.last(),
                    file_type: (seen->0).file_type,
                    siblings: (seen->0).siblings,
                },
            )
        } else {
            None
        }),
        walk.listing is Some && listed is Some ==> forall|entry: EntryView| #[trigger]
            (listed->0).contains(entry) && entry.file_type == Some(FileType::Other) ==> {
                let path = (walk.listing->0).join(entry.name);
                let verdict = engine::verdict(
                    rules,
                    CandidateView {
                        path,
                        file_type: FileType::Other,
                        siblings: entry.siblings,
                    },
                );
                verdict is Some ==> walk.listed_matches(rules, listed).contains(
                    PathMatchView { path, matched: verdict->0 },
                )
            },
        walk.listing is None || listed is None ==> walk.listed_matches(rules, listed).len() == 0,
{
    if walk.listing is Some && listed is Some {
        let dir = walk.listing->0;
        assert forall|entry: EntryView| #[trigger]
            (listed->0).contains(entry) && entry.file_type == Some(FileType::Other) implies {
            let path = dir.join(entry.name);
            let verdict = engine::verdict(
                rules,
                CandidateView { path, file_type: FileType::Other, siblings: entry.siblings },
            );
            verdict is Some ==> walk.listed_matches(rules, listed).contains(
                PathMatchView { path, matched: verdict->0 },
            )
        } by {
            let k = choose|k: int| 0 <= k < (listed->0).len() && (listed->0)[k] == entry;
            if engine::verdict(rules, entry_candidate(dir, entry)) is Some {
                match_is_found(rules, dir, listed->0, k);
            }
        }
    }
}

/// A match of a listing is among its matches.
proof fn match_is_found(rules: Seq<RuleView>, dir: PathView, entries: Seq<EntryView>, k: int)
    requires
        0 <= k < entries.len(),
        entries[k].file_type == Some(FileType::Other),
        engine::verdict(rules, entry_candidate(dir, entries[k])) is Some,
    ensures
        files_matched_in(rules, dir, entries).contains(
            PathMatchView {
                path: dir.join(entries[k].name),
                matched: engine::verdict(rules, entry_candidate(dir, entries[k]))->0,
            },
        ),
    decreases entries.len(),
{
    let fewer = entries.drop_last();
    let before = files_matched_in(rules, dir, fewer);
    let one = PathMatchView {
        path: dir.join(entries[k].name),
        matched: engine::verdict(rules, entry_candidate(dir, entries[k]))->0,
    };
    if k == entries.len() - 1 {
        assert(before.push(one)[before.len() as int] == one);
    } else {
        assert(fewer[k] == entries[k]);
        match_is_found(rules, dir, fewer, k);
        let at = choose|at: int| 0 <= at < before.len() && before[at] == one;
        assert(files_matched_in(rules, dir, entries)[at] == one);
    }
}

/// Lists of paths, entries and matches are seen in order, each for what it is.
pub proof fn lists_are_seen_in_order(
    paths: Seq<TreePath>,
    entries: Seq<ListedEntry>,
    found: Seq<PathMatch>,
)
    ensures
        path_views(paths).len() == paths.len(),
        forall|i: int| 0 <= i < paths.len() ==> #[trigger] path_views(paths)[i] == paths[i]@,
        entry_views(entries).len() == entries.len(),
        forall|i: int|
            0 <= i < entries.len() ==> {
                let seen = #[trigger] entry_views(entries)[i];
                &&& seen.name == entries[i].name@
                &&& seen.file_type == entries[i].file_type
                &&& forall|name: Seq<u8>| #[trigger]
                    seen.siblings.contains(name) <==> exists|k: int|
                        0 <= k < entries[i].siblings.len() && (
                        #[trigger] entries[i].siblings[k])@ == name
            },
        match_views(found).len() == found.len(),
        forall|i: int|
            0 <= i < found.len() ==> (#[trigger] match_views(found)[i]).path == found[i].path@
                && match_views(found)[i].matched == found[i].matched@,
{
    assert forall|i: int, name: Seq<u8>|
        0 <= i < entries.len() implies (#[trigger] entry_views(entries)[i].siblings.contains(name)
        <==> exists|k: int|
        0 <= k < entries[i].siblings.len() && (#[trigger] entries[i].siblings[k])@ == name) by {
        names_are_seen(entries[i].siblings@, name);
    }
}

/// What is reported of a path, or of a directory, is seen for what it is, whatever it
/// is, and nothing is seen where nothing is reported.
pub proof fn reports_are_seen_as_given(
    seen: Option<Inspection>,
    listed: Option<Vec<ListedEntry>>,
    found: DiscoveredPaths,
)
    ensures
        inspection_view(seen) is Some <==> seen is Some,
        seen is Some ==> {
            let view = inspection_view(seen)->0;
            &&& view.file_type == (seen->0).file_type
            &&& forall|name: Seq<u8>| #[trigger]
                view.siblings.contains(name) <==> exists|k: int|
                    0 <= k < (seen->0).siblings.len() && (#[trigger] (seen->0).siblings[k])@ == name
        },
        listing_view(listed) is Some <==> listed is Some,
        listed is Some ==> (listing_view(listed)->0).len() == (listed->0).len(),
        listed is Some ==> forall|i: int|
            0 <= i < (listed->0).len() ==> #[trigger] (listing_view(listed)->0)[i]
                == (listed->0)[i]@,
        found@.watchers == path_views(found.watchers@),
        found@.matches == path_views(found.matches@),
{
    if let Some(inspection) = seen {
        assert forall|name: Seq<u8>| #[trigger]
            (inspection_view(seen)->0).siblings.contains(name) <==> exists|k: int|
                0 <= k < inspection.siblings.len() && (#[trigger] inspection.siblings[k])@
                    == name by {
            names_are_seen(inspection.siblings@, name);
        }
    }
}

/// A name is seen among names exactly when it is one of them.
pub proof fn names_are_seen(names: Seq<Vec<u8>>, name: Seq<u8>)
    ensures
        text::byte_names(names).to_set().contains(name) <==> exists|k: int|
            0 <= k < names.len() && (#[trigger] names[k])@ == name,
{
    let seen = text::byte_names(names);
    if seen.to_set().contains(name) {
        let k = choose|k: int| 0 <= k < seen.len() && seen[k] == name;
        assert(names[k]@ == name);
    }
    if exists|k: int| 0 <= k < names.len() && (#[trigger] names[k])@ == name {
        let k = choose|k: int| 0 <= k < names.len() && (#[trigger] names[k])@ == name;
        assert(seen[k] == name);
        assert(seen.contains(name));
    }
}

/// Every look brings a walk further. A directory that was inspected is visited: it
/// joins the matches if a rule marks it, and unless a rule keeps out of it, it joins
/// the directories to watch, where those are collected, and is listed next. One that
/// was listed leads to its directories, and those of its other entries, symlinks
/// aside, join the matches that a rule marks. What could not be read adds nothing.
/// What was found before stays where it was, nothing that is still to be visited gets
/// lost, and a look that was not asked for changes nothing.
pub proof fn looks_bring_the_walk_further(
    walk: WalkView,
    rules: Seq<RuleView>,
    seen: Option<InspectionView>,
    listed: Option<Seq<EntryView>>,
)
    ensures
        ({
            let next = walk.inspected(rules, seen);
            if walk.listing is None && walk.stack.len() > 0 {
                let dir = walk.stack.last();
                let candidate = CandidateView {
                    path: dir,
                    file_type: (seen->0).file_type,
                    siblings: (seen->0).siblings,
                };
                let marked = seen is Some && targets::is_marked(rules, candidate);
                let entered = seen is Some && !targets::is_closed(rules, candidate);
                &&& next.stack.push(dir) == walk.stack
                &&& next.listing == (if entered {
                    Some(dir)
                } else {
                    None
                })
                &&& next.found.matches == (if marked {
                    walk.found.matches.push(dir)
                } else {
                    walk.found.matches
                })
                &&& next.found.watchers == (if entered && walk.collect_watchers {
                    walk.found.watchers.push(dir)
                } else {
                    walk.found.watchers
                })
                &&& next.collect_watchers == walk.collect_watchers
            } else {
                next == walk
            }
        }),
        ({
            let next = walk.listed(rules, listed);
            if walk.listing is Some {
                let dir = walk.listing->0;
                &&& next.listing is None
                &&& next.found.watchers == walk.found.watchers
                &&& next.collect_watchers == walk.collect_watchers
                &&& listed is None ==> next.stack == walk.stack && next.found == walk.found
                &&& listed is Some ==> next.stack == walk.stack + (listed->0).filter(
                    |entry: EntryView| entry.file_type == Some(FileType::Directory),
                ).map_values(|entry: EntryView| dir.join(entry.name))
                &&& listed is Some ==> next.found.matches == walk.found.matches + (
                listed->0).filter(
                    |entry: EntryView|
                        entry.file_type == Some(FileType::Other) && targets::is_marked(
                            rules,
                            CandidateView {
                                path: dir.join(entry.name),
                                file_type: FileType::Other,
                                siblings: entry.siblings,
                            },
                        ),
                ).map_values(|entry: EntryView| dir.join(entry.name))
            } else {
                next == walk
            }
        }),
{
    if walk.listing is None && walk.stack.len() > 0 {
        assert(walk.stack.drop_last().push(walk.stack.last()) =~= walk.stack);
        if let Some(inspection) = seen {
            targets::first_match_says_it(rules, inspection.candidate(walk.stack.last()));
        }
    }
    if walk.listing is Some && listed is Some {
        directories_are_filtered(walk.listing->0, listed->0);
        marked_files_are_filtered(rules, walk.listing->0, listed->0);
    }
}

/// The files of a listing that are marked.
proof fn marked_files_are_filtered(rules: Seq<RuleView>, dir: PathView, entries: Seq<EntryView>)
    ensures
        marked_among(files_matched_in(rules, dir, entries)) == entries.filter(
            |entry: EntryView|
                entry.file_type == Some(FileType::Other) && targets::is_marked(
                    rules,
                    CandidateView {
                        path: dir.join(entry.name),
                        file_type: FileType::Other,
                        siblings: entry.siblings,
                    },
                ),
        ).map_values(|entry: EntryView| dir.join(entry.name)),
    decreases entries.len(),
{
    reveal(Seq::filter);
    let kept = |entry: EntryView|
        entry.file_type == Some(FileType::Other) && targets::is_marked(
            rules,
            CandidateView {
                path: dir.join(entry.name),
                file_type: FileType::Other,
                siblings: entry.siblings,
            },
        );
    let shown = |entry: EntryView| dir.join(entry.name);
    let found = files_matched_in(rules, dir, entries);
    if entries.len() > 0 {
        let fewer = entries.drop_last();
        let last = entries.last();
        let before = files_matched_in(rules, dir, fewer);
        marked_files_are_filtered(rules, dir, fewer);
        targets::first_match_says_it(rules, entry_candidate(dir, last));
        assert(fewer.filter(kept).push(last).map_values(shown) =~= fewer.filter(
            kept,
        ).map_values(shown).push(shown(last)));
        if found != before {
            assert(found.drop_last() =~= before);
        }
    }
    assert(marked_among(found) =~= entries.filter(kept).map_values(shown));
}

} // verus!

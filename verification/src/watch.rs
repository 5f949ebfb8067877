//! Bookkeeping for inotify watches.

use crate::error;
use crate::error::Failure;
use crate::kernel;
use crate::path;
use crate::path::{PathView, TreePath};
use crate::sequence;
use crate::text;
use std::collections::HashMap;
use vstd::hash_map::StringHashMap;
use vstd::prelude::*;

verus! {

/// The watched directories as a mathematical value: which descriptor each
/// watched path has, and which path each descriptor stands for.
#[verifier::ext_equal]
pub struct RegistryView {
    pub by_path: Map<PathView, i32>,
    pub by_descriptor: Map<i32, PathView>,
}

impl RegistryView {
    /// Nothing is watched.
    pub open spec fn empty() -> RegistryView {
        RegistryView { by_path: Map::empty(), by_descriptor: Map::empty() }
    }

    /// True when `path` is watched.
    pub open spec fn contains_path(self, path: PathView) -> bool {
        self.by_path.contains_key(path)
    }

    /// The registry after `path` was given `descriptor`. The kernel reuses the
    /// descriptor of a watched directory that was renamed and is watched again,
    /// so another path that had it is dropped.
    pub open spec fn insert(self, path: PathView, descriptor: i32) -> RegistryView {
        let kept = if self.by_descriptor.contains_key(descriptor)
            && self.by_descriptor[descriptor] != path {
            self.by_path.remove(self.by_descriptor[descriptor])
        } else {
            self.by_path
        };
        RegistryView {
            by_path: kept.insert(path, descriptor),
            by_descriptor: self.by_descriptor.insert(descriptor, path),
        }
    }

    /// The registry without `descriptor` and the path it stands for.
    pub open spec fn remove_by_descriptor(self, descriptor: i32) -> RegistryView {
        if self.by_descriptor.contains_key(descriptor) {
            RegistryView {
                by_path: self.by_path.remove(self.by_descriptor[descriptor]),
                by_descriptor: self.by_descriptor.remove(descriptor),
            }
        } else {
            self
        }
    }

    /// True when `path` is watched and is `prefix` or lies below it.
    pub open spec fn watched_under(self, prefix: PathView, path: PathView) -> bool {
        self.contains_path(path) && path.starts_with(prefix)
    }

    /// The descriptors of the watched paths at or below `prefix`.
    pub open spec fn descriptors_under(self, prefix: PathView) -> Set<i32> {
        Set::new(
            |descriptor: i32|
                exists|path: PathView| #[trigger]
                    self.watched_under(prefix, path) && self.by_path[path] == descriptor,
        )
    }

    /// The registry without the watched paths at or below `prefix`.
    pub open spec fn without_subtree(self, prefix: PathView) -> RegistryView {
        RegistryView {
            by_path: self.by_path.remove_keys(
                Set::new(|path: PathView| self.watched_under(prefix, path)),
            ),
            by_descriptor: self.by_descriptor.remove_keys(self.descriptors_under(prefix)),
        }
    }

    /// The descriptor of every watched path stands for that path.
    pub open spec fn consistent(self) -> bool {
        forall|path: PathView| #[trigger]
            self.by_path.contains_key(path) ==> self.by_descriptor.contains_key(self.by_path[path])
                && self.by_descriptor[self.by_path[path]] == path
    }

    /// The two maps are inverse to each other.
    pub open spec fn inverse(self) -> bool {
        &&& self.consistent()
        &&& forall|descriptor: i32| #[trigger]
            self.by_descriptor.contains_key(descriptor) ==> self.by_path.contains_key(
                self.by_descriptor[descriptor],
            ) && self.by_path[self.by_descriptor[descriptor]] == descriptor
    }
}

/// The text under which a path is filed.
spec fn key(path: PathView) -> Seq<char> {
    text::widened(path.bytes())
}

/// Different paths are filed under different texts.
proof fn keys_are_distinct(left: PathView, right: PathView)
    requires
        left.valid(),
        right.valid(),
        key(left) == key(right),
    ensures
        left == right,
{
    text::widening_is_injective(left.bytes(), right.bytes());
    path::spelling_reads_back(left);
    path::spelling_reads_back(right);
}

/// The text under which `path` is filed.
fn key_of(path: &TreePath) -> (text: String)
    ensures
        text@ == key(path@),
        path@.valid(),
{
    let bytes = path.shortest_spelling();
    proof {
        path::spelled_paths_are_valid(bytes@);
    }
    text::widen(bytes.as_slice())
}

/// The two maps behind a registry.
struct Maps {
    by_descriptor: HashMap<i32, TreePath>,
    by_path: StringHashMap<i32>,
}

impl View for Maps {
    type V = RegistryView;

    closed spec fn view(&self) -> RegistryView {
        RegistryView {
            by_path: Map::new(
                |path: PathView| path.valid() && self.by_path@.contains_key(key(path)),
                |path: PathView| self.by_path@[key(path)],
            ),
            by_descriptor: self.by_descriptor@.map_values(|path: TreePath| path@),
        }
    }
}

impl Maps {
    /// Every filed descriptor stands for the path that it is filed under.
    spec fn well_formed(self) -> bool {
        &&& forall|text: Seq<char>| #[trigger]
            self.by_path@.contains_key(text) ==> {
                let descriptor = self.by_path@[text];
                self.by_descriptor@.contains_key(descriptor) && key(
                    self.by_descriptor@[descriptor]@,
                ) == text
            }
        &&& forall|descriptor: i32| #[trigger]
            self.by_descriptor@.contains_key(descriptor)
                ==> self.by_descriptor@[descriptor]@.valid()
    }

    proof fn is_consistent(self)
        requires
            self.well_formed(),
        ensures
            self@.consistent(),
    {
        assert forall|path: PathView| #[trigger]
            self@.by_path.contains_key(path) implies self@.by_descriptor.contains_key(
            self@.by_path[path],
        ) && self@.by_descriptor[self@.by_path[path]] == path by {
            let descriptor = self.by_path@[key(path)];
            assert(self.by_path@.contains_key(key(path)));
            keys_are_distinct(path, self.by_descriptor@[descriptor]@);
        }
    }

    fn empty() -> (maps: Maps)
        ensures
            maps.well_formed(),
            maps@ == RegistryView::empty(),
    {
        let maps = Maps { by_descriptor: HashMap::new(), by_path: StringHashMap::new() };
        assert(maps@ =~= RegistryView::empty());
        maps
    }

    fn insert(&mut self, path: TreePath, descriptor: i32)
        requires
            old(self).well_formed(),
        ensures
            final(self).well_formed(),
            final(self)@ == old(self)@.insert(path@, descriptor),
            final(self).by_descriptor@ == old(self).by_descriptor@.insert(descriptor, path),
    {
        let ghost before = *self;
        let ghost shown = path@;
        proof {
            self.is_consistent();
        }
        let text = key_of(&path);
        let stale = match self.by_descriptor.get(&descriptor) {
            Some(known) => {
                if known.same_as(&path) {
                    None
                } else {
                    Some(key_of(known))
                }
            },
            None => None,
        };
        if let Some(stale) = stale {
            self.by_path.remove(stale.as_str());
        }
        let ghost kept = self.by_path@;
        let ghost filed = text@;
        self.by_path.insert(text, descriptor);
        self.by_descriptor.insert(descriptor, path);
        proof {
            let wanted = before@.insert(shown, descriptor);
            assert(self.by_descriptor@ == before.by_descriptor@.insert(descriptor, path));
            assert(self@.by_descriptor =~= wanted.by_descriptor);
            assert forall|p: PathView| #[trigger]
                self@.by_path.contains_key(p) <==> wanted.by_path.contains_key(p) by {
                if p.valid() && key(p) == filed {
                    keys_are_distinct(p, shown);
                }
                if before.by_descriptor@.contains_key(descriptor) {
                    let known = before.by_descriptor@[descriptor]@;
                    if p.valid() && key(p) == key(known) {
                        keys_are_distinct(p, known);
                    }
                }
            }
            assert forall|p: PathView| #[trigger]
                self@.by_path.contains_key(p) implies self@.by_path[p] == wanted.by_path[p] by {
                if key(p) == filed {
                    keys_are_distinct(p, shown);
                }
            }
            assert(self@.by_path =~= wanted.by_path);
            assert forall|t: Seq<char>| #[trigger] self.by_path@.contains_key(t) implies {
                let d = self.by_path@[t];
                self.by_descriptor@.contains_key(d) && key(self.by_descriptor@[d]@) == t
            } by {
                if t != filed {
                    assert(before.by_path@.contains_key(t));
                    if before.by_path@[t] == descriptor {
                        assert(key(before.by_descriptor@[descriptor]@) == t);
                    }
                }
            }
        }
    }

    fn remove_by_descriptor(&mut self, descriptor: i32)
        requires
            old(self).well_formed(),
        ensures
            final(self).well_formed(),
            final(self)@ == old(self)@.remove_by_descriptor(descriptor),
            final(self).by_descriptor@ == old(self).by_descriptor@.remove(descriptor),
    {
        let ghost before = *self;
        match self.by_descriptor.remove(&descriptor) {
            Some(path) => {
                let text = key_of(&path);
                self.by_path.remove(text.as_str());
                proof {
                    let wanted = before@.remove_by_descriptor(descriptor);
                    assert(self@.by_descriptor =~= wanted.by_descriptor);
                    assert forall|p: PathView| #[trigger]
                        self@.by_path.contains_key(p) <==> wanted.by_path.contains_key(p) by {
                        if p.valid() && key(p) == text@ {
                            keys_are_distinct(p, path@);
                        }
                    }
                    assert(self@.by_path =~= wanted.by_path);
                    assert forall|t: Seq<char>| #[trigger] self.by_path@.contains_key(t) implies {
                        let d = self.by_path@[t];
                        self.by_descriptor@.contains_key(d) && key(self.by_descriptor@[d]@) == t
                    } by {
                        assert(before.by_path@.contains_key(t));
                    }
                }
            },
            None => {},
        }
    }

    /// True when `descriptor` is the one under which a path at or below
    /// `prefix` is watched.
    spec fn is_under(self, prefix: PathView, descriptor: i32) -> bool {
        &&& self.by_descriptor@.contains_key(descriptor)
        &&& self.by_descriptor@[descriptor]@.starts_with(prefix)
        &&& self.by_path@.contains_key(key(self.by_descriptor@[descriptor]@))
        &&& self.by_path@[key(self.by_descriptor@[descriptor]@)] == descriptor
    }

    fn descriptors_under(&self, prefix: &TreePath) -> (found: Vec<i32>)
        ensures
            found@.no_duplicates(),
            forall|descriptor: i32| #[trigger]
                found@.contains(descriptor) <==> self.is_under(prefix@, descriptor),
    {
        let mut found: Vec<i32> = Vec::new();
        for descriptor in iter: self.by_descriptor.keys()
            invariant
                iter.seq().no_duplicates(),
                iter.seq().unref().to_set() == self.by_descriptor@.dom(),
                found@.no_duplicates(),
                forall|d: i32| #[trigger]
                    found@.contains(d) <==> self.is_under(prefix@, d) && iter.seq().unref().take(
                        iter.index() as int,
                    ).contains(d),
                iter.index() == iter.seq().len() ==> forall|d: i32| #[trigger]
                    found@.contains(d) <==> self.is_under(prefix@, d),
        {
            let ghost before = found@;
            let ghost all = iter.seq().unref();
            let ghost at = iter.index() as int;
            let chosen = match self.by_descriptor.get(descriptor) {
                Some(path) => path.starts_with(prefix) && match self.by_path.get(
                    key_of(path).as_str(),
                ) {
                    Some(filed) => *filed == *descriptor,
                    None => false,
                },
                None => false,
            };
            proof {
                assert(all[at] == *descriptor);
                assert(all.take(at + 1) =~= all.take(at).push(*descriptor));
                assert(!all.take(at).contains(*descriptor));
                assert(all.to_set().contains(*descriptor));
                sequence::contains_after_push(all.take(at), *descriptor);
                sequence::contains_after_push(found@, *descriptor);
            }
            if chosen {
                found.push(*descriptor);
                assert(forall|k: int| 0 <= k < before.len() ==> before.contains(#[trigger] before[k]));
            }
            proof {
                assert(at + 1 == all.len() ==> all.take(at + 1) =~= all);
                assert forall|d: i32| self.is_under(prefix@, d) implies #[trigger] all.contains(
                    d,
                ) by {
                    assert(all.to_set().contains(d));
                }
            }
        }
        found
    }

    fn drain_subtree(&mut self, prefix: &TreePath) -> (descriptors: Vec<i32>)
        requires
            old(self).well_formed(),
        ensures
            final(self).well_formed(),
            final(self)@ == old(self)@.without_subtree(prefix@),
            descriptors@.no_duplicates(),
            descriptors@.to_set() == old(self)@.descriptors_under(prefix@),
            final(self).by_descriptor@ == old(self).by_descriptor@.remove_keys(
                old(self)@.descriptors_under(prefix@),
            ),
    {
        let ghost before = *self;
        let found = self.descriptors_under(prefix);
        proof {
            self.is_consistent();
        }
        let mut i: usize = 0;
        while i < found.len()
            invariant
                i <= found@.len(),
                self.well_formed(),
                before@.consistent(),
                found@.no_duplicates(),
                forall|d: i32| #[trigger] found@.contains(d) <==> before.is_under(prefix@, d),
                forall|d: i32| #[trigger]
                    self@.by_descriptor.contains_key(d) <==> before@.by_descriptor.contains_key(d)
                        && !found@.take(i as int).contains(d),
                forall|d: i32| #[trigger]
                    self@.by_descriptor.contains_key(d) ==> self@.by_descriptor[d]
                        == before@.by_descriptor[d],
                forall|p: PathView| #[trigger]
                    self@.by_path.contains_key(p) <==> before@.by_path.contains_key(p)
                        && !found@.take(i as int).contains(before@.by_path[p]),
                forall|p: PathView| #[trigger]
                    self@.by_path.contains_key(p) ==> self@.by_path[p] == before@.by_path[p],
                forall|d: i32| #[trigger]
                    self.by_descriptor@.contains_key(d) ==> self.by_descriptor@[d]
                        == before.by_descriptor@[d],
            decreases found@.len() - i,
        {
            let descriptor = found[i];
            let ghost middle = self@;
            proof {
                assert(found@.contains(descriptor));
                assert(found@.take(i + 1) =~= found@.take(i as int).push(descriptor));
                assert(!found@.take(i as int).contains(descriptor));
                sequence::contains_after_push(found@.take(i as int), descriptor);
                assert(middle.by_descriptor.contains_key(descriptor));
            }
            self.remove_by_descriptor(descriptor);
            proof {
                let gone = before@.by_descriptor[descriptor];
                assert forall|p: PathView| #[trigger]
                    self@.by_path.contains_key(p) <==> before@.by_path.contains_key(p)
                        && !found@.take(i + 1).contains(before@.by_path[p]) by {
                    assert(middle.by_path.contains_key(p) <==> before@.by_path.contains_key(p)
                        && !found@.take(i as int).contains(before@.by_path[p]));
                    if p == gone {
                        assert(before@.by_path[p] == descriptor);
                    }
                }
            }
            i = i + 1;
        }
        proof {
            let wanted = before@.without_subtree(prefix@);
            assert(found@.take(found@.len() as int) =~= found@);
            assert forall|p: PathView| before@.by_path.contains_key(p) implies (found@.contains(
                #[trigger] before@.by_path[p],
            ) <==> p.starts_with(prefix@)) by {
                assert(before@.by_descriptor[before@.by_path[p]] == p);
            }
            assert forall|d: i32| #[trigger] found@.contains(d) <==> before@.descriptors_under(
                prefix@,
            ).contains(d) by {
                if found@.contains(d) {
                    let p = before@.by_descriptor[d];
                    assert(before@.watched_under(prefix@, p) && before@.by_path[p] == d);
                }
            }
            assert(self@.by_path =~= wanted.by_path);
            assert(self@.by_descriptor =~= wanted.by_descriptor);
            assert(found@.to_set() =~= before@.descriptors_under(prefix@));
            assert forall|d: i32| #[trigger]
                self.by_descriptor@.contains_key(d) <==> before.by_descriptor@.contains_key(d)
                    && !found@.contains(d) by {
                assert(self@.by_descriptor.contains_key(d) <==> self.by_descriptor@.contains_key(
                    d,
                ));
                assert(before@.by_descriptor.contains_key(d)
                    <==> before.by_descriptor@.contains_key(d));
            }
            assert(self.by_descriptor@ =~= before.by_descriptor@.remove_keys(
                before@.descriptors_under(prefix@),
            ));
        }
        found
    }

    fn count(&self) -> (count: usize)
        requires
            self.well_formed(),
        ensures
            count == self@.by_path.len(),
    {
        proof {
            self.is_consistent();
            let paths = self@.by_path.dom();
            let descriptors = self.by_descriptor@.dom();
            let named = |descriptor: i32| self.by_descriptor@[descriptor]@;
            let filed = |path: PathView| key(path);
            descriptors.lemma_map_finite(named);
            assert forall|path: PathView| #[trigger] paths.contains(path) implies descriptors.map(
                named,
            ).contains(path) by {
                assert(self@.by_path.contains_key(path));
                let descriptor = self@.by_path[path];
                assert(descriptors.contains(descriptor) && named(descriptor) == path);
            }
            vstd::set_lib::lemma_set_subset_finite(descriptors.map(named), paths);
            assert forall|left: PathView, right: PathView|
                paths.contains(left) && paths.contains(right) && #[trigger] filed(left)
                    == #[trigger] filed(right) implies left == right by {
                keys_are_distinct(left, right);
            }
            assert forall|text: Seq<char>| #[trigger]
                self.by_path@.dom().contains(text) implies paths.map(filed).contains(text) by {
                assert(self.by_path@.contains_key(text));
                let path = self.by_descriptor@[self.by_path@[text]]@;
                assert(paths.contains(path) && filed(path) == text);
            }
            assert(paths.map(filed) =~= self.by_path@.dom());
            vstd::set_lib::lemma_map_size(paths, self.by_path@.dom(), filed);
        }
        self.by_path.len()
    }
}

/// Bookkeeping for inotify watch descriptors and their corresponding paths.
pub struct WatchRegistry {
    maps: Maps,
}

impl View for WatchRegistry {
    type V = RegistryView;

    closed spec fn view(&self) -> RegistryView {
        self.maps@
    }
}

impl WatchRegistry {
    #[verifier::type_invariant]
    closed spec fn well_formed(self) -> bool {
        self.maps.well_formed()
    }

    /// How the path of each descriptor is spelled.
    pub closed spec fn spellings(&self) -> Map<i32, Seq<u8>> {
        self.maps.by_descriptor@.map_values(|path: TreePath| path.spelling())
    }

    /// True when every path is spelled by joining names to `base`.
    pub open spec fn spelled_from(&self, base: Seq<u8>) -> bool {
        forall|descriptor: i32| #[trigger]
            self@.by_descriptor.contains_key(descriptor) ==> self.spellings().contains_key(
                descriptor,
            ) && self.spellings()[descriptor] == path::respelled(
                base,
                self@.by_descriptor[descriptor],
            )
    }

    /// A registry in which nothing is watched.
    pub fn new() -> (registry: WatchRegistry)
        ensures
            registry@ == RegistryView::empty(),
            registry.spellings() == Map::<i32, Seq<u8>>::empty(),
    {
        let registry = WatchRegistry { maps: Maps::empty() };
        proof {
            let known = registry.maps.by_descriptor@;
            assert(registry@.by_descriptor.dom() =~= known.dom());
            assert(registry.spellings() =~= Map::<i32, Seq<u8>>::empty());
        }
        registry
    }

    /// Records that `path` is watched under `descriptor`. A different path that
    /// was watched under it before is dropped, so it cannot linger.
    pub fn insert(&mut self, path: TreePath, descriptor: i32)
        ensures
            final(self)@ == old(self)@.insert(path@, descriptor),
            final(self).spellings() == old(self).spellings().insert(descriptor, path.spelling()),
            final(self)@.consistent(),
    {
        proof {
            use_type_invariant(&*self);
        }
        let mut maps = Maps::empty();
        std::mem::swap(&mut maps, &mut self.maps);
        maps.insert(path, descriptor);
        proof {
            maps.is_consistent();
        }
        self.maps = maps;
        assert(self.spellings() =~= old(self).spellings().insert(descriptor, path.spelling()));
    }

    /// Forgets `descriptor` and the path it stands for.
    pub fn remove_by_descriptor(&mut self, descriptor: i32)
        ensures
            final(self)@ == old(self)@.remove_by_descriptor(descriptor),
            final(self).spellings() == old(self).spellings().remove(descriptor),
            final(self)@.consistent(),
    {
        proof {
            use_type_invariant(&*self);
        }
        let mut maps = Maps::empty();
        std::mem::swap(&mut maps, &mut self.maps);
        maps.remove_by_descriptor(descriptor);
        proof {
            maps.is_consistent();
        }
        self.maps = maps;
        assert(self.spellings() =~= old(self).spellings().remove(descriptor));
    }

    /// Forgets every watched path at or under `prefix` (inclusive) and returns
    /// their descriptors, each once, in no particular order. Paths are compared
    /// by whole components, so `/a/bc` is not under `/a/b`.
    pub fn drain_subtree(&mut self, prefix: &TreePath) -> (descriptors: Vec<i32>)
        ensures
            final(self)@ == old(self)@.without_subtree(prefix@),
            final(self)@.consistent(),
            descriptors@.no_duplicates(),
            descriptors@.to_set() == old(self)@.descriptors_under(prefix@),
            final(self).spellings() == old(self).spellings().remove_keys(
                old(self)@.descriptors_under(prefix@),
            ),
    {
        proof {
            use_type_invariant(&*self);
        }
        let mut maps = Maps::empty();
        std::mem::swap(&mut maps, &mut self.maps);
        let descriptors = maps.drain_subtree(prefix);
        proof {
            maps.is_consistent();
        }
        self.maps = maps;
        assert(self.spellings() =~= old(self).spellings().remove_keys(
            old(self)@.descriptors_under(prefix@),
        ));
        descriptors
    }

    /// The path that `descriptor` stands for.
    pub fn path_for(&self, descriptor: i32) -> (path: Option<&TreePath>)
        ensures
            match path {
                Some(found) => self@.by_descriptor.contains_key(descriptor)
                    && self@.by_descriptor[descriptor] == found@ && found.spelling()
                    == self.spellings()[descriptor],
                None => !self@.by_descriptor.contains_key(descriptor),
            },
    {
        self.maps.by_descriptor.get(&descriptor)
    }

    /// True when `path` is watched.
    pub fn contains_path(&self, path: &TreePath) -> (result: bool)
        ensures
            result == self@.contains_path(path@),
            self@.consistent(),
    {
        proof {
            use_type_invariant(self);
            self.maps.is_consistent();
        }
        self.maps.by_path.contains_key(key_of(path).as_str())
    }

    /// How many paths are watched.
    pub fn watched_count(&self) -> (count: usize)
        ensures
            count == self@.by_path.len(),
    {
        proof {
            use_type_invariant(self);
        }
        self.maps.count()
    }
}

impl Default for WatchRegistry {
    fn default() -> (registry: Self)
        ensures
            registry@ == RegistryView::empty(),
            registry.spellings() == Map::<i32, Seq<u8>>::empty(),
    {
        WatchRegistry::new()
    }
}

/// The mask with which every directory is watched.
pub open spec fn watched_events() -> u32 {
    kernel::in_create() | kernel::in_moved_to() | kernel::in_delete_self() | kernel::in_move_self()
        | kernel::in_only_dir()
}

/// Compute the inotify mask used for every watched directory.
pub fn watch_mask() -> (mask: u32)
    ensures
        mask == watched_events(),
{
    kernel::watch_create() | kernel::watch_moved_to() | kernel::watch_delete_self()
        | kernel::watch_move_self() | kernel::watch_only_dir()
}

/// Every event that the program reacts to is asked for, and only directories
/// are watched.
pub proof fn watched_events_cover_what_is_handled()
    ensures
        kernel::has_flag(watched_events(), kernel::in_create()),
        kernel::has_flag(watched_events(), kernel::in_moved_to()),
        kernel::has_flag(watched_events(), kernel::in_delete_self()),
        kernel::has_flag(watched_events(), kernel::in_move_self()),
        kernel::has_flag(watched_events(), kernel::in_only_dir()),
{
    assert(watched_events() & kernel::in_create() == kernel::in_create()) by (bit_vector);
    assert(watched_events() & kernel::in_moved_to() == kernel::in_moved_to()) by (bit_vector);
    assert(watched_events() & kernel::in_delete_self() == kernel::in_delete_self()) by (bit_vector);
    assert(watched_events() & kernel::in_move_self() == kernel::in_move_self()) by (bit_vector);
    assert(watched_events() & kernel::in_only_dir() == kernel::in_only_dir()) by (bit_vector);
}

/// Build the error context for a directory that could not be watched. When the
/// kernel reports ENOSPC the real cause is usually the inotify watch limit, so
/// point the user at the tunable rather than leaving a bare "No space left on
/// device".
pub fn watch_error_context(path: &TreePath, os_error: Option<i32>) -> (message: String)
    ensures
        message@ == error::watch_failure_text(path.text(), os_error == Some(kernel::no_space())),
        text::shows(path.spelling(), path.text()),
{
    error::watch_failure_message(path, is_watch_limit(os_error))
}

/// True for the error code of a full watch table.
fn is_watch_limit(os_error: Option<i32>) -> (result: bool)
    ensures
        result == (os_error == Some(kernel::no_space())),
{
    match os_error {
        Some(code) => code == kernel::enospc(),
        None => false,
    }
}

/// What the kernel answered to a request to watch a directory.
#[derive(Clone, Copy, Debug, PartialEq, Eq, Structural)]
pub enum WatchReply {
    /// The directory is watched under this descriptor.
    Watching(i32),
    /// The request failed, with this error code if there is one.
    Refused(Option<i32>),
}

/// What became of a directory that was to be watched.
#[derive(Debug)]
pub enum WatchOutcome {
    /// It was watched before.
    AlreadyWatched,
    /// It is watched now.
    Watching,
    /// It is not watched; the message says so.
    Skipped(String),
}

impl WatchReply {
    /// True when the kernel refuses because the watch limit is reached.
    pub open spec fn is_watch_limit(self) -> bool {
        self == WatchReply::Refused(Some(kernel::no_space()))
    }
}

impl RegistryView {
    /// The registry after the kernel answered `reply` to a request to watch
    /// `path`.
    pub open spec fn add_watch(self, path: PathView, reply: WatchReply) -> RegistryView {
        match reply {
            WatchReply::Watching(descriptor) => if self.contains_path(path) {
                self
            } else {
                self.insert(path, descriptor)
            },
            WatchReply::Refused(_) => self,
        }
    }
}

/// Register a directory with the answer that the kernel gave, if it has not
/// already been registered.
///
/// Only ENOSPC (inotify watch limit reached) is fatal. Any other failure (the
/// directory vanished before registration, permission denied, not a directory)
/// is skipped with a warning, so one bad path cannot take down the watcher.
pub fn add_watch(registry: &mut WatchRegistry, path: &TreePath, reply: WatchReply) -> (result:
    Result<WatchOutcome, Failure>)
    ensures
        final(registry)@ == old(registry)@.add_watch(path@, reply),
        final(registry).spellings() == (match reply {
            WatchReply::Watching(descriptor) => if old(registry)@.contains_path(path@) {
                old(registry).spellings()
            } else {
                old(registry).spellings().insert(descriptor, path.spelling())
            },
            WatchReply::Refused(_) => old(registry).spellings(),
        }),
        match result {
            Ok(WatchOutcome::AlreadyWatched) => old(registry)@.contains_path(path@),
            Ok(WatchOutcome::Watching) => !old(registry)@.contains_path(path@)
                && reply is Watching,
            Ok(WatchOutcome::Skipped(message)) => !old(registry)@.contains_path(path@)
                && reply is Refused && !reply.is_watch_limit() && message@
                == error::watch_failure_text(path.text(), false) && text::shows(
                path.spelling(),
                path.text(),
            ),
            Err(Failure::WatchLimit(full)) => !old(registry)@.contains_path(path@)
                && reply.is_watch_limit() && full.is_copy_of(path),
            Err(_) => false,
        },
{
    if registry.contains_path(path) {
        return Ok(WatchOutcome::AlreadyWatched);
    }
    match reply {
        WatchReply::Watching(descriptor) => {
            registry.insert(path.clone(), descriptor);
            Ok(WatchOutcome::Watching)
        },
        WatchReply::Refused(os_error) => {
            if is_watch_limit(os_error) {
                Err(Failure::WatchLimit(path.clone()))
            } else {
                Ok(WatchOutcome::Skipped(watch_error_context(path, os_error)))
            }
        },
    }
}

/// Whatever a registry is told, the descriptor of every watched path stands for
/// that path: descriptors of different watched paths differ.
pub proof fn bookkeeping_stays_consistent(
    registry: RegistryView,
    path: PathView,
    descriptor: i32,
    prefix: PathView,
)
    requires
        registry.consistent(),
    ensures
        RegistryView::empty().consistent(),
        registry.insert(path, descriptor).consistent(),
        registry.remove_by_descriptor(descriptor).consistent(),
        registry.without_subtree(prefix).consistent(),
        forall|left: PathView, right: PathView|
            #![trigger registry.by_path[left], registry.by_path[right]]
            registry.contains_path(left) && registry.contains_path(right)
                && registry.by_path[left] == registry.by_path[right] ==> left == right,
{
    assert forall|left: PathView, right: PathView|
        #![trigger registry.by_path[left], registry.by_path[right]]
        registry.contains_path(left) && registry.contains_path(right) && registry.by_path[left]
            == registry.by_path[right] implies left == right by {
        assert(registry.by_path.contains_key(left));
        assert(registry.by_path.contains_key(right));
    }
    let drained = registry.without_subtree(prefix);
    assert forall|p: PathView| #[trigger]
        drained.by_path.contains_key(p) implies drained.by_descriptor.contains_key(
        drained.by_path[p],
    ) && drained.by_descriptor[drained.by_path[p]] == p by {
        assert(registry.by_path.contains_key(p));
        if registry.descriptors_under(prefix).contains(registry.by_path[p]) {
            let other = choose|q: PathView| #[trigger]
                registry.watched_under(prefix, q) && registry.by_path[q] == registry.by_path[p];
            assert(registry.by_path.contains_key(other));
        }
    }
}

/// Where directories are only registered as `add_watch` does it, paths and
/// descriptors are in one-to-one correspondence throughout: no entry goes stale
/// in either direction.
pub proof fn watching_keeps_maps_inverse(
    registry: RegistryView,
    path: PathView,
    reply: WatchReply,
    descriptor: i32,
    prefix: PathView,
)
    requires
        registry.inverse(),
    ensures
        RegistryView::empty().inverse(),
        registry.add_watch(path, reply).inverse(),
        registry.remove_by_descriptor(descriptor).inverse(),
        registry.without_subtree(prefix).inverse(),
{
    bookkeeping_stays_consistent(registry, path, descriptor, prefix);
    if let WatchReply::Watching(given) = reply {
        bookkeeping_stays_consistent(registry, path, given, prefix);
        let added = registry.add_watch(path, reply);
        assert forall|d: i32| #[trigger] added.by_descriptor.contains_key(d) implies {
            &&& added.by_path.contains_key(added.by_descriptor[d])
            &&& added.by_path[added.by_descriptor[d]] == d
        } by {
            if d != given {
                assert(registry.by_descriptor.contains_key(d));
            }
        }
    }
    let removed = registry.remove_by_descriptor(descriptor);
    assert forall|d: i32| #[trigger] removed.by_descriptor.contains_key(d) implies {
        &&& removed.by_path.contains_key(removed.by_descriptor[d])
        &&& removed.by_path[removed.by_descriptor[d]] == d
    } by {
        assert(registry.by_descriptor.contains_key(d));
    }
    let drained = registry.without_subtree(prefix);
    assert forall|d: i32| #[trigger] drained.by_descriptor.contains_key(d) implies {
        &&& drained.by_path.contains_key(drained.by_descriptor[d])
        &&& drained.by_path[drained.by_descriptor[d]] == d
    } by {
        assert(registry.by_descriptor.contains_key(d));
        let p = registry.by_descriptor[d];
        if registry.watched_under(prefix, p) {
            assert(registry.descriptors_under(prefix).contains(d));
        }
    }
}

/// What was inserted is found, in both directions, and a descriptor that is
/// reused for another path leaves nothing of the path that had it.
pub proof fn insert_is_found_and_evicts(registry: RegistryView, path: PathView, descriptor: i32)
    ensures
        registry.insert(path, descriptor).contains_path(path),
        registry.insert(path, descriptor).by_path[path] == descriptor,
        registry.insert(path, descriptor).by_descriptor[descriptor] == path,
        registry.by_descriptor.contains_key(descriptor) && registry.by_descriptor[descriptor]
            != path ==> !registry.insert(path, descriptor).contains_path(
            registry.by_descriptor[descriptor],
        ),
{
}

/// Draining a subtree forgets exactly the watched paths at or under it, and
/// draining a directory that every watched path lies under forgets everything.
pub proof fn drain_is_exact(registry: RegistryView, prefix: PathView, path: PathView)
    ensures
        registry.without_subtree(prefix).contains_path(path) <==> registry.contains_path(path)
            && !path.starts_with(prefix),
        (forall|p: PathView| #[trigger] registry.contains_path(p) ==> p.starts_with(prefix))
            && registry.inverse() ==> registry.without_subtree(prefix) == RegistryView::empty(),
{
    let drained = registry.without_subtree(prefix);
    if (forall|p: PathView| #[trigger] registry.contains_path(p) ==> p.starts_with(prefix))
        && registry.inverse() {
        assert forall|d: i32| registry.by_descriptor.contains_key(
            d,
        ) implies #[trigger] registry.descriptors_under(prefix).contains(d) by {
            let p = registry.by_descriptor[d];
            assert(registry.contains_path(p));
            assert(registry.watched_under(prefix, p) && registry.by_path[p] == d);
        }
        assert forall|p: PathView| !(#[trigger] drained.by_path.contains_key(p)) by {
            if registry.by_path.contains_key(p) {
                assert(registry.contains_path(p));
                assert(registry.watched_under(prefix, p));
            }
        }
        assert(drained.by_path =~= Map::empty());
        assert(drained.by_descriptor =~= Map::empty());
    }
}

/// Recording a watch changes nothing else: any other path stays as it was, unless it
/// had the descriptor before, and any other descriptor stands for what it did.
pub proof fn insert_leaves_the_rest_alone(
    registry: RegistryView,
    path: PathView,
    descriptor: i32,
    other: PathView,
    number: i32,
)
    requires
        other != path,
        number != descriptor,
    ensures
        ({
            let next = registry.insert(path, descriptor);
            let evicted = registry.by_descriptor.contains_key(descriptor)
                && registry.by_descriptor[descriptor] == other;
            &&& next.by_path.contains_key(other) <==> registry.by_path.contains_key(other)
                && !evicted
            &&& next.by_path.contains_key(other) ==> next.by_path[other]
                == registry.by_path[other]
            &&& next.by_descriptor.contains_key(number)
                <==> registry.by_descriptor.contains_key(number)
            &&& registry.by_descriptor.contains_key(number) ==> next.by_descriptor[number]
                == registry.by_descriptor[number]
        }),
{
}

/// Forgetting a descriptor forgets the path that it stands for, and nothing else.
pub proof fn removal_is_exact(
    registry: RegistryView,
    descriptor: i32,
    path: PathView,
    number: i32,
)
    ensures
        ({
            let next = registry.remove_by_descriptor(descriptor);
            let known = registry.by_descriptor.contains_key(descriptor);
            &&& next.by_path.contains_key(path) <==> registry.by_path.contains_key(path) && !(known
                && registry.by_descriptor[descriptor] == path)
            &&& next.by_path.contains_key(path) ==> next.by_path[path] == registry.by_path[path]
            &&& next.by_descriptor.contains_key(number)
                <==> registry.by_descriptor.contains_key(number) && number != descriptor
            &&& next.by_descriptor.contains_key(number) ==> next.by_descriptor[number]
                == registry.by_descriptor[number]
        }),
{
}

/// Draining a subtree gives the descriptors of exactly the paths that it forgets,
/// and what is left keeps its place in both directions.
pub proof fn drained_descriptors_are_exact(
    registry: RegistryView,
    prefix: PathView,
    path: PathView,
    number: i32,
)
    ensures
        ({
            let next = registry.without_subtree(prefix);
            let drained = exists|p: PathView| #[trigger]
                registry.by_path.contains_key(p) && p.starts_with(prefix) && registry.by_path[p]
                    == number;
            &&& registry.descriptors_under(prefix).contains(number) <==> drained
            &&& next.by_descriptor.contains_key(number)
                <==> registry.by_descriptor.contains_key(number) && !drained
            &&& next.by_descriptor.contains_key(number) ==> next.by_descriptor[number]
                == registry.by_descriptor[number]
            &&& next.by_path.contains_key(path) <==> registry.by_path.contains_key(path)
                && !path.starts_with(prefix)
            &&& next.by_path.contains_key(path) ==> next.by_path[path] == registry.by_path[path]
        }),
{
    if exists|p: PathView| #[trigger]
        registry.by_path.contains_key(p) && p.starts_with(prefix) && registry.by_path[p]
            == number {
        let p = choose|p: PathView| #[trigger]
            registry.by_path.contains_key(p) && p.starts_with(prefix) && registry.by_path[p]
                == number;
        assert(registry.watched_under(prefix, p));
    }
    if registry.descriptors_under(prefix).contains(number) {
        let p = choose|p: PathView| #[trigger]
            registry.watched_under(prefix, p) && registry.by_path[p] == number;
        assert(registry.by_path.contains_key(p));
    }
    if registry.by_path.contains_key(path) && path.starts_with(prefix) {
        assert(registry.watched_under(prefix, path));
    }
}

/// Directories are watched for exactly these: creation, moves into, and their own
/// deletion or move; and nothing but a directory is watched.
pub proof fn watched_events_are_these()
    ensures
        watched_events() == 0x0100_0d80u32,
{
    assert(0x100u32 | 0x80u32 | 0x400u32 | 0x800u32 | 0x0100_0000u32 == 0x0100_0d80u32)
        by (bit_vector);
}

} // verus!

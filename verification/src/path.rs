//! Unix paths as sequences of components.

use crate::text;
use vstd::prelude::*;

verus! {

/// The path separator.
pub const SLASH: u8 = 47;

/// The byte of the current-directory component.
pub const DOT: u8 = 46;

/// A path as a mathematical value: whether it starts at the root, and the
/// components that follow.
#[verifier::ext_equal]
pub struct PathView {
    pub absolute: bool,
    pub names: Seq<Seq<u8>>,
}

/// The component that names the directory itself.
pub open spec fn dot() -> Seq<u8> {
    seq![DOT]
}

/// The component that names the parent directory.
pub open spec fn dot_dot() -> Seq<u8> {
    seq![DOT, DOT]
}

/// The pieces of `bytes` between separators.
pub open spec fn pieces(bytes: Seq<u8>) -> Seq<Seq<u8>>
    decreases bytes.len(),
{
    if bytes.len() == 0 {
        seq![Seq::<u8>::empty()]
    } else {
        let before = pieces(bytes.drop_last());
        if bytes.last() == SLASH {
            before.push(Seq::<u8>::empty())
        } else {
            before.update(before.len() - 1, before.last().push(bytes.last()))
        }
    }
}

/// True when the piece at position `at` is a component: empty pieces (repeated
/// or trailing separators) and `.` are not, except for a leading `.` where
/// `leading_dot` lets it stand.
pub open spec fn is_component(piece: Seq<u8>, at: int, leading_dot: bool) -> bool {
    piece.len() > 0 && (piece != dot() || (leading_dot && at == 0))
}

/// The components among `pieces`, in order.
pub open spec fn components(pieces: Seq<Seq<u8>>, leading_dot: bool) -> Seq<Seq<u8>>
    decreases pieces.len(),
{
    if pieces.len() == 0 {
        Seq::empty()
    } else {
        let before = components(pieces.drop_last(), leading_dot);
        if is_component(pieces.last(), pieces.len() - 1, leading_dot) {
            before.push(pieces.last())
        } else {
            before
        }
    }
}

/// The path that `bytes` spell.
pub open spec fn path_of(bytes: Seq<u8>) -> PathView {
    PathView {
        absolute: bytes.len() > 0 && bytes[0] == SLASH,
        names: components(pieces(bytes), true),
    }
}

/// `names` with separators between them.
pub open spec fn joined(names: Seq<Seq<u8>>) -> Seq<u8>
    decreases names.len(),
{
    if names.len() == 0 {
        Seq::empty()
    } else if names.len() == 1 {
        names[0]
    } else {
        joined(names.drop_last()).push(SLASH) + names.last()
    }
}

/// The spelling of the entry spelled `name` below what `base` spells. A `name`
/// that starts with a separator stands for itself.
pub open spec fn joined_spelling(base: Seq<u8>, name: Seq<u8>) -> Seq<u8> {
    if name.len() > 0 && name[0] == SLASH {
        name
    } else if base.len() == 0 || base.last() == SLASH {
        base + name
    } else {
        base.push(SLASH) + name
    }
}

/// The spelling of `path` where what lies below `base` is spelled by joining one
/// name after the other to `base`.
pub open spec fn respelled(base: Seq<u8>, path: PathView) -> Seq<u8>
    decreases path.names.len(),
{
    if path.names.len() <= path_of(base).names.len() {
        base
    } else {
        joined_spelling(
            respelled(
                base,
                PathView { absolute: path.absolute, names: path.names.drop_last() },
            ),
            path.names.last(),
        )
    }
}

/// True when `length` is that of the shortest beginning of `bytes` that spells
/// `path`.
pub open spec fn first_spells(bytes: Seq<u8>, path: PathView, length: int) -> bool {
    &&& 0 <= length <= bytes.len()
    &&& path_of(bytes.take(length)) == path
    &&& forall|k: int| 0 <= k < length ==> path_of(#[trigger] bytes.take(k)) != path
}

impl PathView {
    /// The shortest spelling of the path.
    pub open spec fn bytes(self) -> Seq<u8> {
        if self.absolute {
            seq![SLASH] + joined(self.names)
        } else {
            joined(self.names)
        }
    }

    /// True when the components can come from a spelled path: none is empty,
    /// holds a separator or is `.`, except for a leading `.` of a relative path.
    pub open spec fn valid(self) -> bool {
        forall|i: int|
            #![trigger self.names[i]]
            0 <= i < self.names.len() ==> valid_name(self.names[i], i, !self.absolute)
    }

    /// The path of the entry spelled `name` below this path.
    pub open spec fn join(self, name: Seq<u8>) -> PathView {
        if (name.len() > 0 && name[0] == SLASH) || (!self.absolute && self.names.len() == 0) {
            path_of(name)
        } else {
            PathView {
                absolute: self.absolute,
                names: self.names + components(pieces(name), false),
            }
        }
    }

    /// The path without its last component; none for `/` and the empty path.
    pub open spec fn parent(self) -> Option<PathView> {
        if self.names.len() == 0 {
            None
        } else {
            Some(PathView { absolute: self.absolute, names: self.names.drop_last() })
        }
    }

    /// The last component, where it is the name of an entry.
    pub open spec fn file_name(self) -> Option<Seq<u8>> {
        if self.names.len() == 0 || self.names.last() == dot() || self.names.last() == dot_dot() {
            None
        } else {
            Some(self.names.last())
        }
    }

    /// True when this path is `base` or lies below it, compared by whole
    /// components. Every path starts with the empty path.
    pub open spec fn starts_with(self, base: PathView) -> bool {
        ||| !base.absolute && base.names.len() == 0
        ||| self.absolute == base.absolute && base.names.is_prefix_of(self.names)
    }
}

/// True when `name` can stand at position `at` of a path.
pub open spec fn valid_name(name: Seq<u8>, at: int, leading_dot: bool) -> bool {
    &&& !name.contains(SLASH)
    &&& is_component(name, at, leading_dot)
}

/// True when `name` names one directory entry: what a directory listing and a
/// file system event hold.
pub open spec fn is_entry_name(name: Seq<u8>) -> bool {
    &&& name.len() > 0
    &&& !name.contains(SLASH)
    &&& name != dot()
    &&& name != dot_dot()
}

/// The pieces of any byte string are at least one, and hold no separator.
proof fn pieces_hold_no_slash(bytes: Seq<u8>)
    ensures
        pieces(bytes).len() >= 1,
        forall|i: int|
            #![trigger pieces(bytes)[i]]
            0 <= i < pieces(bytes).len() ==> !pieces(bytes)[i].contains(SLASH),
    decreases bytes.len(),
{
    if bytes.len() > 0 {
        let before = pieces(bytes.drop_last());
        pieces_hold_no_slash(bytes.drop_last());
        assert forall|i: int|
            #![trigger pieces(bytes)[i]]
            0 <= i < pieces(bytes).len() implies !pieces(bytes)[i].contains(SLASH) by {
            if bytes.last() == SLASH {
                if i < before.len() {
                    assert(pieces(bytes)[i] == before[i]);
                }
            } else if i < before.len() - 1 {
                assert(pieces(bytes)[i] == before[i]);
            } else {
                let last = before[before.len() - 1];
                assert(pieces(bytes)[i] == last.push(bytes.last()));
                assert forall|k: int| 0 <= k < last.push(bytes.last()).len() implies last.push(
                    bytes.last(),
                )[k] != SLASH by {
                    if k < last.len() {
                        assert(last.contains(last[k]));
                    }
                }
            }
        }
    }
}

/// A byte string without separators is one piece, appended to the last piece of
/// what stands before it.
proof fn pieces_of_appended_name(before: Seq<u8>, name: Seq<u8>)
    requires
        !name.contains(SLASH),
    ensures
        pieces(before + name) == pieces(before).update(
            pieces(before).len() - 1,
            pieces(before).last() + name,
        ),
    decreases name.len(),
{
    pieces_hold_no_slash(before);
    if name.len() == 0 {
        assert(before + name =~= before);
        assert(pieces(before).last() + name =~= pieces(before).last());
    } else {
        let shorter = name.drop_last();
        assert(name.contains(name.last())) by {
            assert(name[name.len() - 1] == name.last());
        }
        assert(!shorter.contains(SLASH)) by {
            if shorter.contains(SLASH) {
                let k = choose|k: int| 0 <= k < shorter.len() && shorter[k] == SLASH;
                assert(name[k] == SLASH);
            }
        }
        pieces_of_appended_name(before, shorter);
        assert((before + name).drop_last() =~= before + shorter);
        assert((pieces(before).last() + shorter).push(name.last()) =~= pieces(before).last()
            + name);
    }
}

/// Spelling a path out and reading it back gives its pieces: the components,
/// after an empty piece where the path is absolute.
proof fn pieces_of_spelling(path: PathView)
    requires
        path.valid(),
        path.names.len() > 0,
    ensures
        pieces(path.bytes()) == (if path.absolute {
            seq![Seq::<u8>::empty()] + path.names
        } else {
            path.names
        }),
    decreases path.names.len(),
{
    let names = path.names;
    let last = names.last();
    assert(valid_name(names[names.len() - 1], names.len() - 1, !path.absolute));
    let root = seq![SLASH];
    let none = Seq::<u8>::empty();
    assert(pieces(none) == seq![none]);
    if names.len() == 1 {
        if path.absolute {
            assert(root.drop_last() =~= none);
            assert(pieces(root) =~= seq![none, none]);
            pieces_of_appended_name(root, last);
            assert(none + last =~= last);
            assert(pieces(path.bytes()) =~= seq![none] + names);
        } else {
            pieces_of_appended_name(none, last);
            assert(none + last =~= last);
            assert(pieces(path.bytes()) =~= names);
        }
    } else {
        let shorter = PathView { absolute: path.absolute, names: names.drop_last() };
        assert forall|i: int|
            #![trigger shorter.names[i]]
            0 <= i < shorter.names.len() implies valid_name(
            shorter.names[i],
            i,
            !shorter.absolute,
        ) by {
            assert(shorter.names[i] == names[i]);
        }
        pieces_of_spelling(shorter);
        let before = shorter.bytes().push(SLASH);
        assert(before.drop_last() =~= shorter.bytes());
        assert(pieces(before) == pieces(shorter.bytes()).push(none));
        pieces_of_appended_name(before, last);
        assert(none + last =~= last);
        assert(path.bytes() =~= before + last);
        if path.absolute {
            assert(pieces(path.bytes()) =~= seq![none] + names);
        } else {
            assert(pieces(path.bytes()) =~= names);
        }
    }
}

/// The components of a list of components are all of them.
proof fn components_of_valid_names(names: Seq<Seq<u8>>, leading_dot: bool)
    requires
        forall|i: int|
            #![trigger names[i]]
            0 <= i < names.len() ==> is_component(names[i], i, leading_dot),
    ensures
        components(names, leading_dot) == names,
    decreases names.len(),
{
    if names.len() > 0 {
        let before = names.drop_last();
        assert forall|i: int| #![trigger before[i]] 0 <= i < before.len() implies is_component(
            before[i],
            i,
            leading_dot,
        ) by {
            assert(before[i] == names[i]);
        }
        components_of_valid_names(before, leading_dot);
        assert(is_component(names[names.len() - 1], names.len() - 1, leading_dot));
        assert(before.push(names.last()) =~= names);
    }
}

/// A leading empty piece is no component.
proof fn components_after_empty_piece(names: Seq<Seq<u8>>)
    requires
        forall|i: int|
            #![trigger names[i]]
            0 <= i < names.len() ==> is_component(names[i], i, false),
    ensures
        components(seq![Seq::<u8>::empty()] + names, true) == names,
    decreases names.len(),
{
    let all = seq![Seq::<u8>::empty()] + names;
    if names.len() == 0 {
        assert(all.drop_last() =~= Seq::<Seq<u8>>::empty());
        assert(all.last() == Seq::<u8>::empty());
        assert(components(Seq::<Seq<u8>>::empty(), true) =~= names);
        assert(components(all, true) =~= names);
    } else {
        let before = names.drop_last();
        assert forall|i: int| #![trigger before[i]] 0 <= i < before.len() implies is_component(
            before[i],
            i,
            false,
        ) by {
            assert(before[i] == names[i]);
        }
        components_after_empty_piece(before);
        assert(all.drop_last() =~= seq![Seq::<u8>::empty()] + before);
        assert(all.last() == names.last());
        assert(is_component(names[names.len() - 1], names.len() - 1, false));
        assert(before.push(names.last()) =~= names);
    }
}

/// Every component of `pieces` is one of them that `is_component` keeps.
proof fn components_are_valid(all: Seq<Seq<u8>>, leading_dot: bool)
    requires
        forall|i: int| #![trigger all[i]] 0 <= i < all.len() ==> !all[i].contains(SLASH),
    ensures
        components(all, leading_dot).len() <= all.len(),
        forall|i: int|
            #![trigger components(all, leading_dot)[i]]
            0 <= i < components(all, leading_dot).len() ==> valid_name(
                components(all, leading_dot)[i],
                i,
                leading_dot,
            ),
    decreases all.len(),
{
    if all.len() > 0 {
        let shorter = all.drop_last();
        assert forall|i: int| #![trigger shorter[i]] 0 <= i < shorter.len() implies !shorter[i]
            .contains(SLASH) by {
            assert(shorter[i] == all[i]);
        }
        components_are_valid(shorter, leading_dot);
        let before = components(shorter, leading_dot);
        assert(!all[all.len() - 1].contains(SLASH));
        assert forall|i: int|
            #![trigger components(all, leading_dot)[i]]
            0 <= i < components(all, leading_dot).len() implies valid_name(
            components(all, leading_dot)[i],
            i,
            leading_dot,
        ) by {
            if i < before.len() {
                assert(components(all, leading_dot)[i] == before[i]);
            } else {
                assert(components(all, leading_dot)[i] == all.last());
            }
        }
    }
}

/// Reading back the spelling of a path gives the path.
pub proof fn spelling_reads_back(path: PathView)
    requires
        path.valid(),
    ensures
        path_of(path.bytes()) == path,
{
    let none = Seq::<u8>::empty();
    if path.names.len() == 0 {
        assert(pieces(none) == seq![none]);
        components_after_empty_piece(Seq::empty());
        assert(seq![none] + Seq::<Seq<u8>>::empty() =~= seq![none]);
        if path.absolute {
            let root = seq![SLASH];
            assert(path.bytes() =~= root);
            assert(root.drop_last() =~= none);
            assert(pieces(root) =~= seq![none, none]);
            assert(seq![none, none].drop_last() =~= seq![none]);
            assert(components(pieces(root), true) =~= path.names);
        } else {
            assert(path.bytes() =~= none);
            assert(components(pieces(none), true) =~= path.names);
        }
    } else {
        pieces_of_spelling(path);
        assert forall|i: int| #![trigger path.names[i]] 0 <= i < path.names.len() implies
            is_component(path.names[i], i, !path.absolute) by {
            assert(valid_name(path.names[i], i, !path.absolute));
        }
        if path.absolute {
            components_after_empty_piece(path.names);
        } else {
            components_of_valid_names(path.names, true);
            let first = path.names[0];
            assert(valid_name(first, 0, true));
            relative_spelling_starts_with_name(path.names);
            assert(first.contains(first[0]));
        }
    }
}

/// The spelling of a list of names starts with its first name.
proof fn relative_spelling_starts_with_name(names: Seq<Seq<u8>>)
    requires
        names.len() > 0,
        names[0].len() > 0,
    ensures
        joined(names).len() > 0,
        joined(names)[0] == names[0][0],
    decreases names.len(),
{
    if names.len() > 1 {
        relative_spelling_starts_with_name(names.drop_last());
    }
}

/// What any byte string spells is a valid path.
pub proof fn spelled_paths_are_valid(bytes: Seq<u8>)
    ensures
        path_of(bytes).valid(),
{
    pieces_hold_no_slash(bytes);
    components_are_valid(pieces(bytes), true);
    if bytes.len() > 0 && bytes[0] == SLASH {
        absolute_spelling_has_no_leading_dot(bytes);
    }
}

/// The components of an absolute spelling hold no `.` at all.
proof fn absolute_spelling_has_no_leading_dot(bytes: Seq<u8>)
    requires
        bytes.len() > 0,
        bytes[0] == SLASH,
    ensures
        path_of(bytes).valid(),
{
    pieces_hold_no_slash(bytes);
    first_piece_of_absolute(bytes);
    leading_dot_is_immaterial(pieces(bytes));
    components_are_valid(pieces(bytes), false);
}

/// The first piece of a spelling that starts with a separator is empty.
proof fn first_piece_of_absolute(bytes: Seq<u8>)
    requires
        bytes.len() > 0,
        bytes[0] == SLASH,
    ensures
        pieces(bytes).len() >= 2,
        pieces(bytes)[0].len() == 0,
    decreases bytes.len(),
{
    let shorter = bytes.drop_last();
    if shorter.len() == 0 {
        assert(pieces(shorter) == seq![Seq::<u8>::empty()]);
    } else {
        first_piece_of_absolute(shorter);
    }
}

/// Where the first piece is empty, whether a leading `.` may stand makes no
/// difference.
proof fn leading_dot_is_immaterial(all: Seq<Seq<u8>>)
    requires
        all.len() >= 1,
        all[0].len() == 0,
    ensures
        components(all, true) == components(all, false),
    decreases all.len(),
{
    let shorter = all.drop_last();
    if shorter.len() == 0 {
        assert(all.last() == all[0]);
        assert(components(shorter, true) == components(shorter, false));
    } else {
        leading_dot_is_immaterial(shorter);
    }
}

/// Joining an entry name appends it as one component, so the entry's parent is
/// the directory, its file name is the name, and it lies below the directory.
pub proof fn entry_path_of_directory(directory: PathView, name: Seq<u8>)
    requires
        is_entry_name(name),
    ensures
        directory.join(name).absolute == directory.absolute,
        directory.join(name).names == directory.names.push(name),
        directory.join(name).parent() == Some(directory),
        directory.join(name).file_name() == Some(name),
        directory.join(name).starts_with(directory),
{
    let none = Seq::<u8>::empty();
    assert(name.contains(name[0]));
    pieces_of_appended_name(none, name);
    assert(none + name =~= name);
    assert(pieces(none) == seq![none]);
    assert(pieces(name) =~= seq![name]);
    components_of_valid_names(seq![name], true);
    components_of_valid_names(seq![name], false);
    assert(directory.join(name).names =~= directory.names.push(name));
    assert(directory.names.push(name).drop_last() =~= directory.names);
}

/// What stands before and after a separator has its own pieces.
proof fn pieces_around_separator(before: Seq<u8>, after: Seq<u8>)
    ensures
        pieces(before.push(SLASH) + after) == pieces(before) + pieces(after),
    decreases after.len(),
{
    let base = before.push(SLASH);
    let none = Seq::<u8>::empty();
    pieces_hold_no_slash(before);
    if after.len() == 0 {
        assert(base + after =~= base);
        assert(base.drop_last() =~= before);
        assert(pieces(none) == seq![none]);
        assert(pieces(base) =~= pieces(before) + pieces(after));
    } else {
        let shorter = after.drop_last();
        pieces_around_separator(before, shorter);
        pieces_hold_no_slash(shorter);
        assert((base + after).drop_last() =~= base + shorter);
        assert((base + after).last() == after.last());
        assert(pieces(base + after) =~= pieces(before) + pieces(after));
    }
}

/// A `.` that follows other pieces is no component.
proof fn components_of_both(left: Seq<Seq<u8>>, right: Seq<Seq<u8>>)
    requires
        left.len() > 0,
    ensures
        components(left + right, true) == components(left, true) + components(right, false),
    decreases right.len(),
{
    if right.len() == 0 {
        assert(left + right =~= left);
        assert(components(left, true) + components(right, false) =~= components(left, true));
    } else {
        let fewer = right.drop_last();
        components_of_both(left, fewer);
        assert((left + right).drop_last() =~= left + fewer);
        assert((left + right).last() == right.last());
        assert(components(left + right, true) =~= components(left, true) + components(
            right,
            false,
        ));
    }
}

/// A spelling that does not start with a separator has a first component.
proof fn relative_spelling_has_names(bytes: Seq<u8>)
    requires
        bytes.len() > 0,
        bytes[0] != SLASH,
    ensures
        path_of(bytes).names.len() > 0,
{
    first_piece_of_relative(bytes);
    first_piece_is_component(pieces(bytes));
}

/// The first piece of a spelling that does not start with a separator is not
/// empty.
proof fn first_piece_of_relative(bytes: Seq<u8>)
    requires
        bytes.len() > 0,
        bytes[0] != SLASH,
    ensures
        pieces(bytes).len() > 0,
        pieces(bytes)[0].len() > 0,
    decreases bytes.len(),
{
    let shorter = bytes.drop_last();
    pieces_hold_no_slash(shorter);
    if shorter.len() == 0 {
        assert(pieces(shorter) == seq![Seq::<u8>::empty()]);
    } else {
        first_piece_of_relative(shorter);
    }
}

/// A first piece that is not empty is a component.
proof fn first_piece_is_component(all: Seq<Seq<u8>>)
    requires
        all.len() > 0,
        all[0].len() > 0,
    ensures
        components(all, true).len() > 0,
    decreases all.len(),
{
    if all.len() > 1 {
        first_piece_is_component(all.drop_last());
    }
}

/// The spelling of an entry spells the entry.
pub proof fn joined_spelling_spells_entry(base: Seq<u8>, name: Seq<u8>)
    ensures
        path_of(joined_spelling(base, name)) == path_of(base).join(name),
{
    let none = Seq::<u8>::empty();
    if name.len() > 0 && name[0] == SLASH {
    } else if base.len() == 0 {
        assert(base + name =~= name);
        assert(pieces(base) == seq![none]);
        components_after_empty_piece(Seq::empty());
        assert(seq![none] + Seq::<Seq<u8>>::empty() =~= seq![none]);
    } else {
        if base[0] != SLASH {
            relative_spelling_has_names(base);
        }
        let trimmed = if base.last() == SLASH {
            base.drop_last()
        } else {
            base
        };
        assert(joined_spelling(base, name) =~= trimmed.push(SLASH) + name);
        pieces_around_separator(trimmed, name);
        pieces_hold_no_slash(trimmed);
        components_of_both(pieces(trimmed), pieces(name));
        if base.last() == SLASH {
            assert(pieces(base).drop_last() =~= pieces(trimmed));
            assert(pieces(base).last() == none);
        }
    }
}

/// Some beginning of a spelling spells the parent.
proof fn parent_is_spelled_on_the_way(bytes: Seq<u8>) -> (k: int)
    requires
        path_of(bytes).names.len() > 0,
    ensures
        0 <= k <= bytes.len(),
        Some(path_of(bytes.take(k))) == path_of(bytes).parent(),
    decreases bytes.len(),
{
    let none = Seq::<u8>::empty();
    if bytes.len() == 0 {
        assert(pieces(bytes) == seq![none]);
        components_after_empty_piece(Seq::empty());
        assert(seq![none] + Seq::<Seq<u8>>::empty() =~= seq![none]);
        0
    } else {
        let shorter = bytes.drop_last();
        let before = pieces(shorter);
        let all = pieces(bytes);
        pieces_hold_no_slash(shorter);
        pieces_hold_no_slash(bytes);
        if shorter.len() == 0 {
            assert(before == seq![none]);
            assert(before.drop_last() =~= Seq::<Seq<u8>>::empty());
        }
        if bytes.last() == SLASH {
            assert(all.drop_last() =~= before);
        } else {
            assert(all.drop_last() =~= before.drop_last());
            if is_component(all.last(), all.len() - 1, true) {
                assert(path_of(bytes).names.drop_last() =~= components(before.drop_last(), true));
            }
            assert(all.last() == before.last().push(bytes.last()));
        }
        let grew = bytes.last() != SLASH && !is_component(
            before.last(),
            before.len() - 1,
            true,
        ) && is_component(all.last(), all.len() - 1, true);
        if grew {
            assert(shorter =~= bytes.take(bytes.len() - 1));
            bytes.len() - 1
        } else {
            if bytes.last() != SLASH {
                if is_component(before.last(), before.len() - 1, true) {
                    assert(before.last().push(bytes.last()).len() >= 2);
                    assert(all.last() != dot()) by {
                        assert(dot().len() == 1);
                    }
                    assert(path_of(shorter).names.drop_last() =~= components(
                        before.drop_last(),
                        true,
                    ));
                }
            }
            assert(path_of(shorter).names.len() > 0);
            let k = parent_is_spelled_on_the_way(shorter);
            assert(shorter.take(k) =~= bytes.take(k));
            k
        }
    }
}

/// Paths below a path below `base` are below `base`.
pub proof fn starts_with_is_transitive(path: PathView, middle: PathView, base: PathView)
    requires
        path.starts_with(middle),
        middle.starts_with(base),
    ensures
        path.starts_with(base),
{
}

/// A path lies below itself.
pub proof fn starts_with_is_reflexive(path: PathView)
    ensures
        path.starts_with(path),
{
}

/// Two different entries of one directory never lie below each other, however
/// alike their names begin.
pub proof fn siblings_do_not_nest(directory: PathView, left: Seq<u8>, right: Seq<u8>)
    requires
        is_entry_name(left),
        is_entry_name(right),
        left != right,
    ensures
        !directory.join(left).starts_with(directory.join(right)),
{
    entry_path_of_directory(directory, left);
    entry_path_of_directory(directory, right);
    let l = directory.names.push(left);
    let r = directory.names.push(right);
    assert(l[l.len() - 1] == left);
    assert(r[r.len() - 1] == right);
}

/// A path of the watched tree: how it is spelled, and its components. Paths with
/// the same components are equal, however they are spelled.
#[derive(Debug)]
pub struct TreePath {
    spelling: Vec<u8>,
    absolute: bool,
    names: Vec<Vec<u8>>,
}

impl View for TreePath {
    type V = PathView;

    closed spec fn view(&self) -> PathView {
        PathView { absolute: self.absolute, names: text::byte_names(self.names@) }
    }
}

impl TreePath {
    #[verifier::type_invariant]
    closed spec fn well_formed(self) -> bool {
        self.view() == path_of(self.spelling@)
    }

    /// The bytes that spell the path.
    pub closed spec fn spelling(&self) -> Seq<u8> {
        self.spelling@
    }

    /// What the path looks like on screen.
    pub open spec fn text(&self) -> Seq<char> {
        text::lossy_text(self.spelling())
    }

    /// True when the path is spelled by joining names to `base`.
    pub open spec fn spelled_from(&self, base: Seq<u8>) -> bool {
        self.spelling() == respelled(base, self@)
    }

    /// True when both paths are equal and spelled alike.
    pub open spec fn is_copy_of(&self, other: &TreePath) -> bool {
        self@ == other@ && self.spelling() == other.spelling()
    }

    /// Takes the path that `bytes` spell. Repeated and trailing separators and
    /// `.` components other than a leading one are no components of it.
    pub fn new(bytes: &[u8]) -> (path: TreePath)
        ensures
            path@ == path_of(bytes@),
            path.spelling() == bytes@,
            path.spelled_from(bytes@),
    {
        let names = split_components(bytes, true);
        let spelling = vstd::slice::slice_to_vec(bytes);
        TreePath { spelling, absolute: bytes.len() > 0 && bytes[0] == SLASH, names }
    }

    /// The path of the entry spelled `name` below this one. A `name` that
    /// starts with a separator replaces the path.
    pub fn join(&self, name: &[u8]) -> (path: TreePath)
        ensures
            path@ == self@.join(name@),
            path.spelling() == joined_spelling(self.spelling(), name@),
            forall|base: Seq<u8>| #[trigger]
                self.spelled_from(base) && is_entry_name(name@) ==> path.spelled_from(base),
    {
        proof {
            use_type_invariant(self);
            joined_spelling_spells_entry(self.spelling@, name@);
            if is_entry_name(name@) {
                entry_path_of_directory(self@, name@);
                assert(self@.names.push(name@).drop_last() =~= self@.names);
            }
        }
        let length = self.spelling.len();
        if name.len() > 0 && name[0] == SLASH {
            return TreePath::new(name);
        }
        let mut spelling = vstd::slice::slice_to_vec(self.spelling.as_slice());
        if length > 0 && self.spelling[length - 1] != SLASH {
            spelling.push(SLASH);
        }
        let mut added = vstd::slice::slice_to_vec(name);
        spelling.append(&mut added);
        assert(spelling@ =~= joined_spelling(self.spelling@, name@));
        TreePath::new(spelling.as_slice())
    }

    /// The path without its last component, if it has one, spelled as the
    /// beginning of this path.
    pub fn parent(&self) -> (parent: Option<TreePath>)
        ensures
            match parent {
                Some(path) => self@.parent() == Some(path@) && path.spelling().is_prefix_of(
                    self.spelling(),
                ) && first_spells(self.spelling(), path@, path.spelling().len() as int),
                None => self@.parent() is None,
            },
    {
        proof {
            use_type_invariant(self);
        }
        let count = self.names.len();
        if count == 0 {
            assert(text::byte_names(self.names@).len() == 0);
            return None;
        }
        let ghost wanted = PathView { absolute: self.absolute, names: self@.names.drop_last() };
        let total = self.spelling.len();
        let mut prefix: Vec<u8> = Vec::new();
        let mut i: usize = 0;
        assert(prefix@ =~= self.spelling@.take(0));
        let ghost end = parent_is_spelled_on_the_way(self.spelling@);
        loop
            invariant
                count == self.names@.len(),
                count > 0,
                i <= end <= total,
                total == self.spelling@.len(),
                prefix@ == self.spelling@.take(i as int),
                wanted == (PathView { absolute: self.absolute, names: self@.names.drop_last() }),
                self@.parent() == Some(wanted),
                path_of(self.spelling@.take(end)) == wanted,
                forall|k: int|
                    0 <= k < i ==> path_of(#[trigger] self.spelling@.take(k)) != wanted,
            decreases end - i,
        {
            let path = TreePath::new(prefix.as_slice());
            if path.absolute == self.absolute && self.begins_with(&path.names) && path.names.len()
                == count - 1 {
                assert(path@.names =~= wanted.names);
                assert(prefix@.is_prefix_of(self.spelling@)) by {
                    assert(prefix@ =~= self.spelling@.subrange(0, prefix@.len() as int));
                }
                return Some(path);
            }
            proof {
                if path@ == wanted {
                    assert(path@.names.len() == count - 1);
                    assert(path@.names =~= self@.names.subrange(0, path@.names.len() as int));
                }
            }
            prefix.push(self.spelling[i]);
            assert(prefix@ =~= self.spelling@.take(i + 1));
            i = i + 1;
        }
    }

    /// True when the path begins with these components.
    fn begins_with(&self, names: &Vec<Vec<u8>>) -> (begins: bool)
        ensures
            begins == text::byte_names(names@).is_prefix_of(self@.names),
    {
        if self.names.len() < names.len() {
            return false;
        }
        let ghost wanted = text::byte_names(names@);
        let mut i: usize = 0;
        while i < names.len()
            invariant
                i <= names@.len() <= self.names@.len(),
                wanted == text::byte_names(names@),
                forall|k: int| 0 <= k < i ==> self.names@[k]@ == names@[k]@,
            decreases names@.len() - i,
        {
            if !text::bytes_equal(self.names[i].as_slice(), names[i].as_slice()) {
                assert(self@.names[i as int] != wanted[i as int]);
                assert(!wanted.is_prefix_of(self@.names)) by {
                    if wanted.is_prefix_of(self@.names) {
                        assert(wanted[i as int] == self@.names.subrange(
                            0,
                            wanted.len() as int,
                        )[i as int]);
                    }
                }
                return false;
            }
            i = i + 1;
        }
        assert(wanted =~= self@.names.subrange(0, wanted.len() as int));
        true
    }

    /// The last component, where it is the name of an entry (`.` and `..` are
    /// not).
    pub fn file_name(&self) -> (name: Option<&Vec<u8>>)
        ensures
            match name {
                Some(bytes) => self@.file_name() == Some(bytes@),
                None => self@.file_name() is None,
            },
    {
        let count = self.names.len();
        if count == 0 {
            return None;
        }
        let last: &Vec<u8> = &self.names[count - 1];
        assert(self@.names.last() == last@);
        if last.len() == 1 && last[0] == DOT {
            assert(last@ =~= dot());
            return None;
        }
        if last.len() == 2 && last[0] == DOT && last[1] == DOT {
            assert(last@ =~= dot_dot());
            return None;
        }
        Some(last)
    }

    /// True when this path is `base` or lies below it.
    pub fn starts_with(&self, base: &TreePath) -> (below: bool)
        ensures
            below == self@.starts_with(base@),
    {
        if !base.absolute && base.names.len() == 0 {
            return true;
        }
        self.absolute == base.absolute && self.begins_with(&base.names)
    }

    /// True when both paths have the same components.
    pub fn same_as(&self, other: &TreePath) -> (same: bool)
        ensures
            same == (self@ == other@),
    {
        if self.absolute != other.absolute || self.names.len() != other.names.len() {
            assert(self@.names.len() == self.names@.len());
            assert(other@.names.len() == other.names@.len());
            return false;
        }
        let mut i: usize = 0;
        while i < self.names.len()
            invariant
                i <= self.names@.len() == other.names@.len(),
                forall|k: int| 0 <= k < i ==> self.names@[k]@ == other.names@[k]@,
            decreases self.names@.len() - i,
        {
            if !text::bytes_equal(self.names[i].as_slice(), other.names[i].as_slice()) {
                assert(self@.names[i as int] != other@.names[i as int]);
                return false;
            }
            i = i + 1;
        }
        assert(self@.names =~= other@.names);
        true
    }

    /// The bytes that spell the path: what the kernel is given.
    pub fn to_bytes(&self) -> (bytes: Vec<u8>)
        ensures
            bytes@ == self.spelling(),
            path_of(bytes@) == self@,
    {
        proof {
            use_type_invariant(self);
        }
        vstd::slice::slice_to_vec(self.spelling.as_slice())
    }

    /// The shortest spelling of the path. Paths that are equal have the same.
    pub fn shortest_spelling(&self) -> (bytes: Vec<u8>)
        ensures
            bytes@ == self@.bytes(),
            path_of(bytes@) == self@,
    {
        proof {
            use_type_invariant(self);
            spelled_paths_are_valid(self.spelling@);
            spelling_reads_back(self@);
        }
        let mut bytes: Vec<u8> = Vec::new();
        if self.absolute {
            bytes.push(SLASH);
        }
        let ghost root = bytes@;
        let mut i: usize = 0;
        while i < self.names.len()
            invariant
                i <= self.names@.len(),
                bytes@ == root + joined(self@.names.take(i as int)),
                root == (if self.absolute {
                    seq![SLASH]
                } else {
                    Seq::<u8>::empty()
                }),
            decreases self.names@.len() - i,
        {
            let ghost before = bytes@;
            let ghost done = self@.names.take(i as int);
            let ghost next = self@.names.take(i + 1);
            if i > 0 {
                bytes.push(SLASH);
            }
            let mut name = vstd::slice::slice_to_vec(self.names[i].as_slice());
            bytes.append(&mut name);
            proof {
                assert(next.drop_last() =~= done);
                assert(next.last() == self.names@[i as int]@);
                if i == 0 {
                    assert(done =~= Seq::<Seq<u8>>::empty());
                    assert(next =~= seq![self.names@[0]@]);
                    assert(bytes@ =~= root + joined(next));
                } else {
                    assert(bytes@ =~= root + joined(next));
                }
            }
            i = i + 1;
        }
        assert(self@.names.take(self.names@.len() as int) =~= self@.names);
        assert(bytes@ =~= self@.bytes());
        bytes
    }

    /// The path as shown to a user.
    pub fn display(&self) -> (text: String)
        ensures
            text@ == self.text(),
            text::shows(self.spelling(), text@),
    {
        text::from_utf8_lossy(self.spelling.as_slice())
    }
}

impl Clone for TreePath {
    fn clone(&self) -> (copy: Self)
        ensures
            copy.is_copy_of(self),
            copy.spelled_from(self.spelling()),
    {
        proof {
            use_type_invariant(self);
        }
        TreePath {
            spelling: vstd::slice::slice_to_vec(self.spelling.as_slice()),
            absolute: self.absolute,
            names: copy_names(&self.names),
        }
    }
}

impl PartialEq for TreePath {
    fn eq(&self, other: &Self) -> (same: bool) {
        self.same_as(other)
    }
}

impl vstd::std_specs::cmp::PartialEqSpecImpl for TreePath {
    open spec fn obeys_eq_spec() -> bool {
        true
    }

    open spec fn eq_spec(&self, other: &Self) -> bool {
        self@ == other@
    }
}

/// Copies a list of names.
pub fn copy_names(names: &Vec<Vec<u8>>) -> (copy: Vec<Vec<u8>>)
    ensures
        text::byte_names(copy@) == text::byte_names(names@),
{
    let mut copy: Vec<Vec<u8>> = Vec::new();
    let mut i: usize = 0;
    while i < names.len()
        invariant
            i <= names@.len(),
            copy@.len() == i,
            forall|k: int| 0 <= k < i ==> (#[trigger] copy@[k])@ == names@[k]@,
        decreases names@.len() - i,
    {
        copy.push(vstd::slice::slice_to_vec(names[i].as_slice()));
        i = i + 1;
    }
    assert(text::byte_names(copy@) =~= text::byte_names(names@));
    copy
}

/// Splits `bytes` at separators and keeps the components.
fn split_components(bytes: &[u8], leading_dot: bool) -> (names: Vec<Vec<u8>>)
    ensures
        text::byte_names(names@) == components(pieces(bytes@), leading_dot),
{
    let mut names: Vec<Vec<u8>> = Vec::new();
    let mut current: Vec<u8> = Vec::new();
    let mut first = true;
    let mut i: usize = 0;
    assert(text::byte_names(names@) =~= Seq::<Seq<u8>>::empty());
    assert(bytes@.take(0) =~= Seq::<u8>::empty());
    assert(pieces(bytes@.take(0)).drop_last() =~= Seq::<Seq<u8>>::empty());
    while i < bytes.len()
        invariant
            i <= bytes@.len(),
            pieces(bytes@.take(i as int)).len() >= 1,
            current@ == pieces(bytes@.take(i as int)).last(),
            first == (pieces(bytes@.take(i as int)).len() == 1),
            text::byte_names(names@) == components(
                pieces(bytes@.take(i as int)).drop_last(),
                leading_dot,
            ),
        decreases bytes@.len() - i,
    {
        let ghost done = pieces(bytes@.take(i as int));
        let ghost before = names@;
        assert(bytes@.take(i + 1).drop_last() =~= bytes@.take(i as int));
        assert(bytes@.take(i + 1).last() == bytes@[i as int]);
        if bytes[i] == SLASH {
            if keep_piece(&current, first, leading_dot) {
                names.push(current);
                assert(text::byte_names(names@) =~= text::byte_names(before).push(done.last()));
            }
            current = Vec::new();
            first = false;
            assert(done.push(Seq::<u8>::empty()).drop_last() =~= done);
        } else {
            current.push(bytes[i]);
            assert(pieces(bytes@.take(i + 1)).drop_last() =~= done.drop_last());
        }
        i = i + 1;
    }
    assert(bytes@.take(bytes@.len() as int) =~= bytes@);
    let ghost before = names@;
    if keep_piece(&current, first, leading_dot) {
        names.push(current);
        assert(text::byte_names(names@) =~= text::byte_names(before).push(pieces(bytes@).last()));
    }
    names
}

/// Decides whether a piece is a component.
fn keep_piece(piece: &Vec<u8>, first: bool, leading_dot: bool) -> (keep: bool)
    ensures
        forall|at: int| first == (at == 0) ==> keep == is_component(piece@, at, leading_dot),
{
    if piece.len() == 0 {
        return false;
    }
    if piece.len() == 1 && piece[0] == DOT {
        assert(piece@ =~= dot());
        return leading_dot && first;
    }
    true
}

/// A path lies at or below another exactly when it begins with the components of the
/// other, each of them in full, and both start at the root or neither does. Every
/// path lies below the empty path.
pub proof fn starts_with_goes_by_components(path: PathView, base: PathView)
    ensures
        path.starts_with(base) <==> (!base.absolute && base.names.len() == 0) || (path.absolute
            == base.absolute && base.names.len() <= path.names.len() && forall|i: int|
            0 <= i < base.names.len() ==> #[trigger] path.names[i] == base.names[i]),
{
    if base.names.len() <= path.names.len() && forall|i: int|
        0 <= i < base.names.len() ==> #[trigger] path.names[i] == base.names[i] {
        assert(base.names =~= path.names.subrange(0, base.names.len() as int));
    }
    if base.names.is_prefix_of(path.names) {
        assert forall|i: int| 0 <= i < base.names.len() implies #[trigger] path.names[i]
            == base.names[i] by {
            assert(path.names.subrange(0, base.names.len() as int)[i] == path.names[i]);
        }
    }
}

/// The last component is the name of an entry unless it is `.` or `..`, and what
/// stands before it is the parent. A path without components has neither.
pub proof fn last_component_is_name(path: PathView)
    ensures
        path.names.len() == 0 ==> path.parent() is None && path.file_name() is None,
        path.names.len() > 0 ==> {
            &&& path.parent() is Some
            &&& path.parent()->0.absolute == path.absolute
            &&& path.parent()->0.names.push(path.names.last()) == path.names
            &&& path.file_name() is None <==> path.names.last() == seq![46u8]
                || path.names.last() == seq![46u8, 46u8]
            &&& path.file_name() is Some ==> path.file_name()->0 == path.names.last()
        },
{
    if path.names.len() > 0 {
        assert(path.names.drop_last().push(path.names.last()) =~= path.names);
    }
}

/// What spellings begin with: nothing, a single separator and a name spell what they
/// say, and a `.` that a spelling begins with is a component.
pub proof fn spellings_begin_like_this(name: Seq<u8>)
    ensures
        path_of(Seq::<u8>::empty()).names.len() == 0,
        !path_of(Seq::<u8>::empty()).absolute,
        path_of(seq![47u8]).names.len() == 0,
        path_of(seq![47u8]).absolute,
        path_of(seq![46u8]).names == seq![seq![46u8]],
        !path_of(seq![46u8]).absolute,
        is_entry_name(name) ==> path_of(name).names == seq![name] && !path_of(name).absolute,
{
    let none = Seq::<u8>::empty();
    let root = seq![SLASH];
    let here = seq![DOT];
    assert(pieces(none) == seq![none]);
    components_after_empty_piece(Seq::empty());
    assert(seq![none] + Seq::<Seq<u8>>::empty() =~= seq![none]);
    assert(root.drop_last() =~= none);
    assert(pieces(root) =~= seq![none, none]);
    assert(seq![none, none].drop_last() =~= seq![none]);
    assert(here.drop_last() =~= none);
    assert(none.push(DOT) =~= here);
    assert(pieces(here) =~= seq![here]);
    components_of_valid_names(seq![here], true);
    if is_entry_name(name) {
        assert(name.contains(name[0]));
        pieces_of_appended_name(none, name);
        assert(none + name =~= name);
        assert(pieces(name) =~= seq![name]);
        components_of_valid_names(seq![name], true);
    }
}

/// What a spelling adds after a separator: a name adds one component, and repeated
/// separators, `.` and a trailing separator add none. So paths are equal however
/// many of these their spellings have.
pub proof fn separators_do_not_matter(before: Seq<u8>, after: Seq<u8>)
    requires
        before.len() > 0,
    ensures
        path_of(before.push(47u8)) == path_of(before),
        path_of(before.push(47u8).push(47u8) + after) == path_of(before.push(47u8) + after),
        path_of(before.push(47u8).push(46u8).push(47u8) + after) == path_of(
            before.push(47u8) + after,
        ),
        is_entry_name(after) ==> path_of(before.push(47u8) + after).names == path_of(
            before,
        ).names.push(after),
        path_of(before.push(47u8) + after).absolute == path_of(before).absolute,
        path_of(before).absolute <==> before[0] == 47u8,
{
    let none = Seq::<u8>::empty();
    let slashed = before.push(SLASH);
    let dotted = slashed.push(DOT);
    let all = pieces(before);
    pieces_hold_no_slash(before);
    assert(slashed.drop_last() =~= before);
    assert(pieces(slashed) == all.push(none));
    assert(all.push(none).drop_last() =~= all);
    assert(components(all.push(none), true) == components(all, true));
    assert(slashed[0] == before[0]);
    pieces_around_separator(before, after);
    components_of_both(all, pieces(after));
    assert((slashed + after)[0] == before[0]);
    pieces_around_separator(slashed, after);
    components_of_both(all.push(none), pieces(after));
    assert((slashed.push(SLASH) + after)[0] == before[0]);
    assert(dotted.drop_last() =~= slashed);
    assert(pieces(dotted) =~= all.push(dot())) by {
        assert(none.push(DOT) =~= dot());
    }
    assert(all.push(dot()).drop_last() =~= all);
    assert(components(all.push(dot()), true) == components(all, true));
    pieces_around_separator(dotted, after);
    components_of_both(all.push(dot()), pieces(after));
    assert((dotted.push(SLASH) + after)[0] == before[0]);
    if is_entry_name(after) {
        pieces_of_appended_name(none, after);
        assert(none + after =~= after);
        assert(pieces(none) == seq![none]);
        assert(pieces(after) =~= seq![after]);
        components_of_valid_names(seq![after], false);
        assert(components(all, true) + seq![after] =~= components(all, true).push(after));
    }
}

/// What is joined to a spelling follows one separator, unless the spelling ends in one
/// or is empty. What begins with a separator stands for itself, as a path, too.
pub proof fn joined_with_one_separator(base: Seq<u8>, name: Seq<u8>)
    ensures
        name.len() > 0 && name[0] == 47u8 ==> {
            &&& joined_spelling(base, name) == name
            &&& path_of(base).join(name) == path_of(name)
        },
        (name.len() == 0 || name[0] != 47u8) && base.len() > 0 && base.last() != 47u8
            ==> joined_spelling(base, name) == base.push(47u8) + name,
        (name.len() == 0 || name[0] != 47u8) && (base.len() == 0 || base.last() == 47u8)
            ==> joined_spelling(base, name) == base + name,
{
}

/// The shortest spelling of a path has one separator between any two components, and
/// one before the first if the path starts at the root.
pub proof fn shortest_spelling_grows_by_one_name(path: PathView, name: Seq<u8>)
    ensures
        path.names.len() == 0 && path.absolute ==> path.bytes() == seq![47u8],
        path.names.len() == 0 && !path.absolute ==> path.bytes().len() == 0,
        (PathView { absolute: path.absolute, names: path.names.push(name) }).bytes() == (if path.names.len() == 0 {
            path.bytes()
        } else {
            path.bytes().push(47u8)
        }) + name,
{
    let more = path.names.push(name);
    assert(more.drop_last() =~= path.names);
    if path.names.len() == 0 && path.absolute {
        assert(path.bytes() =~= seq![SLASH]);
    }
    let longer = PathView { absolute: path.absolute, names: more };
    if path.names.len() == 0 {
        assert(more[0] == name);
        assert(longer.bytes() =~= path.bytes() + name);
    } else {
        assert(longer.bytes() =~= path.bytes().push(SLASH) + name);
    }
}

/// The beginning of a spelling that first spells a path with components ends in the
/// last of them, not in a separator, and is the only one.
pub proof fn first_spelling_has_no_trailing_separator(
    bytes: Seq<u8>,
    path: PathView,
    length: int,
    other: int,
)
    requires
        first_spells(bytes, path, length),
    ensures
        path_of(bytes.take(length)) == path,
        path.names.len() > 0 ==> length > 0 && bytes[length - 1] != 47u8,
        0 <= other <= bytes.len() && path_of(bytes.take(other)) == path ==> length <= other,
{
    let none = Seq::<u8>::empty();
    let spelled = bytes.take(length);
    assert(pieces(none) == seq![none]);
    components_after_empty_piece(Seq::empty());
    assert(seq![none] + Seq::<Seq<u8>>::empty() =~= seq![none]);
    if length == 0 {
        assert(spelled =~= none);
    } else if bytes[length - 1] == SLASH {
        let before = bytes.take(length - 1);
        assert(before.push(SLASH) =~= spelled);
        if before.len() > 0 {
            separators_do_not_matter(before, none);
        } else {
            assert(before =~= none);
            let root = seq![SLASH];
            assert(spelled =~= root);
            assert(root.drop_last() =~= none);
            assert(pieces(root) =~= seq![none, none]);
            assert(seq![none, none].drop_last() =~= seq![none]);
        }
    }
    if 0 <= other < length {
        assert(path_of(bytes.take(other)) != path);
    }
}

/// What lies below `base` is spelled by adding to the spelling of `base`, one name at
/// a time, and reads back as what it is.
pub proof fn respelling_reads_back(base: Seq<u8>, path: PathView)
    requires
        path.absolute == path_of(base).absolute,
        path_of(base).names.is_prefix_of(path.names),
        forall|i: int|
            path_of(base).names.len() <= i < path.names.len() ==> is_entry_name(
                #[trigger] path.names[i],
            ),
    ensures
        path_of(respelled(base, path)) == path,
        base.is_prefix_of(respelled(base, path)),
        path.names.len() > path_of(base).names.len() ==> respelled(base, path) == joined_spelling(
            respelled(
                base,
                PathView { absolute: path.absolute, names: path.names.drop_last() },
            ),
            path.names.last(),
        ),
        path == path_of(base) ==> respelled(base, path) == base,
    decreases path.names.len(),
{
    let start = path_of(base).names;
    if path.names.len() <= start.len() {
        assert(path.names =~= start);
        assert(base =~= base.subrange(0, base.len() as int));
    } else {
        let above = PathView { absolute: path.absolute, names: path.names.drop_last() };
        let name = path.names.last();
        assert(start =~= above.names.subrange(0, start.len() as int)) by {
            assert(start =~= path.names.subrange(0, start.len() as int));
        }
        assert forall|i: int|
            start.len() <= i < above.names.len() implies is_entry_name(
            #[trigger] above.names[i],
        ) by {
            assert(above.names[i] == path.names[i]);
        }
        respelling_reads_back(base, above);
        let so_far = respelled(base, above);
        assert(is_entry_name(path.names[path.names.len() - 1]));
        joined_spelling_spells_entry(so_far, name);
        entry_path_of_directory(above, name);
        assert(above.names.push(name) =~= path.names);
        assert(name.contains(name[0]));
        let spelled = respelled(base, path);
        assert(base =~= spelled.subrange(0, base.len() as int)) by {
            assert(base =~= so_far.subrange(0, base.len() as int));
            assert forall|i: int| 0 <= i < base.len() implies base[i] == spelled[i] by {
                assert(so_far.subrange(0, base.len() as int)[i] == so_far[i]);
                assert(spelled[i] == so_far[i]);
            }
        }
    }
}

} // verus!

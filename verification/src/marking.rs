//! What carries the attribute after a round, and what a failed mark changes.

use crate::events::EventView;
use crate::path::PathView;
use crate::recovery;
use crate::recovery::RoundState;
use crate::rules::RuleView;
use crate::settling;
use crate::tree::World;
use vstd::prelude::*;

verus! {

/// A round of work and the paths that carry the attribute.
#[verifier::ext_equal]
pub struct MarkedState {
    pub at: RoundState,
    pub marked: Set<PathView>,
}

/// The paths among `marking` that can be marked.
pub open spec fn markable(
    can_mark: spec_fn(PathView) -> bool,
    marking: Seq<PathView>,
) -> Set<PathView> {
    Set::new(|path: PathView| marking.contains(path) && can_mark(path))
}

impl MarkedState {
    /// True when `next` follows with `marking` handed over for marking, where
    /// exactly those paths get the attribute that `can_mark` holds of; the
    /// attempt to mark any other fails.
    pub open spec fn marks(
        self,
        world: World,
        rules: Seq<RuleView>,
        can_mark: spec_fn(PathView) -> bool,
        marking: Seq<PathView>,
        next: MarkedState,
    ) -> bool {
        &&& self.at.steps_to(world, rules, marking, next.at)
        &&& next.marked == self.marked.union(markable(can_mark, marking))
    }

    /// True when `next` follows.
    pub open spec fn goes_on_to(
        self,
        world: World,
        rules: Seq<RuleView>,
        can_mark: spec_fn(PathView) -> bool,
        next: MarkedState,
    ) -> bool {
        exists|marking: Seq<PathView>| #[trigger]
            self.marks(world, rules, can_mark, marking, next)
    }
}

/// True when `states` are successive states of a round, where exactly those paths
/// can be marked that `can_mark` holds of.
pub open spec fn marks_along(
    world: World,
    rules: Seq<RuleView>,
    can_mark: spec_fn(PathView) -> bool,
    states: Seq<MarkedState>,
) -> bool {
    &&& states.len() > 0
    &&& forall|i: int, j: int|
        0 <= i && j == i + 1 && j < states.len() ==> #[trigger] states[i].goes_on_to(
            world,
            rules,
            can_mark,
            states[j],
        )
}

/// The rounds behind a sequence of states.
pub open spec fn rounds_of(states: Seq<MarkedState>) -> Seq<RoundState> {
    states.map_values(|state: MarkedState| state.at)
}

/// Everything can be marked.
pub open spec fn always() -> spec_fn(PathView) -> bool {
    |path: PathView| true
}

/// A failed mark changes nothing but that the path is not marked: a round in
/// which some attempts fail goes through the same states, takes the same events
/// and ends with the same registry as one in which every attempt succeeds, and
/// of what that one marks it marks exactly what can be marked.
pub proof fn failed_marks_change_nothing_else(
    world: World,
    rules: Seq<RuleView>,
    can_mark: spec_fn(PathView) -> bool,
    states: Seq<MarkedState>,
) -> (others: Seq<MarkedState>)
    requires
        marks_along(world, rules, can_mark, states),
    ensures
        marks_along(world, rules, always(), others),
        others[0] == states[0],
        rounds_of(others) == rounds_of(states),
        forall|path: PathView| #[trigger]
            states.last().marked.contains(path) <==> states[0].marked.contains(path) || (
            others.last().marked.contains(path) && can_mark(path)),
    decreases states.len(),
{
    if states.len() == 1 {
        states
    } else {
        let n = states.len() - 2;
        let fewer = states.drop_last();
        assert forall|i: int, j: int| 0 <= i && j == i + 1 && j < fewer.len() implies #[trigger]
            fewer[i].goes_on_to(world, rules, can_mark, fewer[j]) by {
            assert(states[i].goes_on_to(world, rules, can_mark, states[j]));
        }
        let before = failed_marks_change_nothing_else(world, rules, can_mark, fewer);
        assert(states[n].goes_on_to(world, rules, can_mark, states[n + 1]));
        let marking = choose|marking: Seq<PathView>| #[trigger]
            states[n].marks(world, rules, can_mark, marking, states[n + 1]);
        let last = before.last();
        assert(before.len() == rounds_of(before).len() == fewer.len());
        assert(rounds_of(before)[n] == rounds_of(fewer)[n]);
        let next = MarkedState {
            at: states[n + 1].at,
            marked: last.marked.union(markable(always(), marking)),
        };
        let others = before.push(next);
        assert(last.marks(world, rules, always(), marking, next));
        assert forall|i: int, j: int| 0 <= i && j == i + 1 && j < others.len() implies #[trigger]
            others[i].goes_on_to(world, rules, always(), others[j]) by {
            if j < before.len() {
                assert(before[i].goes_on_to(world, rules, always(), before[j]));
            }
        }
        assert forall|i: int| 0 <= i < states.len() implies rounds_of(others)[i] == rounds_of(
            states,
        )[i] by {
            if i < before.len() {
                assert(rounds_of(before)[i] == rounds_of(fewer)[i]);
            }
        }
        assert(rounds_of(others) =~= rounds_of(states));
        assert forall|path: PathView| #[trigger]
            states.last().marked.contains(path) <==> states[0].marked.contains(path) || (
            others.last().marked.contains(path) && can_mark(path)) by {
            assert(fewer.last().marked.contains(path) <==> states[0].marked.contains(path) || (
            before.last().marked.contains(path) && can_mark(path)));
        }
        others
    }
}

/// What carries the attribute keeps it.
proof fn marks_stay(
    world: World,
    rules: Seq<RuleView>,
    can_mark: spec_fn(PathView) -> bool,
    states: Seq<MarkedState>,
    i: int,
    j: int,
    path: PathView,
)
    requires
        marks_along(world, rules, can_mark, states),
        0 <= i <= j < states.len(),
        states[i].marked.contains(path),
    ensures
        states[j].marked.contains(path),
    decreases j - i,
{
    if i < j {
        marks_stay(world, rules, can_mark, states, i, j - 1, path);
        assert(states[j - 1].goes_on_to(world, rules, can_mark, states[j]));
    }
}

/// A round in which events were lost and that does not fail leaves nothing below
/// the root unmarked that a rule asks to mark, but for what cannot be marked.
pub proof fn overflow_round_marks_what_matches(
    world: World,
    rules: Seq<RuleView>,
    root: PathView,
    events: Seq<EventView>,
    can_mark: spec_fn(PathView) -> bool,
    states: Seq<MarkedState>,
    path: PathView,
)
    requires
        marks_along(world, rules, can_mark, states),
        recovery::completes(world, rules, root, events, rounds_of(states)),
        recovery::reports_overflow(events),
        recovery::rescan_has_unused_descriptors(rounds_of(states)),
        world.mark_target(rules, root, path),
        can_mark(path),
    ensures
        states.last().marked.contains(path),
{
    let rounds = rounds_of(states);
    recovery::overflow_round_restores_the_tree(world, rules, root, events, rounds);
    let n = choose|n: int|
        0 <= n < rounds.len() - 1 && (#[trigger] rounds[n]).to_mark() is Some
            && settling::are_mark_targets(world, rules, root, rounds[n].to_mark()->0);
    assert(rounds[n] == states[n].at);
    assert(states[n].goes_on_to(world, rules, can_mark, states[n + 1]));
    let marking = choose|marking: Seq<PathView>| #[trigger]
        states[n].marks(world, rules, can_mark, marking, states[n + 1]);
    assert(rounds[n].to_mark()->0.contains(path));
    assert(markable(can_mark, marking).contains(path));
    marks_stay(world, rules, can_mark, states, n + 1, states.len() - 1, path);
}

} // verus!

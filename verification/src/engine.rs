//! The engine that evaluates candidates against registered rules.

use crate::path;
use crate::path::{PathView, TreePath};
use crate::rules;
use crate::rules::{
    AnyRule, Candidate, CandidateView, FileType, MatchView, Rule, RuleMatch, RuleView,
};
use crate::sequence;
use crate::text;
use vstd::prelude::*;

verus! {

/// True when rule `i` is the first one in `rules` that the candidate satisfies.
pub open spec fn is_first_match(rules: Seq<RuleView>, candidate: CandidateView, i: int) -> bool {
    &&& 0 <= i < rules.len()
    &&& (rules[i].matches)(candidate)
    &&& forall|j: int| 0 <= j < i ==> !(#[trigger] rules[j].matches)(candidate)
}

/// What the rules say of a candidate: the first match decides.
pub open spec fn verdict(rules: Seq<RuleView>, candidate: CandidateView) -> Option<MatchView> {
    if exists|i: int| is_first_match(rules, candidate, i) {
        let i = choose|i: int| is_first_match(rules, candidate, i);
        Some(MatchView { name: rules[i].name, action: rules[i].action })
    } else {
        None
    }
}

/// True when some rule matches and asks for the Dropbox attribute.
pub open spec fn marks(rules: Seq<RuleView>, candidate: CandidateView) -> bool {
    match verdict(rules, candidate) {
        Some(matched) => matched.action.set_dropbox_ignore,
        None => false,
    }
}

/// True when some rule matches and keeps the walk out of the entry.
pub open spec fn skips(rules: Seq<RuleView>, candidate: CandidateView) -> bool {
    match verdict(rules, candidate) {
        Some(matched) => matched.action.skip_descendants,
        None => false,
    }
}

/// All triggers of the rules.
pub open spec fn triggers(rules: Seq<RuleView>) -> Seq<Seq<char>>
    decreases rules.len(),
{
    if rules.len() == 0 {
        Seq::empty()
    } else {
        triggers(rules.drop_last()) + rules.last().triggers
    }
}

/// All names beside the entry at `path` that the verdict on it can turn on.
pub open spec fn consulted(
    rules: Seq<RuleView>,
    path: PathView,
    file_type: FileType,
) -> Seq<Seq<char>>
    decreases rules.len(),
{
    if rules.len() == 0 {
        Seq::empty()
    } else {
        consulted(rules.drop_last(), path, file_type) + (rules.last().consulted)(path, file_type)
    }
}

/// The byte spelling of each name.
pub open spec fn spelled(names: Seq<Seq<char>>) -> Seq<Seq<u8>> {
    names.map_values(|name: Seq<char>| text::utf8(name))
}

/// True when `name` spells a trigger of some rule.
pub open spec fn names_trigger(rules: Seq<RuleView>, name: Seq<u8>) -> bool {
    spelled(triggers(rules)).contains(name)
}

/// True when every rule is local.
pub open spec fn all_local(rules: Seq<RuleView>) -> bool {
    forall|i: int| 0 <= i < rules.len() ==> (#[trigger] rules[i]).is_local()
}

/// True when the triggers of the rules are plain file names.
pub open spec fn has_plain_triggers(rules: Seq<RuleView>) -> bool {
    forall|name: Seq<u8>| #[trigger] names_trigger(rules, name) ==> path::is_entry_name(name)
}

/// At most one rule is the first that matches.
proof fn first_match_is_unique(rules: Seq<RuleView>, candidate: CandidateView, i: int, j: int)
    requires
        is_first_match(rules, candidate, i),
        is_first_match(rules, candidate, j),
    ensures
        i == j,
{
    if i < j {
        assert(!(rules[i].matches)(candidate));
    }
    if j < i {
        assert(!(rules[j].matches)(candidate));
    }
}

/// The order of the rules is their priority: a match takes its name and action
/// from the first rule that the candidate satisfies, whatever later rules say,
/// and there is no match exactly when no rule is satisfied.
pub proof fn first_match_wins(rules: Seq<RuleView>, candidate: CandidateView)
    ensures
        forall|i: int| #[trigger]
            is_first_match(rules, candidate, i) ==> verdict(rules, candidate) == Some(
                MatchView { name: rules[i].name, action: rules[i].action },
            ),
        verdict(rules, candidate) is None <==> forall|i: int|
            0 <= i < rules.len() ==> !(#[trigger] rules[i].matches)(candidate),
{
    assert forall|i: int| #[trigger] is_first_match(rules, candidate, i) implies verdict(
        rules,
        candidate,
    ) == Some(MatchView { name: rules[i].name, action: rules[i].action }) by {
        let chosen = choose|k: int| is_first_match(rules, candidate, k);
        first_match_is_unique(rules, candidate, i, chosen);
    }
    if exists|i: int| 0 <= i < rules.len() && (#[trigger] rules[i].matches)(candidate) {
        let i = choose|i: int| 0 <= i < rules.len() && (#[trigger] rules[i].matches)(candidate);
        some_match_has_a_first(rules, candidate, i);
    }
}

/// Where some rule matches, one of them is the first.
proof fn some_match_has_a_first(rules: Seq<RuleView>, candidate: CandidateView, i: int)
    requires
        0 <= i < rules.len(),
        (rules[i].matches)(candidate),
    ensures
        exists|k: int| is_first_match(rules, candidate, k),
    decreases i,
{
    if forall|j: int| 0 <= j < i ==> !(#[trigger] rules[j].matches)(candidate) {
        assert(is_first_match(rules, candidate, i));
    } else {
        let j = choose|j: int| 0 <= j < i && (#[trigger] rules[j].matches)(candidate);
        some_match_has_a_first(rules, candidate, j);
    }
}

/// What one rule consults is among what all consult, and its triggers are
/// among all triggers.
proof fn members_of_one_rule(
    rules: Seq<RuleView>,
    i: int,
    path: PathView,
    file_type: FileType,
    name: Seq<char>,
)
    requires
        0 <= i < rules.len(),
    ensures
        (rules[i].consulted)(path, file_type).contains(name) ==> consulted(
            rules,
            path,
            file_type,
        ).contains(name),
        rules[i].triggers.contains(name) ==> triggers(rules).contains(name),
    decreases rules.len(),
{
    let last = rules.last();
    let before = rules.drop_last();
    let asked = consulted(before, path, file_type);
    let asked_last = (last.consulted)(path, file_type);
    let named = triggers(before);
    if i == rules.len() - 1 {
        if asked_last.contains(name) {
            let k = choose|k: int| 0 <= k < asked_last.len() && asked_last[k] == name;
            assert((asked + asked_last)[asked.len() + k] == name);
        }
        if last.triggers.contains(name) {
            let k = choose|k: int| 0 <= k < last.triggers.len() && last.triggers[k] == name;
            assert((named + last.triggers)[named.len() + k] == name);
        }
    } else {
        members_of_one_rule(before, i, path, file_type, name);
        assert(before[i] == rules[i]);
        if asked.contains(name) {
            let k = choose|k: int| 0 <= k < asked.len() && asked[k] == name;
            assert((asked + asked_last)[k] == name);
        }
        if named.contains(name) {
            let k = choose|k: int| 0 <= k < named.len() && named[k] == name;
            assert((named + last.triggers)[k] == name);
        }
    }
}

/// Two candidates on which every rule agrees have the same verdict.
proof fn same_matches_same_verdict(
    rules: Seq<RuleView>,
    left: CandidateView,
    right: CandidateView,
)
    requires
        forall|i: int|
            #![trigger rules[i]]
            0 <= i < rules.len() ==> (rules[i].matches)(left) == (rules[i].matches)(right),
    ensures
        verdict(rules, left) == verdict(rules, right),
{
    assert forall|i: int| #[trigger]
        is_first_match(rules, left, i) implies is_first_match(rules, right, i) by {
        assert forall|j: int| 0 <= j < i implies !(#[trigger] rules[j].matches)(right) by {
            assert(!(rules[j].matches)(left));
        }
    }
    assert forall|i: int| #[trigger]
        is_first_match(rules, right, i) implies is_first_match(rules, left, i) by {
        assert forall|j: int| 0 <= j < i implies !(#[trigger] rules[j].matches)(left) by {
            assert(!(rules[j].matches)(right));
        }
    }
    first_match_wins(rules, left);
    first_match_wins(rules, right);
    if exists|i: int| is_first_match(rules, left, i) {
        let i = choose|i: int| is_first_match(rules, left, i);
        assert(is_first_match(rules, right, i));
    }
}

/// The verdict on an entry turns only on the siblings that the rules consult
/// for it: looking for those, and for no other file, is enough to evaluate it.
pub proof fn verdict_turns_on_consulted_siblings(
    rules: Seq<RuleView>,
    left: CandidateView,
    right: CandidateView,
)
    requires
        all_local(rules),
        left.agrees_on(right, consulted(rules, left.path, left.file_type)),
    ensures
        verdict(rules, left) == verdict(rules, right),
{
    assert forall|i: int| #![trigger rules[i]] 0 <= i < rules.len() implies (rules[i].matches)(left)
        == (rules[i].matches)(right) by {
        assert(rules[i].is_local());
        let names = (rules[i].consulted)(left.path, left.file_type);
        assert forall|name: Seq<char>| #[trigger] names.contains(name) implies left.siblings.contains(
            text::utf8(name),
        ) == right.siblings.contains(text::utf8(name)) by {
            members_of_one_rule(rules, i, left.path, left.file_type, name);
        }
        assert(left.agrees_on(right, names));
    }
    same_matches_same_verdict(rules, left, right);
}

/// Scope of a trigger: as long as no trigger appears in or disappears from an
/// entry's directory, the verdict on the entry stays what it was, whatever else
/// happens beside it. So a rescan of the directory in which a trigger appeared
/// reconciles every verdict that the trigger can have changed.
pub proof fn verdict_turns_on_triggers_beside_it(
    rules: Seq<RuleView>,
    before: CandidateView,
    after: CandidateView,
)
    requires
        all_local(rules),
        before.path == after.path,
        before.file_type == after.file_type,
        forall|name: Seq<u8>| #[trigger]
            names_trigger(rules, name) ==> before.siblings.contains(name)
                == after.siblings.contains(name),
    ensures
        verdict(rules, before) == verdict(rules, after),
{
    assert forall|i: int| #![trigger rules[i]] 0 <= i < rules.len() implies (rules[i].matches)(
        before,
    ) == (rules[i].matches)(after) by {
        assert(rules[i].is_local());
        let names = (rules[i].consulted)(before.path, before.file_type);
        assert forall|name: Seq<char>| #[trigger]
            names.contains(name) implies before.siblings.contains(text::utf8(name))
            == after.siblings.contains(text::utf8(name)) by {
            members_of_one_rule(rules, i, before.path, before.file_type, name);
            let all = triggers(rules);
            let k = choose|k: int| 0 <= k < all.len() && all[k] == name;
            assert(spelled(all)[k] == text::utf8(name));
            assert(names_trigger(rules, text::utf8(name)));
        }
        assert(before.agrees_on(after, names));
    }
    same_matches_same_verdict(rules, before, after);
}

/// Names that are not UTF-8 never are triggers.
pub proof fn triggers_are_utf8(rules: Seq<RuleView>, name: Seq<u8>)
    requires
        names_trigger(rules, name),
    ensures
        vstd::utf8::valid_utf8(name),
{
    let all = triggers(rules);
    let k = choose|k: int| 0 <= k < spelled(all).len() && spelled(all)[k] == name;
    assert(name == text::utf8(all[k]));
    vstd::utf8::encode_utf8_valid_utf8(all[k]);
}

/// Under the production rules a version control directory is never marked and
/// never descended into, whatever stands beside it.
pub proof fn version_control_directories_are_skipped_unmarked(
    candidate: CandidateView,
    name: Seq<char>,
)
    requires
        candidate.is_dir_named(name),
        seq![".git"@, ".hg"@, ".svn"@, ".jj"@, ".bzr"@].contains(name),
    ensures
        !marks(rules::default_models(), candidate),
        skips(rules::default_models(), candidate),
{
    let all = rules::default_models();
    let dirs = seq![".git"@, ".hg"@, ".svn"@, ".jj"@, ".bzr"@];
    let k = choose|k: int| 0 <= k < dirs.len() && dirs[k] == name;
    assert(candidate.is_dir_named(dirs[k]));
    assert(all[0] == rules::vcs_dirs_rule());
    assert(is_first_match(all, candidate, 0));
    first_match_wins(all, candidate);
}

/// Under the production rules every match keeps the walk out of the entry.
pub proof fn default_matches_skip_descendants(candidate: CandidateView)
    ensures
        verdict(rules::default_models(), candidate) is Some ==> skips(
            rules::default_models(),
            candidate,
        ),
{
    let all = rules::default_models();
    assert forall|i: int| 0 <= i < all.len() implies (#[trigger] all[i]).action.skip_descendants by {
        assert(all.len() == 18);
    }
}

/// Under the production rules everything that matches is marked, except for
/// version control directories.
pub proof fn default_matches_are_marked_outside_version_control(candidate: CandidateView)
    requires
        !(rules::vcs_dirs_rule().matches)(candidate),
    ensures
        verdict(rules::default_models(), candidate) is Some ==> marks(
            rules::default_models(),
            candidate,
        ),
{
    let all = rules::default_models();
    assert(all[0] == rules::vcs_dirs_rule());
    assert forall|i: int| 1 <= i < all.len() implies (
    #[trigger] all[i]).action.set_dropbox_ignore by {
        assert(all.len() == 18);
    }
    first_match_wins(all, candidate);
}

/// The production rules are local.
pub proof fn default_rules_are_local()
    ensures
        all_local(rules::default_models()),
{
    let all = rules::default_models();
    assert forall|i: int| 0 <= i < all.len() implies (#[trigger] all[i]).is_local() by {
        assert(all.len() == 18);
        if i == 7 {
            assert(rules::egg_info_rule().is_local());
        } else if 3 <= i <= 5 || 12 <= i <= 15 {
            let markers = all[i].triggers;
            assert(exists|name: Seq<char>, dir: Seq<char>|
                all[i] == #[trigger] rules::marked_build_dir_rule(name, dir, markers));
            let (name, dir) = choose|name: Seq<char>, dir: Seq<char>|
                all[i] == #[trigger] rules::marked_build_dir_rule(name, dir, markers);
            rules::marked_build_dir_rules_are_local(name, dir, markers);
        } else {
            let (name, dirs) = choose|name: Seq<char>, dirs: Seq<Seq<char>>|
                all[i] == #[trigger] rules::artifact_dirs_rule(name, dirs, all[i].action);
            rules::artifact_dirs_rules_are_local(name, dirs, all[i].action);
        }
    }
}

/// A trigger of the rules is a trigger of one of them.
proof fn trigger_of_one_rule(rules: Seq<RuleView>, name: Seq<char>)
    requires
        triggers(rules).contains(name),
    ensures
        exists|i: int| 0 <= i < rules.len() && (#[trigger] rules[i]).triggers.contains(name),
    decreases rules.len(),
{
    if rules.len() > 0 {
        let before = rules.drop_last();
        sequence::contains_in_both(triggers(before), rules.last().triggers);
        if triggers(before).contains(name) {
            trigger_of_one_rule(before, name);
            let i = choose|i: int|
                0 <= i < before.len() && (#[trigger] before[i]).triggers.contains(name);
            assert(rules[i].triggers.contains(name));
        } else {
            assert(rules[rules.len() - 1].triggers.contains(name));
        }
    }
}

/// A name is a trigger exactly when it spells a trigger of one of the rules.
pub proof fn triggers_are_those_of_the_rules(rules: Seq<RuleView>, name: Seq<u8>)
    ensures
        names_trigger(rules, name) <==> exists|i: int, k: int|
            0 <= i < rules.len() && 0 <= k < rules[i].triggers.len()
                && #[trigger] vstd::utf8::encode_utf8(rules[i].triggers[k]) == name,
{
    let all = triggers(rules);
    if names_trigger(rules, name) {
        let at = choose|at: int| 0 <= at < spelled(all).len() && spelled(all)[at] == name;
        assert(all.contains(all[at]));
        trigger_of_one_rule(rules, all[at]);
        let i = choose|i: int|
            0 <= i < rules.len() && (#[trigger] rules[i]).triggers.contains(all[at]);
        let k = choose|k: int|
            0 <= k < rules[i].triggers.len() && rules[i].triggers[k] == all[at];
        assert(vstd::utf8::encode_utf8(rules[i].triggers[k]) == name);
    }
    if exists|i: int, k: int|
        0 <= i < rules.len() && 0 <= k < rules[i].triggers.len()
            && #[trigger] vstd::utf8::encode_utf8(rules[i].triggers[k]) == name {
        let (i, k) = choose|i: int, k: int|
            0 <= i < rules.len() && 0 <= k < rules[i].triggers.len()
                && #[trigger] vstd::utf8::encode_utf8(rules[i].triggers[k]) == name;
        let one = rules[i].triggers[k];
        assert(rules[i].triggers.contains(one));
        members_of_one_rule(
            rules,
            i,
            PathView { absolute: true, names: Seq::empty() },
            FileType::Other,
            one,
        );
        let at = choose|at: int| 0 <= at < all.len() && all[at] == one;
        assert(spelled(all)[at] == name);
    }
}

/// What the rules say, in terms of the rules themselves: the verdict is that of the
/// first rule that matches, it marks if that rule does, and keeps out if that rule
/// does. Without a rule that matches there is no verdict, and nothing is done.
pub proof fn first_rule_that_matches_decides(
    rules: Seq<RuleView>,
    candidate: CandidateView,
    k: int,
)
    requires
        0 <= k <= rules.len(),
        forall|j: int| 0 <= j < k ==> !(#[trigger] rules[j].matches)(candidate),
        k < rules.len() ==> (rules[k].matches)(candidate),
    ensures
        k < rules.len() ==> {
            &&& verdict(rules, candidate) == Some(
                MatchView { name: rules[k].name, action: rules[k].action },
            )
            &&& marks(rules, candidate) == rules[k].action.set_dropbox_ignore
            &&& skips(rules, candidate) == rules[k].action.skip_descendants
        },
        k == rules.len() ==> {
            &&& verdict(rules, candidate) is None
            &&& !marks(rules, candidate)
            &&& !skips(rules, candidate)
        },
{
    first_match_wins(rules, candidate);
    if k < rules.len() {
        assert(is_first_match(rules, candidate, k));
    }
}

/// Every name that a rule consults for an entry is consulted, as it is spelled.
pub proof fn rules_are_consulted(
    rules: Seq<RuleView>,
    path: PathView,
    file_type: FileType,
    i: int,
    name: Seq<char>,
)
    requires
        0 <= i < rules.len(),
        (rules[i].consulted)(path, file_type).contains(name),
    ensures
        spelled(consulted(rules, path, file_type)).contains(vstd::utf8::encode_utf8(name)),
{
    let all = consulted(rules, path, file_type);
    members_of_one_rule(rules, i, path, file_type, name);
    let k = choose|k: int| 0 <= k < all.len() && all[k] == name;
    assert(spelled(all)[k] == vstd::utf8::encode_utf8(name));
}

/// An ASCII text of some length without a separator is a plain file name.
proof fn ascii_names_are_plain(name: Seq<char>)
    requires
        name.len() > 2,
        vstd::utf8::is_ascii_chars(name),
        !name.contains('/'),
    ensures
        path::is_entry_name(text::utf8(name)),
{
    vstd::utf8::is_ascii_chars_encode_utf8(name);
    let bytes = text::utf8(name);
    assert forall|i: int| 0 <= i < bytes.len() implies bytes[i] != path::SLASH by {
        assert(name.contains(name[i]));
        assert(bytes[i] == name[i] as u8);
    }
}

/// The triggers of the production rules are plain file names.
pub proof fn default_triggers_are_plain()
    ensures
        has_plain_triggers(rules::default_models()),
{
    let all = rules::default_models();
    assert forall|bytes: Seq<u8>| #[trigger] names_trigger(all, bytes) implies path::is_entry_name(
        bytes,
    ) by {
        let named = triggers(all);
        let k = choose|k: int| 0 <= k < spelled(named).len() && spelled(named)[k] == bytes;
        let name = named[k];
        assert(named.contains(name));
        trigger_of_one_rule(all, name);
        let i = choose|i: int| 0 <= i < all.len() && (#[trigger] all[i]).triggers.contains(name);
        default_trigger_is_plain(i, name);
    }
}

/// The same of one trigger of one rule.
proof fn default_trigger_is_plain(i: int, name: Seq<char>)
    requires
        0 <= i < rules::default_models().len(),
        rules::default_models()[i].triggers.contains(name),
    ensures
        path::is_entry_name(text::utf8(name)),
{
    let listed = rules::default_models()[i].triggers;
    let k = choose|k: int| 0 <= k < listed.len() && listed[k] == name;
    reveal_strlit("Cargo.toml");
    reveal_strlit("pom.xml");
    reveal_strlit("build.gradle");
    reveal_strlit("build.gradle.kts");
    reveal_strlit("settings.gradle");
    reveal_strlit("settings.gradle.kts");
    reveal_strlit("composer.json");
    reveal_strlit("mix.exs");
    reveal_strlit("build.zig");
    assert(rules::default_models().len() == 18);
    assert(listed.len() <= 4);
    assert(name == "Cargo.toml"@ || name == "pom.xml"@ || name == "build.gradle"@ || name
        == "build.gradle.kts"@ || name == "settings.gradle"@ || name == "settings.gradle.kts"@
        || name == "composer.json"@ || name == "mix.exs"@ || name == "build.zig"@);
    ascii_names_are_plain(name);
}

/// Simple rule engine that evaluates candidates against registered rules.
pub struct RuleEngine {
    rules: Vec<AnyRule>,
    triggers: Vec<&'static str>,
}

impl View for RuleEngine {
    type V = Seq<RuleView>;

    closed spec fn view(&self) -> Seq<RuleView> {
        rules::models(self.rules@)
    }
}

impl RuleEngine {
    #[verifier::type_invariant]
    closed spec fn well_formed(self) -> bool {
        &&& text::texts(self.triggers@) == triggers(self.view())
        &&& all_local(self.view())
    }

    /// Registers `rules` in priority order.
    pub fn new(rules: Vec<AnyRule>) -> (engine: RuleEngine)
        ensures
            engine@ == rules::models(rules@),
            all_local(engine@),
    {
        let ghost all = rules::models(rules@);
        let mut names: Vec<&'static str> = Vec::new();
        let mut i: usize = 0;
        assert(text::texts(names@) =~= triggers(all.take(0)));
        while i < rules.len()
            invariant
                i <= rules@.len(),
                all == rules::models(rules@),
                text::texts(names@) == triggers(all.take(i as int)),
                forall|k: int| 0 <= k < i ==> (#[trigger] all[k]).is_local(),
            decreases rules@.len() - i,
        {
            let more = rules[i].triggers();
            let ghost before = names@;
            append_names(&mut names, more);
            proof {
                assert(all[i as int] == rules@[i as int].model());
                assert(all.take(i + 1).drop_last() =~= all.take(i as int));
                assert(text::texts(names@) =~= text::texts(before) + text::texts(more@));
            }
            i = i + 1;
        }
        assert(all.take(rules@.len() as int) =~= all);
        RuleEngine { rules, triggers: names }
    }

    /// True when `name` is a dependency filename declared by some rule. A
    /// created entry with this name should schedule a rescan so order-dependent
    /// rules (e.g. Cargo `target`) are reconciled.
    pub fn is_trigger(&self, name: &[u8]) -> (result: bool)
        ensures
            result == names_trigger(self@, name@),
    {
        proof {
            use_type_invariant(self);
        }
        let ghost all = spelled(triggers(self@));
        let mut i: usize = 0;
        while i < self.triggers.len()
            invariant
                i <= self.triggers@.len(),
                all == spelled(triggers(self@)),
                all == spelled(text::texts(self.triggers@)),
                forall|k: int| 0 <= k < i ==> #[trigger] all[k] != name@,
            decreases self.triggers@.len() - i,
        {
            let trigger = self.triggers[i];
            assert(all[i as int] == text::utf8(trigger@));
            if text::bytes_equal(trigger.as_bytes(), name) {
                assert(all.contains(name@));
                return true;
            }
            i = i + 1;
        }
        false
    }

    /// Returns the first matching rule. The ordering in `rules` defines
    /// priority.
    pub fn evaluate(&self, candidate: &Candidate<'_>) -> (matched: Option<RuleMatch>)
        ensures
            match matched {
                Some(found) => verdict(self@, candidate@) == Some(found@),
                None => verdict(self@, candidate@) is None,
            },
    {
        proof {
            first_match_wins(self@, candidate@);
        }
        let mut i: usize = 0;
        while i < self.rules.len()
            invariant
                i <= self.rules@.len(),
                self@ == rules::models(self.rules@),
                forall|k: int| 0 <= k < i ==> !(#[trigger] self@[k].matches)(candidate@),
                forall|k: int| #[trigger]
                    is_first_match(self@, candidate@, k) ==> verdict(self@, candidate@) == Some(
                        MatchView { name: self@[k].name, action: self@[k].action },
                    ),
            decreases self.rules@.len() - i,
        {
            let rule = &self.rules[i];
            assert(self@[i as int] == rule.model());
            if rule.matches(candidate) {
                assert(is_first_match(self@, candidate@, i as int));
                return Some(RuleMatch { name: rule.name(), action: rule.action() });
            }
            i = i + 1;
        }
        None
    }

    /// The names to look for in the parent directory before the entry at
    /// `path` is evaluated.
    pub fn consulted(&self, path: &TreePath, file_type: FileType) -> (names: Vec<Vec<u8>>)
        ensures
            text::byte_names(names@) == spelled(consulted(self@, path@, file_type)),
            all_local(self@),
    {
        proof {
            use_type_invariant(self);
        }
        let mut names: Vec<Vec<u8>> = Vec::new();
        let mut i: usize = 0;
        assert(text::byte_names(names@) =~= spelled(consulted(self@.take(0), path@, file_type)));
        while i < self.rules.len()
            invariant
                i <= self.rules@.len(),
                self@ == rules::models(self.rules@),
                text::byte_names(names@) == spelled(
                    consulted(self@.take(i as int), path@, file_type),
                ),
            decreases self.rules@.len() - i,
        {
            let more = self.rules[i].consulted(path, file_type);
            let ghost before = names@;
            append_spelled(&mut names, more);
            proof {
                assert(self@[i as int] == self.rules@[i as int].model());
                assert(self@.take(i + 1).drop_last() =~= self@.take(i as int));
                assert(text::byte_names(names@) =~= spelled(
                    consulted(self@.take(i + 1), path@, file_type),
                ));
            }
            i = i + 1;
        }
        assert(self@.take(self.rules@.len() as int) =~= self@);
        names
    }
}

/// Appends `more` to `names`.
fn append_names(names: &mut Vec<&'static str>, more: &'static [&'static str])
    ensures
        final(names)@ == old(names)@ + more@,
{
    let ghost before = names@;
    let mut i: usize = 0;
    while i < more.len()
        invariant
            i <= more@.len(),
            names@ == before + more@.take(i as int),
        decreases more@.len() - i,
    {
        names.push(more[i]);
        assert(names@ =~= before + more@.take(i + 1));
        i = i + 1;
    }
    assert(more@.take(more@.len() as int) =~= more@);
}

/// Appends the spelling of each of `more` to `names`.
fn append_spelled(names: &mut Vec<Vec<u8>>, more: &'static [&'static str])
    ensures
        text::byte_names(final(names)@) == text::byte_names(old(names)@) + spelled(
            text::texts(more@),
        ),
{
    let ghost before = names@;
    let mut i: usize = 0;
    while i < more.len()
        invariant
            i <= more@.len(),
            names@.len() == before.len() + i,
            forall|k: int| 0 <= k < before.len() ==> names@[k] == before[k],
            forall|k: int| 0 <= k < i ==> names@[before.len() + k]@ == text::utf8(more@[k]@),
        decreases more@.len() - i,
    {
        names.push(vstd::slice::slice_to_vec(more[i].as_bytes()));
        i = i + 1;
    }
    let ghost wanted = text::byte_names(before) + spelled(text::texts(more@));
    assert forall|k: int| 0 <= k < wanted.len() implies text::byte_names(names@)[k] == wanted[k] by {
        if k >= before.len() {
            let m = k - before.len();
            assert(names@[before.len() + m]@ == text::utf8(more@[m]@));
        }
    }
    assert(text::byte_names(names@) =~= wanted);
}

} // verus!

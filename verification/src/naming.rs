//! What the production rules say of a name.
//!
//! Names are written out here, so what is said holds of the bytes in the file
//! system.

use crate::engine;
use crate::path::PathView;
use crate::rules;
use crate::rules::{CandidateView, FileType, MatchAction, MatchView};
use crate::text;
use crate::tree::World;
use vstd::prelude::*;

verus! {

/// True for a directory whose name is, byte for byte, `name`.
pub open spec fn is_directory(candidate: CandidateView, name: Seq<char>) -> bool {
    &&& candidate.file_type == FileType::Directory
    &&& candidate.path.names.len() > 0
    &&& candidate.path.names.last() == vstd::utf8::encode_utf8(name)
}

/// True when an entry of this name stands beside the candidate.
pub open spec fn is_beside(candidate: CandidateView, name: Seq<char>) -> bool {
    candidate.siblings.contains(vstd::utf8::encode_utf8(name))
}

/// True when the name of the candidate ends in `suffix`.
pub open spec fn has_suffix(candidate: CandidateView, suffix: Seq<char>) -> bool {
    let tail = vstd::utf8::encode_utf8(suffix);
    let name = candidate.path.names.last();
    &&& candidate.path.names.len() > 0
    &&& tail.len() <= name.len()
    &&& name.skip(name.len() - tail.len()) == tail
}

/// The match that marks an entry and keeps out of it.
pub open spec fn artifact(name: Seq<char>) -> Option<MatchView> {
    Some(
        MatchView {
            name,
            action: MatchAction { set_dropbox_ignore: true, skip_descendants: true },
        },
    )
}

/// A version control directory.
pub open spec fn is_version_control(candidate: CandidateView) -> bool {
    ||| is_directory(candidate, ".git"@)
    ||| is_directory(candidate, ".hg"@)
    ||| is_directory(candidate, ".svn"@)
    ||| is_directory(candidate, ".jj"@)
    ||| is_directory(candidate, ".bzr"@)
}

/// A Python environment or tool cache.
pub open spec fn is_python_cache(candidate: CandidateView) -> bool {
    ||| is_directory(candidate, ".venv"@)
    ||| is_directory(candidate, "venv"@)
    ||| is_directory(candidate, "__pycache__"@)
    ||| is_directory(candidate, ".pytest_cache"@)
    ||| is_directory(candidate, ".mypy_cache"@)
    ||| is_directory(candidate, ".ruff_cache"@)
    ||| is_directory(candidate, ".tox"@)
}

/// A JavaScript build output or tool cache.
pub open spec fn is_javascript_cache(candidate: CandidateView) -> bool {
    ||| is_directory(candidate, ".next"@)
    ||| is_directory(candidate, ".nuxt"@)
    ||| is_directory(candidate, ".turbo"@)
    ||| is_directory(candidate, ".parcel-cache"@)
    ||| is_directory(candidate, ".svelte-kit"@)
    ||| is_directory(candidate, ".astro"@)
    ||| is_directory(candidate, ".angular"@)
    ||| is_directory(candidate, ".vite"@)
}

/// A Gradle script stands beside the candidate.
pub open spec fn is_beside_gradle_script(candidate: CandidateView) -> bool {
    ||| is_beside(candidate, "build.gradle"@)
    ||| is_beside(candidate, "build.gradle.kts"@)
    ||| is_beside(candidate, "settings.gradle"@)
    ||| is_beside(candidate, "settings.gradle.kts"@)
}

/// The directory has one of the names that stand for an artifact wherever they
/// occur.
pub open spec fn is_listed(candidate: CandidateView) -> bool {
    ||| is_version_control(candidate)
    ||| is_directory(candidate, "node_modules"@)
    ||| is_directory(candidate, ".pnpm-store"@)
    ||| is_python_cache(candidate)
    ||| is_javascript_cache(candidate)
    ||| is_directory(candidate, ".gradle"@)
    ||| is_directory(candidate, ".terraform"@)
    ||| is_directory(candidate, ".terragrunt-cache"@)
    ||| is_directory(candidate, ".direnv"@)
    ||| is_directory(candidate, ".devenv"@)
    ||| is_directory(candidate, ".zig-cache"@)
    ||| is_directory(candidate, ".dart_tool"@)
}

/// The directory has one of the names that stand for a build directory where the
/// file of a build tool stands beside it, and one does.
pub open spec fn is_guarded(candidate: CandidateView) -> bool {
    ||| is_directory(candidate, "target"@) && (is_beside(candidate, "Cargo.toml"@) || is_beside(
        candidate,
        "pom.xml"@,
    ))
    ||| is_directory(candidate, "build"@) && is_beside_gradle_script(candidate)
    ||| is_directory(candidate, "vendor"@) && is_beside(candidate, "composer.json"@)
    ||| is_directory(candidate, "_build"@) && is_beside(candidate, "mix.exs"@)
    ||| is_directory(candidate, "deps"@) && is_beside(candidate, "mix.exs"@)
    ||| is_directory(candidate, "zig-out"@) && is_beside(candidate, "build.zig"@)
}

/// No encoding is shorter than its text.
proof fn encoding_is_no_shorter(name: Seq<char>)
    ensures
        vstd::utf8::encode_utf8(name).len() >= name.len(),
    decreases name.len(),
{
    if name.len() > 0 {
        vstd::utf8::encode_utf8_first_scalar(name);
        encoding_is_no_shorter(name.drop_first());
    }
}

/// For a name of more than two characters, the last component of the path decides.
proof fn names_decide(candidate: CandidateView, name: Seq<char>)
    requires
        name.len() > 2,
    ensures
        candidate.is_dir_named(name) <==> is_directory(candidate, name),
{
    encoding_is_no_shorter(name);
}

/// A rule that lists names matches exactly the directories that have, byte for byte,
/// one of the names.
pub proof fn listed_names_decide(
    name: Seq<char>,
    dirs: Seq<Seq<char>>,
    action: MatchAction,
    candidate: CandidateView,
)
    requires
        forall|i: int| 0 <= i < dirs.len() ==> (#[trigger] dirs[i]).len() > 2,
    ensures
        (rules::artifact_dirs_rule(name, dirs, action).matches)(candidate) <==> exists|i: int|
            0 <= i < dirs.len() && is_directory(candidate, #[trigger] dirs[i]),
{
    if (rules::artifact_dirs_rule(name, dirs, action).matches)(candidate) {
        let i = choose|i: int| 0 <= i < dirs.len() && #[trigger] candidate.is_dir_named(dirs[i]);
        names_decide(candidate, dirs[i]);
    }
    if exists|i: int| 0 <= i < dirs.len() && is_directory(candidate, #[trigger] dirs[i]) {
        let i = choose|i: int|
            0 <= i < dirs.len() && is_directory(candidate, #[trigger] dirs[i]);
        names_decide(candidate, dirs[i]);
    }
}

/// A rule with markers matches exactly the directories that have, byte for byte, its
/// name, and beside which one of the markers stands.
pub proof fn name_and_markers_decide(
    name: Seq<char>,
    dir: Seq<char>,
    markers: Seq<Seq<char>>,
    candidate: CandidateView,
)
    requires
        dir.len() > 2,
    ensures
        (rules::marked_build_dir_rule(name, dir, markers).matches)(candidate) <==> is_directory(
            candidate,
            dir,
        ) && exists|i: int| 0 <= i < markers.len() && is_beside(candidate, #[trigger] markers[i]),
{
    names_decide(candidate, dir);
    if exists|i: int| 0 <= i < markers.len() && is_beside(candidate, #[trigger] markers[i]) {
        let i = choose|i: int|
            0 <= i < markers.len() && is_beside(candidate, #[trigger] markers[i]);
        assert(candidate.siblings.contains(text::utf8(markers[i])));
    }
}

/// What the rule at position `i` of the production rules looks for.
spec fn looked_for(candidate: CandidateView, i: int) -> bool {
    if i == 0 {
        is_version_control(candidate)
    } else if i == 1 {
        is_directory(candidate, "node_modules"@)
    } else if i == 2 {
        is_directory(candidate, ".pnpm-store"@)
    } else if i == 3 {
        is_directory(candidate, "target"@) && is_beside(candidate, "Cargo.toml"@)
    } else if i == 4 {
        is_directory(candidate, "target"@) && is_beside(candidate, "pom.xml"@)
    } else if i == 5 {
        is_directory(candidate, "build"@) && is_beside_gradle_script(candidate)
    } else if i == 6 {
        is_python_cache(candidate)
    } else if i == 7 {
        has_suffix(candidate, ".egg-info"@)
    } else if i == 8 {
        is_javascript_cache(candidate)
    } else if i == 9 {
        is_directory(candidate, ".gradle"@)
    } else if i == 10 {
        is_directory(candidate, ".terraform"@) || is_directory(candidate, ".terragrunt-cache"@)
    } else if i == 11 {
        is_directory(candidate, ".direnv"@) || is_directory(candidate, ".devenv"@)
    } else if i == 12 {
        is_directory(candidate, "vendor"@) && is_beside(candidate, "composer.json"@)
    } else if i == 13 {
        is_directory(candidate, "_build"@) && is_beside(candidate, "mix.exs"@)
    } else if i == 14 {
        is_directory(candidate, "deps"@) && is_beside(candidate, "mix.exs"@)
    } else if i == 15 {
        is_directory(candidate, "zig-out"@) && is_beside(candidate, "build.zig"@)
    } else if i == 16 {
        is_directory(candidate, ".zig-cache"@)
    } else {
        is_directory(candidate, ".dart_tool"@)
    }
}

/// A rule that lists one name matches exactly the directories of that name.
proof fn one_name_decides(
    name: Seq<char>,
    dir: Seq<char>,
    action: MatchAction,
    candidate: CandidateView,
)
    requires
        dir.len() > 2,
    ensures
        (rules::artifact_dirs_rule(name, seq![dir], action).matches)(candidate) <==> is_directory(
            candidate,
            dir,
        ),
{
    let dirs = seq![dir];
    listed_names_decide(name, dirs, action, candidate);
    assert(dirs[0] == dir);
}

/// The same of two names.
proof fn two_names_decide(
    name: Seq<char>,
    first: Seq<char>,
    second: Seq<char>,
    action: MatchAction,
    candidate: CandidateView,
)
    requires
        first.len() > 2,
        second.len() > 2,
    ensures
        (rules::artifact_dirs_rule(name, seq![first, second], action).matches)(candidate)
            <==> is_directory(candidate, first) || is_directory(candidate, second),
{
    let dirs = seq![first, second];
    listed_names_decide(name, dirs, action, candidate);
    assert(dirs[0] == first);
    assert(dirs[1] == second);
}

/// A rule with one marker matches exactly the directories of its name beside which
/// the marker stands.
proof fn one_marker_decides(
    name: Seq<char>,
    dir: Seq<char>,
    marker: Seq<char>,
    candidate: CandidateView,
)
    requires
        dir.len() > 2,
    ensures
        (rules::marked_build_dir_rule(name, dir, seq![marker]).matches)(candidate)
            <==> is_directory(candidate, dir) && is_beside(candidate, marker),
{
    let markers = seq![marker];
    name_and_markers_decide(name, dir, markers, candidate);
    assert(markers[0] == marker);
}

/// Version control directories are matched by name.
proof fn version_control_is_matched(candidate: CandidateView)
    ensures
        (rules::vcs_dirs_rule().matches)(candidate) <==> is_version_control(candidate),
{
    reveal_strlit(".git");
    reveal_strlit(".hg");
    reveal_strlit(".svn");
    reveal_strlit(".jj");
    reveal_strlit(".bzr");
    let dirs = seq![".git"@, ".hg"@, ".svn"@, ".jj"@, ".bzr"@];
    listed_names_decide(
        "version control directory"@,
        dirs,
        MatchAction::skip_only(),
        candidate,
    );
    assert(dirs[0] == ".git"@ && dirs[1] == ".hg"@ && dirs[2] == ".svn"@ && dirs[3] == ".jj"@
        && dirs[4] == ".bzr"@);
}

/// Python environments and tool caches are matched by name.
proof fn python_caches_are_matched(candidate: CandidateView)
    ensures
        (rules::python_caches_rule().matches)(candidate) <==> is_python_cache(candidate),
{
    reveal_strlit(".venv");
    reveal_strlit("venv");
    reveal_strlit("__pycache__");
    reveal_strlit(".pytest_cache");
    reveal_strlit(".mypy_cache");
    reveal_strlit(".ruff_cache");
    reveal_strlit(".tox");
    let dirs = rules::python_artifact_dirs();
    assert(dirs[0] == ".venv"@ && dirs[1] == "venv"@ && dirs[2] == "__pycache__"@ && dirs[3]
        == ".pytest_cache"@ && dirs[4] == ".mypy_cache"@ && dirs[5] == ".ruff_cache"@ && dirs[6]
        == ".tox"@);
    listed_names_decide(
        "Python build/cache artifact"@,
        dirs,
        MatchAction::ignore_and_skip(),
        candidate,
    );
}

/// JavaScript build output and tool caches are matched by name.
proof fn javascript_caches_are_matched(candidate: CandidateView)
    ensures
        (rules::js_build_rule().matches)(candidate) <==> is_javascript_cache(candidate),
{
    reveal_strlit(".next");
    reveal_strlit(".nuxt");
    reveal_strlit(".turbo");
    reveal_strlit(".parcel-cache");
    reveal_strlit(".svelte-kit");
    reveal_strlit(".astro");
    reveal_strlit(".angular");
    reveal_strlit(".vite");
    let dirs = rules::js_artifact_dirs();
    assert(dirs[0] == ".next"@ && dirs[1] == ".nuxt"@ && dirs[2] == ".turbo"@ && dirs[3]
        == ".parcel-cache"@ && dirs[4] == ".svelte-kit"@ && dirs[5] == ".astro"@ && dirs[6]
        == ".angular"@ && dirs[7] == ".vite"@);
    listed_names_decide(
        "JavaScript build/cache directory"@,
        dirs,
        MatchAction::ignore_and_skip(),
        candidate,
    );
}

/// Gradle build directories are matched by name, beside a Gradle script.
proof fn gradle_builds_are_matched(candidate: CandidateView)
    ensures
        (rules::gradle_build_rule().matches)(candidate) <==> is_directory(candidate, "build"@)
            && is_beside_gradle_script(candidate),
{
    reveal_strlit("build");
    let markers = rules::gradle_scripts();
    assert(markers[0] == "build.gradle"@ && markers[1] == "build.gradle.kts"@ && markers[2]
        == "settings.gradle"@ && markers[3] == "settings.gradle.kts"@);
    name_and_markers_decide("Gradle build directory"@, "build"@, markers, candidate);
}

/// Python metadata is matched by the end of its name, whatever its type.
pub proof fn egg_info_is_matched(candidate: CandidateView)
    ensures
        (rules::egg_info_rule().matches)(candidate) <==> has_suffix(candidate, ".egg-info"@),
{
    reveal_strlit(".egg-info");
    encoding_is_no_shorter(".egg-info"@);
    let tail = vstd::utf8::encode_utf8(".egg-info"@);
    if candidate.path.names.len() > 0 {
        let name = candidate.path.names.last();
        if tail.len() <= name.len() {
            assert(name.subrange(name.len() - tail.len(), name.len() as int) =~= name.skip(
                name.len() - tail.len(),
            ));
        }
    }
}

/// Each of the production rules matches what it looks for, and nothing else.
proof fn rules_match_what_they_look_for(candidate: CandidateView, i: int)
    requires
        0 <= i < 18,
    ensures
        (rules::default_models()[i].matches)(candidate) <==> looked_for(candidate, i),
{
    let mark = MatchAction::ignore_and_skip();
    reveal_strlit("node_modules");
    reveal_strlit(".pnpm-store");
    reveal_strlit("target");
    reveal_strlit("vendor");
    reveal_strlit("_build");
    reveal_strlit("deps");
    reveal_strlit("zig-out");
    reveal_strlit(".gradle");
    reveal_strlit(".terraform");
    reveal_strlit(".terragrunt-cache");
    reveal_strlit(".direnv");
    reveal_strlit(".devenv");
    reveal_strlit(".zig-cache");
    reveal_strlit(".dart_tool");
    if i == 0 {
        version_control_is_matched(candidate);
    } else if i == 1 {
        one_name_decides("node_modules directory"@, "node_modules"@, mark, candidate);
    } else if i == 2 {
        one_name_decides("pnpm store directory"@, ".pnpm-store"@, mark, candidate);
    } else if i == 3 {
        one_marker_decides("Cargo target directory"@, "target"@, "Cargo.toml"@, candidate);
    } else if i == 4 {
        one_marker_decides("Maven target directory"@, "target"@, "pom.xml"@, candidate);
    } else if i == 5 {
        gradle_builds_are_matched(candidate);
    } else if i == 6 {
        python_caches_are_matched(candidate);
    } else if i == 7 {
        egg_info_is_matched(candidate);
    } else if i == 8 {
        javascript_caches_are_matched(candidate);
    } else if i == 9 {
        one_name_decides("Gradle cache directory"@, ".gradle"@, mark, candidate);
    } else if i == 10 {
        two_names_decide(
            "IaC cache directory"@,
            ".terraform"@,
            ".terragrunt-cache"@,
            mark,
            candidate,
        );
    } else if i == 11 {
        two_names_decide(
            "development environment directory"@,
            ".direnv"@,
            ".devenv"@,
            mark,
            candidate,
        );
    } else if i == 12 {
        one_marker_decides("Composer vendor directory"@, "vendor"@, "composer.json"@, candidate);
    } else if i == 13 {
        one_marker_decides("Mix build directory"@, "_build"@, "mix.exs"@, candidate);
    } else if i == 14 {
        one_marker_decides("Mix deps directory"@, "deps"@, "mix.exs"@, candidate);
    } else if i == 15 {
        one_marker_decides("Zig output directory"@, "zig-out"@, "build.zig"@, candidate);
    } else if i == 16 {
        one_name_decides("Zig cache directory"@, ".zig-cache"@, mark, candidate);
    } else {
        one_name_decides("Dart tool directory"@, ".dart_tool"@, mark, candidate);
    }
}

/// The rule that decides is the first that finds what it looks for.
proof fn first_found_decides(candidate: CandidateView, i: int)
    requires
        0 <= i < 18,
        looked_for(candidate, i),
        forall|j: int| 0 <= j < i ==> !#[trigger] looked_for(candidate, j),
    ensures
        engine::verdict(rules::default_models(), candidate) == Some(
            MatchView {
                name: rules::default_models()[i].name,
                action: rules::default_models()[i].action,
            },
        ),
{
    let all = rules::default_models();
    assert(all.len() == 18);
    rules_match_what_they_look_for(candidate, i);
    assert forall|j: int| 0 <= j < i implies !(#[trigger] all[j].matches)(candidate) by {
        rules_match_what_they_look_for(candidate, j);
        assert(!looked_for(candidate, j));
    }
    assert(engine::is_first_match(all, candidate, i));
    engine::first_match_wins(all, candidate);
}

/// What the production rules say of an entry, in full and in the order in which they
/// are asked. Nothing else has a verdict.
pub proof fn default_verdict_is_by_name(candidate: CandidateView)
    ensures
        engine::verdict(rules::default_models(), candidate) == (if is_version_control(candidate) {
            Some(
                MatchView {
                    name: "version control directory"@,
                    action: MatchAction { set_dropbox_ignore: false, skip_descendants: true },
                },
            )
        } else if is_directory(candidate, "node_modules"@) {
            artifact("node_modules directory"@)
        } else if is_directory(candidate, ".pnpm-store"@) {
            artifact("pnpm store directory"@)
        } else if is_directory(candidate, "target"@) && is_beside(candidate, "Cargo.toml"@) {
            artifact("Cargo target directory"@)
        } else if is_directory(candidate, "target"@) && is_beside(candidate, "pom.xml"@) {
            artifact("Maven target directory"@)
        } else if is_directory(candidate, "build"@) && is_beside_gradle_script(candidate) {
            artifact("Gradle build directory"@)
        } else if is_python_cache(candidate) {
            artifact("Python build/cache artifact"@)
        } else if has_suffix(candidate, ".egg-info"@) {
            artifact("Python egg-info metadata"@)
        } else if is_javascript_cache(candidate) {
            artifact("JavaScript build/cache directory"@)
        } else if is_directory(candidate, ".gradle"@) {
            artifact("Gradle cache directory"@)
        } else if is_directory(candidate, ".terraform"@) || is_directory(
            candidate,
            ".terragrunt-cache"@,
        ) {
            artifact("IaC cache directory"@)
        } else if is_directory(candidate, ".direnv"@) || is_directory(candidate, ".devenv"@) {
            artifact("development environment directory"@)
        } else if is_directory(candidate, "vendor"@) && is_beside(candidate, "composer.json"@) {
            artifact("Composer vendor directory"@)
        } else if is_directory(candidate, "_build"@) && is_beside(candidate, "mix.exs"@) {
            artifact("Mix build directory"@)
        } else if is_directory(candidate, "deps"@) && is_beside(candidate, "mix.exs"@) {
            artifact("Mix deps directory"@)
        } else if is_directory(candidate, "zig-out"@) && is_beside(candidate, "build.zig"@) {
            artifact("Zig output directory"@)
        } else if is_directory(candidate, ".zig-cache"@) {
            artifact("Zig cache directory"@)
        } else if is_directory(candidate, ".dart_tool"@) {
            artifact("Dart tool directory"@)
        } else {
            None
        }),
{
    let all = rules::default_models();
    if exists|i: int| 0 <= i < 18 && #[trigger] looked_for(candidate, i) {
        let found = choose|i: int| 0 <= i < 18 && #[trigger] looked_for(candidate, i);
        let first = first_found(candidate, found);
        first_found_decides(candidate, first);
        default_actions(first);
        assert(forall|j: int| 0 <= j < first ==> !#[trigger] looked_for(candidate, j));
        not_found_before(candidate, first);
    } else {
        assert forall|i: int| 0 <= i < all.len() implies !(#[trigger] all[i].matches)(
            candidate,
        ) by {
            assert(all.len() == 18);
            rules_match_what_they_look_for(candidate, i);
        }
        engine::first_match_wins(all, candidate);
        not_found_before(candidate, 18);
    }
}

/// Where something is found, something is found first.
proof fn first_found(candidate: CandidateView, i: int) -> (first: int)
    requires
        0 <= i < 18,
        looked_for(candidate, i),
    ensures
        0 <= first <= i,
        looked_for(candidate, first),
        forall|j: int| 0 <= j < first ==> !#[trigger] looked_for(candidate, j),
    decreases i,
{
    if exists|j: int| 0 <= j < i && #[trigger] looked_for(candidate, j) {
        let j = choose|j: int| 0 <= j < i && #[trigger] looked_for(candidate, j);
        first_found(candidate, j)
    } else {
        i
    }
}

/// Names what was not found.
proof fn not_found_before(candidate: CandidateView, n: int)
    requires
        0 <= n <= 18,
        forall|j: int| 0 <= j < n ==> !#[trigger] looked_for(candidate, j),
    ensures
        n > 0 ==> !looked_for(candidate, 0),
        n > 1 ==> !looked_for(candidate, 1),
        n > 2 ==> !looked_for(candidate, 2),
        n > 3 ==> !looked_for(candidate, 3),
        n > 4 ==> !looked_for(candidate, 4),
        n > 5 ==> !looked_for(candidate, 5),
        n > 6 ==> !looked_for(candidate, 6),
        n > 7 ==> !looked_for(candidate, 7),
        n > 8 ==> !looked_for(candidate, 8),
        n > 9 ==> !looked_for(candidate, 9),
        n > 10 ==> !looked_for(candidate, 10),
        n > 11 ==> !looked_for(candidate, 11),
        n > 12 ==> !looked_for(candidate, 12),
        n > 13 ==> !looked_for(candidate, 13),
        n > 14 ==> !looked_for(candidate, 14),
        n > 15 ==> !looked_for(candidate, 15),
        n > 16 ==> !looked_for(candidate, 16),
        n > 17 ==> !looked_for(candidate, 17),
{
}

/// All production rules but the first mark what they match, and all keep out of it.
proof fn default_actions(i: int)
    requires
        0 <= i < 18,
    ensures
        rules::default_models()[i].action == (MatchAction {
            set_dropbox_ignore: i != 0,
            skip_descendants: true,
        }),
{
}

/// Under the production rules an entry has a verdict exactly when it is a directory
/// of one of the listed names, a guarded build directory, or ends in `.egg-info`. It
/// is marked exactly then, unless it is a version control directory, and kept out of
/// exactly then. So any other directory is gone into, however much its name looks
/// like one of those.
pub proof fn only_listed_names_have_a_verdict(candidate: CandidateView)
    ensures
        ({
            let all = rules::default_models();
            let named = is_listed(candidate) || is_guarded(candidate) || has_suffix(
                candidate,
                ".egg-info"@,
            );
            &&& engine::verdict(all, candidate) is Some <==> named
            &&& engine::marks(all, candidate) <==> named && !is_version_control(candidate)
            &&& engine::skips(all, candidate) <==> named
        }),
{
    default_verdict_is_by_name(candidate);
}

/// The same of a directory in the tree: the walk goes into it exactly when it has
/// none of those names, and marks it exactly when it has one that is not a version
/// control directory's.
pub proof fn other_directories_are_walked(world: World, path: PathView)
    requires
        (world.metadata)(path) == Some(FileType::Directory),
    ensures
        ({
            let all = rules::default_models();
            let candidate = CandidateView {
                path,
                file_type: FileType::Directory,
                siblings: world.siblings(path),
            };
            let named = is_listed(candidate) || is_guarded(candidate) || has_suffix(
                candidate,
                ".egg-info"@,
            );
            &&& world.descended(all, path) <==> !named
            &&& world.marked_directory(all, path) <==> named && !is_version_control(candidate)
        }),
{
    only_listed_names_have_a_verdict(world.candidate(path, FileType::Directory));
}

/// The triggers of the production rules are the files of build tools that can stand
/// beside a guarded build directory, and no others.
pub proof fn default_triggers_are_build_files(name: Seq<u8>)
    ensures
        engine::names_trigger(rules::default_models(), name) <==> {
            ||| name == vstd::utf8::encode_utf8("Cargo.toml"@)
            ||| name == vstd::utf8::encode_utf8("pom.xml"@)
            ||| name == vstd::utf8::encode_utf8("build.gradle"@)
            ||| name == vstd::utf8::encode_utf8("build.gradle.kts"@)
            ||| name == vstd::utf8::encode_utf8("settings.gradle"@)
            ||| name == vstd::utf8::encode_utf8("settings.gradle.kts"@)
            ||| name == vstd::utf8::encode_utf8("composer.json"@)
            ||| name == vstd::utf8::encode_utf8("mix.exs"@)
            ||| name == vstd::utf8::encode_utf8("build.zig"@)
        },
{
    let all = rules::default_models();
    assert(all.len() == 18);
    engine::triggers_are_those_of_the_rules(all, name);
    let gradle = rules::gradle_scripts();
    assert(gradle[0] == "build.gradle"@ && gradle[1] == "build.gradle.kts"@ && gradle[2]
        == "settings.gradle"@ && gradle[3] == "settings.gradle.kts"@);
    assert(all[3].triggers[0] == "Cargo.toml"@);
    assert(all[4].triggers[0] == "pom.xml"@);
    assert(all[5].triggers == gradle);
    assert(all[12].triggers[0] == "composer.json"@);
    assert(all[13].triggers[0] == "mix.exs"@);
    assert(all[14].triggers[0] == "mix.exs"@);
    assert(all[15].triggers[0] == "build.zig"@);
    if engine::names_trigger(all, name) {
        let (i, k) = choose|i: int, k: int|
            0 <= i < all.len() && 0 <= k < all[i].triggers.len()
                && #[trigger] vstd::utf8::encode_utf8(all[i].triggers[k]) == name;
        assert(all[i].triggers.len() > 0);
        assert(i == 3 || i == 4 || i == 5 || i == 12 || i == 13 || i == 14 || i == 15);
    }
}

} // verus!

//! The rules and the engine that applies them.

use dropignore::engine::RuleEngine;
use dropignore::path::TreePath;
use dropignore::rules::{
    default_rules, AnyRule, ArtifactDirsRule, Candidate, EggInfoRule, FileType, LogLevel,
    MarkedBuildDirRule, MatchAction, Rule, RuleMatch, RuleView,
};

fn at(path: &[u8]) -> TreePath {
    TreePath::new(path)
}

fn names(siblings: &[&str]) -> Vec<Vec<u8>> {
    siblings.iter().map(|name| name.as_bytes().to_vec()).collect()
}

/// Evaluates one entry, looking for exactly the siblings that are asked for.
fn evaluate(
    engine: &RuleEngine,
    path: &[u8],
    file_type: FileType,
    existing: &[&str],
) -> Option<RuleMatch> {
    let path = at(path);
    let existing = names(existing);
    let siblings: Vec<Vec<u8>> = engine
        .consulted(&path, file_type)
        .into_iter()
        .filter(|name| existing.contains(name))
        .collect();
    engine.evaluate(&Candidate { path: &path, file_type, siblings: &siblings })
}

fn matches<R: Rule>(rule: &R, path: &[u8], file_type: FileType, existing: &[&str]) -> bool {
    let path = at(path);
    rule.matches(&Candidate { path: &path, file_type, siblings: &names(existing) })
}

fn artifacts(rule: ArtifactDirsRule) -> RuleEngine {
    RuleEngine::new(vec![AnyRule::Artifact(rule)])
}

fn marked(rule: MarkedBuildDirRule) -> RuleEngine {
    RuleEngine::new(vec![AnyRule::Marked(rule)])
}

#[test]
fn node_modules_rule_matches_directory_name() {
    let engine = artifacts(ArtifactDirsRule::node_modules());
    let result = evaluate(&engine, b"/t/node_modules", FileType::Directory, &[])
        .expect("rule should match node_modules");
    assert_eq!(result.name, "node_modules directory");
    assert!(result.action.set_dropbox_ignore);
    assert!(result.action.skip_descendants);
}

#[test]
fn pnpm_store_rule_matches_directory_name() {
    let engine = artifacts(ArtifactDirsRule::pnpm_store());
    let result = evaluate(&engine, b"/t/.pnpm-store", FileType::Directory, &[])
        .expect("rule should match .pnpm-store");
    assert_eq!(result.name, "pnpm store directory");
    assert!(result.action.set_dropbox_ignore);
    assert!(result.action.skip_descendants);
}

#[test]
fn cargo_target_rule_requires_cargo_toml_in_parent() {
    let engine = RuleEngine::new(vec![
        AnyRule::Marked(MarkedBuildDirRule::cargo_target()),
        AnyRule::Artifact(ArtifactDirsRule::node_modules()),
    ]);
    let result = evaluate(&engine, b"/t/target", FileType::Directory, &["Cargo.toml"])
        .expect("rule should match Cargo target");
    assert_eq!(result.name, "Cargo target directory");
    assert!(result.action.set_dropbox_ignore);
    assert!(result.action.skip_descendants);
}

#[test]
fn cargo_target_rule_ignores_target_without_cargo_toml() {
    assert!(
        !matches(&MarkedBuildDirRule::cargo_target(), b"/t/target", FileType::Directory, &[]),
        "target without a sibling Cargo.toml must not match"
    );
}

#[test]
fn python_artifact_rule_matches_env_and_metadata() {
    let engine = RuleEngine::new(vec![
        AnyRule::Artifact(ArtifactDirsRule::python_caches()),
        AnyRule::EggInfo(EggInfoRule),
    ]);
    assert!(
        evaluate(&engine, b"/t/.venv", FileType::Directory, &[]).is_some(),
        ".venv should match"
    );
    assert!(
        evaluate(&engine, b"/t/package.egg-info", FileType::Directory, &[]).is_some(),
        ".egg-info should match"
    );
}

#[test]
fn cargo_target_rule_declares_cargo_toml_trigger() {
    assert_eq!(MarkedBuildDirRule::cargo_target().triggers(), &["Cargo.toml"]);
}

#[test]
fn rule_engine_recognizes_cargo_toml_trigger() {
    let engine = marked(MarkedBuildDirRule::cargo_target());
    assert!(engine.is_trigger(b"Cargo.toml"));
    assert!(!engine.is_trigger(b"package.json"));
}

#[test]
fn maven_target_rule_requires_pom_xml_in_parent() {
    let rule = MarkedBuildDirRule::maven_target();
    assert_eq!(rule.name(), "Maven target directory");
    assert!(
        matches(&rule, b"/t/target", FileType::Directory, &["pom.xml"]),
        "target with a sibling pom.xml must match"
    );
    assert_eq!(rule.action(), MatchAction::ignore_and_skip());
}

#[test]
fn maven_target_rule_ignores_target_without_pom_xml() {
    assert!(
        !matches(&MarkedBuildDirRule::maven_target(), b"/t/target", FileType::Directory, &[]),
        "target without a sibling pom.xml must not match"
    );
}

#[test]
fn rule_engine_recognizes_pom_xml_trigger() {
    let engine = marked(MarkedBuildDirRule::maven_target());
    assert!(engine.is_trigger(b"pom.xml"));
    assert!(!engine.is_trigger(b"Cargo.toml"));
}

#[test]
fn rule_engine_without_target_rule_has_no_triggers() {
    let engine = artifacts(ArtifactDirsRule::node_modules());
    assert!(!engine.is_trigger(b"Cargo.toml"));
}

#[test]
fn python_artifact_rule_matches_tool_caches() {
    let engine = artifacts(ArtifactDirsRule::python_caches());
    for name in ["__pycache__", ".pytest_cache", ".mypy_cache", ".ruff_cache", ".tox"] {
        let path = format!("/t/{name}");
        let result = evaluate(&engine, path.as_bytes(), FileType::Directory, &[])
            .unwrap_or_else(|| panic!("{name} should match"));
        assert!(result.action.set_dropbox_ignore, "{name} must be marked");
        assert!(result.action.skip_descendants, "{name} must skip descendants");
    }
}

#[test]
fn python_artifact_rule_ignores_ordinary_directory() {
    let engine = artifacts(ArtifactDirsRule::python_caches());
    assert!(
        evaluate(&engine, b"/t/src", FileType::Directory, &[]).is_none(),
        "src must not match"
    );
}

#[test]
fn js_build_artifacts_rule_matches_framework_dirs() {
    let engine = artifacts(ArtifactDirsRule::js_build());
    for name in [
        ".next",
        ".nuxt",
        ".turbo",
        ".parcel-cache",
        ".svelte-kit",
        ".astro",
        ".angular",
        ".vite",
    ] {
        let path = format!("/t/{name}");
        let result = evaluate(&engine, path.as_bytes(), FileType::Directory, &[])
            .unwrap_or_else(|| panic!("{name} should match"));
        assert_eq!(result.name, "JavaScript build/cache directory");
        assert!(result.action.set_dropbox_ignore, "{name} must be marked");
        assert!(result.action.skip_descendants, "{name} must skip descendants");
    }
}

#[test]
fn artifact_dirs_rule_instances_match_their_directories() {
    let cases = [
        (ArtifactDirsRule::node_modules(), "node_modules", "node_modules directory"),
        (ArtifactDirsRule::pnpm_store(), ".pnpm-store", "pnpm store directory"),
        (ArtifactDirsRule::python_caches(), "__pycache__", "Python build/cache artifact"),
        (ArtifactDirsRule::js_build(), ".next", "JavaScript build/cache directory"),
        (ArtifactDirsRule::jvm_caches(), ".gradle", "Gradle cache directory"),
        (ArtifactDirsRule::iac_caches(), ".terraform", "IaC cache directory"),
        (ArtifactDirsRule::dev_env_dirs(), ".direnv", "development environment directory"),
    ];
    for (rule, dir_name, rule_name) in &cases {
        assert_eq!(rule.name(), *rule_name);
        let path = format!("/t/{dir_name}");
        assert!(
            matches(rule, path.as_bytes(), FileType::Directory, &[]),
            "{dir_name} should match"
        );
        assert_eq!(rule.action(), MatchAction::ignore_and_skip());
    }
}

#[test]
fn artifact_dirs_rule_ignores_file_named_like_dir() {
    assert!(
        !matches(&ArtifactDirsRule::node_modules(), b"/t/node_modules", FileType::Other, &[]),
        "a regular file named node_modules must not match"
    );
}

#[test]
fn egg_info_rule_matches_file_and_directory() {
    assert_eq!(EggInfoRule.name(), "Python egg-info metadata");
    assert!(matches(&EggInfoRule, b"/t/pkg.egg-info", FileType::Other, &[]));
    assert!(matches(&EggInfoRule, b"/t/other.egg-info", FileType::Directory, &[]));
    assert!(!matches(&EggInfoRule, b"/t/pkg.egg-infos", FileType::Other, &[]));
    assert_eq!(EggInfoRule.action(), MatchAction::ignore_and_skip());
}

#[test]
fn egg_info_rule_matches_non_utf8_prefixed_name() {
    assert!(
        matches(&EggInfoRule, b"/t/\xffpkg.egg-info", FileType::Other, &[]),
        "an .egg-info suffix must match even when the name has non-UTF-8 bytes"
    );
}

#[test]
fn gradle_build_rule_matches_with_each_marker() {
    let rule = MarkedBuildDirRule::gradle_build();
    for marker in ["build.gradle", "build.gradle.kts", "settings.gradle", "settings.gradle.kts"] {
        assert!(
            matches(&rule, b"/t/build", FileType::Directory, &[marker]),
            "build with sibling {marker} must match"
        );
    }
    assert_eq!(rule.name(), "Gradle build directory");
    assert_eq!(rule.action(), MatchAction::ignore_and_skip());
}

#[test]
fn gradle_build_rule_ignores_build_without_marker() {
    assert!(
        !matches(&MarkedBuildDirRule::gradle_build(), b"/t/build", FileType::Directory, &[]),
        "build without a Gradle script sibling must not match"
    );
}

#[test]
fn rule_engine_recognizes_gradle_triggers() {
    let engine = marked(MarkedBuildDirRule::gradle_build());
    for trigger in ["build.gradle", "build.gradle.kts", "settings.gradle", "settings.gradle.kts"] {
        assert!(engine.is_trigger(trigger.as_bytes()), "{trigger}");
    }
    assert!(!engine.is_trigger(b"pom.xml"));
}

#[test]
fn iac_and_env_rules_match_all_listed_dirs() {
    let cases = [
        (ArtifactDirsRule::iac_caches(), ".terragrunt-cache"),
        (ArtifactDirsRule::dev_env_dirs(), ".devenv"),
    ];
    for (rule, name) in &cases {
        let path = format!("/t/{name}");
        assert!(matches(rule, path.as_bytes(), FileType::Directory, &[]), "{name} should match");
    }
}

#[test]
fn vcs_dirs_rule_skips_all_vcs_dirs_without_marking() {
    let rule = ArtifactDirsRule::vcs_dirs();
    assert_eq!(rule.name(), "version control directory");
    for name in [".git", ".hg", ".svn", ".jj", ".bzr"] {
        let path = format!("/t/{name}");
        assert!(matches(&rule, path.as_bytes(), FileType::Directory, &[]), "{name} should match");
    }
    assert_eq!(rule.action(), MatchAction::skip_only());
    assert!(!MatchAction::skip_only().set_dropbox_ignore, "skip-only must never mark");
    assert!(MatchAction::skip_only().skip_descendants, "skip-only must skip descendants");
}

#[test]
fn vcs_dirs_rule_ignores_git_file() {
    assert!(
        !matches(&ArtifactDirsRule::vcs_dirs(), b"/t/.git", FileType::Other, &[]),
        "a .git file must not match"
    );
}

#[test]
fn marked_build_dir_expansion_rules_require_their_markers() {
    let cases = [
        (
            MarkedBuildDirRule::composer_vendor(),
            "vendor",
            "composer.json",
            "Composer vendor directory",
        ),
        (MarkedBuildDirRule::mix_build(), "_build", "mix.exs", "Mix build directory"),
        (MarkedBuildDirRule::mix_deps(), "deps", "mix.exs", "Mix deps directory"),
        (MarkedBuildDirRule::zig_out(), "zig-out", "build.zig", "Zig output directory"),
    ];
    for (rule, dir_name, marker, rule_name) in &cases {
        assert_eq!(rule.name(), *rule_name);
        assert_eq!(rule.triggers(), &[*marker]);
        assert_eq!(rule.action(), MatchAction::ignore_and_skip());
        let path = format!("/t/{dir_name}");
        assert!(
            !matches(rule, path.as_bytes(), FileType::Directory, &[]),
            "{dir_name} without {marker} must not match"
        );
        assert!(
            matches(rule, path.as_bytes(), FileType::Directory, &[marker]),
            "{dir_name} with sibling {marker} must match"
        );
    }
}

#[test]
fn zig_and_dart_cache_rules_match_their_directories() {
    let cases = [
        (ArtifactDirsRule::zig_caches(), ".zig-cache", "Zig cache directory"),
        (ArtifactDirsRule::dart_caches(), ".dart_tool", "Dart tool directory"),
    ];
    for (rule, dir_name, rule_name) in &cases {
        assert_eq!(rule.name(), *rule_name);
        let path = format!("/t/{dir_name}");
        assert!(
            matches(rule, path.as_bytes(), FileType::Directory, &[]),
            "{dir_name} should match"
        );
        assert_eq!(rule.action(), MatchAction::ignore_and_skip());
    }
}

#[test]
fn rule_engine_recognizes_expansion_triggers() {
    let engine = RuleEngine::new(vec![
        AnyRule::Marked(MarkedBuildDirRule::composer_vendor()),
        AnyRule::Marked(MarkedBuildDirRule::mix_build()),
        AnyRule::Marked(MarkedBuildDirRule::mix_deps()),
        AnyRule::Marked(MarkedBuildDirRule::zig_out()),
    ]);
    for trigger in ["composer.json", "mix.exs", "build.zig"] {
        assert!(engine.is_trigger(trigger.as_bytes()), "{trigger}");
    }
    assert!(!engine.is_trigger(b"package.json"));
}

#[test]
fn default_rules_has_expected_count() {
    assert_eq!(default_rules().len(), 18);
}

#[test]
fn default_rules_engine_matches_representative_fixtures() {
    let engine = RuleEngine::new(default_rules());
    let cases: &[(&str, FileType, &[&str], Option<&str>, bool)] = &[
        (".git", FileType::Directory, &[], Some("version control directory"), false),
        ("node_modules", FileType::Directory, &[], Some("node_modules directory"), true),
        (".pnpm-store", FileType::Directory, &[], Some("pnpm store directory"), true),
        ("target", FileType::Directory, &["Cargo.toml"], Some("Cargo target directory"), true),
        ("target", FileType::Directory, &["pom.xml"], Some("Maven target directory"), true),
        ("target", FileType::Directory, &[], None, false),
        ("build", FileType::Directory, &["settings.gradle"], Some("Gradle build directory"), true),
        ("venv", FileType::Directory, &[], Some("Python build/cache artifact"), true),
        ("a.egg-info", FileType::Other, &[], Some("Python egg-info metadata"), true),
        (".vite", FileType::Directory, &[], Some("JavaScript build/cache directory"), true),
        (".gradle", FileType::Directory, &[], Some("Gradle cache directory"), true),
        (".terraform", FileType::Directory, &[], Some("IaC cache directory"), true),
        (".direnv", FileType::Directory, &[], Some("development environment directory"), true),
        ("vendor", FileType::Directory, &["composer.json"], Some("Composer vendor directory"), true),
        ("_build", FileType::Directory, &["mix.exs"], Some("Mix build directory"), true),
        ("deps", FileType::Directory, &["mix.exs"], Some("Mix deps directory"), true),
        ("zig-out", FileType::Directory, &["build.zig"], Some("Zig output directory"), true),
        (".zig-cache", FileType::Directory, &[], Some("Zig cache directory"), true),
        (".dart_tool", FileType::Directory, &[], Some("Dart tool directory"), true),
        ("src", FileType::Directory, &["Cargo.toml"], None, false),
    ];
    for (name, file_type, existing, rule_name, marked) in cases {
        let path = format!("/p/{name}");
        let found = evaluate(&engine, path.as_bytes(), *file_type, existing);
        assert_eq!(found.map(|found| found.name), *rule_name, "{name}");
        assert_eq!(found.is_some_and(|found| found.action.set_dropbox_ignore), *marked, "{name}");
        assert!(found.is_none_or(|found| found.action.skip_descendants), "{name}");
    }
}

#[test]
fn first_matching_rule_decides() {
    let both = ["Cargo.toml", "pom.xml"];
    let cargo_first = RuleEngine::new(vec![
        AnyRule::Marked(MarkedBuildDirRule::cargo_target()),
        AnyRule::Marked(MarkedBuildDirRule::maven_target()),
    ]);
    let maven_first = RuleEngine::new(vec![
        AnyRule::Marked(MarkedBuildDirRule::maven_target()),
        AnyRule::Marked(MarkedBuildDirRule::cargo_target()),
    ]);
    let path = b"/t/target";
    assert_eq!(
        evaluate(&cargo_first, path, FileType::Directory, &both).map(|found| found.name),
        Some("Cargo target directory")
    );
    assert_eq!(
        evaluate(&maven_first, path, FileType::Directory, &both).map(|found| found.name),
        Some("Maven target directory")
    );
}

#[test]
fn only_siblings_that_can_matter_are_consulted() {
    let engine = RuleEngine::new(default_rules());
    let asked = |path: &[u8], file_type| engine.consulted(&at(path), file_type);
    assert_eq!(asked(b"/t/target", FileType::Directory), names(&["Cargo.toml", "pom.xml"]));
    assert_eq!(asked(b"/t/target", FileType::Other), names(&[]));
    assert_eq!(asked(b"/t/src", FileType::Directory), names(&[]));
    assert_eq!(asked(b"/", FileType::Directory), names(&[]));
}

#[test]
fn other_siblings_change_no_verdict() {
    let engine = RuleEngine::new(default_rules());
    let path = at(b"/t/target");
    let verdict = |existing: &[&str]| {
        let siblings = names(existing);
        engine
            .evaluate(&Candidate {
                path: &path,
                file_type: FileType::Directory,
                siblings: &siblings,
            })
            .map(|found| found.name)
    };
    assert_eq!(verdict(&["README.md", "src", "mix.exs"]), verdict(&[]));
    assert_eq!(verdict(&["README.md", "Cargo.toml"]), verdict(&["Cargo.toml"]));
    assert_ne!(verdict(&["Cargo.toml"]), verdict(&[]));
}

#[test]
fn default_triggers_are_plain_file_names() {
    let mut all: Vec<&str> =
        default_rules().iter().flat_map(|rule| rule.triggers().iter().copied()).collect();
    all.sort();
    all.dedup();
    assert_eq!(
        all,
        [
            "Cargo.toml",
            "build.gradle",
            "build.gradle.kts",
            "build.zig",
            "composer.json",
            "mix.exs",
            "pom.xml",
            "settings.gradle",
            "settings.gradle.kts",
        ]
    );
    assert!(all.iter().all(|name| at(name.as_bytes()).parent() == Some(at(b""))));
}

#[test]
fn non_utf8_names_are_no_triggers() {
    let engine = RuleEngine::new(default_rules());
    assert!(engine.is_trigger(b"mix.exs"));
    assert!(!engine.is_trigger(b"mix.exs\xff"));
    assert!(!engine.is_trigger(b"\xff"));
    assert!(!engine.is_trigger(b""));
}

/// A rule from outside the library.
struct Everything;

impl Rule for Everything {
    fn model(&self) -> RuleView {
        unreachable!("the model is never asked for at runtime")
    }

    fn name(&self) -> &'static str {
        "everything"
    }

    fn matches(&self, _candidate: &Candidate<'_>) -> bool {
        true
    }

    fn action(&self) -> MatchAction {
        MatchAction::skip_only()
    }

    fn triggers(&self) -> &'static [&'static str] {
        &["anything"]
    }

    fn consulted(&self, _path: &TreePath, _file_type: FileType) -> &'static [&'static str] {
        &[]
    }
}

#[test]
fn custom_rules_can_be_registered() {
    let engine = RuleEngine::new(vec![
        AnyRule::EggInfo(EggInfoRule),
        AnyRule::Custom(Box::new(Everything)),
    ]);
    let name = |path: &[u8]| evaluate(&engine, path, FileType::Other, &[]).map(|found| found.name);
    assert_eq!(name(b"/t/a.egg-info"), Some("Python egg-info metadata"));
    assert_eq!(name(b"/t/a"), Some("everything"));
    assert!(engine.is_trigger(b"anything"));
}

#[test]
fn marking_matches_are_louder_than_skipping_ones() {
    let marked = RuleMatch {
        name: "node_modules directory",
        action: MatchAction::ignore_and_skip(),
    };
    let line = marked.log_matched(&at(b"/t/node_modules"));
    assert_eq!(line.level, LogLevel::Info);
    assert_eq!(line.message, "Matched rule 'node_modules directory' for /t/node_modules");

    let skipped = RuleMatch { name: "version control directory", action: MatchAction::skip_only() };
    let line = skipped.log_matched(&at(b"/t/\xff/.git"));
    assert_eq!(line.level, LogLevel::Debug);
    assert_eq!(line.message, "Matched rule 'version control directory' for /t/\u{fffd}/.git");
}

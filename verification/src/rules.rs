//! Rules that recognize build artifacts.

use crate::discovery;
use crate::path::{PathView, TreePath};
use crate::text;
use vstd::prelude::*;
use vstd::string::*;

verus! {

/// What a file system entry is.
#[derive(Clone, Copy, Debug, PartialEq, Eq, Structural)]
pub enum FileType {
    Directory,
    Symlink,
    /// A regular file, a socket, a device and the like.
    Other,
}

/// A candidate as a mathematical value. `siblings` holds the names that exist
/// in the candidate's parent directory.
#[verifier::ext_equal]
pub struct CandidateView {
    pub path: PathView,
    pub file_type: FileType,
    pub siblings: Set<Seq<u8>>,
}

impl CandidateView {
    /// True for a directory whose name is exactly `name`.
    pub open spec fn is_dir_named(self, name: Seq<char>) -> bool {
        self.file_type == FileType::Directory && self.path.file_name() == Some(text::utf8(name))
    }

    /// True when both candidates are the same entry and `names` exist beside
    /// the one exactly where they exist beside the other.
    pub open spec fn agrees_on(self, other: CandidateView, names: Seq<Seq<char>>) -> bool {
        &&& self.path == other.path
        &&& self.file_type == other.file_type
        &&& forall|name: Seq<char>| #[trigger]
            names.contains(name) ==> self.siblings.contains(text::utf8(name))
                == other.siblings.contains(text::utf8(name))
    }
}

/// A file system entry that can be evaluated against rules.
#[derive(Debug)]
pub struct Candidate<'a> {
    pub path: &'a TreePath,
    pub file_type: FileType,
    /// Names found in the parent directory, out of those that
    /// `RuleEngine::consulted` asks for.
    pub siblings: &'a Vec<Vec<u8>>,
}

impl<'a> View for Candidate<'a> {
    type V = CandidateView;

    open spec fn view(&self) -> CandidateView {
        CandidateView {
            path: self.path@,
            file_type: self.file_type,
            siblings: text::byte_names(self.siblings@).to_set(),
        }
    }
}

impl<'a> Candidate<'a> {
    pub fn is_dir(&self) -> (result: bool)
        ensures
            result == (self@.file_type == FileType::Directory),
    {
        self.file_type == FileType::Directory
    }

    pub fn is_symlink(&self) -> (result: bool)
        ensures
            result == (self@.file_type == FileType::Symlink),
    {
        self.file_type == FileType::Symlink
    }

    /// True for a directory whose name is exactly `name`.
    pub fn is_dir_named(&self, name: &str) -> (result: bool)
        ensures
            result == self@.is_dir_named(name@),
    {
        is_dir_named(self.path, self.file_type, name)
    }

    /// True when `name` exists beside the candidate.
    pub fn has_sibling(&self, name: &str) -> (result: bool)
        ensures
            result == self@.siblings.contains(text::utf8(name@)),
    {
        text::contains_name(self.siblings, name.as_bytes())
    }
}

/// True for a directory at `path` whose name is exactly `name`.
fn is_dir_named(path: &TreePath, file_type: FileType, name: &str) -> (result: bool)
    ensures
        result == (file_type == FileType::Directory && path@.file_name() == Some(
            text::utf8(name@),
        )),
{
    if file_type != FileType::Directory {
        return false;
    }
    match path.file_name() {
        Some(entry) => text::bytes_equal(entry.as_slice(), name.as_bytes()),
        None => false,
    }
}

/// Action taken when a rule matches.
#[derive(Clone, Copy, Debug, PartialEq, Eq, Structural)]
pub struct MatchAction {
    pub set_dropbox_ignore: bool,
    pub skip_descendants: bool,
}

impl MatchAction {
    /// Mark the match and leave everything below it alone.
    #[verifier::allow_in_spec]
    pub fn ignore_and_skip() -> Self
        returns
            (MatchAction { set_dropbox_ignore: true, skip_descendants: true }),
    {
        MatchAction { set_dropbox_ignore: true, skip_descendants: true }
    }

    /// Skip descending (and watching) without touching the Dropbox attribute.
    #[verifier::allow_in_spec]
    pub fn skip_only() -> Self
        returns
            (MatchAction { set_dropbox_ignore: false, skip_descendants: true }),
    {
        MatchAction { set_dropbox_ignore: false, skip_descendants: true }
    }
}

/// How loud a log line is.
#[derive(Clone, Copy, Debug, PartialEq, Eq, Structural)]
pub enum LogLevel {
    Info,
    Debug,
}

/// A line for the log.
#[derive(Debug)]
pub struct LogLine {
    pub level: LogLevel,
    pub message: String,
}

/// A match as a mathematical value.
#[verifier::ext_equal]
pub struct MatchView {
    pub name: Seq<char>,
    pub action: MatchAction,
}

/// Rule match containing what is useful for logging and control flow.
#[derive(Clone, Copy, Debug, PartialEq, Eq)]
pub struct RuleMatch {
    pub name: &'static str,
    pub action: MatchAction,
}

impl View for RuleMatch {
    type V = MatchView;

    open spec fn view(&self) -> MatchView {
        MatchView { name: self.name@, action: self.action }
    }
}

impl RuleMatch {
    /// The log line that says that this match fired for `path`. Kept out of
    /// `RuleEngine::evaluate` so that evaluation stays a pure query. Skip-only
    /// matches are debug lines: they do not act on Dropbox state, and there is
    /// one for every repository directory.
    pub fn log_matched(&self, path: &TreePath) -> (line: LogLine)
        ensures
            line.level == (if self.action.set_dropbox_ignore {
                LogLevel::Info
            } else {
                LogLevel::Debug
            }),
            line.message@ == "Matched rule '"@ + self.name@ + "' for "@ + path.text(),
            text::shows(path.spelling(), path.text()),
    {
        let mut message = String::from_str("Matched rule '");
        message.append(self.name);
        message.append("' for ");
        message.append(path.display().as_str());
        let level = if self.action.set_dropbox_ignore {
            LogLevel::Info
        } else {
            LogLevel::Debug
        };
        LogLine { level, message }
    }
}

/// A rule as a mathematical value.
#[verifier::ext_equal]
pub struct RuleView {
    pub name: Seq<char>,
    /// Which candidates satisfy the rule.
    pub matches: spec_fn(CandidateView) -> bool,
    pub action: MatchAction,
    /// Names whose creation may change the rule's verdict for a sibling.
    pub triggers: Seq<Seq<char>>,
    /// Names beside the entry that the verdict on it can turn on.
    pub consulted: spec_fn(PathView, FileType) -> Seq<Seq<char>>,
}

impl RuleView {
    /// True when the verdict on an entry turns on nothing in the file system
    /// but the siblings that the rule consults for it, and all of those are
    /// triggers. Then a trigger affects verdicts only in its own directory, and
    /// a rescan of that directory's subtree reconciles all of them.
    pub open spec fn is_local(self) -> bool {
        &&& forall|path: PathView, file_type: FileType, name: Seq<char>| #[trigger]
            (self.consulted)(path, file_type).contains(name) ==> self.triggers.contains(name)
        &&& forall|left: CandidateView, right: CandidateView|
            #![trigger (self.matches)(left), (self.matches)(right)]
            left.agrees_on(right, (self.consulted)(left.path, left.file_type)) ==> (self.matches)(
                left,
            ) == (self.matches)(right)
    }
}

/// Implemented by all matching rules to keep the system extensible.
pub trait Rule: Send + Sync {
    /// What the rule is.
    spec fn model(&self) -> RuleView;

    /// Human readable name used for logging.
    fn name(&self) -> (name: &'static str)
        ensures
            name@ == self.model().name,
    ;

    /// Returns true if the candidate satisfies this rule.
    fn matches(&self, candidate: &Candidate<'_>) -> (result: bool)
        ensures
            result == (self.model().matches)(candidate@),
    ;

    /// Behavior to apply when the rule matches.
    fn action(&self) -> (action: MatchAction)
        ensures
            action == self.model().action,
    ;

    /// Filenames whose creation may change this rule's verdict for a sibling.
    /// Creating any of these under a watched directory schedules a rescan of
    /// that directory's subtree, so a rule must be local: its verdicts turn on
    /// no entry outside the candidate's own directory.
    fn triggers(&self) -> (names: &'static [&'static str])
        ensures
            text::texts(names@) == self.model().triggers,
            self.model().is_local(),
    ;

    /// Names beside the entry at `path` that the verdict on it turns on: those
    /// that have to be looked for before `matches` is asked.
    fn consulted(&self, path: &TreePath, file_type: FileType) -> (names: &'static [&'static str])
        ensures
            text::texts(names@) == (self.model().consulted)(path@, file_type),
    ;
}

/// A rule that matches the directories named in `dirs`.
pub open spec fn artifact_dirs_rule(
    name: Seq<char>,
    dirs: Seq<Seq<char>>,
    action: MatchAction,
) -> RuleView {
    RuleView {
        name,
        matches: |candidate: CandidateView|
            exists|i: int| 0 <= i < dirs.len() && #[trigger] candidate.is_dir_named(dirs[i]),
        action,
        triggers: Seq::empty(),
        consulted: |path: PathView, file_type: FileType| Seq::<Seq<char>>::empty(),
    }
}

/// A rule that matches the directories named `dir` beside which one of
/// `markers` exists.
pub open spec fn marked_build_dir_rule(
    name: Seq<char>,
    dir: Seq<char>,
    markers: Seq<Seq<char>>,
) -> RuleView {
    RuleView {
        name,
        matches: |candidate: CandidateView|
            candidate.is_dir_named(dir) && exists|i: int|
                0 <= i < markers.len() && candidate.siblings.contains(
                    text::utf8(#[trigger] markers[i]),
                ),
        action: MatchAction::ignore_and_skip(),
        triggers: markers,
        consulted: |path: PathView, file_type: FileType|
            if file_type == FileType::Directory && path.file_name() == Some(text::utf8(dir)) {
                markers
            } else {
                Seq::empty()
            },
    }
}

/// The rule that matches every entry, of whatever type, whose name ends in
/// `.egg-info`.
pub open spec fn egg_info_rule() -> RuleView {
    RuleView {
        name: "Python egg-info metadata"@,
        matches: |candidate: CandidateView|
            match candidate.path.file_name() {
                Some(name) => text::utf8(".egg-info"@).is_suffix_of(name),
                None => false,
            },
        action: MatchAction::ignore_and_skip(),
        triggers: Seq::empty(),
        consulted: |path: PathView, file_type: FileType| Seq::<Seq<char>>::empty(),
    }
}

/// A list of directory names makes a local rule: nothing but the entry itself
/// decides.
pub proof fn artifact_dirs_rules_are_local(
    name: Seq<char>,
    dirs: Seq<Seq<char>>,
    action: MatchAction,
)
    ensures
        artifact_dirs_rule(name, dirs, action).is_local(),
{
    let model = artifact_dirs_rule(name, dirs, action);
    assert forall|left: CandidateView, right: CandidateView|
        #![trigger (model.matches)(left), (model.matches)(right)]
        left.agrees_on(right, (model.consulted)(left.path, left.file_type)) implies (model.matches)(
        left,
    ) == (model.matches)(right) by {
        assert forall|i: int|
            0 <= i < dirs.len() && #[trigger] left.is_dir_named(
                dirs[i],
            ) implies right.is_dir_named(dirs[i]) by {}
        assert forall|i: int|
            0 <= i < dirs.len() && #[trigger] right.is_dir_named(
                dirs[i],
            ) implies left.is_dir_named(dirs[i]) by {}
    }
}

/// A directory name with markers makes a local rule: the markers beside the
/// entry decide, and all of them are triggers.
pub proof fn marked_build_dir_rules_are_local(
    name: Seq<char>,
    dir: Seq<char>,
    markers: Seq<Seq<char>>,
)
    ensures
        marked_build_dir_rule(name, dir, markers).is_local(),
{
    let model = marked_build_dir_rule(name, dir, markers);
    assert forall|left: CandidateView, right: CandidateView|
        #![trigger (model.matches)(left), (model.matches)(right)]
        left.agrees_on(right, (model.consulted)(left.path, left.file_type)) implies (model.matches)(
        left,
    ) == (model.matches)(right) by {
        assert forall|i: int| 0 <= i < markers.len() implies markers.contains(
            #[trigger] markers[i],
        ) by {}
    }
}

/// Rule matching a build output directory only when a marker file exists in
/// the same parent directory, so generic names like `target` or `build` are
/// ignored only inside real projects. The markers double as triggers:
/// creating one schedules a scoped rescan that reconciles a pre-existing
/// build directory.
pub struct MarkedBuildDirRule {
    name: &'static str,
    dir: &'static str,
    markers: &'static [&'static str],
}

impl Rule for MarkedBuildDirRule {
    closed spec fn model(&self) -> RuleView {
        marked_build_dir_rule(self.name@, self.dir@, text::texts(self.markers@))
    }

    fn name(&self) -> (name: &'static str) {
        self.name
    }

    fn matches(&self, candidate: &Candidate<'_>) -> (result: bool) {
        if !candidate.is_dir_named(self.dir) {
            return false;
        }
        let mut i: usize = 0;
        while i < self.markers.len()
            invariant
                i <= self.markers@.len(),
                candidate@.is_dir_named(self.dir@),
                forall|k: int|
                    0 <= k < i ==> !candidate@.siblings.contains(
                        text::utf8(#[trigger] text::texts(self.markers@)[k]),
                    ),
            decreases self.markers@.len() - i,
        {
            let marker = self.markers[i];
            assert(text::texts(self.markers@)[i as int] == marker@);
            if candidate.has_sibling(marker) {
                return true;
            }
            i = i + 1;
        }
        false
    }

    fn action(&self) -> (action: MatchAction) {
        MatchAction::ignore_and_skip()
    }

    fn triggers(&self) -> (names: &'static [&'static str]) {
        proof {
            marked_build_dir_rules_are_local(self.name@, self.dir@, text::texts(self.markers@));
        }
        self.markers
    }

    fn consulted(&self, path: &TreePath, file_type: FileType) -> (names: &'static [&'static str]) {
        if is_dir_named(path, file_type, self.dir) {
            self.markers
        } else {
            no_names()
        }
    }
}

/// The empty list of names.
fn no_names() -> (names: &'static [&'static str])
    ensures
        text::texts(names@) == Seq::<Seq<char>>::empty(),
{
    let names: &'static [&'static str] = &[];
    assert(text::texts(names@) =~= Seq::<Seq<char>>::empty());
    names
}

/// Rule matching directories whose exact name is in a fixed list: the common
/// "tool-owned artifact directory" shape.
pub struct ArtifactDirsRule {
    name: &'static str,
    dirs: &'static [&'static str],
    action: MatchAction,
}

impl Rule for ArtifactDirsRule {
    closed spec fn model(&self) -> RuleView {
        artifact_dirs_rule(self.name@, text::texts(self.dirs@), self.action)
    }

    fn name(&self) -> (name: &'static str) {
        self.name
    }

    fn matches(&self, candidate: &Candidate<'_>) -> (result: bool) {
        let mut i: usize = 0;
        while i < self.dirs.len()
            invariant
                i <= self.dirs@.len(),
                forall|k: int|
                    0 <= k < i ==> !#[trigger] candidate@.is_dir_named(
                        text::texts(self.dirs@)[k],
                    ),
            decreases self.dirs@.len() - i,
        {
            let dir = self.dirs[i];
            assert(text::texts(self.dirs@)[i as int] == dir@);
            if candidate.is_dir_named(dir) {
                return true;
            }
            i = i + 1;
        }
        false
    }

    fn action(&self) -> (action: MatchAction) {
        self.action
    }

    fn triggers(&self) -> (names: &'static [&'static str]) {
        proof {
            artifact_dirs_rules_are_local(self.name@, text::texts(self.dirs@), self.action);
        }
        no_names()
    }

    fn consulted(&self, path: &TreePath, file_type: FileType) -> (names: &'static [&'static str]) {
        no_names()
    }
}

/// Rule matching `*.egg-info` metadata by suffix, files as well as
/// directories, on the raw bytes of the name.
pub struct EggInfoRule;

impl Rule for EggInfoRule {
    open spec fn model(&self) -> RuleView {
        egg_info_rule()
    }

    fn name(&self) -> (name: &'static str) {
        "Python egg-info metadata"
    }

    fn matches(&self, candidate: &Candidate<'_>) -> (result: bool) {
        match candidate.path.file_name() {
            Some(name) => text::ends_with(name.as_slice(), ".egg-info".as_bytes()),
            None => false,
        }
    }

    fn action(&self) -> (action: MatchAction) {
        MatchAction::ignore_and_skip()
    }

    fn triggers(&self) -> (names: &'static [&'static str]) {
        no_names()
    }

    fn consulted(&self, path: &TreePath, file_type: FileType) -> (names: &'static [&'static str]) {
        no_names()
    }
}

/// The model of `ArtifactDirsRule::node_modules`.
pub open spec fn node_modules_rule() -> RuleView {
    artifact_dirs_rule(
        "node_modules directory"@,
        seq!["node_modules"@],
        MatchAction::ignore_and_skip(),
    )
}

/// The model of `ArtifactDirsRule::pnpm_store`.
pub open spec fn pnpm_store_rule() -> RuleView {
    artifact_dirs_rule(
        "pnpm store directory"@,
        seq![".pnpm-store"@],
        MatchAction::ignore_and_skip(),
    )
}

/// Python environments and tool caches, by exact name.
pub open spec fn python_artifact_dirs() -> Seq<Seq<char>> {
    seq![
        ".venv"@,
        "venv"@,
        "__pycache__"@,
        ".pytest_cache"@,
        ".mypy_cache"@,
        ".ruff_cache"@,
        ".tox"@,
    ]
}

/// The model of `ArtifactDirsRule::python_caches`.
pub open spec fn python_caches_rule() -> RuleView {
    artifact_dirs_rule(
        "Python build/cache artifact"@,
        python_artifact_dirs(),
        MatchAction::ignore_and_skip(),
    )
}

/// JavaScript build output and tool caches, by exact name.
pub open spec fn js_artifact_dirs() -> Seq<Seq<char>> {
    seq![
        ".next"@,
        ".nuxt"@,
        ".turbo"@,
        ".parcel-cache"@,
        ".svelte-kit"@,
        ".astro"@,
        ".angular"@,
        ".vite"@,
    ]
}

/// The model of `ArtifactDirsRule::js_build`.
pub open spec fn js_build_rule() -> RuleView {
    artifact_dirs_rule(
        "JavaScript build/cache directory"@,
        js_artifact_dirs(),
        MatchAction::ignore_and_skip(),
    )
}

/// The model of `ArtifactDirsRule::jvm_caches`.
pub open spec fn jvm_caches_rule() -> RuleView {
    artifact_dirs_rule(
        "Gradle cache directory"@,
        seq![".gradle"@],
        MatchAction::ignore_and_skip(),
    )
}

/// The model of `ArtifactDirsRule::iac_caches`.
pub open spec fn iac_caches_rule() -> RuleView {
    artifact_dirs_rule(
        "IaC cache directory"@,
        seq![".terraform"@, ".terragrunt-cache"@],
        MatchAction::ignore_and_skip(),
    )
}

/// The model of `ArtifactDirsRule::dev_env_dirs`.
pub open spec fn dev_env_dirs_rule() -> RuleView {
    artifact_dirs_rule(
        "development environment directory"@,
        seq![".direnv"@, ".devenv"@],
        MatchAction::ignore_and_skip(),
    )
}

/// The model of `ArtifactDirsRule::zig_caches`.
pub open spec fn zig_caches_rule() -> RuleView {
    artifact_dirs_rule(
        "Zig cache directory"@,
        seq![".zig-cache"@],
        MatchAction::ignore_and_skip(),
    )
}

/// The model of `ArtifactDirsRule::dart_caches`.
pub open spec fn dart_caches_rule() -> RuleView {
    artifact_dirs_rule(
        "Dart tool directory"@,
        seq![".dart_tool"@],
        MatchAction::ignore_and_skip(),
    )
}

/// The model of `ArtifactDirsRule::vcs_dirs`.
pub open spec fn vcs_dirs_rule() -> RuleView {
    artifact_dirs_rule(
        "version control directory"@,
        seq![".git"@, ".hg"@, ".svn"@, ".jj"@, ".bzr"@],
        MatchAction::skip_only(),
    )
}

/// The model of `MarkedBuildDirRule::cargo_target`.
pub open spec fn cargo_target_rule() -> RuleView {
    marked_build_dir_rule(
        "Cargo target directory"@,
        "target"@,
        seq!["Cargo.toml"@],
    )
}

/// The model of `MarkedBuildDirRule::maven_target`.
pub open spec fn maven_target_rule() -> RuleView {
    marked_build_dir_rule(
        "Maven target directory"@,
        "target"@,
        seq!["pom.xml"@],
    )
}

/// Gradle build and settings scripts.
pub open spec fn gradle_scripts() -> Seq<Seq<char>> {
    seq![
        "build.gradle"@,
        "build.gradle.kts"@,
        "settings.gradle"@,
        "settings.gradle.kts"@,
    ]
}

/// The model of `MarkedBuildDirRule::gradle_build`.
pub open spec fn gradle_build_rule() -> RuleView {
    marked_build_dir_rule(
        "Gradle build directory"@,
        "build"@,
        gradle_scripts(),
    )
}

/// The model of `MarkedBuildDirRule::composer_vendor`.
pub open spec fn composer_vendor_rule() -> RuleView {
    marked_build_dir_rule(
        "Composer vendor directory"@,
        "vendor"@,
        seq!["composer.json"@],
    )
}

/// The model of `MarkedBuildDirRule::mix_build`.
pub open spec fn mix_build_rule() -> RuleView {
    marked_build_dir_rule(
        "Mix build directory"@,
        "_build"@,
        seq!["mix.exs"@],
    )
}

/// The model of `MarkedBuildDirRule::mix_deps`.
pub open spec fn mix_deps_rule() -> RuleView {
    marked_build_dir_rule(
        "Mix deps directory"@,
        "deps"@,
        seq!["mix.exs"@],
    )
}

/// The model of `MarkedBuildDirRule::zig_out`.
pub open spec fn zig_out_rule() -> RuleView {
    marked_build_dir_rule(
        "Zig output directory"@,
        "zig-out"@,
        seq!["build.zig"@],
    )
}

impl ArtifactDirsRule {
    /// Dependencies installed by npm and its relatives.
    pub fn node_modules() -> (rule: Self)
        ensures
            rule.model() == node_modules_rule(),
    {
        let rule = ArtifactDirsRule {
            name: "node_modules directory",
            dirs: &["node_modules"],
            action: MatchAction::ignore_and_skip(),
        };
        assert(text::texts(rule.dirs@) =~= seq!["node_modules"@]);
        rule
    }

    /// The content-addressable store of pnpm.
    pub fn pnpm_store() -> (rule: Self)
        ensures
            rule.model() == pnpm_store_rule(),
    {
        let rule = ArtifactDirsRule {
            name: "pnpm store directory",
            dirs: &[".pnpm-store"],
            action: MatchAction::ignore_and_skip(),
        };
        assert(text::texts(rule.dirs@) =~= seq![".pnpm-store"@]);
        rule
    }

    /// Reproducible Python environments and tool caches. Each is tool-owned and
    /// never contains user source, so it is safe to mark and skip.
    pub fn python_caches() -> (rule: Self)
        ensures
            rule.model() == python_caches_rule(),
    {
        let rule = ArtifactDirsRule {
            name: "Python build/cache artifact",
            dirs: &[
                ".venv",
                "venv",
                "__pycache__",
                ".pytest_cache",
                ".mypy_cache",
                ".ruff_cache",
                ".tox",
            ],
            action: MatchAction::ignore_and_skip(),
        };
        assert(text::texts(rule.dirs@) =~= python_artifact_dirs());
        rule
    }

    /// JavaScript framework build output and tool caches. Each is framework- or
    /// tool-owned and never holds user source.
    pub fn js_build() -> (rule: Self)
        ensures
            rule.model() == js_build_rule(),
    {
        let rule = ArtifactDirsRule {
            name: "JavaScript build/cache directory",
            dirs: &[
                ".next",
                ".nuxt",
                ".turbo",
                ".parcel-cache",
                ".svelte-kit",
                ".astro",
                ".angular",
                ".vite",
            ],
            action: MatchAction::ignore_and_skip(),
        };
        assert(text::texts(rule.dirs@) =~= js_artifact_dirs());
        rule
    }

    /// Project-local Gradle cache. The guarded `build` output is
    /// `MarkedBuildDirRule::gradle_build`; `.gradle` is unconditional because a
    /// directory with this exact name is Gradle-owned in practice.
    pub fn jvm_caches() -> (rule: Self)
        ensures
            rule.model() == jvm_caches_rule(),
    {
        let rule = ArtifactDirsRule {
            name: "Gradle cache directory",
            dirs: &[".gradle"],
            action: MatchAction::ignore_and_skip(),
        };
        assert(text::texts(rule.dirs@) =~= seq![".gradle"@]);
        rule
    }

    /// Infrastructure tool caches: `.terraform` holds downloads that
    /// `terraform init` recreates, `.terragrunt-cache` is a working copy.
    pub fn iac_caches() -> (rule: Self)
        ensures
            rule.model() == iac_caches_rule(),
    {
        let rule = ArtifactDirsRule {
            name: "IaC cache directory",
            dirs: &[".terraform", ".terragrunt-cache"],
            action: MatchAction::ignore_and_skip(),
        };
        assert(text::texts(rule.dirs@) =~= seq![".terraform"@, ".terragrunt-cache"@]);
        rule
    }

    /// State of direnv and devenv; both are regenerated on demand.
    pub fn dev_env_dirs() -> (rule: Self)
        ensures
            rule.model() == dev_env_dirs_rule(),
    {
        let rule = ArtifactDirsRule {
            name: "development environment directory",
            dirs: &[".direnv", ".devenv"],
            action: MatchAction::ignore_and_skip(),
        };
        assert(text::texts(rule.dirs@) =~= seq![".direnv"@, ".devenv"@]);
        rule
    }

    /// Zig compiler cache; regenerated by any `zig build` or `zig test`.
    pub fn zig_caches() -> (rule: Self)
        ensures
            rule.model() == zig_caches_rule(),
    {
        let rule = ArtifactDirsRule {
            name: "Zig cache directory",
            dirs: &[".zig-cache"],
            action: MatchAction::ignore_and_skip(),
        };
        assert(text::texts(rule.dirs@) =~= seq![".zig-cache"@]);
        rule
    }

    /// Dart and Flutter tool state created by `dart pub get`.
    pub fn dart_caches() -> (rule: Self)
        ensures
            rule.model() == dart_caches_rule(),
    {
        let rule = ArtifactDirsRule {
            name: "Dart tool directory",
            dirs: &[".dart_tool"],
            action: MatchAction::ignore_and_skip(),
        };
        assert(text::texts(rule.dirs@) =~= seq![".dart_tool"@]);
        rule
    }

    /// Version control internals. Never marked (syncing a repository stays the
    /// user's choice) but never descended into either: nothing inside ever
    /// matches a rule, and watching e.g. `.git/objects/*` wastes thousands of
    /// watches and floods the event queue.
    pub fn vcs_dirs() -> (rule: Self)
        ensures
            rule.model() == vcs_dirs_rule(),
    {
        let rule = ArtifactDirsRule {
            name: "version control directory",
            dirs: &[".git", ".hg", ".svn", ".jj", ".bzr"],
            action: MatchAction::skip_only(),
        };
        assert(text::texts(rule.dirs@) =~= seq![".git"@, ".hg"@, ".svn"@, ".jj"@, ".bzr"@]);
        rule
    }
}

impl MarkedBuildDirRule {
    /// Cargo build output.
    pub fn cargo_target() -> (rule: Self)
        ensures
            rule.model() == cargo_target_rule(),
    {
        let rule = MarkedBuildDirRule {
            name: "Cargo target directory",
            dir: "target",
            markers: &["Cargo.toml"],
        };
        assert(text::texts(rule.markers@) =~= seq!["Cargo.toml"@]);
        rule
    }

    /// Maven build output.
    pub fn maven_target() -> (rule: Self)
        ensures
            rule.model() == maven_target_rule(),
    {
        let rule = MarkedBuildDirRule {
            name: "Maven target directory",
            dir: "target",
            markers: &["pom.xml"],
        };
        assert(text::texts(rule.markers@) =~= seq!["pom.xml"@]);
        rule
    }

    /// Gradle build output, beside a build or settings script.
    pub fn gradle_build() -> (rule: Self)
        ensures
            rule.model() == gradle_build_rule(),
    {
        let rule = MarkedBuildDirRule {
            name: "Gradle build directory",
            dir: "build",
            markers: &[
                "build.gradle",
                "build.gradle.kts",
                "settings.gradle",
                "settings.gradle.kts",
            ],
        };
        assert(text::texts(rule.markers@) =~= gradle_scripts());
        rule
    }

    /// Dependencies that `composer install` regenerates.
    pub fn composer_vendor() -> (rule: Self)
        ensures
            rule.model() == composer_vendor_rule(),
    {
        let rule = MarkedBuildDirRule {
            name: "Composer vendor directory",
            dir: "vendor",
            markers: &["composer.json"],
        };
        assert(text::texts(rule.markers@) =~= seq!["composer.json"@]);
        rule
    }

    /// Mix compile output; regenerated by `mix compile`.
    pub fn mix_build() -> (rule: Self)
        ensures
            rule.model() == mix_build_rule(),
    {
        let rule = MarkedBuildDirRule {
            name: "Mix build directory",
            dir: "_build",
            markers: &["mix.exs"],
        };
        assert(text::texts(rule.markers@) =~= seq!["mix.exs"@]);
        rule
    }

    /// Mix dependency checkouts; regenerated by `mix deps.get`.
    pub fn mix_deps() -> (rule: Self)
        ensures
            rule.model() == mix_deps_rule(),
    {
        let rule = MarkedBuildDirRule {
            name: "Mix deps directory",
            dir: "deps",
            markers: &["mix.exs"],
        };
        assert(text::texts(rule.markers@) =~= seq!["mix.exs"@]);
        rule
    }

    /// Install output of `zig build`; `build.zig` is required to build.
    pub fn zig_out() -> (rule: Self)
        ensures
            rule.model() == zig_out_rule(),
    {
        let rule = MarkedBuildDirRule {
            name: "Zig output directory",
            dir: "zig-out",
            markers: &["build.zig"],
        };
        assert(text::texts(rule.markers@) =~= seq!["build.zig"@]);
        rule
    }
}

/// A rule that can be registered: one of the built-in shapes, or any other
/// implementation of `Rule`.
pub enum AnyRule {
    Artifact(ArtifactDirsRule),
    Marked(MarkedBuildDirRule),
    EggInfo(EggInfoRule),
    Custom(Box<dyn Rule>),
}

impl Rule for AnyRule {
    open spec fn model(&self) -> RuleView {
        match self {
            AnyRule::Artifact(rule) => rule.model(),
            AnyRule::Marked(rule) => rule.model(),
            AnyRule::EggInfo(rule) => rule.model(),
            AnyRule::Custom(rule) => rule.model(),
        }
    }

    fn name(&self) -> (name: &'static str) {
        match self {
            AnyRule::Artifact(rule) => rule.name(),
            AnyRule::Marked(rule) => rule.name(),
            AnyRule::EggInfo(rule) => rule.name(),
            AnyRule::Custom(rule) => rule.name(),
        }
    }

    fn matches(&self, candidate: &Candidate<'_>) -> (result: bool) {
        match self {
            AnyRule::Artifact(rule) => rule.matches(candidate),
            AnyRule::Marked(rule) => rule.matches(candidate),
            AnyRule::EggInfo(rule) => rule.matches(candidate),
            AnyRule::Custom(rule) => rule.matches(candidate),
        }
    }

    fn action(&self) -> (action: MatchAction) {
        match self {
            AnyRule::Artifact(rule) => rule.action(),
            AnyRule::Marked(rule) => rule.action(),
            AnyRule::EggInfo(rule) => rule.action(),
            AnyRule::Custom(rule) => rule.action(),
        }
    }

    fn triggers(&self) -> (names: &'static [&'static str]) {
        match self {
            AnyRule::Artifact(rule) => rule.triggers(),
            AnyRule::Marked(rule) => rule.triggers(),
            AnyRule::EggInfo(rule) => rule.triggers(),
            AnyRule::Custom(rule) => rule.triggers(),
        }
    }

    fn consulted(&self, path: &TreePath, file_type: FileType) -> (names: &'static [&'static str]) {
        match self {
            AnyRule::Artifact(rule) => rule.consulted(path, file_type),
            AnyRule::Marked(rule) => rule.consulted(path, file_type),
            AnyRule::EggInfo(rule) => rule.consulted(path, file_type),
            AnyRule::Custom(rule) => rule.consulted(path, file_type),
        }
    }
}

/// The models of a list of rules.
pub open spec fn models(rules: Seq<AnyRule>) -> Seq<RuleView> {
    rules.map_values(|rule: AnyRule| rule.model())
}

/// The production ruleset, in priority order. Version control directories come
/// first: they must resolve to skip-only before any marking rule can see them.
pub open spec fn default_models() -> Seq<RuleView> {
    seq![
        vcs_dirs_rule(),
        node_modules_rule(),
        pnpm_store_rule(),
        cargo_target_rule(),
        maven_target_rule(),
        gradle_build_rule(),
        python_caches_rule(),
        egg_info_rule(),
        js_build_rule(),
        jvm_caches_rule(),
        iac_caches_rule(),
        dev_env_dirs_rule(),
        composer_vendor_rule(),
        mix_build_rule(),
        mix_deps_rule(),
        zig_out_rule(),
        zig_caches_rule(),
        dart_caches_rule(),
    ]
}

/// The production ruleset. This is the single registration site: a new rule is
/// one line here and one in `default_models`.
pub fn default_rules() -> (rules: Vec<AnyRule>)
    ensures
        models(rules@) == default_models(),
{
    let mut rules: Vec<AnyRule> = Vec::new();
    rules.push(AnyRule::Artifact(ArtifactDirsRule::vcs_dirs()));
    rules.push(AnyRule::Artifact(ArtifactDirsRule::node_modules()));
    rules.push(AnyRule::Artifact(ArtifactDirsRule::pnpm_store()));
    rules.push(AnyRule::Marked(MarkedBuildDirRule::cargo_target()));
    rules.push(AnyRule::Marked(MarkedBuildDirRule::maven_target()));
    rules.push(AnyRule::Marked(MarkedBuildDirRule::gradle_build()));
    rules.push(AnyRule::Artifact(ArtifactDirsRule::python_caches()));
    rules.push(AnyRule::EggInfo(EggInfoRule));
    rules.push(AnyRule::Artifact(ArtifactDirsRule::js_build()));
    rules.push(AnyRule::Artifact(ArtifactDirsRule::jvm_caches()));
    rules.push(AnyRule::Artifact(ArtifactDirsRule::iac_caches()));
    rules.push(AnyRule::Artifact(ArtifactDirsRule::dev_env_dirs()));
    rules.push(AnyRule::Marked(MarkedBuildDirRule::composer_vendor()));
    rules.push(AnyRule::Marked(MarkedBuildDirRule::mix_build()));
    rules.push(AnyRule::Marked(MarkedBuildDirRule::mix_deps()));
    rules.push(AnyRule::Marked(MarkedBuildDirRule::zig_out()));
    rules.push(AnyRule::Artifact(ArtifactDirsRule::zig_caches()));
    rules.push(AnyRule::Artifact(ArtifactDirsRule::dart_caches()));
    assert(models(rules@) =~= default_models());
    rules
}

/// Rules are asked in the order in which they are registered.
pub proof fn rules_are_asked_as_given(rules: Seq<AnyRule>)
    ensures
        models(rules).len() == rules.len(),
        forall|i: int| 0 <= i < rules.len() ==> #[trigger] models(rules)[i] == rules[i].model(),
{
}

/// A candidate is seen for what it is, with what stands beside it, and a match for
/// what it says.
pub proof fn candidates_are_seen_as_given(candidate: Candidate<'_>, matched: RuleMatch)
    ensures
        candidate@.path == candidate.path@,
        candidate@.file_type == candidate.file_type,
        forall|name: Seq<u8>| #[trigger]
            candidate@.siblings.contains(name) <==> exists|k: int|
                0 <= k < candidate.siblings.len() && (#[trigger] candidate.siblings[k])@ == name,
        matched@.name == matched.name@,
        matched@.action == matched.action,
{
    assert forall|name: Seq<u8>| #[trigger]
        candidate@.siblings.contains(name) <==> exists|k: int|
            0 <= k < candidate.siblings.len() && (#[trigger] candidate.siblings[k])@ == name by {
        discovery::names_are_seen(candidate.siblings@, name);
    }
}

} // verus!

//! Paths.

use dropignore::error::Failure;
use dropignore::path::TreePath;
use dropignore::watch::{watch_error_context, WatchRegistry};

fn at(path: &str) -> TreePath {
    TreePath::new(path.as_bytes())
}

#[test]
fn paths_are_equal_by_their_components() {
    for (given, shortest) in [
        ("/", "/"),
        ("", ""),
        ("/a/b", "/a/b"),
        ("/a//b/", "/a/b"),
        ("/a/./b/.", "/a/b"),
        ("./a", "./a"),
        ("a/.", "a"),
        (".", "."),
        ("../a", "../a"),
        ("/a/../b", "/a/../b"),
        ("//a", "/a"),
        ("/./a", "/a"),
    ] {
        assert_eq!(at(given), at(shortest), "{given}");
        assert_eq!(at(given).shortest_spelling(), shortest.as_bytes(), "{given}");
        assert_eq!(at(given).to_bytes(), given.as_bytes(), "{given}");
        assert_eq!(at(given).clone().to_bytes(), given.as_bytes(), "{given}");
        assert_eq!(at(given).display(), given);
    }
    assert_ne!(at("/a"), at("a"));
    assert_ne!(at("/a/b"), at("/a/c"));
}

#[test]
fn std_agrees_on_components_and_spelling() {
    for text in [
        "/", "", "a", "/a", "a/b", "/a/b/", "a//b", "./a", "a/./b", ".", "..", "../..", "/..",
        "./.", "/.", "a/..", "//", ".//a", "a/.b/..c", "...", "//a", "/a//b//c", "a/./.", "././a",
        "/./a", "a/././b/",
    ] {
        let path = at(text);
        let std_path = std::path::Path::new(text);
        let rebuilt: std::path::PathBuf = std_path.components().collect();
        let own = String::from_utf8(path.shortest_spelling()).expect("text");
        assert_eq!(Some(own.as_str()), rebuilt.to_str(), "{text}");
        assert_eq!(path.display(), format!("{}", std_path.display()));
        assert_eq!(
            path.parent().map(|parent| parent.to_bytes()),
            std_path.parent().map(|parent| parent.to_str().expect("text").as_bytes().to_vec()),
            "{text}"
        );
        assert_eq!(
            path.file_name().cloned(),
            std_path.file_name().map(|name| name.to_str().expect("text").as_bytes().to_vec()),
            "{text}"
        );
        for other in ["/", "", "a", "/a", "a/b", "./a", "..", "a//b/"] {
            assert_eq!(path.starts_with(&at(other)), std_path.starts_with(other), "{text} {other}");
            let own = String::from_utf8(path.join(other.as_bytes()).to_bytes()).expect("text");
            assert_eq!(Some(own.as_str()), std_path.join(other).to_str(), "{text} + {other}");
        }
    }
}

#[test]
fn messages_spell_paths_as_given() {
    assert_eq!(
        Failure::NotADirectory(at("/t//a/./b/")).message(),
        "/t//a/./b/ is not a directory"
    );
    assert_eq!(
        watch_error_context(&at("a//b"), Some(13)),
        "Failed to add watch for a//b"
    );
    let mut registry = WatchRegistry::new();
    registry.insert(at("/t//a"), 3);
    assert!(registry.contains_path(&at("/t/a")));
    assert_eq!(registry.path_for(3).expect("is watched").display(), "/t//a");
}

#[test]
fn entries_lie_below_their_directory() {
    let dir = at("/t/a");
    let entry = dir.join(b"b");
    assert_eq!(entry, at("/t/a/b"));
    assert_eq!(entry.parent(), Some(dir.clone()));
    assert_eq!(entry.file_name(), Some(&b"b".to_vec()));
    assert!(entry.starts_with(&dir));
    assert!(!dir.join(b"bc").starts_with(&entry));
    assert!(!entry.starts_with(&dir.join(b"bc")));
    assert_eq!(entry.clone(), entry);
}

#[test]
fn display_replaces_what_is_not_text() {
    assert_eq!(at("/t/\u{e9}").display(), "/t/\u{e9}");
    assert_eq!(TreePath::new(b"/t/\xff").display(), "/t/\u{fffd}");
}

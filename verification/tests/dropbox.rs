//! Marking.

use dropignore::dropbox::{
    dropbox_ignore_value, is_already_ignored, MarkStep, Marking, DROPBOX_IGNORE_ATTR,
    READ_CAPACITY,
};
use dropignore::error::Failure;
use dropignore::path::TreePath;

/// A file that may carry the attribute.
struct Stored(Option<Vec<u8>>);

impl Stored {
    fn read(&self) -> (isize, Vec<u8>) {
        let mut buffer = vec![0; READ_CAPACITY];
        match &self.0 {
            Some(value) if value.len() <= buffer.len() => {
                buffer[..value.len()].copy_from_slice(value);
                (value.len() as isize, buffer)
            }
            _ => (-1, buffer),
        }
    }

    fn is_ignored(&self) -> bool {
        let (length, buffer) = self.read();
        is_already_ignored(length, &buffer)
    }

    fn apply(&mut self, path: &str, dry_run: bool) -> Result<MarkStep, Failure> {
        let marking = Marking::begin(&TreePath::new(path.as_bytes()), dry_run)?;
        let (length, buffer) = self.read();
        let step = marking.attribute_read(length, &buffer);
        if step == MarkStep::Write {
            self.0 = Some(dropbox_ignore_value());
            marking.attribute_written(0)?;
        }
        Ok(step)
    }
}

#[test]
fn already_marked_path_is_detected_and_skipped() {
    let mut file = Stored(None);
    assert!(!file.is_ignored(), "fresh file must not read as marked");
    assert!(matches!(file.apply("/t/artifact", false), Ok(MarkStep::Write)));
    assert!(file.is_ignored(), "marked file must read as marked");
    assert!(matches!(file.apply("/t/artifact", false), Ok(MarkStep::AlreadyMarked)));
    assert!(matches!(file.apply("/t/artifact", true), Ok(MarkStep::AlreadyMarked)));
}

#[test]
fn wrong_attribute_value_is_rewritten() {
    let mut file = Stored(Some(b"0".to_vec()));
    assert!(matches!(file.apply("/t/artifact", false), Ok(MarkStep::Write)));
    assert_eq!(
        file.0.as_deref(),
        Some(&b"1"[..]),
        "a wrong stored value must be overwritten with \"1\""
    );

    let mut file = Stored(Some(b"10".to_vec()));
    assert!(matches!(file.apply("/t/artifact", false), Ok(MarkStep::Write)));
    assert_eq!(
        file.0.as_deref(),
        Some(&b"1"[..]),
        "a longer stored value must be overwritten with \"1\""
    );

    let mut file = Stored(Some(b"1 and more".to_vec()));
    assert!(matches!(file.apply("/t/artifact", false), Ok(MarkStep::Write)));
    assert!(file.is_ignored());
}

#[test]
fn dry_run_never_writes() {
    for stored in [None, Some(b"0".to_vec()), Some(b"10".to_vec()), Some(Vec::new())] {
        let mut file = Stored(stored.clone());
        assert!(matches!(file.apply("/t/artifact", true), Ok(MarkStep::WouldMark)));
        assert_eq!(file.0, stored);
    }
}

#[test]
fn setxattr_failure_is_reported_with_context() {
    let missing = TreePath::new(b"/nonexistent-dropignore-test/artifact");
    let marking = Marking::begin(&missing, false).expect("the path can be handed over");
    assert_eq!(marking.attribute_read(-1, &[0, 0]), MarkStep::Write);
    let failure =
        marking.attribute_written(-1).expect_err("marking a nonexistent path must fail");
    assert!(
        failure.message().contains("setxattr failed"),
        "error must name the failing call, got: {failure:?}"
    );
    assert_eq!(
        failure.message(),
        "setxattr failed for /nonexistent-dropignore-test/artifact"
    );
    assert!(marking.attribute_written(0).is_ok());
}

#[test]
fn interior_nul_in_path_is_rejected() {
    let path = TreePath::new(b"bad\0path");
    let failure = Marking::begin(&path, true)
        .expect_err("a path with an interior NUL must be rejected");
    assert!(
        failure.message().contains("interior NUL"),
        "error must explain the NUL rejection, got: {failure:?}"
    );
    assert_eq!(failure.message(), "Path contains interior NUL byte: bad\0path");
}

#[test]
fn attribute_is_the_one_that_dropbox_reads() {
    assert_eq!(DROPBOX_IGNORE_ATTR, "user.com.dropbox.ignored");
    assert_eq!(dropbox_ignore_value(), b"1");
    assert!(!is_already_ignored(1, &[]));
    assert!(!is_already_ignored(0, b"1"));
    assert!(!is_already_ignored(2, b"1\0"));
    assert!(is_already_ignored(1, b"1\0"));
}

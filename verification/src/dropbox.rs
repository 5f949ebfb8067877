//! Marking a path with the attribute that makes Dropbox ignore it.

use crate::error::Failure;
use crate::path::TreePath;
use vstd::prelude::*;

verus! {

/// Attribute name that instructs Dropbox to ignore a path.
pub const DROPBOX_IGNORE_ATTR: &'static str = "user.com.dropbox.ignored";

/// The one byte of the attribute value recognized by Dropbox: the digit one.
pub const DROPBOX_IGNORE_BYTE: u8 = 49;

/// How many bytes of a stored value are asked for: one more than the expected
/// value has, so that a longer stored value yields a length mismatch instead of
/// a truncated false positive.
pub const READ_CAPACITY: usize = 2;

/// The attribute value recognized by Dropbox.
pub open spec fn ignore_value() -> Seq<u8> {
    seq![DROPBOX_IGNORE_BYTE]
}

/// The attribute value recognized by Dropbox.
pub fn dropbox_ignore_value() -> (value: Vec<u8>)
    ensures
        value@ == ignore_value(),
{
    let mut value: Vec<u8> = Vec::new();
    value.push(DROPBOX_IGNORE_BYTE);
    assert(value@ =~= ignore_value());
    value
}

/// True when a read that returned `length` and filled `buffer` shows the
/// expected value.
pub open spec fn reads_as_ignored(length: isize, buffer: Seq<u8>) -> bool {
    &&& length == ignore_value().len()
    &&& ignore_value().is_prefix_of(buffer)
}

/// True when the path already carries the ignore attribute with the expected
/// value, given what reading the attribute returned and stored. Any read
/// failure (a negative length) reads as "not marked", so the caller goes on to
/// write the attribute, which reports real errors.
pub fn is_already_ignored(length: isize, buffer: &[u8]) -> (result: bool)
    ensures
        result == reads_as_ignored(length, buffer@),
{
    let result = length == 1 && buffer.len() >= 1 && buffer[0] == DROPBOX_IGNORE_BYTE;
    proof {
        if buffer@.len() >= 1 {
            assert(ignore_value()[0] == DROPBOX_IGNORE_BYTE);
            if buffer@[0] == DROPBOX_IGNORE_BYTE {
                assert(ignore_value() =~= buffer@.subrange(0, 1));
            } else {
                assert(buffer@.subrange(0, 1)[0] != ignore_value()[0]);
            }
        }
    }
    result
}

/// What is to be done about a path that should carry the attribute.
#[derive(Clone, Copy, Debug, PartialEq, Eq, Structural)]
pub enum MarkStep {
    /// Nothing: it carries the attribute.
    AlreadyMarked,
    /// Nothing: this is a dry run. Without it the attribute would be written.
    WouldMark,
    /// The attribute is to be written, in place of any other value.
    Write,
}

/// What is to be done, given whether the path carries the attribute and whether
/// this is a dry run.
pub open spec fn mark_step(ignored: bool, dry_run: bool) -> MarkStep {
    if ignored {
        MarkStep::AlreadyMarked
    } else if dry_run {
        MarkStep::WouldMark
    } else {
        MarkStep::Write
    }
}

/// The marking of one path: first the attribute is read, then it is written if
/// need be.
#[derive(Debug)]
pub struct Marking {
    path: TreePath,
    dry_run: bool,
}

impl Marking {
    /// The path to mark.
    pub closed spec fn path(self) -> TreePath {
        self.path
    }

    /// True when nothing must be written.
    pub closed spec fn dry_run(self) -> bool {
        self.dry_run
    }

    /// Begins to mark `path`. A path with an interior NUL byte cannot be handed
    /// to the kernel and is rejected, dry run or not.
    pub fn begin(path: &TreePath, dry_run: bool) -> (result: Result<Marking, Failure>)
        ensures
            match result {
                Ok(marking) => {
                    &&& !path.spelling().contains(0)
                    &&& marking.path().is_copy_of(path)
                    &&& marking.dry_run() == dry_run
                },
                Err(Failure::InteriorNul(rejected)) => path.spelling().contains(0)
                    && rejected.is_copy_of(path),
                Err(_) => false,
            },
    {
        let bytes = path.to_bytes();
        let mut i: usize = 0;
        while i < bytes.len()
            invariant
                i <= bytes@.len(),
                bytes@ == path.spelling(),
                forall|k: int| 0 <= k < i ==> bytes@[k] != 0,
            decreases bytes@.len() - i,
        {
            if bytes[i] == 0 {
                assert(bytes@[i as int] == 0);
                return Err(Failure::InteriorNul(path.clone()));
            }
            i = i + 1;
        }
        Ok(Marking { path: path.clone(), dry_run })
    }

    /// Takes what reading the attribute returned and stored, and says what is to
    /// be done. Nothing is written where the attribute is set already, so that
    /// rescans do not rewrite or re-announce paths marked earlier.
    pub fn attribute_read(&self, length: isize, buffer: &[u8]) -> (step: MarkStep)
        ensures
            step == mark_step(reads_as_ignored(length, buffer@), self.dry_run()),
    {
        if is_already_ignored(length, buffer) {
            MarkStep::AlreadyMarked
        } else if self.dry_run {
            MarkStep::WouldMark
        } else {
            MarkStep::Write
        }
    }

    /// Takes what writing the attribute returned.
    pub fn attribute_written(&self, code: i32) -> (result: Result<(), Failure>)
        ensures
            match result {
                Ok(_) => code == 0,
                Err(Failure::AttributeNotSet(path)) => code != 0 && path.is_copy_of(
                    &self.path(),
                ),
                Err(_) => false,
            },
    {
        if code != 0 {
            return Err(Failure::AttributeNotSet(self.path.clone()));
        }
        Ok(())
    }
}

/// True when a read into `buffer` that returns `length` is what a file system
/// answers that stores `stored`: the value and its length where it fits, a
/// negative number where there is none or it does not fit.
pub open spec fn is_read_of(stored: Option<Seq<u8>>, length: isize, buffer: Seq<u8>) -> bool {
    match stored {
        Some(value) => if value.len() <= buffer.len() {
            length == value.len() && value.is_prefix_of(buffer)
        } else {
            length < 0
        },
        None => length < 0,
    }
}

/// A path counts as marked exactly when the expected value is stored: not when
/// nothing is stored, not when another byte is, and not when a longer value is
/// that begins with the expected one.
pub proof fn marked_means_stored(stored: Option<Seq<u8>>, length: isize, buffer: Seq<u8>)
    requires
        buffer.len() == READ_CAPACITY,
        is_read_of(stored, length, buffer),
    ensures
        reads_as_ignored(length, buffer) <==> stored == Some(ignore_value()),
{
    if let Some(value) = stored {
        if value.len() == 1 && value.is_prefix_of(buffer) {
            assert(value[0] == buffer.subrange(0, 1)[0]);
            if value[0] == DROPBOX_IGNORE_BYTE {
                assert(value =~= ignore_value());
            }
            assert(ignore_value()[0] == DROPBOX_IGNORE_BYTE);
            if ignore_value().is_prefix_of(buffer) {
                assert(buffer.subrange(0, 1)[0] == DROPBOX_IGNORE_BYTE);
            }
        }
    }
}

/// What is stored after a path was marked.
pub open spec fn stored_after(stored: Option<Seq<u8>>, step: MarkStep) -> Option<Seq<u8>> {
    if step is Write {
        Some(ignore_value())
    } else {
        stored
    }
}

/// Marking leaves the expected value stored, whatever was stored before, and
/// marking again writes nothing. A dry run never changes what is stored.
pub proof fn marking_is_idempotent(
    stored: Option<Seq<u8>>,
    length: isize,
    buffer: Seq<u8>,
    again_length: isize,
    again_buffer: Seq<u8>,
    dry_run: bool,
)
    requires
        buffer.len() == READ_CAPACITY,
        again_buffer.len() == READ_CAPACITY,
        is_read_of(stored, length, buffer),
        is_read_of(
            stored_after(stored, mark_step(reads_as_ignored(length, buffer), dry_run)),
            again_length,
            again_buffer,
        ),
    ensures
        !dry_run ==> stored_after(stored, mark_step(reads_as_ignored(length, buffer), dry_run))
            == Some(ignore_value()),
        !dry_run ==> mark_step(reads_as_ignored(again_length, again_buffer), dry_run)
            == MarkStep::AlreadyMarked,
        dry_run ==> stored_after(stored, mark_step(reads_as_ignored(length, buffer), dry_run))
            == stored,
        dry_run ==> mark_step(reads_as_ignored(again_length, again_buffer), dry_run) == mark_step(
            reads_as_ignored(length, buffer),
            dry_run,
        ),
{
    let step = mark_step(reads_as_ignored(length, buffer), dry_run);
    marked_means_stored(stored, length, buffer);
    marked_means_stored(stored_after(stored, step), again_length, again_buffer);
}

/// What is done about a path goes by the bytes that reading its attribute gave: it is
/// left alone exactly when a single `1` was read. Otherwise the attribute is written,
/// except in a dry run, which never writes.
pub proof fn marking_goes_by_the_bytes(length: isize, buffer: Seq<u8>, dry_run: bool)
    ensures
        ({
            let marked = length == 1 && buffer.len() > 0 && buffer[0] == 49u8;
            let step = mark_step(reads_as_ignored(length, buffer), dry_run);
            &&& step is AlreadyMarked <==> marked
            &&& step is WouldMark <==> !marked && dry_run
            &&& step is Write <==> !marked && !dry_run
        }),
        ignore_value() == seq![49u8],
{
    if buffer.len() > 0 {
        assert(ignore_value()[0] == 49u8);
        if buffer[0] == 49u8 {
            assert(ignore_value() =~= buffer.subrange(0, 1));
        } else {
            assert(buffer.subrange(0, 1)[0] != ignore_value()[0]);
        }
    }
}

} // verus!

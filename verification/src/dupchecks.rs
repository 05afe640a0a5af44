//! The decision logic of the byte-exact equality verifier and of the
//! link-eligibility policy.
//!
//! Both work on plain metadata values and buffered chunks that the
//! surrounding I/O layer hands in, so every decision here is verified:
//! when metadata alone settles the question, when content must be read,
//! and when two verified-identical files may be merged.

use vstd::prelude::*;
use crate::cli::PromptUserMode;

verus! {

/// The kind of filesystem object a path names, as symlink-preserving
/// metadata reports it.
#[derive(Clone, Copy, PartialEq, Eq, Structural, Debug)]
pub enum FileKind {
    Regular,
    Directory,
    Symlink,
    Other,
}

/// The metadata of one path that the verifier and the policy read: what
/// the path names, how large it is, and which inode and device hold it.
#[derive(Clone, Copy, PartialEq, Eq, Structural, Debug)]
pub struct FileMeta {
    /// What kind of object the path names.
    pub kind: FileKind,
    /// The object's size in bytes.
    pub size: u64,
    /// The inode number.
    pub ino: u64,
    /// The device (filesystem) identifier.
    pub dev: u64,
}

/// What two paths' metadata alone settles about their content equality.
#[derive(Clone, Copy, PartialEq, Eq, Structural, Debug)]
pub enum MetaVerdict {
    /// Different types or sizes: the files cannot be identical, and no
    /// content needs to be read.
    Different,
    /// The same inode: the files are trivially identical.
    SameInode,
    /// Metadata settles nothing: the contents must be compared.
    NeedContent,
}

/// Decides from metadata alone whether two paths can be, must be, or
/// might be the same file. Sizes and types that differ rule equality out
/// before any content is read; a shared inode rules it in.
pub fn compare_metadata(left: &FileMeta, right: &FileMeta) -> (r: MetaVerdict)
    ensures
        r == MetaVerdict::Different <==> (left.kind != right.kind || left.size != right.size),
        r == MetaVerdict::SameInode <==> (left.kind == right.kind && left.size == right.size
            && left.ino == right.ino),
        r == MetaVerdict::NeedContent <==> (left.kind == right.kind && left.size == right.size
            && left.ino != right.ino),
{
    if left.kind != right.kind || left.size != right.size {
        MetaVerdict::Different
    } else if left.ino == right.ino {
        MetaVerdict::SameInode
    } else {
        MetaVerdict::NeedContent
    }
}

/// What one lock-step pair of read chunks settles about two files whose
/// sizes already matched.
#[derive(Clone, Copy, PartialEq, Eq, Structural, Debug)]
pub enum ChunkVerdict {
    /// The chunks differ: the files are not identical.
    Mismatch,
    /// The chunks match and the buffers were not filled: both files are
    /// exhausted and identical.
    Identical,
    /// The chunks match and the buffers were filled: read on.
    Continue,
}

/// Compares one lock-step pair of chunks: the first `left_count` bytes
/// of `left` against the first `right_count` bytes of `right`, read into
/// two buffers of the same size.
pub fn compare_chunks(left: &Vec<u8>, left_count: usize, right: &Vec<u8>, right_count: usize) -> (r:
    ChunkVerdict)
    requires
        left_count <= left.len(),
        right_count <= right.len(),
        left.len() == right.len(),
    ensures
        r == ChunkVerdict::Mismatch <==> left@.take(left_count as int) != right@.take(
            right_count as int,
        ),
        r == ChunkVerdict::Identical <==> (left@.take(left_count as int) == right@.take(
            right_count as int,
        ) && left_count < left.len()),
        r == ChunkVerdict::Continue <==> (left@.take(left_count as int) == right@.take(
            right_count as int,
        ) && left_count == left.len()),
{
    if left_count != right_count {
        proof {
            assert(left@.take(left_count as int).len() != right@.take(right_count as int).len());
        }
        return ChunkVerdict::Mismatch;
    }
    let mut i: usize = 0;
    while i < left_count
        invariant
            i <= left_count,
            left_count == right_count,
            left_count <= left.len(),
            right_count <= right.len(),
            forall|t: int| 0 <= t < i ==> left@[t] == right@[t],
        decreases left_count - i,
    {
        if left[i] != right[i] {
            proof {
                assert(left@.take(left_count as int)[i as int] != right@.take(
                    right_count as int,
                )[i as int]);
            }
            return ChunkVerdict::Mismatch;
        }
        i += 1;
    }
    proof {
        assert(left@.take(left_count as int) =~= right@.take(right_count as int));
    }
    if left_count < left.len() {
        ChunkVerdict::Identical
    } else {
        ChunkVerdict::Continue
    }
}

/// The reason two byte-for-byte identical files should not be linked.
#[derive(Debug, Clone, PartialEq, Eq, Structural, Hash)]
pub enum ShouldNotRelinkReason {
    /// The files live on different filesystems, named by the two device
    /// identifiers.
    DifferentFilesystems(u64, u64),
    /// The files are already hardlinked together.
    AlreadyLinked,
    /// The user told the application not to hardlink the files.
    UserDeclined,
}

impl ShouldNotRelinkReason {
    /// Returns an end-user-displayable message for the reason.
    pub fn msg(&self) -> (r: &'static str)
        ensures
            self is AlreadyLinked ==> r@ == "The files are already hard-linked to each other."@,
            self is DifferentFilesystems ==> r@ == "The files are on different filesystems."@,
            self is UserDeclined ==> r@ == "The user said no."@,
    {
        match self {
            ShouldNotRelinkReason::AlreadyLinked => {
                "The files are already hard-linked to each other."
            },
            ShouldNotRelinkReason::DifferentFilesystems(_, _) => {
                "The files are on different filesystems."
            },
            ShouldNotRelinkReason::UserDeclined => "The user said no.",
        }
    }
}

/// The outcome of the link-eligibility check.
#[derive(Debug, Clone, PartialEq, Eq, Structural)]
pub enum LinkDecision {
    /// The pair may be merged.
    Eligible,
    /// The pair must not be merged, for the named reason.
    NotEligible(ShouldNotRelinkReason),
    /// The configured mode defers to the user: the caller must ask and
    /// then settle the decision with the answer.
    NeedsPrompt,
}

/// Decides whether two verified-identical files may be merged by
/// hardlink. A shared inode refuses the merge whatever the mode; so do
/// different filesystems, which hardlinks cannot cross; otherwise the
/// configured mode decides, deferring to the user when it is
/// interactive.
pub fn check_link_policy(left: &FileMeta, right: &FileMeta, prompt_mode: PromptUserMode) -> (r:
    LinkDecision)
    ensures
        left.ino == right.ino <==> r == LinkDecision::NotEligible(
            ShouldNotRelinkReason::AlreadyLinked,
        ),
        (left.ino != right.ino && left.dev != right.dev) <==> r == LinkDecision::NotEligible(
            ShouldNotRelinkReason::DifferentFilesystems(left.dev, right.dev),
        ),
        (left.ino != right.ino && left.dev == right.dev) ==> match prompt_mode {
            PromptUserMode::DefaultYes => r == LinkDecision::Eligible,
            PromptUserMode::DefaultNo => r == LinkDecision::NotEligible(
                ShouldNotRelinkReason::UserDeclined,
            ),
            PromptUserMode::Prompt => r == LinkDecision::NeedsPrompt,
        },
{
    if left.ino == right.ino {
        return LinkDecision::NotEligible(ShouldNotRelinkReason::AlreadyLinked);
    }
    if left.dev != right.dev {
        return LinkDecision::NotEligible(
            ShouldNotRelinkReason::DifferentFilesystems(left.dev, right.dev),
        );
    }
    match prompt_mode.as_default() {
        Some(true) => LinkDecision::Eligible,
        Some(false) => LinkDecision::NotEligible(ShouldNotRelinkReason::UserDeclined),
        None => LinkDecision::NeedsPrompt,
    }
}

/// Settles a deferred eligibility decision with the user's answer: yes
/// makes the pair eligible, anything else declines it.
pub fn decide_after_prompt(user_said_yes: bool) -> (r: Result<(), ShouldNotRelinkReason>)
    ensures
        r is Ok <==> user_said_yes,
        !user_said_yes ==> r == Result::<(), ShouldNotRelinkReason>::Err(
            ShouldNotRelinkReason::UserDeclined,
        ),
{
    if user_said_yes {
        Ok(())
    } else {
        Err(ShouldNotRelinkReason::UserDeclined)
    }
}

} // verus!

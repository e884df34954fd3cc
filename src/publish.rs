//! Atomic publication of a file image: the temporary file name, the order
//! of steps, and what a reader of the target can observe along the way.

use vstd::prelude::*;
use vstd::string::StringExecFns;

verus! {

/// Whether `c` is a lowercase hexadecimal digit.
pub open spec fn is_lower_hex(c: char) -> bool {
    ('0' <= c && c <= '9') || ('a' <= c && c <= 'f')
}

/// The hyphenated form of a UUID: 36 characters, lowercase hexadecimal
/// digits with a `-` at positions 8, 13, 18 and 23.
pub open spec fn is_hyphenated_uuid(s: Seq<char>) -> bool {
    &&& s.len() == 36
    &&& forall|i: int|
        0 <= i < 36 ==> if i == 8 || i == 13 || i == 18 || i == 23 {
            #[trigger] s[i] == '-'
        } else {
            is_lower_hex(s[i])
        }
}

/// Relies on `uuid::Uuid::new_v4` and its `Display`, which writes the
/// hyphenated form with lowercase digits.
#[verifier::external_body]
fn random_uuid_text() -> (r: String)
    ensures
        is_hyphenated_uuid(r@),
{
    uuid::Uuid::new_v4().to_string()
}

/// The name of a temporary file that carries `suffix`.
pub open spec fn temp_name_of(suffix: Seq<char>) -> Seq<char> {
    ".tmp."@ + suffix
}

/// The temporary file name for a given unique suffix.
pub fn temp_file_name(suffix: &str) -> (r: String)
    ensures
        r@ == temp_name_of(suffix@),
{
    let mut name = String::from_str(".tmp.");
    name.append(suffix);
    name
}

/// A fresh temporary file name, to be placed in the target's own directory:
/// `.tmp.` followed by a random 128-bit identifier in hyphenated form. It
/// holds no path separator, so it names a file beside the target.
pub fn generate_temp_name() -> (r: String)
    ensures
        exists|suffix: Seq<char>| is_hyphenated_uuid(suffix) && r@ == temp_name_of(suffix),
{
    let suffix = random_uuid_text();
    temp_file_name(suffix.as_str())
}

/// What the target path's parent is.
#[derive(Debug, Clone, Copy, PartialEq, Eq, Structural)]
pub enum Parent {
    /// The path has no parent (a root, or the empty path): it cannot be a
    /// publish target.
    Absent,
    /// The parent is the current directory, named by the empty path: it
    /// exists already, and is synced as `.`.
    Implicit,
    /// The parent is a named directory.
    Named,
}

/// One step of publishing a file image.
#[derive(Debug, Clone, Copy, PartialEq, Eq, Structural)]
pub enum Step {
    /// Create the parent directory, and its ancestors, if absent.
    CreateParentDir,
    /// Create the temporary file beside the target.
    CreateTemp,
    /// Write the whole buffer to the temporary file.
    WriteTemp,
    /// Force the temporary file's content to stable storage.
    SyncTemp,
    /// Rename the temporary file onto the target: the one visible change.
    Rename,
    /// Force the parent directory's metadata to stable storage.
    SyncParentDir,
}

/// Why a publish failed.
#[derive(Debug, Clone, Copy, PartialEq, Eq, Structural)]
pub enum PublishError {
    /// The target path has no parent directory.
    InvalidTarget,
    /// The file-system call of this step failed.
    Io(Step),
}

/// What the caller does next.
#[derive(Debug, Clone, Copy, PartialEq, Eq, Structural)]
pub enum Action {
    /// Carry out this step and report whether it succeeded.
    Perform(Step),
    /// The new content is published; the publish is over.
    Done,
    /// The publish stopped with this error.
    Fail(PublishError),
}

/// The steps of a successful publish, in the order they are carried out.
pub open spec fn plan(parent: Parent) -> Seq<Step> {
    match parent {
        Parent::Absent => seq![],
        Parent::Implicit => seq![
            Step::CreateTemp,
            Step::WriteTemp,
            Step::SyncTemp,
            Step::Rename,
            Step::SyncParentDir,
        ],
        Parent::Named => seq![
            Step::CreateParentDir,
            Step::CreateTemp,
            Step::WriteTemp,
            Step::SyncTemp,
            Step::Rename,
            Step::SyncParentDir,
        ],
    }
}

/// The action that follows once the first `n` steps of the plan succeeded.
pub open spec fn action_after(parent: Parent, n: int) -> Action {
    if parent == Parent::Absent {
        Action::Fail(PublishError::InvalidTarget)
    } else if n < plan(parent).len() {
        Action::Perform(plan(parent)[n])
    } else {
        Action::Done
    }
}

/// The first action of a publish to a target with this parent.
pub fn first_action(parent: Parent) -> (r: Action)
    ensures
        r == action_after(parent, 0),
{
    match parent {
        Parent::Absent => Action::Fail(PublishError::InvalidTarget),
        Parent::Implicit => Action::Perform(Step::CreateTemp),
        Parent::Named => Action::Perform(Step::CreateParentDir),
    }
}

/// The action that follows `step`, given whether it succeeded. A failed step
/// ends the publish with an error that names it; nothing is retried.
pub fn next_action(parent: Parent, step: Step, succeeded: bool) -> (r: Action)
    requires
        plan(parent).contains(step),
    ensures
        !succeeded ==> r == Action::Fail(PublishError::Io(step)),
        succeeded ==> forall|n: int|
            0 <= n < plan(parent).len() && plan(parent)[n] == step ==> r == action_after(
                parent,
                n + 1,
            ),
{
    if !succeeded {
        return Action::Fail(PublishError::Io(step));
    }
    match step {
        Step::CreateParentDir => Action::Perform(Step::CreateTemp),
        Step::CreateTemp => Action::Perform(Step::WriteTemp),
        Step::WriteTemp => Action::Perform(Step::SyncTemp),
        Step::SyncTemp => Action::Perform(Step::Rename),
        Step::Rename => Action::Perform(Step::SyncParentDir),
        Step::SyncParentDir => Action::Done,
    }
}

/// What a publish has left on disk: the target's content, the temporary
/// file's content if it exists, and whether that content is durable.
pub type Disk = (Seq<u8>, Option<Seq<u8>>, bool);

/// The effect on the disk of one step that succeeded, publishing `data`.
pub open spec fn effect(disk: Disk, step: Step, data: Seq<u8>) -> Disk {
    match step {
        Step::CreateTemp => (disk.0, Some(Seq::empty()), false),
        Step::WriteTemp => (disk.0, Some(data), false),
        Step::SyncTemp => (disk.0, disk.1, true),
        Step::Rename => match disk.1 {
            Some(temp) => (temp, None, disk.2),
            None => disk,
        },
        _ => disk,
    }
}

/// The disk after the given steps succeeded, in order.
pub open spec fn after_steps(disk: Disk, steps: Seq<Step>, data: Seq<u8>) -> Disk
    decreases steps.len(),
{
    if steps.len() == 0 {
        disk
    } else {
        effect(after_steps(disk, steps.drop_last(), data), steps.last(), data)
    }
}

/// Where the rename stands in the plan.
pub open spec fn rename_index(parent: Parent) -> int {
    if parent == Parent::Named {
        4
    } else {
        3
    }
}

proof fn lemma_after_one_more(disk: Disk, steps: Seq<Step>, n: int, data: Seq<u8>)
    requires
        0 <= n < steps.len(),
    ensures
        after_steps(disk, steps.take(n + 1), data) == effect(
            after_steps(disk, steps.take(n), data),
            steps[n],
            data,
        ),
{
    assert(steps.take(n + 1).drop_last() =~= steps.take(n));
}

/// Atomic publication: wherever a publish is interrupted, by a crash or by a
/// failed step, the target holds either its old content, up to and
/// including the moment before the rename, or the complete new content,
/// from the rename on; never anything else. When the rename is issued the
/// temporary file already holds all of the new content, durably.
pub proof fn lemma_publish_is_atomic(parent: Parent, old_content: Seq<u8>, data: Seq<u8>, n: int)
    requires
        parent != Parent::Absent,
        0 <= n <= plan(parent).len(),
    ensures
        plan(parent)[rename_index(parent)] == Step::Rename,
        after_steps((old_content, None, false), plan(parent).take(n), data).0 == if n <= rename_index(
            parent,
        ) {
            old_content
        } else {
            data
        },
        after_steps((old_content, None, false), plan(parent).take(rename_index(parent)), data) == (
        old_content,
        Some(data),
        true,
        ),
{
    let p = plan(parent);
    let init: Disk = (old_content, None, false);
    assert(p.take(0) =~= Seq::<Step>::empty());
    lemma_after_one_more(init, p, 0, data);
    lemma_after_one_more(init, p, 1, data);
    lemma_after_one_more(init, p, 2, data);
    lemma_after_one_more(init, p, 3, data);
    lemma_after_one_more(init, p, 4, data);
    if parent == Parent::Named {
        lemma_after_one_more(init, p, 5, data);
    }
}

} // verus!

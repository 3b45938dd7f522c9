//! Submissions and snapshots: what one capture of the remote tree records.

use crate::listing::{Entry, EntryKind, EntryView};
use crate::package::{is_package_file, package_name, package_version, split_package_file};
use crate::time::{rounded_to_second, Timestamp};
use vstd::prelude::*;
use vstd::string::*;

verus! {

/// One package archive found during a capture.
#[derive(Clone, Debug, PartialEq, Eq)]
pub struct Submission {
    /// When the listing of the containing directory was asked for.
    pub request_time: Timestamp,
    /// The containing directory, relative to the root of the capture.
    pub folder: String,
    /// When the file was last modified.
    pub file_time: Timestamp,
    /// The size of the file in bytes.
    pub file_bytes: usize,
    pub pkg_name: String,
    pub pkg_version: String,
}

/// The mathematical value of a [`Submission`]. Times are counts of
/// nanoseconds since the epoch.
pub struct SubmissionView {
    pub request_time: int,
    pub folder: Seq<char>,
    pub file_time: int,
    pub file_bytes: nat,
    pub pkg_name: Seq<char>,
    pub pkg_version: Seq<char>,
}

impl View for Submission {
    type V = SubmissionView;

    open spec fn view(&self) -> SubmissionView {
        SubmissionView {
            request_time: self.request_time@,
            folder: self.folder@,
            file_time: self.file_time@,
            file_bytes: self.file_bytes as nat,
            pkg_name: self.pkg_name@,
            pkg_version: self.pkg_version@,
        }
    }
}

/// The values of a sequence of submissions, in order.
pub open spec fn submission_views(submissions: Seq<Submission>) -> Seq<SubmissionView> {
    submissions.map_values(|submission: Submission| submission@)
}

/// The path `folder` as seen from `root`: without the first characters that
/// hold the root and the separator after it. A path no longer than the root
/// leaves nothing.
pub open spec fn relative_path(root: Seq<char>, folder: Seq<char>) -> Seq<char> {
    if folder.len() <= root.len() {
        Seq::empty()
    } else {
        folder.skip(root.len() as int + 1)
    }
}

/// Strips the root of a capture, and the separator that follows it, from the
/// path of a directory.
pub fn relative_folder(root: &str, folder: &str) -> (relative: String)
    ensures
        relative@ == relative_path(root@, folder@),
{
    let root_len = root.unicode_len();
    let folder_len = folder.unicode_len();
    if folder_len <= root_len {
        String::new()
    } else {
        String::from_str(folder.substring_char(root_len + 1, folder_len))
    }
}

/// The submission that a listing entry gives: one for a regular file whose
/// name is that of a package archive, none for anything else.
pub open spec fn created_entry(
    entry: EntryView,
    root: Seq<char>,
    folder: Seq<char>,
    request_time: int,
    modified_time: int,
) -> Option<SubmissionView> {
    if entry.kind == EntryKind::File && is_package_file(entry.name) {
        Some(
            SubmissionView {
                request_time,
                folder: relative_path(root, folder),
                file_time: modified_time,
                file_bytes: entry.size,
                pkg_name: package_name(entry.name),
                pkg_version: package_version(entry.name),
            },
        )
    } else {
        None
    }
}

/// An entry whose name is not that of a package archive gives no submission.
pub proof fn lemma_other_names_give_nothing(
    entry: EntryView,
    root: Seq<char>,
    folder: Seq<char>,
    request_time: int,
    modified_time: int,
)
    requires
        !is_package_file(entry.name),
    ensures
        created_entry(entry, root, folder, request_time, modified_time) is None,
{
}

/// An entry that is not a regular file, a symbolic link or a directory,
/// gives no submission, whatever its name.
pub proof fn lemma_only_files_give_submissions(
    entry: EntryView,
    root: Seq<char>,
    folder: Seq<char>,
    request_time: int,
    modified_time: int,
)
    requires
        entry.kind != EntryKind::File,
    ensures
        created_entry(entry, root, folder, request_time, modified_time) is None,
{
}

/// The folder of a submission does not hold the root of the capture: of a
/// directory below the root it keeps what follows the root and the separator
/// after it.
pub proof fn lemma_relative_path_drops_root(root: Seq<char>, below: Seq<char>)
    ensures
        relative_path(root, root + seq!['/'] + below) == below,
        relative_path(root, root) == Seq::<char>::empty(),
{
    assert((root + seq!['/'] + below).skip(root.len() as int + 1) =~= below);
}

/// Turns one listing entry into a submission, or into nothing.
///
/// `folder` is the path of the directory that holds the entry and `root` the
/// path at which the capture began; `request_time` is when the listing of the
/// directory was asked for and `modified_time` the entry's modification time
/// in UTC.
pub fn create_entry(
    entry: &Entry,
    root: &str,
    folder: &str,
    request_time: &Timestamp,
    modified_time: &Timestamp,
) -> (created: Option<Submission>)
    ensures
        match created {
            Some(submission) => Some(submission@),
            None => None,
        } == created_entry(entry@, root@, folder@, request_time@, modified_time@),
{
    match entry.kind {
        EntryKind::File => {},
        _ => {
            return None;
        },
    }
    match split_package_file(entry.name.as_str()) {
        Some(parts) => Some(
            Submission {
                request_time: *request_time,
                folder: relative_folder(root, folder),
                file_time: *modified_time,
                file_bytes: entry.size,
                pkg_name: parts.0,
                pkg_version: parts.1,
            },
        ),
        None => None,
    }
}

/// The result of one capture of the remote tree.
#[derive(Clone, Debug, PartialEq, Eq)]
pub struct Snapshot {
    /// When the capture began, at second precision.
    pub capture_time: Timestamp,
    /// The milliseconds that the capture took.
    pub capture_duration: i64,
    /// The submissions found, in the order in which the walk met them.
    pub submissions: Vec<Submission>,
}

/// The mathematical value of a [`Snapshot`].
pub struct SnapshotView {
    pub capture_time: int,
    pub capture_duration: int,
    pub submissions: Seq<SubmissionView>,
}

impl View for Snapshot {
    type V = SnapshotView;

    open spec fn view(&self) -> SnapshotView {
        SnapshotView {
            capture_time: self.capture_time@,
            capture_duration: self.capture_duration as int,
            submissions: submission_views(self.submissions@),
        }
    }
}

impl Snapshot {
    /// The empty snapshot that stands in until a first capture has succeeded.
    pub fn new(now: Timestamp) -> (placeholder: Snapshot)
        ensures
            placeholder@ == (SnapshotView {
                capture_time: rounded_to_second(now@),
                capture_duration: 0,
                submissions: Seq::empty(),
            }),
    {
        let placeholder = Snapshot {
            capture_time: now.round_to_second(),
            capture_duration: 0,
            submissions: Vec::new(),
        };
        assert(submission_views(placeholder.submissions@) =~= Seq::empty());
        placeholder
    }
}

} // verus!

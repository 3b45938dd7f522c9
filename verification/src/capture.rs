//! The depth-bounded walk over the remote tree, as a state machine: it asks
//! for one remote action at a time and takes what came back as an event.
//!
//! A capture starts by asking for the listing of its root. Each listing is
//! read entry by entry: a subdirectory is put on the work list unless the
//! directory listed lies at the depth bound, a symbolic link is passed over,
//! and for a regular file the capture asks for its modification time before
//! it goes on. When a listing is used up the capture asks for the listing of
//! the directory that was put on the work list last, and it is finished when
//! the work list is empty.

use crate::config::{cran_root, MAX_DEPTH};
use crate::listing::{entry_views, Entry, EntryKind, EntryView};
use crate::package::{is_package_file, package_name, package_version};
use crate::snapshot::{
    create_entry, created_entry, relative_path, submission_views, Snapshot, SnapshotView,
    Submission, SubmissionView,
};
use crate::time::{
    correct_modify_time, corrected_time, elapsed_millis, rounded_to_second, Timestamp,
    NANOS_PER_SEC,
};
use vstd::prelude::*;
use vstd::string::*;

verus! {

/// Why a capture cannot go on.
#[derive(Clone, Copy, Debug, PartialEq, Eq, Structural)]
pub enum CaptureError {
    /// The line at `index` of a directory listing could not be read.
    MalformedLine { index: usize },
    /// An event arrived that does not answer the action asked for.
    OutOfTurn,
}

/// The path of the entry `name` in the directory `path`.
pub open spec fn join(path: Seq<char>, name: Seq<char>) -> Seq<char> {
    path + seq!['/'] + name
}

/// Whether `path` is reached from `root` by going down `depth` times, each
/// time into an entry of the directory reached before.
pub open spec fn descends(root: Seq<char>, path: Seq<char>, depth: nat) -> bool
    decreases depth,
{
    if depth == 0 {
        path == root
    } else {
        exists|parent: Seq<char>, name: Seq<char>|
            descends(root, parent, (depth - 1) as nat) && path == #[trigger] join(parent, name)
    }
}

/// A directory that waits to be listed.
#[derive(Clone, Debug, PartialEq, Eq)]
pub struct Pending {
    /// How many levels below the root the directory lies.
    pub depth: u32,
    pub path: String,
}

/// The mathematical value of a [`Pending`] directory.
pub struct PendingView {
    pub depth: nat,
    pub path: Seq<char>,
}

impl View for Pending {
    type V = PendingView;

    open spec fn view(&self) -> PendingView {
        PendingView { depth: self.depth as nat, path: self.path@ }
    }
}

/// The values of a sequence of pending directories, in order.
pub open spec fn pending_views(pending: Seq<Pending>) -> Seq<PendingView> {
    pending.map_values(|directory: Pending| directory@)
}

/// What a capture asks its caller to do next.
#[derive(Clone, Debug, PartialEq, Eq)]
pub enum Action {
    /// List the directory at `path` and answer with [`Event::Listing`].
    List { path: String },
    /// Ask for the modification time of the file at `path` and answer with
    /// [`Event::ModifyTime`].
    ModifyTime { path: String },
    /// Nothing is left to do: the capture can be finished.
    Finish,
}

/// The mathematical value of an [`Action`].
pub enum ActionView {
    List { path: Seq<char> },
    ModifyTime { path: Seq<char> },
    Finish,
}

impl View for Action {
    type V = ActionView;

    open spec fn view(&self) -> ActionView {
        match self {
            Action::List { path } => ActionView::List { path: path@ },
            Action::ModifyTime { path } => ActionView::ModifyTime { path: path@ },
            Action::Finish => ActionView::Finish,
        }
    }
}

/// What came back from the remote endpoint.
#[derive(Clone, Debug, PartialEq, Eq)]
pub enum Event {
    /// The entries of the directory asked for, in listing order. `asked` is
    /// the time at which the listing was asked for.
    Listing { entries: Vec<Entry>, asked: Timestamp },
    /// The modification time of the file asked for, as the remote wall clock
    /// showed it, or `None` where the query failed. `now` is the current time.
    ModifyTime { reported: Option<Timestamp>, now: Timestamp },
}

/// The mathematical value of an [`Event`].
pub enum EventView {
    Listing { entries: Seq<EntryView>, asked: int },
    ModifyTime { reported: Option<int>, now: int },
}

impl View for Event {
    type V = EventView;

    open spec fn view(&self) -> EventView {
        match self {
            Event::Listing { entries, asked } => EventView::Listing {
                entries: entry_views(entries@),
                asked: asked@,
            },
            Event::ModifyTime { reported, now } => EventView::ModifyTime {
                reported: match reported {
                    Some(reading) => Some(reading@),
                    None => None,
                },
                now: now@,
            },
        }
    }
}

/// Where a capture stands.
pub enum PhaseView {
    /// The listing of the directory at `path` has been asked for.
    AwaitListing { depth: nat, path: Seq<char> },
    /// The directory at `path` is being read: the modification time of the
    /// regular file at index `next` of its entries has been asked for.
    AwaitTime { depth: nat, path: Seq<char>, request_time: int, entries: Seq<EntryView>, next: int },
    /// Every directory within the depth bound has been read.
    Finished,
}

/// The mathematical value of a [`Capture`].
pub struct CaptureState {
    /// The path at which the capture began.
    pub root: Seq<char>,
    /// The depth below which no directory is listed.
    pub max_depth: nat,
    /// When the capture began.
    pub started: int,
    /// The work list. The directory put on it last is listed first.
    pub pending: Seq<PendingView>,
    pub phase: PhaseView,
    /// The submissions found so far, in the order in which they were met.
    pub submissions: Seq<SubmissionView>,
}

impl CaptureState {
    /// Whether a directory of this capture lies within the depth bound, at
    /// the depth that is recorded for it.
    pub open spec fn admits(self, depth: nat, path: Seq<char>) -> bool {
        depth <= self.max_depth && descends(self.root, path, depth)
    }

    /// Whether `submission` is what a listing entry in a directory of this
    /// capture gives, for a listing asked for at a whole second.
    pub open spec fn records(self, submission: SubmissionView) -> bool {
        exists|depth: nat, path: Seq<char>, entry: EntryView|
            #![trigger self.admits(depth, path), created_entry(entry, self.root, path, submission.request_time, submission.file_time)]
            {
                &&& self.admits(depth, path)
                &&& submission.request_time % (NANOS_PER_SEC as int) == 0
                &&& created_entry(
                    entry,
                    self.root,
                    path,
                    submission.request_time,
                    submission.file_time,
                ) == Some(submission)
            }
    }

    /// What holds of every capture: no directory on the work list or in
    /// hand lies deeper than the bound, a modification time is awaited for a
    /// regular file only, and every submission records a package archive
    /// found in a directory within the bound.
    pub open spec fn wf(self) -> bool {
        &&& forall|i: int|
            0 <= i < self.pending.len() ==> self.admits(
                (#[trigger] self.pending[i]).depth,
                self.pending[i].path,
            )
        &&& forall|i: int|
            0 <= i < self.submissions.len() ==> self.records(#[trigger] self.submissions[i])
        &&& match self.phase {
            PhaseView::AwaitListing { depth, path } => self.admits(depth, path),
            PhaseView::AwaitTime { depth, path, request_time, entries, next } => {
                &&& self.admits(depth, path)
                &&& request_time % (NANOS_PER_SEC as int) == 0
                &&& 0 <= next < entries.len()
                &&& entries[next].kind == EntryKind::File
            },
            PhaseView::Finished => self.pending.len() == 0,
        }
    }

    /// The action that the capture waits for.
    pub open spec fn action(self) -> ActionView {
        match self.phase {
            PhaseView::AwaitListing { path, .. } => ActionView::List { path },
            PhaseView::AwaitTime { path, entries, next, .. } => ActionView::ModifyTime {
                path: join(path, entries[next].name),
            },
            PhaseView::Finished => ActionView::Finish,
        }
    }
}

/// A capture that has just begun: the listing of the root is asked for.
pub open spec fn begun(root: Seq<char>, max_depth: nat, started: int) -> CaptureState {
    CaptureState {
        root,
        max_depth,
        started,
        pending: Seq::empty(),
        phase: PhaseView::AwaitListing { depth: 0, path: root },
        submissions: Seq::empty(),
    }
}

/// The subdirectories among `entries`, in listing order, as directories one
/// level below the directory at `path`, which lies at `depth`.
pub open spec fn children(entries: Seq<EntryView>, depth: nat, path: Seq<char>) -> Seq<
    PendingView,
>
    decreases entries.len(),
{
    if entries.len() == 0 {
        Seq::empty()
    } else {
        let before = children(entries.drop_last(), depth, path);
        if entries.last().kind == EntryKind::Directory {
            before.push(PendingView { depth: depth + 1, path: join(path, entries.last().name) })
        } else {
            before
        }
    }
}

/// What reading `entries` adds to the work list: the subdirectories, unless
/// the directory read lies at the depth bound.
pub open spec fn descent(entries: Seq<EntryView>, depth: nat, path: Seq<char>, max_depth: nat) -> Seq<
    PendingView,
> {
    if depth < max_depth {
        children(entries, depth, path)
    } else {
        Seq::empty()
    }
}

/// The index of the first regular file among `entries` at or after `from`,
/// or the number of entries where there is none.
pub open spec fn first_file(entries: Seq<EntryView>, from: int) -> int
    decreases entries.len() - from,
{
    if from < 0 || from >= entries.len() {
        entries.len() as int
    } else if entries[from].kind == EntryKind::File {
        from
    } else {
        first_file(entries, from + 1)
    }
}

/// The capture after it has read on in the entries of the directory at
/// `path`, from index `from` up to the next regular file. The subdirectories
/// passed go on the work list. At a regular file the capture waits for its
/// modification time. At the end of the entries it takes the directory put
/// on the work list last, or is finished where there is none.
pub open spec fn read_on(
    state: CaptureState,
    depth: nat,
    path: Seq<char>,
    request_time: int,
    entries: Seq<EntryView>,
    from: int,
) -> CaptureState {
    let stop = first_file(entries, from);
    let pending = state.pending + descent(
        entries.subrange(from, stop),
        depth,
        path,
        state.max_depth,
    );
    if stop < entries.len() {
        CaptureState {
            pending,
            phase: PhaseView::AwaitTime { depth, path, request_time, entries, next: stop },
            ..state
        }
    } else if pending.len() == 0 {
        CaptureState { pending, phase: PhaseView::Finished, ..state }
    } else {
        CaptureState {
            pending: pending.drop_last(),
            phase: PhaseView::AwaitListing {
                depth: pending.last().depth,
                path: pending.last().path,
            },
            ..state
        }
    }
}

/// The capture after `event`, or the error where the event does not answer
/// the action that the capture waits for.
pub open spec fn stepped(state: CaptureState, event: EventView) -> Result<
    CaptureState,
    CaptureError,
> {
    match (state.phase, event) {
        (PhaseView::AwaitListing { depth, path }, EventView::Listing { entries, asked }) => Ok(
            read_on(state, depth, path, rounded_to_second(asked), entries, 0),
        ),
        (
            PhaseView::AwaitTime { depth, path, request_time, entries, next },
            EventView::ModifyTime { reported, now },
        ) => {
            let found = created_entry(
                entries[next],
                state.root,
                path,
                request_time,
                corrected_time(reported, now),
            );
            let submissions = match found {
                Some(submission) => state.submissions.push(submission),
                None => state.submissions,
            };
            Ok(
                read_on(
                    CaptureState { submissions, ..state },
                    depth,
                    path,
                    request_time,
                    entries,
                    next + 1,
                ),
            )
        },
        _ => Err(CaptureError::OutOfTurn),
    }
}

/// The capture after a sequence of events, each taken in its turn, or the
/// error of the first event that came out of turn.
pub open spec fn after_events(state: CaptureState, events: Seq<EventView>) -> Result<
    CaptureState,
    CaptureError,
>
    decreases events.len(),
{
    if events.len() == 0 {
        Ok(state)
    } else {
        match after_events(state, events.drop_last()) {
            Ok(before) => stepped(before, events.last()),
            Err(error) => Err(error),
        }
    }
}

/// The snapshot that a finished capture gives when it ends at `end`.
pub open spec fn finished(state: CaptureState, end: int) -> SnapshotView {
    SnapshotView {
        capture_time: rounded_to_second(state.started),
        capture_duration: elapsed_millis(state.started, end),
        submissions: state.submissions,
    }
}

/// The first regular file at or after `from` stands within the entries, no
/// entry between `from` and it is a regular file, and the entry at it is one.
pub proof fn lemma_first_file_found(entries: Seq<EntryView>, from: int)
    requires
        0 <= from <= entries.len(),
    ensures
        from <= first_file(entries, from) <= entries.len(),
        first_file(entries, from) < entries.len() ==> entries[first_file(entries, from)].kind
            == EntryKind::File,
        forall|j: int|
            from <= j < first_file(entries, from) ==> (#[trigger] entries[j]).kind
                != EntryKind::File,
    decreases entries.len() - from,
{
    if from < entries.len() && entries[from].kind != EntryKind::File {
        lemma_first_file_found(entries, from + 1);
    }
}

/// Only directories are descended into: every directory that reading a
/// listing puts on the work list is named by an entry of the listing that is
/// a directory, and lies one level below the directory read.
pub proof fn lemma_children_are_directories(
    entries: Seq<EntryView>,
    depth: nat,
    path: Seq<char>,
    at: int,
)
    requires
        0 <= at < children(entries, depth, path).len(),
    ensures
        children(entries, depth, path)[at].depth == depth + 1,
        exists|j: int|
            0 <= j < entries.len() && (#[trigger] entries[j]).kind == EntryKind::Directory
                && children(entries, depth, path)[at].path == join(path, entries[j].name),
    decreases entries.len(),
{
    let before = children(entries.drop_last(), depth, path);
    if at < before.len() {
        lemma_children_are_directories(entries.drop_last(), depth, path, at);
        let j = choose|j: int|
            0 <= j < entries.drop_last().len() && (#[trigger] entries.drop_last()[j]).kind
                == EntryKind::Directory && before[at].path == join(
                path,
                entries.drop_last()[j].name,
            );
        assert(entries[j] == entries.drop_last()[j]);
    } else {
        assert(entries[entries.len() - 1].kind == EntryKind::Directory);
    }
}

/// A listing without directories puts nothing on the work list.
pub proof fn lemma_no_directories_no_descent(entries: Seq<EntryView>, depth: nat, path: Seq<char>)
    requires
        forall|j: int| 0 <= j < entries.len() ==> (#[trigger] entries[j]).kind != EntryKind::Directory,
    ensures
        children(entries, depth, path).len() == 0,
    decreases entries.len(),
{
    if entries.len() > 0 {
        assert forall|j: int| 0 <= j < entries.drop_last().len() implies (
        #[trigger] entries.drop_last()[j]).kind != EntryKind::Directory by {
            assert(entries.drop_last()[j] == entries[j]);
        }
        lemma_no_directories_no_descent(entries.drop_last(), depth, path);
    }
}

/// What reading a listing puts on the work list lies within the depth bound.
proof fn lemma_descent_admitted(
    state: CaptureState,
    entries: Seq<EntryView>,
    depth: nat,
    path: Seq<char>,
)
    requires
        state.admits(depth, path),
    ensures
        forall|i: int|
            0 <= i < descent(entries, depth, path, state.max_depth).len() ==> state.admits(
                (#[trigger] descent(entries, depth, path, state.max_depth)[i]).depth,
                descent(entries, depth, path, state.max_depth)[i].path,
            ),
{
    let added = descent(entries, depth, path, state.max_depth);
    assert forall|i: int| 0 <= i < added.len() implies state.admits(
        (#[trigger] added[i]).depth,
        added[i].path,
    ) by {
        lemma_children_are_directories(entries, depth, path, i);
        let j = choose|j: int|
            0 <= j < entries.len() && (#[trigger] entries[j]).kind == EntryKind::Directory
                && children(entries, depth, path)[i].path == join(path, entries[j].name);
        lemma_child_admitted(state, depth, path, entries[j].name);
    }
}

/// The depth bound holds at the start of every capture.
pub proof fn lemma_begun_within_bound(root: Seq<char>, max_depth: nat, started: int)
    ensures
        begun(root, max_depth, started).wf(),
{
}

/// The depth bound is kept by every step: from a capture of which it holds,
/// no event leads to one of which it does not.
pub proof fn lemma_step_keeps_bound(state: CaptureState, event: EventView)
    requires
        state.wf(),
    ensures
        stepped(state, event) matches Ok(next) ==> next.wf(),
{
    match (state.phase, event) {
        (PhaseView::AwaitListing { depth, path }, EventView::Listing { entries, asked }) => {
            lemma_read_on_keeps_bound(state, depth, path, rounded_to_second(asked), entries, 0);
        },
        (
            PhaseView::AwaitTime { depth, path, request_time, entries, next },
            EventView::ModifyTime { reported, now },
        ) => {
            let found = created_entry(
                entries[next],
                state.root,
                path,
                request_time,
                corrected_time(reported, now),
            );
            let submissions = match found {
                Some(submission) => state.submissions.push(submission),
                None => state.submissions,
            };
            let grown = CaptureState { submissions, ..state };
            assert forall|i: int| 0 <= i < submissions.len() implies grown.records(
                #[trigger] submissions[i],
            ) by {
                if i < state.submissions.len() {
                    lemma_records_by_root_and_bound(state, grown, state.submissions[i]);
                } else {
                    assert(grown.admits(depth, path));
                    assert(created_entry(
                        entries[next],
                        grown.root,
                        path,
                        submissions[i].request_time,
                        submissions[i].file_time,
                    ) == Some(submissions[i]));
                }
            }
            lemma_read_on_keeps_bound(
                CaptureState { submissions, ..state },
                depth,
                path,
                request_time,
                entries,
                next + 1,
            );
        },
        _ => {},
    }
}

/// Reading on in a listing keeps the depth bound.
proof fn lemma_read_on_keeps_bound(
    state: CaptureState,
    depth: nat,
    path: Seq<char>,
    request_time: int,
    entries: Seq<EntryView>,
    from: int,
)
    requires
        0 <= from <= entries.len(),
        state.admits(depth, path),
        request_time % (NANOS_PER_SEC as int) == 0,
        forall|i: int|
            0 <= i < state.pending.len() ==> state.admits(
                (#[trigger] state.pending[i]).depth,
                state.pending[i].path,
            ),
        forall|i: int|
            0 <= i < state.submissions.len() ==> state.records(#[trigger] state.submissions[i]),
    ensures
        read_on(state, depth, path, request_time, entries, from).wf(),
{
    lemma_first_file_found(entries, from);
    let stop = first_file(entries, from);
    lemma_descent_admitted(state, entries.subrange(from, stop), depth, path);
    let added = descent(entries.subrange(from, stop), depth, path, state.max_depth);
    let pending = state.pending + added;
    assert forall|i: int| 0 <= i < pending.len() implies state.admits(
        (#[trigger] pending[i]).depth,
        pending[i].path,
    ) by {
        if i >= state.pending.len() {
            assert(pending[i] == added[i - state.pending.len()]);
        }
    }
    let next = read_on(state, depth, path, request_time, entries, from);
    assert forall|i: int| 0 <= i < next.pending.len() implies next.admits(
        (#[trigger] next.pending[i]).depth,
        next.pending[i].path,
    ) by {
        assert(next.pending[i] == pending[i]);
    }
    assert forall|i: int| 0 <= i < next.submissions.len() implies next.records(
        #[trigger] next.submissions[i],
    ) by {
        lemma_records_by_root_and_bound(state, next, state.submissions[i]);
    }
}

/// Whether a submission is recorded depends on the root and the depth bound
/// of a capture alone.
proof fn lemma_records_by_root_and_bound(
    state: CaptureState,
    other: CaptureState,
    submission: SubmissionView,
)
    requires
        state.records(submission),
        state.root == other.root,
        state.max_depth == other.max_depth,
    ensures
        other.records(submission),
{
    let (depth, path, entry) = choose|depth: nat, path: Seq<char>, entry: EntryView|
        #![trigger state.admits(depth, path), created_entry(entry, state.root, path, submission.request_time, submission.file_time)]
        {
            &&& state.admits(depth, path)
            &&& submission.request_time % (NANOS_PER_SEC as int) == 0
            &&& created_entry(
                entry,
                state.root,
                path,
                submission.request_time,
                submission.file_time,
            ) == Some(submission)
        };
    assert(other.admits(depth, path));
    assert(created_entry(entry, other.root, path, submission.request_time, submission.file_time)
        == Some(submission));
}

/// The depth bound holds throughout: whatever events a capture has taken
/// since it began, it asks for the listing of a directory only where the
/// directory is reached from the root by going down no more often than the
/// bound allows, and every submission it holds is a recorded one.
pub proof fn lemma_every_capture_within_bound(
    root: Seq<char>,
    max_depth: nat,
    started: int,
    events: Seq<EventView>,
)
    ensures
        after_events(begun(root, max_depth, started), events) matches Ok(state) ==> state.wf(),
    decreases events.len(),
{
    if events.len() > 0 {
        lemma_every_capture_within_bound(root, max_depth, started, events.drop_last());
        match after_events(begun(root, max_depth, started), events.drop_last()) {
            Ok(before) => {
                lemma_step_keeps_bound(before, events.last());
            },
            Err(_) => {},
        }
    }
}

/// The depth bound itself: a capture of which it holds asks for the listing
/// of a directory only where the directory is reached from the root by going
/// down no more often than the bound allows.
pub proof fn lemma_listed_within_bound(state: CaptureState, path: Seq<char>)
    requires
        state.wf(),
        state.action() == (ActionView::List { path }),
    ensures
        exists|depth: nat| depth <= state.max_depth && #[trigger] descends(state.root, path, depth),
{
    match state.phase {
        PhaseView::AwaitListing { depth, path: listed } => {
            assert(descends(state.root, path, depth));
        },
        _ => {},
    }
}

/// What a recorded submission says: its package name and version are those
/// of a package archive's file name, its folder is the path, as seen from the
/// root, of a directory within the depth bound, and its listing was asked
/// for at a whole second.
pub proof fn lemma_recorded_submission(state: CaptureState, submission: SubmissionView)
    requires
        state.records(submission),
    ensures
        submission.request_time % (NANOS_PER_SEC as int) == 0,
        exists|name: Seq<char>|
            #![trigger is_package_file(name)]
            is_package_file(name) && submission.pkg_name == package_name(name)
                && submission.pkg_version == package_version(name),
        exists|depth: nat, path: Seq<char>|
            #![trigger state.admits(depth, path)]
            state.admits(depth, path) && submission.folder == relative_path(state.root, path),
{
    let (depth, path, entry) = choose|depth: nat, path: Seq<char>, entry: EntryView|
        #![trigger state.admits(depth, path), created_entry(entry, state.root, path, submission.request_time, submission.file_time)]
        {
            &&& state.admits(depth, path)
            &&& submission.request_time % (NANOS_PER_SEC as int) == 0
            &&& created_entry(
                entry,
                state.root,
                path,
                submission.request_time,
                submission.file_time,
            ) == Some(submission)
        };
    assert(is_package_file(entry.name));
    assert(state.admits(depth, path));
}

/// A step adds at most one submission, behind those found before, and
/// changes neither the root nor the depth bound nor the time of the start.
pub proof fn lemma_step_appends(state: CaptureState, event: EventView)
    ensures
        stepped(state, event) matches Ok(next) ==> {
            &&& next.root == state.root
            &&& next.max_depth == state.max_depth
            &&& next.started == state.started
            &&& state.submissions.len() <= next.submissions.len() <= state.submissions.len() + 1
            &&& next.submissions.subrange(0, state.submissions.len() as int)
                == state.submissions
        },
{
    match stepped(state, event) {
        Ok(next) => {
            assert(next.submissions.subrange(0, state.submissions.len() as int)
                =~= state.submissions);
        },
        Err(_) => {},
    }
}

/// The number of regular files among the entries at or after `from`.
pub open spec fn files_from(entries: Seq<EntryView>, from: int) -> nat
    decreases entries.len() - from,
{
    if from < 0 || from >= entries.len() {
        0
    } else if entries[from].kind == EntryKind::File {
        1 + files_from(entries, from + 1)
    } else {
        files_from(entries, from + 1)
    }
}

/// The number of modification times that a capture has yet to ask for in
/// the listing that it has in hand, the one that it waits for counted in.
pub open spec fn queries_left(state: CaptureState) -> nat {
    match state.phase {
        PhaseView::AwaitTime { entries, next, .. } => files_from(entries, next),
        _ => 0,
    }
}

/// From the first regular file on there is one file more than behind it.
pub proof fn lemma_files_from_first(entries: Seq<EntryView>, from: int)
    requires
        0 <= from <= entries.len(),
    ensures
        files_from(entries, from) == if first_file(entries, from) < entries.len() {
            1 + files_from(entries, first_file(entries, from) + 1)
        } else {
            0
        },
    decreases entries.len() - from,
{
    if from < entries.len() && entries[from].kind != EntryKind::File {
        lemma_files_from_first(entries, from + 1);
    }
}

/// One query for each regular file: a listing leaves as many modification
/// times to ask for as it holds regular files, and each answer leaves one
/// less.
pub proof fn lemma_one_query_for_each_file(state: CaptureState, event: EventView)
    requires
        state.wf(),
    ensures
        stepped(state, event) matches Ok(next) ==> match event {
            EventView::Listing { entries, .. } => queries_left(next) == files_from(entries, 0),
            EventView::ModifyTime { .. } => queries_left(next) + 1 == queries_left(state),
        },
{
    match (state.phase, event) {
        (PhaseView::AwaitListing { .. }, EventView::Listing { entries, .. }) => {
            lemma_files_from_first(entries, 0);
            lemma_first_file_found(entries, 0);
        },
        (PhaseView::AwaitTime { entries, next, .. }, EventView::ModifyTime { .. }) => {
            lemma_files_from_first(entries, next + 1);
            lemma_first_file_found(entries, next + 1);
        },
        _ => {},
    }
}

/// A modification time is asked for regular files only.
pub proof fn lemma_time_asked_of_files(state: CaptureState)
    requires
        state.wf(),
        state.phase is AwaitTime,
    ensures
        state.phase->entries[state.phase->next].kind == EntryKind::File,
{
}

/// The duration of a capture is never negative: it is the time from its
/// start to its end, and nothing where the clock shows an end before the
/// start.
pub proof fn lemma_duration_not_negative(state: CaptureState, end: int)
    ensures
        finished(state, end).capture_duration >= 0,
        end < state.started ==> finished(state, end).capture_duration == 0,
{
}

/// Where a capture stands, with the data that it holds in that phase.
#[derive(Debug)]
enum Phase {
    AwaitListing { depth: u32, path: String },
    AwaitTime { depth: u32, path: String, request_time: Timestamp, entries: Vec<Entry>, next: usize },
    Finished,
}

impl View for Phase {
    type V = PhaseView;

    closed spec fn view(&self) -> PhaseView {
        match self {
            Phase::AwaitListing { depth, path } => PhaseView::AwaitListing {
                depth: *depth as nat,
                path: path@,
            },
            Phase::AwaitTime { depth, path, request_time, entries, next } => PhaseView::AwaitTime {
                depth: *depth as nat,
                path: path@,
                request_time: request_time@,
                entries: entry_views(entries@),
                next: *next as int,
            },
            Phase::Finished => PhaseView::Finished,
        }
    }
}

/// A capture of the remote tree in progress.
#[derive(Debug)]
pub struct Capture {
    root: String,
    max_depth: u32,
    started: Timestamp,
    pending: Vec<Pending>,
    phase: Phase,
    submissions: Vec<Submission>,
}

impl View for Capture {
    type V = CaptureState;

    closed spec fn view(&self) -> CaptureState {
        CaptureState {
            root: self.root@,
            max_depth: self.max_depth as nat,
            started: self.started@,
            pending: pending_views(self.pending@),
            phase: self.phase@,
            submissions: submission_views(self.submissions@),
        }
    }
}

/// A directory one level below a directory of the capture is a directory of
/// the capture, as long as the parent lies above the depth bound.
proof fn lemma_child_admitted(state: CaptureState, depth: nat, path: Seq<char>, name: Seq<char>)
    requires
        state.admits(depth, path),
        depth < state.max_depth,
    ensures
        state.admits(depth + 1, join(path, name)),
{
    let child = join(path, name);
    assert(descends(state.root, path, ((depth + 1) - 1) as nat) && child == join(path, name));
}

/// The first regular file at or after `from` stands at `stop` where no entry
/// between the two is a regular file and the entry at `stop`, if there is
/// one, is.
proof fn lemma_first_file_at(entries: Seq<EntryView>, from: int, stop: int)
    requires
        0 <= from <= stop <= entries.len(),
        forall|j: int| from <= j < stop ==> (#[trigger] entries[j]).kind != EntryKind::File,
        stop < entries.len() ==> entries[stop].kind == EntryKind::File,
    ensures
        first_file(entries, from) == stop,
    decreases stop - from,
{
    if from < stop {
        lemma_first_file_at(entries, from + 1, stop);
    }
}

/// What holds of the work list and the submissions of a capture holds of
/// them in every capture with the same root and depth bound.
proof fn lemma_same_capture(state: CaptureState, other: CaptureState)
    requires
        state.wf(),
        other.root == state.root,
        other.max_depth == state.max_depth,
        other.pending == state.pending,
        other.submissions == state.submissions,
    ensures
        forall|i: int|
            0 <= i < other.pending.len() ==> other.admits(
                (#[trigger] other.pending[i]).depth,
                other.pending[i].path,
            ),
        forall|i: int|
            0 <= i < other.submissions.len() ==> other.records(#[trigger] other.submissions[i]),
{
    assert forall|i: int| 0 <= i < other.submissions.len() implies other.records(
        #[trigger] other.submissions[i],
    ) by {
        lemma_records_by_root_and_bound(state, other, state.submissions[i]);
    }
}

/// The state of a capture that holds the given parts and has no directory
/// in hand.
spec fn between_directories(
    root: Seq<char>,
    max_depth: nat,
    started: int,
    pending: Seq<PendingView>,
    submissions: Seq<SubmissionView>,
) -> CaptureState {
    CaptureState { root, max_depth, started, pending, phase: PhaseView::Finished, submissions }
}

/// The path of the entry `name` in the directory `path`.
pub fn join_path(path: &str, name: &str) -> (joined: String)
    ensures
        joined@ == join(path@, name@),
{
    proof {
        reveal_strlit("/");
    }
    let joined = String::from_str(path).concat("/").concat(name);
    assert("/"@ =~= seq!['/']);
    joined
}

impl Snapshot {
    /// Begins a capture of the incoming tree at the time `started`.
    pub fn capture(started: Timestamp) -> (capture: Capture)
        ensures
            capture@ == begun("/incoming"@, MAX_DEPTH as nat, started@),
            capture@.wf(),
    {
        Capture::begin(cran_root(), MAX_DEPTH, started)
    }
}

impl Capture {
    #[verifier::type_invariant]
    spec fn sound(self) -> bool {
        self@.wf()
    }

    /// Begins a capture of the tree below `root` that lists no directory
    /// deeper than `max_depth` levels below it. `started` is the current time.
    pub fn begin(root: &str, max_depth: u32, started: Timestamp) -> (capture: Capture)
        ensures
            capture@ == begun(root@, max_depth as nat, started@),
            capture@.wf(),
    {
        let capture = Capture {
            root: String::from_str(root),
            max_depth,
            started,
            pending: Vec::new(),
            phase: Phase::AwaitListing { depth: 0, path: String::from_str(root) },
            submissions: Vec::new(),
        };
        assert(pending_views(capture.pending@) =~= Seq::empty());
        assert(submission_views(capture.submissions@) =~= Seq::empty());
        capture
    }

    /// The action that the capture waits for.
    pub fn action(&self) -> (action: Action)
        ensures
            action@ == self@.action(),
            self@.wf(),
    {
        proof {
            use_type_invariant(self);
        }
        match &self.phase {
            Phase::AwaitListing { path, .. } => Action::List { path: path.clone() },
            Phase::AwaitTime { path, entries, next, .. } => Action::ModifyTime {
                path: join_path(path.as_str(), entries[*next].name.as_str()),
            },
            Phase::Finished => Action::Finish,
        }
    }

    /// Reads on in the entries of the directory in hand, from index `from`.
    fn read_on(
        root: String,
        max_depth: u32,
        started: Timestamp,
        pending: Vec<Pending>,
        submissions: Vec<Submission>,
        depth: u32,
        path: String,
        request_time: Timestamp,
        entries: Vec<Entry>,
        from: usize,
    ) -> (capture: Capture)
        requires
            from <= entries.len(),
            request_time@ % (NANOS_PER_SEC as int) == 0,
            between_directories(
                root@,
                max_depth as nat,
                started@,
                pending_views(pending@),
                submission_views(submissions@),
            ).admits(depth as nat, path@),
            forall|i: int|
                0 <= i < pending.len() ==> between_directories(
                    root@,
                    max_depth as nat,
                    started@,
                    pending_views(pending@),
                    submission_views(submissions@),
                ).admits(
                    (#[trigger] pending_views(pending@)[i]).depth,
                    pending_views(pending@)[i].path,
                ),
            forall|i: int|
                0 <= i < submissions.len() ==> between_directories(
                    root@,
                    max_depth as nat,
                    started@,
                    pending_views(pending@),
                    submission_views(submissions@),
                ).records(#[trigger] submission_views(submissions@)[i]),
        ensures
            capture@ == read_on(
                between_directories(
                    root@,
                    max_depth as nat,
                    started@,
                    pending_views(pending@),
                    submission_views(submissions@),
                ),
                depth as nat,
                path@,
                request_time@,
                entry_views(entries@),
                from as int,
            ),
    {
        let ghost state = between_directories(
            root@,
            max_depth as nat,
            started@,
            pending_views(pending@),
            submission_views(submissions@),
        );
        let ghost listed = entry_views(entries@);
        proof {
            lemma_read_on_keeps_bound(
                state,
                depth as nat,
                path@,
                request_time@,
                listed,
                from as int,
            );
        }
        let mut pending = pending;
        let mut index = from;
        let mut at_file = false;
        while index < entries.len() && !at_file
            invariant
                from <= index <= entries.len(),
                listed == entry_views(entries@),
                state.admits(depth as nat, path@),
                state.max_depth == max_depth,
                forall|j: int| from <= j < index ==> (#[trigger] listed[j]).kind != EntryKind::File,
                at_file ==> index < entries.len() && listed[index as int].kind == EntryKind::File,
                pending_views(pending@) == state.pending + descent(
                    listed.subrange(from as int, index as int),
                    depth as nat,
                    path@,
                    state.max_depth,
                ),
                forall|i: int|
                    0 <= i < pending.len() ==> state.admits(
                        (#[trigger] pending_views(pending@)[i]).depth,
                        pending_views(pending@)[i].path,
                    ),
            decreases entries.len() - index, if at_file { 0int } else { 1int },
        {
            let ghost before = pending_views(pending@);
            let ghost seen = listed.subrange(from as int, index as int);
            let ghost seen_next = listed.subrange(from as int, index as int + 1);
            proof {
                assert(seen_next.drop_last() =~= seen);
                assert(seen_next.last() == listed[index as int]);
            }
            match entries[index].kind {
                EntryKind::File => {
                    at_file = true;
                },
                EntryKind::Directory => {
                    if depth < max_depth {
                        let child = Pending {
                            depth: depth + 1,
                            path: join_path(path.as_str(), entries[index].name.as_str()),
                        };
                        proof {
                            lemma_child_admitted(state, depth as nat, path@, listed[index as int].name);
                            assert(pending_views(pending@.push(child)) =~= before.push(child@));
                        }
                        pending.push(child);
                    }
                    index = index + 1;
                },
                EntryKind::Symlink => {
                    index = index + 1;
                },
            }
        }
        proof {
            lemma_first_file_at(listed, from as int, index as int);
        }
        if index < entries.len() {
            let capture = Capture {
                root,
                max_depth,
                started,
                pending,
                phase: Phase::AwaitTime { depth, path, request_time, entries, next: index },
                submissions,
            };
            capture
        } else {
            let ghost grown = pending_views(pending@);
            match pending.pop() {
                Some(directory) => {
                    proof {
                        assert(pending_views(pending@) =~= grown.drop_last());
                        assert(directory@ == grown.last());
                    }
                    let capture = Capture {
                        root,
                        max_depth,
                        started,
                        pending,
                        phase: Phase::AwaitListing { depth: directory.depth, path: directory.path },
                        submissions,
                    };
                    capture
                },
                None => {
                    let capture = Capture {
                        root,
                        max_depth,
                        started,
                        pending,
                        phase: Phase::Finished,
                        submissions,
                    };
                    capture
                },
            }
        }
    }

    /// Takes what came back from the remote endpoint and moves on to the next
    /// action. An event that does not answer the action asked for ends the
    /// capture with [`CaptureError::OutOfTurn`].
    pub fn step(self, event: Event) -> (next: Result<Capture, CaptureError>)
        ensures
            match stepped(self@, event@) {
                Ok(state) => next matches Ok(capture) && capture@ == state && state.wf(),
                Err(error) => next matches Err(found) && found == error,
            },
    {
        proof {
            use_type_invariant(&self);
        }
        let Capture { root, max_depth, started, pending, phase, submissions } = self;
        match (phase, event) {
            (Phase::AwaitListing { depth, path }, Event::Listing { entries, asked }) => {
                let request_time = asked.round_to_second();
                proof {
                    let parts = between_directories(
                        root@,
                        max_depth as nat,
                        started@,
                        pending_views(pending@),
                        submission_views(submissions@),
                    );
                    lemma_same_capture(self@, parts);
                    assert forall|i: int| 0 <= i < submissions.len() implies parts.records(
                        #[trigger] submission_views(submissions@)[i],
                    ) by {
                        assert(parts.records(parts.submissions[i]));
                    }
                    assert forall|i: int| 0 <= i < pending.len() implies parts.admits(
                        (#[trigger] pending_views(pending@)[i]).depth,
                        pending_views(pending@)[i].path,
                    ) by {
                        assert(parts.admits(parts.pending[i].depth, parts.pending[i].path));
                    }
                }
                let capture = Capture::read_on(
                    root,
                    max_depth,
                    started,
                    pending,
                    submissions,
                    depth,
                    path,
                    request_time,
                    entries,
                    0,
                );
                proof {
                    use_type_invariant(&capture);
                }
                Ok(capture)
            },
            (
                Phase::AwaitTime { depth, path, request_time, entries, next },
                Event::ModifyTime { reported, now },
            ) => {
                assert(next < entries.len()) by {
                    assert(self@.phase == PhaseView::AwaitTime {
                        depth: depth as nat,
                        path: path@,
                        request_time: request_time@,
                        entries: entry_views(entries@),
                        next: next as int,
                    });
                }
                let file_time = correct_modify_time(reported, now);
                let found = create_entry(
                    &entries[next],
                    root.as_str(),
                    path.as_str(),
                    &request_time,
                    &file_time,
                );
                let mut submissions = submissions;
                let ghost before = submission_views(submissions@);
                match found {
                    Some(submission) => {
                        proof {
                            assert(submission_views(submissions@.push(submission)) =~= before.push(
                                submission@,
                            ));
                        }
                        submissions.push(submission);
                    },
                    None => {},
                }
                proof {
                    let grown = between_directories(
                        root@,
                        max_depth as nat,
                        started@,
                        pending_views(pending@),
                        submission_views(submissions@),
                    );
                    lemma_same_capture(
                        self@,
                        between_directories(
                            root@,
                            max_depth as nat,
                            started@,
                            pending_views(pending@),
                            before,
                        ),
                    );
                    assert forall|i: int| 0 <= i < submissions.len() implies grown.records(
                        #[trigger] submission_views(submissions@)[i],
                    ) by {
                        let recorded = submission_views(submissions@)[i];
                        if i < before.len() {
                            lemma_records_by_root_and_bound(self@, grown, before[i]);
                        } else {
                            assert(grown.admits(depth as nat, path@));
                            assert(created_entry(
                                entries@[next as int]@,
                                grown.root,
                                path@,
                                recorded.request_time,
                                recorded.file_time,
                            ) == Some(recorded));
                        }
                    }
                }
                let capture = Capture::read_on(
                    root,
                    max_depth,
                    started,
                    pending,
                    submissions,
                    depth,
                    path,
                    request_time,
                    entries,
                    next + 1,
                );
                proof {
                    use_type_invariant(&capture);
                }
                Ok(capture)
            },
            _ => Err(CaptureError::OutOfTurn),
        }
    }

    /// Ends a finished capture at the time `end` and hands out its snapshot.
    /// A capture that still waits for an answer gives
    /// [`CaptureError::OutOfTurn`] and no snapshot.
    pub fn finish(self, end: Timestamp) -> (snapshot: Result<Snapshot, CaptureError>)
        ensures
            self@.wf(),
            match snapshot {
                Ok(taken) => self@.phase is Finished && taken@ == finished(self@, end@),
                Err(error) => !(self@.phase is Finished) && error == CaptureError::OutOfTurn,
            },
    {
        proof {
            use_type_invariant(&self);
        }
        match self.phase {
            Phase::Finished => Ok(
                Snapshot {
                    capture_time: self.started.round_to_second(),
                    capture_duration: self.started.millis_until(&end),
                    submissions: self.submissions,
                },
            ),
            _ => Err(CaptureError::OutOfTurn),
        }
    }
}

} // verus!

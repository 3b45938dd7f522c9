//! Symbolic links count for nothing: a capture handles a listing that holds
//! links as it handles the same listing without them.

use crate::capture::{
    after_events, children, descent, first_file, lemma_first_file_found, read_on, stepped,
    CaptureState, EventView, PhaseView,
};
use crate::listing::{EntryKind, EntryView};
use vstd::prelude::*;

verus! {

/// What tells the entries that are no symbolic links.
pub open spec fn no_link() -> spec_fn(EntryView) -> bool {
    |entry: EntryView| entry.kind != EntryKind::Symlink
}

/// A listing without its symbolic links.
pub open spec fn without_links(entries: Seq<EntryView>) -> Seq<EntryView> {
    entries.filter(no_link())
}

/// Without its links, a listing begins with its first entry unless that is
/// a link, and goes on with the rest of the listing without its links.
proof fn lemma_without_links_front(entries: Seq<EntryView>)
    requires
        entries.len() > 0,
    ensures
        without_links(entries) == if entries[0].kind == EntryKind::Symlink {
            without_links(entries.skip(1))
        } else {
            seq![entries[0]] + without_links(entries.skip(1))
        },
{
    let head = seq![entries[0]];
    assert(entries =~= head + entries.skip(1));
    Seq::filter_distributes_over_add(head, entries.skip(1), no_link());
    reveal_with_fuel(Seq::filter, 2);
    assert(head.drop_last() =~= Seq::<EntryView>::empty());
    assert(head.filter(no_link()) =~= if entries[0].kind == EntryKind::Symlink {
        Seq::<EntryView>::empty()
    } else {
        head
    });
}

/// An empty listing has no entries without its links either.
proof fn lemma_without_links_empty(entries: Seq<EntryView>)
    requires
        entries.len() == 0,
    ensures
        without_links(entries).len() == 0,
{
    reveal_with_fuel(Seq::filter, 1);
}

/// Where the first regular file at or after `from` stands depends on the
/// entries from `from` on alone.
proof fn lemma_first_file_skip(entries: Seq<EntryView>, from: int)
    requires
        0 <= from <= entries.len(),
    ensures
        first_file(entries, from) == from + first_file(entries.skip(from), 0),
    decreases entries.len() - from,
{
    let rest = entries.skip(from);
    if from < entries.len() {
        assert(rest[0] == entries[from]);
        if entries[from].kind != EntryKind::File {
            lemma_first_file_skip(entries, from + 1);
            lemma_first_file_skip(rest, 1);
            assert(rest.skip(1) =~= entries.skip(from + 1));
        }
    }
}

/// The subdirectories of two listings, one after the other, are those of the
/// two put together.
proof fn lemma_children_add(
    first: Seq<EntryView>,
    second: Seq<EntryView>,
    depth: nat,
    path: Seq<char>,
)
    ensures
        children(first + second, depth, path) == children(first, depth, path) + children(
            second,
            depth,
            path,
        ),
    decreases second.len(),
{
    if second.len() == 0 {
        assert(first + second =~= first);
        assert(children(first, depth, path) + children(second, depth, path) =~= children(
            first,
            depth,
            path,
        ));
    } else {
        assert((first + second).drop_last() =~= first + second.drop_last());
        assert((first + second).last() == second.last());
        lemma_children_add(first, second.drop_last(), depth, path);
        assert(children(first + second, depth, path) =~= children(first, depth, path) + children(
            second,
            depth,
            path,
        ));
    }
}

/// Reading on past a first entry that is no regular file: the reading stops
/// where it stops in the rest, and has passed the first entry besides.
proof fn lemma_pass_head(entries: Seq<EntryView>, depth: nat, path: Seq<char>)
    requires
        entries.len() > 0,
        entries[0].kind != EntryKind::File,
    ensures
        first_file(entries, 0) == 1 + first_file(entries.skip(1), 0),
        children(entries.take(first_file(entries, 0)), depth, path) == children(
            seq![entries[0]],
            depth,
            path,
        ) + children(entries.skip(1).take(first_file(entries.skip(1), 0)), depth, path),
        first_file(entries, 0) < entries.len() <==> first_file(entries.skip(1), 0)
            < entries.skip(1).len(),
        first_file(entries, 0) < entries.len() ==> {
            &&& entries[first_file(entries, 0)] == entries.skip(1)[first_file(entries.skip(1), 0)]
            &&& entries.skip(first_file(entries, 0) + 1) == entries.skip(1).skip(
                first_file(entries.skip(1), 0) + 1,
            )
        },
{
    let rest = entries.skip(1);
    lemma_first_file_skip(entries, 1);
    lemma_first_file_found(rest, 0);
    let stop = first_file(rest, 0);
    assert(entries.take(stop + 1) =~= seq![entries[0]] + rest.take(stop));
    lemma_children_add(seq![entries[0]], rest.take(stop), depth, path);
    if stop < rest.len() {
        assert(entries.skip(stop + 2) =~= rest.skip(stop + 1));
    }
}

/// The subdirectories of a single entry that is a link or a regular file:
/// none.
proof fn lemma_no_child(entry: EntryView, depth: nat, path: Seq<char>)
    requires
        entry.kind != EntryKind::Directory,
    ensures
        children(seq![entry], depth, path) == Seq::<crate::capture::PendingView>::empty(),
{
    reveal_with_fuel(children, 2);
    assert(seq![entry].drop_last() =~= Seq::<EntryView>::empty());
    assert(children(seq![entry], depth, path) =~= Seq::<crate::capture::PendingView>::empty());
}

/// Two listings that are the same without their links are read alike: up to
/// the first regular file they give the same subdirectories, they hold such
/// a file or not alike, and behind the same file they are again the same
/// without their links.
proof fn lemma_read_alike(
    one: Seq<EntryView>,
    other: Seq<EntryView>,
    depth: nat,
    path: Seq<char>,
)
    requires
        without_links(one) == without_links(other),
    ensures
        children(one.take(first_file(one, 0)), depth, path) == children(
            other.take(first_file(other, 0)),
            depth,
            path,
        ),
        first_file(one, 0) < one.len() <==> first_file(other, 0) < other.len(),
        first_file(one, 0) < one.len() ==> {
            &&& one[first_file(one, 0)] == other[first_file(other, 0)]
            &&& without_links(one.skip(first_file(one, 0) + 1)) == without_links(
                other.skip(first_file(other, 0) + 1),
            )
        },
    decreases one.len() + other.len(),
{
    if one.len() > 0 && one[0].kind == EntryKind::Symlink {
        lemma_without_links_front(one);
        lemma_read_alike(one.skip(1), other, depth, path);
        lemma_pass_head(one, depth, path);
        lemma_no_child(one[0], depth, path);
        assert(children(seq![one[0]], depth, path) + children(
            one.skip(1).take(first_file(one.skip(1), 0)),
            depth,
            path,
        ) =~= children(one.skip(1).take(first_file(one.skip(1), 0)), depth, path));
    } else if other.len() > 0 && other[0].kind == EntryKind::Symlink {
        lemma_without_links_front(other);
        lemma_read_alike(one, other.skip(1), depth, path);
        lemma_pass_head(other, depth, path);
        lemma_no_child(other[0], depth, path);
        assert(children(seq![other[0]], depth, path) + children(
            other.skip(1).take(first_file(other.skip(1), 0)),
            depth,
            path,
        ) =~= children(other.skip(1).take(first_file(other.skip(1), 0)), depth, path));
    } else if one.len() == 0 || other.len() == 0 {
        if one.len() > 0 {
            lemma_without_links_front(one);
            lemma_without_links_empty(other);
        }
        if other.len() > 0 {
            lemma_without_links_front(other);
            lemma_without_links_empty(one);
        }
        assert(one.take(0) =~= other.take(0));
    } else {
        lemma_without_links_front(one);
        lemma_without_links_front(other);
        let kept = without_links(one);
        assert(kept[0] == one[0]);
        assert(kept[0] == other[0]);
        assert(kept.skip(1) =~= without_links(one.skip(1)));
        assert(kept.skip(1) =~= without_links(other.skip(1)));
        if one[0].kind == EntryKind::File {
            assert(one.take(0) =~= other.take(0));
        } else {
            lemma_read_alike(one.skip(1), other.skip(1), depth, path);
            lemma_pass_head(one, depth, path);
            lemma_pass_head(other, depth, path);
        }
    }
}

/// Taking the links out of a listing that has none left changes nothing.
proof fn lemma_without_links_twice(entries: Seq<EntryView>)
    ensures
        without_links(without_links(entries)) == without_links(entries),
    decreases entries.len(),
{
    if entries.len() == 0 {
        lemma_without_links_empty(entries);
        assert(without_links(entries) =~= entries);
    } else {
        lemma_without_links_front(entries);
        lemma_without_links_twice(entries.skip(1));
        if entries[0].kind != EntryKind::Symlink {
            let kept = without_links(entries);
            lemma_without_links_front(kept);
            assert(kept.skip(1) =~= without_links(entries.skip(1)));
        }
    }
}

/// Whether two captures are the same but for the symbolic links in the
/// listing that they have in hand: they agree on root, depth bound, start,
/// work list and submissions, wait for the same listing or for the time of
/// the same file, and behind that file their listings are the same without
/// their links.
pub open spec fn alike(one: CaptureState, other: CaptureState) -> bool {
    &&& one.root == other.root
    &&& one.max_depth == other.max_depth
    &&& one.started == other.started
    &&& one.pending == other.pending
    &&& one.submissions == other.submissions
    &&& match (one.phase, other.phase) {
        (
            PhaseView::AwaitListing { depth, path },
            PhaseView::AwaitListing { depth: other_depth, path: other_path },
        ) => depth == other_depth && path == other_path,
        (
            PhaseView::AwaitTime { depth, path, request_time, entries, next },
            PhaseView::AwaitTime {
                depth: other_depth,
                path: other_path,
                request_time: other_time,
                entries: other_entries,
                next: other_next,
            },
        ) => {
            &&& depth == other_depth
            &&& path == other_path
            &&& request_time == other_time
            &&& 0 <= next < entries.len()
            &&& 0 <= other_next < other_entries.len()
            &&& entries[next] == other_entries[other_next]
            &&& without_links(entries.skip(next + 1)) == without_links(
                other_entries.skip(other_next + 1),
            )
        },
        (PhaseView::Finished, PhaseView::Finished) => true,
        _ => false,
    }
}

/// Captures that agree but for the directory in hand stay alike when they
/// read on in listings that are the same without their links.
proof fn lemma_read_on_alike(
    one: CaptureState,
    other: CaptureState,
    depth: nat,
    path: Seq<char>,
    request_time: int,
    entries: Seq<EntryView>,
    from: int,
    other_entries: Seq<EntryView>,
    other_from: int,
)
    requires
        one.root == other.root,
        one.max_depth == other.max_depth,
        one.started == other.started,
        one.pending == other.pending,
        one.submissions == other.submissions,
        0 <= from <= entries.len(),
        0 <= other_from <= other_entries.len(),
        without_links(entries.skip(from)) == without_links(other_entries.skip(other_from)),
    ensures
        alike(
            read_on(one, depth, path, request_time, entries, from),
            read_on(other, depth, path, request_time, other_entries, other_from),
        ),
{
    let rest = entries.skip(from);
    let other_rest = other_entries.skip(other_from);
    lemma_first_file_skip(entries, from);
    lemma_first_file_skip(other_entries, other_from);
    lemma_first_file_found(entries, from);
    lemma_first_file_found(other_entries, other_from);
    lemma_read_alike(rest, other_rest, depth, path);
    let stop = first_file(entries, from);
    let other_stop = first_file(other_entries, other_from);
    assert(entries.subrange(from, stop) =~= rest.take(stop - from));
    assert(other_entries.subrange(other_from, other_stop) =~= other_rest.take(
        other_stop - other_from,
    ));
    assert(descent(entries.subrange(from, stop), depth, path, one.max_depth) == descent(
        other_entries.subrange(other_from, other_stop),
        depth,
        path,
        other.max_depth,
    ));
    if stop < entries.len() {
        assert(rest[stop - from] == entries[stop]);
        assert(other_rest[other_stop - other_from] == other_entries[other_stop]);
        assert(entries.skip(stop + 1) =~= rest.skip(stop - from + 1));
        assert(other_entries.skip(other_stop + 1) =~= other_rest.skip(
            other_stop - other_from + 1,
        ));
    }
}

/// Symbolic links count for nothing in a listing: the capture that takes a
/// listing and the capture that takes the same listing without its links are
/// alike afterwards.
pub proof fn lemma_links_as_if_absent(state: CaptureState, entries: Seq<EntryView>, asked: int)
    requires
        state.phase is AwaitListing,
    ensures
        stepped(state, EventView::Listing { entries, asked }) is Ok,
        stepped(state, EventView::Listing { entries: without_links(entries), asked }) is Ok,
        alike(
            stepped(state, EventView::Listing { entries, asked })->Ok_0,
            stepped(state, EventView::Listing { entries: without_links(entries), asked })->Ok_0,
        ),
{
    let kept = without_links(entries);
    lemma_without_links_twice(entries);
    assert(entries.skip(0) =~= entries);
    assert(kept.skip(0) =~= kept);
    match state.phase {
        PhaseView::AwaitListing { depth, path } => {
            lemma_read_on_alike(
                state,
                state,
                depth,
                path,
                crate::time::rounded_to_second(asked),
                entries,
                0,
                kept,
                0,
            );
        },
        _ => {},
    }
}

/// Captures that are alike stay alike: the same event takes them to
/// captures that are alike again, or is out of turn for both.
pub proof fn lemma_alike_stay_alike(one: CaptureState, other: CaptureState, event: EventView)
    requires
        alike(one, other),
    ensures
        match (stepped(one, event), stepped(other, event)) {
            (Ok(next), Ok(other_next)) => alike(next, other_next),
            (Err(error), Err(other_error)) => error == other_error,
            _ => false,
        },
{
    match (one.phase, other.phase, event) {
        (
            PhaseView::AwaitListing { depth, path },
            PhaseView::AwaitListing { .. },
            EventView::Listing { entries, asked },
        ) => {
            lemma_read_on_alike(
                one,
                other,
                depth,
                path,
                crate::time::rounded_to_second(asked),
                entries,
                0,
                entries,
                0,
            );
        },
        (
            PhaseView::AwaitTime { depth, path, request_time, entries, next },
            PhaseView::AwaitTime { entries: other_entries, next: other_next, .. },
            EventView::ModifyTime { reported, now },
        ) => {
            let found = crate::snapshot::created_entry(
                entries[next],
                one.root,
                path,
                request_time,
                crate::time::corrected_time(reported, now),
            );
            let submissions = match found {
                Some(submission) => one.submissions.push(submission),
                None => one.submissions,
            };
            lemma_read_on_alike(
                CaptureState { submissions, ..one },
                CaptureState { submissions, ..other },
                depth,
                path,
                request_time,
                entries,
                next + 1,
                other_entries,
                other_next + 1,
            );
        },
        _ => {},
    }
}

/// Captures that are alike stay alike through every sequence of events, up
/// to the first event that is out of turn, which is so for both.
pub proof fn lemma_alike_after_events(
    one: CaptureState,
    other: CaptureState,
    events: Seq<EventView>,
)
    requires
        alike(one, other),
    ensures
        match (after_events(one, events), after_events(other, events)) {
            (Ok(next), Ok(other_next)) => alike(next, other_next),
            (Err(error), Err(other_error)) => error == other_error,
            _ => false,
        },
    decreases events.len(),
{
    if events.len() > 0 {
        lemma_alike_after_events(one, other, events.drop_last());
        match (after_events(one, events.drop_last()), after_events(other, events.drop_last())) {
            (Ok(before), Ok(other_before)) => {
                lemma_alike_stay_alike(before, other_before, events.last());
            },
            _ => {},
        }
    }
}

/// Captures that are alike ask for the same action and hold the same work
/// list and the same submissions: a link in a listing makes for no listing,
/// no query for a time and no submission.
pub proof fn lemma_alike_act_alike(one: CaptureState, other: CaptureState)
    requires
        alike(one, other),
    ensures
        one.action() == other.action(),
        one.pending == other.pending,
        one.submissions == other.submissions,
        one.phase is Finished <==> other.phase is Finished,
{
}

} // verus!

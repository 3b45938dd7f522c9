use cran_incoming::capture::{join_path, Action, Capture, CaptureError, Event};
use cran_incoming::listing::{Entry, EntryKind};
use cran_incoming::snapshot::{Snapshot, Submission};
use cran_incoming::time::Timestamp;

fn at(secs: i64, nanos: u32) -> Timestamp {
    Timestamp::new(secs, nanos).unwrap()
}

fn file(name: &str, size: usize) -> Entry {
    Entry { name: name.to_string(), kind: EntryKind::File, size }
}

fn dir(name: &str) -> Entry {
    Entry { name: name.to_string(), kind: EntryKind::Directory, size: 0 }
}

fn link(name: &str) -> Entry {
    Entry { name: name.to_string(), kind: EntryKind::Symlink, size: 0 }
}

/// The entries of a small remote tree whose deepest directory lies four
/// levels below the root.
fn tree(path: &str) -> Vec<Entry> {
    match path {
        "/incoming" => vec![dir("a"), file("pkg_1.0.tar.gz", 10), link("ln"), file("README", 3), dir("z")],
        "/incoming/a" => vec![file("x_2.0.tar.gz", 20), dir("b")],
        "/incoming/a/b" => vec![dir("c"), file("deep_0.1.tar.gz", 30), link("c2")],
        "/incoming/a/b/c" => vec![file("hidden_9.9.tar.gz", 40), dir("d")],
        "/incoming/a/b/c/d" => vec![link("up")],
        "/incoming/z" => vec![],
        other => panic!("listed a directory that the tree does not hold: {}", other),
    }
}

/// Runs a capture over the small tree. Every listing is asked for at
/// `asked`, every file was modified at the local reading `reported`, and the
/// clock shows `now` throughout. Gives the capture and what it asked for.
fn walk(root: &str, max_depth: u32, asked: Timestamp, reported: Option<Timestamp>, now: Timestamp) -> (Capture, Vec<Action>) {
    let mut capture = Capture::begin(root, max_depth, now);
    let mut actions = Vec::new();
    loop {
        let action = capture.action();
        actions.push(action.clone());
        let event = match action {
            Action::List { path } => Event::Listing { entries: tree(&path), asked },
            Action::ModifyTime { .. } => Event::ModifyTime { reported, now },
            Action::Finish => return (capture, actions),
        };
        capture = capture.step(event).unwrap();
    }
}

fn list(path: &str) -> Action {
    Action::List { path: path.to_string() }
}

fn time_of(path: &str) -> Action {
    Action::ModifyTime { path: path.to_string() }
}

#[test]
fn join_path_puts_a_separator_between() {
    assert_eq!(join_path("/incoming", "sub"), "/incoming/sub");
    assert_eq!(join_path("", ""), "/");
    assert_eq!(join_path("/incoming/", "a/b"), "/incoming//a/b");
}

#[test]
fn capture_begins_with_the_listing_of_its_root() {
    let capture = Capture::begin("/incoming", 2, at(0, 0));
    assert_eq!(capture.action(), list("/incoming"));
    let fixed = Snapshot::capture(at(0, 0));
    assert_eq!(fixed.action(), list("/incoming"));
}

#[test]
fn walk_goes_depth_first_from_the_directory_found_last() {
    let now = at(1_700_000_000, 0);
    let (_, actions) = walk("/incoming", 2, now, Some(now), now);
    assert_eq!(
        actions,
        vec![
            list("/incoming"),
            time_of("/incoming/pkg_1.0.tar.gz"),
            time_of("/incoming/README"),
            list("/incoming/z"),
            list("/incoming/a"),
            time_of("/incoming/a/x_2.0.tar.gz"),
            list("/incoming/a/b"),
            time_of("/incoming/a/b/deep_0.1.tar.gz"),
            Action::Finish,
        ]
    );
}

#[test]
fn directories_below_the_bound_are_never_listed() {
    let now = at(1_700_000_000, 0);
    for max_depth in 0..5u32 {
        let (_, actions) = walk("/incoming", max_depth, now, Some(now), now);
        for action in actions {
            if let Action::List { path } = action {
                let depth = path["/incoming".len()..].matches('/').count();
                assert!(depth <= max_depth as usize);
            }
        }
    }
}

#[test]
fn bound_of_zero_lists_the_root_alone() {
    let now = at(1_700_000_000, 0);
    let (_, actions) = walk("/incoming", 0, now, Some(now), now);
    assert_eq!(
        actions,
        vec![list("/incoming"), time_of("/incoming/pkg_1.0.tar.gz"), time_of("/incoming/README"), Action::Finish]
    );
}

#[test]
fn bound_of_three_reaches_the_third_level() {
    let now = at(1_700_000_000, 0);
    let (capture, actions) = walk("/incoming", 3, now, Some(now), now);
    assert!(actions.contains(&list("/incoming/a/b/c")));
    assert!(!actions.contains(&list("/incoming/a/b/c/d")));
    let snapshot = capture.finish(now).unwrap();
    assert_eq!(snapshot.submissions.len(), 4);
    assert_eq!(snapshot.submissions[3].folder, "a/b/c");
}

#[test]
fn links_are_neither_listed_nor_asked_about() {
    let now = at(1_700_000_000, 0);
    let (capture, actions) = walk("/incoming", 5, now, Some(now), now);
    for action in actions {
        match action {
            Action::List { path } | Action::ModifyTime { path } => {
                assert!(!path.ends_with("/ln"));
                assert!(!path.ends_with("/c2"));
            }
            Action::Finish => {}
        }
    }
    for submission in capture.finish(now).unwrap().submissions {
        assert_ne!(submission.pkg_name, "ln");
    }
}

#[test]
fn snapshot_holds_the_archives_in_the_order_met() {
    let started = at(1_688_212_800, 400_000_000);
    let asked = at(1_688_212_801, 700_000_000);
    let reported = at(1_688_212_800, 0);
    let (capture, _) = walk("/incoming", 2, asked, Some(reported), started);
    let snapshot = capture.finish(at(1_688_212_803, 900_000_000)).unwrap();
    let asked_rounded = at(1_688_212_802, 0);
    let modified = at(1_688_205_600, 0);
    assert_eq!(snapshot.capture_time, at(1_688_212_800, 0));
    assert_eq!(snapshot.capture_duration, 3500);
    assert_eq!(
        snapshot.submissions,
        vec![
            Submission {
                request_time: asked_rounded,
                folder: "".to_string(),
                file_time: modified,
                file_bytes: 10,
                pkg_name: "pkg".to_string(),
                pkg_version: "1.0".to_string(),
            },
            Submission {
                request_time: asked_rounded,
                folder: "a".to_string(),
                file_time: modified,
                file_bytes: 20,
                pkg_name: "x".to_string(),
                pkg_version: "2.0".to_string(),
            },
            Submission {
                request_time: asked_rounded,
                folder: "a/b".to_string(),
                file_time: modified,
                file_bytes: 30,
                pkg_name: "deep".to_string(),
                pkg_version: "0.1".to_string(),
            },
        ]
    );
}

#[test]
fn failed_time_query_takes_the_current_time() {
    let now = at(1_688_212_800, 0);
    let (capture, _) = walk("/incoming", 0, now, None, now);
    let snapshot = capture.finish(now).unwrap();
    assert_eq!(snapshot.submissions.len(), 1);
    assert_eq!(snapshot.submissions[0].file_time, at(1_688_205_600, 0));
}

#[test]
fn empty_root_finishes_at_once() {
    let started = at(100, 0);
    let capture = Capture::begin("/empty", 2, started);
    let capture = capture.step(Event::Listing { entries: Vec::new(), asked: started }).unwrap();
    assert_eq!(capture.action(), Action::Finish);
    let snapshot = capture.finish(at(100, 0)).unwrap();
    assert_eq!(snapshot.capture_duration, 0);
    assert!(snapshot.submissions.is_empty());
}

#[test]
fn duration_is_zero_when_the_clock_was_set_back() {
    let capture = Capture::begin("/empty", 2, at(100, 0));
    let capture = capture.step(Event::Listing { entries: Vec::new(), asked: at(100, 0) }).unwrap();
    assert_eq!(capture.finish(at(99, 0)).unwrap().capture_duration, 0);
    let capture = Capture::begin("/empty", 2, at(100, 1_000_000));
    let capture = capture.step(Event::Listing { entries: Vec::new(), asked: at(100, 0) }).unwrap();
    assert_eq!(capture.finish(at(100, 0)).unwrap().capture_duration, 0);
}

#[test]
fn time_event_does_not_answer_a_listing() {
    let capture = Capture::begin("/incoming", 2, at(0, 0));
    let next = capture.step(Event::ModifyTime { reported: None, now: at(0, 0) });
    assert_eq!(next.err(), Some(CaptureError::OutOfTurn));
}

#[test]
fn listing_event_does_not_answer_a_time_query() {
    let capture = Capture::begin("/incoming", 2, at(0, 0));
    let capture = capture.step(Event::Listing { entries: vec![file("a_1.tar.gz", 1)], asked: at(0, 0) }).unwrap();
    assert_eq!(capture.action(), time_of("/incoming/a_1.tar.gz"));
    let next = capture.step(Event::Listing { entries: Vec::new(), asked: at(0, 0) });
    assert_eq!(next.err(), Some(CaptureError::OutOfTurn));
}

#[test]
fn finished_capture_takes_no_event() {
    let capture = Capture::begin("/empty", 2, at(0, 0));
    let capture = capture.step(Event::Listing { entries: Vec::new(), asked: at(0, 0) }).unwrap();
    let next = capture.step(Event::Listing { entries: Vec::new(), asked: at(0, 0) });
    assert_eq!(next.err(), Some(CaptureError::OutOfTurn));
}

#[test]
fn unfinished_capture_gives_no_snapshot() {
    let capture = Capture::begin("/incoming", 2, at(0, 0));
    assert_eq!(capture.finish(at(1, 0)), Err(CaptureError::OutOfTurn));
    let capture = Capture::begin("/incoming", 2, at(0, 0));
    let capture = capture.step(Event::Listing { entries: vec![file("a_1.tar.gz", 1)], asked: at(0, 0) }).unwrap();
    assert_eq!(capture.finish(at(1, 0)), Err(CaptureError::OutOfTurn));
}

/// Steps a capture of `/incoming` through one listing and the times of its
/// files. Gives what the capture asked for and its snapshot.
fn read_one_listing(entries: Vec<Entry>) -> (Vec<Action>, Snapshot) {
    let now = at(1_688_212_800, 0);
    let mut capture = Capture::begin("/incoming", 0, now);
    let mut actions = Vec::new();
    loop {
        let action = capture.action();
        actions.push(action.clone());
        let event = match action {
            Action::List { .. } => Event::Listing { entries: entries.clone(), asked: now },
            Action::ModifyTime { .. } => Event::ModifyTime { reported: Some(now), now },
            Action::Finish => return (actions, capture.finish(now).unwrap()),
        };
        capture = capture.step(event).unwrap();
    }
}

#[test]
fn listing_with_links_is_handled_as_the_listing_without_them() {
    let with_links = vec![
        link("first_1.0.tar.gz"),
        dir("a"),
        link("a2"),
        file("f_1.0.tar.gz", 1),
        link("mid"),
        link("mid_2.0.tar.gz"),
        file("note", 2),
        file("g_2.0.tar.gz", 3),
        link("last"),
    ];
    let without_links = vec![dir("a"), file("f_1.0.tar.gz", 1), file("note", 2), file("g_2.0.tar.gz", 3)];
    let (actions, snapshot) = read_one_listing(with_links);
    let (other_actions, other_snapshot) = read_one_listing(without_links);
    assert_eq!(actions, other_actions);
    assert_eq!(snapshot, other_snapshot);
    assert_eq!(snapshot.submissions.len(), 2);
    assert_eq!(actions.len(), 5);
}

#[test]
fn listing_of_links_alone_is_handled_as_an_empty_listing() {
    let (actions, snapshot) = read_one_listing(vec![link("a"), link("b_1.0.tar.gz")]);
    let (other_actions, other_snapshot) = read_one_listing(Vec::new());
    assert_eq!(actions, other_actions);
    assert_eq!(snapshot, other_snapshot);
    assert!(snapshot.submissions.is_empty());
}

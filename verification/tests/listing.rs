use cran_incoming::capture::CaptureError;
use cran_incoming::listing::{
    accepted_entry, ends_1969, gather_entries, parse_listing, read_before_facts, Entry, EntryKind,
    Reading,
};
use suppaftp::list::ParseError;

fn lines(text: &[&str]) -> Vec<String> {
    text.iter().map(|line| line.to_string()).collect()
}

#[test]
fn empty_listing_has_no_entries() {
    assert_eq!(parse_listing(&Vec::new()), Ok(Vec::new()));
}

#[test]
fn regular_file_is_read_with_name_and_size() {
    let parsed = parse_listing(&lines(&["-rw-r--r-- 1 user group 1234 Nov 5 2018 example_1.0.tar.gz"]));
    assert_eq!(
        parsed,
        Ok(vec![Entry { name: "example_1.0.tar.gz".to_string(), kind: EntryKind::File, size: 1234 }])
    );
}

#[test]
fn directory_and_link_are_told_apart() {
    let parsed = parse_listing(&lines(&[
        "drwxr-xr-x 2 user group 4096 Nov 5 2018 sub",
        "lrwxrwxrwx 1 user group 11 Nov 5 2018 link -> target",
        "-rw-r--r-- 1 user group 7 Nov 5 2018 note.txt",
    ]))
    .unwrap();
    assert_eq!(parsed.len(), 3);
    assert_eq!(parsed[0], Entry { name: "sub".to_string(), kind: EntryKind::Directory, size: 4096 });
    assert_eq!(parsed[1].name, "link");
    assert_eq!(parsed[1].kind, EntryKind::Symlink);
    assert_eq!(parsed[2], Entry { name: "note.txt".to_string(), kind: EntryKind::File, size: 7 });
}

#[test]
fn line_that_cannot_be_read_fails_the_listing() {
    let parsed = parse_listing(&lines(&[
        "-rw-r--r-- 1 user group 7 Nov 5 2018 note.txt",
        "type=bogus; name",
        "drwxr-xr-x 2 user group 4096 Nov 5 2018 sub",
    ]));
    assert_eq!(parsed, Err(CaptureError::MalformedLine { index: 1 }));
}

#[test]
fn first_unreadable_line_is_reported() {
    let parsed = parse_listing(&lines(&["size=many; a", "type=bogus; b"]));
    assert_eq!(parsed, Err(CaptureError::MalformedLine { index: 0 }));
}

fn entry(name: &str, kind: EntryKind, size: usize) -> Entry {
    Entry { name: name.to_string(), kind, size }
}

#[test]
fn gathering_keeps_the_order_of_the_lines() {
    let read = vec![
        Some(entry("b", EntryKind::Directory, 0)),
        Some(entry("a_1.tar.gz", EntryKind::File, 5)),
        Some(entry("l", EntryKind::Symlink, 1)),
    ];
    assert_eq!(
        gather_entries(read),
        Ok(vec![
            entry("b", EntryKind::Directory, 0),
            entry("a_1.tar.gz", EntryKind::File, 5),
            entry("l", EntryKind::Symlink, 1),
        ])
    );
}

#[test]
fn gathering_nothing_gives_an_empty_listing() {
    assert_eq!(gather_entries(Vec::new()), Ok(Vec::new()));
}

#[test]
fn gathering_fails_at_the_first_unread_line() {
    let read = vec![Some(entry("a", EntryKind::File, 1)), None, Some(entry("b", EntryKind::File, 2)), None];
    assert_eq!(gather_entries(read), Err(CaptureError::MalformedLine { index: 1 }));
    assert_eq!(gather_entries(vec![None]), Err(CaptureError::MalformedLine { index: 0 }));
    let read = vec![Some(entry("a", EntryKind::File, 1)), Some(entry("b", EntryKind::File, 2)), None];
    assert_eq!(gather_entries(read), Err(CaptureError::MalformedLine { index: 2 }));
}

#[test]
fn accepted_entry_keeps_what_was_read() {
    let read = entry("a_1.tar.gz", EntryKind::File, 5);
    assert_eq!(accepted_entry(Ok(read.clone())), Some(read));
}

#[test]
fn accepted_entry_is_none_for_every_refusal() {
    assert_eq!(accepted_entry(Err(ParseError::SyntaxError)), None);
    assert_eq!(accepted_entry(Err(ParseError::InvalidDate)), None);
    assert_eq!(accepted_entry(Err(ParseError::BadSize)), None);
}

#[test]
fn facts_of_a_line_are_read() {
    let parsed = parse_listing(&lines(&["type=file;size=12;modify=20200101000000; a_1.0.tar.gz"]));
    assert_eq!(parsed, Ok(vec![entry("a_1.0.tar.gz", EntryKind::File, 12)]));
}

#[test]
fn last_second_of_1969_as_second_60_is_told() {
    assert!(ends_1969("modify=19691231235960; x"));
    assert!(ends_1969("type=file;modify=19691231235960.5; x"));
    assert!(ends_1969("type=file;Modify= +001969 12 31 23 59 60; x"));
    assert!(ends_1969("MODIFY=19691231235960"));
    assert!(ends_1969(" modify=19691231235960; x"));
    assert!(ends_1969("size=1;modify=19691231235960"));
    assert!(ends_1969("type=file;;modify=19691231235960; x"));
}

#[test]
fn other_times_of_1969_are_not_taken_for_its_end() {
    assert!(!ends_1969("modify=19690101000000; x"));
    assert!(!ends_1969("modify=19691231235959; x"));
    assert!(!ends_1969("modify=19691231235961; x"));
    assert!(!ends_1969("modify=1969123123596"));
    assert!(!ends_1969("modify=1969;x=1231235960"));
    assert!(!ends_1969("modify=1969=1231235960"));
    assert!(!ends_1969("modify=19701231235960; x"));
}

#[test]
fn only_a_fact_named_modify_is_looked_at() {
    assert!(!ends_1969(""));
    assert!(!ends_1969("size=19691231235960; x"));
    assert!(!ends_1969("xmodify=19691231235960; x"));
    assert!(!ends_1969("odify=19691231235960; x"));
    assert!(!ends_1969("type=file;modified=19691231235960; x"));
    assert!(!ends_1969("modify=a=19691231235960; x"));
    assert!(!ends_1969("a=b;c=modify=19691231235960; x"));
    assert!(!ends_1969("-rw-r--r-- 1 u g 10 Jan 01 2020 modify=19691231235960"));
    assert!(!ends_1969("-rw-r--r-- 1 u g 10 Jan 01 2020 modify=1969_1.0.tar.gz"));
}

#[test]
fn only_the_facts_of_a_line_are_looked_at() {
    assert!(!ends_1969("type=file; modify=19691231235960"));
    assert!(!ends_1969("type=file; x;modify=19691231235960"));
    assert!(!ends_1969("  modify=19691231235960"));
    assert!(!ends_1969("  ;modify=19691231235960"));
    assert!(ends_1969("type=file;x ;modify=19691231235960"));
}

#[test]
fn name_outside_ascii_counts_as_modify() {
    assert!(ends_1969("m\u{f6}dify=19691231235960; x"));
    assert!(ends_1969("type=file;\u{e4}=19691231235960; x"));
    assert!(!ends_1969("\u{e4};size=19691231235960; x"));
    assert!(!ends_1969("size=19691231235960; \u{e4}"));
}

#[test]
fn line_that_ends_1969_fails_the_listing() {
    let parsed = parse_listing(&lines(&["modify=19691231235960; x"]));
    assert_eq!(parsed, Err(CaptureError::MalformedLine { index: 0 }));
    let parsed = parse_listing(&lines(&[
        "-rw-r--r-- 1 user group 7 Nov 5 2018 note.txt",
        "type=file;modify=19691231235960; x",
    ]));
    assert_eq!(parsed, Err(CaptureError::MalformedLine { index: 1 }));
}

#[test]
fn facts_dated_in_1969_are_read() {
    let parsed = parse_listing(&lines(&["type=file;size=3;modify=19690101000000; x_1.0.tar.gz"]));
    assert_eq!(parsed, Ok(vec![entry("x_1.0.tar.gz", EntryKind::File, 3)]));
    let parsed = parse_listing(&lines(&["modify=19691231235959; x"]));
    assert_eq!(parsed, Ok(vec![entry("x", EntryKind::File, 0)]));
}

#[test]
fn file_named_like_a_fact_is_read() {
    let parsed = parse_listing(&lines(&["-rw-r--r-- 1 u g 10 Jan 01 2020 modify=1969_1.0.tar.gz"]));
    assert_eq!(parsed, Ok(vec![entry("modify=1969_1.0.tar.gz", EntryKind::File, 10)]));
    let parsed = parse_listing(&lines(&["-rw-r--r-- 1 u g 10 Jan 01 2020 modify=19691231235960"]));
    assert_eq!(parsed, Ok(vec![entry("modify=19691231235960", EntryKind::File, 10)]));
    let line = "-rw-r--r-- 1 \u{fc}ser g 10 Jan 01 2020 a=19691231235960";
    assert!(ends_1969(line));
    assert_eq!(parse_listing(&lines(&[line])), Ok(vec![entry("a=19691231235960", EntryKind::File, 10)]));
}

#[test]
fn first_reader_that_reads_the_line_decides() {
    let posix = entry("p", EntryKind::File, 1);
    let dos = entry("d", EntryKind::Directory, 0);
    for dated in [false, true] {
        assert_eq!(read_before_facts(Ok(posix.clone()), Ok(dos.clone()), dated), Reading::Read(posix.clone()));
        assert_eq!(
            read_before_facts(Ok(posix.clone()), Err(ParseError::SyntaxError), dated),
            Reading::Read(posix.clone())
        );
        assert_eq!(
            read_before_facts(Err(ParseError::InvalidDate), Ok(dos.clone()), dated),
            Reading::Read(dos.clone())
        );
    }
}

#[test]
fn line_refused_twice_goes_to_the_facts_unless_it_ends_1969() {
    assert_eq!(
        read_before_facts(Err(ParseError::SyntaxError), Err(ParseError::BadSize), false),
        Reading::ByFacts
    );
    assert_eq!(
        read_before_facts(Err(ParseError::SyntaxError), Err(ParseError::SyntaxError), true),
        Reading::Unreadable
    );
}

#[test]
fn dos_line_is_read() {
    let parsed = parse_listing(&lines(&["10-19-20  03:19PM <DIR> pub", "04-08-14  03:09PM 403   readme.txt"]));
    assert_eq!(
        parsed,
        Ok(vec![entry("pub", EntryKind::Directory, 0), entry("readme.txt", EntryKind::File, 403)])
    );
}

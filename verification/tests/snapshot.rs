use cran_incoming::listing::{Entry, EntryKind};
use cran_incoming::snapshot::{create_entry, relative_folder, Snapshot, Submission};
use cran_incoming::time::Timestamp;

fn at(secs: i64, nanos: u32) -> Timestamp {
    Timestamp::new(secs, nanos).unwrap()
}

fn entry(name: &str, kind: EntryKind, size: usize) -> Entry {
    Entry { name: name.to_string(), kind, size }
}

#[test]
fn folder_is_relative_to_the_root() {
    assert_eq!(relative_folder("/incoming", "/incoming/sub"), "sub");
    assert_eq!(relative_folder("/incoming", "/incoming/a/b"), "a/b");
}

#[test]
fn folder_of_the_root_itself_is_empty() {
    assert_eq!(relative_folder("/incoming", "/incoming"), "");
    assert_eq!(relative_folder("/incoming", "/incoming/"), "");
}

#[test]
fn folder_shorter_than_the_root_is_empty() {
    assert_eq!(relative_folder("/incoming", "/in"), "");
    assert_eq!(relative_folder("/incoming", ""), "");
    assert_eq!(relative_folder("", ""), "");
}

#[test]
fn folder_counts_characters() {
    assert_eq!(relative_folder("/\u{fc}ber", "/\u{fc}ber/gr\u{fc}n"), "gr\u{fc}n");
    assert_eq!(relative_folder("", "/sub"), "sub");
}

#[test]
fn archive_in_a_subfolder_becomes_a_submission() {
    let asked = at(1_700_000_000, 0);
    let modified = at(1_699_000_000, 0);
    let created =
        create_entry(&entry("file_1.0.tar.gz", EntryKind::File, 2048), "/incoming", "/incoming/sub", &asked, &modified);
    assert_eq!(
        created,
        Some(Submission {
            request_time: asked,
            folder: "sub".to_string(),
            file_time: modified,
            file_bytes: 2048,
            pkg_name: "file".to_string(),
            pkg_version: "1.0".to_string(),
        })
    );
}

#[test]
fn groups_become_name_and_version() {
    let t = at(0, 0);
    let created = create_entry(&entry("foo_1.2.3.tar.gz", EntryKind::File, 1), "/incoming", "/incoming", &t, &t).unwrap();
    assert_eq!(created.pkg_name, "foo");
    assert_eq!(created.pkg_version, "1.2.3");
    assert_eq!(created.folder, "");
}

#[test]
fn other_file_names_give_nothing() {
    let t = at(0, 0);
    assert_eq!(create_entry(&entry("README", EntryKind::File, 1), "/incoming", "/incoming", &t, &t), None);
    assert_eq!(create_entry(&entry("foo_1.0.zip", EntryKind::File, 1), "/incoming", "/incoming", &t, &t), None);
    assert_eq!(create_entry(&entry("foo.tar.gz", EntryKind::File, 1), "/incoming", "/incoming", &t, &t), None);
}

#[test]
fn links_and_directories_give_nothing() {
    let t = at(0, 0);
    assert_eq!(create_entry(&entry("foo_1.0.tar.gz", EntryKind::Symlink, 1), "/incoming", "/incoming", &t, &t), None);
    assert_eq!(create_entry(&entry("foo_1.0.tar.gz", EntryKind::Directory, 1), "/incoming", "/incoming", &t, &t), None);
}

#[test]
fn placeholder_snapshot_is_empty() {
    let placeholder = Snapshot::new(at(1_700_000_000, 600_000_000));
    assert_eq!(placeholder.capture_time, at(1_700_000_001, 0));
    assert_eq!(placeholder.capture_duration, 0);
    assert!(placeholder.submissions.is_empty());
}

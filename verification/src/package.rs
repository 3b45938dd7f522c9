//! The file name of a package archive: `<name>_<version>.tar.gz`.

use vstd::prelude::*;
use vstd::string::*;

verus! {

/// The ending of every package archive's file name.
pub open spec fn archive_suffix() -> Seq<char> {
    seq!['.', 't', 'a', 'r', '.', 'g', 'z']
}

/// Whether `name` reads as a package name, an underscore at index `at`, a
/// version and the archive suffix, where name and version are not empty and
/// no line break occurs.
pub open spec fn splits_at(name: Seq<char>, at: int) -> bool {
    &&& 0 < at < name.len() - 8
    &&& name[at] == '_'
    &&& name.subrange(name.len() - 7, name.len() as int) == archive_suffix()
    &&& forall|i: int| 0 <= i < name.len() ==> name[i] != '\n'
}

/// Whether `name` is the file name of a package archive.
pub open spec fn is_package_file(name: Seq<char>) -> bool {
    exists|at: int| splits_at(name, at)
}

/// Whether `at` is the last index at which `name` splits: the package name
/// before it is the longest possible.
pub open spec fn is_split_point(name: Seq<char>, at: int) -> bool {
    &&& splits_at(name, at)
    &&& forall|later: int| splits_at(name, later) ==> later <= at
}

/// The index of the underscore that parts the package name from the version.
pub open spec fn split_point(name: Seq<char>) -> int {
    choose|at: int| is_split_point(name, at)
}

/// The package name in the file name of a package archive: what stands
/// before the parting underscore.
pub open spec fn package_name(name: Seq<char>) -> Seq<char> {
    name.subrange(0, split_point(name))
}

/// The version in the file name of a package archive: what stands between
/// the parting underscore and the archive suffix.
pub open spec fn package_version(name: Seq<char>) -> Seq<char> {
    name.subrange(split_point(name) + 1, name.len() - 7)
}

/// The package name and the version that the file name of a package archive
/// holds, or `None` for any other file name.
pub open spec fn package_parts(name: Seq<char>) -> Option<(Seq<char>, Seq<char>)> {
    if is_package_file(name) {
        Some((package_name(name), package_version(name)))
    } else {
        None
    }
}

/// A file name splits at one last index only.
pub proof fn lemma_split_point_unique(name: Seq<char>, at: int)
    requires
        is_split_point(name, at),
    ensures
        is_package_file(name),
        split_point(name) == at,
{
    let chosen = split_point(name);
    assert(is_split_point(name, chosen));
}

/// Whether `at` is the last index below `bound` at which `name` splits.
spec fn is_last_split_below(name: Seq<char>, at: int, bound: int) -> bool {
    &&& splits_at(name, at)
    &&& at < bound
    &&& forall|later: int| splits_at(name, later) && later < bound ==> later <= at
}

/// Where a name splits below `bound` at all, it splits at a last index below
/// `bound`.
proof fn lemma_last_split_below(name: Seq<char>, found: int, bound: int)
    requires
        splits_at(name, found),
        found < bound,
    ensures
        exists|at: int| #[trigger] is_last_split_below(name, at, bound),
    decreases bound - found,
{
    if splits_at(name, bound - 1) {
        assert(is_last_split_below(name, bound - 1, bound));
    } else {
        lemma_last_split_below(name, found, bound - 1);
        let at = choose|at: int| #[trigger] is_last_split_below(name, at, bound - 1);
        assert(is_last_split_below(name, at, bound));
    }
}

/// The file name of a package archive has a last index at which it splits,
/// and that index parts it into a package name and a version, neither of
/// them empty, that give the file name back when put together.
pub proof fn lemma_split_point(name: Seq<char>)
    requires
        is_package_file(name),
    ensures
        is_split_point(name, split_point(name)),
        package_name(name).len() > 0,
        package_version(name).len() > 0,
        package_name(name) + seq!['_'] + package_version(name) + archive_suffix() == name,
{
    let found = choose|at: int| splits_at(name, at);
    lemma_last_split_below(name, found, name.len() as int);
    let last = choose|at: int| #[trigger] is_last_split_below(name, at, name.len() as int);
    assert(is_split_point(name, last));
    let at = split_point(name);
    assert(is_split_point(name, at));
    assert(package_name(name) + seq!['_'] + package_version(name) + archive_suffix() =~= name);
}

/// A file name put together from a package name and a version is split back
/// into the two, as long as neither holds a line break and no underscore
/// stands in the version before its last character.
pub proof fn lemma_assembled_name_splits_back(package: Seq<char>, version: Seq<char>)
    requires
        package.len() > 0,
        version.len() > 0,
        forall|i: int| 0 <= i < package.len() ==> package[i] != '\n',
        forall|i: int| 0 <= i < version.len() ==> version[i] != '\n',
        forall|i: int| 0 <= i < version.len() - 1 ==> version[i] != '_',
    ensures
        is_package_file(package + seq!['_'] + version + archive_suffix()),
        package_name(package + seq!['_'] + version + archive_suffix()) == package,
        package_version(package + seq!['_'] + version + archive_suffix()) == version,
{
    let name = package + seq!['_'] + version + archive_suffix();
    let at = package.len() as int;
    assert(name.len() == at + 1 + version.len() + 7);
    assert(name.subrange(name.len() - 7, name.len() as int) =~= archive_suffix());
    assert forall|i: int| 0 <= i < name.len() implies name[i] != '\n' by {
        if i < at {
            assert(name[i] == package[i]);
        } else if i == at {
        } else if i < at + 1 + version.len() {
            assert(name[i] == version[i - at - 1]);
        } else {
            assert(name[i] == archive_suffix()[i - at - 1 - version.len()]);
        }
    }
    assert(splits_at(name, at));
    assert forall|later: int| splits_at(name, later) implies later <= at by {
        if later > at {
            assert(name[later] == version[later - at - 1]);
        }
    }
    lemma_split_point_unique(name, at);
    assert(name.subrange(0, at) =~= package);
    assert(name.subrange(at + 1, name.len() - 7) =~= version);
}

/// The pattern that the file name of a package archive matches, in the
/// syntax of regular expressions.
pub fn package_pattern() -> (pattern: &'static str)
    ensures
        pattern@ == "^(.+)_(.+)\\.tar\\.gz$"@,
{
    "^(.+)_(.+)\\.tar\\.gz$"
}

/// Matches a file name against the package archive pattern and hands out its
/// two groups.
///
/// Trusted: the body compiles `pattern` with `regex::Regex::new` and calls
/// `Regex::captures` on `name`, then `Captures::get` for groups 1 and 2. The
/// contract covers the package archive pattern alone and reads it by the
/// crate's documented syntax: `^` and `$` are the two ends of the text, `.`
/// is any character but a line break, `+` repeats greedily, so that the first
/// group is the longest prefix after which the rest still matches, and a
/// group that took part in the match is reported.
#[verifier::external_body]
fn match_package_pattern(pattern: &str, name: &str) -> (groups: Option<
    (Option<String>, Option<String>),
>)
    requires
        pattern@ == "^(.+)_(.+)\\.tar\\.gz$"@,
    ensures
        groups is Some <==> is_package_file(name@),
        groups matches Some(found) ==> exists|at: int|
            {
                &&& #[trigger] is_split_point(name@, at)
                &&& found.0 matches Some(package) && package@ == name@.subrange(0, at)
                &&& found.1 matches Some(version) && version@ == name@.subrange(
                    at + 1,
                    name@.len() - 7,
                )
            },
{
    let compiled = regex::Regex::new(pattern).unwrap();
    compiled.captures(name).map(
        |found|
            (
                found.get(1).map(|group| group.as_str().to_owned()),
                found.get(2).map(|group| group.as_str().to_owned()),
            ),
    )
}

/// What stands for a group that a match did not report.
pub open spec fn unknown_part() -> Seq<char> {
    "[unknown]"@
}

/// The text of a group, or the placeholder for one that is absent.
pub open spec fn part_or_unknown(group: Option<Seq<char>>) -> Seq<char> {
    match group {
        Some(text) => text,
        None => unknown_part(),
    }
}

/// The text of a group of a match, with the placeholder `[unknown]` for a
/// group that the match did not report.
pub fn group_text(group: Option<String>) -> (text: String)
    ensures
        text@ == part_or_unknown(
            match group {
                Some(found) => Some(found@),
                None => None,
            },
        ),
{
    match group {
        Some(found) => found,
        None => String::from_str("[unknown]"),
    }
}

/// Splits the file name of a package archive into package name and version.
/// Any other file name gives `None`.
pub fn split_package_file(name: &str) -> (parts: Option<(String, String)>)
    ensures
        parts is Some <==> is_package_file(name@),
        parts matches Some(found) ==> package_parts(name@) == Some((found.0@, found.1@)),
{
    match match_package_pattern(package_pattern(), name) {
        Some(found) => {
            proof {
                let at = choose|at: int|
                    {
                        &&& #[trigger] is_split_point(name@, at)
                        &&& found.0 matches Some(package) && package@ == name@.subrange(0, at)
                        &&& found.1 matches Some(version) && version@ == name@.subrange(
                            at + 1,
                            name@.len() - 7,
                        )
                    };
                lemma_split_point_unique(name@, at);
            }
            let package = group_text(found.0);
            let version = group_text(found.1);
            Some((package, version))
        },
        None => None,
    }
}

} // verus!

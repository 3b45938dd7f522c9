//! The entries of a remote directory listing.

use crate::capture::CaptureError;
use vstd::prelude::*;
use vstd::string::StringSliceAdditionalSpecFns;

verus! {

/// What kind of thing a listing entry names.
#[derive(Clone, Copy, Debug, PartialEq, Eq, Structural)]
pub enum EntryKind {
    File,
    Directory,
    Symlink,
}

/// One record of a remote directory listing, as far as the capture reads it.
#[derive(Clone, Debug, PartialEq, Eq)]
pub struct Entry {
    /// The entry's name within its directory.
    pub name: String,
    pub kind: EntryKind,
    /// The size in bytes that the listing gives.
    pub size: usize,
}

/// The mathematical value of an [`Entry`].
pub struct EntryView {
    pub name: Seq<char>,
    pub kind: EntryKind,
    pub size: nat,
}

impl View for Entry {
    type V = EntryView;

    open spec fn view(&self) -> EntryView {
        EntryView { name: self.name@, kind: self.kind, size: self.size as nat }
    }
}

/// The values of a sequence of entries, in order.
pub open spec fn entry_views(entries: Seq<Entry>) -> Seq<EntryView> {
    entries.map_values(|entry: Entry| entry@)
}

/// The index at which the facts of a line begin: behind its leading space,
/// where it has one.
pub open spec fn facts_start(line: Seq<u8>) -> int {
    if line.len() > 0 && line[0] == 0x20u8 {
        1
    } else {
        0
    }
}

/// Whether a line gives facts at all: it gives none where a space stands
/// where they would begin.
pub open spec fn has_facts(line: Seq<u8>) -> bool {
    !(facts_start(line) < line.len() && line[facts_start(line)] == 0x20u8)
}

/// Whether the facts of a line may end at index `at`: a semicolon stands
/// there and a space behind it.
pub open spec fn facts_end_at(line: Seq<u8>, at: int) -> bool {
    &&& 0 <= at
    &&& at + 1 < line.len()
    &&& line[at] == 0x3bu8
    &&& line[at + 1] == 0x20u8
}

/// Whether a fact of a line has its name from index `name` up to the equals
/// sign at index `at`: the name begins where the facts begin or behind a
/// semicolon, holds neither a semicolon nor an equals sign, and the facts
/// have not ended before the equals sign.
pub open spec fn fact_opens(line: Seq<u8>, name: int, at: int) -> bool {
    &&& facts_start(line) <= name <= at < line.len()
    &&& (name == facts_start(line) || line[name - 1] == 0x3bu8)
    &&& line[at] == 0x3du8
    &&& forall|k: int| name <= k < at ==> #[trigger] line[k] != 0x3bu8 && line[k] != 0x3du8
    &&& forall|end: int| facts_start(line) <= end < at ==> !#[trigger] facts_end_at(line, end)
}

/// Whether the six bytes from index `name` up to index `at` of a line spell
/// `modify`, in small or capital letters.
pub open spec fn spells_modify(line: Seq<u8>, name: int, at: int) -> bool {
    &&& at - name == 6
    &&& (line[name] == 0x6du8 || line[name] == 0x4du8)
    &&& (line[name + 1] == 0x6fu8 || line[name + 1] == 0x4fu8)
    &&& (line[name + 2] == 0x64u8 || line[name + 2] == 0x44u8)
    &&& (line[name + 3] == 0x69u8 || line[name + 3] == 0x49u8)
    &&& (line[name + 4] == 0x66u8 || line[name + 4] == 0x46u8)
    &&& (line[name + 5] == 0x79u8 || line[name + 5] == 0x59u8)
}

/// Whether a byte outside ASCII stands in a line from index `name` up to
/// index `at`.
pub open spec fn wide_name(line: Seq<u8>, name: int, at: int) -> bool {
    exists|k: int| name <= k < at && 0 <= k < line.len() && #[trigger] line[k] >= 0x80u8
}

/// Whether the name of a fact, from index `name` up to index `at`, may be
/// `modify`: it spells that, or it holds a byte outside ASCII, of which this
/// test does not tell what it stands for.
pub open spec fn may_name_modify(line: Seq<u8>, name: int, at: int) -> bool {
    spells_modify(line, name, at) || wide_name(line, name, at)
}

/// Whether neither a semicolon nor an equals sign stands between the indices
/// `from` and `to` of a line: a value that begins behind `from` reaches `to`.
pub open spec fn value_runs(line: Seq<u8>, from: int, to: int) -> bool {
    forall|k: int|
        from < k < to && 0 <= k < line.len() ==> #[trigger] line[k] != 0x3bu8 && line[k]
            != 0x3du8
}

/// Whether the digits `1969` stand at index `at` of a line.
pub open spec fn year_1969_at(line: Seq<u8>, at: int) -> bool {
    &&& 0 <= at
    &&& at + 4 <= line.len()
    &&& line[at] == 0x31u8
    &&& line[at + 1] == 0x39u8
    &&& line[at + 2] == 0x36u8
    &&& line[at + 3] == 0x39u8
}

/// The digits of the last day of a year and of the second 60 of its last
/// minute: `12`, `31`, `23`, `59`, `60`.
pub open spec fn leap_digits() -> Seq<u8> {
    seq![0x31u8, 0x32u8, 0x33u8, 0x31u8, 0x32u8, 0x33u8, 0x35u8, 0x39u8, 0x36u8, 0x30u8]
}

/// Whether the digits that a value holds from index `from` on begin with
/// `digits`. What stands between the digits is passed over; the value ends
/// at a semicolon, at an equals sign or with the line.
pub open spec fn digits_follow(line: Seq<u8>, from: int, digits: Seq<u8>) -> bool
    decreases line.len() - from,
{
    if digits.len() == 0 {
        true
    } else if from < 0 || from >= line.len() || line[from] == 0x3bu8 || line[from] == 0x3du8 {
        false
    } else if 0x30u8 <= line[from] <= 0x39u8 {
        line[from] == digits[0] && digits_follow(line, from + 1, digits.skip(1))
    } else {
        digits_follow(line, from + 1, digits)
    }
}

/// Whether the value of the fact that is named from `name` and opened at
/// `at` may give the last second of 1969 as second 60: it holds the digits
/// `1969` at `year`, and the digits behind them begin with those of the
/// last day and of that second.
pub open spec fn ends_1969_at(line: Seq<u8>, name: int, at: int, year: int) -> bool {
    &&& fact_opens(line, name, at)
    &&& may_name_modify(line, name, at)
    &&& at < year
    &&& value_runs(line, at, year)
    &&& year_1969_at(line, year)
    &&& digits_follow(line, year + 4, leap_digits())
}

/// Whether a line, given by its bytes, may give as its modification time
/// the last second of 1969, written as second 60.
pub open spec fn may_end_1969(line: Seq<u8>) -> bool {
    has_facts(line) && exists|name: int, at: int, year: int| ends_1969_at(line, name, at, year)
}

/// The digit at `index` of the digits of the last day of a year and of the
/// second 60 of its last minute.
fn leap_digit(index: usize) -> (digit: u8)
    requires
        index < 10,
    ensures
        digit == leap_digits()[index as int],
{
    if index == 0 || index == 3 {
        0x31
    } else if index == 1 || index == 4 {
        0x32
    } else if index == 2 || index == 5 {
        0x33
    } else if index == 6 {
        0x35
    } else if index == 7 {
        0x39
    } else if index == 8 {
        0x36
    } else {
        0x30
    }
}

/// Tells whether the digits that a value holds from index `from` on begin
/// with those of the last day of a year and of the second 60.
fn follows_leap(bytes: &[u8], from: usize) -> (follows: bool)
    requires
        from <= bytes.len(),
    ensures
        follows == digits_follow(bytes@, from as int, leap_digits()),
{
    let mut at: usize = from;
    let mut matched: usize = 0;
    assert(leap_digits().skip(0) =~= leap_digits());
    while matched < 10
        invariant
            from <= at <= bytes.len(),
            matched <= 10,
            digits_follow(bytes@, from as int, leap_digits()) == digits_follow(
                bytes@,
                at as int,
                leap_digits().skip(matched as int),
            ),
        decreases bytes.len() - at,
    {
        let ghost left = leap_digits().skip(matched as int);
        assert(left.len() == 10 - matched);
        assert(left[0] == leap_digits()[matched as int]);
        assert(left.skip(1) =~= leap_digits().skip(matched as int + 1));
        if at >= bytes.len() {
            return false;
        }
        let byte = bytes[at];
        if byte == 0x3b || byte == 0x3d {
            return false;
        }
        if 0x30 <= byte && byte <= 0x39 {
            if byte != leap_digit(matched) {
                return false;
            }
            matched = matched + 1;
        }
        at = at + 1;
    }
    true
}

/// Tells whether a line may give as its modification time the last second
/// of 1969, written as second 60. The reader of facts cannot take that
/// second.
pub fn ends_1969(line: &str) -> (dated: bool)
    ensures
        dated == may_end_1969(line.spec_bytes()),
{
    let bytes = line.as_bytes();
    let len = bytes.len();
    let start: usize = if len > 0 && bytes[0] == 0x20 {
        1
    } else {
        0
    };
    if start < len && bytes[start] == 0x20 {
        return false;
    }
    let mut at: usize = start;
    let mut name: usize = start;
    let mut in_name = true;
    let mut wide = false;
    let mut armed = false;
    let ghost mut opener: int = 0;
    while at < len
        invariant
            len == bytes.len(),
            bytes@ == line.spec_bytes(),
            start == facts_start(bytes@),
            has_facts(bytes@),
            start <= name <= at <= len,
            name == start || bytes@[name - 1] == 0x3bu8,
            forall|end: int| start <= end < at ==> !#[trigger] facts_end_at(bytes@, end),
            forall|k: int| name <= k < at ==> #[trigger] bytes@[k] != 0x3bu8,
            in_name <==> forall|k: int| name <= k < at ==> #[trigger] bytes@[k] != 0x3du8,
            in_name ==> wide == wide_name(bytes@, name as int, at as int),
            armed ==> name <= opener < at && fact_opens(bytes@, name as int, opener)
                && may_name_modify(bytes@, name as int, opener) && value_runs(
                bytes@,
                opener,
                at as int,
            ),
            !armed ==> forall|n: int, o: int|
                o < at && #[trigger] fact_opens(bytes@, n, o) && may_name_modify(bytes@, n, o)
                    ==> !value_runs(bytes@, o, at as int),
            forall|n: int, o: int, y: int| y < at ==> !#[trigger] ends_1969_at(bytes@, n, o, y),
        decreases len - at,
    {
        let byte = bytes[at];
        let ghost here = at as int;
        let ghost was_armed = armed;
        let ghost was_in_name = in_name;
        let ghost was_wide = wide;
        let ghost was_name = name as int;
        if armed && len - at >= 4 && byte == 0x31 && bytes[at + 1] == 0x39 && bytes[at + 2] == 0x36
            && bytes[at + 3] == 0x39 && follows_leap(bytes, at + 4) {
            assert(ends_1969_at(bytes@, name as int, opener, here));
            return true;
        }
        assert forall|n: int, o: int| !#[trigger] ends_1969_at(bytes@, n, o, here) by {
            if ends_1969_at(bytes@, n, o, here) {
                assert(fact_opens(bytes@, n, o) && may_name_modify(bytes@, n, o));
                assert(value_runs(bytes@, o, here));
                assert(was_armed);
            }
        }
        if byte == 0x3b {
            if at + 1 < len && bytes[at + 1] == 0x20 {
                assert(facts_end_at(bytes@, here));
                assert forall|n: int, o: int, y: int| !#[trigger] ends_1969_at(bytes@, n, o, y) by {
                    if y > here && ends_1969_at(bytes@, n, o, y) {
                        if o > here {
                            assert(facts_end_at(bytes@, here));
                        } else if o < here {
                            assert(bytes@[here] == 0x3bu8);
                        }
                    }
                }
                return false;
            }
            name = at + 1;
            in_name = true;
            wide = false;
            armed = false;
        } else if byte == 0x3d {
            if in_name {
                armed = wide || (at - name == 6 && (bytes[name] == 0x6d || bytes[name] == 0x4d)
                    && (bytes[name + 1] == 0x6f || bytes[name + 1] == 0x4f) && (bytes[name + 2]
                    == 0x64 || bytes[name + 2] == 0x44) && (bytes[name + 3] == 0x69 || bytes[name
                    + 3] == 0x49) && (bytes[name + 4] == 0x66 || bytes[name + 4] == 0x46) && (
                bytes[name + 5] == 0x79 || bytes[name + 5] == 0x59));
                proof {
                    opener = here;
                    assert(fact_opens(bytes@, was_name, here));
                    assert(armed == may_name_modify(bytes@, was_name, here));
                }
            } else {
                armed = false;
            }
            in_name = false;
        } else {
            if in_name && byte >= 0x80 {
                wide = true;
            }
        }
        at = at + 1;
        proof {
            assert(bytes@[here] == byte);
            if byte != 0x3b {
                assert(!facts_end_at(bytes@, here));
            }
            if in_name {
                if byte == 0x3b {
                    assert(!wide_name(bytes@, name as int, at as int));
                } else {
                    if was_wide {
                        let k = choose|k: int|
                            was_name <= k < here && 0 <= k < bytes@.len() && #[trigger] bytes@[k]
                                >= 0x80u8;
                        assert(name <= k < at && bytes@[k] >= 0x80u8);
                    }
                    assert(wide == wide_name(bytes@, name as int, at as int));
                }
            }
            if !in_name {
                if byte == 0x3d {
                    assert(bytes@[here] == 0x3du8);
                } else {
                    assert(!was_in_name);
                    let k = choose|k: int| was_name <= k < here && bytes@[k] == 0x3du8;
                    assert(name <= k < at && bytes@[k] == 0x3du8);
                }
            }
            if !armed {
                assert forall|n: int, o: int|
                    o < at && #[trigger] fact_opens(bytes@, n, o) && may_name_modify(
                        bytes@,
                        n,
                        o,
                    ) implies !value_runs(bytes@, o, at as int) by {
                    if o < here {
                        if byte == 0x3b || byte == 0x3d {
                            assert(bytes@[here] == 0x3bu8 || bytes@[here] == 0x3du8);
                        } else {
                            assert(!was_armed);
                            assert(!value_runs(bytes@, o, here));
                        }
                    } else {
                        // the equals sign at hand opens no fact that may be named so
                        assert(byte == 0x3d);
                        if n < was_name {
                            assert(bytes@[was_name - 1] == 0x3bu8);
                        } else if n > was_name {
                            assert(bytes@[n - 1] == 0x3bu8);
                        } else if !was_in_name {
                            let k = choose|k: int| was_name <= k < here && bytes@[k] == 0x3du8;
                            assert(bytes@[k] == 0x3du8);
                        }
                    }
                }
            }
        }
    }
    proof {
        assert forall|n: int, o: int, y: int| !#[trigger] ends_1969_at(bytes@, n, o, y) by {
            if y >= at {
                assert(!year_1969_at(bytes@, y));
            }
        }
    }
    false
}

/// The error with which suppaftp refuses a line of a listing. Nothing of it
/// is read: it is mapped to the failure of the line.
#[verifier::external_type_specification]
#[verifier::external_body]
pub struct ExParseError(suppaftp::list::ParseError);

/// Reads one line of a directory listing as a line of the POSIX form.
///
/// Trusted: the body parses the line with suppaftp's
/// `ListParser::parse_posix` and copies out `name`, `file_type` and `size`.
/// Nothing is claimed of the outcome: the parser consults the current date
/// to read a line, so one line may be read differently at another time.
#[verifier::external_body]
fn parse_posix(line: &str) -> (parsed: Result<Entry, suppaftp::list::ParseError>) {
    let file = suppaftp::list::ListParser::parse_posix(line)?;
    let kind = match file.file_type() {
        suppaftp::list::FileType::File => EntryKind::File,
        suppaftp::list::FileType::Directory => EntryKind::Directory,
        suppaftp::list::FileType::Symlink(_) => EntryKind::Symlink,
    };
    Ok(Entry { name: file.name().to_owned(), kind, size: file.size() })
}

/// Reads one line of a directory listing as a line of the DOS form.
///
/// Trusted: the body parses the line with suppaftp's `ListParser::parse_dos`
/// and copies out `name`, `file_type` and `size`. Nothing is claimed of the
/// outcome, which takes the parser's two patterns and its reading of dates
/// to state.
#[verifier::external_body]
fn parse_dos(line: &str) -> (parsed: Result<Entry, suppaftp::list::ParseError>) {
    let file = suppaftp::list::ListParser::parse_dos(line)?;
    let kind = match file.file_type() {
        suppaftp::list::FileType::File => EntryKind::File,
        suppaftp::list::FileType::Directory => EntryKind::Directory,
        suppaftp::list::FileType::Symlink(_) => EntryKind::Symlink,
    };
    Ok(Entry { name: file.name().to_owned(), kind, size: file.size() })
}

/// Reads one line of a directory listing as a line of facts.
///
/// Trusted: the body parses the line with suppaftp's `ListParser::parse_mlst`
/// and copies out `name`, `file_type` and `size`. Nothing is claimed of the
/// outcome. The parser does not return for a fact `modify` that gives the
/// last second of 1969 as second 60, where its count of seconds overflows;
/// every such line may end 1969 by the test of this module and is left out.
#[verifier::external_body]
fn parse_facts(line: &str) -> (parsed: Result<Entry, suppaftp::list::ParseError>)
    requires
        !may_end_1969(line.spec_bytes()),
{
    let file = suppaftp::list::ListParser::parse_mlst(line)?;
    let kind = match file.file_type() {
        suppaftp::list::FileType::File => EntryKind::File,
        suppaftp::list::FileType::Directory => EntryKind::Directory,
        suppaftp::list::FileType::Symlink(_) => EntryKind::Symlink,
    };
    Ok(Entry { name: file.name().to_owned(), kind, size: file.size() })
}

/// What is made of a line before its facts are read.
#[derive(Clone, Debug, PartialEq, Eq)]
pub enum Reading {
    /// The line is read as this entry.
    Read(Entry),
    /// The line cannot be read.
    Unreadable,
    /// What the line is read as is for the reader of facts to say.
    ByFacts,
}

/// The value of what is made of a line before its facts are read.
pub enum ReadingView {
    Read(EntryView),
    Unreadable,
    ByFacts,
}

impl View for Reading {
    type V = ReadingView;

    open spec fn view(&self) -> ReadingView {
        match self {
            Reading::Read(entry) => ReadingView::Read(entry@),
            Reading::Unreadable => ReadingView::Unreadable,
            Reading::ByFacts => ReadingView::ByFacts,
        }
    }
}

/// What is made of a line from what the reader of the POSIX form and the
/// reader of the DOS form gave for it, in that order of rank, and from
/// whether the line may end 1969: the entry that the first of the two read;
/// where both refused the line, no entry for a line that may end 1969, and
/// the answer of the reader of facts for every other line.
pub open spec fn reading_of(
    posix: Option<EntryView>,
    dos: Option<EntryView>,
    dated: bool,
) -> ReadingView {
    match posix {
        Some(entry) => ReadingView::Read(entry),
        None => match dos {
            Some(entry) => ReadingView::Read(entry),
            None => if dated {
                ReadingView::Unreadable
            } else {
                ReadingView::ByFacts
            },
        },
    }
}

/// The value of the entry in a parser's answer, if it gave one.
pub open spec fn accepted(parsed: Result<Entry, suppaftp::list::ParseError>) -> Option<
    EntryView,
> {
    match parsed {
        Ok(entry) => Some(entry@),
        Err(_) => None,
    }
}

/// Says what is made of a line before its facts are read. `posix` and `dos`
/// are the answers of the readers of those two forms for the line, and
/// `dated` tells whether the line may end 1969.
pub fn read_before_facts(
    posix: Result<Entry, suppaftp::list::ParseError>,
    dos: Result<Entry, suppaftp::list::ParseError>,
    dated: bool,
) -> (reading: Reading)
    ensures
        reading@ == reading_of(accepted(posix), accepted(dos), dated),
{
    match accepted_entry(posix) {
        Some(entry) => Reading::Read(entry),
        None => match accepted_entry(dos) {
            Some(entry) => Reading::Read(entry),
            None => if dated {
                Reading::Unreadable
            } else {
                Reading::ByFacts
            },
        },
    }
}

/// Reads one line of a directory listing, with `None` for a line that cannot
/// be read as an entry. The line is handed to the readers of the POSIX form
/// and of the DOS form, and to the reader of facts where those two refuse it
/// and it does not end 1969. What the readers make of a line is for them to
/// say; what is made of their answers is stated at [`read_before_facts`]
/// and [`accepted_entry`].
fn read_line(line: &str) -> (read: Option<Entry>) {
    match read_before_facts(parse_posix(line), parse_dos(line), ends_1969(line)) {
        Reading::Read(entry) => Some(entry),
        Reading::Unreadable => None,
        Reading::ByFacts => accepted_entry(parse_facts(line)),
    }
}

/// What is kept of a parser's answer for one line: the entry that it read,
/// or `None` where it refused the line, whatever its reason.
pub fn accepted_entry(parsed: Result<Entry, suppaftp::list::ParseError>) -> (read: Option<Entry>)
    ensures
        read == match parsed {
            Ok(entry) => Some(entry),
            Err(_) => None::<Entry>,
        },
{
    match parsed {
        Ok(entry) => Some(entry),
        Err(_) => None,
    }
}

/// The values of what was read from the lines of a listing, in order.
pub open spec fn reading_views(read: Seq<Option<Entry>>) -> Seq<Option<EntryView>> {
    read.map_values(
        |line: Option<Entry>|
            match line {
                Some(entry) => Some(entry@),
                None => None,
            },
    )
}

/// The index of the first line that could not be read, or the number of
/// lines where every line could.
pub open spec fn first_unread(read: Seq<Option<EntryView>>) -> int
    decreases read.len(),
{
    if read.len() == 0 {
        0
    } else if first_unread(read.drop_last()) < read.len() - 1 {
        first_unread(read.drop_last())
    } else if read.last() is None {
        read.len() - 1
    } else {
        read.len() as int
    }
}

/// The listing that the lines give: the entries in the order of the lines
/// where every line could be read, and otherwise the failure of the first
/// line that could not.
pub open spec fn gathered(read: Seq<Option<EntryView>>) -> Result<Seq<EntryView>, CaptureError> {
    if first_unread(read) >= read.len() {
        Ok(read.map_values(|line: Option<EntryView>| line->0))
    } else {
        Err(CaptureError::MalformedLine { index: first_unread(read) as usize })
    }
}

/// The first unread line is unread, and every line before it was read.
pub proof fn lemma_first_unread(read: Seq<Option<EntryView>>)
    ensures
        0 <= first_unread(read) <= read.len(),
        first_unread(read) < read.len() ==> read[first_unread(read)] is None,
        forall|i: int| 0 <= i < first_unread(read) ==> (#[trigger] read[i]) is Some,
    decreases read.len(),
{
    if read.len() > 0 {
        lemma_first_unread(read.drop_last());
        assert forall|i: int| 0 <= i < first_unread(read) implies (#[trigger] read[i]) is Some by {
            if i < read.len() - 1 {
                assert(read.drop_last()[i] == read[i]);
            }
        }
    }
}

/// Puts together what was read from the lines of a listing. One unreadable
/// line fails the whole listing, and the error gives the index of the first.
pub fn gather_entries(read: Vec<Option<Entry>>) -> (listing: Result<Vec<Entry>, CaptureError>)
    ensures
        match listing {
            Ok(entries) => Ok(entry_views(entries@)),
            Err(error) => Err(error),
        } == gathered(reading_views(read@)),
{
    let ghost lines = reading_views(read@);
    let mut left = read;
    let mut entries: Vec<Entry> = Vec::new();
    let mut index: usize = 0;
    while index < left.len()
        invariant
            index <= left.len(),
            lines == reading_views(read@),
            left.len() == lines.len(),
            entries.len() == index,
            first_unread(lines.take(index as int)) == index,
            forall|i: int| index <= i < left.len() ==> reading_views(left@)[i] == lines[i],
            forall|i: int| 0 <= i < index ==> lines[i] == Some(#[trigger] entry_views(entries@)[i]),
        decreases left.len() - index,
    {
        proof {
            assert(lines.take(index as int + 1).drop_last() =~= lines.take(index as int));
            assert(lines.take(index as int + 1).last() == lines[index as int]);
        }
        let ghost before = entry_views(entries@);
        let ghost rest = reading_views(left@);
        assert(rest[index as int] == lines[index as int]);
        let mut line: Option<Entry> = None;
        left.set_and_swap(index, &mut line);
        proof {
            assert forall|i: int| index < i < left.len() implies reading_views(left@)[i]
                == lines[i] by {
                assert(reading_views(left@)[i] == rest[i]);
            }
        }
        match line {
            Some(entry) => {
                proof {
                    assert(entry_views(entries@.push(entry)) =~= before.push(entry@));
                }
                entries.push(entry);
            },
            None => {
                proof {
                    lemma_first_unread_prefix(lines, index as int + 1);
                }
                return Err(CaptureError::MalformedLine { index });
            },
        }
        index = index + 1;
    }
    proof {
        assert(lines.take(index as int) =~= lines);
        assert(entry_views(entries@) =~= lines.map_values(|line: Option<EntryView>| line->0));
    }
    Ok(entries)
}

/// The first unread line among the first `upto` lines is the first unread
/// line of all, where there is one among them.
proof fn lemma_first_unread_prefix(read: Seq<Option<EntryView>>, upto: int)
    requires
        0 <= upto <= read.len(),
        first_unread(read.take(upto)) < upto,
    ensures
        first_unread(read) == first_unread(read.take(upto)),
    decreases read.len() - upto,
{
    if upto < read.len() {
        assert(read.take(upto + 1).drop_last() =~= read.take(upto));
        lemma_first_unread_prefix(read, upto + 1);
    } else {
        assert(read.take(upto) =~= read);
    }
}

/// Reads the lines of a directory listing, one entry for each line and in
/// the same order. The first line that cannot be read as an entry fails the
/// whole listing, and the error gives its index. Which lines can be read,
/// and as what, is for the readers of lines to say: the listing is gathered
/// from what they read of each line.
pub fn parse_listing(lines: &Vec<String>) -> (parsed: Result<Vec<Entry>, CaptureError>)
    ensures
        exists|read: Seq<Option<EntryView>>|
            read.len() == lines.len() && #[trigger] gathered(read) == match parsed {
                Ok(entries) => Ok(entry_views(entries@)),
                Err(error) => Err(error),
            },
        match parsed {
            Ok(entries) => entries.len() == lines.len(),
            Err(CaptureError::MalformedLine { index }) => index < lines.len(),
            Err(_) => false,
        },
{
    let mut read: Vec<Option<Entry>> = Vec::new();
    let mut index: usize = 0;
    while index < lines.len()
        invariant
            index <= lines.len(),
            read.len() == index,
        decreases lines.len() - index,
    {
        read.push(read_line(lines[index].as_str()));
        index = index + 1;
    }
    let ghost read_lines = reading_views(read@);
    let parsed = gather_entries(read);
    proof {
        lemma_first_unread(read_lines);
        assert(read_lines.len() == lines.len());
        if parsed is Ok {
            assert(entry_views(parsed->Ok_0@).len() == read_lines.len());
        }
        assert(gathered(read_lines) == match parsed {
            Ok(entries) => Ok::<Seq<EntryView>, CaptureError>(entry_views(entries@)),
            Err(error) => Err(error),
        });
    }
    parsed
}

} // verus!

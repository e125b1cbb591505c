//! The index of a library: the text that records, for each file of the
//! library, its hash and where it lies.
//!
//! The text begins with a version number, goes on with a line that holds
//! [`CONTENT_SENTINEL`], and has one line for each file after that: the 64
//! hexadecimal digits of the hash, a space, and the path of the file below
//! the library's root.

use crate::hash::{all_hex, hex_of, parse_hash, unhex, FileHash, HASH_LENGTH};
use crate::text::{
    all_digits, chars_of, decimal, decimal_text, decimal_value, digit_value, find, find_first,
    find_line_end, is_digit, lemma_find_from, lemma_lines_of_part, lines, lines_in, occurs_at,
    string_of, trim, trim_range,
};
use vstd::prelude::*;
use vstd::string::StringExecFns;

verus! {

/// What parts the version of an index from its records.
pub const CONTENT_SENTINEL: &'static str = "--START-CONTENT--";

/// The newest version of the index that is read.
pub const SUPPORTED_VERSION_MAX: u16 = 1;

/// The version of the index that is written.
pub const CURRENT_VERSION: u16 = 1;

/// The characters of [`CONTENT_SENTINEL`].
pub open spec fn sentinel() -> Seq<char> {
    CONTENT_SENTINEL@
}

/// What is wrong with an index that cannot be read as one.
#[derive(Debug, Clone, Copy, PartialEq, Eq)]
pub enum Corruption {
    /// The text does not hold [`CONTENT_SENTINEL`].
    MissingSentinel,
    /// What stands before the sentinel is not a number of 16 bits.
    BadVersion,
    /// The record on line `line`, counted from 0 behind the sentinel, does not
    /// begin with the 64 hexadecimal digits of a hash.
    BadEntry { line: usize },
}

/// Why an index was not loaded.
#[derive(Debug, Clone, Copy, PartialEq, Eq)]
pub enum IndexError {
    /// The text is no index.
    Corrupt(Corruption),
    /// The index was written in a version newer than
    /// [`SUPPORTED_VERSION_MAX`].
    UnsupportedVersion { found: u16 },
}

/// A record of the index as the contracts see it.
pub struct Entry {
    /// The bytes of the hash.
    pub hash: Seq<u8>,
    /// The path below the library's root.
    pub path: Seq<char>,
}

/// A file of the library: its hash, and where it lies below the library's
/// root.
#[derive(Debug)]
pub struct LibraryFile {
    pub hash: FileHash,
    pub path_in_library: String,
}

impl View for LibraryFile {
    type V = Entry;

    open spec fn view(&self) -> Entry {
        Entry { hash: self.hash@, path: self.path_in_library@ }
    }
}

impl LibraryFile {
    /// The file in one line: the text form of its hash, a space, and its
    /// path.
    pub fn describe(&self) -> (line: String)
        ensures
            line@ == hex_of(self@.hash) + seq![' '] + self@.path,
    {
        let mut line = self.hash.encode();
        line.push(' ');
        line.append(self.path_in_library.as_str());
        line
    }
}

/// The records that `files` stand for.
pub open spec fn entries_of(files: Seq<LibraryFile>) -> Seq<Entry> {
    Seq::new(files.len(), |i: int| files[i]@)
}

/// The version that `s` states: decimal digits, after a plus sign or none,
/// that stand for a number of 16 bits.
pub open spec fn parse_version(s: Seq<char>) -> Option<u16> {
    if s.len() > 0 && s[0] == '+' {
        number_of(s.subrange(1, s.len() as int))
    } else {
        number_of(s)
    }
}

/// The number of 16 bits that the decimal digits `digits` stand for.
pub open spec fn number_of(digits: Seq<char>) -> Option<u16> {
    if digits.len() > 0 && all_digits(digits) && decimal_value(digits) <= u16::MAX {
        Some(decimal_value(digits) as u16)
    } else {
        None
    }
}

/// The record that `line` states: the hash that its first 64 characters are
/// the text form of, and as path what follows them, without the white space
/// on both sides.
pub open spec fn parse_entry(line: Seq<char>) -> Option<Entry> {
    if line.len() >= HASH_LENGTH && all_hex(line.subrange(0, HASH_LENGTH as int)) {
        Some(
            Entry {
                hash: unhex(line.subrange(0, HASH_LENGTH as int)),
                path: trim(line.subrange(HASH_LENGTH as int, line.len() as int)),
            },
        )
    } else {
        None
    }
}

/// Whether line `i` is the first of `lines` that states no record.
pub open spec fn is_first_bad_line(lines: Seq<Seq<char>>, i: int) -> bool {
    &&& 0 <= i < lines.len()
    &&& parse_entry(lines[i]) is None
    &&& forall|j: int| 0 <= j < i ==> parse_entry(#[trigger] lines[j]) is Some
}

/// The records that `lines` state, or the first line that states none.
pub open spec fn parse_lines(lines: Seq<Seq<char>>) -> Result<Seq<Entry>, IndexError> {
    if forall|i: int| 0 <= i < lines.len() ==> parse_entry(#[trigger] lines[i]) is Some {
        Ok(Seq::new(lines.len(), |i: int| parse_entry(lines[i])->0))
    } else {
        let bad = choose|i: int| is_first_bad_line(lines, i);
        Err(IndexError::Corrupt(Corruption::BadEntry { line: bad as usize }))
    }
}

/// What loading the index `text` gives.
///
/// The version is what stands before the first [`CONTENT_SENTINEL`], the
/// records are the lines of what stands behind it, both without the white
/// space around them.
pub open spec fn parse_index(text: Seq<char>) -> Result<Seq<Entry>, IndexError> {
    match find(text, sentinel()) {
        None => Err(IndexError::Corrupt(Corruption::MissingSentinel)),
        Some(at) => {
            let header = text.subrange(0, at);
            let body = text.subrange(at + sentinel().len(), text.len() as int);
            match parse_version(trim(header)) {
                None => Err(IndexError::Corrupt(Corruption::BadVersion)),
                Some(version) => if version > SUPPORTED_VERSION_MAX {
                    Err(IndexError::UnsupportedVersion { found: version })
                } else {
                    parse_lines(lines(trim(body)))
                },
            }
        },
    }
}

/// The line of the index that records `entry`.
pub open spec fn render_entry(entry: Entry) -> Seq<char> {
    hex_of(entry.hash) + seq![' '] + entry.path + seq!['\n']
}

/// The lines of the index that record `entries`, in their order.
pub open spec fn render_entries(entries: Seq<Entry>) -> Seq<char>
    decreases entries.len(),
{
    if entries.len() == 0 {
        seq![]
    } else {
        render_entries(entries.drop_last()) + render_entry(entries.last())
    }
}

/// The index that records `entries`.
pub open spec fn render_index(entries: Seq<Entry>) -> Seq<char> {
    decimal(CURRENT_VERSION as nat) + seq!['\n'] + sentinel() + seq!['\n'] + render_entries(
        entries,
    )
}

/// The version that an index states: what stands before its sentinel.
pub open spec fn stated_version(text: Seq<char>) -> Option<u16> {
    match find(text, sentinel()) {
        Some(at) => parse_version(trim(text.subrange(0, at))),
        None => None,
    }
}

/// The lines of an index that are to state its records: what stands behind
/// its sentinel.
pub open spec fn record_lines_of(text: Seq<char>) -> Seq<Seq<char>> {
    match find(text, sentinel()) {
        Some(at) => lines(trim(text.subrange(at + sentinel().len(), text.len() as int))),
        None => seq![],
    }
}

/// An index of a version above [`SUPPORTED_VERSION_MAX`] is refused for its
/// version, whatever its records are, and nothing of it is loaded.
pub proof fn newer_version_is_refused(text: Seq<char>, version: u16)
    requires
        stated_version(text) == Some(version),
        version > SUPPORTED_VERSION_MAX,
    ensures
        parse_index(text) == Err::<Seq<Entry>, IndexError>(
            IndexError::UnsupportedVersion { found: version },
        ),
{
}

/// A text in which [`CONTENT_SENTINEL`] stands nowhere is a corrupt index.
pub proof fn index_without_sentinel_is_corrupt(text: Seq<char>)
    requires
        forall|at: int| !occurs_at(text, sentinel(), at),
    ensures
        parse_index(text) == Err::<Seq<Entry>, IndexError>(
            IndexError::Corrupt(Corruption::MissingSentinel),
        ),
{
    lemma_find_from(text, sentinel(), 0);
}

/// An index of a version that is read, with a line among its records that
/// does not begin with the 64 hexadecimal digits of a hash, is corrupt: the
/// first such line is named, and nothing is loaded.
pub proof fn index_with_bad_record_is_corrupt(text: Seq<char>, version: u16, line: int)
    requires
        stated_version(text) == Some(version),
        version <= SUPPORTED_VERSION_MAX,
        0 <= line < record_lines_of(text).len(),
        record_lines_of(text)[line].len() < HASH_LENGTH || !all_hex(
            record_lines_of(text)[line].subrange(0, HASH_LENGTH as int),
        ),
    ensures
        exists|first: int|
            {
                &&& 0 <= first <= line
                &&& #[trigger] is_first_bad_line(record_lines_of(text), first)
                &&& parse_index(text) == Err::<Seq<Entry>, IndexError>(
                    IndexError::Corrupt(Corruption::BadEntry { line: first as usize }),
                )
            },
{
    let all = record_lines_of(text);
    assert(parse_entry(all[line]) is None);
    lemma_first_bad_line(all, line);
    let first = choose|i: int| is_first_bad_line(all, i);
    assert(is_first_bad_line(all, first));
    assert(first <= line) by {
        if line < first {
            assert(parse_entry(all[line]) is Some);
        }
    }
}

/// Where a line states no record, there is a first such line.
proof fn lemma_first_bad_line(all: Seq<Seq<char>>, line: int)
    requires
        0 <= line < all.len(),
        parse_entry(all[line]) is None,
    ensures
        exists|first: int| is_first_bad_line(all, first),
    decreases line,
{
    if forall|j: int| 0 <= j < line ==> parse_entry(#[trigger] all[j]) is Some {
        assert(is_first_bad_line(all, line));
    } else {
        let earlier = choose|j: int| 0 <= j < line && parse_entry(#[trigger] all[j]) is None;
        lemma_first_bad_line(all, earlier);
    }
}

/// The version that the characters of `chars` between `from` and `to` state.
fn read_version(chars: &Vec<char>, from: usize, to: usize) -> (version: Option<u16>)
    requires
        from <= to <= chars.len(),
    ensures
        version == parse_version(chars@.subrange(from as int, to as int)),
{
    let ghost stated = chars@.subrange(from as int, to as int);
    let mut at: usize = from;
    if at < to && chars[at] == '+' {
        at += 1;
    }
    let start: usize = at;
    let ghost digits = chars@.subrange(start as int, to as int);
    assert(digits =~= if stated.len() > 0 && stated[0] == '+' {
        stated.subrange(1, stated.len() as int)
    } else {
        stated
    });
    assert(parse_version(stated) == number_of(digits));
    if at == to {
        return None;
    }
    // `value` is the number read so far, or 65536 once that is passed.
    let mut value: u32 = 0;
    while at < to
        invariant
            from <= start <= at <= to <= chars.len(),
            digits == chars@.subrange(start as int, to as int),
            parse_version(chars@.subrange(from as int, to as int)) == number_of(digits),
            all_digits(chars@.subrange(start as int, at as int)),
            value <= 65536,
            value == if decimal_value(chars@.subrange(start as int, at as int)) < 65536 {
                decimal_value(chars@.subrange(start as int, at as int))
            } else {
                65536
            },
        decreases to - at,
    {
        let c = chars[at];
        if c < '0' || c > '9' {
            assert(!is_digit(digits[at - start]));
            return None;
        }
        let code = c as u32;
        assert(code == c as int);
        proof {
            let before = chars@.subrange(start as int, at as int);
            let after = chars@.subrange(start as int, at + 1);
            assert(after.drop_last() =~= before);
            assert(after.last() == chars@[at as int]);
            assert(digit_value(after.last()) == code - 48);
        }
        value = if value > 65535 {
            65536
        } else if value * 10 + (code - 48) > 65535 {
            65536
        } else {
            value * 10 + (code - 48)
        };
        at += 1;
    }
    assert(chars@.subrange(start as int, at as int) =~= digits);
    if value > 65535 {
        None
    } else {
        Some(value as u16)
    }
}

/// Loads the index `content`: the files that its records state, in their
/// order.
///
/// The index is read whole or not at all. It is corrupt where it lacks the
/// sentinel, where no version stands before the sentinel, and where a line
/// behind it does not begin with the 64 hexadecimal digits of a hash; it is
/// refused where its version is above [`SUPPORTED_VERSION_MAX`].
pub fn read_hash_file(content: &str) -> (loaded: Result<Vec<LibraryFile>, IndexError>)
    ensures
        match loaded {
            Ok(files) => parse_index(content@) == Ok::<Seq<Entry>, IndexError>(entries_of(files@)),
            Err(error) => parse_index(content@) == Err::<Seq<Entry>, IndexError>(error),
        },
{
    let chars = chars_of(content);
    let mark = chars_of(CONTENT_SENTINEL);
    let at = match find_first(&chars, &mark) {
        Some(at) => at,
        None => {
            return Err(IndexError::Corrupt(Corruption::MissingSentinel));
        },
    };
    let (version_from, version_to) = trim_range(&chars, 0, at);
    let version = match read_version(&chars, version_from, version_to) {
        Some(version) => version,
        None => {
            return Err(IndexError::Corrupt(Corruption::BadVersion));
        },
    };
    if version > SUPPORTED_VERSION_MAX {
        return Err(IndexError::UnsupportedVersion { found: version });
    }
    let (body_from, body_to) = trim_range(&chars, at + mark.len(), chars.len());
    let ghost all_lines = lines_in(chars@, body_from as int, body_to as int);
    proof {
        lemma_lines_of_part(chars@, body_from as int, body_to as int, body_from as int);
        assert(parse_index(content@) == parse_lines(all_lines));
    }
    let mut files: Vec<LibraryFile> = Vec::new();
    let mut from: usize = body_from;
    while from < body_to
        invariant
            body_from <= from <= body_to <= chars.len(),
            files.len() <= all_lines.len(),
            all_lines.skip(files.len() as int) == lines_in(chars@, from as int, body_to as int),
            forall|i: int|
                0 <= i < files.len() ==> parse_entry(#[trigger] all_lines[i]) == Some(files[i]@),
            parse_index(content@) == parse_lines(all_lines),
        decreases body_to - from,
    {
        let end = find_line_end(&chars, from, body_to);
        let ghost line = chars@.subrange(from as int, end as int);
        proof {
            assert(all_lines.skip(files.len() as int).len() >= 1);
            assert(files.len() < all_lines.len());
            assert(all_lines.skip(files.len() as int)[0] == line);
            assert(all_lines[files.len() as int] == line);
            assert(all_lines.skip(files.len() + 1) =~= all_lines.skip(files.len() as int).skip(1));
            assert(all_lines.skip(files.len() as int).skip(1) =~= lines_in(
                chars@,
                end + 1,
                body_to as int,
            ));
        }
        if end - from < HASH_LENGTH {
            proof {
                assert(is_first_bad_line(all_lines, files.len() as int));
            }
            return Err(IndexError::Corrupt(Corruption::BadEntry { line: files.len() }));
        }
        let digits = string_of(&chars, from, from + HASH_LENGTH);
        assert(digits@ =~= line.subrange(0, HASH_LENGTH as int));
        let hash = match FileHash::decode(digits.as_str()) {
            Ok(hash) => hash,
            Err(_) => {
                proof {
                    assert(parse_hash(digits@) is None);
                    assert(is_first_bad_line(all_lines, files.len() as int));
                }
                return Err(IndexError::Corrupt(Corruption::BadEntry { line: files.len() }));
            },
        };
        let (path_from, path_to) = trim_range(&chars, from + HASH_LENGTH, end);
        let path = string_of(&chars, path_from, path_to);
        assert(chars@.subrange(from + HASH_LENGTH, end as int) =~= line.subrange(
            HASH_LENGTH as int,
            line.len() as int,
        ));
        files.push(LibraryFile { hash, path_in_library: path });
        if end == body_to {
            from = body_to;
        } else {
            from = end + 1;
        }
    }
    proof {
        assert(all_lines.skip(files.len() as int).len() == 0);
        assert(entries_of(files@) =~= Seq::new(
            all_lines.len(),
            |i: int| parse_entry(all_lines[i])->0,
        ));
    }
    Ok(files)
}

/// Writes the index that records `files`, in their order.
pub fn write_hash_file(files: &Vec<LibraryFile>) -> (content: String)
    ensures
        content@ == render_index(entries_of(files@)),
{
    let mut content = decimal_text(CURRENT_VERSION as u64);
    content.push('\n');
    content.append(CONTENT_SENTINEL);
    content.push('\n');
    let ghost head = content@;
    let mut done: usize = 0;
    while done < files.len()
        invariant
            done <= files.len(),
            head == decimal(CURRENT_VERSION as nat) + seq!['\n'] + sentinel() + seq!['\n'],
            content@ == head + render_entries(entries_of(files@).take(done as int)),
        decreases files.len() - done,
    {
        let file = &files[done];
        let digits = file.hash.encode();
        content.append(digits.as_str());
        content.push(' ');
        content.append(file.path_in_library.as_str());
        content.push('\n');
        proof {
            let entries = entries_of(files@);
            assert(entries.take(done + 1).drop_last() =~= entries.take(done as int));
            assert(entries.take(done + 1).last() == file@);
        }
        done += 1;
    }
    assert(entries_of(files@).take(done as int) =~= entries_of(files@));
    content
}

} // verus!

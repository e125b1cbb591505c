//! Where a file goes in the library: the sort policies, and the paths that
//! they lead to.
//!
//! Paths are texts whose parts are set apart by `/`.

use crate::text::{chars_of, decimal, decimal_text, signed_decimal, string_of};
use vstd::prelude::*;
use vstd::string::StringExecFns;

verus! {

/// How a file that is new to the library finds its place in it.
#[derive(Debug, Clone, Copy, PartialEq, Eq, Structural)]
pub enum SortPolicy {
    /// Under the year, the month and the day on which the file was made.
    Date,
    /// In the library's root.
    MoveToRoot,
}

impl Default for SortPolicy {
    fn default() -> (policy: Self)
        ensures
            policy == SortPolicy::MoveToRoot,
    {
        SortPolicy::MoveToRoot
    }
}

/// Where the last part of `path` begins, if `path` ends at `to`.
pub open spec fn name_start(path: Seq<char>, to: int) -> int
    decreases to,
{
    if 0 < to <= path.len() && path[to - 1] != '/' {
        name_start(path, to - 1)
    } else {
        to
    }
}

/// The name of the file that `path` leads to: what follows the last `/`.
/// A path that ends in `/`, `.` or `..`, or is empty, names no file.
pub open spec fn base_name(path: Seq<char>) -> Option<Seq<char>> {
    let name = path.subrange(name_start(path, path.len() as int), path.len() as int);
    if name.len() == 0 || name == seq!['.'] || name == seq!['.', '.'] {
        None
    } else {
        Some(name)
    }
}

/// The path that leads to `child` below `base`.
pub open spec fn join_path(base: Seq<char>, child: Seq<char>) -> Seq<char> {
    if base.len() == 0 || base.last() == '/' {
        base + child
    } else {
        base + seq!['/'] + child
    }
}

/// The directory for the files of one day: the year, the month and the day
/// as decimal numbers without leading zeros.
pub open spec fn date_directory(year: int, month: int, day: int) -> Seq<char> {
    signed_decimal(year) + seq!['/'] + decimal(month as nat) + seq!['/'] + decimal(day as nat)
}

/// The day in which the second `seconds` after the start of 1970 falls, by
/// the Gregorian calendar in UTC, as year, month and day; `None` for a
/// second that the calendar of the `time` crate does not reach.
pub uninterp spec fn utc_date(seconds: int) -> Option<(int, int, int)>;

/// The day in which a time stamp of `seconds` seconds falls.
pub open spec fn date_of(seconds: u64) -> Option<(int, int, int)> {
    if seconds <= i64::MAX {
        utc_date(seconds as int)
    } else {
        None
    }
}

/// Calls `time::OffsetDateTime::from_unix_timestamp`, which gives the time
/// in UTC that lies `seconds` seconds after the start of 1970 or refuses a
/// time beyond its calendar, and reads the year, the month and the day of
/// what it gives.
#[verifier::external_body]
fn civil_date(seconds: i64) -> (date: Option<(i32, u8, u8)>)
    ensures
        match date {
            Some((year, month, day)) => utc_date(seconds as int) == Some(
                (year as int, month as int, day as int),
            ),
            None => utc_date(seconds as int) is None,
        },
{
    match time::OffsetDateTime::from_unix_timestamp(seconds) {
        Ok(at) => Some((at.year(), at.month() as u8, at.day())),
        Err(_) => None,
    }
}

/// [`name_start`] stays within the path, and no `/` follows it.
pub proof fn lemma_name_start(path: Seq<char>, to: int)
    requires
        0 <= to <= path.len(),
    ensures
        0 <= name_start(path, to) <= to,
        forall|i: int| name_start(path, to) <= i < to ==> #[trigger] path[i] != '/',
        name_start(path, to) > 0 ==> path[name_start(path, to) - 1] == '/',
    decreases to,
{
    if 0 < to && path[to - 1] != '/' {
        lemma_name_start(path, to - 1);
    }
}

/// The name of a file holds no `/`: it names no directory on the way.
pub proof fn base_name_is_one_part(path: Seq<char>)
    ensures
        base_name(path) matches Some(name) ==> {
            &&& name.len() > 0
            &&& forall|i: int| 0 <= i < name.len() ==> #[trigger] name[i] != '/'
        },
{
    lemma_name_start(path, path.len() as int);
}

/// The name of the file that `path` leads to.
pub fn file_name(path: &str) -> (name: Option<String>)
    ensures
        match name {
            Some(text) => base_name(path@) == Some(text@),
            None => base_name(path@) is None,
        },
{
    let chars = chars_of(path);
    let mut start: usize = chars.len();
    while start > 0 && chars[start - 1] != '/'
        invariant
            start <= chars.len(),
            name_start(chars@, chars.len() as int) == name_start(chars@, start as int),
        decreases start,
    {
        start -= 1;
    }
    let length = chars.len() - start;
    let ghost name = chars@.subrange(start as int, chars.len() as int);
    proof {
        assert(seq!['.'].len() == 1 && seq!['.'][0] == '.');
        assert(seq!['.', '.'].len() == 2 && seq!['.', '.'][0] == '.' && seq!['.', '.'][1] == '.');
    }
    if length == 0 {
        return None;
    }
    if length == 1 && chars[start] == '.' {
        assert(name =~= seq!['.']);
        return None;
    }
    if length == 2 && chars[start] == '.' && chars[start + 1] == '.' {
        assert(name =~= seq!['.', '.']);
        return None;
    }
    proof {
        if name == seq!['.'] {
            assert(name[0] == '.');
        }
        if name == seq!['.', '.'] {
            assert(name[0] == '.' && name[1] == '.');
        }
    }
    Some(string_of(&chars, start, chars.len()))
}

/// The path that leads to `child` below `base`.
pub fn join(base: &str, child: &str) -> (path: String)
    ensures
        path@ == join_path(base@, child@),
{
    let chars = chars_of(base);
    let mut path = base.to_owned();
    if chars.len() > 0 && chars[chars.len() - 1] != '/' {
        path.push('/');
    }
    path.append(child);
    path
}

/// The directory for the files of the day in which a time stamp of
/// `seconds` seconds falls.
pub fn directory_of_day(seconds: u64) -> (directory: Option<String>)
    ensures
        match directory {
            Some(text) => date_of(seconds) matches Some((year, month, day)) && text@
                == date_directory(year, month, day),
            None => date_of(seconds) is None,
        },
{
    if seconds > i64::MAX as u64 {
        return None;
    }
    match civil_date(seconds as i64) {
        None => None,
        Some((year, month, day)) => {
            let mut text = if year < 0 {
                let mut text = String::new();
                text.push('-');
                let positive = decimal_text((-(year as i64)) as u64);
                text.append(positive.as_str());
                text
            } else {
                decimal_text(year as u64)
            };
            text.push('/');
            let month_text = decimal_text(month as u64);
            text.append(month_text.as_str());
            text.push('/');
            let day_text = decimal_text(day as u64);
            text.append(day_text.as_str());
            Some(text)
        },
    }
}

} // verus!

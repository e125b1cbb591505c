//! Which files of an input directory are candidates for the library: those
//! whose name ends in one of the wanted extensions.

use crate::policy::{base_name, file_name};
use crate::text::{chars_of, string_of, texts_of};
use vstd::prelude::*;

verus! {

/// `text` in lower case, by the rules of Unicode that `str::to_lowercase`
/// follows.
pub uninterp spec fn lowercase(text: Seq<char>) -> Seq<char>;

/// Calls `str::to_lowercase`.
#[verifier::external_body]
fn to_lowercase(text: &str) -> (lower: String)
    ensures
        lower@ == lowercase(text@),
{
    text.to_lowercase()
}

/// The place of the last dot of `name` before `to`, or -1.
pub open spec fn last_dot(name: Seq<char>, to: int) -> int
    decreases to,
{
    if 0 < to <= name.len() {
        if name[to - 1] == '.' {
            to - 1
        } else {
            last_dot(name, to - 1)
        }
    } else {
        -1
    }
}

/// The extension of the file that `path` leads to: what follows the last dot
/// of its name, if the name has a dot that is not its first character.
pub open spec fn extension(path: Seq<char>) -> Option<Seq<char>> {
    match base_name(path) {
        None => None,
        Some(name) => {
            let dot = last_dot(name, name.len() as int);
            if dot <= 0 {
                None
            } else {
                Some(name.subrange(dot + 1, name.len() as int))
            }
        },
    }
}

/// Whether the file that `path` leads to is wanted: its extension, in lower
/// case, is one of `extensions`.
pub open spec fn is_wanted(path: Seq<char>, extensions: Seq<Seq<char>>) -> bool {
    match extension(path) {
        None => false,
        Some(found) => extensions.contains(lowercase(found)),
    }
}

/// The extension of the file that `path` leads to.
pub fn extension_of(path: &str) -> (found: Option<String>)
    ensures
        match found {
            Some(text) => extension(path@) == Some(text@),
            None => extension(path@) is None,
        },
{
    let name = match file_name(path) {
        Some(name) => name,
        None => {
            return None;
        },
    };
    let chars = chars_of(name.as_str());
    let mut at: usize = chars.len();
    while at > 0 && chars[at - 1] != '.'
        invariant
            at <= chars.len(),
            last_dot(chars@, chars.len() as int) == last_dot(chars@, at as int),
        decreases at,
    {
        at -= 1;
    }
    if at <= 1 {
        return None;
    }
    Some(string_of(&chars, at, chars.len()))
}

/// Whether `wanted` holds `text`.
pub fn holds(wanted: &Vec<String>, text: &String) -> (found: bool)
    ensures
        found == texts_of(wanted@).contains(text@),
{
    let mut at: usize = 0;
    while at < wanted.len()
        invariant
            at <= wanted.len(),
            forall|i: int| 0 <= i < at ==> wanted[i]@ != text@,
        decreases wanted.len() - at,
    {
        if wanted[at] == *text {
            assert(texts_of(wanted@)[at as int] == text@);
            return true;
        }
        at += 1;
    }
    false
}

/// The paths among `paths` that lead to wanted files, in their order.
pub fn capture(paths: Vec<String>, extensions: &Vec<String>) -> (captured: Vec<String>)
    ensures
        texts_of(captured@) == texts_of(paths@).filter(
            |path: Seq<char>| is_wanted(path, texts_of(extensions@)),
        ),
{
    let ghost given = texts_of(paths@);
    let ghost wanted = |path: Seq<char>| is_wanted(path, texts_of(extensions@));
    let mut captured: Vec<String> = Vec::new();
    proof {
        reveal(Seq::filter);
    }
    for path in it: paths
        invariant
            given == texts_of(it.seq()),
            wanted == |path: Seq<char>| is_wanted(path, texts_of(extensions@)),
            texts_of(captured@) == given.take(it.index()).filter(wanted),
    {
        proof {
            reveal(Seq::filter);
            assert(given.take(it.index() + 1).drop_last() =~= given.take(it.index()));
            assert(given.take(it.index() + 1).last() == path@);
        }
        let keep = match extension_of(path.as_str()) {
            Some(found) => {
                let lower = to_lowercase(found.as_str());
                holds(extensions, &lower)
            },
            None => false,
        };
        if keep {
            captured.push(path);
        }
    }
    assert(given.take(given.len() as int) =~= given);
    captured
}

} // verus!

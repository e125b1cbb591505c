//! What is written to the index is what is read from it.

use crate::hash::{all_hex, hex_of, is_hex_digit, lemma_unhex_of_hex, unhex, HASH_BYTES, HASH_LENGTH};
use crate::index::{
    parse_entry, parse_index, parse_lines, parse_version, render_entries, render_entry,
    render_index, sentinel, Entry, IndexError, CURRENT_VERSION,
};
use crate::text::{
    all_space, decimal, decimal_value, find, find_from, is_one_line, is_space,
    lemma_lines_of_one_line, lemma_lines_with_one_more, lemma_trim_of_padded, lines, lines_in,
    occurs_at, trim,
};
use vstd::prelude::*;

verus! {

/// Whether the index gives `path` back as it was written: the path has no
/// line feed, and neither begins nor ends with white space.
pub open spec fn is_storable_path(path: Seq<char>) -> bool {
    &&& is_one_line(path)
    &&& path.len() > 0 ==> !is_space(path[0]) && !is_space(path.last())
}

/// Whether the index gives `entry` back as it was written.
pub open spec fn is_storable(entry: Entry) -> bool {
    &&& entry.hash.len() == HASH_BYTES
    &&& is_storable_path(entry.path)
}

/// The line that records `entry`, without its line feed.
spec fn record_line(entry: Entry) -> Seq<char> {
    hex_of(entry.hash) + seq![' '] + entry.path
}

/// The line that records `entry`, without white space at its end.
spec fn trimmed_line(entry: Entry) -> Seq<char> {
    if entry.path.len() == 0 {
        hex_of(entry.hash)
    } else {
        record_line(entry)
    }
}

/// The lines that record `entries`.
spec fn record_lines(entries: Seq<Entry>) -> Seq<Seq<char>> {
    Seq::new(entries.len(), |i: int| record_line(entries[i]))
}

/// The lines that record `entries`, the last without white space at its end.
spec fn stored_lines(entries: Seq<Entry>) -> Seq<Seq<char>> {
    Seq::new(
        entries.len(),
        |i: int|
            if i == entries.len() - 1 {
                trimmed_line(entries[i])
            } else {
                record_line(entries[i])
            },
    )
}

/// `all` with a line feed between each two lines.
spec fn join_lines(all: Seq<Seq<char>>) -> Seq<char>
    decreases all.len(),
{
    if all.len() == 0 {
        seq![]
    } else if all.len() == 1 {
        all[0]
    } else {
        join_lines(all.drop_last()) + seq!['\n'] + all.last()
    }
}

/// A hexadecimal digit is neither white space nor a line feed.
proof fn lemma_hex_digit_is_no_space(c: char)
    requires
        is_hex_digit(c),
    ensures
        !is_space(c),
        c != '\n',
{
}

/// The line of a record is one line that begins with a hexadecimal digit,
/// and it states the record.
proof fn lemma_record_line(entry: Entry)
    requires
        is_storable(entry),
    ensures
        record_line(entry).len() > HASH_LENGTH,
        trimmed_line(entry).len() >= HASH_LENGTH,
        is_one_line(record_line(entry)),
        is_one_line(trimmed_line(entry)),
        !is_space(trimmed_line(entry)[0]),
        !is_space(trimmed_line(entry).last()),
        parse_entry(record_line(entry)) == Some(entry),
        parse_entry(trimmed_line(entry)) == Some(entry),
        record_line(entry) == trimmed_line(entry) + if entry.path.len() == 0 {
            seq![' ']
        } else {
            seq![]
        },
{
    let digits = hex_of(entry.hash);
    let line = record_line(entry);
    let short = trimmed_line(entry);
    lemma_unhex_of_hex(entry.hash);
    assert forall|i: int| 0 <= i < digits.len() implies !is_space(#[trigger] digits[i])
        && digits[i] != '\n' by {
        lemma_hex_digit_is_no_space(digits[i]);
    }
    assert(line.subrange(0, HASH_LENGTH as int) =~= digits);
    assert(short.subrange(0, HASH_LENGTH as int) =~= digits);
    assert(line.subrange(HASH_LENGTH as int, line.len() as int) =~= seq![' '] + entry.path
        + Seq::<char>::empty());
    assert(all_space(seq![' ']));
    lemma_trim_of_padded(seq![' '], entry.path, Seq::<char>::empty());
    assert(is_one_line(line)) by {
        assert forall|i: int| 0 <= i < line.len() implies #[trigger] line[i] != '\n' by {
            if i < HASH_LENGTH {
                assert(line[i] == digits[i]);
            } else if i > HASH_LENGTH {
                assert(line[i] == entry.path[i - HASH_LENGTH - 1]);
            }
        }
    }
    if entry.path.len() == 0 {
        assert(short.subrange(HASH_LENGTH as int, short.len() as int) =~= Seq::<char>::empty()
            + entry.path + Seq::<char>::empty());
        lemma_trim_of_padded(Seq::<char>::empty(), entry.path, Seq::<char>::empty());
        assert(line =~= short + seq![' ']);
        assert(short.last() == digits[HASH_LENGTH - 1]);
    } else {
        assert(line =~= short + Seq::<char>::empty());
        assert(short.last() == entry.path.last());
    }
    assert(short[0] == digits[0]);
}

/// The records as they are written are their lines, joined, and a line feed.
proof fn lemma_rendered_lines(entries: Seq<Entry>)
    requires
        entries.len() > 0,
    ensures
        render_entries(entries) == join_lines(record_lines(entries)) + seq!['\n'],
    decreases entries.len(),
{
    let shorter = entries.drop_last();
    assert(record_lines(entries).drop_last() =~= record_lines(shorter));
    assert(render_entry(entries.last()) =~= record_line(entries.last()) + seq!['\n']);
    if entries.len() == 1 {
        assert(render_entries(shorter) =~= Seq::<char>::empty());
        assert(render_entries(entries) =~= join_lines(record_lines(entries)) + seq!['\n']);
    } else {
        lemma_rendered_lines(shorter);
        assert(render_entries(entries) =~= join_lines(record_lines(entries)) + seq!['\n']);
    }
}

/// Joined lines begin as the first line and end as the last.
proof fn lemma_ends_of_joined_lines(all: Seq<Seq<char>>)
    requires
        all.len() > 0,
        forall|i: int| 0 <= i < all.len() ==> (#[trigger] all[i]).len() > 0,
    ensures
        join_lines(all).len() > 0,
        join_lines(all)[0] == all[0][0],
        join_lines(all).last() == all.last().last(),
    decreases all.len(),
{
    if all.len() > 1 {
        let shorter = all.drop_last();
        assert forall|i: int| 0 <= i < shorter.len() implies (#[trigger] shorter[i]).len() > 0 by {
            assert(shorter[i] == all[i]);
        }
        lemma_ends_of_joined_lines(shorter);
        assert(shorter[0] == all[0]);
    }
}

/// The lines of joined lines are those lines.
proof fn lemma_lines_of_joined_lines(all: Seq<Seq<char>>)
    requires
        all.len() > 0,
        forall|i: int| 0 <= i < all.len() ==> (#[trigger] all[i]).len() > 0 && is_one_line(all[i]),
    ensures
        lines(join_lines(all)) == all,
    decreases all.len(),
{
    if all.len() == 1 {
        lemma_lines_of_one_line(all[0]);
        assert(seq![all[0]] =~= all);
    } else {
        let shorter = all.drop_last();
        assert forall|i: int| 0 <= i < shorter.len() implies (#[trigger] shorter[i]).len() > 0
            && is_one_line(shorter[i]) by {
            assert(shorter[i] == all[i]);
        }
        lemma_lines_of_joined_lines(shorter);
        lemma_ends_of_joined_lines(shorter);
        let before = join_lines(shorter);
        let last = shorter.last();
        assert(last[last.len() - 1] != '\n');
        lemma_lines_with_one_more(before, all.last(), 0);
        assert(shorter.push(all.last()) =~= all);
    }
}

/// The sentinel that follows a version of one digit and a line feed is the
/// first in the text.
proof fn lemma_find_sentinel(rest: Seq<char>)
    ensures
        find(seq!['1', '\n'] + sentinel() + rest, sentinel()) == Some(2int),
{
    reveal_strlit("--START-CONTENT--");
    let mark = sentinel();
    let width = mark.len() as int;
    let text = seq!['1', '\n'] + mark + rest;
    assert(text.subrange(2, 2 + width) =~= mark);
    assert(text.subrange(0, 0 + width)[0] != mark[0]);
    assert(text.subrange(1, 1 + width)[0] != mark[0]);
    assert(find_from(text, mark, 2) == Some(2int));
    assert(find_from(text, mark, 1) == Some(2int));
}

/// The version that is written reads as itself.
proof fn lemma_version_line()
    ensures
        decimal(CURRENT_VERSION as nat) == seq!['1'],
        parse_version(trim(seq!['1', '\n'])) == Some(CURRENT_VERSION),
{
    assert(decimal(CURRENT_VERSION as nat) =~= seq!['1']);
    assert(seq!['1', '\n'] =~= Seq::<char>::empty() + seq!['1'] + seq!['\n']);
    assert(all_space(seq!['\n']));
    lemma_trim_of_padded(Seq::<char>::empty(), seq!['1'], seq!['\n']);
    assert(decimal_value(Seq::<char>::empty()) == 0);
    assert(seq!['1'].drop_last() =~= Seq::<char>::empty());
    assert(seq!['1'].last() == '1');
    assert(decimal_value(seq!['1']) == 1);
}

/// The records that were written for `entries` read as `entries`.
proof fn lemma_records_read_back(entries: Seq<Entry>)
    requires
        forall|i: int| 0 <= i < entries.len() ==> is_storable(#[trigger] entries[i]),
    ensures
        parse_lines(lines(trim(seq!['\n'] + render_entries(entries)))) == Ok::<
            Seq<Entry>,
            IndexError,
        >(entries),
{
    let records = render_entries(entries);
    let body = seq!['\n'] + records;
    assert(all_space(seq!['\n']));
    if entries.len() == 0 {
        assert(body =~= seq!['\n'] + Seq::<char>::empty() + Seq::<char>::empty());
        lemma_trim_of_padded(seq!['\n'], Seq::<char>::empty(), Seq::<char>::empty());
        assert(lines(Seq::<char>::empty()) =~= Seq::<Seq<char>>::empty());
        assert(parse_lines(Seq::<Seq<char>>::empty())->Ok_0 =~= entries);
    } else {
        let stored = stored_lines(entries);
        let last = entries.last();
        let pad = if last.path.len() == 0 {
            seq![' ']
        } else {
            seq![]
        };
        assert forall|i: int| 0 <= i < stored.len() implies (#[trigger] stored[i]).len() > 0
            && is_one_line(stored[i]) && parse_entry(stored[i]) == Some(entries[i]) by {
            lemma_record_line(entries[i]);
        }
        lemma_record_line(entries[0]);
        lemma_record_line(last);
        lemma_rendered_lines(entries);
        lemma_ends_of_joined_lines(stored);
        lemma_lines_of_joined_lines(stored);
        assert(join_lines(record_lines(entries)) =~= join_lines(stored) + pad) by {
            assert(record_lines(entries).drop_last() =~= stored.drop_last());
        }
        assert(all_space(pad + seq!['\n']));
        assert(body =~= seq!['\n'] + join_lines(stored) + (pad + seq!['\n']));
        assert(!is_space(join_lines(stored)[0])) by {
            if entries.len() == 1 {
                assert(stored[0] == trimmed_line(entries[0]));
            } else {
                assert(stored[0] == record_line(entries[0]));
                assert(record_line(entries[0])[0] == trimmed_line(entries[0])[0]);
            }
        }
        assert(stored.last() == trimmed_line(last));
        lemma_trim_of_padded(seq!['\n'], join_lines(stored), pad + seq!['\n']);
        assert(parse_lines(stored)->Ok_0 =~= entries);
    }
}

/// An index that was written for `entries` loads as `entries`, if each of
/// them has a hash of 32 bytes and a path without line feed that neither
/// begins nor ends with white space.
pub proof fn load_inverts_persist(entries: Seq<Entry>)
    requires
        forall|i: int| 0 <= i < entries.len() ==> is_storable(#[trigger] entries[i]),
    ensures
        parse_index(render_index(entries)) == Ok::<Seq<Entry>, IndexError>(entries),
{
    let mark = sentinel();
    let records = render_entries(entries);
    let rest = seq!['\n'] + records;
    let text = seq!['1', '\n'] + mark + rest;
    lemma_version_line();
    lemma_find_sentinel(rest);
    lemma_records_read_back(entries);
    assert(render_index(entries) =~= text);
    assert(text.subrange(0, 2) =~= seq!['1', '\n']);
    assert(text.subrange(2 + mark.len() as int, text.len() as int) =~= rest);
}

} // verus!

//! Sequences of characters: white space, trimming, searching, decimal
//! numbers, and the passage between strings and vectors of characters.

use vstd::prelude::*;
use vstd::std_specs::iter::IteratorSpec;

verus! {

/// `String::push` puts one character at the end of the string.
pub assume_specification[ String::push ](text: &mut String, c: char)
    ensures
        final(text)@ == old(text)@.push(c),
;

/// Whether `c` is white space: a character that Unicode marks as
/// `White_Space`.
pub open spec fn is_space(c: char) -> bool {
    let code = c as u32;
    ||| 0x09 <= code <= 0x0d
    ||| code == 0x20
    ||| code == 0x85
    ||| code == 0xa0
    ||| code == 0x1680
    ||| 0x2000 <= code <= 0x200a
    ||| code == 0x2028
    ||| code == 0x2029
    ||| code == 0x202f
    ||| code == 0x205f
    ||| code == 0x3000
}

/// Tells white space from other characters.
pub fn char_is_space(c: char) -> (space: bool)
    ensures
        space == is_space(c),
{
    let code = c as u32;
    (0x09 <= code && code <= 0x0d) || code == 0x20 || code == 0x85 || code == 0xa0 || code
        == 0x1680 || (0x2000 <= code && code <= 0x200a) || code == 0x2028 || code == 0x2029 || code
        == 0x202f || code == 0x205f || code == 0x3000
}

/// The place of the first character of `s` between `from` and `to` that is no
/// white space; `to` if there is none.
pub open spec fn skip_space(s: Seq<char>, from: int, to: int) -> int
    decreases to - from,
{
    if 0 <= from < to <= s.len() && is_space(s[from]) {
        skip_space(s, from + 1, to)
    } else {
        from
    }
}

/// The place behind the last character of `s` between `from` and `to` that is
/// no white space; `from` if there is none.
pub open spec fn skip_space_back(s: Seq<char>, from: int, to: int) -> int
    decreases to - from,
{
    if 0 <= from < to <= s.len() && is_space(s[to - 1]) {
        skip_space_back(s, from, to - 1)
    } else {
        to
    }
}

/// Where the part of `s` between `from` and `to` begins and ends once the
/// white space on both sides is left out.
pub open spec fn trim_window(s: Seq<char>, from: int, to: int) -> (int, int) {
    let begin = skip_space(s, from, to);
    (begin, skip_space_back(s, begin, to))
}

/// `s` without the white space at its beginning and at its end.
pub open spec fn trim(s: Seq<char>) -> Seq<char> {
    let (begin, end) = trim_window(s, 0, s.len() as int);
    s.subrange(begin, end)
}

/// Whether `pattern` stands in `s` at place `at`.
pub open spec fn occurs_at(s: Seq<char>, pattern: Seq<char>, at: int) -> bool {
    &&& 0 <= at
    &&& at + pattern.len() <= s.len()
    &&& s.subrange(at, at + pattern.len()) == pattern
}

/// The first place at or after `from` where `pattern` stands in `s`.
pub open spec fn find_from(s: Seq<char>, pattern: Seq<char>, from: int) -> Option<int>
    decreases s.len() + 1 - from,
{
    if from < 0 || from + pattern.len() > s.len() {
        None
    } else if occurs_at(s, pattern, from) {
        Some(from)
    } else {
        find_from(s, pattern, from + 1)
    }
}

/// The first place where `pattern` stands in `s`.
pub open spec fn find(s: Seq<char>, pattern: Seq<char>) -> Option<int> {
    find_from(s, pattern, 0)
}

/// The place of the first line feed of `s` between `from` and `to`; `to` if
/// there is none.
pub open spec fn line_end(s: Seq<char>, from: int, to: int) -> int
    decreases to - from,
{
    if 0 <= from < to <= s.len() && s[from] != '\n' {
        line_end(s, from + 1, to)
    } else {
        from
    }
}

/// The lines of the part of `s` between `from` and `to`. A line ends at a
/// line feed, which is no part of it, or at `to`; after the last line feed
/// there is a line only if characters follow it.
pub open spec fn lines_in(s: Seq<char>, from: int, to: int) -> Seq<Seq<char>>
    decreases to + 1 - from,
{
    if 0 <= from < to <= s.len() {
        let end = line_end(s, from, to);
        proof {
            lemma_line_end(s, from, to);
        }
        seq![s.subrange(from, end)] + lines_in(s, end + 1, to)
    } else {
        seq![]
    }
}

/// The lines of `s`.
pub open spec fn lines(s: Seq<char>) -> Seq<Seq<char>> {
    lines_in(s, 0, s.len() as int)
}

/// Whether `c` is a decimal digit.
pub open spec fn is_digit(c: char) -> bool {
    '0' <= c <= '9'
}

/// The value of the decimal digit `c`.
pub open spec fn digit_value(c: char) -> int {
    c as int - '0' as int
}

/// The decimal digit of value `d`.
pub open spec fn digit_char(d: int) -> char {
    ('0' as int + d) as char
}

/// Whether `s` is made of decimal digits only.
pub open spec fn all_digits(s: Seq<char>) -> bool {
    forall|i: int| 0 <= i < s.len() ==> is_digit(#[trigger] s[i])
}

/// The number that the decimal digits `s` stand for.
pub open spec fn decimal_value(s: Seq<char>) -> nat
    decreases s.len(),
{
    if s.len() == 0 {
        0
    } else {
        (10 * decimal_value(s.drop_last()) + digit_value(s.last())) as nat
    }
}

/// `n` written in decimal digits, without leading zeros.
pub open spec fn decimal(n: nat) -> Seq<char>
    decreases n,
{
    if n < 10 {
        seq![digit_char(n as int)]
    } else {
        decimal(n / 10).push(digit_char(n as int % 10))
    }
}

/// `n` written in decimal digits, behind a minus sign if it is negative.
pub open spec fn signed_decimal(n: int) -> Seq<char> {
    if n < 0 {
        seq!['-'] + decimal((-n) as nat)
    } else {
        decimal(n as nat)
    }
}

/// The texts that `strings` hold.
pub open spec fn texts_of(strings: Seq<String>) -> Seq<Seq<char>> {
    Seq::new(strings.len(), |i: int| strings[i]@)
}

/// Whether `s` is made of white space only.
pub open spec fn all_space(s: Seq<char>) -> bool {
    forall|i: int| 0 <= i < s.len() ==> is_space(#[trigger] s[i])
}

/// Whether no line feed stands in `s`.
pub open spec fn is_one_line(s: Seq<char>) -> bool {
    forall|i: int| 0 <= i < s.len() ==> #[trigger] s[i] != '\n'
}

/// What [`skip_space`] passes over is white space, and where it stops is none.
pub proof fn lemma_skip_space(s: Seq<char>, from: int, to: int)
    requires
        0 <= from <= to <= s.len(),
    ensures
        from <= skip_space(s, from, to) <= to,
        forall|i: int| from <= i < skip_space(s, from, to) ==> is_space(#[trigger] s[i]),
        skip_space(s, from, to) < to ==> !is_space(s[skip_space(s, from, to)]),
    decreases to - from,
{
    if from < to && is_space(s[from]) {
        lemma_skip_space(s, from + 1, to);
    }
}

/// What [`skip_space_back`] passes over is white space, and the character
/// before the place where it stops is none.
pub proof fn lemma_skip_space_back(s: Seq<char>, from: int, to: int)
    requires
        0 <= from <= to <= s.len(),
    ensures
        from <= skip_space_back(s, from, to) <= to,
        forall|i: int| skip_space_back(s, from, to) <= i < to ==> is_space(#[trigger] s[i]),
        from < skip_space_back(s, from, to) ==> !is_space(s[skip_space_back(s, from, to) - 1]),
    decreases to - from,
{
    if from < to && is_space(s[to - 1]) {
        lemma_skip_space_back(s, from, to - 1);
    }
}

/// [`skip_space`] on a part of `s` is [`skip_space`] on `s` within that part.
proof fn lemma_skip_space_of_part(s: Seq<char>, from: int, to: int, at: int)
    requires
        0 <= from <= at <= to <= s.len(),
    ensures
        skip_space(s.subrange(from, to), at - from, to - from) + from == skip_space(s, at, to),
    decreases to - at,
{
    let part = s.subrange(from, to);
    if at < to {
        assert(part[at - from] == s[at]);
        if is_space(s[at]) {
            lemma_skip_space_of_part(s, from, to, at + 1);
        }
    }
}

/// [`skip_space_back`] on a part of `s` is [`skip_space_back`] on `s` within
/// that part.
proof fn lemma_skip_space_back_of_part(s: Seq<char>, from: int, to: int, low: int, at: int)
    requires
        0 <= from <= low <= at <= to <= s.len(),
    ensures
        skip_space_back(s.subrange(from, to), low - from, at - from) + from == skip_space_back(
            s,
            low,
            at,
        ),
    decreases at - low,
{
    let part = s.subrange(from, to);
    if low < at {
        assert(part[at - 1 - from] == s[at - 1]);
        if is_space(s[at - 1]) {
            lemma_skip_space_back_of_part(s, from, to, low, at - 1);
        }
    }
}

/// Trimming a part of `s` gives the part of `s` that [`trim_window`] marks.
pub proof fn lemma_trim_of_part(s: Seq<char>, from: int, to: int)
    requires
        0 <= from <= to <= s.len(),
    ensures
        from <= trim_window(s, from, to).0 <= trim_window(s, from, to).1 <= to,
        trim(s.subrange(from, to)) == s.subrange(
            trim_window(s, from, to).0,
            trim_window(s, from, to).1,
        ),
{
    let part = s.subrange(from, to);
    let begin = skip_space(s, from, to);
    lemma_skip_space(s, from, to);
    lemma_skip_space_back(s, begin, to);
    lemma_skip_space_of_part(s, from, to, from);
    lemma_skip_space_back_of_part(s, from, to, begin, to);
    let end = skip_space_back(s, begin, to);
    assert(part.subrange(begin - from, end - from) =~= s.subrange(begin, end));
}

/// A text with white space before it and behind it, and none at its own
/// two ends, is what trimming leaves of the whole.
pub proof fn lemma_trim_of_padded(before: Seq<char>, middle: Seq<char>, after: Seq<char>)
    requires
        all_space(before),
        all_space(after),
        middle.len() > 0 ==> !is_space(middle[0]) && !is_space(middle.last()),
    ensures
        trim(before + middle + after) == middle,
{
    let s = before + middle + after;
    let size = s.len() as int;
    let left = before.len() as int;
    let right = left + middle.len();
    assert forall|i: int| 0 <= i < left implies is_space(#[trigger] s[i]) by {
        assert(s[i] == before[i]);
    }
    assert forall|i: int| right <= i < size implies is_space(#[trigger] s[i]) by {
        assert(s[i] == after[i - right]);
    }
    lemma_skip_space(s, 0, size);
    let begin = skip_space(s, 0, size);
    if middle.len() > 0 {
        assert(s[left] == middle[0]);
        assert(s[right - 1] == middle.last());
        assert(begin == left);
        lemma_skip_space_back(s, begin, size);
        assert(skip_space_back(s, begin, size) == right);
    } else {
        assert(begin == size);
    }
    assert(trim(s) =~= middle);
}

/// What [`find_from`] gives is the first place at or after `from` where the
/// pattern stands.
pub proof fn lemma_find_from(s: Seq<char>, pattern: Seq<char>, from: int)
    requires
        0 <= from,
    ensures
        match find_from(s, pattern, from) {
            Some(at) => {
                &&& from <= at
                &&& occurs_at(s, pattern, at)
                &&& forall|k: int| from <= k < at ==> !occurs_at(s, pattern, k)
            },
            None => forall|k: int| from <= k ==> !occurs_at(s, pattern, k),
        },
    decreases s.len() + 1 - from,
{
    if from + pattern.len() <= s.len() && !occurs_at(s, pattern, from) {
        lemma_find_from(s, pattern, from + 1);
    }
}

/// A stretch without line feed that ends before a line feed, or at `to`, is
/// a line.
pub proof fn lemma_line_end_at(s: Seq<char>, from: int, end: int, to: int)
    requires
        0 <= from <= end <= to <= s.len(),
        forall|i: int| from <= i < end ==> #[trigger] s[i] != '\n',
        end < to ==> s[end] == '\n',
    ensures
        line_end(s, from, to) == end,
{
    lemma_line_end(s, from, to);
}

/// A text without line feed that is not empty is its own single line.
pub proof fn lemma_lines_of_one_line(s: Seq<char>)
    requires
        s.len() > 0,
        is_one_line(s),
    ensures
        lines(s) == seq![s],
{
    let size = s.len() as int;
    lemma_line_end_at(s, 0, size, size);
    assert(s.subrange(0, size) =~= s);
    assert(lines_in(s, size + 1, size) =~= Seq::<Seq<char>>::empty());
    assert(lines(s) =~= seq![s]);
}

/// A line that is put behind a text, after a line feed, is one more line of
/// the whole, if the text did not end in a line feed itself.
pub proof fn lemma_lines_with_one_more(s: Seq<char>, line: Seq<char>, from: int)
    requires
        0 <= from < s.len(),
        s.last() != '\n',
        line.len() > 0,
        is_one_line(line),
    ensures
        lines_in(s + seq!['\n'] + line, from, s.len() as int + 1 + line.len()) == lines_in(
            s,
            from,
            s.len() as int,
        ).push(line),
    decreases s.len() - from,
{
    let whole = s + seq!['\n'] + line;
    let size = whole.len() as int;
    let end = line_end(s, from, s.len() as int);
    lemma_line_end(s, from, s.len() as int);
    assert forall|i: int| from <= i < end implies #[trigger] whole[i] != '\n' by {
        assert(whole[i] == s[i]);
    }
    assert(whole[end] == '\n') by {
        if end < s.len() {
            assert(whole[end] == s[end]);
        }
    }
    lemma_line_end_at(whole, from, end, size);
    assert(whole.subrange(from, end) =~= s.subrange(from, end));
    if end < s.len() {
        assert(end + 1 < s.len()) by {
            if end + 1 == s.len() {
                assert(s.last() == s[end]);
            }
        }
        lemma_lines_with_one_more(s, line, end + 1);
        assert(lines_in(whole, from, size) =~= lines_in(s, from, s.len() as int).push(line));
    } else {
        let start = s.len() as int + 1;
        assert forall|i: int| start <= i < size implies #[trigger] whole[i] != '\n' by {
            assert(whole[i] == line[i - start]);
        }
        lemma_line_end_at(whole, start, size, size);
        assert(whole.subrange(start, size) =~= line);
        assert(lines_in(whole, size + 1, size) =~= Seq::<Seq<char>>::empty());
        assert(lines_in(whole, start, size) =~= seq![line]);
        assert(lines_in(s, start, s.len() as int) =~= Seq::<Seq<char>>::empty());
        assert(lines_in(whole, from, size) =~= lines_in(s, from, s.len() as int).push(line));
    }
}

/// Where a line ends there is a line feed or the end, and no line feed
/// stands before.
pub proof fn lemma_line_end(s: Seq<char>, from: int, to: int)
    requires
        0 <= from <= to <= s.len(),
    ensures
        from <= line_end(s, from, to) <= to,
        forall|i: int| from <= i < line_end(s, from, to) ==> #[trigger] s[i] != '\n',
        line_end(s, from, to) < to ==> s[line_end(s, from, to)] == '\n',
    decreases to - from,
{
    if from < to && s[from] != '\n' {
        lemma_line_end(s, from + 1, to);
    }
}

/// [`line_end`] on a part of `s` is [`line_end`] on `s` within that part.
proof fn lemma_line_end_of_part(s: Seq<char>, from: int, to: int, at: int)
    requires
        0 <= from <= at <= to <= s.len(),
    ensures
        line_end(s.subrange(from, to), at - from, to - from) + from == line_end(s, at, to),
    decreases to - at,
{
    let part = s.subrange(from, to);
    if at < to {
        assert(part[at - from] == s[at]);
        if s[at] != '\n' {
            lemma_line_end_of_part(s, from, to, at + 1);
        }
    }
}

/// The lines of a part of `s` are the lines of `s` within that part.
pub proof fn lemma_lines_of_part(s: Seq<char>, from: int, to: int, at: int)
    requires
        0 <= from <= at <= to + 1,
        to <= s.len(),
    ensures
        lines_in(s.subrange(from, to), at - from, to - from) == lines_in(s, at, to),
    decreases to + 1 - at,
{
    let part = s.subrange(from, to);
    if at < to {
        let end = line_end(s, at, to);
        lemma_line_end(s, at, to);
        lemma_line_end_of_part(s, from, to, at);
        lemma_lines_of_part(s, from, to, end + 1);
        assert(part.subrange(at - from, end - from) =~= s.subrange(at, end));
    }
}

/// The characters of `text`, in a vector.
pub fn chars_of(text: &str) -> (chars: Vec<char>)
    ensures
        chars@ == text@,
{
    let mut chars: Vec<char> = Vec::new();
    for c in it: text.chars()
        invariant
            chars@ == it.seq().take(it.index()),
            it.seq() == text@,
    {
        chars.push(c);
    }
    chars
}

/// The characters of `chars` from `from` up to `to`, as a string.
pub fn string_of(chars: &Vec<char>, from: usize, to: usize) -> (text: String)
    requires
        from <= to <= chars.len(),
    ensures
        text@ == chars@.subrange(from as int, to as int),
{
    let mut text = String::new();
    let mut at: usize = from;
    while at < to
        invariant
            from <= at <= to <= chars.len(),
            text@ == chars@.subrange(from as int, at as int),
        decreases to - at,
    {
        text.push(chars[at]);
        at += 1;
    }
    text
}

/// Where the part of `chars` between `from` and `to` begins and ends once
/// the white space on both sides is left out.
pub fn trim_range(chars: &Vec<char>, from: usize, to: usize) -> (window: (usize, usize))
    requires
        from <= to <= chars.len(),
    ensures
        from <= window.0 <= window.1 <= to,
        (window.0 as int, window.1 as int) == trim_window(chars@, from as int, to as int),
        chars@.subrange(window.0 as int, window.1 as int) == trim(
            chars@.subrange(from as int, to as int),
        ),
{
    let mut begin: usize = from;
    while begin < to && char_is_space(chars[begin])
        invariant
            from <= begin <= to <= chars.len(),
            skip_space(chars@, from as int, to as int) == skip_space(
                chars@,
                begin as int,
                to as int,
            ),
        decreases to - begin,
    {
        begin += 1;
    }
    let mut end: usize = to;
    while begin < end && char_is_space(chars[end - 1])
        invariant
            begin <= end <= to <= chars.len(),
            skip_space_back(chars@, begin as int, to as int) == skip_space_back(
                chars@,
                begin as int,
                end as int,
            ),
        decreases end - begin,
    {
        end -= 1;
    }
    proof {
        lemma_trim_of_part(chars@, from as int, to as int);
    }
    (begin, end)
}

/// Whether `pattern` stands in `chars` at place `at`.
pub fn stands_at(chars: &Vec<char>, pattern: &Vec<char>, at: usize) -> (found: bool)
    requires
        at + pattern.len() <= chars.len(),
    ensures
        found == occurs_at(chars@, pattern@, at as int),
{
    let mut k: usize = 0;
    while k < pattern.len()
        invariant
            k <= pattern.len(),
            at + pattern.len() <= chars.len(),
            forall|j: int| 0 <= j < k ==> chars@[at + j] == pattern@[j],
        decreases pattern.len() - k,
    {
        if chars[at + k] != pattern[k] {
            assert(chars@.subrange(at as int, at + pattern.len())[k as int] != pattern@[k as int]);
            return false;
        }
        k += 1;
    }
    assert(chars@.subrange(at as int, at + pattern.len()) =~= pattern@);
    true
}

/// The first place where `pattern` stands in `chars`.
pub fn find_first(chars: &Vec<char>, pattern: &Vec<char>) -> (place: Option<usize>)
    ensures
        match place {
            Some(at) => {
                &&& find(chars@, pattern@) == Some(at as int)
                &&& at + pattern.len() <= chars.len()
            },
            None => find(chars@, pattern@) is None,
        },
{
    if pattern.len() > chars.len() {
        return None;
    }
    let last: usize = chars.len() - pattern.len();
    let mut at: usize = 0;
    while at <= last
        invariant
            last == chars.len() - pattern.len(),
            at <= last,
            find(chars@, pattern@) == find_from(chars@, pattern@, at as int),
        decreases last - at,
    {
        if stands_at(chars, pattern, at) {
            return Some(at);
        }
        if at == last {
            assert(find_from(chars@, pattern@, at + 1) is None);
            return None;
        }
        at += 1;
    }
    None
}

/// The place of the first line feed of `chars` between `from` and `to`; `to`
/// if there is none.
pub fn find_line_end(chars: &Vec<char>, from: usize, to: usize) -> (end: usize)
    requires
        from <= to <= chars.len(),
    ensures
        from <= end <= to,
        end == line_end(chars@, from as int, to as int),
{
    let mut end: usize = from;
    while end < to && chars[end] != '\n'
        invariant
            from <= end <= to <= chars.len(),
            line_end(chars@, from as int, to as int) == line_end(chars@, end as int, to as int),
        decreases to - end,
    {
        end += 1;
    }
    end
}

/// `n` written in decimal digits.
pub fn decimal_text(n: u64) -> (text: String)
    ensures
        text@ == decimal(n as nat),
    decreases n,
{
    if n < 10 {
        let mut text = String::new();
        text.push(digit_of(n));
        assert(text@ =~= decimal(n as nat));
        text
    } else {
        let mut text = decimal_text(n / 10);
        text.push(digit_of(n % 10));
        text
    }
}

/// The decimal digit of value `d`.
fn digit_of(d: u64) -> (c: char)
    requires
        d < 10,
    ensures
        c == digit_char(d as int),
{
    let code: u8 = 48 + d as u8;
    code as char
}

} // verus!

//! Character-level text building: decimal numbers, literal pieces, and the
//! final conversion into a `String`.

use vstd::prelude::*;
use vstd::string::StrSliceExecFns;

verus! {

/// The ASCII digit for `d` in `0..10`.
pub open spec fn digit_char(d: int) -> char {
    if d == 0 {
        '0'
    } else if d == 1 {
        '1'
    } else if d == 2 {
        '2'
    } else if d == 3 {
        '3'
    } else if d == 4 {
        '4'
    } else if d == 5 {
        '5'
    } else if d == 6 {
        '6'
    } else if d == 7 {
        '7'
    } else if d == 8 {
        '8'
    } else {
        '9'
    }
}

/// The decimal digits of `n`, most significant first, without leading zeros.
pub open spec fn digits(n: nat) -> Seq<char>
    decreases n,
{
    if n < 10 {
        seq![digit_char(n as int)]
    } else {
        digits(n / 10).push(digit_char((n % 10) as int))
    }
}

/// The decimal text of `v`, with a leading `-` when negative.
pub open spec fn decimal(v: int) -> Seq<char> {
    if v < 0 {
        seq!['-'] + digits((-v) as nat)
    } else {
        digits(v as nat)
    }
}

fn digit(d: u64) -> (c: char)
    requires
        d < 10,
    ensures
        c == digit_char(d as int),
{
    if d == 0 {
        '0'
    } else if d == 1 {
        '1'
    } else if d == 2 {
        '2'
    } else if d == 3 {
        '3'
    } else if d == 4 {
        '4'
    } else if d == 5 {
        '5'
    } else if d == 6 {
        '6'
    } else if d == 7 {
        '7'
    } else if d == 8 {
        '8'
    } else {
        '9'
    }
}

/// Appends the decimal digits of `n`.
pub fn push_digits(out: &mut Vec<char>, n: u64)
    ensures
        final(out)@ == old(out)@ + digits(n as nat),
    decreases n,
{
    if n >= 10 {
        push_digits(out, n / 10);
    }
    out.push(digit(n % 10));
    proof {
        if n >= 10 {
            assert(digits(n as nat) == digits((n / 10) as nat).push(digit_char((n % 10) as int)));
        }
    }
}

/// Appends the decimal text of `v`.
pub fn push_decimal(out: &mut Vec<char>, v: i64)
    ensures
        final(out)@ == old(out)@ + decimal(v as int),
{
    if v < 0 {
        out.push('-');
        let magnitude: u64 = ((0i128 - v as i128) as u64);
        push_digits(out, magnitude);
        proof {
            assert(old(out)@ + decimal(v as int) == old(out)@ + seq!['-'] + digits(magnitude as nat));
        }
    } else {
        push_digits(out, v as u64);
    }
}

/// Appends the characters of `text`.
pub fn push_str(out: &mut Vec<char>, text: &str)
    ensures
        final(out)@ == old(out)@ + text@,
{
    let length = text.unicode_len();
    let mut index: usize = 0;
    while index < length
        invariant
            length == text@.len(),
            index <= length,
            out@ == old(out)@ + text@.take(index as int),
        decreases length - index,
    {
        out.push(text.get_char(index));
        assert(text@.take(index + 1) == text@.take(index as int).push(text@[index as int]));
        index = index + 1;
    }
    assert(text@.take(length as int) == text@);
}

/// Appends `items`.
pub fn push_chars(out: &mut Vec<char>, items: &Vec<char>)
    ensures
        final(out)@ == old(out)@ + items@,
{
    let mut index: usize = 0;
    while index < items.len()
        invariant
            index <= items.len(),
            out@ == old(out)@ + items@.take(index as int),
        decreases items.len() - index,
    {
        out.push(items[index]);
        assert(items@.take(index + 1) == items@.take(index as int).push(items@[index as int]));
        index = index + 1;
    }
    assert(items@.take(items.len() as int) == items@);
}

/// ASCII lowercase of one character.
pub open spec fn lower_char(c: char) -> char {
    if 'A' <= c && c <= 'Z' {
        ((c as u8) + 32) as char
    } else {
        c
    }
}

/// ASCII lowercase of a text.
pub open spec fn lowercase(text: Seq<char>) -> Seq<char> {
    text.map_values(|c: char| lower_char(c))
}

fn lower(c: char) -> (lowered: char)
    ensures
        lowered == lower_char(c),
{
    if 'A' <= c && c <= 'Z' {
        ((c as u8) + 32) as char
    } else {
        c
    }
}

/// The ASCII lowercase characters of `text`.
pub fn lowercase_chars(text: &Vec<char>) -> (lowered: Vec<char>)
    ensures
        lowered@ == lowercase(text@),
{
    let mut lowered: Vec<char> = Vec::new();
    let mut index: usize = 0;
    while index < text.len()
        invariant
            index <= text.len(),
            lowered@ == lowercase(text@.take(index as int)),
        decreases text.len() - index,
    {
        lowered.push(lower(text[index]));
        assert(lowercase(text@.take(index + 1)) =~= lowercase(text@.take(index as int)).push(
            lower_char(text@[index as int]),
        ));
        index = index + 1;
    }
    assert(text@.take(text.len() as int) =~= text@);
    lowered
}

/// Whether two character sequences are equal.
pub fn same_chars(left: &Vec<char>, right: &Vec<char>) -> (same: bool)
    ensures
        same == (left@ == right@),
{
    if left.len() != right.len() {
        return false;
    }
    let mut index: usize = 0;
    while index < left.len()
        invariant
            index <= left.len(),
            left.len() == right.len(),
            forall|j: int| 0 <= j < index ==> left@[j] == right@[j],
        decreases left.len() - index,
    {
        if left[index] != right[index] {
            return false;
        }
        index = index + 1;
    }
    assert(left@ =~= right@);
    true
}

/// Whether `text` spells `literal`.
pub fn chars_equal_str(text: &Vec<char>, literal: &str) -> (same: bool)
    ensures
        same == (text@ == literal@),
{
    let expected = chars_of(literal);
    same_chars(text, &expected)
}

/// Spaces, tabs and carriage returns.
pub open spec fn is_space(c: char) -> bool {
    c == ' ' || c == '\t' || c == '\r'
}

/// `text` without leading whitespace.
pub open spec fn trim_start(text: Seq<char>) -> Seq<char>
    decreases text.len(),
{
    if text.len() > 0 && is_space(text[0]) {
        trim_start(text.drop_first())
    } else {
        text
    }
}

/// `text` without trailing whitespace.
pub open spec fn trim_end(text: Seq<char>) -> Seq<char>
    decreases text.len(),
{
    if text.len() > 0 && is_space(text.last()) {
        trim_end(text.drop_last())
    } else {
        text
    }
}

/// `text` without surrounding whitespace.
pub open spec fn trim(text: Seq<char>) -> Seq<char> {
    trim_end(trim_start(text))
}

/// Index of the first `c` in `text`, or `text.len()` when there is none.
pub open spec fn find_char(text: Seq<char>, c: char) -> int
    decreases text.len(),
{
    if text.len() == 0 {
        0
    } else if text[0] == c {
        0
    } else {
        1 + find_char(text.drop_first(), c)
    }
}

/// `find_char` gives the first position of `c`, or the length when `c` is
/// absent.
pub proof fn lemma_find_char(text: Seq<char>, c: char)
    ensures
        0 <= find_char(text, c) <= text.len(),
        forall|i: int| 0 <= i < find_char(text, c) ==> text[i] != c,
        find_char(text, c) < text.len() ==> text[find_char(text, c)] == c,
    decreases text.len(),
{
    if text.len() > 0 && text[0] != c {
        lemma_find_char(text.drop_first(), c);
        assert forall|i: int| 0 <= i < find_char(text, c) implies text[i] != c by {
            if i > 0 {
                assert(text[i] == text.drop_first()[i - 1]);
            }
        }
    }
}

/// Searching past a prefix free of `c` finds `c` that much further on.
pub proof fn lemma_find_char_skip(text: Seq<char>, c: char, k: int)
    requires
        0 <= k <= text.len(),
        forall|i: int| 0 <= i < k ==> text[i] != c,
    ensures
        find_char(text, c) == k + find_char(text.skip(k), c),
    decreases k,
{
    if k > 0 {
        lemma_find_char_skip(text.drop_first(), c, k - 1);
        assert(text.drop_first().skip(k - 1) =~= text.skip(k));
    } else {
        assert(text.skip(0) =~= text);
    }
}

/// Position of the first `c` in `text[from..]`, or `text.len()`.
pub fn find_char_from(text: &Vec<char>, c: char) -> (position: usize)
    ensures
        position == find_char(text@, c),
{
    let mut index: usize = 0;
    while index < text.len() && text[index] != c
        invariant
            index <= text.len(),
            forall|i: int| 0 <= i < index ==> text@[i] != c,
        decreases text.len() - index,
    {
        index = index + 1;
    }
    proof {
        lemma_find_char_skip(text@, c, index as int);
        if index < text.len() {
            assert(text@.skip(index as int)[0] == c);
        } else {
            assert(text@.skip(index as int).len() == 0);
        }
    }
    index
}

/// The characters `text[start..end]`.
pub fn slice_chars(text: &Vec<char>, start: usize, end: usize) -> (part: Vec<char>)
    requires
        start <= end <= text.len(),
    ensures
        part@ == text@.subrange(start as int, end as int),
{
    let mut part: Vec<char> = Vec::new();
    let mut index: usize = start;
    while index < end
        invariant
            start <= index <= end,
            end <= text.len(),
            part@ == text@.subrange(start as int, index as int),
        decreases end - index,
    {
        part.push(text[index]);
        assert(text@.subrange(start as int, index + 1) =~= text@.subrange(start as int, index as int).push(
            text@[index as int],
        ));
        index = index + 1;
    }
    part
}

proof fn lemma_trim_start_skip(text: Seq<char>, k: int)
    requires
        0 <= k <= text.len(),
        forall|i: int| 0 <= i < k ==> is_space(#[trigger] text[i]),
    ensures
        trim_start(text) == trim_start(text.skip(k)),
    decreases k,
{
    if k > 0 {
        lemma_trim_start_skip(text.drop_first(), k - 1);
        assert(text.drop_first().skip(k - 1) =~= text.skip(k));
    } else {
        assert(text.skip(0) =~= text);
    }
}

proof fn lemma_trim_end_take(text: Seq<char>, k: int)
    requires
        0 <= k <= text.len(),
        forall|i: int| k <= i < text.len() ==> is_space(#[trigger] text[i]),
    ensures
        trim_end(text) == trim_end(text.take(k)),
    decreases text.len() - k,
{
    if k < text.len() {
        lemma_trim_end_take(text.drop_last(), k);
        assert(text.drop_last().take(k) =~= text.take(k));
    } else {
        assert(text.take(k) =~= text);
    }
}

/// `text` without surrounding whitespace.
pub fn trim_chars(text: &Vec<char>) -> (trimmed: Vec<char>)
    ensures
        trimmed@ == trim(text@),
{
    let mut start: usize = 0;
    while start < text.len() && (text[start] == ' ' || text[start] == '\t' || text[start] == '\r')
        invariant
            start <= text.len(),
            forall|i: int| 0 <= i < start ==> is_space(#[trigger] text@[i]),
        decreases text.len() - start,
    {
        start = start + 1;
    }
    proof {
        lemma_trim_start_skip(text@, start as int);
        if start < text.len() {
            assert(!is_space(text@.skip(start as int)[0]));
        }
        assert(trim_start(text@) == text@.skip(start as int));
    }
    let mut end: usize = text.len();
    while end > start && (text[end - 1] == ' ' || text[end - 1] == '\t' || text[end - 1] == '\r')
        invariant
            start <= end <= text.len(),
            forall|i: int| end <= i < text.len() ==> is_space(#[trigger] text@[i]),
        decreases end - start,
    {
        end = end - 1;
    }
    let trimmed = slice_chars(text, start, end);
    proof {
        let rest = text@.skip(start as int);
        lemma_trim_end_take(rest, end - start);
        assert forall|i: int| end - start <= i < rest.len() implies is_space(#[trigger] rest[i]) by {
            assert(rest[i] == text@[i + start]);
        }
        assert(rest.take(end - start) =~= text@.subrange(start as int, end as int));
        if end > start {
            assert(!is_space(rest.take(end - start).last()));
        }
    }
    trimmed
}

/// ASCII decimal digits.
pub open spec fn is_digit(c: char) -> bool {
    '0' <= c && c <= '9'
}

/// A non-empty run of decimal digits.
pub open spec fn all_digits(text: Seq<char>) -> bool {
    text.len() > 0 && forall|i: int| 0 <= i < text.len() ==> is_digit(#[trigger] text[i])
}

/// The number a run of decimal digits spells.
pub open spec fn digits_value(text: Seq<char>) -> int
    decreases text.len(),
{
    if text.len() == 0 {
        0
    } else {
        10 * digits_value(text.drop_last()) + (text.last() as int - '0' as int)
    }
}

/// The integer `text` spells: optional `-`, then decimal digits.
pub open spec fn integer_value(text: Seq<char>) -> Option<int> {
    if text.len() > 0 && text[0] == '-' {
        if all_digits(text.drop_first()) {
            Some(-digits_value(text.drop_first()))
        } else {
            None
        }
    } else if all_digits(text) {
        Some(digits_value(text))
    } else {
        None
    }
}

/// Magnitudes beyond every range the format uses are read as this bound.
pub const NUMBER_LIMIT: i64 = 0x100_0000_0000;

/// `value` with its magnitude capped at [`NUMBER_LIMIT`].
pub open spec fn capped(value: int) -> int {
    if value > NUMBER_LIMIT {
        NUMBER_LIMIT as int
    } else if value < -NUMBER_LIMIT {
        -NUMBER_LIMIT
    } else {
        value
    }
}

proof fn lemma_digits_nonnegative(text: Seq<char>)
    requires
        forall|i: int| 0 <= i < text.len() ==> is_digit(#[trigger] text[i]),
    ensures
        digits_value(text) >= 0,
    decreases text.len(),
{
    if text.len() > 0 {
        lemma_digits_nonnegative(text.drop_last());
        assert(is_digit(text[text.len() - 1]));
    }
}

fn digits_capped(text: &Vec<char>, start: usize) -> (value: Option<i64>)
    requires
        start <= text.len(),
    ensures
        all_digits(text@.skip(start as int)) ==> value == Some(
            if digits_value(text@.skip(start as int)) > NUMBER_LIMIT {
                NUMBER_LIMIT
            } else {
                digits_value(text@.skip(start as int)) as i64
            },
        ),
        !all_digits(text@.skip(start as int)) ==> value is None,
        value matches Some(v) ==> 0 <= v <= NUMBER_LIMIT,
        all_digits(text@.skip(start as int)) ==> digits_value(text@.skip(start as int)) >= 0,
{
    if start >= text.len() {
        return None;
    }
    let mut value: i64 = 0;
    let mut index: usize = start;
    while index < text.len()
        invariant
            start <= index <= text.len(),
            forall|i: int| start <= i < index ==> is_digit(#[trigger] text@[i]),
            0 <= value <= NUMBER_LIMIT,
            value == (if digits_value(text@.subrange(start as int, index as int)) > NUMBER_LIMIT {
                NUMBER_LIMIT as int
            } else {
                digits_value(text@.subrange(start as int, index as int))
            }),
        decreases text.len() - index,
    {
        let c = text[index];
        if !('0' <= c && c <= '9') {
            assert(!is_digit(text@.skip(start as int)[index - start]));
            return None;
        }
        let d: i64 = (c as u32 - '0' as u32) as i64;
        let ghost prefix = text@.subrange(start as int, index as int);
        assert(text@.subrange(start as int, index + 1).drop_last() =~= prefix);
        proof {
            assert forall|i: int| 0 <= i < prefix.len() implies is_digit(#[trigger] prefix[i]) by {
                assert(prefix[i] == text@[start + i]);
            }
            lemma_digits_nonnegative(prefix);
        }
        if value >= NUMBER_LIMIT {
            value = NUMBER_LIMIT;
        } else {
            let next: i64 = value * 10 + d;
            value = if next > NUMBER_LIMIT { NUMBER_LIMIT } else { next };
        }
        index = index + 1;
    }
    assert(text@.subrange(start as int, text.len() as int) =~= text@.skip(start as int));
    assert forall|i: int| 0 <= i < text@.skip(start as int).len() implies is_digit(
        #[trigger] text@.skip(start as int)[i],
    ) by {
        assert(text@.skip(start as int)[i] == text@[start + i]);
    }
    proof {
        lemma_digits_nonnegative(text@.skip(start as int));
    }
    Some(value)
}

/// The integer `text` spells, with its magnitude capped at [`NUMBER_LIMIT`];
/// `None` when `text` is not an integer.
pub fn parse_integer(text: &Vec<char>) -> (value: Option<i64>)
    ensures
        match integer_value(text@) {
            Some(v) => value == Some(capped(v) as i64),
            None => value is None,
        },
{
    if text.len() > 0 && text[0] == '-' {
        assert(text@.skip(1) =~= text@.drop_first());
        match digits_capped(text, 1) {
            Some(magnitude) => Some(-magnitude),
            None => None,
        }
    } else {
        assert(text@.skip(0) =~= text@);
        digits_capped(text, 0)
    }
}

/// The pieces of `text` between occurrences of `separator` (a trailing
/// separator leaves an empty last piece; no separator leaves `text` whole).
pub open spec fn pieces(text: Seq<char>, separator: char) -> Seq<Seq<char>>
    decreases text.len(),
{
    let k = find_char(text, separator);
    if k < text.len() {
        proof {
            lemma_find_char(text, separator);
        }
        seq![text.take(k)] + pieces(text.skip(k + 1), separator)
    } else {
        seq![text]
    }
}

/// The lines of `text`, split at each newline.
pub open spec fn lines_of(text: Seq<char>) -> Seq<Seq<char>> {
    pieces(text, '\n')
}

/// A piece free of the separator, then the separator, splits off as the
/// first piece.
pub proof fn lemma_pieces_break(piece: Seq<char>, separator: char, rest: Seq<char>)
    requires
        !piece.contains(separator),
    ensures
        pieces(piece + seq![separator] + rest, separator) == seq![piece] + pieces(rest, separator),
{
    let text = piece + seq![separator] + rest;
    assert forall|i: int| 0 <= i < piece.len() implies text[i] != separator by {
        assert(text[i] == piece[i]);
    }
    lemma_find_char_skip(text, separator, piece.len() as int);
    assert(text.skip(piece.len() as int)[0] == separator);
    assert(find_char(text, separator) == piece.len());
    assert(text.take(piece.len() as int) =~= piece);
    assert(text.skip(piece.len() as int + 1) =~= rest);
}

/// A text free of the separator is a single piece.
pub proof fn lemma_pieces_single(piece: Seq<char>, separator: char)
    requires
        !piece.contains(separator),
    ensures
        pieces(piece, separator) == seq![piece],
{
    lemma_find_char(piece, separator);
    if find_char(piece, separator) < piece.len() {
        assert(piece[find_char(piece, separator)] == separator);
    }
}

/// The pieces of `text` between occurrences of `separator`.
pub fn split_at(text: &Vec<char>, separator: char) -> (parts: Vec<Vec<char>>)
    ensures
        parts@.map_values(|part: Vec<char>| part@) == pieces(text@, separator),
{
    let mut parts: Vec<Vec<char>> = Vec::new();
    let mut current: Vec<char> = Vec::new();
    let mut index: usize = 0;
    assert(current@ + text@.skip(0) =~= text@);
    assert(parts@.map_values(|part: Vec<char>| part@) + pieces(text@, separator) =~= pieces(
        text@,
        separator,
    ));
    while index < text.len()
        invariant
            index <= text.len(),
            !current@.contains(separator),
            parts@.map_values(|part: Vec<char>| part@) + pieces(
                current@ + text@.skip(index as int),
                separator,
            ) == pieces(text@, separator),
        decreases text.len() - index,
    {
        let c = text[index];
        let ghost rest = text@.skip(index + 1);
        assert(text@.skip(index as int) =~= seq![c] + rest);
        if c == separator {
            proof {
                assert(current@ + text@.skip(index as int) =~= current@ + seq![separator] + rest);
                lemma_pieces_break(current@, separator, rest);
            }
            let ghost before = parts@;
            let finished = current;
            parts.push(finished);
            current = Vec::new();
            proof {
                let mapped = before.map_values(|part: Vec<char>| part@);
                assert(parts@.map_values(|part: Vec<char>| part@) =~= mapped.push(finished@));
                assert(current@ + rest =~= rest);
                assert(mapped.push(finished@) + pieces(rest, separator) =~= mapped + (seq![
                    finished@,
                ] + pieces(rest, separator)));
            }
        } else {
            let ghost before = current@;
            current.push(c);
            proof {
                assert(current@ + rest =~= before + text@.skip(index as int));
                assert forall|i: int| 0 <= i < current@.len() implies current@[i] != separator by {
                    if i < before.len() {
                        assert(current@[i] == before[i]);
                        assert(before.contains(before[i]));
                    }
                }
            }
        }
        index = index + 1;
    }
    proof {
        assert(current@ + text@.skip(index as int) =~= current@);
        lemma_pieces_single(current@, separator);
    }
    let ghost before = parts@;
    let last = current;
    parts.push(last);
    assert(parts@.map_values(|part: Vec<char>| part@) =~= before.map_values(|part: Vec<char>| part@)
        + seq![last@]);
    parts
}

/// The lines of `text`.
pub fn split_lines(text: &Vec<char>) -> (lines: Vec<Vec<char>>)
    ensures
        lines@.map_values(|line: Vec<char>| line@) == lines_of(text@),
{
    split_at(text, '\n')
}

/// `text` with every whitespace character replaced by a plain space.
pub open spec fn spaced(text: Seq<char>) -> Seq<char> {
    text.map_values(|c: char| if is_space(c) { ' ' } else { c })
}

/// The non-empty entries of `parts`, in order.
pub open spec fn non_empty(parts: Seq<Seq<char>>) -> Seq<Seq<char>>
    decreases parts.len(),
{
    if parts.len() == 0 {
        Seq::empty()
    } else if parts.last().len() > 0 {
        non_empty(parts.drop_last()).push(parts.last())
    } else {
        non_empty(parts.drop_last())
    }
}

/// The whitespace-separated words of `text`.
pub open spec fn words(text: Seq<char>) -> Seq<Seq<char>> {
    non_empty(pieces(spaced(text), ' '))
}

/// The whitespace-separated words of `text`.
pub fn split_words(text: &Vec<char>) -> (found: Vec<Vec<char>>)
    ensures
        found@.map_values(|word: Vec<char>| word@) == words(text@),
{
    let mut plain: Vec<char> = Vec::new();
    let mut index: usize = 0;
    while index < text.len()
        invariant
            index <= text.len(),
            plain@ == spaced(text@.take(index as int)),
        decreases text.len() - index,
    {
        let c = text[index];
        plain.push(if c == ' ' || c == '\t' || c == '\r' { ' ' } else { c });
        assert(spaced(text@.take(index + 1)) =~= spaced(text@.take(index as int)).push(
            if is_space(c) { ' ' } else { c },
        ));
        index = index + 1;
    }
    assert(text@.take(text.len() as int) =~= text@);
    let parts = split_at(&plain, ' ');
    let ghost all = parts@.map_values(|part: Vec<char>| part@);
    let mut found: Vec<Vec<char>> = Vec::new();
    let mut at: usize = 0;
    while at < parts.len()
        invariant
            at <= parts.len(),
            all == parts@.map_values(|part: Vec<char>| part@),
            found@.map_values(|word: Vec<char>| word@) == non_empty(all.take(at as int)),
        decreases parts.len() - at,
    {
        let ghost before = found@;
        assert(all.take(at + 1).drop_last() =~= all.take(at as int));
        if parts[at].len() > 0 {
            let word = slice_chars(&parts[at], 0, parts[at].len());
            assert(word@ =~= all[at as int]);
            found.push(word);
            assert(found@.map_values(|word: Vec<char>| word@) =~= before.map_values(
                |word: Vec<char>| word@,
            ).push(all[at as int]));
        }
        at = at + 1;
    }
    assert(all.take(parts.len() as int) =~= all);
    found
}

/// `parts` joined with `separator` between neighbours.
pub open spec fn joined(parts: Seq<Seq<char>>, separator: Seq<char>) -> Seq<char>
    decreases parts.len(),
{
    if parts.len() == 0 {
        Seq::empty()
    } else if parts.len() == 1 {
        parts[0]
    } else {
        joined(parts.drop_last(), separator) + separator + parts.last()
    }
}

/// Joining one more part appends the separator (unless it is the first part)
/// and the part.
pub proof fn lemma_joined_push(parts: Seq<Seq<char>>, separator: Seq<char>, part: Seq<char>)
    ensures
        joined(parts.push(part), separator) == if parts.len() == 0 {
            part
        } else {
            joined(parts, separator) + separator + part
        },
{
    assert(parts.push(part).drop_last() =~= parts);
    if parts.len() == 0 {
        assert(parts.push(part)[0] == part);
    }
}

/// Collects characters into a `String` (std's `FromIterator<char>`; the
/// string holds exactly the given characters, in order).
#[verifier::external_body]
pub(crate) fn string_from_chars(chars: &Vec<char>) -> (text: String)
    ensures
        text@ == chars@,
{
    chars.iter().collect()
}

/// The characters of a string slice, in order.
pub fn chars_of(text: &str) -> (chars: Vec<char>)
    ensures
        chars@ == text@,
{
    let mut chars: Vec<char> = Vec::new();
    push_str(&mut chars, text);
    chars
}

// ---------------------------------------------------------------------------
// Facts for reading written text back
// ---------------------------------------------------------------------------

/// Splitting at a separator between two texts splits each of them.
pub proof fn lemma_pieces_concat(x: Seq<char>, y: Seq<char>, separator: char)
    ensures
        pieces(x + seq![separator] + y, separator) == pieces(x, separator) + pieces(y, separator),
    decreases x.len(),
{
    let k = find_char(x, separator);
    lemma_find_char(x, separator);
    if k < x.len() {
        let text = x + seq![separator] + y;
        assert forall|i: int| 0 <= i < k implies text[i] != separator by {
            assert(text[i] == x[i]);
        }
        lemma_find_char_skip(text, separator, k);
        assert(text.skip(k)[0] == separator);
        assert(find_char(text, separator) == k);
        assert(text.take(k) =~= x.take(k));
        assert(text.skip(k + 1) =~= x.skip(k + 1) + seq![separator] + y);
        lemma_pieces_concat(x.skip(k + 1), y, separator);
        assert(pieces(x, separator) == seq![x.take(k)] + pieces(x.skip(k + 1), separator));
        assert(pieces(text, separator) =~= pieces(x, separator) + pieces(y, separator));
    } else {
        assert(!x.contains(separator)) by {
            if x.contains(separator) {
                let j = choose|j: int| 0 <= j < x.len() && x[j] == separator;
                assert(x[j] != separator);
            }
        }
        lemma_pieces_break(x, separator, y);
        lemma_pieces_single(x, separator);
    }
}

proof fn lemma_digit_char_value(d: int)
    requires
        0 <= d < 10,
    ensures
        is_digit(digit_char(d)),
        digit_char(d) as int - '0' as int == d,
{
}

/// The digits of `n` are decimal digits that spell `n`.
pub proof fn lemma_digits_spell(n: nat)
    ensures
        all_digits(digits(n)),
        digits_value(digits(n)) == n,
    decreases n,
{
    let d = digits(n);
    if n >= 10 {
        lemma_digits_spell(n / 10);
        lemma_digit_char_value((n % 10) as int);
        assert(d.drop_last() =~= digits(n / 10));
        assert(d.last() == digit_char((n % 10) as int));
        assert forall|i: int| 0 <= i < d.len() implies is_digit(#[trigger] d[i]) by {
            if i < d.len() - 1 {
                assert(d[i] == digits(n / 10)[i]);
            }
        }
        assert(digits_value(d) == 10 * digits_value(digits(n / 10)) + (d.last() as int - '0' as int));
    } else {
        lemma_digit_char_value(n as int);
        assert(d.drop_last() =~= Seq::<char>::empty());
        assert(digits_value(d) == 10 * digits_value(d.drop_last()) + (d.last() as int - '0' as int));
    }
}

/// The decimal text of `v` reads back as `v`.
pub proof fn lemma_decimal_reads_back(v: int)
    ensures
        integer_value(decimal(v)) == Some(v),
        decimal(v).len() > 0,
        is_digit(decimal(v).last()),
        forall|i: int| 0 <= i < decimal(v).len() ==> is_digit(#[trigger] decimal(v)[i]) || (i == 0
            && decimal(v)[i] == '-'),
{
    if v < 0 {
        lemma_digits_spell((-v) as nat);
        let d = decimal(v);
        assert(d.drop_first() =~= digits((-v) as nat));
        assert forall|i: int| 0 <= i < d.len() implies is_digit(#[trigger] d[i]) || (i == 0 && d[i]
            == '-') by {
            if i > 0 {
                assert(d[i] == digits((-v) as nat)[i - 1]);
            }
        }
        assert(d.last() == digits((-v) as nat).last());
    } else {
        lemma_digits_spell(v as nat);
        assert(decimal(v)[0] != '-');
    }
}

/// A text that neither starts nor ends with whitespace is its own trim.
pub proof fn lemma_trim_plain(text: Seq<char>)
    requires
        text.len() > 0 ==> !is_space(text[0]) && !is_space(text.last()),
    ensures
        trim(text) == text,
{
}

/// Spaces around a plain text are trimmed away.
pub proof fn lemma_trim_spaced(text: Seq<char>)
    requires
        text.len() > 0,
        !is_space(text[0]),
        !is_space(text.last()),
    ensures
        trim(seq![' '] + text) == text,
        trim(text + seq![' ']) == text,
{
    let before = seq![' '] + text;
    let after = text + seq![' '];
    assert(before.drop_first() =~= text);
    assert(trim_start(before) == trim_start(before.drop_first()));
    assert(trim_start(text) == text);
    assert(trim_end(text) == text);
    assert(after[0] == text[0]);
    assert(trim_start(after) == after);
    assert(after.drop_last() =~= text);
    assert(after.last() == ' ');
    assert(trim_end(after) == trim_end(after.drop_last()));
}

proof fn lemma_non_empty_concat(a: Seq<Seq<char>>, b: Seq<Seq<char>>)
    ensures
        non_empty(a + b) == non_empty(a) + non_empty(b),
    decreases b.len(),
{
    if b.len() == 0 {
        assert(a + b =~= a);
    } else {
        assert((a + b).drop_last() =~= a + b.drop_last());
        lemma_non_empty_concat(a, b.drop_last());
    }
}

/// Whether `text` holds no whitespace.
pub open spec fn solid(text: Seq<char>) -> bool {
    text.len() > 0 && forall|i: int| 0 <= i < text.len() ==> !is_space(#[trigger] text[i])
}

proof fn lemma_solid_pieces(text: Seq<char>)
    requires
        solid(text),
    ensures
        pieces(text, ' ') == seq![text],
        spaced(text) == text,
{
    assert(!text.contains(' ')) by {
        if text.contains(' ') {
            let j = choose|j: int| 0 <= j < text.len() && text[j] == ' ';
            assert(!is_space(text[j]));
        }
    }
    lemma_pieces_single(text, ' ');
    assert(spaced(text) =~= text);
}

proof fn lemma_non_empty_single(word: Seq<char>)
    ensures
        non_empty(seq![word]) == if word.len() > 0 {
            seq![word]
        } else {
            Seq::<Seq<char>>::empty()
        },
{
    let single = seq![word];
    assert(single.drop_last() =~= Seq::<Seq<char>>::empty());
    assert(single.last() == word);
    assert(non_empty(single.drop_last()) == Seq::<Seq<char>>::empty());
    assert(Seq::<Seq<char>>::empty().push(word) =~= single);
}

/// The words of `first`, a space, and `rest`.
pub proof fn lemma_words_front(first: Seq<char>, rest: Seq<char>)
    requires
        solid(first),
    ensures
        words(first + seq![' '] + rest) == seq![first] + words(rest),
{
    let text = first + seq![' '] + rest;
    assert(spaced(text) =~= spaced(first) + seq![' '] + spaced(rest));
    lemma_solid_pieces(first);
    lemma_pieces_concat(spaced(first), spaced(rest), ' ');
    assert(pieces(spaced(text), ' ') == seq![first] + pieces(spaced(rest), ' '));
    lemma_non_empty_concat(seq![first], pieces(spaced(rest), ' '));
    lemma_non_empty_single(first);
}

/// The words of a space and `rest`.
pub proof fn lemma_words_space(rest: Seq<char>)
    ensures
        words(seq![' '] + rest) == words(rest),
{
    let empty = Seq::<char>::empty();
    let text = seq![' '] + rest;
    assert(spaced(text) =~= spaced(empty) + seq![' '] + spaced(rest));
    assert(spaced(empty) =~= empty);
    lemma_pieces_concat(empty, spaced(rest), ' ');
    lemma_pieces_single(empty, ' ');
    assert(pieces(spaced(text), ' ') == seq![empty] + pieces(spaced(rest), ' '));
    lemma_non_empty_concat(seq![empty], pieces(spaced(rest), ' '));
    lemma_non_empty_single(empty);
    assert(Seq::<Seq<char>>::empty() + non_empty(pieces(spaced(rest), ' ')) =~= non_empty(
        pieces(spaced(rest), ' '),
    ));
}

/// The words of a single solid word.
pub proof fn lemma_words_single(word: Seq<char>)
    requires
        solid(word),
    ensures
        words(word) == seq![word],
{
    lemma_solid_pieces(word);
    lemma_non_empty_single(word);
}

/// No words in an empty text.
pub proof fn lemma_words_empty()
    ensures
        words(Seq::empty()) == Seq::<Seq<char>>::empty(),
{
    let empty = Seq::<char>::empty();
    assert(spaced(empty) =~= empty);
    lemma_pieces_single(empty, ' ');
    lemma_non_empty_single(empty);
}

} // verus!

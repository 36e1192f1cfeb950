// Calibration rows: the number of a row is made of its first and its last
// digit, and the answer is the sum over the rows of a text.

use vstd::prelude::*;
use vstd::string::{StringSliceAdditionalSpecFns, is_ascii_spec_bytes};
use crate::text::{Class, has_at, is_digit, lines, split_lines, starts_at, texts};

verus! {

/// The two ways of reading a row: by its digits alone, or by its digits
/// other than `0` and the names of the digits.
pub enum Reading {
    /// Only the digits `0` to `9` count.
    Digits,
    /// The digits `1` to `9` and the names `one` to `nine` count.
    Words,
}

/// The value that stands at `i`, read in the given way, if one does.
pub open spec fn token_at(how: Reading, s: Seq<u8>, i: int) -> Option<u32> {
    match how {
        Reading::Digits => digit_at(s, i),
        Reading::Words => word_at(s, i),
    }
}

/// The first value that stands in `s` at `pos` or after it.
pub open spec fn first_token(
    s: Seq<u8>,
    pos: int,
    how: Reading,
) -> Option<u32>
    decreases s.len() - pos,
{
    if pos < 0 || pos >= s.len() {
        None
    } else {
        match token_at(how, s, pos) {
            Some(v) => Some(v),
            None => first_token(s, pos + 1, how),
        }
    }
}

/// The last value that stands in `s` before `end`.
pub open spec fn last_token(
    s: Seq<u8>,
    end: int,
    how: Reading,
) -> Option<u32>
    decreases end,
{
    if end <= 0 || end > s.len() {
        None
    } else {
        match token_at(how, s, end - 1) {
            Some(v) => Some(v),
            None => last_token(s, end - 1, how),
        }
    }
}

/// The first and the last value of a row; none if it holds no value.
pub open spec fn ends_of(s: Seq<u8>, how: Reading) -> Option<
    (u32, u32),
> {
    match (first_token(s, 0, how), last_token(s, s.len() as int, how)) {
        (Some(a), Some(b)) => Some((a, b)),
        _ => None,
    }
}

/// The digit that stands at `i`, if one does.
pub open spec fn digit_at(s: Seq<u8>, i: int) -> Option<u32> {
    if 0 <= i < s.len() && is_digit(s[i]) {
        Some((s[i] - 48) as u32)
    } else {
        None
    }
}

/// The words that stand for a digit, each with its digit: the names of the
/// digits from one to nine, and the digits from `1` to `9` themselves.
pub open spec fn digit_words() -> Seq<(Seq<u8>, u32)> {
    seq![
        ("one".spec_bytes(), 1u32),
        ("two".spec_bytes(), 2u32),
        ("three".spec_bytes(), 3u32),
        ("four".spec_bytes(), 4u32),
        ("five".spec_bytes(), 5u32),
        ("six".spec_bytes(), 6u32),
        ("seven".spec_bytes(), 7u32),
        ("eight".spec_bytes(), 8u32),
        ("nine".spec_bytes(), 9u32),
        ("1".spec_bytes(), 1u32),
        ("2".spec_bytes(), 2u32),
        ("3".spec_bytes(), 3u32),
        ("4".spec_bytes(), 4u32),
        ("5".spec_bytes(), 5u32),
        ("6".spec_bytes(), 6u32),
        ("7".spec_bytes(), 7u32),
        ("8".spec_bytes(), 8u32),
        ("9".spec_bytes(), 9u32),
    ]
}

/// The digit of the first word of the table, from entry `k` on, that stands
/// in `s` at `i`.
pub open spec fn word_from(s: Seq<u8>, i: int, table: Seq<(Seq<u8>, u32)>, k: int) -> Option<u32>
    decreases table.len() - k,
{
    if k < 0 || k >= table.len() {
        None
    } else if starts_at(s, i, table[k].0) {
        Some(table[k].1)
    } else {
        word_from(s, i, table, k + 1)
    }
}

/// The digit that the word standing at `i` stands for, if one stands there.
pub open spec fn word_at(s: Seq<u8>, i: int) -> Option<u32> {
    word_from(s, i, digit_words(), 0)
}

/// What a table of words says, entry by entry.
pub open spec fn table_of(words: Seq<(&'static str, u32)>) -> Seq<(Seq<u8>, u32)> {
    Seq::new(words.len(), |i: int| (words[i].0.spec_bytes(), words[i].1))
}

/// The table of the words that stand for a digit.
pub fn digit_map() -> (r: Vec<(&'static str, u32)>)
    ensures
        table_of(r@) == digit_words(),
{
    let mut m: Vec<(&'static str, u32)> = Vec::new();
    m.push(("one", 1));
    m.push(("two", 2));
    m.push(("three", 3));
    m.push(("four", 4));
    m.push(("five", 5));
    m.push(("six", 6));
    m.push(("seven", 7));
    m.push(("eight", 8));
    m.push(("nine", 9));
    m.push(("1", 1));
    m.push(("2", 2));
    m.push(("3", 3));
    m.push(("4", 4));
    m.push(("5", 5));
    m.push(("6", 6));
    m.push(("7", 7));
    m.push(("8", 8));
    m.push(("9", 9));
    assert(table_of(m@) =~= digit_words());
    m
}

/// The bytes of the words of the table.
pub proof fn lemma_word_bytes()
    ensures
        "one".spec_bytes() == seq![111u8, 110u8, 101u8],
        "two".spec_bytes() == seq![116u8, 119u8, 111u8],
        "three".spec_bytes() == seq![116u8, 104u8, 114u8, 101u8, 101u8],
        "four".spec_bytes() == seq![102u8, 111u8, 117u8, 114u8],
        "five".spec_bytes() == seq![102u8, 105u8, 118u8, 101u8],
        "six".spec_bytes() == seq![115u8, 105u8, 120u8],
        "seven".spec_bytes() == seq![115u8, 101u8, 118u8, 101u8, 110u8],
        "eight".spec_bytes() == seq![101u8, 105u8, 103u8, 104u8, 116u8],
        "nine".spec_bytes() == seq![110u8, 105u8, 110u8, 101u8],
        "1".spec_bytes() == seq![49u8],
        "2".spec_bytes() == seq![50u8],
        "3".spec_bytes() == seq![51u8],
        "4".spec_bytes() == seq![52u8],
        "5".spec_bytes() == seq![53u8],
        "6".spec_bytes() == seq![54u8],
        "7".spec_bytes() == seq![55u8],
        "8".spec_bytes() == seq![56u8],
        "9".spec_bytes() == seq![57u8],
{
    reveal_strlit("one");
    is_ascii_spec_bytes("one");
    assert("one".spec_bytes() =~= seq![111u8, 110u8, 101u8]);
    reveal_strlit("two");
    is_ascii_spec_bytes("two");
    assert("two".spec_bytes() =~= seq![116u8, 119u8, 111u8]);
    reveal_strlit("three");
    is_ascii_spec_bytes("three");
    assert("three".spec_bytes() =~= seq![116u8, 104u8, 114u8, 101u8, 101u8]);
    reveal_strlit("four");
    is_ascii_spec_bytes("four");
    assert("four".spec_bytes() =~= seq![102u8, 111u8, 117u8, 114u8]);
    reveal_strlit("five");
    is_ascii_spec_bytes("five");
    assert("five".spec_bytes() =~= seq![102u8, 105u8, 118u8, 101u8]);
    reveal_strlit("six");
    is_ascii_spec_bytes("six");
    assert("six".spec_bytes() =~= seq![115u8, 105u8, 120u8]);
    reveal_strlit("seven");
    is_ascii_spec_bytes("seven");
    assert("seven".spec_bytes() =~= seq![115u8, 101u8, 118u8, 101u8, 110u8]);
    reveal_strlit("eight");
    is_ascii_spec_bytes("eight");
    assert("eight".spec_bytes() =~= seq![101u8, 105u8, 103u8, 104u8, 116u8]);
    reveal_strlit("nine");
    is_ascii_spec_bytes("nine");
    assert("nine".spec_bytes() =~= seq![110u8, 105u8, 110u8, 101u8]);
    reveal_strlit("1");
    is_ascii_spec_bytes("1");
    assert("1".spec_bytes() =~= seq![49u8]);
    reveal_strlit("2");
    is_ascii_spec_bytes("2");
    assert("2".spec_bytes() =~= seq![50u8]);
    reveal_strlit("3");
    is_ascii_spec_bytes("3");
    assert("3".spec_bytes() =~= seq![51u8]);
    reveal_strlit("4");
    is_ascii_spec_bytes("4");
    assert("4".spec_bytes() =~= seq![52u8]);
    reveal_strlit("5");
    is_ascii_spec_bytes("5");
    assert("5".spec_bytes() =~= seq![53u8]);
    reveal_strlit("6");
    is_ascii_spec_bytes("6");
    assert("6".spec_bytes() =~= seq![54u8]);
    reveal_strlit("7");
    is_ascii_spec_bytes("7");
    assert("7".spec_bytes() =~= seq![55u8]);
    reveal_strlit("8");
    is_ascii_spec_bytes("8");
    assert("8".spec_bytes() =~= seq![56u8]);
    reveal_strlit("9");
    is_ascii_spec_bytes("9");
    assert("9".spec_bytes() =~= seq![57u8]);
}

/// No two words of the table stand at the same place of a text, so that
/// the order of the table does not matter to what is read there.
pub proof fn lemma_words_exclusive(s: Seq<u8>, i: int, j: int, k: int)
    requires
        0 <= j < k < digit_words().len(),
        starts_at(s, i, digit_words()[j].0),
    ensures
        !starts_at(s, i, digit_words()[k].0),
{
    lemma_word_bytes();
    let t = digit_words();
    let a = t[j].0;
    let b = t[k].0;
    if starts_at(s, i, b) {
        assert(s.subrange(i, i + a.len())[0] == s[i]);
        assert(s.subrange(i, i + b.len())[0] == s[i]);
        if a.len() > 1 && b.len() > 1 {
            assert(s.subrange(i, i + a.len())[1] == s[i + 1]);
            assert(s.subrange(i, i + b.len())[1] == s[i + 1]);
        }
    }
}

/// No word of the table stands for more than nine.
pub proof fn lemma_word_from_small(s: Seq<u8>, i: int, k: int)
    requires
        0 <= k,
    ensures
        word_from(s, i, digit_words(), k) matches Some(v) ==> v <= 9,
    decreases digit_words().len() - k,
{
    let t = digit_words();
    if k < t.len() {
        assert(t[k].1 <= 9) by {
            assert(t.len() == 18);
            assert(t[0].1 == 1 && t[1].1 == 2 && t[2].1 == 3 && t[3].1 == 4 && t[4].1 == 5 && t[5].1
                == 6);
            assert(t[6].1 == 7 && t[7].1 == 8 && t[8].1 == 9 && t[9].1 == 1 && t[10].1 == 2
                && t[11].1 == 3);
            assert(t[12].1 == 4 && t[13].1 == 5 && t[14].1 == 6 && t[15].1 == 7 && t[16].1 == 8
                && t[17].1 == 9);
        }
        lemma_word_from_small(s, i, k + 1);
    }
}

/// The first and the last digit of a row; none if the row has no digit.
pub fn get_first_and_last_digits(row: &[u8]) -> (r: Option<(u32, u32)>)
    ensures
        r == ends_of(row@, Reading::Digits),
        r matches Some((a, b)) ==> a <= 9 && b <= 9,
{
        let mut i: usize = 0;
    while i < row.len() && !Class::Digit.holds(row[i])
        invariant
            i <= row@.len(),
            first_token(row@, 0, Reading::Digits) == first_token(row@, i as int, Reading::Digits),
        decreases row@.len() - i,
    {
        i += 1;
    }
    if i == row.len() {
        return None;
    }
    let first: u32 = (row[i] - 48) as u32;
    let mut j: usize = row.len();
    while j > 0 && !Class::Digit.holds(row[j - 1])
        invariant
            i < j <= row@.len(),
            is_digit(row@[i as int]),
            last_token(row@, row@.len() as int, Reading::Digits) == last_token(
                row@,
                j as int,
                Reading::Digits,
            ),
        decreases j,
    {
        j -= 1;
    }
    let last: u32 = (row[j - 1] - 48) as u32;
    Some((first, last))
}

/// Finds the digit that the word standing at `i` stands for.
pub fn read_word(row: &[u8], i: usize, words: &Vec<(&'static str, u32)>) -> (r: Option<u32>)
    requires
        i <= row@.len(),
    ensures
        r == word_from(row@, i as int, table_of(words@), 0),
{
    let mut k: usize = 0;
    while k < words.len()
        invariant
            k <= words@.len(),
            i <= row@.len(),
            word_from(row@, i as int, table_of(words@), 0) == word_from(
                row@,
                i as int,
                table_of(words@),
                k as int,
            ),
        decreases words@.len() - k,
    {
        let (word, value) = words[k];
        if has_at(row, i, word.as_bytes()) {
            return Some(value);
        }
        k += 1;
    }
    None
}

/// The digits that the first and the last word of a row stand for, a word
/// being the name of a digit or a digit other than `0`; none if the row
/// holds no such word.
pub fn get_first_and_last_digits_improved(row: &[u8]) -> (r: Option<(u32, u32)>)
    ensures
        r == ends_of(row@, Reading::Words),
        r matches Some((a, b)) ==> a <= 9 && b <= 9,
{
    let words = digit_map();
        let mut first: Option<u32> = None;
    let mut i: usize = 0;
    while i < row.len() && first.is_none()
        invariant
            i <= row@.len(),
            table_of(words@) == digit_words(),
            first is None ==> first_token(row@, 0, Reading::Words) == first_token(
                row@,
                i as int,
                Reading::Words,
            ),
            first is Some ==> first_token(row@, 0, Reading::Words) == first,
            first matches Some(v) ==> v <= 9,
        decreases row@.len() - i + if first is None { 1int } else { 0int },
    {
        proof {
            lemma_word_from_small(row@, i as int, 0);
        }
        first = read_word(row, i, &words);
        if first.is_none() {
            i += 1;
        }
    }
    let a = match first {
        Some(a) => a,
        None => {
            return None;
        },
    };
    let mut last: Option<u32> = None;
    let mut j: usize = row.len();
    while j > 0 && last.is_none()
        invariant
            j <= row@.len(),
            table_of(words@) == digit_words(),
            last is None ==> last_token(row@, row@.len() as int, Reading::Words) == last_token(
                row@,
                j as int,
                Reading::Words,
            ),
            last is Some ==> last_token(row@, row@.len() as int, Reading::Words) == last,
            last matches Some(v) ==> v <= 9,
        decreases j + if last is None { 1int } else { 0int },
    {
        proof {
            lemma_word_from_small(row@, j - 1, 0);
        }
        last = read_word(row, j - 1, &words);
        if last.is_none() {
            j -= 1;
        }
    }
    match last {
        Some(b) => Some((a, b)),
        None => {
            proof {
                lemma_first_then_last(row@, 0, Reading::Words);
            }
            None
        },
    }
}

/// Where a first value is found from `pos` on, a last value is found too.
pub proof fn lemma_first_then_last(s: Seq<u8>, pos: int, how: Reading)
    requires
        0 <= pos,
    ensures
        first_token(s, pos, how) is Some ==> last_token(s, s.len() as int, how) is Some,
    decreases s.len() - pos,
{
    if pos < s.len() {
        if token_at(how, s, pos) is Some {
            lemma_last_found(s, pos, s.len() as int, how);
        } else {
            lemma_first_then_last(s, pos + 1, how);
        }
    }
}

/// A value found at `i` makes the search backwards from `end` succeed.
pub proof fn lemma_last_found(
    s: Seq<u8>,
    i: int,
    end: int,
    how: Reading,
)
    requires
        0 <= i < end <= s.len(),
        token_at(how, s, i) is Some,
    ensures
        last_token(s, end, how) is Some,
    decreases end,
{
    if token_at(how, s, end - 1) is None {
        lemma_last_found(s, i, end - 1, how);
    }
}

/// The number of a row: ten times its first value and its last; nothing for
/// an empty row; none where a row that is not empty holds no value.
pub open spec fn row_value(row: Seq<u8>, how: Reading) -> Option<nat> {
    if row.len() == 0 {
        Some(0)
    } else {
        match ends_of(row, how) {
            Some((a, b)) => Some((a * 10 + b) as nat),
            None => None,
        }
    }
}

/// The sum of the numbers of the rows; none where a row has none.
pub open spec fn total(rows: Seq<Seq<u8>>, how: Reading) -> Option<
    nat,
>
    decreases rows.len(),
{
    if rows.len() == 0 {
        Some(0)
    } else {
        match (total(rows.drop_last(), how), row_value(rows.last(), how)) {
            (Some(t), Some(v)) => Some(t + v),
            _ => None,
        }
    }
}

/// The sum over the first few rows is no more than that over all, and
/// once it fails, so does that over all.
pub proof fn lemma_total_prefix(
    rows: Seq<Seq<u8>>,
    k: int,
    how: Reading,
)
    requires
        0 <= k <= rows.len(),
    ensures
        total(rows.take(k), how) is None ==> total(rows, how) is None,
        total(rows, how) matches Some(t) ==> total(rows.take(k), how) matches Some(p) && p <= t,
    decreases rows.len(),
{
    if k == rows.len() {
        assert(rows.take(k) =~= rows);
    } else {
        assert(rows.drop_last().take(k) =~= rows.take(k));
        lemma_total_prefix(rows.drop_last(), k, how);
    }
}

/// The sum of the numbers of the rows of a text, as far as it fits a `u32`.
pub open spec fn sum_of(input: Seq<u8>, how: Reading) -> Option<u32> {
    match total(lines(input), how) {
        Some(t) => if t <= u32::MAX {
            Some(t as u32)
        } else {
            None
        },
        None => None,
    }
}

/// Adds up the numbers of the rows of a text, each made of the first and
/// the last digit of its row.
pub fn part1(input: &[u8]) -> (r: Option<u32>)
    ensures
        r == sum_of(input@, Reading::Digits),
{
        let rows = split_lines(input);
    let ghost all = texts(rows@);
    let mut sum: u32 = 0;
    let mut i: usize = 0;
    assert(all.take(0) =~= Seq::<Seq<u8>>::empty());
    while i < rows.len()
        invariant
            i <= rows@.len(),
            all == texts(rows@),
            all == lines(input@),
            total(all.take(i as int), Reading::Digits) == Some(sum as nat),
        decreases rows@.len() - i,
    {
        proof {
            assert(all.take(i + 1).drop_last() =~= all.take(i as int));
            assert(all.take(i + 1).last() == rows@[i as int]@);
            lemma_total_prefix(all, i + 1, Reading::Digits);
        }
        let row = rows[i];
        let value: u32 = if row.len() == 0 {
            0
        } else {
            match get_first_and_last_digits(row) {
                Some((first, last)) => first * 10 + last,
                None => {
                    return None;
                },
            }
        };
        sum = match sum.checked_add(value) {
            Some(t) => t,
            None => {
                return None;
            },
        };
        i += 1;
    }
    assert(all.take(i as int) =~= all);
    Some(sum)
}

/// Adds up the numbers of the rows of a text, each made of the digits that
/// the first and the last word of its row stand for.
pub fn part2(input: &[u8]) -> (r: Option<u32>)
    ensures
        r == sum_of(input@, Reading::Words),
{
        let rows = split_lines(input);
    let ghost all = texts(rows@);
    let mut sum: u32 = 0;
    let mut i: usize = 0;
    assert(all.take(0) =~= Seq::<Seq<u8>>::empty());
    while i < rows.len()
        invariant
            i <= rows@.len(),
            all == texts(rows@),
            all == lines(input@),
            total(all.take(i as int), Reading::Words) == Some(sum as nat),
        decreases rows@.len() - i,
    {
        proof {
            assert(all.take(i + 1).drop_last() =~= all.take(i as int));
            assert(all.take(i + 1).last() == rows@[i as int]@);
            lemma_total_prefix(all, i + 1, Reading::Words);
        }
        let row = rows[i];
        let value: u32 = if row.len() == 0 {
            0
        } else {
            match get_first_and_last_digits_improved(row) {
                Some((first, last)) => first * 10 + last,
                None => {
                    return None;
                },
            }
        };
        sum = match sum.checked_add(value) {
            Some(t) => t,
            None => {
                return None;
            },
        };
        i += 1;
    }
    assert(all.take(i as int) =~= all);
    Some(sum)
}

} // verus!

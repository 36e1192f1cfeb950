// Engine schematics: a number counts as a part number where a symbol stands
// beside its place in the neighbouring line.

use vstd::prelude::*;
use vstd::slice::slice_subrange;
use crate::text::{
    Class, all_digits, decimal, is_digit, lemma_run_end, lemma_sum_prefix, lines, parse_decimal,
    run_end, scan, split_lines, sum, texts, trim, trimmed,
};

verus! {

/// The runs of digits in `s` from `pos` on, each as its start and its
/// length, from left to right.
pub open spec fn runs_from(s: Seq<u8>, pos: int) -> Seq<(usize, usize)>
    decreases s.len() - pos,
{
    if pos < 0 || pos >= s.len() {
        Seq::empty()
    } else if is_digit(s[pos]) {
        proof {
            lemma_run_end(s, pos, Class::Digit);
        }
        seq![(pos as usize, (run_end(s, pos, Class::Digit) - pos) as usize)] + runs_from(
            s,
            run_end(s, pos, Class::Digit),
        )
    } else {
        runs_from(s, pos + 1)
    }
}

/// Every run of the list lies within `s`, is not empty and holds digits only.
pub open spec fn runs_valid(s: Seq<u8>, runs: Seq<(usize, usize)>) -> bool {
    forall|k: int|
        0 <= k < runs.len() ==> {
            &&& (#[trigger] runs[k]).1 > 0
            &&& runs[k].0 + runs[k].1 <= s.len()
            &&& all_digits(s.subrange(runs[k].0 as int, runs[k].0 + runs[k].1))
        }
}

/// Finds the runs of digits of a text.
pub fn digit_runs(s: &[u8]) -> (r: Vec<(usize, usize)>)
    ensures
        r@ == runs_from(s@, 0),
        runs_valid(s@, r@),
{
    let mut out: Vec<(usize, usize)> = Vec::new();
    let mut i: usize = 0;
    while i < s.len()
        invariant
            i <= s@.len(),
            runs_from(s@, 0) == out@ + runs_from(s@, i as int),
            runs_valid(s@, out@),
        decreases s@.len() - i,
    {
        if Class::Digit.holds(s[i]) {
            let e = scan(s, i, Class::Digit);
            proof {
                lemma_run_end(s@, i as int, Class::Digit);
                let rest = runs_from(s@, e as int);
                let run = (i, (e - i) as usize);
                assert(out@.push(run) + rest =~= out@ + (seq![run] + rest));
                assert(all_digits(s@.subrange(i as int, e as int)));
            }
            out.push((i, e - i));
            i = e;
        } else {
            i += 1;
        }
    }
    assert(out@ + Seq::<(usize, usize)>::empty() =~= out@);
    out
}

/// The runs of digits of a line taken without the white space at its ends;
/// none if there is no digit.
pub open spec fn number_positions_of(line: Seq<u8>) -> Option<Seq<(usize, usize)>> {
    if runs_from(trimmed(line), 0).len() > 0 {
        Some(runs_from(trimmed(line), 0))
    } else {
        None
    }
}

/// Finds the numbers of a line: the start and the length of each run of
/// digits, counted in the line without the white space at its ends.
pub fn number_positions(line: &[u8]) -> (r: Option<Vec<(usize, usize)>>)
    ensures
        match number_positions_of(line@) {
            Some(v) => r matches Some(out) && out@ == v,
            None => r is None,
        },
{
    let number_positions = digit_runs(trim(line));
    if number_positions.len() > 0 {
        Some(number_positions)
    } else {
        None
    }
}

/// A symbol is any byte but a digit and the full stop.
pub open spec fn is_symbol(b: u8) -> bool {
    !is_digit(b) && b != 46
}

/// The part of a line of `n` bytes that is searched for a symbol beside the
/// number that starts at `start` and is `len` long. For a number at the
/// start of the line it is the one byte after the number; for any other
/// it goes from the byte before the number to the byte after it, or to the
/// end of the line where the line ends sooner. There is none where that
/// part would not lie within the line.
pub open spec fn window_of(n: int, start: int, len: int) -> Option<(int, int)> {
    if start == 0 {
        if len + 1 <= n {
            Some((len, len + 1))
        } else {
            None
        }
    } else if start + len > usize::MAX {
        None
    } else if start + len > n {
        if start - 1 <= n {
            Some((start - 1, n))
        } else {
            None
        }
    } else if start + len == n {
        Some((start - 1, start + len))
    } else {
        Some((start - 1, start + len + 1))
    }
}

/// Finds the part of a line of `n` bytes that is searched for a symbol.
pub fn find_window(n: usize, start: usize, len: usize) -> (r: Option<(usize, usize)>)
    ensures
        match r {
            Some((a, b)) => window_of(n as int, start as int, len as int) == Some(
                (a as int, b as int),
            ) && a <= b <= n,
            None => window_of(n as int, start as int, len as int) is None,
        },
{
    if start == 0 {
        if len < n {
            Some((len, len + 1))
        } else {
            None
        }
    } else if len > usize::MAX - start {
        None
    } else if start + len > n {
        if start - 1 <= n {
            Some((start - 1, n))
        } else {
            None
        }
    } else if start + len == n {
        Some((start - 1, start + len))
    } else {
        Some((start - 1, start + len + 1))
    }
}

/// A symbol stands in `s` at `a` or after it, and before `b`.
pub open spec fn symbol_in(s: Seq<u8>, a: int, b: int) -> bool {
    exists|i: int| a <= i < b && 0 <= i < s.len() && is_symbol(#[trigger] s[i])
}

/// Whether a symbol stands beside the place of a number in a line taken
/// without the white space at its ends; none where the part to search
/// would not lie within the line.
pub open spec fn has_symbol_of(line: Seq<u8>, start: int, len: int) -> Option<bool> {
    match window_of(trimmed(line).len() as int, start, len) {
        Some((a, b)) => Some(symbol_in(trimmed(line), a, b)),
        None => None,
    }
}

/// Searches the bytes of `s` from `a` up to `b` for a symbol.
pub fn find_symbol(s: &[u8], a: usize, b: usize) -> (r: bool)
    requires
        a <= b <= s@.len(),
    ensures
        r == symbol_in(s@, a as int, b as int),
{
    let mut i: usize = a;
    while i < b
        invariant
            a <= i <= b <= s@.len(),
            forall|j: int| a <= j < i ==> !is_symbol(#[trigger] s@[j]),
        decreases b - i,
    {
        if !Class::Digit.holds(s[i]) && s[i] != 46 {
            assert(is_symbol(s@[i as int]));
            return true;
        }
        i += 1;
    }
    false
}

/// Tells whether a symbol stands in the line beside the place `pos` of a
/// number, given as start and length.
pub fn has_symbol(line: &[u8], pos: (usize, usize)) -> (r: bool)
    requires
        window_of(trimmed(line@).len() as int, pos.0 as int, pos.1 as int) is Some,
    ensures
        has_symbol_of(line@, pos.0 as int, pos.1 as int) == Some(r),
{
    let line = trim(line);
    match find_window(line.len(), pos.0, pos.1) {
        Some((a, b)) => find_symbol(line, a, b),
        None => false,
    }
}

/// The numbers, among those that stand in `line` at the places `runs`,
/// beside whose place a symbol stands in the line `other`. There are none
/// where a part to search does not lie within `other`, or where a number
/// does not fit a `u32`.
pub open spec fn parts_in(line: Seq<u8>, other: Seq<u8>, runs: Seq<(usize, usize)>) -> Option<
    Seq<u32>,
>
    decreases runs.len(),
{
    if runs.len() == 0 {
        Some(Seq::empty())
    } else {
        let (start, len) = runs.last();
        let digits = line.subrange(start as int, start + len);
        match (
            parts_in(line, other, runs.drop_last()),
            has_symbol_of(other, start as int, len as int),
        ) {
            (Some(v), Some(found)) => if !found {
                Some(v)
            } else if decimal(digits) <= u32::MAX {
                Some(v.push(decimal(digits) as u32))
            } else {
                None
            },
            _ => None,
        }
    }
}

/// Once the first few places fail, so does the whole list.
pub proof fn lemma_parts_in_prefix(
    line: Seq<u8>,
    other: Seq<u8>,
    runs: Seq<(usize, usize)>,
    k: int,
)
    requires
        0 <= k <= runs.len(),
        parts_in(line, other, runs.take(k)) is None,
    ensures
        parts_in(line, other, runs) is None,
    decreases runs.len(),
{
    if k == runs.len() {
        assert(runs.take(k) =~= runs);
    } else {
        assert(runs.drop_last().take(k) =~= runs.take(k));
        lemma_parts_in_prefix(line, other, runs.drop_last(), k);
    }
}

/// The line that is searched for symbols beside the numbers of line `n`:
/// the line above it; for the first line the line below it; the line
/// itself where it is the only one.
pub open spec fn neighbour(rows: Seq<Seq<u8>>, n: int) -> Seq<u8> {
    if n > 0 {
        rows[n - 1]
    } else if n + 1 < rows.len() {
        rows[n + 1]
    } else {
        rows[n]
    }
}

/// The part numbers of line `n` of a text: the numbers of that line,
/// taken without the white space at its ends, beside whose place a symbol
/// stands in the neighbouring line. There are none where the text has no
/// line `n`.
pub open spec fn part_numbers_of(input: Seq<u8>, n: int) -> Option<Seq<u32>> {
    let rows = lines(input);
    if 0 <= n < rows.len() {
        parts_in(trimmed(rows[n]), neighbour(rows, n), runs_from(trimmed(rows[n]), 0))
    } else {
        None
    }
}

/// Finds the part numbers of one line of a text.
#[verifier::loop_isolation(false)]
pub fn part_numbers(lines: &[u8], line_number: usize) -> (r: Option<Vec<u32>>)
    ensures
        match part_numbers_of(lines@, line_number as int) {
            Some(v) => r matches Some(out) && out@ == v,
            None => r is None,
        },
{
    let rows = split_lines(lines);
    if line_number >= rows.len() {
        return None;
    }
    let line = trim(rows[line_number]);
    let other: &[u8] = if line_number > 0 {
        rows[line_number - 1]
    } else if line_number + 1 < rows.len() {
        rows[line_number + 1]
    } else {
        rows[line_number]
    };
    let width = trim(other).len();
    let line_numbers = digit_runs(line);
    let ghost all_rows = texts(rows@);
    assert(all_rows[line_number as int] == rows@[line_number as int]@);
    assert(other@ == neighbour(all_rows, line_number as int));
    let mut part_numbers: Vec<u32> = Vec::new();
    let mut i: usize = 0;
    assert(line_numbers@.take(0) =~= Seq::<(usize, usize)>::empty());
    while i < line_numbers.len()
        invariant
            i <= line_numbers@.len(),
            parts_in(line@, other@, line_numbers@.take(i as int)) == Some(part_numbers@),
        decreases line_numbers@.len() - i,
    {
        let (start, len) = line_numbers[i];
        proof {
            assert(line_numbers@.take(i + 1).drop_last() =~= line_numbers@.take(i as int));
            assert(line_numbers@.take(i + 1).last() == line_numbers@[i as int]);
        }
        let found = match find_window(width, start, len) {
            Some(_) => has_symbol(other, (start, len)),
            None => {
                proof {
                    lemma_parts_in_prefix(line@, other@, line_numbers@, i + 1);
                }
                return None;
            },
        };
        if found {
            match parse_decimal(slice_subrange(line, start, start + len), u32::MAX as u128) {
                Some(v) => {
                    part_numbers.push(v as u32);
                },
                None => {
                    proof {
                        lemma_parts_in_prefix(line@, other@, line_numbers@, i + 1);
                    }
                    return None;
                },
            }
        }
        i += 1;
    }
    assert(line_numbers@.take(i as int) =~= line_numbers@);
    Some(part_numbers)
}

/// The sum of the part numbers of the first `k` lines of a text.
pub open spec fn sum_upto(input: Seq<u8>, k: int) -> Option<nat>
    decreases k,
{
    if k <= 0 {
        Some(0)
    } else {
        match (sum_upto(input, k - 1), part_numbers_of(input, k - 1)) {
            (Some(t), Some(v)) => Some(t + sum(v)),
            _ => None,
        }
    }
}

/// The sum over the first few lines is no more than that over more lines,
/// and once it fails, it fails for more lines too.
pub proof fn lemma_sum_upto_grows(input: Seq<u8>, j: int, k: int)
    requires
        0 <= j <= k,
    ensures
        sum_upto(input, j) is None ==> sum_upto(input, k) is None,
        sum_upto(input, k) matches Some(t) ==> sum_upto(input, j) matches Some(p) && p <= t,
    decreases k,
{
    if j < k {
        lemma_sum_upto_grows(input, j, k - 1);
    }
}

/// The sum of the part numbers of all the lines of a text, as far as it
/// fits a `u32`.
pub open spec fn part1_of(input: Seq<u8>) -> Option<u32> {
    match sum_upto(input, lines(input).len() as int) {
        Some(t) => if t <= u32::MAX {
            Some(t as u32)
        } else {
            None
        },
        None => None,
    }
}

/// Adds up the part numbers of all the lines of a text.
#[verifier::loop_isolation(false)]
pub fn part1(lines: &[u8]) -> (r: Option<u32>)
    ensures
        r == part1_of(lines@),
{
    let count = split_lines(lines).len();
    assert(count == crate::text::lines(lines@).len());
    let mut total: u32 = 0;
    let mut index: usize = 0;
    while index < count
        invariant
            index <= count,
            sum_upto(lines@, index as int) == Some(total as nat),
        decreases count - index,
    {
        proof {
            lemma_sum_upto_grows(lines@, index + 1, count as int);
        }
        let numbers = match part_numbers(lines, index) {
            Some(v) => v,
            None => {
                return None;
            },
        };
        let ghost before = total;
        let mut j: usize = 0;
        assert(numbers@.take(0) =~= Seq::<u32>::empty());
        while j < numbers.len()
            invariant
                j <= numbers@.len(),
                total == before + sum(numbers@.take(j as int)),
            decreases numbers@.len() - j,
        {
            proof {
                assert(numbers@.take(j + 1).drop_last() =~= numbers@.take(j as int));
                lemma_sum_prefix(numbers@, j + 1);
            }
            total = match total.checked_add(numbers[j]) {
                Some(t) => t,
                None => {
                    return None;
                },
            };
            j += 1;
        }
        assert(numbers@.take(j as int) =~= numbers@);
        index += 1;
    }
    Some(total)
}

} // verus!

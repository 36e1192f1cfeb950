// Boat races: the number of ways to beat the record of a race.

use vstd::prelude::*;
use vstd::slice::slice_subrange;
use vstd::string::StringSliceAdditionalSpecFns;
use crate::text::{
    Class, all_digits, decimal, has_at, lemma_run_end, number_at, parse_decimal, read_number,
    run_end, scan, skip_spaces, spaces_end, starts_at,
};

verus! {

/// The longest race for which every distance fits a `u128`.
pub const MAX_RACE_TIME: u128 = 0x1_ffff_ffff_ffff_ffff;

/// The label of the line of race times.
pub open spec fn time_label() -> Seq<u8> {
    "Time:".spec_bytes()
}

/// The label of the line of record distances.
pub open spec fn distance_label() -> Seq<u8> {
    "Distance:".spec_bytes()
}

/// How far the boat gets in a race of `time` when the button is held for `hold`.
pub open spec fn distance(hold: int, time: int) -> int {
    (time - hold) * hold
}

/// No distance of a race that is at most `MAX_RACE_TIME` long exceeds a `u128`.
pub proof fn lemma_distance_bound(hold: int, time: int)
    requires
        0 <= hold <= time <= MAX_RACE_TIME,
    ensures
        0 <= distance(hold, time) <= u128::MAX,
{
    let d = (time - hold) * hold;
    let m = MAX_RACE_TIME as int;
    assert(d >= 0) by (nonlinear_arith)
        requires
            d == (time - hold) * hold,
            0 <= hold <= time,
    ;
    assert(4 * d <= time * time) by (nonlinear_arith)
        requires
            d == (time - hold) * hold,
    ;
    assert(time * time <= m * m) by (nonlinear_arith)
        requires
            0 <= time <= m,
    ;
    assert(m * m == 0x3_ffff_ffff_ffff_fffc_0000_0000_0000_0001) by (nonlinear_arith)
        requires
            m == 0x1_ffff_ffff_ffff_ffff,
    ;
}

/// The distance covered in a race of `race_time` with the button held for
/// `button_hold`.
pub fn get_distance(button_hold: u128, race_time: u128) -> (r: u128)
    requires
        button_hold <= race_time,
        distance(button_hold as int, race_time as int) <= u128::MAX,
    ensures
        r == distance(button_hold as int, race_time as int),
{
    (race_time - button_hold) * button_hold
}

/// The distances that beat `record`, among those of the holds `0, 1, .., k - 1`
/// in a race of `time`, in the order of the holds.
pub open spec fn winning_upto(time: int, record: int, k: int) -> Seq<u128>
    decreases k,
{
    if k <= 0 {
        Seq::empty()
    } else {
        let rest = winning_upto(time, record, k - 1);
        if distance(k - 1, time) > record {
            rest.push(distance(k - 1, time) as u128)
        } else {
            rest
        }
    }
}

/// The distances that beat the record, for all the holds shorter than the race.
pub fn get_winning_margin(race_time: u128, record: u128) -> (r: Vec<u128>)
    requires
        race_time <= MAX_RACE_TIME,
    ensures
        r@ == winning_upto(race_time as int, record as int, race_time as int),
{
    let mut out: Vec<u128> = Vec::new();
    let mut t: u128 = 0;
    while t < race_time
        invariant
            t <= race_time <= MAX_RACE_TIME,
            out@ == winning_upto(race_time as int, record as int, t as int),
        decreases race_time - t,
    {
        proof {
            lemma_distance_bound(t as int, race_time as int);
        }
        let d = get_distance(t, race_time);
        if d > record {
            out.push(d);
        }
        t += 1;
    }
    out
}

/// The product of the numbers, as long as no product of the first few of
/// them exceeds a `u128`.
pub open spec fn product(v: Seq<u128>) -> Option<nat>
    decreases v.len(),
{
    if v.len() == 0 {
        Some(1)
    } else {
        match product(v.drop_last()) {
            None => None,
            Some(p) => if p * v.last() <= u128::MAX {
                Some((p * v.last()) as nat)
            } else {
                None
            },
        }
    }
}

/// Multiplies the numbers of a list.
pub fn multiply_all(v: Vec<u128>) -> (r: Option<u128>)
    ensures
        match product(v@) {
            Some(p) => r == Some(p as u128),
            None => r is None,
        },
{
    let mut acc: u128 = 1;
    let mut i: usize = 0;
    assert(v@.take(0) =~= Seq::<u128>::empty());
    while i < v.len()
        invariant
            i <= v@.len(),
            product(v@.take(i as int)) == Some(acc as nat),
        decreases v@.len() - i,
    {
        assert(v@.take(i + 1).drop_last() =~= v@.take(i as int));
        match acc.checked_mul(v[i]) {
            Some(p) => {
                acc = p;
            },
            None => {
                proof {
                    lemma_product_prefix(v@, i + 1);
                }
                return None;
            },
        }
        i += 1;
    }
    assert(v@.take(i as int) =~= v@);
    Some(acc)
}

/// Once the product of the first few numbers exceeds a `u128`, so does that
/// of the whole list.
pub proof fn lemma_product_prefix(v: Seq<u128>, k: int)
    requires
        0 <= k <= v.len(),
        product(v.take(k)) is None,
    ensures
        product(v) is None,
    decreases v.len(),
{
    if k == v.len() {
        assert(v.take(k) =~= v);
    } else {
        assert(v.drop_last().take(k) =~= v.take(k));
        lemma_product_prefix(v.drop_last(), k);
    }
}

/// The numbers that follow a number which ended at `pos`, each after at
/// least one blank, and where the last of them ends.
pub open spec fn numbers_after(s: Seq<u8>, pos: int) -> (Seq<u128>, int)
    decreases s.len() - pos,
{
    let q = run_end(s, pos, Class::Blank);
    if q == pos {
        (Seq::empty(), pos)
    } else {
        match number_at(s, q, u128::MAX as int) {
            None => (Seq::empty(), pos),
            Some((v, e)) => {
                proof {
                    lemma_run_end(s, pos, Class::Blank);
                }
                let (rest, end) = numbers_after(s, e);
                (seq![v as u128] + rest, end)
            },
        }
    }
}

/// The numbers that stand at `pos`, with blanks between one and the next,
/// and where the last of them ends; there may be none.
pub open spec fn number_list(s: Seq<u8>, pos: int) -> (Seq<u128>, int) {
    match number_at(s, pos, u128::MAX as int) {
        None => (Seq::empty(), pos),
        Some((v, e)) => {
            let (rest, end) = numbers_after(s, e);
            (seq![v as u128] + rest, end)
        },
    }
}

/// Where the label that stands at `pos`, after blanks, if any, and the blanks
/// that follow it, at least one, end.
pub open spec fn label_at(s: Seq<u8>, pos: int, label: Seq<u8>) -> Option<int> {
    let at1 = run_end(s, pos, Class::Blank);
    let at2 = at1 + label.len();
    let at3 = run_end(s, at2, Class::Blank);
    if starts_at(s, at1, label) && at3 != at2 {
        Some(at3)
    } else {
        None
    }
}

/// The numbers of the labelled line that stands at `pos`, and where the
/// white space after them ends.
pub open spec fn labelled_array_at(s: Seq<u8>, pos: int, label: Seq<u8>) -> Option<
    (Seq<u128>, int),
> {
    match label_at(s, pos, label) {
        None => None,
        Some(p) => {
            let (v, e) = number_list(s, p);
            Some((v, spaces_end(s, e)))
        },
    }
}

/// The digits of the groups that follow a group which ended at `pos`, each
/// after at least one blank, and where the last of them ends.
pub open spec fn digits_after(s: Seq<u8>, pos: int) -> (Seq<u8>, int)
    decreases s.len() - pos,
{
    let q = run_end(s, pos, Class::Blank);
    let e = run_end(s, q, Class::Digit);
    if q == pos || e == q {
        (Seq::empty(), pos)
    } else {
        proof {
            lemma_run_end(s, pos, Class::Blank);
            lemma_run_end(s, q, Class::Digit);
        }
        let (rest, end) = digits_after(s, e);
        (s.subrange(q, e) + rest, end)
    }
}

/// The digits of the groups that stand at `pos`, with blanks between one
/// and the next, and where the last of them ends; there may be none.
pub open spec fn digit_list(s: Seq<u8>, pos: int) -> (Seq<u8>, int) {
    let e = run_end(s, pos, Class::Digit);
    if e == pos {
        (Seq::empty(), pos)
    } else {
        let (rest, end) = digits_after(s, e);
        (s.subrange(pos, e) + rest, end)
    }
}

/// The number that the digit groups of the labelled line at `pos` write when
/// they are put together, and where the white space after them ends.
pub open spec fn labelled_number_at(s: Seq<u8>, pos: int, label: Seq<u8>) -> Option<(u128, int)> {
    match label_at(s, pos, label) {
        None => None,
        Some(p) => {
            let (d, e) = digit_list(s, p);
            if d.len() > 0 && decimal(d) <= u128::MAX {
                Some((decimal(d) as u128, spaces_end(s, e)))
            } else {
                None
            }
        },
    }
}

/// Reads the label that stands at `pos` and the blanks around it.
pub fn read_label(s: &[u8], pos: usize, label: &[u8]) -> (r: Option<usize>)
    requires
        pos <= s@.len(),
    ensures
        match r {
            Some(e) => label_at(s@, pos as int, label@) == Some(e as int) && pos <= e <= s@.len(),
            None => label_at(s@, pos as int, label@) is None,
        },
{
    let n = s.len();
    let at1 = scan(s, pos, Class::Blank);
    if !has_at(s, at1, label) {
        return None;
    }
    let at2 = at1 + label.len();
    let at3 = scan(s, at2, Class::Blank);
    if at3 == at2 {
        return None;
    }
    Some(at3)
}

/// Reads the numbers that stand at `pos`, with blanks between one and the next.
pub fn read_numbers(s: &[u8], pos: usize) -> (r: (Vec<u128>, usize))
    requires
        pos <= s@.len(),
    ensures
        r.0@ == number_list(s@, pos as int).0,
        r.1 == number_list(s@, pos as int).1,
        pos <= r.1 <= s@.len(),
{
    let mut out: Vec<u128> = Vec::new();
    let mut end: usize = pos;
    match read_number(s, pos, u128::MAX) {
        None => {
            return (out, pos);
        },
        Some((v, e)) => {
            out.push(v);
            end = e;
        },
    }
    assert(out@ =~= seq![out@[0]]);
    loop
        invariant
            pos <= end <= s@.len(),
            number_list(s@, pos as int).0 == out@ + numbers_after(s@, end as int).0,
            number_list(s@, pos as int).1 == numbers_after(s@, end as int).1,
        decreases s@.len() - end,
    {
        let q = scan(s, end, Class::Blank);
        if q == end {
            assert(out@ + Seq::<u128>::empty() =~= out@);
            return (out, end);
        }
        match read_number(s, q, u128::MAX) {
            None => {
                assert(out@ + Seq::<u128>::empty() =~= out@);
                return (out, end);
            },
            Some((v, e)) => {
                proof {
                    let rest = numbers_after(s@, e as int).0;
                    assert(out@.push(v) + rest =~= out@ + (seq![v] + rest));
                }
                out.push(v);
                end = e;
            },
        }
    }
}

/// Appends the bytes of `s` from `from` up to `to` to `out`.
pub fn append_range(out: &mut Vec<u8>, s: &[u8], from: usize, to: usize)
    requires
        from <= to <= s@.len(),
    ensures
        final(out)@ == old(out)@ + s@.subrange(from as int, to as int),
{
    let mut i: usize = from;
    assert(out@ =~= old(out)@ + s@.subrange(from as int, from as int));
    while i < to
        invariant
            from <= i <= to <= s@.len(),
            out@ == old(out)@ + s@.subrange(from as int, i as int),
        decreases to - i,
    {
        out.push(s[i]);
        i += 1;
        assert(out@ =~= old(out)@ + s@.subrange(from as int, i as int));
    }
}

/// Reads the digit groups that stand at `pos`, with blanks between one and
/// the next, and puts their digits together.
pub fn read_digits(s: &[u8], pos: usize) -> (r: (Vec<u8>, usize))
    requires
        pos <= s@.len(),
    ensures
        r.0@ == digit_list(s@, pos as int).0,
        r.1 == digit_list(s@, pos as int).1,
        pos <= r.1 <= s@.len(),
        all_digits(r.0@),
{
    let mut out: Vec<u8> = Vec::new();
    let first = scan(s, pos, Class::Digit);
    if first == pos {
        return (out, pos);
    }
    proof {
        lemma_run_end(s@, pos as int, Class::Digit);
    }
    append_range(&mut out, s, pos, first);
    let mut end: usize = first;
    assert(out@ =~= s@.subrange(pos as int, first as int));
    loop
        invariant
            pos <= end <= s@.len(),
            all_digits(out@),
            digit_list(s@, pos as int).0 == out@ + digits_after(s@, end as int).0,
            digit_list(s@, pos as int).1 == digits_after(s@, end as int).1,
        decreases s@.len() - end,
    {
        let q = scan(s, end, Class::Blank);
        let e = scan(s, q, Class::Digit);
        if q == end || e == q {
            assert(out@ + Seq::<u8>::empty() =~= out@);
            return (out, end);
        }
        proof {
            lemma_run_end(s@, q as int, Class::Digit);
            let rest = digits_after(s@, e as int).0;
            let part = s@.subrange(q as int, e as int);
            assert((out@ + part) + rest =~= out@ + (part + rest));
        }
        append_range(&mut out, s, q, e);
        end = e;
    }
}

/// Reads a labelled line of numbers from the start of a text and returns the
/// numbers with the text that follows the white space after them.
pub fn get_labelled_array<'a>(input: &'a [u8], label: &[u8]) -> (r: Option<(&'a [u8], Vec<u128>)>)
    ensures
        match labelled_array_at(input@, 0, label@) {
            Some((v, e)) => r matches Some((rest, out)) && out@ == v && rest@ == input@.subrange(
                e,
                input@.len() as int,
            ),
            None => r is None,
        },
{
    match read_labelled_array(input, 0, label) {
        Some((v, e)) => Some((slice_subrange(input, e, input.len()), v)),
        None => None,
    }
}

/// Reads the labelled line of numbers that stands at `pos`.
pub fn read_labelled_array(s: &[u8], pos: usize, label: &[u8]) -> (r: Option<(Vec<u128>, usize)>)
    requires
        pos <= s@.len(),
    ensures
        match r {
            Some((v, e)) => labelled_array_at(s@, pos as int, label@) == Some((v@, e as int))
                && pos <= e <= s@.len(),
            None => labelled_array_at(s@, pos as int, label@) is None,
        },
{
    match read_label(s, pos, label) {
        None => None,
        Some(p) => {
            let (v, e) = read_numbers(s, p);
            Some((v, skip_spaces(s, e)))
        },
    }
}

/// Reads the labelled line that stands at `pos` as one number, written by
/// all its digit groups together.
pub fn read_labelled_number(s: &[u8], pos: usize, label: &[u8]) -> (r: Option<(u128, usize)>)
    requires
        pos <= s@.len(),
    ensures
        match r {
            Some((v, e)) => labelled_number_at(s@, pos as int, label@) == Some((v, e as int))
                && pos <= e <= s@.len(),
            None => labelled_number_at(s@, pos as int, label@) is None,
        },
{
    match read_label(s, pos, label) {
        None => None,
        Some(p) => {
            let (d, e) = read_digits(s, p);
            if d.len() == 0 {
                return None;
            }
            match parse_decimal(d.as_slice(), u128::MAX) {
                None => None,
                Some(v) => Some((v, skip_spaces(s, e))),
            }
        },
    }
}

/// Reads a labelled line from the start of a text as one number and returns it
/// with the text that follows the white space after it.
pub fn get_labelled_number<'a>(input: &'a [u8], label: &[u8]) -> (r: Option<(&'a [u8], u128)>)
    ensures
        match labelled_number_at(input@, 0, label@) {
            Some((v, e)) => r matches Some((rest, out)) && out == v && rest@ == input@.subrange(
                e,
                input@.len() as int,
            ),
            None => r is None,
        },
{
    match read_labelled_number(input, 0, label) {
        Some((v, e)) => Some((slice_subrange(input, e, input.len()), v)),
        None => None,
    }
}

/// The pairs of the first, the second, .. members of two lists, as many as
/// the shorter list has.
pub open spec fn zip(a: Seq<u128>, b: Seq<u128>) -> Seq<(u128, u128)> {
    Seq::new(
        if a.len() <= b.len() {
            a.len()
        } else {
            b.len()
        },
        |i: int| (a[i], b[i]),
    )
}

/// The races that a text lists: a line of times and a line of record
/// distances, each time paired with the distance at the same place.
pub open spec fn races_of(input: Seq<u8>) -> Option<Seq<(u128, u128)>> {
    match labelled_array_at(input, 0, time_label()) {
        None => None,
        Some((times, p)) => match labelled_array_at(input, p, distance_label()) {
            None => None,
            Some((records, _)) => Some(zip(times, records)),
        },
    }
}

/// Reads the races of a text, each as its time and its record distance.
pub fn get_races(input: &[u8]) -> (r: Option<Vec<(u128, u128)>>)
    ensures
        match races_of(input@) {
            Some(races) => r matches Some(out) && out@ == races,
            None => r is None,
        },
{
    let (times, p) = match read_labelled_array(input, 0, "Time:".as_bytes()) {
        Some(x) => x,
        None => {
            return None;
        },
    };
    let (records, _) = match read_labelled_array(input, p, "Distance:".as_bytes()) {
        Some(x) => x,
        None => {
            return None;
        },
    };
    let mut out: Vec<(u128, u128)> = Vec::new();
    let mut i: usize = 0;
    while i < times.len() && i < records.len()
        invariant
            i <= times@.len(),
            i <= records@.len(),
            out@.len() == i,
            forall|j: int| 0 <= j < i ==> out@[j] == (times@[j], records@[j]),
        decreases times@.len() - i,
    {
        out.push((times[i], records[i]));
        i += 1;
    }
    assert(out@ =~= zip(times@, records@));
    Some(out)
}

/// The one race that a text gives when the spaces between its digits are
/// left out: its time and its record distance.
pub open spec fn race_of(input: Seq<u8>) -> Option<(u128, u128)> {
    match labelled_number_at(input, 0, time_label()) {
        None => None,
        Some((time, p)) => match labelled_number_at(input, p, distance_label()) {
            None => None,
            Some((record, _)) => Some((time, record)),
        },
    }
}

/// Reads a text as one race, the digits of each line put together.
pub fn get_races_2(input: &[u8]) -> (r: Option<(u128, u128)>)
    ensures
        r == race_of(input@),
{
    let (time, p) = match read_labelled_number(input, 0, "Time:".as_bytes()) {
        Some(x) => x,
        None => {
            return None;
        },
    };
    let (record, _) = match read_labelled_number(input, p, "Distance:".as_bytes()) {
        Some(x) => x,
        None => {
            return None;
        },
    };
    Some((time, record))
}

/// In how many ways each race can be won, as long as no race is longer
/// than `MAX_RACE_TIME`.
pub open spec fn ways_to_win(races: Seq<(u128, u128)>) -> Option<Seq<u128>> {
    if forall|i: int| 0 <= i < races.len() ==> (#[trigger] races[i]).0 <= MAX_RACE_TIME {
        Some(
            Seq::new(
                races.len(),
                |i: int|
                    winning_upto(
                        races[i].0 as int,
                        races[i].1 as int,
                        races[i].0 as int,
                    ).len() as u128,
            ),
        )
    } else {
        None
    }
}

/// The product of the numbers of ways to win each race of a text.
pub open spec fn part1_of(input: Seq<u8>) -> Option<u128> {
    match races_of(input) {
        None => None,
        Some(races) => match ways_to_win(races) {
            None => None,
            Some(ways) => match product(ways) {
                None => None,
                Some(p) => Some(p as u128),
            },
        },
    }
}

/// The number of ways to win the one race of a text.
pub open spec fn part2_of(input: Seq<u8>) -> Option<u128> {
    match race_of(input) {
        None => None,
        Some((time, record)) => if time <= MAX_RACE_TIME {
            Some(winning_upto(time as int, record as int, time as int).len() as u128)
        } else {
            None
        },
    }
}

/// Multiplies the numbers of ways in which the races of a text can be won.
pub fn part1(input: &[u8]) -> (r: Option<u128>)
    ensures
        r == part1_of(input@),
{
    let races = match get_races(input) {
        Some(x) => x,
        None => {
            return None;
        },
    };
    let mut margins: Vec<u128> = Vec::new();
    let mut i: usize = 0;
    while i < races.len()
        invariant
            i <= races@.len(),
            margins@.len() == i,
            races_of(input@) == Some(races@),
            forall|j: int| 0 <= j < i ==> (#[trigger] races@[j]).0 <= MAX_RACE_TIME,
            forall|j: int|
                0 <= j < i ==> margins@[j] == winning_upto(
                    races@[j].0 as int,
                    races@[j].1 as int,
                    races@[j].0 as int,
                ).len() as u128,
        decreases races@.len() - i,
    {
        let (t, d) = races[i];
        if t > MAX_RACE_TIME {
            assert(races@[i as int].0 > MAX_RACE_TIME);
            return None;
        }
        let wins = get_winning_margin(t, d);
        margins.push(wins.len() as u128);
        i += 1;
    }
    assert(margins@ =~= ways_to_win(races@)->0);
    multiply_all(margins)
}

/// Counts the ways in which the one race of a text can be won.
pub fn part2(input: &[u8]) -> (r: Option<u128>)
    ensures
        r == part2_of(input@),
{
    let (race_time, record) = match get_races_2(input) {
        Some(x) => x,
        None => {
            return None;
        },
    };
    if race_time > MAX_RACE_TIME {
        return None;
    }
    Some(get_winning_margin(race_time, record).len() as u128)
}

} // verus!

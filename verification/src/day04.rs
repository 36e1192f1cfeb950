// Scratch cards: a card is worth one point for its first winning number
// and twice as much for each further one.

use vstd::prelude::*;
use vstd::string::{StringSliceAdditionalSpecFns, is_ascii_spec_bytes};
use crate::text::{
    lines, parse_unsigned, split, split_lines, split_on, texts, trim, trimmed, unsigned,
};

verus! {

/// A scratch card: its number, the numbers that win, and the numbers on it.
#[derive(Debug, PartialEq)]
pub struct Card {
    pub id: u32,
    pub winning_numbers: Vec<u32>,
    pub your_numbers: Vec<u32>,
}

/// What a card holds.
pub struct CardModel {
    pub id: u32,
    pub winning_numbers: Seq<u32>,
    pub your_numbers: Seq<u32>,
}

impl View for Card {
    type V = CardModel;

    open spec fn view(&self) -> CardModel {
        CardModel {
            id: self.id,
            winning_numbers: self.winning_numbers@,
            your_numbers: self.your_numbers@,
        }
    }
}

/// The text of one space.
pub open spec fn space() -> Seq<u8> {
    " ".spec_bytes()
}

/// The text of one colon.
pub open spec fn colon() -> Seq<u8> {
    ":".spec_bytes()
}

/// The text of one vertical bar.
pub open spec fn bar() -> Seq<u8> {
    "|".spec_bytes()
}

/// The numbers that a list of words writes, the empty words left out; none
/// if a word that is not empty writes no `u32`.
pub open spec fn numbers_in(words: Seq<Seq<u8>>) -> Option<Seq<u32>>
    decreases words.len(),
{
    if words.len() == 0 {
        Some(Seq::empty())
    } else {
        match numbers_in(words.drop_last()) {
            None => None,
            Some(v) => if words.last().len() == 0 {
                Some(v)
            } else {
                match unsigned(words.last(), u32::MAX as int) {
                    None => None,
                    Some(n) => Some(v.push(n as u32)),
                }
            },
        }
    }
}

/// The numbers of a text in which spaces part the numbers.
pub open spec fn numbers_of(s: Seq<u8>) -> Option<Seq<u32>> {
    numbers_in(split_on(trimmed(s), space()))
}

/// Once the first few words fail to write numbers, so does the whole list.
pub proof fn lemma_numbers_in_prefix(words: Seq<Seq<u8>>, k: int)
    requires
        0 <= k <= words.len(),
        numbers_in(words.take(k)) is None,
    ensures
        numbers_in(words) is None,
    decreases words.len(),
{
    if k == words.len() {
        assert(words.take(k) =~= words);
    } else {
        assert(words.drop_last().take(k) =~= words.take(k));
        lemma_numbers_in_prefix(words.drop_last(), k);
    }
}

/// Reads the numbers of a text in which spaces part the numbers.
pub fn numbers_to_vec(numbers: &[u8]) -> (r: Option<Vec<u32>>)
    ensures
        match numbers_of(numbers@) {
            Some(v) => r matches Some(out) && out@ == v,
            None => r is None,
        },
{
    let sep = " ".as_bytes();
    proof {
        reveal_strlit(" ");
        is_ascii_spec_bytes(" ");
    }
    let words = split(trim(numbers), sep);
    let ghost all = texts(words@);
    let mut out: Vec<u32> = Vec::new();
    let mut i: usize = 0;
    assert(all.take(0) =~= Seq::<Seq<u8>>::empty());
    while i < words.len()
        invariant
            i <= words@.len(),
            all == texts(words@),
            all == split_on(trimmed(numbers@), space()),
            numbers_in(all.take(i as int)) == Some(out@),
        decreases words@.len() - i,
    {
        let w = words[i];
        proof {
            assert(all.take(i + 1).drop_last() =~= all.take(i as int));
            assert(all.take(i + 1).last() == w@);
        }
        if w.len() > 0 {
            match parse_unsigned(w, u32::MAX as u128) {
                Some(n) => {
                    out.push(n as u32);
                },
                None => {
                    proof {
                        assert(numbers_in(all.take(i + 1)) is None);
                        lemma_numbers_in_prefix(all, i + 1);
                    }
                    return None;
                },
            }
        }
        i += 1;
    }
    assert(all.take(i as int) =~= all);
    Some(out)
}

/// Whether `n` occurs in `v`.
pub fn contains(v: &Vec<u32>, n: u32) -> (r: bool)
    ensures
        r == v@.contains(n),
{
    let mut i: usize = 0;
    while i < v.len()
        invariant
            i <= v@.len(),
            forall|j: int| 0 <= j < i ==> v@[j] != n,
        decreases v@.len() - i,
    {
        if v[i] == n {
            return true;
        }
        i += 1;
    }
    false
}

/// The first `k` numbers on a card that are among its winning numbers, in
/// the order in which they stand on the card.
pub open spec fn winners_upto(card: CardModel, k: int) -> Seq<u32>
    decreases k,
{
    if k <= 0 {
        Seq::empty()
    } else {
        let rest = winners_upto(card, k - 1);
        if card.winning_numbers.contains(card.your_numbers[k - 1]) {
            rest.push(card.your_numbers[k - 1])
        } else {
            rest
        }
    }
}

/// The numbers on a card that are among its winning numbers.
pub open spec fn winners(card: CardModel) -> Seq<u32> {
    winners_upto(card, card.your_numbers.len() as int)
}

/// The numbers on the card that win.
pub fn get_winning_numbers(card: &Card) -> (r: Vec<&u32>)
    ensures
        r@.len() == winners(card@).len(),
        forall|i: int| 0 <= i < r@.len() ==> *r@[i] == winners(card@)[i],
{
    let mut out: Vec<&u32> = Vec::new();
    let mut i: usize = 0;
    while i < card.your_numbers.len()
        invariant
            i <= card.your_numbers@.len(),
            out@.len() == winners_upto(card@, i as int).len(),
            forall|j: int| 0 <= j < out@.len() ==> *out@[j] == winners_upto(card@, i as int)[j],
        decreases card.your_numbers@.len() - i,
    {
        if contains(&card.winning_numbers, card.your_numbers[i]) {
            out.push(&card.your_numbers[i]);
        }
        i += 1;
    }
    out
}

/// The card that a line writes: after the first colon stand the winning
/// numbers, a vertical bar and the numbers on the card; before it, after
/// the last space if there is one, stands the card's number.
pub open spec fn card_of(line: Seq<u8>) -> Option<CardModel> {
    let parts = split_on(trimmed(line), colon());
    if parts.len() < 2 {
        None
    } else {
        let halves = split_on(parts[1], bar());
        match unsigned(split_on(parts[0], space()).last(), u32::MAX as int) {
            None => None,
            Some(id) => if halves.len() < 2 {
                None
            } else {
                match (numbers_of(halves[0]), numbers_of(halves[1])) {
                    (Some(w), Some(y)) => Some(
                        CardModel { id: id as u32, winning_numbers: w, your_numbers: y },
                    ),
                    _ => None,
                }
            },
        }
    }
}

/// Reads one line as a card.
pub fn get_card(line: &[u8]) -> (r: Option<Card>)
    ensures
        match card_of(line@) {
            Some(c) => r matches Some(out) && out@ == c,
            None => r is None,
        },
{
    proof {
        reveal_strlit(" ");
        is_ascii_spec_bytes(" ");
        reveal_strlit(":");
        is_ascii_spec_bytes(":");
        reveal_strlit("|");
        is_ascii_spec_bytes("|");
    }
    let parts = split(trim(line), ":".as_bytes());
    if parts.len() < 2 {
        return None;
    }
    assert(texts(parts@)[0] == parts@[0]@ && texts(parts@)[1] == parts@[1]@);
    let words = split(parts[0], " ".as_bytes());
    assert(texts(words@).last() == words@[words@.len() - 1]@);
    let id = match parse_unsigned(words[words.len() - 1], u32::MAX as u128) {
        Some(n) => n as u32,
        None => {
            return None;
        },
    };
    let halves = split(parts[1], "|".as_bytes());
    if halves.len() < 2 {
        return None;
    }
    assert(texts(halves@)[0] == halves@[0]@ && texts(halves@)[1] == halves@[1]@);
    let winning_numbers = match numbers_to_vec(halves[0]) {
        Some(v) => v,
        None => {
            return None;
        },
    };
    let your_numbers = match numbers_to_vec(halves[1]) {
        Some(v) => v,
        None => {
            return None;
        },
    };
    Some(Card { id, winning_numbers, your_numbers })
}

/// Two to the power of `k`.
pub open spec fn two_to(k: nat) -> nat
    decreases k,
{
    if k == 0 {
        1
    } else {
        2 * two_to((k - 1) as nat)
    }
}

/// The powers of two grow with the exponent.
pub proof fn lemma_two_to_grows(j: nat, k: nat)
    requires
        j <= k,
    ensures
        two_to(j) <= two_to(k),
    decreases k,
{
    if j < k {
        lemma_two_to_grows(j, (k - 1) as nat);
    }
}

/// What a card with `n` winning numbers on it is worth: nothing without
/// any, one point for the first and twice as much for each further one, as
/// long as that fits a `u32`.
pub open spec fn worth(n: nat) -> Option<nat> {
    if n == 0 {
        Some(0)
    } else if two_to((n - 1) as nat) <= u32::MAX {
        Some(two_to((n - 1) as nat))
    } else {
        None
    }
}

/// Computes what a card with `n` winning numbers on it is worth.
pub fn points(n: usize) -> (r: Option<u32>)
    ensures
        match worth(n as nat) {
            Some(p) => r == Some(p as u32),
            None => r is None,
        },
{
    if n == 0 {
        return Some(0);
    }
    let mut p: u32 = 1;
    let mut j: usize = 0;
    while j < n - 1
        invariant
            j <= n - 1,
            p == two_to(j as nat),
        decreases n - 1 - j,
    {
        if p > u32::MAX / 2 {
            proof {
                lemma_two_to_grows((j + 1) as nat, (n - 1) as nat);
            }
            return None;
        }
        p = p * 2;
        j += 1;
    }
    Some(p)
}

/// What the cards of a list of lines are worth together; none if a line is
/// no card or a card's worth does not fit a `u32`.
pub open spec fn total_worth(rows: Seq<Seq<u8>>) -> Option<nat>
    decreases rows.len(),
{
    if rows.len() == 0 {
        Some(0)
    } else {
        match (total_worth(rows.drop_last()), card_of(rows.last())) {
            (Some(t), Some(c)) => match worth(winners(c).len()) {
                Some(p) => Some(t + p),
                None => None,
            },
            _ => None,
        }
    }
}

/// The worth of the first few lines is no more than that of all, and once
/// it fails, so does that of all.
pub proof fn lemma_total_worth_prefix(rows: Seq<Seq<u8>>, k: int)
    requires
        0 <= k <= rows.len(),
    ensures
        total_worth(rows.take(k)) is None ==> total_worth(rows) is None,
        total_worth(rows) matches Some(t) ==> total_worth(rows.take(k)) matches Some(p) && p <= t,
    decreases rows.len(),
{
    if k == rows.len() {
        assert(rows.take(k) =~= rows);
    } else {
        assert(rows.drop_last().take(k) =~= rows.take(k));
        lemma_total_worth_prefix(rows.drop_last(), k);
    }
}

/// What the cards of a text are worth together, as far as it fits a `u32`.
pub open spec fn part1_of(input: Seq<u8>) -> Option<u32> {
    match total_worth(lines(input)) {
        Some(t) => if t <= u32::MAX {
            Some(t as u32)
        } else {
            None
        },
        None => None,
    }
}

/// Adds up what the cards of a text, one to a line, are worth.
pub fn part1(input: &[u8]) -> (r: Option<u32>)
    ensures
        r == part1_of(input@),
{
    let rows = split_lines(input);
    let ghost all = texts(rows@);
    let mut sum: u32 = 0;
    let mut i: usize = 0;
    assert(all.take(0) =~= Seq::<Seq<u8>>::empty());
    while i < rows.len()
        invariant
            i <= rows@.len(),
            all == texts(rows@),
            all == lines(input@),
            total_worth(all.take(i as int)) == Some(sum as nat),
        decreases rows@.len() - i,
    {
        proof {
            assert(all.take(i + 1).drop_last() =~= all.take(i as int));
            assert(all.take(i + 1).last() == rows@[i as int]@);
            lemma_total_worth_prefix(all, i + 1);
        }
        let card = match get_card(rows[i]) {
            Some(c) => c,
            None => {
                return None;
            },
        };
        let won = get_winning_numbers(&card);
        let p = match points(won.len()) {
            Some(p) => p,
            None => {
                return None;
            },
        };
        sum = match sum.checked_add(p) {
            Some(t) => t,
            None => {
                return None;
            },
        };
        i += 1;
    }
    assert(all.take(i as int) =~= all);
    Some(sum)
}

} // verus!

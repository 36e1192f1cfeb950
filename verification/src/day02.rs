// Cube games: a game is possible where no draw shows more cubes of a colour
// than the bag holds, and the answer is the sum of the numbers of such games.

use vstd::prelude::*;
use vstd::string::{StringSliceAdditionalSpecFns, is_ascii_spec_bytes};
use crate::text::{
    bytes_eq, lemma_sum_prefix, lines, parse_unsigned, split, split_lines, split_on, sum, texts,
    trim, trimmed, unsigned,
};

verus! {

/// A number of cubes of each colour.
#[derive(Debug, Clone, Copy, PartialEq, Eq)]
pub struct Cubes {
    pub red: u32,
    pub blue: u32,
    pub green: u32,
}

/// A game: its number, and the cubes shown at each draw.
#[derive(Debug)]
pub struct Game {
    pub id: u32,
    pub cubes: Vec<Cubes>,
}

/// What a game holds.
pub struct GameModel {
    pub id: u32,
    pub cubes: Seq<Cubes>,
}

impl View for Game {
    type V = GameModel;

    open spec fn view(&self) -> GameModel {
        GameModel { id: self.id, cubes: self.cubes@ }
    }
}

/// The three colours of cubes.
#[derive(Debug, Clone, Copy, PartialEq, Eq)]
pub enum Color {
    Red,
    Blue,
    Green,
}

/// The colour that a word names.
pub open spec fn color_of(name: Seq<u8>) -> Option<Color> {
    if name == "red".spec_bytes() {
        Some(Color::Red)
    } else if name == "blue".spec_bytes() {
        Some(Color::Blue)
    } else if name == "green".spec_bytes() {
        Some(Color::Green)
    } else {
        None
    }
}

/// The cubes `c` with the number of one colour set to `n`.
pub open spec fn with_color(c: Cubes, color: Color, n: u32) -> Cubes {
    match color {
        Color::Red => Cubes { red: n, blue: c.blue, green: c.green },
        Color::Blue => Cubes { red: c.red, blue: n, green: c.green },
        Color::Green => Cubes { red: c.red, blue: c.blue, green: n },
    }
}

/// What one entry of a draw says: a number, a space and the name of a
/// colour, which white space may surround.
pub open spec fn entry_of(text: Seq<u8>) -> Option<(Color, u32)> {
    let words = split_on(trimmed(text), " ".spec_bytes());
    match unsigned(words[0], u32::MAX as int) {
        None => None,
        Some(n) => if words.len() < 2 {
            None
        } else {
            match color_of(trimmed(words[1])) {
                None => None,
                Some(color) => Some((color, n as u32)),
            }
        },
    }
}

/// The cubes that a list of entries shows: of each colour as many as the
/// last entry for that colour says, and none of a colour without an entry.
pub open spec fn cubes_in(entries: Seq<Seq<u8>>) -> Option<Cubes>
    decreases entries.len(),
{
    if entries.len() == 0 {
        Some(Cubes { red: 0, blue: 0, green: 0 })
    } else {
        match (cubes_in(entries.drop_last()), entry_of(entries.last())) {
            (Some(c), Some((color, n))) => Some(with_color(c, color, n)),
            _ => None,
        }
    }
}

/// The cubes that one draw shows, its entries parted by commas.
pub open spec fn cubes_of(draw: Seq<u8>) -> Option<Cubes> {
    cubes_in(split_on(draw, ",".spec_bytes()))
}

/// The cubes that each draw of a list shows.
pub open spec fn draws_in(draws: Seq<Seq<u8>>) -> Option<Seq<Cubes>>
    decreases draws.len(),
{
    if draws.len() == 0 {
        Some(Seq::empty())
    } else {
        match (draws_in(draws.drop_last()), cubes_of(draws.last())) {
            (Some(v), Some(c)) => Some(v.push(c)),
            _ => None,
        }
    }
}

/// The game that a line writes: before the first colon and space stands
/// the game's number, as the second word; after them stand the draws,
/// parted by semicolons.
pub open spec fn game_of(line: Seq<u8>) -> Option<GameModel> {
    let parts = split_on(line, ": ".spec_bytes());
    let words = split_on(trimmed(parts[0]), " ".spec_bytes());
    if words.len() < 2 || parts.len() < 2 {
        None
    } else {
        match (
            unsigned(words[1], u32::MAX as int),
            draws_in(split_on(parts[1], ";".spec_bytes())),
        ) {
            (Some(id), Some(cubes)) => Some(GameModel { id: id as u32, cubes }),
            _ => None,
        }
    }
}

/// Once the first few entries fail, so does the whole draw.
pub proof fn lemma_cubes_in_prefix(entries: Seq<Seq<u8>>, k: int)
    requires
        0 <= k <= entries.len(),
        cubes_in(entries.take(k)) is None,
    ensures
        cubes_in(entries) is None,
    decreases entries.len(),
{
    if k == entries.len() {
        assert(entries.take(k) =~= entries);
    } else {
        assert(entries.drop_last().take(k) =~= entries.take(k));
        lemma_cubes_in_prefix(entries.drop_last(), k);
    }
}

/// Once the first few draws fail, so does the whole list.
pub proof fn lemma_draws_in_prefix(draws: Seq<Seq<u8>>, k: int)
    requires
        0 <= k <= draws.len(),
        draws_in(draws.take(k)) is None,
    ensures
        draws_in(draws) is None,
    decreases draws.len(),
{
    if k == draws.len() {
        assert(draws.take(k) =~= draws);
    } else {
        assert(draws.drop_last().take(k) =~= draws.take(k));
        lemma_draws_in_prefix(draws.drop_last(), k);
    }
}

/// Reads the name of a colour.
pub fn read_color(name: &[u8]) -> (r: Option<Color>)
    ensures
        r == color_of(name@),
{
    if bytes_eq(name, "red".as_bytes()) {
        Some(Color::Red)
    } else if bytes_eq(name, "blue".as_bytes()) {
        Some(Color::Blue)
    } else if bytes_eq(name, "green".as_bytes()) {
        Some(Color::Green)
    } else {
        None
    }
}

/// Reads one entry of a draw.
pub fn read_entry(text: &[u8]) -> (r: Option<(Color, u32)>)
    ensures
        r == entry_of(text@),
{
    proof {
        reveal_strlit(" ");
        is_ascii_spec_bytes(" ");
    }
    let words = split(trim(text), " ".as_bytes());
    assert(texts(words@)[0] == words@[0]@);
    let n = match parse_unsigned(words[0], u32::MAX as u128) {
        Some(n) => n as u32,
        None => {
            return None;
        },
    };
    if words.len() < 2 {
        return None;
    }
    assert(texts(words@)[1] == words@[1]@);
    match read_color(trim(words[1])) {
        Some(color) => Some((color, n)),
        None => None,
    }
}

/// Reads one draw.
pub fn read_draw(draw: &[u8]) -> (r: Option<Cubes>)
    ensures
        r == cubes_of(draw@),
{
    proof {
        reveal_strlit(",");
        is_ascii_spec_bytes(",");
    }
    let entries = split(draw, ",".as_bytes());
    let ghost all = texts(entries@);
    let mut current = Cubes { red: 0, blue: 0, green: 0 };
    let mut i: usize = 0;
    assert(all.take(0) =~= Seq::<Seq<u8>>::empty());
    while i < entries.len()
        invariant
            i <= entries@.len(),
            all == texts(entries@),
            all == split_on(draw@, ",".spec_bytes()),
            cubes_in(all.take(i as int)) == Some(current),
        decreases entries@.len() - i,
    {
        proof {
            assert(all.take(i + 1).drop_last() =~= all.take(i as int));
            assert(all.take(i + 1).last() == entries@[i as int]@);
        }
        match read_entry(entries[i]) {
            Some((color, n)) => {
                match color {
                    Color::Red => {
                        current.red = n;
                    },
                    Color::Blue => {
                        current.blue = n;
                    },
                    Color::Green => {
                        current.green = n;
                    },
                }
            },
            None => {
                proof {
                    lemma_cubes_in_prefix(all, i + 1);
                }
                return None;
            },
        }
        i += 1;
    }
    assert(all.take(i as int) =~= all);
    Some(current)
}

/// Reads one line as a game.
#[verifier::loop_isolation(false)]
pub fn parse1(line: &[u8]) -> (r: Option<Game>)
    ensures
        match game_of(line@) {
            Some(g) => r matches Some(out) && out@ == g,
            None => r is None,
        },
{
    proof {
        reveal_strlit(" ");
        is_ascii_spec_bytes(" ");
        reveal_strlit(": ");
        is_ascii_spec_bytes(": ");
        reveal_strlit(";");
        is_ascii_spec_bytes(";");
    }
    let parts = split(line, ": ".as_bytes());
    assert(texts(parts@)[0] == parts@[0]@);
    let words = split(trim(parts[0]), " ".as_bytes());
    if words.len() < 2 || parts.len() < 2 {
        return None;
    }
    assert(texts(words@)[1] == words@[1]@);
    assert(texts(parts@)[1] == parts@[1]@);
    let id = match parse_unsigned(words[1], u32::MAX as u128) {
        Some(n) => n as u32,
        None => {
            return None;
        },
    };
    let draws = split(parts[1], ";".as_bytes());
    let ghost all = texts(draws@);
    let mut cubes: Vec<Cubes> = Vec::new();
    let mut i: usize = 0;
    assert(all.take(0) =~= Seq::<Seq<u8>>::empty());
    while i < draws.len()
        invariant
            i <= draws@.len(),
            all == texts(draws@),
            draws_in(all.take(i as int)) == Some(cubes@),
        decreases draws@.len() - i,
    {
        proof {
            assert(all.take(i + 1).drop_last() =~= all.take(i as int));
            assert(all.take(i + 1).last() == draws@[i as int]@);
        }
        match read_draw(draws[i]) {
            Some(c) => {
                cubes.push(c);
            },
            None => {
                proof {
                    lemma_draws_in_prefix(all, i + 1);
                }
                return None;
            },
        }
        i += 1;
    }
    assert(all.take(i as int) =~= all);
    Some(Game { id, cubes })
}

/// No draw of the game shows more cubes of a colour than `limit` has.
pub open spec fn possible(game: GameModel, limit: Cubes) -> bool {
    forall|i: int|
        0 <= i < game.cubes.len() ==> (#[trigger] game.cubes[i]).red <= limit.red
            && game.cubes[i].blue <= limit.blue && game.cubes[i].green <= limit.green
}

/// Checks that no draw of the game shows more cubes than `limit` has.
pub fn is_possible(game: &Game, limit: &Cubes) -> (r: bool)
    ensures
        r == possible(game@, *limit),
{
    let mut i: usize = 0;
    while i < game.cubes.len()
        invariant
            i <= game.cubes@.len(),
            forall|j: int|
                0 <= j < i ==> (#[trigger] game.cubes@[j]).red <= limit.red && game.cubes@[j].blue
                    <= limit.blue && game.cubes@[j].green <= limit.green,
        decreases game.cubes@.len() - i,
    {
        let c = game.cubes[i];
        if !(c.red <= limit.red && c.blue <= limit.blue && c.green <= limit.green) {
            assert(!(game@.cubes[i as int].red <= limit.red && game@.cubes[i as int].blue
                <= limit.blue && game@.cubes[i as int].green <= limit.green));
            return false;
        }
        i += 1;
    }
    true
}

/// The games that a list of lines writes.
pub open spec fn games_in(rows: Seq<Seq<u8>>) -> Option<Seq<GameModel>>
    decreases rows.len(),
{
    if rows.len() == 0 {
        Some(Seq::empty())
    } else {
        match (games_in(rows.drop_last()), game_of(rows.last())) {
            (Some(v), Some(g)) => Some(v.push(g)),
            _ => None,
        }
    }
}

/// The numbers of those of the first `k` games that are possible with the
/// cubes of `limit`, in the order of the games.
pub open spec fn possible_upto(games: Seq<GameModel>, limit: Cubes, k: int) -> Seq<u32>
    decreases k,
{
    if k <= 0 {
        Seq::empty()
    } else {
        let rest = possible_upto(games, limit, k - 1);
        if possible(games[k - 1], limit) {
            rest.push(games[k - 1].id)
        } else {
            rest
        }
    }
}

/// The numbers of the games of a list of lines that are possible with the
/// cubes of `limit`; none if a line is no game.
pub open spec fn possible_ids(rows: Seq<Seq<u8>>, limit: Cubes) -> Option<Seq<u32>> {
    match games_in(rows) {
        Some(games) => Some(possible_upto(games, limit, games.len() as int)),
        None => None,
    }
}

/// Once the first few lines fail to write games, so does the whole list.
pub proof fn lemma_games_in_prefix(rows: Seq<Seq<u8>>, k: int)
    requires
        0 <= k <= rows.len(),
        games_in(rows.take(k)) is None,
    ensures
        games_in(rows) is None,
    decreases rows.len(),
{
    if k == rows.len() {
        assert(rows.take(k) =~= rows);
    } else {
        assert(rows.drop_last().take(k) =~= rows.take(k));
        lemma_games_in_prefix(rows.drop_last(), k);
    }
}

/// What a list of games holds, game by game.
pub open spec fn game_models(games: Seq<Game>) -> Seq<GameModel> {
    Seq::new(games.len(), |i: int| games[i]@)
}

/// Reads every line as a game and returns the numbers of the games that
/// are possible with the cubes of `cubes`.
pub fn process1(lines: Vec<&[u8]>, cubes: &Cubes) -> (r: Option<Vec<u32>>)
    ensures
        match possible_ids(texts(lines@), *cubes) {
            Some(ids) => r matches Some(out) && out@ == ids,
            None => r is None,
        },
{
    let ghost all = texts(lines@);
    let mut games: Vec<Game> = Vec::new();
    let mut i: usize = 0;
    assert(all.take(0) =~= Seq::<Seq<u8>>::empty());
    assert(game_models(games@) =~= Seq::<GameModel>::empty());
    while i < lines.len()
        invariant
            i <= lines@.len(),
            all == texts(lines@),
            games_in(all.take(i as int)) == Some(game_models(games@)),
        decreases lines@.len() - i,
    {
        proof {
            assert(all.take(i + 1).drop_last() =~= all.take(i as int));
            assert(all.take(i + 1).last() == lines@[i as int]@);
        }
        match parse1(lines[i]) {
            Some(g) => {
                proof {
                    assert(game_models(games@.push(g)) =~= game_models(games@).push(g@));
                }
                games.push(g);
            },
            None => {
                proof {
                    lemma_games_in_prefix(all, i + 1);
                }
                return None;
            },
        }
        i += 1;
    }
    assert(all.take(i as int) =~= all);
    let mut ids: Vec<u32> = Vec::new();
    let mut k: usize = 0;
    while k < games.len()
        invariant
            k <= games@.len(),
            ids@ == possible_upto(game_models(games@), *cubes, k as int),
        decreases games@.len() - k,
    {
        assert(game_models(games@)[k as int] == games@[k as int]@);
        if is_possible(&games[k], cubes) {
            ids.push(games[k].id);
        }
        k += 1;
    }
    Some(ids)
}

/// The sum of the numbers of the possible games of a text, as far as it
/// fits a `u32`.
pub open spec fn part1_of(input: Seq<u8>, limit: Cubes) -> Option<u32> {
    match possible_ids(lines(input), limit) {
        Some(ids) => if sum(ids) <= u32::MAX {
            Some(sum(ids) as u32)
        } else {
            None
        },
        None => None,
    }
}

/// Adds up the numbers of the games of a text, one to a line, that are
/// possible with the cubes of `cubes`.
#[verifier::loop_isolation(false)]
pub fn part1(input: &[u8], cubes: &Cubes) -> (r: Option<u32>)
    ensures
        r == part1_of(input@, *cubes),
{
    let rows = split_lines(input);
    let ids = match process1(rows, cubes) {
        Some(ids) => ids,
        None => {
            return None;
        },
    };
    let mut total: u32 = 0;
    let mut i: usize = 0;
    assert(ids@.take(0) =~= Seq::<u32>::empty());
    while i < ids.len()
        invariant
            i <= ids@.len(),
            total == sum(ids@.take(i as int)),
        decreases ids@.len() - i,
    {
        proof {
            assert(ids@.take(i + 1).drop_last() =~= ids@.take(i as int));
            lemma_sum_prefix(ids@, i + 1);
        }
        total = match total.checked_add(ids[i]) {
            Some(t) => t,
            None => {
                return None;
            },
        };
        i += 1;
    }
    assert(ids@.take(i as int) =~= ids@);
    Some(total)
}

} // verus!

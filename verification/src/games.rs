//! Records of cube games: `Game 1: 3 blue, 4 red; 1 red, 2 green`.
//!
//! `game_of` says what a line records, piece by piece as the text is split
//! at colons, semicolons, commas and blanks. The executable readers are
//! proved to give exactly that.

use vstd::prelude::*;
use crate::text::{
    chars_of, contains_chars, number_of, occurs, parse_number, split, split_chars, texts, trim,
    trim_chars,
};

verus! {

/// The most red cubes that a possible draw shows.
pub const MAX_RED: usize = 12;

/// The most green cubes that a possible draw shows.
pub const MAX_GREEN: usize = 13;

/// The most blue cubes that a possible draw shows.
pub const MAX_BLUE: usize = 14;

/// Why a line is not the record of a game.
#[derive(Debug, Clone, Copy, PartialEq, Eq, Structural)]
pub enum GameError {
    /// The text before the first colon does not end in a number.
    InvalidId,
    /// A part of a draw names a colour but does not begin with a number.
    InvalidCount,
}

/// The three colours of cubes.
#[derive(Debug, Clone, Copy, PartialEq, Eq, Structural)]
pub enum Colour {
    Blue,
    Green,
    Red,
}

/// The cubes shown in one draw, by colour.
#[derive(Debug, Clone, Copy, PartialEq, Eq, Structural)]
pub struct Draw {
    pub blue: usize,
    pub red: usize,
    pub green: usize,
}

/// A game: its number and its draws in the order of the record.
#[derive(Debug, Clone, PartialEq, Eq)]
pub struct Game {
    pub id: usize,
    pub draws: Vec<Draw>,
}

/// What a game is, with its draws as a sequence.
pub struct GameView {
    pub id: usize,
    pub draws: Seq<Draw>,
}

impl View for Game {
    type V = GameView;

    open spec fn view(&self) -> GameView {
        GameView { id: self.id, draws: self.draws@ }
    }
}

/// The colour that a part of a draw names. Where it names several, blue goes
/// before green and green before red.
pub open spec fn colour_of(part: Seq<char>) -> Option<Colour> {
    if occurs(part, "blue"@) {
        Some(Colour::Blue)
    } else if occurs(part, "green"@) {
        Some(Colour::Green)
    } else if occurs(part, "red"@) {
        Some(Colour::Red)
    } else {
        None
    }
}

/// The number at the beginning of a part of a draw: what stands, white space
/// at the ends apart, before the first blank.
pub open spec fn count_of(part: Seq<char>) -> Option<usize> {
    number_of(split(trim(part), ' ').first())
}

/// The draw that the parts of its text give, read from left to right. A part
/// that names no colour is passed over; a later part of one colour replaces
/// an earlier one; one part with a colour and without a number spoils the
/// draw.
pub open spec fn draw_of_parts(parts: Seq<Seq<char>>) -> Option<Draw>
    decreases parts.len(),
{
    if parts.len() == 0 {
        Some(Draw { blue: 0, red: 0, green: 0 })
    } else {
        match draw_of_parts(parts.drop_last()) {
            None => None,
            Some(draw) => match colour_of(parts.last()) {
                None => Some(draw),
                Some(colour) => match count_of(parts.last()) {
                    None => None,
                    Some(n) => Some(draw.with(colour, n)),
                },
            },
        }
    }
}

/// The draw that a text writes, its parts set apart by commas.
pub open spec fn draw_of(text: Seq<char>) -> Option<Draw> {
    draw_of_parts(split(text, ','))
}

/// The draws that a sequence of texts writes, if each of them writes one.
pub open spec fn draws_of_texts(all: Seq<Seq<char>>) -> Option<Seq<Draw>>
    decreases all.len(),
{
    if all.len() == 0 {
        Some(Seq::empty())
    } else {
        match (draws_of_texts(all.drop_last()), draw_of(all.last())) {
            (Some(draws), Some(draw)) => Some(draws.push(draw)),
            _ => None,
        }
    }
}

/// The number of the game: what stands after the last blank of the text
/// before the first colon.
pub open spec fn id_of(line: Seq<char>) -> Option<usize> {
    number_of(split(split(line, ':').first(), ' ').last())
}

/// The draws of the game: the text between the first colon and the second,
/// its draws set apart by semicolons. A line without a colon has no draws;
/// what follows a second colon is not read.
pub open spec fn draws_of(line: Seq<char>) -> Option<Seq<Draw>> {
    let parts = split(line, ':');
    if parts.len() < 2 {
        Some(Seq::empty())
    } else {
        draws_of_texts(split(parts[1], ';'))
    }
}

/// The game that a line records. The number is read first, so a line that is
/// wrong in both ways is refused for its number.
pub open spec fn game_of(line: Seq<char>) -> Result<GameView, GameError> {
    match id_of(line) {
        None => Err(GameError::InvalidId),
        Some(id) => match draws_of(line) {
            None => Err(GameError::InvalidCount),
            Some(draws) => Ok(GameView { id, draws }),
        },
    }
}

/// The least number of cubes of each colour with which every one of `draws`
/// can be made: for each colour the most that any draw shows.
pub open spec fn least_cover(draws: Seq<Draw>) -> Draw
    decreases draws.len(),
{
    if draws.len() == 0 {
        Draw { blue: 0, red: 0, green: 0 }
    } else {
        let before = least_cover(draws.drop_last());
        let d = draws.last();
        Draw {
            blue: if d.blue > before.blue {
                d.blue
            } else {
                before.blue
            },
            red: if d.red > before.red {
                d.red
            } else {
                before.red
            },
            green: if d.green > before.green {
                d.green
            } else {
                before.green
            },
        }
    }
}

/// Every one of `draws` is possible.
pub open spec fn all_possible(draws: Seq<Draw>) -> bool {
    forall|i: int| 0 <= i < draws.len() ==> (#[trigger] draws[i]).possible()
}

/// Once a part has spoilt a draw, no further part mends it.
proof fn lemma_draw_spoilt(parts: Seq<Seq<char>>, k: int)
    requires
        0 <= k <= parts.len(),
        draw_of_parts(parts.take(k)) is None,
    ensures
        draw_of_parts(parts) is None,
    decreases parts.len() - k,
{
    if k < parts.len() {
        assert(parts.take(k + 1).drop_last() =~= parts.take(k));
        lemma_draw_spoilt(parts, k + 1);
    } else {
        assert(parts.take(k) =~= parts);
    }
}

/// Once a text has failed to give a draw, the sequence gives none.
proof fn lemma_draws_spoilt(all: Seq<Seq<char>>, k: int)
    requires
        0 <= k <= all.len(),
        draws_of_texts(all.take(k)) is None,
    ensures
        draws_of_texts(all) is None,
    decreases all.len() - k,
{
    if k < all.len() {
        assert(all.take(k + 1).drop_last() =~= all.take(k));
        lemma_draws_spoilt(all, k + 1);
    } else {
        assert(all.take(k) =~= all);
    }
}

/// The least cover shows no fewer cubes than any of the draws, and of each
/// colour no more than some draw shows, or none where there is no draw.
pub proof fn lemma_least_cover(draws: Seq<Draw>)
    ensures
        forall|i: int| 0 <= i < draws.len() ==> least_cover(draws).covers(#[trigger] draws[i]),
        least_cover(draws).blue == 0 || exists|i: int|
            0 <= i < draws.len() && (#[trigger] draws[i]).blue == least_cover(draws).blue,
        least_cover(draws).red == 0 || exists|i: int|
            0 <= i < draws.len() && (#[trigger] draws[i]).red == least_cover(draws).red,
        least_cover(draws).green == 0 || exists|i: int|
            0 <= i < draws.len() && (#[trigger] draws[i]).green == least_cover(draws).green,
    decreases draws.len(),
{
    if draws.len() > 0 {
        let before = draws.drop_last();
        let last = draws.len() - 1;
        lemma_least_cover(before);
        assert forall|i: int| 0 <= i < draws.len() implies least_cover(draws).covers(
            #[trigger] draws[i],
        ) by {
            if i < last {
                assert(least_cover(before).covers(before[i]));
            }
        }
        let m = least_cover(draws);
        let b = least_cover(before);
        if m.blue != 0 {
            if m.blue == draws[last].blue {
            } else {
                let i = choose|i: int| 0 <= i < before.len() && (#[trigger] before[i]).blue == b.blue;
                assert(draws[i].blue == m.blue);
            }
        }
        if m.red != 0 {
            if m.red == draws[last].red {
            } else {
                let i = choose|i: int| 0 <= i < before.len() && (#[trigger] before[i]).red == b.red;
                assert(draws[i].red == m.red);
            }
        }
        if m.green != 0 {
            if m.green == draws[last].green {
            } else {
                let i = choose|i: int|
                    0 <= i < before.len() && (#[trigger] before[i]).green == b.green;
                assert(draws[i].green == m.green);
            }
        }
    }
}

impl Default for Draw {
    /// The draw that shows no cube.
    fn default() -> (d: Draw)
        ensures
            d == (Draw { blue: 0, red: 0, green: 0 }),
    {
        Draw { blue: 0, red: 0, green: 0 }
    }
}

impl Default for Game {
    /// Game 0, without a draw.
    fn default() -> (g: Game)
        ensures
            g@ == (GameView { id: 0, draws: Seq::empty() }),
    {
        Game { id: 0, draws: Vec::new() }
    }
}

impl Draw {
    /// This draw with `n` cubes of `colour` in place of what it had of that
    /// colour.
    pub open spec fn with(self, colour: Colour, n: usize) -> Draw {
        match colour {
            Colour::Blue => Draw { blue: n, ..self },
            Colour::Green => Draw { green: n, ..self },
            Colour::Red => Draw { red: n, ..self },
        }
    }

    /// The draw shows no more cubes of any colour than the bag holds.
    pub open spec fn possible(self) -> bool {
        self.red <= MAX_RED && self.blue <= MAX_BLUE && self.green <= MAX_GREEN
    }

    /// This draw shows of each colour at least as many cubes as `other`.
    pub open spec fn covers(self, other: Draw) -> bool {
        other.blue <= self.blue && other.red <= self.red && other.green <= self.green
    }

    /// The product of the three counts.
    pub open spec fn product(self) -> int {
        self.blue * self.red * self.green
    }

    /// The product can be formed in the machine word, blue times red first.
    pub open spec fn product_fits(self) -> bool {
        self.blue * self.red <= usize::MAX && self.product() <= usize::MAX
    }

    /// The product of the three counts.
    pub fn power(&self) -> (p: usize)
        requires
            self.product_fits(),
        ensures
            p == self.product(),
    {
        self.blue * self.red * self.green
    }

    /// The product of the three counts, or nothing where it cannot be formed
    /// in the machine word.
    pub fn checked_power(&self) -> (p: Option<usize>)
        ensures
            match p {
                Some(n) => self.product_fits() && n == self.product(),
                None => !self.product_fits(),
            },
    {
        match self.blue.checked_mul(self.red) {
            None => None,
            Some(both) => both.checked_mul(self.green),
        }
    }

    /// Whether the draw is possible: at most 12 red, 13 green and 14 blue
    /// cubes.
    pub fn validate(&self) -> (b: bool)
        ensures
            b == self.possible(),
    {
        self.red <= MAX_RED && self.blue <= MAX_BLUE && self.green <= MAX_GREEN
    }

    /// The number at the beginning of a part of a draw, such as the 3 of
    /// `" 3 blue"`.
    pub fn parse_inner(part: &str) -> (r: Result<usize, GameError>)
        ensures
            match r {
                Ok(n) => count_of(part@) == Some(n),
                Err(e) => e == GameError::InvalidCount && count_of(part@) is None,
            },
    {
        let chars = chars_of(part);
        match count_in(chars.as_slice()) {
            Some(n) => Ok(n),
            None => Err(GameError::InvalidCount),
        }
    }

    /// The draw that `line` writes, such as `" 3 blue, 4 red"`. A colour that
    /// is not named has no cubes.
    pub fn from_input(line: &str) -> (r: Result<Draw, GameError>)
        ensures
            match r {
                Ok(d) => draw_of(line@) == Some(d),
                Err(e) => e == GameError::InvalidCount && draw_of(line@) is None,
            },
    {
        let chars = chars_of(line);
        match draw_in(chars.as_slice()) {
            Some(d) => Ok(d),
            None => Err(GameError::InvalidCount),
        }
    }
}

/// The number at the beginning of a part of a draw.
fn count_in(part: &[char]) -> (r: Option<usize>)
    ensures
        r == count_of(part@),
{
    let pieces = split_chars(trim_chars(part), ' ');
    assert(texts(pieces@).first() == pieces@[0]@);
    parse_number(pieces[0].as_slice())
}

/// The colour that a part of a draw names.
fn colour_in(part: &[char]) -> (r: Option<Colour>)
    ensures
        r == colour_of(part@),
{
    let blue = chars_of("blue");
    let green = chars_of("green");
    let red = chars_of("red");
    if contains_chars(part, blue.as_slice()) {
        Some(Colour::Blue)
    } else if contains_chars(part, green.as_slice()) {
        Some(Colour::Green)
    } else if contains_chars(part, red.as_slice()) {
        Some(Colour::Red)
    } else {
        None
    }
}

/// The draw that the characters of a text write.
fn draw_in(text: &[char]) -> (r: Option<Draw>)
    ensures
        r == draw_of(text@),
{
    let parts = split_chars(text, ',');
    let ghost all = texts(parts@);
    let mut draw = Draw { blue: 0, red: 0, green: 0 };
    let mut k: usize = 0;
    while k < parts.len()
        invariant
            k <= parts.len(),
            all == texts(parts@),
            all == split(text@, ','),
            draw_of_parts(all.take(k as int)) == Some(draw),
        decreases parts.len() - k,
    {
        proof {
            assert(all.take(k + 1).drop_last() =~= all.take(k as int));
            assert(all.take(k + 1).last() == parts@[k as int]@);
        }
        match colour_in(parts[k].as_slice()) {
            None => {},
            Some(colour) => match count_in(parts[k].as_slice()) {
                None => {
                    proof {
                        lemma_draw_spoilt(all, k + 1);
                    }
                    return None;
                },
                Some(n) => {
                    draw = match colour {
                        Colour::Blue => Draw { blue: n, red: draw.red, green: draw.green },
                        Colour::Green => Draw { blue: draw.blue, red: draw.red, green: n },
                        Colour::Red => Draw { blue: draw.blue, red: n, green: draw.green },
                    };
                },
            },
        }
        k += 1;
    }
    assert(all.take(k as int) =~= all);
    Some(draw)
}

/// The game that the characters of a line record.
fn game_in(line: &[char]) -> (r: Result<Game, GameError>)
    ensures
        match r {
            Ok(g) => game_of(line@) == Ok::<GameView, GameError>(g@),
            Err(e) => game_of(line@) == Err::<GameView, GameError>(e),
        },
{
    let parts = split_chars(line, ':');
    assert(texts(parts@).first() == parts@[0]@);
    let head = split_chars(parts[0].as_slice(), ' ');
    assert(texts(head@).last() == head@[head@.len() - 1]@);
    let id = match parse_number(head[head.len() - 1].as_slice()) {
        Some(n) => n,
        None => {
            return Err(GameError::InvalidId);
        },
    };
    let mut draws: Vec<Draw> = Vec::new();
    if parts.len() >= 2 {
        assert(texts(parts@)[1] == parts@[1]@);
        let records = split_chars(parts[1].as_slice(), ';');
        let ghost all = texts(records@);
        let mut k: usize = 0;
        while k < records.len()
            invariant
                k <= records.len(),
                all == texts(records@),
                id_of(line@) == Some(id),
                split(line@, ':').len() >= 2,
                all == split(split(line@, ':')[1], ';'),
                draws_of_texts(all.take(k as int)) == Some(draws@),
            decreases records.len() - k,
        {
            proof {
                assert(all.take(k + 1).drop_last() =~= all.take(k as int));
                assert(all.take(k + 1).last() == records@[k as int]@);
            }
            match draw_in(records[k].as_slice()) {
                None => {
                    proof {
                        lemma_draws_spoilt(all, k + 1);
                    }
                    return Err(GameError::InvalidCount);
                },
                Some(d) => {
                    draws.push(d);
                },
            }
            k += 1;
        }
        assert(all.take(k as int) =~= all);
    }
    Ok(Game { id, draws })
}

impl Game {
    /// The game that `line` records, such as
    /// `"Game 1: 3 blue, 4 red; 1 red, 2 green"`.
    pub fn from_line(line: &str) -> (r: Result<Game, GameError>)
        ensures
            match r {
                Ok(g) => game_of(line@) == Ok::<GameView, GameError>(g@),
                Err(e) => game_of(line@) == Err::<GameView, GameError>(e),
            },
    {
        let chars = chars_of(line);
        game_in(chars.as_slice())
    }

    /// Whether every draw of the game is possible.
    pub fn validate(&self) -> (b: bool)
        ensures
            b == all_possible(self.draws@),
    {
        let mut k: usize = 0;
        while k < self.draws.len()
            invariant
                k <= self.draws.len(),
                forall|i: int| 0 <= i < k ==> (#[trigger] self.draws@[i]).possible(),
            decreases self.draws.len() - k,
        {
            if !self.draws[k].validate() {
                return false;
            }
            k += 1;
        }
        true
    }

    /// The fewest cubes of each colour with which the game can be played.
    pub fn minimum(&self) -> (m: Draw)
        ensures
            m == least_cover(self.draws@),
    {
        let mut min_blue: usize = 0;
        let mut min_green: usize = 0;
        let mut min_red: usize = 0;
        let mut k: usize = 0;
        while k < self.draws.len()
            invariant
                k <= self.draws.len(),
                least_cover(self.draws@.take(k as int)) == (Draw {
                    blue: min_blue,
                    red: min_red,
                    green: min_green,
                }),
            decreases self.draws.len() - k,
        {
            assert(self.draws@.take(k + 1).drop_last() =~= self.draws@.take(k as int));
            let draw = self.draws[k];
            if draw.red > min_red {
                min_red = draw.red;
            }
            if draw.green > min_green {
                min_green = draw.green;
            }
            if draw.blue > min_blue {
                min_blue = draw.blue;
            }
            k += 1;
        }
        assert(self.draws@.take(k as int) =~= self.draws@);
        Draw { green: min_green, blue: min_blue, red: min_red }
    }
}

/// The game that a line counts as: the one it records, or game 0 without a
/// draw where it records none.
pub open spec fn entered(line: Seq<char>) -> GameView {
    match game_of(line) {
        Ok(game) => game,
        Err(_) => GameView { id: 0, draws: Seq::empty() },
    }
}

/// What a record adds to the sum of the possible games: its number where all
/// its draws are possible, and nothing else.
pub open spec fn possible_id(line: Seq<char>) -> nat {
    if all_possible(entered(line).draws) {
        entered(line).id as nat
    } else {
        0
    }
}

/// The sum of the numbers of the possible games among `records`.
pub open spec fn id_total(records: Seq<Seq<char>>) -> nat
    decreases records.len(),
{
    if records.len() == 0 {
        0
    } else {
        id_total(records.drop_last()) + possible_id(records.last())
    }
}

/// Some game among `records` is possible.
pub open spec fn any_possible(records: Seq<Seq<char>>) -> bool {
    exists|i: int| 0 <= i < records.len() && all_possible(entered(#[trigger] records[i]).draws)
}

/// The least cover of the game that a line counts as.
pub open spec fn cover_of(line: Seq<char>) -> Draw {
    least_cover(entered(line).draws)
}

/// The power of every game among `records` can be formed in the machine word.
pub open spec fn powers_fit(records: Seq<Seq<char>>) -> bool {
    forall|i: int| 0 <= i < records.len() ==> cover_of(#[trigger] records[i]).product_fits()
}

/// The sum over `records` of the power of each game's least cover.
pub open spec fn power_total(records: Seq<Seq<char>>) -> int
    decreases records.len(),
{
    if records.len() == 0 {
        0
    } else {
        power_total(records.drop_last()) + cover_of(records.last()).product()
    }
}

/// The game that the characters of a line count as.
fn game_entered(line: &[char]) -> (g: Game)
    ensures
        g@ == entered(line@),
{
    match game_in(line) {
        Ok(g) => g,
        Err(_) => Game::default(),
    }
}

/// The sum of the numbers of the possible games that `content` records, one
/// game to a line, the lines set apart by line feeds. A line that records no
/// game counts as game 0 without a draw, which is possible. Where no game is
/// possible there is no sum. The sum is wider than a machine word, which the
/// numbers of many games need not fit.
pub fn possible_id_total(content: &str) -> (r: Option<u128>)
    ensures
        match r {
            Some(sum) => any_possible(split(content@, '\n')) && sum == id_total(
                split(content@, '\n'),
            ),
            None => !any_possible(split(content@, '\n')),
        },
{
    let chars = chars_of(content);
    let records = split_chars(chars.as_slice(), '\n');
    let ghost all = texts(records@);
    let mut sum: u128 = 0;
    let mut any: bool = false;
    let mut k: usize = 0;
    while k < records.len()
        invariant
            k <= records.len(),
            all == texts(records@),
            sum == id_total(all.take(k as int)),
            sum <= 0xffff_ffff_ffff_ffff * k,
            any == any_possible(all.take(k as int)),
        decreases records.len() - k,
    {
        let game = game_entered(records[k].as_slice());
        let possible = game.validate();
        proof {
            assert(all.take(k + 1).drop_last() =~= all.take(k as int));
            assert(all.take(k + 1).last() == records@[k as int]@);
            let before = all.take(k as int);
            let now = all.take(k + 1);
            if any_possible(before) {
                let i = choose|i: int|
                    0 <= i < before.len() && all_possible(entered(#[trigger] before[i]).draws);
                assert(all_possible(entered(now[i]).draws));
            }
            if possible {
                assert(all_possible(entered(now[k as int]).draws));
            }
            if any_possible(now) && !possible {
                let i = choose|i: int|
                    0 <= i < now.len() && all_possible(entered(#[trigger] now[i]).draws);
                assert(all_possible(entered(before[i]).draws));
            }
        }
        if possible {
            sum = sum + game.id as u128;
            any = true;
        }
        k += 1;
    }
    assert(all.take(k as int) =~= all);
    if any {
        Some(sum)
    } else {
        None
    }
}

/// The sum over the games that `content` records, one to a line, of the
/// power of the fewest cubes with which each can be played. A line that
/// records no game counts as game 0 without a draw, whose power is 0. Where
/// the power of a game cannot be formed in the machine word there is no sum.
pub fn minimum_power_total(content: &str) -> (r: Option<u128>)
    ensures
        match r {
            Some(sum) => powers_fit(split(content@, '\n')) && sum == power_total(
                split(content@, '\n'),
            ),
            None => !powers_fit(split(content@, '\n')),
        },
{
    let chars = chars_of(content);
    let records = split_chars(chars.as_slice(), '\n');
    let ghost all = texts(records@);
    let mut sum: u128 = 0;
    let mut k: usize = 0;
    while k < records.len()
        invariant
            k <= records.len(),
            all == texts(records@),
            all == split(content@, '\n'),
            sum == power_total(all.take(k as int)),
            sum <= 0xffff_ffff_ffff_ffff * k,
            powers_fit(all.take(k as int)),
        decreases records.len() - k,
    {
        let game = game_entered(records[k].as_slice());
        proof {
            assert(all.take(k + 1).drop_last() =~= all.take(k as int));
            assert(all.take(k + 1).last() == records@[k as int]@);
            assert(all[k as int] == records@[k as int]@);
        }
        match game.minimum().checked_power() {
            None => {
                return None;
            },
            Some(power) => {
                proof {
                    let before = all.take(k as int);
                    let now = all.take(k + 1);
                    assert forall|i: int| 0 <= i < now.len() implies cover_of(
                        #[trigger] now[i],
                    ).product_fits() by {
                        if i < k {
                            assert(cover_of(before[i]).product_fits());
                        }
                    }
                }
                sum = sum + power as u128;
            },
        }
        k += 1;
    }
    assert(all.take(k as int) =~= all);
    Some(sum)
}

} // verus!

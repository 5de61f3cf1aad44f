//! Scoring a strategy guide for rock, paper, scissors.
use vstd::prelude::*;
use crate::words::{word_bounds, words};

verus! {

#[derive(Clone, Copy, Debug, PartialEq, Eq, Structural)]
pub enum Shape {
    Rock,
    Paper,
    Scissors,
}

#[derive(Clone, Copy, Debug, PartialEq, Eq, Structural)]
pub enum GameResult {
    Lose,
    Draw,
    Win,
}

/// `a` beats `b`: rock blunts scissors, scissors cut paper, paper wraps rock.
pub open spec fn beats(a: Shape, b: Shape) -> bool {
    ||| a == Shape::Rock && b == Shape::Scissors
    ||| a == Shape::Scissors && b == Shape::Paper
    ||| a == Shape::Paper && b == Shape::Rock
}

/// How a round ends for the second player.
pub open spec fn outcome(opp: Shape, own: Shape) -> GameResult {
    if opp == own {
        GameResult::Draw
    } else if beats(own, opp) {
        GameResult::Win
    } else {
        GameResult::Lose
    }
}

/// The shape a one-letter code names, for the given three letters.
pub open spec fn shape_code(s: Seq<char>, rock: char, paper: char, scissors: char) -> Option<Shape> {
    if s == seq![rock] {
        Some(Shape::Rock)
    } else if s == seq![paper] {
        Some(Shape::Paper)
    } else if s == seq![scissors] {
        Some(Shape::Scissors)
    } else {
        None
    }
}

/// The result a one-letter code asks for: `X` lose, `Y` draw, `Z` win.
pub open spec fn result_code(s: Seq<char>) -> Option<GameResult> {
    if s == seq!['X'] {
        Some(GameResult::Lose)
    } else if s == seq!['Y'] {
        Some(GameResult::Draw)
    } else if s == seq!['Z'] {
        Some(GameResult::Win)
    } else {
        None
    }
}

pub open spec fn shape_score(s: Shape) -> int {
    match s {
        Shape::Rock => 1,
        Shape::Paper => 2,
        Shape::Scissors => 3,
    }
}

pub open spec fn result_score(r: GameResult) -> int {
    match r {
        GameResult::Lose => 0,
        GameResult::Draw => 3,
        GameResult::Win => 6,
    }
}

/// `c` is exactly the one character `code`.
fn is_code(c: &str, code: char) -> (r: bool)
    ensures
        r == (c@ == seq![code]),
{
    if c.unicode_len() == 1 {
        let first = c.get_char(0);
        assert(first == code ==> c@ =~= seq![code]);
        first == code
    } else {
        false
    }
}

fn code_shape(c: &str, rock: char, paper: char, scissors: char) -> (r: Option<Shape>)
    requires
        rock != paper && rock != scissors && paper != scissors,
    ensures
        r == shape_code(c@, rock, paper, scissors),
{
    if is_code(c, rock) {
        Some(Shape::Rock)
    } else if is_code(c, paper) {
        Some(Shape::Paper)
    } else if is_code(c, scissors) {
        Some(Shape::Scissors)
    } else {
        None
    }
}

impl Shape {
    /// The opponent's code: `A` rock, `B` paper, `C` scissors.
    pub fn from_plain_code(c: &str) -> (r: Result<Shape, &str>)
        ensures
            match shape_code(c@, 'A', 'B', 'C') {
                Some(s) => r == Ok::<Shape, &str>(s),
                None => r is Err,
            },
    {
        match code_shape(c, 'A', 'B', 'C') {
            Some(s) => Ok(s),
            None => Err("invalid plain code, only A, B and C are supported!"),
        }
    }

    /// The player's code read as a shape: `X` rock, `Y` paper, `Z` scissors.
    pub fn from_secret_code(c: &str) -> (r: Result<Shape, &str>)
        ensures
            match shape_code(c@, 'X', 'Y', 'Z') {
                Some(s) => r == Ok::<Shape, &str>(s),
                None => r is Err,
            },
    {
        match code_shape(c, 'X', 'Y', 'Z') {
            Some(s) => Ok(s),
            None => Err("invalid secret code, only X, Y and Z are supported!"),
        }
    }

    /// The shape that gives result `r` against `opponent_move`; every result
    /// can be had, so this always succeeds.
    pub fn from_expected_result(r: &GameResult, opponent_move: &Shape) -> (s: Result<Shape, String>)
        ensures
            s matches Ok(own) && outcome(*opponent_move, own) == *r,
    {
        let candidates = [Shape::Rock, Shape::Paper, Shape::Scissors];
        let mut k: usize = 0;
        while k < 3
            invariant
                k <= 3,
                candidates@ == seq![Shape::Rock, Shape::Paper, Shape::Scissors],
                forall|j: int| 0 <= j < k ==> outcome(*opponent_move, candidates@[j]) != *r,
            decreases 3 - k,
        {
            let game = Game { player_1: *opponent_move, player_2: candidates[k] };
            if game.player_2_result() == *r {
                return Ok(candidates[k]);
            }
            k += 1;
        }
        assert(outcome(*opponent_move, candidates@[0]) != *r);
        assert(outcome(*opponent_move, candidates@[1]) != *r);
        assert(outcome(*opponent_move, candidates@[2]) != *r);
        Err("no move gives the expected result against the opponent's move".to_owned())
    }

    pub fn score(&self) -> (r: i32)
        ensures
            r == shape_score(*self),
    {
        match self {
            Shape::Rock => 1,
            Shape::Paper => 2,
            Shape::Scissors => 3,
        }
    }
}

impl GameResult {
    pub fn score(&self) -> (r: i32)
        ensures
            r == result_score(*self),
    {
        match self {
            GameResult::Lose => 0,
            GameResult::Draw => 3,
            GameResult::Win => 6,
        }
    }

    pub fn from_secret_code(c: &str) -> (r: Result<GameResult, &str>)
        ensures
            match result_code(c@) {
                Some(g) => r == Ok::<GameResult, &str>(g),
                None => r is Err,
            },
    {
        if is_code(c, 'X') {
            Ok(GameResult::Lose)
        } else if is_code(c, 'Y') {
            Ok(GameResult::Draw)
        } else if is_code(c, 'Z') {
            Ok(GameResult::Win)
        } else {
            Err("invalid secret result code, only X, Y and Z are supported!")
        }
    }
}

/// One round: the opponent's shape and the player's.
pub struct Game {
    pub player_1: Shape,
    pub player_2: Shape,
}

impl Game {
    /// Reads a line of two words: the opponent's code (`A`, `B`, `C`) and the
    /// result the player must reach (`X`, `Y`, `Z`); the player's shape is the
    /// one that reaches it.
    pub fn from_input(line: &str) -> (r: Result<Game, String>)
        ensures
            match r {
                Ok(g) => {
                    &&& words(line@).len() == 2
                    &&& shape_code(words(line@)[0], 'A', 'B', 'C') == Some(g.player_1)
                    &&& result_code(words(line@)[1]) == Some(outcome(g.player_1, g.player_2))
                },
                Err(_) => {
                    ||| words(line@).len() != 2
                    ||| shape_code(words(line@)[0], 'A', 'B', 'C') is None
                    ||| result_code(words(line@)[1]) is None
                },
            },
    {
        let bounds = word_bounds(line);
        if bounds.len() != 2 {
            return Err("expected 2 whitespace separated single letter codes".to_owned());
        }
        let left = line.substring_char(bounds[0].0, bounds[0].1);
        let right = line.substring_char(bounds[1].0, bounds[1].1);
        let l_hand = match Shape::from_plain_code(left) {
            Ok(s) => s,
            Err(e) => {
                return Err(e.to_owned());
            },
        };
        let expected_result = match GameResult::from_secret_code(right) {
            Ok(g) => g,
            Err(e) => {
                return Err(e.to_owned());
            },
        };
        let r_hand = match Shape::from_expected_result(&expected_result, &l_hand) {
            Ok(s) => s,
            Err(e) => {
                return Err(e);
            },
        };
        Ok(Game { player_1: l_hand, player_2: r_hand })
    }

    pub fn player_2_result(&self) -> (r: GameResult)
        ensures
            r == outcome(self.player_1, self.player_2),
    {
        match (&self.player_1, &self.player_2) {
            (Shape::Rock, Shape::Paper) => GameResult::Win,
            (Shape::Paper, Shape::Scissors) => GameResult::Win,
            (Shape::Scissors, Shape::Rock) => GameResult::Win,
            (Shape::Rock, Shape::Rock) => GameResult::Draw,
            (Shape::Paper, Shape::Paper) => GameResult::Draw,
            (Shape::Scissors, Shape::Scissors) => GameResult::Draw,
            (Shape::Rock, Shape::Scissors) => GameResult::Lose,
            (Shape::Scissors, Shape::Paper) => GameResult::Lose,
            (Shape::Paper, Shape::Rock) => GameResult::Lose,
        }
    }

    /// The player's score for the round: the result's score plus the
    /// shape's.
    pub fn player_2_score(&self) -> (r: i32)
        ensures
            r == result_score(outcome(self.player_1, self.player_2)) + shape_score(self.player_2),
    {
        self.player_2_result().score() + self.player_2.score()
    }
}

/// The shape that gets result `res` against `opp`.
pub open spec fn reply(opp: Shape, res: GameResult) -> Shape {
    match (opp, res) {
        (_, GameResult::Draw) => opp,
        (Shape::Rock, GameResult::Win) => Shape::Paper,
        (Shape::Paper, GameResult::Win) => Shape::Scissors,
        (Shape::Scissors, GameResult::Win) => Shape::Rock,
        (Shape::Rock, GameResult::Lose) => Shape::Scissors,
        (Shape::Paper, GameResult::Lose) => Shape::Rock,
        (Shape::Scissors, GameResult::Lose) => Shape::Paper,
    }
}

/// The player's score for a guide line, if the line is a round.
pub open spec fn line_score(s: Seq<char>) -> Option<int> {
    let w = words(s);
    if w.len() == 2 && shape_code(w[0], 'A', 'B', 'C') is Some && result_code(w[1]) is Some {
        let opp = shape_code(w[0], 'A', 'B', 'C')->0;
        let res = result_code(w[1])->0;
        Some(result_score(res) + shape_score(reply(opp, res)))
    } else {
        None
    }
}

/// The scores of all lines added up, if every line is a round.
pub open spec fn guide_total(ls: Seq<Seq<char>>) -> Option<int>
    decreases ls.len(),
{
    if ls.len() == 0 {
        Some(0)
    } else {
        match (guide_total(ls.drop_last()), line_score(ls.last())) {
            (Some(a), Some(b)) => Some(a + b),
            _ => None,
        }
    }
}

proof fn lemma_reply_unique(opp: Shape, own: Shape)
    ensures
        reply(opp, outcome(opp, own)) == own,
{
}

/// The player's total score over the strategy guide, one round per line.
pub fn total_score(lines: &Vec<String>) -> (r: Result<i64, String>)
    requires
        lines.len() <= 1_000_000_000_000,
    ensures
        ({
            let ls = lines@.map_values(|l: String| l@);
            match guide_total(ls) {
                Some(t) => r == Ok::<i64, String>(t as i64),
                None => r is Err,
            }
        }),
{
    let ghost ls = lines@.map_values(|l: String| l@);
    let mut total: i64 = 0;
    let mut k: usize = 0;
    proof {
        assert(ls.subrange(0, 0) =~= Seq::<Seq<char>>::empty());
    }
    while k < lines.len()
        invariant
            ls == lines@.map_values(|l: String| l@),
            lines.len() <= 1_000_000_000_000,
            k <= lines.len(),
            guide_total(ls.subrange(0, k as int)) == Some(total as int),
            0 <= total <= 9 * k,
        decreases lines.len() - k,
    {
        let ghost next = ls.subrange(0, k as int + 1);
        assert(next.drop_last() =~= ls.subrange(0, k as int));
        assert(next.last() == lines[k as int]@);
        let g = match Game::from_input(lines[k].as_str()) {
            Ok(g) => g,
            Err(e) => {
                proof {
                    lemma_total_none(ls, k as int + 1);
                }
                return Err(e);
            },
        };
        proof {
            lemma_reply_unique(g.player_1, g.player_2);
        }
        let score = g.player_2_score();
        total = total + score as i64;
        k += 1;
    }
    assert(ls.subrange(0, k as int) =~= ls);
    Ok(total)
}

/// Once a line is no round, no longer guide has a total.
proof fn lemma_total_none(ls: Seq<Seq<char>>, k: int)
    requires
        0 < k <= ls.len(),
        guide_total(ls.subrange(0, k)) is None,
    ensures
        guide_total(ls) is None,
    decreases ls.len() - k,
{
    if k < ls.len() {
        assert(ls.subrange(0, k + 1).drop_last() =~= ls.subrange(0, k));
        lemma_total_none(ls, k + 1);
    } else {
        assert(ls.subrange(0, k) =~= ls);
    }
}

} // verus!

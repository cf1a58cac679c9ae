//! Rock-paper-scissors rounds: decoding plays from column letters and
//! scoring a round.

use vstd::prelude::*;

verus! {

/// One shape thrown in a round.
#[derive(Clone, Copy, Debug, PartialEq, Eq, Structural)]
pub enum Play {
    Rock,
    Paper,
    Scissors,
}

/// The score of the round outcome for `player` against `opponent`: 6 for a
/// win, 3 for a draw, 0 for a loss.
pub open spec fn outcome_score(player: Play, opponent: Play) -> int {
    match (player, opponent) {
        (Play::Rock, Play::Rock) => 3,
        (Play::Rock, Play::Paper) => 0,
        (Play::Rock, Play::Scissors) => 6,
        (Play::Paper, Play::Rock) => 6,
        (Play::Paper, Play::Paper) => 3,
        (Play::Paper, Play::Scissors) => 0,
        (Play::Scissors, Play::Rock) => 0,
        (Play::Scissors, Play::Paper) => 6,
        (Play::Scissors, Play::Scissors) => 3,
    }
}

/// The intrinsic score of a shape: 1, 2 or 3.
pub open spec fn shape_score(p: Play) -> int {
    match p {
        Play::Rock => 1,
        Play::Paper => 2,
        Play::Scissors => 3,
    }
}

impl Play {
    /// Decodes the opponent's column: `A`, `B` or `C`.
    pub fn for_opponent(value: &str) -> (p: Self)
        requires
            value@ == seq!['A'] || value@ == seq!['B'] || value@ == seq!['C'],
        ensures
            value@ == seq!['A'] ==> p == Play::Rock,
            value@ == seq!['B'] ==> p == Play::Paper,
            value@ == seq!['C'] ==> p == Play::Scissors,
    {
        let c = value.get_char(0);
        if c == 'A' {
            Play::Rock
        } else if c == 'B' {
            Play::Paper
        } else {
            Play::Scissors
        }
    }

    /// Decodes the player's column: `X`, `Y` or `Z`.
    pub fn for_player(value: &str) -> (p: Self)
        requires
            value@ == seq!['X'] || value@ == seq!['Y'] || value@ == seq!['Z'],
        ensures
            value@ == seq!['X'] ==> p == Play::Rock,
            value@ == seq!['Y'] ==> p == Play::Paper,
            value@ == seq!['Z'] ==> p == Play::Scissors,
    {
        let c = value.get_char(0);
        if c == 'X' {
            Play::Rock
        } else if c == 'Y' {
            Play::Paper
        } else {
            Play::Scissors
        }
    }

    /// Decodes the player's column as a desired result: `X` loses to the
    /// opponent, `Y` draws, `Z` wins.  The returned play achieves exactly
    /// that outcome.
    pub fn for_player_result(value: &str, opponent: Play) -> (p: Self)
        requires
            value@ == seq!['X'] || value@ == seq!['Y'] || value@ == seq!['Z'],
        ensures
            value@ == seq!['X'] ==> outcome_score(p, opponent) == 0,
            value@ == seq!['Y'] ==> outcome_score(p, opponent) == 3,
            value@ == seq!['Z'] ==> outcome_score(p, opponent) == 6,
    {
        let c = value.get_char(0);
        match (c, opponent) {
            ('X', Play::Rock) => Play::Scissors,
            ('X', Play::Paper) => Play::Rock,
            ('X', Play::Scissors) => Play::Paper,
            ('Y', Play::Rock) => Play::Rock,
            ('Y', Play::Paper) => Play::Paper,
            ('Y', Play::Scissors) => Play::Scissors,
            ('Z', Play::Rock) => Play::Paper,
            ('Z', Play::Paper) => Play::Scissors,
            (_, Play::Rock) => Play::Paper,
            (_, Play::Paper) => Play::Scissors,
            (_, Play::Scissors) => Play::Rock,
        }
    }

    /// The intrinsic score of this shape.
    pub fn value(self) -> (v: usize)
        ensures
            v == shape_score(self),
    {
        match self {
            Play::Rock => 1,
            Play::Paper => 2,
            Play::Scissors => 3,
        }
    }

    /// The outcome score of this shape against `opponent`.
    pub fn outcome(self, opponent: Play) -> (v: usize)
        ensures
            v == outcome_score(self, opponent),
    {
        match (self, opponent) {
            (Play::Rock, Play::Rock) => 3,
            (Play::Rock, Play::Paper) => 0,
            (Play::Rock, Play::Scissors) => 6,
            (Play::Paper, Play::Rock) => 6,
            (Play::Paper, Play::Paper) => 3,
            (Play::Paper, Play::Scissors) => 0,
            (Play::Scissors, Play::Rock) => 0,
            (Play::Scissors, Play::Paper) => 6,
            (Play::Scissors, Play::Scissors) => 3,
        }
    }
}

} // verus!

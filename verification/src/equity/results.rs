//! What an equity calculation gives back: exact shares of the pot.

use vstd::prelude::*;

verus! {

/// A share of the pot as an exact fraction. A denominator of zero means
/// that no trial was run, so that there is nothing to divide by.
#[derive(Clone, Copy, Debug, PartialEq, Eq, Structural)]
pub struct Fraction {
    pub numerator: u128,
    pub denominator: u128,
}

impl Fraction {
    /// The fraction with these two parts.
    pub open spec fn of(numerator: int, denominator: int) -> Fraction {
        Fraction { numerator: numerator as u128, denominator: denominator as u128 }
    }

    /// The fraction with these two parts.
    pub fn new(numerator: u128, denominator: u128) -> (f: Self)
        ensures
            f == (Fraction { numerator, denominator }),
    {
        Self { numerator, denominator }
    }

    /// The fraction as so many hundredths: the same value times one hundred.
    pub fn percent(&self) -> (f: Self)
        requires
            self.numerator * 100 <= u128::MAX,
        ensures
            f.numerator == self.numerator * 100,
            f.denominator == self.denominator,
    {
        Self { numerator: self.numerator * 100, denominator: self.denominator }
    }
}

/// The outcome of a heads-up calculation. A tie counts half for each side.
#[derive(Clone, Copy, Debug, PartialEq, Eq, Structural)]
pub struct EquityResult {
    pub player1_equity: Fraction,
    pub player2_equity: Fraction,
    pub tie_equity: Fraction,
    pub simulations: usize,
}

impl EquityResult {
    /// The result that a tally of wins and ties gives: each side's wins
    /// and half the ties, over all trials.
    pub open spec fn spec_from_tally(player1_wins: int, player2_wins: int, ties: int) -> EquityResult {
        let total = player1_wins + player2_wins + ties;
        EquityResult {
            player1_equity: Fraction::of(2 * player1_wins + ties, 2 * total),
            player2_equity: Fraction::of(2 * player2_wins + ties, 2 * total),
            tie_equity: Fraction::of(ties, total),
            simulations: total as usize,
        }
    }

    /// Makes the result of a tally of wins and ties.
    pub fn from_tally(player1_wins: usize, player2_wins: usize, ties: usize) -> (r: Self)
        requires
            player1_wins + player2_wins + ties <= usize::MAX,
        ensures
            r == Self::spec_from_tally(player1_wins as int, player2_wins as int, ties as int),
    {
        let total = player1_wins + player2_wins + ties;
        Self {
            player1_equity: Fraction::new(
                2 * (player1_wins as u128) + (ties as u128),
                2 * (total as u128),
            ),
            player2_equity: Fraction::new(
                2 * (player2_wins as u128) + (ties as u128),
                2 * (total as u128),
            ),
            tie_equity: Fraction::new(ties as u128, total as u128),
            simulations: total,
        }
    }

    /// The first player's share in hundredths.
    pub fn player1_percent(&self) -> (f: Fraction)
        requires
            self.player1_equity.numerator * 100 <= u128::MAX,
        ensures
            f.numerator == self.player1_equity.numerator * 100,
            f.denominator == self.player1_equity.denominator,
    {
        self.player1_equity.percent()
    }

    /// The second player's share in hundredths.
    pub fn player2_percent(&self) -> (f: Fraction)
        requires
            self.player2_equity.numerator * 100 <= u128::MAX,
        ensures
            f.numerator == self.player2_equity.numerator * 100,
            f.denominator == self.player2_equity.denominator,
    {
        self.player2_equity.percent()
    }

    /// The tied share in hundredths.
    pub fn tie_percent(&self) -> (f: Fraction)
        requires
            self.tie_equity.numerator * 100 <= u128::MAX,
        ensures
            f.numerator == self.tie_equity.numerator * 100,
            f.denominator == self.tie_equity.denominator,
    {
        self.tie_equity.percent()
    }
}

/// The sum of the numerators of the first `n` fractions of a list.
pub open spec fn sum_numerators(shares: Seq<Fraction>, n: int) -> int
    decreases n,
{
    if n <= 0 {
        0
    } else {
        sum_numerators(shares, n - 1) + shares[n - 1].numerator
    }
}

/// The outcome of a calculation among several players.
#[derive(Clone, Debug, PartialEq, Eq)]
pub struct MultiPlayerEquityResult {
    /// Each player's share: the wins and a share of the ties.
    pub player_equities: Vec<Fraction>,
    /// How often each player won alone.
    pub wins: Vec<usize>,
    /// How often the best hand was shared.
    pub ties: usize,
    /// How many trials were run.
    pub simulations: usize,
}

impl MultiPlayerEquityResult {
    /// A player's share in hundredths; a player that is not there has none.
    pub fn player_percent(&self, player_idx: usize) -> (f: Fraction)
        requires
            player_idx < self.player_equities@.len() ==> self.player_equities@[player_idx as int].numerator
                * 100 <= u128::MAX,
        ensures
            player_idx < self.player_equities@.len() ==> f.numerator
                == self.player_equities@[player_idx as int].numerator * 100 && f.denominator
                == self.player_equities@[player_idx as int].denominator,
            player_idx >= self.player_equities@.len() ==> f == (Fraction { numerator: 0, denominator: 1 }),
    {
        if player_idx < self.player_equities.len() {
            self.player_equities[player_idx].percent()
        } else {
            Fraction::new(0, 1)
        }
    }

    /// The ties among all trials, in hundredths.
    pub fn tie_percent(&self) -> (f: Fraction)
        ensures
            f.numerator == self.ties * 100,
            f.denominator == self.simulations,
    {
        Fraction::new((self.ties as u128) * 100, self.simulations as u128)
    }

    /// How many players there are.
    pub fn num_players(&self) -> (n: usize)
        ensures
            n == self.player_equities@.len(),
    {
        self.player_equities.len()
    }
}

/// The outcome of a range against a hand or against another range: the
/// shares averaged over all matchups, each matchup counting alike.
#[derive(Clone, Copy, Debug, PartialEq, Eq, Structural)]
pub struct RangeEquityResult {
    pub range_equity: Fraction,
    pub opponent_equity: Fraction,
    pub tie_equity: Fraction,
    pub combos_evaluated: usize,
    pub total_simulations: usize,
}

impl RangeEquityResult {
    /// The range's share in hundredths.
    pub fn range_percent(&self) -> (f: Fraction)
        requires
            self.range_equity.numerator * 100 <= u128::MAX,
        ensures
            f.numerator == self.range_equity.numerator * 100,
            f.denominator == self.range_equity.denominator,
    {
        self.range_equity.percent()
    }

    /// The opponent's share in hundredths.
    pub fn opponent_percent(&self) -> (f: Fraction)
        requires
            self.opponent_equity.numerator * 100 <= u128::MAX,
        ensures
            f.numerator == self.opponent_equity.numerator * 100,
            f.denominator == self.opponent_equity.denominator,
    {
        self.opponent_equity.percent()
    }

    pub fn tie_percent(&self) -> (f: Fraction)
        requires
            self.tie_equity.numerator * 100 <= u128::MAX,
        ensures
            f.numerator == self.tie_equity.numerator * 100,
            f.denominator == self.tie_equity.denominator,
    {
        self.tie_equity.percent()
    }
}

} // verus!

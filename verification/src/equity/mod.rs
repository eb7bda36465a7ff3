//! Win and tie shares between hands and ranges, by enumeration and by sampling.

pub mod multiway;
pub mod results;

pub use multiway::{MultiwayCalculator, MultiwayEquityCalculator};
pub use results::{EquityResult, Fraction, MultiPlayerEquityResult, RangeEquityResult};

use vstd::prelude::*;
use crate::card::{lemma_index_of_index, Card};
use crate::card_set::{cards_of, count_below, lemma_cards_count, CardSet};
use crate::evaluator::{
    built_table, hand_score, lemma_hand_score_range, HandEvaluator, LookupEvaluator,
};
use crate::hand::HoleCards;
use crate::helpers::{all_cards, build_hand, player_mask};
use crate::trusted::{par_map, shuffle_cards, thread_rng};
use crate::range::{spec_hole_cards, Range};

verus! {

/// Who wins a showdown between two players.
#[derive(Clone, Copy, Debug, PartialEq, Eq, Structural)]
pub enum Outcome {
    Player1,
    Player2,
    Tie,
}

/// How many showdowns each side won, and how many were tied.
pub struct Counts {
    pub player1: int,
    pub player2: int,
    pub ties: int,
}

impl Counts {
    /// Nothing counted.
    pub open spec fn zero() -> Counts {
        Counts { player1: 0, player2: 0, ties: 0 }
    }

    /// One showdown counted.
    pub open spec fn of(outcome: Outcome) -> Counts {
        match outcome {
            Outcome::Player1 => Counts { player1: 1, player2: 0, ties: 0 },
            Outcome::Player2 => Counts { player1: 0, player2: 1, ties: 0 },
            Outcome::Tie => Counts { player1: 0, player2: 0, ties: 1 },
        }
    }

    /// Two counts together.
    pub open spec fn plus(self, other: Counts) -> Counts {
        Counts {
            player1: self.player1 + other.player1,
            player2: self.player2 + other.player2,
            ties: self.ties + other.ties,
        }
    }

    /// How many showdowns were counted in all.
    pub open spec fn total(self) -> int {
        self.player1 + self.player2 + self.ties
    }
}

/// Who wins when each of two players ranks their two cards together with a
/// board.
pub open spec fn showdown(hole1: HoleCards, hole2: HoleCards, board: Seq<Card>) -> Outcome {
    let score1 = hand_score(player_mask(hole1, board));
    let score2 = hand_score(player_mask(hole2, board));
    if score1 > score2 {
        Outcome::Player1
    } else if score1 < score2 {
        Outcome::Player2
    } else {
        Outcome::Tie
    }
}

/// The showdowns over every way of completing a board with `need` cards of
/// a deck taken from index `start` on, each set of cards once.
pub open spec fn completions(
    hole1: HoleCards,
    hole2: HoleCards,
    board: Seq<Card>,
    deck: Seq<Card>,
    start: int,
    need: int,
) -> Counts
    decreases need, deck.len() - start,
{
    if need <= 0 {
        Counts::of(showdown(hole1, hole2, board))
    } else if start < 0 || start >= deck.len() {
        Counts::zero()
    } else {
        completions(hole1, hole2, board.push(deck[start]), deck, start + 1, need - 1).plus(
            completions(hole1, hole2, board, deck, start + 1, need),
        )
    }
}

/// In how many ways `k` things can be chosen from `n`.
pub open spec fn choose_count(n: int, k: int) -> int
    decreases n,
{
    if k <= 0 {
        1
    } else if n <= 0 {
        0
    } else {
        choose_count(n - 1, k - 1) + choose_count(n - 1, k)
    }
}

/// `n` multiplied by itself `k` times.
pub open spec fn power(n: int, k: int) -> int
    decreases k,
{
    if k <= 0 {
        1
    } else {
        n * power(n, k - 1)
    }
}

/// The cards of index below `n` that are not dead, in ascending order.
pub open spec fn deck_without(dead: Set<Card>, n: int) -> Seq<Card>
    decreases n,
{
    if n <= 0 {
        Seq::empty()
    } else if dead.contains(Card::of_index(n - 1)) {
        deck_without(dead, n - 1)
    } else {
        deck_without(dead, n - 1).push(Card::of_index(n - 1))
    }
}

/// The deck without the dead cards, in ascending order.
pub open spec fn undealt(dead: Set<Card>) -> Seq<Card> {
    deck_without(dead, 52)
}

/// The cards that two players and a board hold.
pub open spec fn dead_cards_of(hole1: HoleCards, hole2: HoleCards, board: Seq<Card>) -> Set<Card> {
    board.to_set().insert(hole1.spec_high()).insert(hole1.spec_low()).insert(
        hole2.spec_high(),
    ).insert(hole2.spec_low())
}

/// Whether a list of cards is a deck in some other order.
pub open spec fn is_shuffle(draw: Seq<Card>, deck: Seq<Card>) -> bool {
    draw.to_multiset() == deck.to_multiset()
}

/// The showdowns of the first `n` of a list of draws, each draw giving
/// its first `need` cards to complete the board.
pub open spec fn sampled(
    hole1: HoleCards,
    hole2: HoleCards,
    board: Seq<Card>,
    draws: Seq<Seq<Card>>,
    need: int,
    n: int,
) -> Counts
    decreases n,
{
    if n <= 0 {
        Counts::zero()
    } else {
        sampled(hole1, hole2, board, draws, need, n - 1).plus(
            Counts::of(showdown(hole1, hole2, board + draws[n - 1].take(need))),
        )
    }
}

/// What holds of a sampled result whatever the draws were: there are as
/// many draws as iterations, each draw is the undealt deck in some order,
/// and the result is the tally of the showdowns on the boards that the
/// draws complete.
pub open spec fn sampled_result(
    hole1: HoleCards,
    hole2: HoleCards,
    board: Seq<Card>,
    iterations: int,
    result: EquityResult,
) -> bool {
    exists|draws: Seq<Seq<Card>>|
        {
            &&& draws.len() == iterations
            &&& forall|i: int|
                0 <= i < iterations ==> is_shuffle(
                    #[trigger] draws[i],
                    undealt(dead_cards_of(hole1, hole2, board)),
                )
            &&& #[trigger] sampled(
                hole1,
                hole2,
                board,
                draws,
                5 - board.len(),
                iterations,
            ).total() == iterations
            &&& result == EquityResult::spec_from_tally(
                sampled(hole1, hole2, board, draws, 5 - board.len(), iterations).player1,
                sampled(hole1, hole2, board, draws, 5 - board.len(), iterations).player2,
                sampled(hole1, hole2, board, draws, 5 - board.len(), iterations).ties,
            )
        }
}

/// The cards that one player and a board hold.
pub open spec fn opponent_dead(hole: HoleCards, board: Seq<Card>) -> Set<Card> {
    board.to_set().insert(hole.spec_high()).insert(hole.spec_low())
}

/// Whether two pairs of hole cards have a card in common.
pub open spec fn share_card(a: HoleCards, b: HoleCards) -> bool {
    a.spec_high() == b.spec_high() || a.spec_high() == b.spec_low() || a.spec_low()
        == b.spec_high() || a.spec_low() == b.spec_low()
}

/// One combination against each of the first `n` of a list that shares no
/// card with it.
pub open spec fn row_matchups(hole1: HoleCards, combos2: Seq<HoleCards>, n: int) -> Seq<
    (HoleCards, HoleCards),
>
    decreases n,
{
    if n <= 0 {
        Seq::empty()
    } else if share_card(hole1, combos2[n - 1]) {
        row_matchups(hole1, combos2, n - 1)
    } else {
        row_matchups(hole1, combos2, n - 1).push((hole1, combos2[n - 1]))
    }
}

/// Each of the first `m` combinations of one list against each of another
/// that shares no card with it.
pub open spec fn matchups_upto(combos1: Seq<HoleCards>, combos2: Seq<HoleCards>, m: int) -> Seq<
    (HoleCards, HoleCards),
>
    decreases m,
{
    if m <= 0 {
        Seq::empty()
    } else {
        matchups_upto(combos1, combos2, m - 1) + row_matchups(
            combos1[m - 1],
            combos2,
            combos2.len() as int,
        )
    }
}

/// The matchups between two lists of combinations: every pair that shares
/// no card, row by row.
pub open spec fn spec_matchups(combos1: Seq<HoleCards>, combos2: Seq<HoleCards>) -> Seq<
    (HoleCards, HoleCards),
> {
    matchups_upto(combos1, combos2, combos1.len() as int)
}

/// The sum of the first player's numerators over the first `n` results.
pub open spec fn sum_player1(results: Seq<EquityResult>, n: int) -> int
    decreases n,
{
    if n <= 0 {
        0
    } else {
        sum_player1(results, n - 1) + results[n - 1].player1_equity.numerator
    }
}

/// The sum of the second player's numerators over the first `n` results.
pub open spec fn sum_player2(results: Seq<EquityResult>, n: int) -> int
    decreases n,
{
    if n <= 0 {
        0
    } else {
        sum_player2(results, n - 1) + results[n - 1].player2_equity.numerator
    }
}

/// The sum of the tie numerators over the first `n` results.
pub open spec fn sum_ties(results: Seq<EquityResult>, n: int) -> int
    decreases n,
{
    if n <= 0 {
        0
    } else {
        sum_ties(results, n - 1) + results[n - 1].tie_equity.numerator
    }
}

/// The average of results that each ran the same number of iterations:
/// the shares summed over as many times the trials of one.
pub open spec fn spec_average(results: Seq<EquityResult>, iterations: int) -> RangeEquityResult {
    let n = results.len() as int;
    RangeEquityResult {
        range_equity: Fraction::of(sum_player1(results, n), 2 * (n * iterations)),
        opponent_equity: Fraction::of(sum_player2(results, n), 2 * (n * iterations)),
        tie_equity: Fraction::of(sum_ties(results, n), n * iterations),
        combos_evaluated: n as usize,
        total_simulations: (n * iterations) as usize,
    }
}

/// The result where there was nothing to play: no share for the range, and
/// for the opponent the share given.
pub open spec fn empty_result(opponent: int) -> RangeEquityResult {
    RangeEquityResult {
        range_equity: Fraction::of(0, 1),
        opponent_equity: Fraction::of(opponent, 1),
        tie_equity: Fraction::of(0, 1),
        combos_evaluated: 0,
        total_simulations: 0,
    }
}

/// Whether a share is one that `iterations` trials can give.
pub open spec fn shares_fit(result: EquityResult, iterations: int) -> bool {
    &&& result.player1_equity.numerator <= 2 * iterations
    &&& result.player2_equity.numerator <= 2 * iterations
    &&& result.tie_equity.numerator <= iterations
}

/// What holds of the result of a range against a hand whatever was drawn:
/// with no combination to play the opponent has it all; else the result is
/// the average of one sampled result for each combination of the range.
pub open spec fn range_vs_hand_result(
    combos: Seq<HoleCards>,
    hole2: HoleCards,
    board: Seq<Card>,
    iterations: int,
    result: RangeEquityResult,
) -> bool {
    if combos.len() == 0 {
        result == empty_result(1)
    } else {
        exists|results: Seq<EquityResult>|
            {
                &&& results.len() == combos.len()
                &&& forall|i: int|
                    0 <= i < combos.len() ==> sampled_result(
                        combos[i],
                        hole2,
                        board,
                        iterations,
                        #[trigger] results[i],
                    )
                &&& result == #[trigger] spec_average(results, iterations)
            }
    }
}

/// What holds of the result of a range against a range whatever was
/// drawn: with no matchup to play nobody has anything; else the result is
/// the average of one sampled result for each matchup.
pub open spec fn range_vs_range_result(
    matchups: Seq<(HoleCards, HoleCards)>,
    board: Seq<Card>,
    iterations: int,
    result: RangeEquityResult,
) -> bool {
    if matchups.len() == 0 {
        result == empty_result(0)
    } else {
        exists|results: Seq<EquityResult>|
            {
                &&& results.len() == matchups.len()
                &&& forall|i: int|
                    0 <= i < matchups.len() ==> sampled_result(
                        matchups[i].0,
                        matchups[i].1,
                        board,
                        iterations,
                        #[trigger] results[i],
                    )
                &&& result == #[trigger] spec_average(results, iterations)
            }
    }
}

/// A product of numbers that are not negative grows with its factors.
pub proof fn lemma_product_grows(a: int, b: int, m: int, n: int)
    by (nonlinear_arith)
    requires
        0 <= a <= b,
        0 <= m <= n,
    ensures
        0 <= m * a <= n * b,
{
}

/// One more of a thing is that thing added once more.
pub proof fn lemma_one_more_factor(n: int, p: int)
    by (nonlinear_arith)
    ensures
        p + (n - 1) * p == n * p,
{
}

/// A power of a number that is not negative is not negative, and grows
/// with the number.
pub proof fn lemma_power_grows(m: int, n: int, k: int)
    requires
        0 <= m <= n,
    ensures
        0 <= power(m, k) <= power(n, k),
    decreases k,
{
    if k > 0 {
        lemma_power_grows(m, n, k - 1);
        lemma_product_grows(power(m, k - 1), power(n, k - 1), m, n);
    }
}

/// There are at most `n` to the `k` ways of choosing `k` from `n`.
pub proof fn lemma_choose_bound(n: int, k: int)
    requires
        0 <= n,
    ensures
        0 <= choose_count(n, k) <= power(n, k),
    decreases n,
{
    if k <= 0 {
    } else if n <= 0 {
        lemma_power_grows(0, 0, k);
    } else {
        lemma_choose_bound(n - 1, k - 1);
        lemma_choose_bound(n - 1, k);
        let p = power(n - 1, k - 1);
        lemma_one_more_factor(n, p);
        lemma_power_grows(n - 1, n, k - 1);
        lemma_product_grows(p, power(n, k - 1), n, n);
    }
}

/// From a deck of fifty-two, up to five cards can be chosen in fewer ways
/// than any machine integer can count.
pub proof fn lemma_choose_fits(n: int, k: int)
    requires
        0 <= n <= 52,
        0 <= k <= 5,
    ensures
        0 <= choose_count(n, k) <= 380_204_032,
{
    lemma_choose_bound(n, k);
    lemma_power_grows(n, 52, k);
    reveal_with_fuel(power, 7);
}

/// Every completion is one showdown: there are as many as there are ways
/// of choosing the missing cards from the deck.
pub proof fn lemma_completions_total(
    hole1: HoleCards,
    hole2: HoleCards,
    board: Seq<Card>,
    deck: Seq<Card>,
    start: int,
    need: int,
)
    requires
        0 <= start <= deck.len(),
    ensures
        completions(hole1, hole2, board, deck, start, need).total() == choose_count(
            deck.len() - start,
            need,
        ),
        completions(hole1, hole2, board, deck, start, need).player1 >= 0,
        completions(hole1, hole2, board, deck, start, need).player2 >= 0,
        completions(hole1, hole2, board, deck, start, need).ties >= 0,
    decreases need, deck.len() - start,
{
    if need <= 0 {
    } else if start >= deck.len() {
    } else {
        lemma_completions_total(hole1, hole2, board.push(deck[start]), deck, start + 1, need - 1);
        lemma_completions_total(hole1, hole2, board, deck, start + 1, need);
    }
}

/// As many cards are undealt as the dead cards leave of the fifty-two.
pub proof fn lemma_undealt_len(dead: CardSet)
    ensures
        undealt(dead@).len() == 52 - dead@.len(),
        dead@.len() <= 52,
{
    lemma_deck_without_len(dead.bits(), 52);
    lemma_cards_count(dead.bits());
}

/// The tally of the first `n` draws depends on those draws only.
pub proof fn lemma_sampled_agrees(
    hole1: HoleCards,
    hole2: HoleCards,
    board: Seq<Card>,
    a: Seq<Seq<Card>>,
    b: Seq<Seq<Card>>,
    need: int,
    n: int,
)
    requires
        0 <= n <= a.len(),
        n <= b.len(),
        forall|i: int| 0 <= i < n ==> a[i] == b[i],
    ensures
        sampled(hole1, hole2, board, a, need, n) == sampled(hole1, hole2, board, b, need, n),
    decreases n,
{
    if n > 0 {
        lemma_sampled_agrees(hole1, hole2, board, a, b, need, n - 1);
    }
}

/// No showdown is counted a negative number of times.
pub proof fn lemma_sampled_counts(
    hole1: HoleCards,
    hole2: HoleCards,
    board: Seq<Card>,
    draws: Seq<Seq<Card>>,
    need: int,
    n: int,
)
    ensures
        sampled(hole1, hole2, board, draws, need, n).player1 >= 0,
        sampled(hole1, hole2, board, draws, need, n).player2 >= 0,
        sampled(hole1, hole2, board, draws, need, n).ties >= 0,
    decreases n,
{
    if n > 0 {
        lemma_sampled_counts(hole1, hole2, board, draws, need, n - 1);
    }
}

/// The shares of a sampled result are shares that its trials can give.
pub proof fn lemma_sampled_fits(
    hole1: HoleCards,
    hole2: HoleCards,
    board: Seq<Card>,
    iterations: int,
    result: EquityResult,
)
    requires
        0 <= iterations <= usize::MAX,
        sampled_result(hole1, hole2, board, iterations, result),
    ensures
        shares_fit(result, iterations),
        result.simulations == iterations,
{
    let draws = choose|draws: Seq<Seq<Card>>|
        {
            &&& draws.len() == iterations
            &&& forall|i: int|
                0 <= i < iterations ==> is_shuffle(
                    #[trigger] draws[i],
                    undealt(dead_cards_of(hole1, hole2, board)),
                )
            &&& #[trigger] sampled(
                hole1,
                hole2,
                board,
                draws,
                5 - board.len(),
                iterations,
            ).total() == iterations
            &&& result == EquityResult::spec_from_tally(
                sampled(hole1, hole2, board, draws, 5 - board.len(), iterations).player1,
                sampled(hole1, hole2, board, draws, 5 - board.len(), iterations).player2,
                sampled(hole1, hole2, board, draws, 5 - board.len(), iterations).ties,
            )
        };
    lemma_sampled_counts(hole1, hole2, board, draws, 5 - board.len(), iterations);
}

/// The deck without the cards of a mask has as many cards as the mask
/// leaves.
pub proof fn lemma_deck_without_len(bits: u64, n: int)
    requires
        0 <= n <= 52,
    ensures
        deck_without(cards_of(bits), n).len() == n - count_below(bits, n),
    decreases n,
{
    if n > 0 {
        lemma_deck_without_len(bits, n - 1);
        lemma_index_of_index(n - 1);
    }
}

/// A board completed with the first cards of a draw.
pub fn complete_board(board: &[Card], drawn: &Vec<Card>, needed: usize) -> (full: Vec<Card>)
    requires
        needed <= drawn@.len(),
    ensures
        full@ == board@ + drawn@.take(needed as int),
{
    let mut full: Vec<Card> = Vec::new();
    let mut i: usize = 0;
    while i < board.len()
        invariant
            i <= board@.len(),
            full@ == board@.take(i as int),
        decreases board.len() - i,
    {
        full.push(board[i]);
        proof {
            assert(board@.take(i + 1) =~= board@.take(i as int).push(board@[i as int]));
        }
        i += 1;
    }
    proof {
        assert(board@.take(i as int) =~= board@);
        assert(full@ =~= board@ + drawn@.take(0));
    }
    let mut k: usize = 0;
    while k < needed
        invariant
            k <= needed <= drawn@.len(),
            full@ == board@ + drawn@.take(k as int),
        decreases needed - k,
    {
        full.push(drawn[k]);
        proof {
            assert(drawn@.take(k + 1) =~= drawn@.take(k as int).push(drawn@[k as int]));
            assert(full@ =~= board@ + drawn@.take(k + 1));
        }
        k += 1;
    }
    full
}

/// The tallies of an enumeration while it runs.
struct EnumerationContext {
    hole1: HoleCards,
    hole2: HoleCards,
    board: Vec<Card>,
    p1_wins: usize,
    p2_wins: usize,
    ties: usize,
    total: usize,
}

impl EnumerationContext {
    /// What has been counted so far.
    spec fn counts(self) -> Counts {
        Counts { player1: self.p1_wins as int, player2: self.p2_wins as int, ties: self.ties as int }
    }
}

/// Computes equities between hands and ranges.
pub struct EquityCalculator {
    evaluator: LookupEvaluator,
}

impl EquityCalculator {
    /// The evaluator that the calculator holds.
    pub closed spec fn spec_evaluator(self) -> LookupEvaluator {
        self.evaluator
    }

    /// A calculator with an evaluator of its own, whose flush table is built.
    pub fn new() -> (calculator: Self)
        ensures
            calculator.spec_evaluator().table() == built_table(),
    {
        Self { evaluator: LookupEvaluator::new() }
    }

    /// The evaluator that ranks the hands: the one that the calculator holds.
    pub fn evaluator(&self) -> (evaluator: &LookupEvaluator)
        ensures
            *evaluator == self.spec_evaluator(),
    {
        &self.evaluator
    }

    /// The cards that are not dead, in ascending order of index.
    pub fn available_cards(dead_cards: &CardSet) -> (available: Vec<Card>)
        ensures
            available@ == undealt(dead_cards@),
            available@.len() == 52 - dead_cards@.len(),
    {
        let deck = all_cards();
        let mut available: Vec<Card> = Vec::new();
        let mut i: usize = 0;
        while i < 52
            invariant
                i <= 52,
                deck@.len() == 52,
                forall|k: int| 0 <= k < 52 ==> #[trigger] deck@[k] == Card::of_index(k),
                available@ == deck_without(dead_cards@, i as int),
            decreases 52 - i,
        {
            let card = deck[i];
            if !dead_cards.contains(card) {
                available.push(card);
            }
            i += 1;
        }
        proof {
            lemma_undealt_len(*dead_cards);
        }
        available
    }

    /// The cards that two players and a board hold, as a set.
    fn dead_cards(hole1: &HoleCards, hole2: &HoleCards, board: &[Card]) -> (dead: CardSet)
        ensures
            dead@ == dead_cards_of(*hole1, *hole2, board@),
            dead@.len() <= board@.len() + 4,
    {
        let mut dead = CardSet::from_cards(board);
        proof {
            board@.lemma_cardinality_of_set();
        }
        dead.insert(hole1.high());
        dead.insert(hole1.low());
        dead.insert(hole2.high());
        dead.insert(hole2.low());
        dead
    }

    /// Decides a showdown on a board.
    pub fn showdown(&self, hole1: &HoleCards, hole2: &HoleCards, board: &[Card]) -> (outcome: Outcome)
        ensures
            outcome == showdown(*hole1, *hole2, board@),
    {
        let hand1 = build_hand(hole1, board);
        let hand2 = build_hand(hole2, board);
        let rank1 = self.evaluator.evaluate(&hand1);
        let rank2 = self.evaluator.evaluate(&hand2);
        proof {
            lemma_hand_score_range(player_mask(*hole1, board@));
            lemma_hand_score_range(player_mask(*hole2, board@));
        }
        if rank1.score() > rank2.score() {
            Outcome::Player1
        } else if rank1.score() < rank2.score() {
            Outcome::Player2
        } else {
            Outcome::Tie
        }
    }

    /// Exact equity between two hands: every completion of the board from
    /// the undealt cards is played out once.
    pub fn calculate_exact(&self, hole1: &HoleCards, hole2: &HoleCards, board: &[Card]) -> (r:
        EquityResult)
        requires
            board@.len() <= 5,
        ensures
            ({
                let deck = undealt(dead_cards_of(*hole1, *hole2, board@));
                let counts = completions(*hole1, *hole2, board@, deck, 0, 5 - board@.len());
                &&& r == EquityResult::spec_from_tally(counts.player1, counts.player2, counts.ties)
                &&& r.simulations == choose_count(deck.len() as int, 5 - board@.len())
            }),
    {
        let dead = Self::dead_cards(hole1, hole2, board);
        let available = Self::available_cards(&dead);
        let cards_needed = 5 - board.len();
        let mut start_board: Vec<Card> = Vec::new();
        let mut i: usize = 0;
        while i < board.len()
            invariant
                i <= board@.len(),
                start_board@ == board@.take(i as int),
            decreases board.len() - i,
        {
            start_board.push(board[i]);
            proof {
                assert(board@.take(i + 1) =~= board@.take(i as int).push(board@[i as int]));
            }
            i += 1;
        }
        proof {
            assert(board@.take(i as int) =~= board@);
            lemma_choose_fits(available@.len() as int, cards_needed as int);
            lemma_completions_total(*hole1, *hole2, board@, available@, 0, cards_needed as int);
        }
        let mut ctx = EnumerationContext {
            hole1: *hole1,
            hole2: *hole2,
            board: start_board,
            p1_wins: 0,
            p2_wins: 0,
            ties: 0,
            total: 0,
        };
        self.enumerate_helper(available.as_slice(), cards_needed, 0, &mut ctx);
        EquityResult::from_tally(ctx.p1_wins, ctx.p2_wins, ctx.ties)
    }

    /// Sampled equity between two hands: for each iteration the undealt
    /// cards are shuffled and the first of them complete the board.
    pub fn calculate_monte_carlo(
        &self,
        hole1: &HoleCards,
        hole2: &HoleCards,
        board: &[Card],
        iterations: usize,
    ) -> (r: EquityResult)
        requires
            board@.len() <= 5,
        ensures
            sampled_result(*hole1, *hole2, board@, iterations as int, r),
            r.simulations == iterations,
    {
        let dead = Self::dead_cards(hole1, hole2, board);
        let mut available = Self::available_cards(&dead);
        let cards_needed = 5 - board.len();
        let mut rng = thread_rng();
        let mut p1_wins: usize = 0;
        let mut p2_wins: usize = 0;
        let mut ties: usize = 0;
        let ghost deck = available@;
        let ghost mut draws: Seq<Seq<Card>> = Seq::empty();
        let mut done: usize = 0;
        while done < iterations
            invariant
                done <= iterations,
                cards_needed == 5 - board@.len(),
                deck == undealt(dead_cards_of(*hole1, *hole2, board@)),
                deck.len() >= 43,
                is_shuffle(available@, deck),
                draws.len() == done,
                forall|i: int| 0 <= i < done ==> is_shuffle(#[trigger] draws[i], deck),
                sampled(*hole1, *hole2, board@, draws, cards_needed as int, done as int) == (Counts {
                    player1: p1_wins as int,
                    player2: p2_wins as int,
                    ties: ties as int,
                }),
                p1_wins + p2_wins + ties == done,
            decreases iterations - done,
        {
            shuffle_cards(&mut available, &mut rng);
            proof {
                available@.to_multiset_ensures();
                deck.to_multiset_ensures();
            }
            let full_board = complete_board(board, &available, cards_needed);
            let outcome = self.showdown(hole1, hole2, full_board.as_slice());
            proof {
                let before = draws;
                draws = draws.push(available@);
                lemma_sampled_agrees(
                    *hole1,
                    *hole2,
                    board@,
                    before,
                    draws,
                    cards_needed as int,
                    done as int,
                );
            }
            match outcome {
                Outcome::Player1 => {
                    p1_wins += 1;
                },
                Outcome::Player2 => {
                    p2_wins += 1;
                },
                Outcome::Tie => {
                    ties += 1;
                },
            }
            done += 1;
        }
        let r = EquityResult::from_tally(p1_wins, p2_wins, ties);
        proof {
            let counts = sampled(*hole1, *hole2, board@, draws, 5 - board@.len(), iterations as int);
            assert(counts.total() == iterations);
            assert(r == EquityResult::spec_from_tally(counts.player1, counts.player2, counts.ties));
        }
        r
    }

    /// The cards that one player and a board hold, as a set.
    fn opponent_dead_cards(hole2: &HoleCards, board: &[Card]) -> (dead: CardSet)
        ensures
            dead@ == opponent_dead(*hole2, board@),
    {
        let mut dead = CardSet::from_cards(board);
        dead.insert(hole2.high());
        dead.insert(hole2.low());
        dead
    }

    /// The average of sampled results that each ran `iterations` trials.
    pub fn average_results(results: &Vec<EquityResult>, iterations: usize) -> (r: RangeEquityResult)
        requires
            results@.len() * iterations <= usize::MAX,
            forall|i: int|
                0 <= i < results@.len() ==> shares_fit(#[trigger] results@[i], iterations as int),
        ensures
            r == spec_average(results@, iterations as int),
    {
        let n = results.len();
        let mut range_sum: u128 = 0;
        let mut opponent_sum: u128 = 0;
        let mut tie_sum: u128 = 0;
        let mut i: usize = 0;
        while i < n
            invariant
                i <= n,
                n == results@.len(),
                n * iterations <= usize::MAX,
                forall|k: int|
                    0 <= k < results@.len() ==> shares_fit(#[trigger] results@[k], iterations as int),
                range_sum == sum_player1(results@, i as int),
                opponent_sum == sum_player2(results@, i as int),
                tie_sum == sum_ties(results@, i as int),
                range_sum <= 2 * (i * iterations),
                opponent_sum <= 2 * (i * iterations),
                tie_sum <= i * iterations,
            decreases n - i,
        {
            proof {
                assert(shares_fit(results@[i as int], iterations as int));
                lemma_one_more_factor(i + 1, iterations as int);
                lemma_product_grows(iterations as int, iterations as int, i + 1, n as int);
            }
            range_sum += results[i].player1_equity.numerator;
            opponent_sum += results[i].player2_equity.numerator;
            tie_sum += results[i].tie_equity.numerator;
            i += 1;
        }
        let total = n * iterations;
        RangeEquityResult {
            range_equity: Fraction::new(range_sum, 2 * (total as u128)),
            opponent_equity: Fraction::new(opponent_sum, 2 * (total as u128)),
            tie_equity: Fraction::new(tie_sum, total as u128),
            combos_evaluated: n,
            total_simulations: total,
        }
    }

    /// Equity of a range against a hand: each combination of the range
    /// that holds none of the opponent's cards and no card of the board is
    /// sampled against the hand, the combinations side by side on several
    /// threads, and the results are averaged.
    pub fn calculate_range_vs_hand(
        &self,
        range: &Range,
        hole2: &HoleCards,
        board: &[Card],
        iterations_per_combo: usize,
    ) -> (r: RangeEquityResult)
        requires
            board@.len() <= 5,
            spec_hole_cards(range@, opponent_dead(*hole2, board@)).len() * iterations_per_combo
                <= usize::MAX,
        ensures
            range_vs_hand_result(
                spec_hole_cards(range@, opponent_dead(*hole2, board@)),
                *hole2,
                board@,
                iterations_per_combo as int,
                r,
            ),
    {
        let dead_cards = Self::opponent_dead_cards(hole2, board);
        let combos = range.to_hole_cards(Some(dead_cards));
        if combos.len() == 0 {
            return RangeEquityResult {
                range_equity: Fraction::new(0, 1),
                opponent_equity: Fraction::new(1, 1),
                tie_equity: Fraction::new(0, 1),
                combos_evaluated: 0,
                total_simulations: 0,
            };
        }
        let run = |hole1: &HoleCards| -> (result: EquityResult)
            ensures
                sampled_result(*hole1, *hole2, board@, iterations_per_combo as int, result),
            { self.calculate_monte_carlo(hole1, hole2, board, iterations_per_combo) };
        let results = par_map(&combos, run);
        proof {
            assert forall|i: int| 0 <= i < results@.len() implies shares_fit(
                #[trigger] results@[i],
                iterations_per_combo as int,
            ) by {
                lemma_sampled_fits(
                    combos@[i],
                    *hole2,
                    board@,
                    iterations_per_combo as int,
                    results@[i],
                );
            }
        }
        Self::average_results(&results, iterations_per_combo)
    }

    /// The matchups between two lists of combinations: every pair that
    /// shares no card, row by row.
    pub fn matchups(combos1: &Vec<HoleCards>, combos2: &Vec<HoleCards>) -> (pairs: Vec<
        (HoleCards, HoleCards),
    >)
        ensures
            pairs@ == spec_matchups(combos1@, combos2@),
    {
        let mut pairs: Vec<(HoleCards, HoleCards)> = Vec::new();
        let mut i: usize = 0;
        while i < combos1.len()
            invariant
                i <= combos1@.len(),
                pairs@ == matchups_upto(combos1@, combos2@, i as int),
            decreases combos1.len() - i,
        {
            let hole1 = combos1[i];
            let ghost before = pairs@;
            let mut j: usize = 0;
            while j < combos2.len()
                invariant
                    j <= combos2@.len(),
                    i < combos1@.len(),
                    hole1 == combos1@[i as int],
                    pairs@ == before + row_matchups(hole1, combos2@, j as int),
                decreases combos2.len() - j,
            {
                let hole2 = combos2[j];
                if !(hole1.high() == hole2.high() || hole1.high() == hole2.low() || hole1.low()
                    == hole2.high() || hole1.low() == hole2.low()) {
                    pairs.push((hole1, hole2));
                    proof {
                        assert(pairs@ =~= before + row_matchups(hole1, combos2@, j + 1));
                    }
                }
                j += 1;
            }
            i += 1;
        }
        pairs
    }

    /// The matchups between two ranges on a board.
    fn matchups_on_board(range1: &Range, range2: &Range, board: &[Card]) -> (pairs: Vec<
        (HoleCards, HoleCards),
    >)
        ensures
            pairs@ == spec_matchups(
                spec_hole_cards(range1@, board@.to_set()),
                spec_hole_cards(range2@, board@.to_set()),
            ),
    {
        let combos1 = Self::combos_on_board(range1, board);
        let combos2 = Self::combos_on_board(range2, board);
        Self::matchups(&combos1, &combos2)
    }

    /// The result between two ranges where there is no matchup to play.
    fn nothing_played() -> (r: RangeEquityResult)
        ensures
            r == empty_result(0),
    {
        RangeEquityResult {
            range_equity: Fraction::new(0, 1),
            opponent_equity: Fraction::new(0, 1),
            tie_equity: Fraction::new(0, 1),
            combos_evaluated: 0,
            total_simulations: 0,
        }
    }

    /// The combinations of a range on a board: those that hold no card of it.
    fn combos_on_board(range: &Range, board: &[Card]) -> (combos: Vec<HoleCards>)
        ensures
            combos@ == spec_hole_cards(range@, board@.to_set()),
    {
        let board_cards = CardSet::from_cards(board);
        range.to_hole_cards(Some(board_cards))
    }

    /// Equity of a range against a range: every matchup of a combination
    /// of the one with a combination of the other that shares no card is
    /// sampled, the matchups side by side on several threads, and the
    /// results are averaged.
    pub fn calculate_range_vs_range(
        &self,
        range1: &Range,
        range2: &Range,
        board: &[Card],
        iterations_per_matchup: usize,
    ) -> (r: RangeEquityResult)
        requires
            board@.len() <= 5,
            spec_matchups(
                spec_hole_cards(range1@, board@.to_set()),
                spec_hole_cards(range2@, board@.to_set()),
            ).len() * iterations_per_matchup <= usize::MAX,
        ensures
            range_vs_range_result(
                spec_matchups(
                    spec_hole_cards(range1@, board@.to_set()),
                    spec_hole_cards(range2@, board@.to_set()),
                ),
                board@,
                iterations_per_matchup as int,
                r,
            ),
    {
        let matchups = Self::matchups_on_board(range1, range2, board);
        if matchups.len() == 0 {
            return Self::nothing_played();
        }
        let run = |pair: &(HoleCards, HoleCards)| -> (result: EquityResult)
            ensures
                sampled_result(pair.0, pair.1, board@, iterations_per_matchup as int, result),
            { self.calculate_monte_carlo(&pair.0, &pair.1, board, iterations_per_matchup) };
        let results = par_map(&matchups, run);
        proof {
            assert forall|i: int| 0 <= i < results@.len() implies shares_fit(
                #[trigger] results@[i],
                iterations_per_matchup as int,
            ) by {
                lemma_sampled_fits(
                    matchups@[i].0,
                    matchups@[i].1,
                    board@,
                    iterations_per_matchup as int,
                    results@[i],
                );
            }
        }
        Self::average_results(&results, iterations_per_matchup)
    }

    /// Equity of a range against a range, one matchup after the other on
    /// the calling thread.
    pub fn calculate_range_vs_range_sequential(
        &self,
        range1: &Range,
        range2: &Range,
        board: &[Card],
        iterations_per_matchup: usize,
    ) -> (r: RangeEquityResult)
        requires
            board@.len() <= 5,
            spec_matchups(
                spec_hole_cards(range1@, board@.to_set()),
                spec_hole_cards(range2@, board@.to_set()),
            ).len() * iterations_per_matchup <= usize::MAX,
        ensures
            range_vs_range_result(
                spec_matchups(
                    spec_hole_cards(range1@, board@.to_set()),
                    spec_hole_cards(range2@, board@.to_set()),
                ),
                board@,
                iterations_per_matchup as int,
                r,
            ),
    {
        let matchups = Self::matchups_on_board(range1, range2, board);
        if matchups.len() == 0 {
            return Self::nothing_played();
        }
        let mut results: Vec<EquityResult> = Vec::new();
        let mut i: usize = 0;
        while i < matchups.len()
            invariant
                i <= matchups@.len(),
                board@.len() <= 5,
                results@.len() == i,
                forall|k: int|
                    0 <= k < i ==> sampled_result(
                        matchups@[k].0,
                        matchups@[k].1,
                        board@,
                        iterations_per_matchup as int,
                        #[trigger] results@[k],
                    ),
                forall|k: int|
                    0 <= k < i ==> shares_fit(#[trigger] results@[k], iterations_per_matchup as int),
            decreases matchups.len() - i,
        {
            let result = self.calculate_monte_carlo(
                &matchups[i].0,
                &matchups[i].1,
                board,
                iterations_per_matchup,
            );
            proof {
                lemma_sampled_fits(
                    matchups@[i as int].0,
                    matchups@[i as int].1,
                    board@,
                    iterations_per_matchup as int,
                    result,
                );
            }
            results.push(result);
            i += 1;
        }
        Self::average_results(&results, iterations_per_matchup)
    }

    /// Plays out every way of completing the board of a context with
    /// `need` of the available cards from index `start` on.
    fn enumerate_helper(
        &self,
        available: &[Card],
        need: usize,
        start: usize,
        ctx: &mut EnumerationContext,
    )
        requires
            start <= available@.len() <= 52,
            need <= 5,
            old(ctx).counts().total() == old(ctx).total,
            old(ctx).total + choose_count(available@.len() - start, need as int) <= usize::MAX,
        ensures
            final(ctx).hole1 == old(ctx).hole1,
            final(ctx).hole2 == old(ctx).hole2,
            final(ctx).board@ == old(ctx).board@,
            final(ctx).counts() == old(ctx).counts().plus(
                completions(
                    old(ctx).hole1,
                    old(ctx).hole2,
                    old(ctx).board@,
                    available@,
                    start as int,
                    need as int,
                ),
            ),
            final(ctx).counts().total() == final(ctx).total,
        decreases need, available@.len() - start,
    {
        let ghost hole1 = ctx.hole1;
        let ghost hole2 = ctx.hole2;
        let ghost board = ctx.board@;
        let ghost before = ctx.counts();
        if need == 0 {
            match self.showdown(&ctx.hole1, &ctx.hole2, ctx.board.as_slice()) {
                Outcome::Player1 => {
                    ctx.p1_wins += 1;
                },
                Outcome::Player2 => {
                    ctx.p2_wins += 1;
                },
                Outcome::Tie => {
                    ctx.ties += 1;
                },
            }
            ctx.total += 1;
            return ;
        }
        let mut i: usize = start;
        while i < available.len()
            invariant
                start <= i <= available@.len() <= 52,
                0 < need <= 5,
                ctx.hole1 == hole1,
                ctx.hole2 == hole2,
                ctx.board@ == board,
                ctx.counts().total() == ctx.total,
                ctx.total + choose_count(available@.len() - i, need as int) <= usize::MAX,
                before.plus(
                    completions(hole1, hole2, board, available@, start as int, need as int),
                ) == ctx.counts().plus(
                    completions(hole1, hole2, board, available@, i as int, need as int),
                ),
            decreases available@.len() - i,
        {
            proof {
                lemma_completions_total(
                    hole1,
                    hole2,
                    board.push(available@[i as int]),
                    available@,
                    i + 1,
                    need - 1,
                );
                lemma_completions_total(hole1, hole2, board, available@, i + 1, need as int);
                lemma_choose_bound(available@.len() - i - 1, need as int);
                lemma_choose_bound(available@.len() - i - 1, need - 1);
            }
            ctx.board.push(available[i]);
            self.enumerate_helper(available, need - 1, i + 1, ctx);
            ctx.board.pop();
            proof {
                assert(ctx.board@ =~= board);
            }
            i += 1;
        }
    }
}

impl Default for EquityCalculator {
    fn default() -> (calculator: Self)
        ensures
            calculator.spec_evaluator().table() == built_table(),
    {
        Self::new()
    }
}

} // verus!

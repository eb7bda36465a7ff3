//! Equity among two to nine players.

use vstd::prelude::*;
use crate::card::Card;
use crate::card_set::{lemma_push_to_set, CardSet};
use crate::equity::results::{sum_numerators, Fraction, MultiPlayerEquityResult};
use crate::equity::{complete_board, is_shuffle, lemma_product_grows, undealt, EquityCalculator};
use crate::evaluator::{hand_score, lemma_hand_score_range, HandEvaluator, LookupEvaluator};
use crate::hand::HoleCards;
use crate::helpers::{build_hand, player_mask};
use crate::trusted::{par_repeat, shuffle_cards, thread_rng};

verus! {

/// The score of each player's hand on a board.
pub open spec fn player_scores(holes: Seq<HoleCards>, board: Seq<Card>) -> Seq<u32> {
    Seq::new(holes.len(), |i: int| hand_score(player_mask(holes[i], board)) as u32)
}

/// The highest of the first `n` scores, or zero where there is none.
pub open spec fn best_score(scores: Seq<u32>, n: int) -> u32
    decreases n,
{
    if n <= 0 {
        0
    } else if scores[n - 1] > best_score(scores, n - 1) {
        scores[n - 1]
    } else {
        best_score(scores, n - 1)
    }
}

/// The players among the first `n` whose score is `best`, in ascending order.
pub open spec fn holders(scores: Seq<u32>, best: u32, n: int) -> Seq<usize>
    decreases n,
{
    if n <= 0 {
        Seq::empty()
    } else if scores[n - 1] == best {
        holders(scores, best, n - 1).push((n - 1) as usize)
    } else {
        holders(scores, best, n - 1)
    }
}

/// The players that hold the best score.
pub open spec fn winners_of(scores: Seq<u32>) -> Seq<usize> {
    holders(scores, best_score(scores, scores.len() as int), scores.len() as int)
}

/// The cards of the first `n` players.
pub open spec fn hole_cards_upto(holes: Seq<HoleCards>, n: int) -> Set<Card>
    decreases n,
{
    if n <= 0 {
        Set::empty()
    } else {
        hole_cards_upto(holes, n - 1).insert(holes[n - 1].spec_high()).insert(
            holes[n - 1].spec_low(),
        )
    }
}

/// The cards that the players and a board hold.
pub open spec fn multiway_dead(holes: Seq<HoleCards>, board: Seq<Card>) -> Set<Card> {
    hole_cards_upto(holes, holes.len() as int).union(board.to_set())
}

/// What holds of the winners of one sampled trial whatever was drawn: they
/// are the winners on the board that some order of the deck completes.
pub open spec fn trial_winners(
    holes: Seq<HoleCards>,
    board: Seq<Card>,
    deck: Seq<Card>,
    need: int,
    winners: Seq<usize>,
) -> bool {
    exists|draw: Seq<Card>|
        is_shuffle(draw, deck) && winners == #[trigger] winners_of(
            player_scores(holes, board + draw.take(need)),
        )
}

/// What each of a list of winner lists holds.
pub open spec fn winner_lists(results: Seq<Vec<usize>>) -> Seq<Seq<usize>> {
    Seq::new(results.len(), |i: int| results[i]@)
}

/// In how many of the first `n` trials a player won alone.
pub open spec fn count_wins(trials: Seq<Seq<usize>>, player: int, n: int) -> int
    decreases n,
{
    if n <= 0 {
        0
    } else {
        count_wins(trials, player, n - 1) + if trials[n - 1].len() == 1 && trials[n - 1][0] == player {
            1int
        } else {
            0int
        }
    }
}

/// In how many of the first `n` trials nobody won alone.
pub open spec fn count_shared(trials: Seq<Seq<usize>>, n: int) -> int
    decreases n,
{
    if n <= 0 {
        0
    } else {
        count_shared(trials, n - 1) + if trials[n - 1].len() == 1 {
            0int
        } else {
            1int
        }
    }
}

/// The sum of the first `n` entries of a list of wins.
pub open spec fn sum_wins(wins: Seq<usize>, n: int) -> int
    decreases n,
{
    if n <= 0 {
        0
    } else {
        sum_wins(wins, n - 1) + wins[n - 1]
    }
}

/// Whether a result gives each player the wins counted and, on top, one
/// share of the ties for each player there is: every share is the
/// player's wins times the number of players, plus the ties, over the
/// trials times the number of players.
pub open spec fn shares_follow(
    result: MultiPlayerEquityResult,
    wins: Seq<usize>,
    ties: int,
    num_players: int,
    iterations: int,
) -> bool {
    &&& result.wins@ == wins
    &&& result.ties == ties
    &&& result.simulations == iterations
    &&& result.player_equities@.len() == wins.len()
    &&& forall|p: int|
        0 <= p < wins.len() ==> #[trigger] result.player_equities@[p] == Fraction::of(
            wins[p] * num_players + ties,
            iterations * num_players,
        )
}

/// Whether a result is the tally of a list of trials.
pub open spec fn tallied(
    trials: Seq<Seq<usize>>,
    num_players: int,
    iterations: int,
    result: MultiPlayerEquityResult,
) -> bool {
    &&& result.wins@.len() == num_players
    &&& forall|p: int|
        0 <= p < num_players ==> #[trigger] result.wins@[p] == count_wins(
            trials,
            p,
            trials.len() as int,
        )
    &&& shares_follow(
        result,
        result.wins@,
        count_shared(trials, trials.len() as int),
        num_players,
        iterations,
    )
}

/// What holds of a sampled result among several players whatever was
/// drawn: it is the tally of as many trials as there were iterations, each
/// on a board that some order of the undealt deck completes.
pub open spec fn multiway_result(
    holes: Seq<HoleCards>,
    board: Seq<Card>,
    iterations: int,
    result: MultiPlayerEquityResult,
) -> bool {
    exists|trials: Seq<Seq<usize>>|
        {
            &&& trials.len() == iterations
            &&& forall|i: int|
                0 <= i < iterations ==> trial_winners(
                    holes,
                    board,
                    undealt(multiway_dead(holes, board)),
                    5 - board.len(),
                    #[trigger] trials[i],
                )
            &&& #[trigger] tallied(trials, holes.len() as int, iterations, result)
        }
}

/// The exact result on a full board: the tally of the one trial that the
/// board is. The one winner has it all; where the best hand is shared, one
/// tie is recorded and every player has one share of as many as there are
/// players.
pub open spec fn exact_result(
    holes: Seq<HoleCards>,
    board: Seq<Card>,
    result: MultiPlayerEquityResult,
) -> bool {
    tallied(seq![winners_of(player_scores(holes, board))], holes.len() as int, 1, result)
}

/// The best score is the score of some player, and no player has a higher one.
pub proof fn lemma_best_score(scores: Seq<u32>, n: int)
    requires
        0 < n <= scores.len(),
    ensures
        forall|i: int| 0 <= i < n ==> scores[i] <= best_score(scores, n),
        exists|i: int| 0 <= i < n && scores[i] == best_score(scores, n),
    decreases n,
{
    if n > 1 {
        lemma_best_score(scores, n - 1);
        let i = choose|i: int| 0 <= i < n - 1 && scores[i] == best_score(scores, n - 1);
        if scores[n - 1] > best_score(scores, n - 1) {
            assert(scores[n - 1] == best_score(scores, n));
        } else {
            assert(scores[i] == best_score(scores, n));
        }
    } else {
        reveal_with_fuel(best_score, 2);
        assert(scores[0] == best_score(scores, 1));
    }
}

/// The holders of a score are the players that have it, each once, in
/// ascending order.
pub proof fn lemma_holders(scores: Seq<u32>, best: u32, n: int)
    requires
        0 <= n <= scores.len(),
        n <= usize::MAX,
    ensures
        holders(scores, best, n).len() <= n,
        forall|k: int|
            0 <= k < holders(scores, best, n).len() ==> 0 <= #[trigger] holders(scores, best, n)[k]
                < n && scores[holders(scores, best, n)[k] as int] == best,
        forall|p: int|
            0 <= p < n ==> (scores[p] == best <==> holders(scores, best, n).contains(p as usize)),
    decreases n,
{
    let now = holders(scores, best, n);
    if n > 0 {
        lemma_holders(scores, best, n - 1);
        let before = holders(scores, best, n - 1);
        assert forall|p: int| 0 <= p < n implies (scores[p] == best <==> now.contains(
            p as usize,
        )) by {
            if scores[n - 1] == best {
                assert(now == before.push((n - 1) as usize));
                if p == n - 1 {
                    assert(now[before.len() as int] == p as usize);
                } else {
                    if before.contains(p as usize) {
                        let k = choose|k: int| 0 <= k < before.len() && before[k] == p as usize;
                        assert(now[k] == p as usize);
                    }
                    if now.contains(p as usize) {
                        let k = choose|k: int| 0 <= k < now.len() && now[k] == p as usize;
                        assert(k < before.len());
                        assert(before[k] == p as usize);
                    }
                }
            } else {
                assert(now == before);
                if p == n - 1 {
                    if now.contains(p as usize) {
                        let k = choose|k: int| 0 <= k < now.len() && now[k] == p as usize;
                        assert(before[k] < n - 1);
                    }
                }
            }
        }
    }
}

/// Somebody always holds the best score.
pub proof fn lemma_winners_exist(scores: Seq<u32>)
    requires
        0 < scores.len() <= usize::MAX,
    ensures
        0 < winners_of(scores).len() <= scores.len(),
        forall|k: int|
            0 <= k < winners_of(scores).len() ==> #[trigger] winners_of(scores)[k] < scores.len(),
{
    let n = scores.len() as int;
    lemma_best_score(scores, n);
    lemma_holders(scores, best_score(scores, n), n);
    let i = choose|i: int| 0 <= i < n && scores[i] == best_score(scores, n);
    assert(winners_of(scores).contains(i as usize));
}

/// Where all players tie, every player is a winner: each of `n` players
/// has one share of `n`.
pub proof fn lemma_all_tied(scores: Seq<u32>)
    requires
        0 < scores.len() <= usize::MAX,
        forall|i: int, j: int| 0 <= i < scores.len() && 0 <= j < scores.len() ==> scores[i] == scores[j],
    ensures
        winners_of(scores).len() == scores.len(),
        forall|p: usize| p < scores.len() ==> #[trigger] winners_of(scores).contains(p),
{
    let n = scores.len() as int;
    lemma_best_score(scores, n);
    lemma_holders(scores, best_score(scores, n), n);
    lemma_all_hold(scores, best_score(scores, n), n);
    assert forall|p: usize| p < scores.len() implies #[trigger] winners_of(scores).contains(p) by {
        assert(scores[p as int] == best_score(scores, n));
    }
}

proof fn lemma_all_hold(scores: Seq<u32>, best: u32, n: int)
    requires
        0 <= n <= scores.len(),
        forall|i: int| 0 <= i < n ==> scores[i] == best,
    ensures
        holders(scores, best, n).len() == n,
    decreases n,
{
    if n > 0 {
        lemma_all_hold(scores, best, n - 1);
    }
}

/// Every trial is either one player's win or shared: the wins of all
/// players and the shared trials make up the trials.
pub proof fn lemma_trials_add_up(trials: Seq<Seq<usize>>, wins: Seq<usize>, n: int, players: int)
    requires
        0 <= n <= trials.len(),
        n <= usize::MAX,
        wins.len() == players,
        forall|i: int| 0 <= i < n && trials[i].len() == 1 ==> 0 <= #[trigger] trials[i][0] < players,
        forall|p: int| 0 <= p < players ==> #[trigger] wins[p] == count_wins(trials, p, n),
    ensures
        sum_wins(wins, players) + count_shared(trials, n) == n,
    decreases n,
{
    if n == 0 {
        lemma_sum_zero(wins, players);
    } else {
        let before = Seq::new(wins.len(), |p: int| count_wins(trials, p, n - 1) as usize);
        assert forall|p: int| 0 <= p < players implies #[trigger] before[p] == count_wins(
            trials,
            p,
            n - 1,
        ) by {
            lemma_count_wins_range(trials, p, n - 1);
        }
        lemma_trials_add_up(trials, before, n - 1, players);
        if trials[n - 1].len() == 1 {
            let w = trials[n - 1][0] as int;
            lemma_sum_one_more(before, wins, players, w);
        } else {
            lemma_sum_same(before, wins, players);
        }
    }
}

proof fn lemma_count_wins_range(trials: Seq<Seq<usize>>, player: int, n: int)
    requires
        0 <= n,
    ensures
        0 <= count_wins(trials, player, n) <= n,
    decreases n,
{
    if n > 0 {
        lemma_count_wins_range(trials, player, n - 1);
    }
}

proof fn lemma_count_shared_range(trials: Seq<Seq<usize>>, n: int)
    requires
        0 <= n,
    ensures
        0 <= count_shared(trials, n) <= n,
    decreases n,
{
    if n > 0 {
        lemma_count_shared_range(trials, n - 1);
    }
}

proof fn lemma_sum_zero(wins: Seq<usize>, n: int)
    requires
        0 <= n <= wins.len(),
        forall|p: int| 0 <= p < n ==> #[trigger] wins[p] == 0,
    ensures
        sum_wins(wins, n) == 0,
    decreases n,
{
    if n > 0 {
        lemma_sum_zero(wins, n - 1);
    }
}

proof fn lemma_sum_same(a: Seq<usize>, b: Seq<usize>, n: int)
    requires
        0 <= n <= a.len(),
        n <= b.len(),
        forall|p: int| 0 <= p < n ==> #[trigger] a[p] == b[p],
    ensures
        sum_wins(a, n) == sum_wins(b, n),
    decreases n,
{
    if n > 0 {
        lemma_sum_same(a, b, n - 1);
    }
}

proof fn lemma_sum_one_more(a: Seq<usize>, b: Seq<usize>, n: int, w: int)
    requires
        0 <= n <= a.len(),
        n <= b.len(),
        forall|p: int| 0 <= p < n && p != w ==> #[trigger] a[p] == b[p],
        0 <= w < n ==> a[w] + 1 == b[w],
    ensures
        sum_wins(b, n) == sum_wins(a, n) + if 0 <= w < n {
            1int
        } else {
            0int
        },
    decreases n,
{
    if n > 0 {
        lemma_sum_one_more(a, b, n - 1, w);
    }
}

/// The shares of all players together are the whole pot: where each
/// share is a player's wins times the number of players, plus the ties,
/// the numerators add up to the trials times the number of players.
pub proof fn lemma_shares_sum(
    shares: Seq<Fraction>,
    wins: Seq<usize>,
    ties: int,
    num_players: int,
    iterations: int,
    n: int,
)
    requires
        0 <= n <= wins.len(),
        wins.len() == shares.len(),
        0 <= ties,
        0 <= num_players,
        forall|p: int|
            0 <= p < n ==> (#[trigger] shares[p]).numerator == wins[p] * num_players + ties,
    ensures
        sum_numerators(shares, n) == sum_wins(wins, n) * num_players + n * ties,
    decreases n,
{
    if n > 0 {
        lemma_shares_sum(shares, wins, ties, num_players, iterations, n - 1);
        let earlier = sum_wins(wins, n - 1);
        let last = wins[n - 1] as int;
        assert(shares[n - 1].numerator == last * num_players + ties);
        assert(sum_wins(wins, n) == earlier + last);
        assert((earlier + last) * num_players == earlier * num_players + last * num_players)
            by (nonlinear_arith);
        assert(n * ties == (n - 1) * ties + ties) by (nonlinear_arith);
        assert(sum_numerators(shares, n) == sum_numerators(shares, n - 1) + shares[n - 1].numerator);
    } else {
        assert(sum_wins(wins, n) == 0);
        assert(0 * num_players + 0 * ties == 0);
    }
}

/// The shares of a sampled result among several players are the whole
/// pot, where any trial was run: all shares have the trials times the
/// number of players as their denominator, which is not zero, and their
/// numerators add up to it.
pub proof fn lemma_sampled_shares_are_the_pot(
    holes: Seq<HoleCards>,
    board: Seq<Card>,
    iterations: int,
    result: MultiPlayerEquityResult,
)
    requires
        0 < holes.len() <= usize::MAX,
        0 < iterations <= usize::MAX,
        multiway_result(holes, board, iterations, result),
    ensures
        result.player_equities@.len() == holes.len(),
        0 < iterations * holes.len(),
        forall|p: int|
            0 <= p < holes.len() ==> (#[trigger] result.player_equities@[p]).denominator == iterations
                * holes.len(),
        sum_numerators(result.player_equities@, holes.len() as int) == iterations * holes.len(),
{
    assert(0 < iterations * holes.len()) by (nonlinear_arith)
        requires
            0 < iterations,
            0 < holes.len(),
    ;
    let players = holes.len() as int;
    let trials = choose|trials: Seq<Seq<usize>>|
        {
            &&& trials.len() == iterations
            &&& forall|i: int|
                0 <= i < iterations ==> trial_winners(
                    holes,
                    board,
                    undealt(multiway_dead(holes, board)),
                    5 - board.len(),
                    #[trigger] trials[i],
                )
            &&& #[trigger] tallied(trials, holes.len() as int, iterations, result)
        };
    let ties = count_shared(trials, iterations);
    lemma_count_shared_range(trials, iterations);
    assert forall|i: int| 0 <= i < iterations && trials[i].len() == 1 implies 0
        <= #[trigger] trials[i][0] < players by {
        let draw = choose|draw: Seq<Card>|
            is_shuffle(draw, undealt(multiway_dead(holes, board))) && trials[i]
                == #[trigger] winners_of(player_scores(holes, board + draw.take(5 - board.len())));
        lemma_winners_exist(player_scores(holes, board + draw.take(5 - board.len())));
    }
    lemma_trials_add_up(trials, result.wins@, iterations, players);
    lemma_product_grows(players, 0xFFFF_FFFF_FFFF_FFFF, iterations, 0xFFFF_FFFF_FFFF_FFFF);
    assert forall|p: int| 0 <= p < players implies (#[trigger] result.player_equities@[p]).numerator
        == result.wins@[p] * players + ties && result.player_equities@[p].denominator == iterations
        * players by {
        lemma_product_grows(
            players,
            0xFFFF_FFFF_FFFF_FFFF,
            result.wins@[p] as int,
            0xFFFF_FFFF_FFFF_FFFF,
        );
    }
    lemma_shares_sum(result.player_equities@, result.wins@, ties, players, iterations, players);
    assert((sum_wins(result.wins@, players) + ties) * players == sum_wins(result.wins@, players)
        * players + players * ties) by (nonlinear_arith);
}

/// The shares of an exact result are the whole pot: all shares have the
/// number of players as their denominator, and their numerators add up to it.
pub proof fn lemma_exact_shares_are_the_pot(
    holes: Seq<HoleCards>,
    board: Seq<Card>,
    result: MultiPlayerEquityResult,
)
    requires
        0 < holes.len() <= usize::MAX,
        exact_result(holes, board, result),
    ensures
        result.player_equities@.len() == holes.len(),
        forall|p: int|
            0 <= p < holes.len() ==> (#[trigger] result.player_equities@[p]).denominator
                == holes.len(),
        sum_numerators(result.player_equities@, holes.len() as int) == holes.len(),
{
    let players = holes.len() as int;
    let trials = seq![winners_of(player_scores(holes, board))];
    reveal_with_fuel(count_shared, 2);
    let ties = count_shared(trials, 1);
    lemma_winners_exist(player_scores(holes, board));
    lemma_trials_add_up(trials, result.wins@, 1, players);
    assert forall|p: int| 0 <= p < players implies (#[trigger] result.player_equities@[p]).numerator
        == result.wins@[p] * players + ties && result.player_equities@[p].denominator == players by {
        lemma_count_wins_range(trials, p, 1);
        lemma_product_grows(players, 0xFFFF_FFFF_FFFF_FFFF, result.wins@[p] as int, 1);
    }
    lemma_shares_sum(result.player_equities@, result.wins@, ties, players, 1, players);
    assert((sum_wins(result.wins@, players) + ties) * players == sum_wins(result.wins@, players)
        * players + players * ties) by (nonlinear_arith);
}

/// Where one player alone holds the best hand on a full board, that
/// player has the whole pot and nobody else has anything.
pub proof fn lemma_one_winner_takes_all(
    holes: Seq<HoleCards>,
    board: Seq<Card>,
    result: MultiPlayerEquityResult,
    winner: int,
)
    requires
        0 < holes.len() <= usize::MAX,
        exact_result(holes, board, result),
        winners_of(player_scores(holes, board)) == seq![winner as usize],
        0 <= winner < holes.len(),
    ensures
        result.ties == 0,
        forall|p: int|
            0 <= p < holes.len() ==> #[trigger] result.player_equities@[p] == Fraction::of(
                if p == winner {
                    holes.len() as int
                } else {
                    0int
                },
                holes.len() as int,
            ),
{
    let trials = seq![winners_of(player_scores(holes, board))];
    reveal_with_fuel(count_shared, 2);
    reveal_with_fuel(count_wins, 2);
    assert forall|p: int| 0 <= p < holes.len() implies #[trigger] result.player_equities@[p]
        == Fraction::of(
        if p == winner {
            holes.len() as int
        } else {
            0int
        },
        holes.len() as int,
    ) by {
        assert(result.wins@[p] == count_wins(trials, p, 1));
        if p == winner {
            assert(1 * holes.len() + 0 == holes.len());
        } else {
            assert(0 * holes.len() + 0 == 0);
        }
    }
}

/// Where all players hold the same hand on a full board, each of them has
/// one share of as many as there are players, and one tie is recorded.
pub proof fn lemma_all_tied_shares(
    holes: Seq<HoleCards>,
    board: Seq<Card>,
    result: MultiPlayerEquityResult,
)
    requires
        2 <= holes.len() <= usize::MAX,
        exact_result(holes, board, result),
        forall|i: int, j: int|
            0 <= i < holes.len() && 0 <= j < holes.len() ==> hand_score(player_mask(holes[i], board))
                == hand_score(player_mask(holes[j], board)),
    ensures
        result.ties == 1,
        forall|p: int|
            0 <= p < holes.len() ==> #[trigger] result.player_equities@[p] == Fraction::of(
                1,
                holes.len() as int,
            ),
        forall|p: int| 0 <= p < holes.len() ==> #[trigger] result.wins@[p] == 0,
{
    let scores = player_scores(holes, board);
    assert forall|i: int, j: int| 0 <= i < scores.len() && 0 <= j < scores.len() implies scores[i]
        == scores[j] by {
        assert(hand_score(player_mask(holes[i], board)) == hand_score(player_mask(holes[j], board)));
    }
    lemma_all_tied(scores);
    let trials = seq![winners_of(scores)];
    reveal_with_fuel(count_shared, 2);
    reveal_with_fuel(count_wins, 2);
    assert forall|p: int| 0 <= p < holes.len() implies #[trigger] result.player_equities@[p]
        == Fraction::of(1, holes.len() as int) && result.wins@[p] == 0 by {
        assert(result.wins@[p] == count_wins(trials, p, 1));
        assert(0 * holes.len() + 1 == 1);
        assert(1 * holes.len() == holes.len());
    }
}

/// The equity calculations among several players.
pub trait MultiwayEquityCalculator {
    /// Sampled equity among two to nine players, the trials side by side
    /// on several threads.
    fn calculate_multiway_monte_carlo(
        &self,
        hole_cards: &[HoleCards],
        board: &[Card],
        iterations: usize,
    ) -> (r: MultiPlayerEquityResult)
        requires
            2 <= hole_cards@.len() <= 9,
            board@.len() <= 5,
        ensures
            multiway_result(hole_cards@, board@, iterations as int, r),
    ;

    /// Sampled equity among two to nine players, one trial after the other
    /// on the calling thread.
    fn calculate_multiway_monte_carlo_sequential(
        &self,
        hole_cards: &[HoleCards],
        board: &[Card],
        iterations: usize,
    ) -> (r: MultiPlayerEquityResult)
        requires
            2 <= hole_cards@.len() <= 9,
            board@.len() <= 5,
        ensures
            multiway_result(hole_cards@, board@, iterations as int, r),
    ;

    /// Exact equity among two to nine players on a full board.
    fn calculate_multiway_exact(&self, hole_cards: &[HoleCards], board: &[Card]) -> (r:
        MultiPlayerEquityResult)
        requires
            2 <= hole_cards@.len() <= 9,
            board@.len() == 5,
        ensures
            exact_result(hole_cards@, board@, r),
    ;
}

/// The cards that the players and a board hold, as a set.
fn build_dead_cards(hole_cards: &[HoleCards], board: &[Card]) -> (dead: CardSet)
    ensures
        dead@ == multiway_dead(hole_cards@, board@),
        dead@.len() <= 2 * hole_cards@.len() + board@.len(),
{
    let mut dead_cards = CardSet::new();
    let mut i: usize = 0;
    while i < hole_cards.len()
        invariant
            i <= hole_cards@.len(),
            dead_cards@ == hole_cards_upto(hole_cards@, i as int),
            dead_cards@.finite(),
            dead_cards@.len() <= 2 * i,
        decreases hole_cards.len() - i,
    {
        dead_cards.insert(hole_cards[i].high());
        dead_cards.insert(hole_cards[i].low());
        i += 1;
    }
    let ghost holes = dead_cards@;
    let mut k: usize = 0;
    while k < board.len()
        invariant
            k <= board@.len(),
            holes == hole_cards_upto(hole_cards@, hole_cards@.len() as int),
            dead_cards@ == holes.union(board@.take(k as int).to_set()),
            dead_cards@.finite(),
            dead_cards@.len() <= 2 * hole_cards@.len() + k,
        decreases board.len() - k,
    {
        dead_cards.insert(board[k]);
        proof {
            assert(board@.take(k + 1) =~= board@.take(k as int).push(board@[k as int]));
            lemma_push_to_set(board@.take(k as int), board@[k as int]);
            assert(dead_cards@ =~= holes.union(board@.take(k + 1).to_set()));
        }
        k += 1;
    }
    proof {
        assert(board@.take(k as int) =~= board@);
    }
    dead_cards
}

/// A list of cards, copied.
fn copy_cards(cards: &Vec<Card>) -> (copy: Vec<Card>)
    ensures
        copy@ == cards@,
{
    let mut copy: Vec<Card> = Vec::new();
    let mut i: usize = 0;
    while i < cards.len()
        invariant
            i <= cards@.len(),
            copy@ == cards@.take(i as int),
        decreases cards.len() - i,
    {
        copy.push(cards[i]);
        proof {
            assert(cards@.take(i + 1) =~= cards@.take(i as int).push(cards@[i as int]));
        }
        i += 1;
    }
    proof {
        assert(cards@.take(i as int) =~= cards@);
    }
    copy
}

/// Equity among several players, on an evaluator lent to it.
pub struct MultiwayCalculator<'a> {
    evaluator: &'a LookupEvaluator,
}

impl<'a> MultiwayCalculator<'a> {
    /// The evaluator that the calculator works on.
    pub closed spec fn spec_evaluator(self) -> LookupEvaluator {
        *self.evaluator
    }

    /// A calculator on the evaluator given.
    pub fn new(evaluator: &'a LookupEvaluator) -> (calculator: Self)
        ensures
            calculator.spec_evaluator() == *evaluator,
    {
        Self { evaluator }
    }

    /// The players that hold the best hand on a board.
    pub fn winners(&self, hole_cards: &[HoleCards], board: &[Card]) -> (winners: Vec<usize>)
        requires
            0 < hole_cards@.len(),
        ensures
            winners@ == winners_of(player_scores(hole_cards@, board@)),
            0 < winners@.len() <= hole_cards@.len(),
            forall|k: int| 0 <= k < winners@.len() ==> #[trigger] winners@[k] < hole_cards@.len(),
    {
        let ghost scores = player_scores(hole_cards@, board@);
        let mut rankings: Vec<u32> = Vec::new();
        let mut best: u32 = 0;
        let mut i: usize = 0;
        while i < hole_cards.len()
            invariant
                i <= hole_cards@.len(),
                scores == player_scores(hole_cards@, board@),
                rankings@ == scores.take(i as int),
                best == best_score(scores, i as int),
            decreases hole_cards.len() - i,
        {
            let hand = build_hand(&hole_cards[i], board);
            let score = self.evaluator.evaluate(&hand).score();
            proof {
                lemma_hand_score_range(player_mask(hole_cards@[i as int], board@));
                assert(score == scores[i as int]);
                assert(scores.take(i + 1) =~= scores.take(i as int).push(scores[i as int]));
            }
            rankings.push(score);
            if score > best {
                best = score;
            }
            i += 1;
        }
        proof {
            assert(scores.take(i as int) =~= scores);
        }
        let mut winners: Vec<usize> = Vec::new();
        let mut p: usize = 0;
        while p < rankings.len()
            invariant
                p <= rankings@.len(),
                rankings@ == scores,
                winners@ == holders(scores, best, p as int),
            decreases rankings.len() - p,
        {
            if rankings[p] == best {
                winners.push(p);
            }
            p += 1;
        }
        proof {
            lemma_winners_exist(scores);
        }
        winners
    }

    /// Plays one trial: shuffles a copy of the available cards, completes
    /// the board with the first of them, and finds the winners.
    fn simulate_trial(
        &self,
        hole_cards: &[HoleCards],
        board: &[Card],
        available: &Vec<Card>,
        cards_needed: usize,
    ) -> (winners: Vec<usize>)
        requires
            0 < hole_cards@.len(),
            cards_needed <= available@.len(),
        ensures
            trial_winners(hole_cards@, board@, available@, cards_needed as int, winners@),
            0 < winners@.len() <= hole_cards@.len(),
            forall|k: int| 0 <= k < winners@.len() ==> #[trigger] winners@[k] < hole_cards@.len(),
    {
        let mut rng = thread_rng();
        let mut shuffled = copy_cards(available);
        shuffle_cards(&mut shuffled, &mut rng);
        proof {
            shuffled@.to_multiset_ensures();
            available@.to_multiset_ensures();
        }
        let full_board = complete_board(board, &shuffled, cards_needed);
        let winners = self.winners(hole_cards, full_board.as_slice());
        proof {
            assert(is_shuffle(shuffled@, available@));
            assert(winners@ == winners_of(
                player_scores(hole_cards@, board@ + shuffled@.take(cards_needed as int)),
            ));
        }
        winners
    }

    /// Sampled equity, the trials side by side on several threads.
    pub fn calculate_parallel(
        &self,
        hole_cards: &[HoleCards],
        board: &[Card],
        iterations: usize,
    ) -> (r: MultiPlayerEquityResult)
        requires
            2 <= hole_cards@.len() <= 9,
            board@.len() <= 5,
        ensures
            multiway_result(hole_cards@, board@, iterations as int, r),
    {
        let num_players = hole_cards.len();
        let dead_cards = build_dead_cards(hole_cards, board);
        let available_cards = EquityCalculator::available_cards(&dead_cards);
        let cards_needed = 5 - board.len();
        let run = |trial: usize| -> (winners: Vec<usize>)
            ensures
                trial_winners(
                    hole_cards@,
                    board@,
                    available_cards@,
                    cards_needed as int,
                    winners@,
                ),
                0 < winners@.len() <= hole_cards@.len(),
                forall|k: int| 0 <= k < winners@.len() ==> #[trigger] winners@[k] < hole_cards@.len(),
            { self.simulate_trial(hole_cards, board, &available_cards, cards_needed) };
        let results = par_repeat(iterations, run);
        let r = Self::aggregate_results(results, num_players, iterations);
        proof {
            let trials = winner_lists(results@);
            assert(tallied(trials, hole_cards@.len() as int, iterations as int, r));
        }
        r
    }

    /// Sampled equity, one trial after the other on the calling thread.
    pub fn calculate_sequential(
        &self,
        hole_cards: &[HoleCards],
        board: &[Card],
        iterations: usize,
    ) -> (r: MultiPlayerEquityResult)
        requires
            2 <= hole_cards@.len() <= 9,
            board@.len() <= 5,
        ensures
            multiway_result(hole_cards@, board@, iterations as int, r),
    {
        let num_players = hole_cards.len();
        let dead_cards = build_dead_cards(hole_cards, board);
        let available_cards = EquityCalculator::available_cards(&dead_cards);
        let cards_needed = 5 - board.len();
        let mut results: Vec<Vec<usize>> = Vec::new();
        let mut done: usize = 0;
        while done < iterations
            invariant
                done <= iterations,
                0 < hole_cards@.len(),
                cards_needed <= available_cards@.len(),
                results@.len() == done,
                forall|i: int|
                    0 <= i < done ==> trial_winners(
                        hole_cards@,
                        board@,
                        available_cards@,
                        cards_needed as int,
                        (#[trigger] results@[i])@,
                    ),
                forall|i: int|
                    0 <= i < done ==> 0 < (#[trigger] results@[i])@.len() && forall|k: int|
                        0 <= k < results@[i]@.len() ==> #[trigger] results@[i]@[k] < hole_cards@.len(),
            decreases iterations - done,
        {
            let winners = self.simulate_trial(hole_cards, board, &available_cards, cards_needed);
            results.push(winners);
            done += 1;
        }
        let r = Self::aggregate_results(results, num_players, iterations);
        proof {
            let trials = winner_lists(results@);
            assert(tallied(trials, hole_cards@.len() as int, iterations as int, r));
        }
        r
    }

    /// Exact equity on a full board: the board is the one trial there is.
    pub fn calculate_exact(&self, hole_cards: &[HoleCards], board: &[Card]) -> (r:
        MultiPlayerEquityResult)
        requires
            2 <= hole_cards@.len() <= 9,
            board@.len() == 5,
        ensures
            exact_result(hole_cards@, board@, r),
    {
        let num_players = hole_cards.len();
        let winners = self.winners(hole_cards, board);
        let mut results: Vec<Vec<usize>> = Vec::new();
        results.push(winners);
        proof {
            assert(winner_lists(results@) =~= seq![winners_of(player_scores(hole_cards@, board@))]);
        }
        Self::aggregate_results(results, num_players, 1)
    }

    /// Tallies the winners of a list of trials: a trial with one winner is
    /// that player's win, any other trial is shared.
    pub fn aggregate_results(results: Vec<Vec<usize>>, num_players: usize, iterations: usize) -> (r:
        MultiPlayerEquityResult)
        requires
            forall|i: int|
                0 <= i < results@.len() && (#[trigger] results@[i])@.len() == 1 ==> results@[i]@[0]
                    < num_players,
        ensures
            tallied(winner_lists(results@), num_players as int, iterations as int, r),
    {
        let ghost trials = winner_lists(results@);
        let mut wins: Vec<usize> = Vec::new();
        let mut p: usize = 0;
        while p < num_players
            invariant
                p <= num_players,
                wins@.len() == p,
                forall|q: int| 0 <= q < p ==> #[trigger] wins@[q] == 0,
            decreases num_players - p,
        {
            wins.push(0);
            p += 1;
        }
        let mut ties: usize = 0;
        let mut i: usize = 0;
        while i < results.len()
            invariant
                i <= results@.len(),
                trials == winner_lists(results@),
                wins@.len() == num_players,
                forall|k: int|
                    0 <= k < results@.len() && (#[trigger] results@[k])@.len() == 1 ==> results@[k]@[0]
                        < num_players,
                forall|q: int|
                    0 <= q < num_players ==> #[trigger] wins@[q] == count_wins(trials, q, i as int),
                ties == count_shared(trials, i as int),
            decreases results.len() - i,
        {
            let winners = &results[i];
            proof {
                assert(trials[i as int] == results@[i as int]@);
                lemma_count_shared_range(trials, i as int);
            }
            if winners.len() == 1 {
                let w = winners[0];
                proof {
                    lemma_count_wins_range(trials, w as int, i as int);
                }
                let bumped = wins[w] + 1;
                wins.set(w, bumped);
            } else {
                ties += 1;
            }
            i += 1;
        }
        Self::build_result(wins, ties, num_players, iterations)
    }

    /// Turns wins and ties into shares: a player's share is the wins over
    /// the trials, and on top one share of the ties for each player there is.
    pub fn build_result(wins: Vec<usize>, ties: usize, num_players: usize, iterations: usize) -> (r:
        MultiPlayerEquityResult)
        ensures
            shares_follow(r, wins@, ties as int, num_players as int, iterations as int),
    {
        let mut player_equities: Vec<Fraction> = Vec::new();
        let players = num_players as u128;
        let denominator: u128 = {
            proof {
                lemma_product_grows(
                    num_players as int,
                    0xFFFF_FFFF_FFFF_FFFF,
                    iterations as int,
                    0xFFFF_FFFF_FFFF_FFFF,
                );
            }
            (iterations as u128) * players
        };
        let mut p: usize = 0;
        while p < wins.len()
            invariant
                p <= wins@.len(),
                players == num_players,
                denominator == iterations * num_players,
                player_equities@.len() == p,
                forall|q: int|
                    0 <= q < p ==> #[trigger] player_equities@[q] == Fraction::of(
                        wins@[q] * num_players + ties,
                        iterations * num_players,
                    ),
            decreases wins.len() - p,
        {
            proof {
                lemma_product_grows(
                    num_players as int,
                    0xFFFF_FFFF_FFFF_FFFF,
                    wins@[p as int] as int,
                    0xFFFF_FFFF_FFFF_FFFF,
                );
            }
            let numerator: u128 = (wins[p] as u128) * players + (ties as u128);
            player_equities.push(Fraction::new(numerator, denominator));
            p += 1;
        }
        MultiPlayerEquityResult { player_equities, wins, ties, simulations: iterations }
    }
}

impl MultiwayEquityCalculator for EquityCalculator {
    fn calculate_multiway_monte_carlo(
        &self,
        hole_cards: &[HoleCards],
        board: &[Card],
        iterations: usize,
    ) -> (r: MultiPlayerEquityResult) {
        let calculator = MultiwayCalculator::new(self.evaluator());
        calculator.calculate_parallel(hole_cards, board, iterations)
    }

    fn calculate_multiway_monte_carlo_sequential(
        &self,
        hole_cards: &[HoleCards],
        board: &[Card],
        iterations: usize,
    ) -> (r: MultiPlayerEquityResult) {
        let calculator = MultiwayCalculator::new(self.evaluator());
        calculator.calculate_sequential(hole_cards, board, iterations)
    }

    fn calculate_multiway_exact(&self, hole_cards: &[HoleCards], board: &[Card]) -> (r:
        MultiPlayerEquityResult) {
        let calculator = MultiwayCalculator::new(self.evaluator());
        calculator.calculate_exact(hole_cards, board)
    }
}

} // verus!

//! The deck in order, and a player's hand on a board.

use vstd::prelude::*;
use crate::card::{lemma_index_of_index, Card, SUITS, VALUES};
use crate::card_set::{mask_of_cards, mask_prefix};
use crate::hand::{Hand, HoleCards};

verus! {

/// The two cards of a player followed by the cards of a board.
pub open spec fn player_cards(hole: HoleCards, board: Seq<Card>) -> Seq<Card> {
    seq![hole.spec_high(), hole.spec_low()] + board
}

/// The mask of a player's two cards together with a board.
pub open spec fn player_mask(hole: HoleCards, board: Seq<Card>) -> u64 {
    mask_of_cards(player_cards(hole, board))
}

/// The fifty-two cards in ascending order of index.
pub fn all_cards() -> (cards: Vec<Card>)
    ensures
        cards@.len() == 52,
        forall|i: int| 0 <= i < 52 ==> #[trigger] cards@[i] == Card::of_index(i),
{
    let mut cards: Vec<Card> = Vec::with_capacity(52);
    let mut v: usize = 0;
    while v < 13
        invariant
            v <= 13,
            cards@.len() == 4 * v,
            forall|i: int| 0 <= i < 4 * v ==> #[trigger] cards@[i] == Card::of_index(i),
        decreases 13 - v,
    {
        let mut s: usize = 0;
        while s < 4
            invariant
                v < 13,
                s <= 4,
                cards@.len() == 4 * v + s,
                forall|i: int| 0 <= i < 4 * v + s ==> #[trigger] cards@[i] == Card::of_index(i),
            decreases 4 - s,
        {
            let card = Card::new(VALUES[v], SUITS[s]);
            proof {
                lemma_index_of_index(4 * v + s);
                assert(card.spec_index() == 4 * v + s);
                crate::card::lemma_of_index_index(card);
            }
            cards.push(card);
            s += 1;
        }
        v += 1;
    }
    cards
}

/// A player's two cards together with a board, as a hand.
pub fn build_hand(hole: &HoleCards, board: &[Card]) -> (hand: Hand)
    ensures
        hand@ == player_cards(*hole, board@).to_set(),
        hand.spec_card_set().bits() == player_mask(*hole, board@),
{
    let ghost all = player_cards(*hole, board@);
    let mut hand = Hand::new();
    hand.add(hole.high());
    hand.add(hole.low());
    proof {
        reveal_with_fuel(mask_prefix, 3);
        let none = Seq::<Card>::empty();
        let one = none.push(hole.spec_high());
        assert(all.take(2) =~= one.push(hole.spec_low()));
        assert(none.to_set() =~= Set::<Card>::empty());
        crate::card_set::lemma_push_to_set(none, hole.spec_high());
        crate::card_set::lemma_push_to_set(one, hole.spec_low());
    }
    let mut i: usize = 0;
    while i < board.len()
        invariant
            i <= board.len(),
            all == player_cards(*hole, board@),
            hand@ == all.take(i + 2).to_set(),
            hand.spec_card_set().bits() == mask_prefix(all, i + 2),
        decreases board.len() - i,
    {
        hand.add(board[i]);
        proof {
            assert(all[i + 2] == board@[i as int]);
            assert(all.take(i + 3) =~= all.take(i + 2).push(all[i + 2]));
            crate::card_set::lemma_push_to_set(all.take(i + 2), all[i + 2]);
        }
        i += 1;
    }
    proof {
        assert(all.take(i + 2) =~= all);
    }
    hand
}

} // verus!

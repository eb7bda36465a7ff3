//! Ranking a hand of five to seven cards.
//!
//! Five cards are ranked in one pass: a flush is looked up in a table
//! indexed by the thirteen-bit pattern of its ranks; pairs, trips and quads
//! are found by counting cards per rank; what is left is a straight or a
//! high card. A hand of more cards is ranked by the best five of them.

use vstd::prelude::*;
use crate::card::Card;
use crate::card_set::{
    card_bit, cards_ascending, cards_of_mask, count_below, count_cards, has_bit,
    lemma_cards_ascending, lemma_mask_of_all_cards, mask_of_cards, mask_prefix, FULL_DECK_BITS,
};
use crate::hand::Hand;
use crate::hand_rank::{
    base16, first_ranks, lemma_encode_base16, lemma_encode_bound, lemma_encode_first_five,
    spec_encode_kickers, HandCategory, HandRanking, CATEGORY_UNIT,
};

verus! {

/// The number of entries of the flush table: one for each pattern of ranks.
pub const TABLE_SIZE: usize = 8192;

/// Whether bit `i` of a sixteen-bit mask is set.
pub open spec fn has_bit16(mask: u16, i: int) -> bool {
    0 <= i < 16 && (mask >> (i as u16)) & 1 == 1
}

/// How many of the four cards of a rank a mask of cards holds.
pub open spec fn rank_count(bits: u64, rank: int) -> int {
    (if has_bit(bits, 4 * rank) {
        1int
    } else {
        0int
    }) + (if has_bit(bits, 4 * rank + 1) {
        1int
    } else {
        0int
    }) + (if has_bit(bits, 4 * rank + 2) {
        1int
    } else {
        0int
    }) + (if has_bit(bits, 4 * rank + 3) {
        1int
    } else {
        0int
    })
}

/// For each of the thirteen ranks, how many cards of it a mask holds.
pub open spec fn rank_counts(bits: u64) -> Seq<u8> {
    Seq::new(13, |rank: int| rank_count(bits, rank) as u8)
}

/// For each of the thirteen ranks, one where a mask holds the card of that
/// rank in the suit at `slot`, else zero.
pub open spec fn suit_flags(bits: u64, slot: int) -> Seq<u8> {
    Seq::new(
        13,
        |rank: int|
            if has_bit(bits, 4 * rank + slot) {
                1u8
            } else {
                0u8
            },
    )
}

/// For each of the thirteen ranks, one where a pattern of ranks has the
/// rank's bit, else zero.
pub open spec fn mask_flags(mask: u16) -> Seq<u8> {
    Seq::new(
        13,
        |rank: int|
            if has_bit16(mask, rank) {
                1u8
            } else {
                0u8
            },
    )
}

/// The ranks from `lo` up whose count is `k`, highest first.
pub open spec fn ranks_down_to(counts: Seq<u8>, k: u8, lo: int) -> Seq<u8>
    decreases 13 - lo,
{
    if lo < 0 || lo >= 13 {
        Seq::empty()
    } else if lo < counts.len() && counts[lo] == k {
        ranks_down_to(counts, k, lo + 1).push(lo as u8)
    } else {
        ranks_down_to(counts, k, lo + 1)
    }
}

/// The ranks whose count is `k`, highest first.
pub open spec fn ranks_with(counts: Seq<u8>, k: u8) -> Seq<u8> {
    ranks_down_to(counts, k, 0)
}

/// The highest rank below `n` that is present and is neither `a` nor `b`,
/// or zero where there is none: the kicker of a hand that uses the ranks
/// `a` and `b`.
pub open spec fn highest_unused(counts: Seq<u8>, a: int, b: int, n: int) -> u8
    decreases n,
{
    if n <= 0 {
        0
    } else if n - 1 != a && n - 1 != b && n - 1 < counts.len() && counts[n - 1] > 0 {
        (n - 1) as u8
    } else {
        highest_unused(counts, a, b, n - 1)
    }
}

/// The score of a hand in which some rank occurs twice or more, from its
/// counts per rank. Four of a kind goes before a full house, that before
/// three of a kind, that before two pair, that before one pair; each takes
/// the fewest kickers it needs, from the highest ranks that it does not
/// use itself. Of two threes the lower serves as the pair of a full house.
pub open spec fn paired_score(counts: Seq<u8>) -> int {
    let quads = ranks_with(counts, 4);
    let trips = ranks_with(counts, 3);
    let pairs = ranks_with(counts, 2);
    let singles = ranks_with(counts, 1);
    if quads.len() > 0 {
        let kicker = highest_unused(counts, quads[0] as int, quads[0] as int, 13);
        HandRanking::compose(
            HandCategory::FourOfAKind,
            spec_encode_kickers(seq![quads[0], kicker]) as int,
        )
    } else if trips.len() >= 2 {
        HandRanking::compose(
            HandCategory::FullHouse,
            spec_encode_kickers(seq![trips[0], trips[1]]) as int,
        )
    } else if trips.len() > 0 && pairs.len() > 0 {
        HandRanking::compose(
            HandCategory::FullHouse,
            spec_encode_kickers(seq![trips[0], pairs[0]]) as int,
        )
    } else if trips.len() > 0 {
        HandRanking::compose(
            HandCategory::ThreeOfAKind,
            spec_encode_kickers(seq![trips[0]] + first_ranks(singles, 2)) as int,
        )
    } else if pairs.len() >= 2 {
        let kicker = highest_unused(counts, pairs[0] as int, pairs[1] as int, 13);
        HandRanking::compose(
            HandCategory::TwoPair,
            spec_encode_kickers(seq![pairs[0], pairs[1], kicker]) as int,
        )
    } else if pairs.len() > 0 {
        HandRanking::compose(
            HandCategory::OnePair,
            spec_encode_kickers(seq![pairs[0]] + first_ranks(singles, 3)) as int,
        )
    } else {
        HandRanking::compose(
            HandCategory::HighCard,
            spec_encode_kickers(first_ranks(singles, 5)) as int,
        )
    }
}

/// Whether the five ranks that end at `high` are all present.
pub open spec fn window(counts: Seq<u8>, high: int) -> bool {
    &&& 4 <= high < counts.len()
    &&& counts[high] > 0
    &&& counts[high - 1] > 0
    &&& counts[high - 2] > 0
    &&& counts[high - 3] > 0
    &&& counts[high - 4] > 0
}

/// The highest rank, from `high` down, at which five ranks in a row end.
pub open spec fn best_window(counts: Seq<u8>, high: int) -> Option<u8>
    decreases high,
{
    if high < 4 {
        None
    } else if window(counts, high) {
        Some(high as u8)
    } else {
        best_window(counts, high - 1)
    }
}

/// Whether the ace and the four lowest ranks are all present.
pub open spec fn wheel(counts: Seq<u8>) -> bool {
    &&& counts.len() >= 13
    &&& counts[12] > 0
    &&& counts[0] > 0
    &&& counts[1] > 0
    &&& counts[2] > 0
    &&& counts[3] > 0
}

/// The high card of the best straight among the ranks present: the rank at
/// which the highest run of five ends, or the five (rank 3) for the wheel.
pub open spec fn straight_high(counts: Seq<u8>) -> Option<u8> {
    match best_window(counts, 12) {
        Some(high) => Some(high),
        None => if wheel(counts) {
            Some(3u8)
        } else {
            None
        },
    }
}

/// The high card of five descending ranks that form a straight: the first
/// of them, or the five (rank 3) for the wheel.
pub open spec fn straight_high_of(ranks: Seq<u8>) -> Option<u8> {
    if ranks[0] - ranks[4] == 4 {
        Some(ranks[0])
    } else if ranks[0] == 12 && ranks[1] == 3 && ranks[2] == 2 && ranks[3] == 1 && ranks[4] == 0 {
        Some(3u8)
    } else {
        None
    }
}

/// The score of a flush from its five ranks, highest first: a straight
/// flush by its high card, a plain flush by its five ranks in turn.
pub open spec fn flush_score(ranks: Seq<u8>) -> int {
    match straight_high_of(ranks) {
        Some(high) => HandRanking::compose(HandCategory::StraightFlush, high as int),
        None => HandRanking::compose(HandCategory::Flush, spec_encode_kickers(ranks) as int),
    }
}

/// Of two plain flushes the one whose ranks spell the larger number scores
/// higher: the highest card decides first, then the next, down to the last.
pub proof fn lemma_flushes_in_order(a: Seq<u8>, b: Seq<u8>)
    requires
        a.len() == 5,
        b.len() == 5,
        forall|i: int| 0 <= i < 5 ==> a[i] < 13 && b[i] < 13,
        straight_high_of(a) is None,
        straight_high_of(b) is None,
    ensures
        flush_score(a) < flush_score(b) <==> base16(
            a[0] as int,
            a[1] as int,
            a[2] as int,
            a[3] as int,
            a[4] as int,
        ) < base16(b[0] as int, b[1] as int, b[2] as int, b[3] as int, b[4] as int),
{
    lemma_encode_base16(a);
    lemma_encode_base16(b);
}

/// What the flush table holds at a key: the score of the flush of the key's
/// five ranks, or zero where the key has not exactly five bits.
pub open spec fn table_entry(key: int) -> int {
    let ranks = ranks_with(mask_flags(key as u16), 1);
    if ranks.len() == 5 {
        flush_score(ranks)
    } else {
        0
    }
}

/// The ranks a mask holds in the suit at `slot`, highest first.
pub open spec fn suit_ranks(bits: u64, slot: int) -> Seq<u8> {
    ranks_with(suit_flags(bits, slot), 1)
}

/// The first suit, from `slot` on, of which a mask holds five cards or more.
pub open spec fn flush_slot(bits: u64, slot: int) -> Option<int>
    decreases 4 - slot,
{
    if slot < 0 || slot >= 4 {
        None
    } else if suit_ranks(bits, slot).len() >= 5 {
        Some(slot)
    } else {
        flush_slot(bits, slot + 1)
    }
}

/// The five highest ranks of the first suit of which a mask holds five
/// cards or more.
pub open spec fn flush_ranks(bits: u64) -> Option<Seq<u8>> {
    match flush_slot(bits, 0) {
        Some(slot) => Some(suit_ranks(bits, slot).take(5)),
        None => None,
    }
}

/// Whether some rank occurs twice or more.
pub open spec fn has_pair(counts: Seq<u8>) -> bool {
    exists|rank: int| 0 <= rank < 13 && rank < counts.len() && #[trigger] counts[rank] >= 2
}

/// The score of five cards given as a mask. Five cards of one suit are a
/// flush; else a rank that repeats decides; else the cards are a straight or
/// a high card. Fewer than five cards score zero.
pub open spec fn five_score(bits: u64) -> int {
    let counts = rank_counts(bits);
    if count_below(bits, 52) < 5 {
        0
    } else if flush_ranks(bits) is Some {
        flush_score(flush_ranks(bits)->Some_0)
    } else if has_pair(counts) {
        paired_score(counts)
    } else if straight_high(counts) is Some {
        HandRanking::compose(HandCategory::Straight, straight_high(counts)->Some_0 as int)
    } else {
        HandRanking::compose(
            HandCategory::HighCard,
            spec_encode_kickers(first_ranks(ranks_with(counts, 1), 5)) as int,
        )
    }
}

/// The best score among the hands made of the cards chosen so far and
/// `need` more of a list of cards, taken from index `start` on; zero where
/// the list has not that many.
pub open spec fn best_five(cards: Seq<Card>, start: int, need: int, chosen: u64) -> int
    decreases need, cards.len() - start,
{
    if need <= 0 {
        five_score(chosen)
    } else if start < 0 || start >= cards.len() {
        0
    } else {
        let with = best_five(cards, start + 1, need - 1, chosen | card_bit(cards[start]));
        let without = best_five(cards, start + 1, need, chosen);
        if with >= without {
            with
        } else {
            without
        }
    }
}

/// The score of a hand given as a mask of cards: the best score among all
/// hands of five of its cards. Fewer than five cards score zero.
pub open spec fn hand_score(bits: u64) -> int {
    best_five(cards_ascending(bits, 52), 0, 5, 0)
}

/// The ranks listed from `lo` up lie between `lo` and the ace, and each
/// is lower than the one before it.
pub proof fn lemma_ranks_descend(counts: Seq<u8>, k: u8, lo: int)
    requires
        0 <= lo <= 13,
    ensures
        ranks_down_to(counts, k, lo).len() <= 13 - lo,
        forall|i: int|
            0 <= i < ranks_down_to(counts, k, lo).len() ==> lo <= #[trigger] ranks_down_to(
                counts,
                k,
                lo,
            )[i] < 13,
        forall|i: int, j: int|
            0 <= i < j < ranks_down_to(counts, k, lo).len() ==> #[trigger] ranks_down_to(
                counts,
                k,
                lo,
            )[i] > #[trigger] ranks_down_to(counts, k, lo)[j],
    decreases 13 - lo,
{
    if lo < 13 {
        lemma_ranks_descend(counts, k, lo + 1);
        let rest = ranks_down_to(counts, k, lo + 1);
        let now = ranks_down_to(counts, k, lo);
        assert forall|i: int, j: int| 0 <= i < j < now.len() implies #[trigger] now[i]
            > #[trigger] now[j] by {
            if j < rest.len() {
                assert(now[i] == rest[i] && now[j] == rest[j]);
            } else {
                assert(now[i] == rest[i]);
            }
        }
    }
}

/// Two lists of counts that agree from `lo` up list the same ranks from `lo` up.
pub proof fn lemma_ranks_agree(a: Seq<u8>, b: Seq<u8>, k: u8, lo: int)
    requires
        0 <= lo <= 13,
        a.len() == 13,
        b.len() == 13,
        forall|r: int| lo <= r < 13 ==> (a[r] == k <==> b[r] == k),
    ensures
        ranks_down_to(a, k, lo) == ranks_down_to(b, k, lo),
    decreases 13 - lo,
{
    if lo < 13 {
        lemma_ranks_agree(a, b, k, lo + 1);
    }
}

/// Which straight there is depends only on which ranks are present.
pub proof fn lemma_straight_by_presence(a: Seq<u8>, b: Seq<u8>)
    requires
        a.len() == 13,
        b.len() == 13,
        forall|r: int| 0 <= r < 13 ==> (a[r] > 0 <==> b[r] > 0),
    ensures
        straight_high(a) == straight_high(b),
{
    lemma_window_by_presence(a, b, 12);
}

proof fn lemma_window_by_presence(a: Seq<u8>, b: Seq<u8>, high: int)
    requires
        a.len() == 13,
        b.len() == 13,
        high <= 12,
        forall|r: int| 0 <= r < 13 ==> (a[r] > 0 <==> b[r] > 0),
    ensures
        best_window(a, high) == best_window(b, high),
    decreases high,
{
    if high >= 4 {
        lemma_window_by_presence(a, b, high - 1);
    }
}

proof fn lemma_bit16_of_zero(j: u16)
    by (bit_vector)
    ensures
        (0u16 >> j) & 1 == 0,
{
}

proof fn lemma_bit16_set(mask: u16, rank: u16, j: u16)
    by (bit_vector)
    requires
        rank < 13,
        j < 16,
        mask < 8192,
    ensures
        ((mask | (1u16 << rank)) >> j) & 1 == 1 <==> (j == rank || (mask >> j) & 1 == 1),
        (mask | (1u16 << rank)) < 8192,
{
}

proof fn lemma_window_mask(mask: u16, low: u16)
    by (bit_vector)
    requires
        low <= 8,
    ensures
        (mask & (0x1Fu16 << low)) == (0x1Fu16 << low) <==> ((mask >> low) & 1 == 1 && (mask >> ((low
            + 1) as u16)) & 1 == 1 && (mask >> ((low + 2) as u16)) & 1 == 1 && (mask >> ((low
            + 3) as u16)) & 1 == 1 && (mask >> ((low + 4) as u16)) & 1 == 1),
{
}

proof fn lemma_wheel_mask(mask: u16)
    by (bit_vector)
    ensures
        (mask & 0x100Fu16) == 0x100Fu16 <==> ((mask >> 12u16) & 1 == 1 && (mask >> 0u16) & 1 == 1
            && (mask >> 1u16) & 1 == 1 && (mask >> 2u16) & 1 == 1 && (mask >> 3u16) & 1 == 1),
{
}

/// The ranks of a pattern, highest first.
fn mask_ranks(mask: u16) -> (ranks: Vec<u8>)
    ensures
        ranks@ == ranks_with(mask_flags(mask), 1),
        ranks@.len() <= 13,
        forall|i: int| 0 <= i < ranks@.len() ==> #[trigger] ranks@[i] < 13,
        forall|i: int, j: int| 0 <= i < j < ranks@.len() ==> #[trigger] ranks@[i] > #[trigger] ranks@[j],
{
    let mut ranks: Vec<u8> = Vec::new();
    let mut next: u8 = 13;
    while next > 0
        invariant
            next <= 13,
            ranks@ == ranks_down_to(mask_flags(mask), 1, next as int),
        decreases next,
    {
        next -= 1;
        if (mask >> next) & 1 == 1 {
            ranks.push(next);
        }
    }
    proof {
        lemma_ranks_descend(mask_flags(mask), 1, 0);
    }
    ranks
}

/// The pattern of the ranks that a mask of cards holds in one suit.
fn suit_mask(cards: u64, slot: u8) -> (mask: u16)
    requires
        slot < 4,
    ensures
        mask < 8192,
        mask_flags(mask) == suit_flags(cards, slot as int),
{
    let mut mask: u16 = 0;
    let mut rank: u8 = 0;
    proof {
        assert forall|r: int| 0 <= r < 16 implies !has_bit16(0u16, r) by {
            lemma_bit16_of_zero(r as u16);
        }
    }
    while rank < 13
        invariant
            rank <= 13,
            slot < 4,
            mask < 8192,
            forall|r: int| 0 <= r < rank ==> has_bit16(mask, r) == has_bit(cards, 4 * r + slot),
            forall|r: int| rank <= r < 16 ==> !has_bit16(mask, r),
        decreases 13 - rank,
    {
        let ghost before = mask;
        if (cards >> (4 * rank + slot)) & 1 == 1 {
            mask = mask | (1u16 << rank);
        }
        proof {
            lemma_bit16_set(before, rank as u16, 0);
            assert forall|r: int| 0 <= r < 16 implies has_bit16(mask, r) == (has_bit16(before, r) || (
            r == rank && has_bit(cards, 4 * rank + slot))) by {
                lemma_bit16_set(before, rank as u16, r as u16);
            }
        }
        rank += 1;
    }
    proof {
        assert(mask_flags(mask) =~= suit_flags(cards, slot as int));
    }
    mask
}

/// The five highest ranks of a pattern, as a pattern, and how many ranks
/// were there to take, up to five.
fn top_five(mask: u16) -> (r: (u16, u8))
    ensures
        r.0 < 8192,
        ranks_with(mask_flags(r.0), 1) == first_ranks(ranks_with(mask_flags(mask), 1), 5),
        r.1 == ranks_with(mask_flags(r.0), 1).len(),
        r.1 <= 5,
{
    let mut key: u16 = 0;
    let mut taken: u8 = 0;
    let mut next: u8 = 13;
    proof {
        assert forall|r: int| 0 <= r < 16 implies !has_bit16(0u16, r) by {
            lemma_bit16_of_zero(r as u16);
        }
    }
    while next > 0
        invariant
            next <= 13,
            key < 8192,
            taken <= 5,
            forall|r: int| 0 <= r < next ==> !has_bit16(key, r),
            ranks_down_to(mask_flags(key), 1, next as int) == first_ranks(
                ranks_down_to(mask_flags(mask), 1, next as int),
                5,
            ),
            taken == ranks_down_to(mask_flags(key), 1, next as int).len(),
        decreases next,
    {
        next -= 1;
        let ghost before = key;
        let ghost all_above = ranks_down_to(mask_flags(mask), 1, next + 1);
        let ghost kept_above = ranks_down_to(mask_flags(before), 1, next + 1);
        let ghost mut took = false;
        if (mask >> next) & 1 == 1 && taken < 5 {
            key = key | (1u16 << next);
            taken += 1;
            proof {
                took = true;
            }
        }
        proof {
            lemma_bit16_set(before, next as u16, 0);
            assert forall|r: int| 0 <= r < 16 implies has_bit16(key, r) == (has_bit16(before, r) || (
            r == next && took)) by {
                lemma_bit16_set(before, next as u16, r as u16);
            }
            lemma_ranks_agree(mask_flags(key), mask_flags(before), 1, next + 1);
            assert(kept_above == first_ranks(all_above, 5));
            if took {
                assert(all_above.len() < 5);
                assert(mask_flags(key)[next as int] == 1);
                assert(mask_flags(mask)[next as int] == 1);
            } else if has_bit16(mask, next as int) {
                assert(mask_flags(mask)[next as int] == 1);
                assert(mask_flags(key)[next as int] == 0);
                assert(all_above.len() >= 5);
                assert(all_above.push(next).take(5) =~= all_above.take(5));
            } else {
                assert(mask_flags(mask)[next as int] == 0);
                assert(mask_flags(key)[next as int] == 0);
            }
        }
    }
    (key, taken)
}

/// A way of ranking hands.
pub trait HandEvaluator {
    /// The score this evaluator gives to a mask of cards.
    spec fn rank(&self, cards: u64) -> u32;

    /// Ranks a hand of five to seven cards.
    fn evaluate(&self, hand: &Hand) -> (r: HandRanking)
        ensures
            r.score == self.rank(hand.spec_card_set().bits()),
    ;

    /// Ranks a hand given as a mask of cards.
    fn evaluate_u64(&self, cards: u64) -> (r: HandRanking)
        ensures
            r.score == self.rank(cards),
    ;
}

/// The flush table as it is built: at every key the entry of the key's ranks.
pub open spec fn built_table() -> Seq<u32> {
    Seq::new(TABLE_SIZE as nat, |key: int| table_entry(key) as u32)
}

/// An evaluator that looks flushes up in a table built once.
pub struct LookupEvaluator {
    flush_table: Vec<u32>,
}

impl LookupEvaluator {
    /// The table holds, at every key, the entry of the key's ranks.
    #[verifier::type_invariant]
    pub closed spec fn wf(self) -> bool {
        &&& self.flush_table@.len() == TABLE_SIZE
        &&& forall|key: int| 0 <= key < TABLE_SIZE ==> #[trigger] self.flush_table@[key] == table_entry(key)
    }

    /// The flush table that the evaluator holds.
    pub closed spec fn table(self) -> Seq<u32> {
        self.flush_table@
    }

    /// An evaluator with its flush table built.
    pub fn new() -> (evaluator: Self)
        ensures
            evaluator.wf(),
            evaluator.table() == built_table(),
    {
        let flush_table = Self::generate_flush_table();
        proof {
            assert(flush_table@ =~= built_table());
        }
        Self { flush_table }
    }

    /// Builds the flush table: for every pattern of exactly five ranks,
    /// the score of the flush of those ranks.
    fn generate_flush_table() -> (table: Vec<u32>)
        ensures
            table@.len() == TABLE_SIZE,
            forall|key: int| 0 <= key < TABLE_SIZE ==> #[trigger] table@[key] == table_entry(key),
    {
        let mut table: Vec<u32> = Vec::new();
        let mut key: u16 = 0;
        while key < 8192
            invariant
                key <= 8192,
                table@.len() == key,
                forall|k: int| 0 <= k < key ==> #[trigger] table@[k] == table_entry(k),
            decreases 8192 - key,
        {
            let held = mask_ranks(key);
            let entry: u32 = if held.len() == 5 {
                let ranks = [held[0], held[1], held[2], held[3], held[4]];
                assert(ranks@ =~= held@);
                match Self::is_straight_ranks(&ranks) {
                    Some(high) => HandRanking::straight_flush(high).score(),
                    None => HandRanking::flush(&ranks).score(),
                }
            } else {
                0
            };
            table.push(entry);
            key += 1;
        }
        table
    }

    /// The high card of five descending ranks that form a straight.
    fn is_straight_ranks(ranks: &[u8; 5]) -> (r: Option<u8>)
        requires
            ranks@[4] <= ranks@[0],
        ensures
            r == straight_high_of(ranks@),
    {
        let high = ranks[0];
        let low = ranks[4];
        if high - low == 4 {
            return Some(high);
        }
        if ranks[0] == 12 && ranks[1] == 3 && ranks[2] == 2 && ranks[3] == 1 && ranks[4] == 0 {
            return Some(3);
        }
        None
    }

    /// The pattern of the ranks present in a mask of cards.
    fn extract_rank_bits(cards: u64) -> (mask: u16)
        ensures
            mask < 8192,
            forall|r: int| 0 <= r < 13 ==> (has_bit16(mask, r) <==> rank_count(cards, r) > 0),
    {
        let mut mask: u16 = 0;
        let mut rank: u8 = 0;
        proof {
            assert forall|r: int| 0 <= r < 16 implies !has_bit16(0u16, r) by {
                lemma_bit16_of_zero(r as u16);
            }
        }
        while rank < 13
            invariant
                rank <= 13,
                mask < 8192,
                forall|r: int| 0 <= r < rank ==> (has_bit16(mask, r) <==> rank_count(cards, r) > 0),
                forall|r: int| rank <= r < 16 ==> !has_bit16(mask, r),
            decreases 13 - rank,
        {
            let ghost before = mask;
            let base: u8 = 4 * rank;
            if (cards >> base) & 1 == 1 || (cards >> (base + 1)) & 1 == 1 || (cards >> (base + 2)) & 1
                == 1 || (cards >> (base + 3)) & 1 == 1 {
                mask = mask | (1u16 << rank);
            }
            proof {
                lemma_bit16_set(before, rank as u16, 0);
                assert forall|r: int| 0 <= r < 16 implies has_bit16(mask, r) == (has_bit16(before, r)
                    || (r == rank && rank_count(cards, rank as int) > 0)) by {
                    lemma_bit16_set(before, rank as u16, r as u16);
                }
            }
            rank += 1;
        }
        mask
    }

    /// How many cards of each rank a mask of cards holds.
    fn count_ranks(cards: u64) -> (counts: [u8; 13])
        ensures
            counts@ == rank_counts(cards),
    {
        let mut counts = [0u8; 13];
        let mut rank: u8 = 0;
        while rank < 13
            invariant
                rank <= 13,
                forall|r: int| 0 <= r < rank ==> #[trigger] counts@[r] == rank_count(cards, r),
            decreases 13 - rank,
        {
            let base: u8 = 4 * rank;
            let mut held: u8 = 0;
            if (cards >> base) & 1 == 1 {
                held += 1;
            }
            if (cards >> (base + 1)) & 1 == 1 {
                held += 1;
            }
            if (cards >> (base + 2)) & 1 == 1 {
                held += 1;
            }
            if (cards >> (base + 3)) & 1 == 1 {
                held += 1;
            }
            counts[rank as usize] = held;
            rank += 1;
        }
        proof {
            assert(counts@ =~= rank_counts(cards));
        }
        counts
    }

    /// The pattern of the five highest ranks of the first suit that holds
    /// five cards or more.
    fn check_flush(cards: u64) -> (r: Option<u16>)
        ensures
            r is Some <==> flush_ranks(cards) is Some,
            r is Some ==> r->Some_0 < 8192 && flush_ranks(cards) == Some(
                ranks_with(mask_flags(r->Some_0), 1),
            ) && ranks_with(mask_flags(r->Some_0), 1).len() == 5,
    {
        let mut slot: u8 = 0;
        while slot < 4
            invariant
                slot <= 4,
                flush_slot(cards, 0) == flush_slot(cards, slot as int),
            decreases 4 - slot,
        {
            let mask = suit_mask(cards, slot);
            let (key, taken) = top_five(mask);
            if taken == 5 {
                proof {
                    let all = suit_ranks(cards, slot as int);
                    assert(first_ranks(all, 5).len() == 5);
                    assert(all.len() >= 5);
                    assert(first_ranks(all, 5) =~= all.take(5));
                }
                return Some(key);
            }
            slot += 1;
        }
        None
    }

    /// The highest rank present that a hand does not use itself.
    fn best_kicker(counts: &[u8; 13], a: u8, b: u8) -> (kicker: u8)
        ensures
            kicker == highest_unused(counts@, a as int, b as int, 13),
    {
        let mut next: usize = 13;
        while next > 0
            invariant
                next <= 13,
                highest_unused(counts@, a as int, b as int, 13) == highest_unused(
                    counts@,
                    a as int,
                    b as int,
                    next as int,
                ),
            decreases next,
        {
            next -= 1;
            if next != a as usize && next != b as usize && counts[next] > 0 {
                return next as u8;
            }
        }
        0
    }

    /// Ranks a hand in which some rank repeats, from its counts per rank.
    fn evaluate_paired(&self, counts: &[u8; 13]) -> (r: HandRanking)
        ensures
            r.score == paired_score(counts@),
    {
        let mut quads: Vec<u8> = Vec::new();
        let mut trips: Vec<u8> = Vec::new();
        let mut pairs: Vec<u8> = Vec::new();
        let mut singles: Vec<u8> = Vec::new();
        let mut next: usize = 13;
        while next > 0
            invariant
                next <= 13,
                quads@ == ranks_down_to(counts@, 4, next as int),
                trips@ == ranks_down_to(counts@, 3, next as int),
                pairs@ == ranks_down_to(counts@, 2, next as int),
                singles@ == ranks_down_to(counts@, 1, next as int),
            decreases next,
        {
            next -= 1;
            match counts[next] {
                4 => quads.push(next as u8),
                3 => trips.push(next as u8),
                2 => pairs.push(next as u8),
                1 => singles.push(next as u8),
                _ => {},
            }
        }
        if quads.len() > 0 {
            let kicker = Self::best_kicker(counts, quads[0], quads[0]);
            return HandRanking::four_of_a_kind(quads[0], kicker);
        }
        if trips.len() > 0 && (pairs.len() > 0 || trips.len() >= 2) {
            let trip_rank = trips[0];
            let pair_rank = if trips.len() >= 2 {
                trips[1]
            } else {
                pairs[0]
            };
            return HandRanking::full_house(trip_rank, pair_rank);
        }
        if trips.len() > 0 {
            return HandRanking::three_of_a_kind(trips[0], singles.as_slice());
        }
        if pairs.len() >= 2 {
            let kicker = Self::best_kicker(counts, pairs[0], pairs[1]);
            return HandRanking::two_pair(pairs[0], pairs[1], kicker);
        }
        if pairs.len() > 0 {
            return HandRanking::one_pair(pairs[0], singles.as_slice());
        }
        proof {
            lemma_encode_first_five(singles@);
        }
        HandRanking::high_card(singles.as_slice())
    }

    /// The high card of the best straight among the ranks of a pattern.
    fn check_straight(&self, rank_bits: u16) -> (r: Option<u8>)
        ensures
            r == straight_high(mask_flags(rank_bits)),
    {
        let mut high: u8 = 12;
        while high >= 4
            invariant
                3 <= high <= 12,
                best_window(mask_flags(rank_bits), 12) == best_window(
                    mask_flags(rank_bits),
                    high as int,
                ),
            decreases high,
        {
            let low: u8 = high - 4;
            let pattern: u16 = 0x1Fu16 << low;
            proof {
                lemma_window_mask(rank_bits, low as u16);
            }
            if (rank_bits & pattern) == pattern {
                return Some(high);
            }
            high -= 1;
        }
        proof {
            lemma_wheel_mask(rank_bits);
        }
        if (rank_bits & 0x100F) == 0x100F {
            return Some(3);
        }
        None
    }
}

/// Every score of five cards fits the category field and the tiebreak below it.
pub proof fn lemma_five_score_range(bits: u64)
    ensures
        0 <= five_score(bits) < 9 * CATEGORY_UNIT,
{
    let counts = rank_counts(bits);
    let quads = ranks_with(counts, 4);
    let trips = ranks_with(counts, 3);
    let pairs = ranks_with(counts, 2);
    let singles = ranks_with(counts, 1);
    lemma_tiebreak_bound(seq![quads[0], highest_unused(counts, quads[0] as int, quads[0] as int, 13)]);
    lemma_tiebreak_bound(seq![trips[0], trips[1]]);
    lemma_tiebreak_bound(seq![trips[0], pairs[0]]);
    lemma_tiebreak_bound(seq![trips[0]] + first_ranks(singles, 2));
    lemma_tiebreak_bound(
        seq![pairs[0], pairs[1], highest_unused(counts, pairs[0] as int, pairs[1] as int, 13)],
    );
    lemma_tiebreak_bound(seq![pairs[0]] + first_ranks(singles, 3));
    lemma_tiebreak_bound(first_ranks(singles, 5));
    if flush_ranks(bits) is Some {
        lemma_tiebreak_bound(flush_ranks(bits)->Some_0);
    }
}

/// The best of several scores is one of them: it fits the same fields.
pub proof fn lemma_best_five_range(cards: Seq<Card>, start: int, need: int, chosen: u64)
    ensures
        0 <= best_five(cards, start, need, chosen) < 9 * CATEGORY_UNIT,
    decreases need, cards.len() - start,
{
    if need <= 0 {
        lemma_five_score_range(chosen);
    } else if start < 0 || start >= cards.len() {
    } else {
        lemma_best_five_range(cards, start + 1, need - 1, chosen | card_bit(cards[start]));
        lemma_best_five_range(cards, start + 1, need, chosen);
    }
}

/// Where fewer cards are left than are needed, there is no hand to score.
pub proof fn lemma_too_few_cards(cards: Seq<Card>, start: int, need: int, chosen: u64)
    requires
        0 <= start <= cards.len(),
        cards.len() - start < need,
    ensures
        best_five(cards, start, need, chosen) == 0,
    decreases cards.len() - start,
{
    if start < cards.len() {
        lemma_too_few_cards(cards, start + 1, need - 1, chosen | card_bit(cards[start]));
        lemma_too_few_cards(cards, start + 1, need, chosen);
    }
}

/// Whether a list of places picks cards of a list from index `start` on,
/// each place once, in ascending order.
pub open spec fn picks_from(cards: Seq<Card>, pick: Seq<int>, start: int) -> bool {
    &&& forall|i: int| 0 <= i < pick.len() ==> start <= #[trigger] pick[i] < cards.len()
    &&& forall|i: int, j: int| 0 <= i < j < pick.len() ==> #[trigger] pick[i] < #[trigger] pick[j]
}

/// The mask of the cards chosen so far together with the cards picked.
pub open spec fn mask_with_picked(cards: Seq<Card>, pick: Seq<int>, chosen: u64) -> u64
    decreases pick.len(),
{
    if pick.len() == 0 {
        chosen
    } else {
        mask_with_picked(cards, pick.drop_first(), chosen | card_bit(cards[pick[0]]))
    }
}

/// No way of picking the cards that are needed scores higher than the best.
pub proof fn lemma_best_five_bounds(
    cards: Seq<Card>,
    start: int,
    need: int,
    chosen: u64,
    pick: Seq<int>,
)
    requires
        0 <= start,
        0 <= need == pick.len(),
        picks_from(cards, pick, start),
    ensures
        five_score(mask_with_picked(cards, pick, chosen)) <= best_five(cards, start, need, chosen),
    decreases need, cards.len() - start,
{
    if need == 0 {
    } else if start >= cards.len() {
        assert(pick[0] < cards.len());
    } else {
        let rest = pick.drop_first();
        if pick[0] == start {
            assert forall|i: int| 0 <= i < rest.len() implies start + 1 <= #[trigger] rest[i]
                < cards.len() by {
                assert(rest[i] == pick[i + 1]);
                assert(pick[0] < pick[i + 1]);
            }
            assert forall|i: int, j: int| 0 <= i < j < rest.len() implies #[trigger] rest[i]
                < #[trigger] rest[j] by {
                assert(rest[i] == pick[i + 1] && rest[j] == pick[j + 1]);
            }
            lemma_best_five_bounds(cards, start + 1, need - 1, chosen | card_bit(cards[start]), rest);
        } else {
            assert forall|i: int| 0 <= i < pick.len() implies start + 1 <= #[trigger] pick[i]
                < cards.len() by {
                if i > 0 {
                    assert(pick[0] < pick[i]);
                }
            }
            lemma_best_five_bounds(cards, start + 1, need, chosen, pick);
        }
    }
}

/// Where enough cards are left, some way of picking the cards that are
/// needed scores the best.
pub proof fn lemma_best_five_attained(cards: Seq<Card>, start: int, need: int, chosen: u64) -> (pick:
    Seq<int>)
    requires
        0 <= start <= cards.len(),
        0 <= need <= cards.len() - start,
    ensures
        pick.len() == need,
        picks_from(cards, pick, start),
        five_score(mask_with_picked(cards, pick, chosen)) == best_five(cards, start, need, chosen),
    decreases need, cards.len() - start,
{
    if need == 0 {
        Seq::empty()
    } else {
        let taken = chosen | card_bit(cards[start]);
        let with = best_five(cards, start + 1, need - 1, taken);
        let without = best_five(cards, start + 1, need, chosen);
        lemma_best_five_range(cards, start + 1, need - 1, taken);
        if cards.len() - start == need {
            lemma_too_few_cards(cards, start + 1, need, chosen);
        }
        if with >= without {
            let rest = lemma_best_five_attained(cards, start + 1, need - 1, taken);
            let pick = seq![start] + rest;
            assert(pick.drop_first() =~= rest);
            assert forall|i: int, j: int| 0 <= i < j < pick.len() implies #[trigger] pick[i]
                < #[trigger] pick[j] by {
                assert(pick[j] == rest[j - 1]);
                if i > 0 {
                    assert(pick[i] == rest[i - 1]);
                }
            }
            assert forall|i: int| 0 <= i < pick.len() implies start <= #[trigger] pick[i]
                < cards.len() by {
                if i > 0 {
                    assert(pick[i] == rest[i - 1]);
                }
            }
            pick
        } else {
            let pick = lemma_best_five_attained(cards, start + 1, need, chosen);
            assert forall|i: int| 0 <= i < pick.len() implies start <= #[trigger] pick[i]
                < cards.len() by {
                assert(start + 1 <= pick[i]);
            }
            pick
        }
    }
}

/// The score of a hand is the score of five of its cards, and no five of
/// its cards score higher.
pub proof fn lemma_hand_score_is_best(bits: u64, pick: Seq<int>)
    requires
        pick.len() == 5,
        picks_from(cards_ascending(bits, 52), pick, 0),
    ensures
        five_score(mask_with_picked(cards_ascending(bits, 52), pick, 0)) <= hand_score(bits),
        exists|best: Seq<int>|
            best.len() == 5 && picks_from(cards_ascending(bits, 52), best, 0) && hand_score(bits)
                == five_score(#[trigger] mask_with_picked(cards_ascending(bits, 52), best, 0)),
{
    let cards = cards_ascending(bits, 52);
    lemma_best_five_bounds(cards, 0, 5, 0, pick);
    assert(pick[4] < cards.len());
    assert(pick[0] < pick[1] && pick[1] < pick[2] && pick[2] < pick[3] && pick[3] < pick[4]);
    let best = lemma_best_five_attained(cards, 0, 5, 0);
    assert(hand_score(bits) == five_score(mask_with_picked(cards, best, 0)));
}

/// Where all the cards that are left are needed, the one hand that they
/// make with the cards chosen is the best there is.
pub proof fn lemma_all_cards_needed(cards: Seq<Card>, start: int)
    requires
        0 <= start <= cards.len(),
    ensures
        best_five(cards, start, cards.len() - start, mask_prefix(cards, start)) == five_score(
            mask_of_cards(cards),
        ),
    decreases cards.len() - start,
{
    if start < cards.len() {
        lemma_all_cards_needed(cards, start + 1);
        lemma_too_few_cards(cards, start + 1, cards.len() - start, mask_prefix(cards, start));
        lemma_five_score_range(mask_of_cards(cards));
    }
}

/// A hand of five cards or fewer scores what its cards score as they are:
/// there is no choice to make.
pub proof fn lemma_five_cards(bits: u64)
    requires
        bits <= FULL_DECK_BITS,
        count_below(bits, 52) <= 5,
    ensures
        hand_score(bits) == five_score(bits),
{
    let cards = cards_ascending(bits, 52);
    lemma_cards_ascending(bits, 52);
    lemma_mask_of_all_cards(bits);
    if cards.len() == 5 {
        lemma_all_cards_needed(cards, 0);
    } else {
        lemma_too_few_cards(cards, 0, 5, 0);
    }
}

/// Every score of a hand fits the category field and the tiebreak below it.
pub proof fn lemma_hand_score_range(bits: u64)
    ensures
        0 <= hand_score(bits) < 9 * CATEGORY_UNIT,
{
    lemma_best_five_range(cards_ascending(bits, 52), 0, 5, 0);
}

proof fn lemma_tiebreak_bound(ranks: Seq<u8>)
    ensures
        spec_encode_kickers(ranks) < CATEGORY_UNIT,
{
    if ranks.len() < 5 {
        lemma_encode_bound(ranks, ranks.len() as int);
    } else {
        lemma_encode_bound(ranks, 5);
    }
}

impl LookupEvaluator {
    /// Ranks five cards given as a mask.
    fn evaluate_five(&self, cards: u64) -> (r: HandRanking)
        ensures
            r.score == five_score(cards),
    {
        proof {
            lemma_five_score_range(cards);
        }
        let card_count = count_cards(cards);
        if card_count < 5 {
            return HandRanking::minimum();
        }
        match Self::check_flush(cards) {
            Some(key) => {
                proof {
                    use_type_invariant(self);
                }
                return HandRanking::from_score(self.flush_table[key as usize]);
            },
            None => {},
        }
        let counts = Self::count_ranks(cards);
        let mut has_pairs = false;
        let mut rank: usize = 0;
        while rank < 13
            invariant
                rank <= 13,
                has_pairs <==> exists|r: int| 0 <= r < rank && #[trigger] counts@[r] >= 2,
            decreases 13 - rank,
        {
            if counts[rank] >= 2 {
                has_pairs = true;
            }
            rank += 1;
        }
        if has_pairs {
            return self.evaluate_paired(&counts);
        }
        let rank_bits = Self::extract_rank_bits(cards);
        proof {
            lemma_straight_by_presence(mask_flags(rank_bits), counts@);
        }
        match self.check_straight(rank_bits) {
            Some(high) => {
                return HandRanking::straight(high);
            },
            None => {},
        }
        let mut kickers: Vec<u8> = Vec::new();
        let mut next: usize = 13;
        while next > 0
            invariant
                next <= 13,
                counts@.len() == 13,
                forall|r: int| 0 <= r < 13 ==> #[trigger] counts@[r] < 2,
                kickers@ == ranks_down_to(counts@, 1, next as int),
            decreases next,
        {
            next -= 1;
            if counts[next] > 0 {
                kickers.push(next as u8);
            }
        }
        proof {
            lemma_encode_first_five(kickers@);
        }
        HandRanking::high_card(kickers.as_slice())
    }

    /// The best score among the hands made of the cards chosen so far and
    /// `need` more of a list, taken from index `start` on.
    fn best_of(&self, cards: &Vec<Card>, start: usize, need: usize, chosen: u64) -> (best: u32)
        requires
            start <= cards@.len(),
        ensures
            best == best_five(cards@, start as int, need as int, chosen),
        decreases need, cards@.len() - start,
    {
        proof {
            lemma_best_five_range(cards@, start as int, need as int, chosen);
        }
        if need == 0 {
            return self.evaluate_five(chosen).score();
        }
        if cards.len() - start < need {
            proof {
                lemma_too_few_cards(cards@, start as int, need as int, chosen);
            }
            return 0;
        }
        let with = self.best_of(cards, start + 1, need - 1, chosen | (1u64 << cards[start].index()));
        let without = self.best_of(cards, start + 1, need, chosen);
        if with >= without {
            with
        } else {
            without
        }
    }
}

impl HandEvaluator for LookupEvaluator {
    open spec fn rank(&self, cards: u64) -> u32 {
        hand_score(cards) as u32
    }

    fn evaluate(&self, hand: &Hand) -> (r: HandRanking) {
        self.evaluate_u64(hand.as_u64())
    }

    fn evaluate_u64(&self, cards: u64) -> (r: HandRanking) {
        let held = cards_of_mask(cards);
        HandRanking::from_score(self.best_of(&held, 0, 5, 0))
    }
}

impl Default for LookupEvaluator {
    fn default() -> (evaluator: Self)
        ensures
            evaluator.wf(),
            evaluator.table() == built_table(),
    {
        Self::new()
    }
}

/// The mask of the first `n` of a list of cards, the cards at `i` and `j`
/// left out.
pub open spec fn mask_without(cards: Seq<Card>, i: int, j: int, n: int) -> u64
    decreases n,
{
    if n <= 0 {
        0
    } else if n - 1 == i || n - 1 == j {
        mask_without(cards, i, j, n - 1)
    } else {
        mask_without(cards, i, j, n - 1) | (1u64 << (cards[n - 1].spec_index() as u64))
    }
}

/// The best ranking among the twenty-one ways of leaving two of seven cards out.
pub fn evaluate_7_cards<E: HandEvaluator>(evaluator: &E, cards: &[Card; 7]) -> (best: HandRanking)
    ensures
        forall|i: int, j: int|
            0 <= i < j < 7 ==> best.score >= evaluator.rank(#[trigger] mask_without(cards@, i, j, 7)),
        exists|i: int, j: int|
            0 <= i < j < 7 && best.score == evaluator.rank(#[trigger] mask_without(cards@, i, j, 7)),
{
    let mut best = HandRanking::minimum();
    let ghost mut found = false;
    let ghost mut at: (int, int) = (0, 1);
    let mut i: usize = 0;
    while i < 7
        invariant
            i <= 7,
            forall|a: int, b: int|
                0 <= a < b < 7 && a < i ==> best.score >= evaluator.rank(
                    #[trigger] mask_without(cards@, a, b, 7),
                ),
            !found ==> best.score == 0,
            found ==> 0 <= at.0 < at.1 < 7 && best.score == evaluator.rank(
                mask_without(cards@, at.0, at.1, 7),
            ),
        decreases 7 - i,
    {
        let mut j: usize = i + 1;
        while j < 7
            invariant
                i < 7,
                i < j <= 7,
                forall|a: int, b: int|
                    0 <= a < b < 7 && (a < i || (a == i && b < j)) ==> best.score >= evaluator.rank(
                        #[trigger] mask_without(cards@, a, b, 7),
                    ),
                !found ==> best.score == 0,
                found ==> 0 <= at.0 < at.1 < 7 && best.score == evaluator.rank(
                    mask_without(cards@, at.0, at.1, 7),
                ),
            decreases 7 - j,
        {
            let mut hand_bits: u64 = 0;
            let mut k: usize = 0;
            while k < 7
                invariant
                    k <= 7,
                    hand_bits == mask_without(cards@, i as int, j as int, k as int),
                decreases 7 - k,
            {
                if k != i && k != j {
                    hand_bits = hand_bits | (1u64 << cards[k].index());
                }
                k += 1;
            }
            let ranking = evaluator.evaluate_u64(hand_bits);
            if ranking.score() > best.score() {
                best = ranking;
                proof {
                    found = true;
                    at = (i as int, j as int);
                }
            }
            j += 1;
        }
        i += 1;
    }
    proof {
        if !found {
            assert(best.score >= evaluator.rank(mask_without(cards@, 0, 1, 7)));
        }
    }
    best
}

/// Ranks a whole mask of up to seven cards in one evaluation.
pub fn evaluate_7_cards_fast<E: HandEvaluator>(evaluator: &E, cards_bits: u64) -> (r: HandRanking)
    ensures
        r.score == evaluator.rank(cards_bits),
{
    evaluator.evaluate_u64(cards_bits)
}

} // verus!

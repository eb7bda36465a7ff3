//! Hand strength as one integer: the category above bit 24, the tiebreak below.

use vstd::prelude::*;
use std::cmp::Ordering;

verus! {

/// One unit of the category field of a score.
pub const CATEGORY_UNIT: u32 = 0x100_0000;

/// The nine hand categories, weakest first.
#[derive(Clone, Copy, Debug, PartialEq, Eq, Structural, PartialOrd, Ord, Hash)]
pub enum HandCategory {
    HighCard,
    OnePair,
    TwoPair,
    ThreeOfAKind,
    Straight,
    Flush,
    FullHouse,
    FourOfAKind,
    StraightFlush,
}

impl HandCategory {
    /// The number a category is encoded with; a stronger category has a
    /// larger number.
    pub open spec fn ordinal(self) -> int {
        match self {
            HandCategory::HighCard => 0,
            HandCategory::OnePair => 1,
            HandCategory::TwoPair => 2,
            HandCategory::ThreeOfAKind => 3,
            HandCategory::Straight => 4,
            HandCategory::Flush => 5,
            HandCategory::FullHouse => 6,
            HandCategory::FourOfAKind => 7,
            HandCategory::StraightFlush => 8,
        }
    }

    /// The category that a number encodes; numbers that encode none give the
    /// weakest category.
    pub open spec fn of_ordinal(n: int) -> HandCategory {
        if n == 1 {
            HandCategory::OnePair
        } else if n == 2 {
            HandCategory::TwoPair
        } else if n == 3 {
            HandCategory::ThreeOfAKind
        } else if n == 4 {
            HandCategory::Straight
        } else if n == 5 {
            HandCategory::Flush
        } else if n == 6 {
            HandCategory::FullHouse
        } else if n == 7 {
            HandCategory::FourOfAKind
        } else if n == 8 {
            HandCategory::StraightFlush
        } else {
            HandCategory::HighCard
        }
    }

    /// The category's name in words.
    pub open spec fn spec_name(self) -> Seq<char> {
        match self {
            HandCategory::HighCard => "High Card"@,
            HandCategory::OnePair => "One Pair"@,
            HandCategory::TwoPair => "Two Pair"@,
            HandCategory::ThreeOfAKind => "Three of a Kind"@,
            HandCategory::Straight => "Straight"@,
            HandCategory::Flush => "Flush"@,
            HandCategory::FullHouse => "Full House"@,
            HandCategory::FourOfAKind => "Four of a Kind"@,
            HandCategory::StraightFlush => "Straight Flush"@,
        }
    }

    /// The category's name in words.
    pub fn name(&self) -> (name: &'static str)
        ensures
            name@ == self.spec_name(),
    {
        match self {
            HandCategory::HighCard => "High Card",
            HandCategory::OnePair => "One Pair",
            HandCategory::TwoPair => "Two Pair",
            HandCategory::ThreeOfAKind => "Three of a Kind",
            HandCategory::Straight => "Straight",
            HandCategory::Flush => "Flush",
            HandCategory::FullHouse => "Full House",
            HandCategory::FourOfAKind => "Four of a Kind",
            HandCategory::StraightFlush => "Straight Flush",
        }
    }

    /// The category's number as a machine integer.
    pub fn code(&self) -> (n: u32)
        ensures
            n == self.ordinal(),
    {
        match self {
            HandCategory::HighCard => 0,
            HandCategory::OnePair => 1,
            HandCategory::TwoPair => 2,
            HandCategory::ThreeOfAKind => 3,
            HandCategory::Straight => 4,
            HandCategory::Flush => 5,
            HandCategory::FullHouse => 6,
            HandCategory::FourOfAKind => 7,
            HandCategory::StraightFlush => 8,
        }
    }

    /// Writes the category's name.
    pub fn to_string(&self) -> (s: String)
        ensures
            s@ == self.spec_name(),
    {
        String::from_str(self.name())
    }
}

/// The strength of a hand. A larger score is a stronger hand.
#[derive(Clone, Copy, Debug, PartialEq, Eq, Structural, PartialOrd, Ord, Hash)]
pub struct HandRanking {
    pub score: u32,
}

/// The first `n` ranks of a list, packed four bits apart from bit 16 down.
pub open spec fn encode_prefix(ranks: Seq<u8>, n: int) -> u32
    decreases n,
{
    if n <= 0 {
        0
    } else {
        encode_prefix(ranks, n - 1) | ((ranks[n - 1] as u32) << ((20 - 4 * n) as u32))
    }
}

/// The tiebreak that a list of ranks encodes: its first five entries, the
/// first in the highest place.
pub open spec fn spec_encode_kickers(ranks: Seq<u8>) -> u32 {
    encode_prefix(
        ranks,
        if ranks.len() < 5 {
            ranks.len() as int
        } else {
            5
        },
    )
}

/// Five ranks below sixteen as one number in base sixteen.
pub open spec fn base16(r0: int, r1: int, r2: int, r3: int, r4: int) -> int {
    r0 * 65536 + r1 * 4096 + r2 * 256 + r3 * 16 + r4
}

/// The rank at a place of a list, or zero past its end.
pub open spec fn rank_or_zero(ranks: Seq<u8>, i: int) -> int {
    if 0 <= i < ranks.len() {
        ranks[i] as int
    } else {
        0
    }
}

proof fn lemma_pack_step(acc: u32, rank: u8, shift: u32)
    by (bit_vector)
    requires
        acc < 0x100_0000u32,
        shift <= 16,
    ensures
        (acc | ((rank as u32) << shift)) < 0x100_0000u32,
{
}

proof fn lemma_pack_small(r0: u8, r1: u8, r2: u8, r3: u8, r4: u8)
    by (bit_vector)
    requires
        r0 < 16,
        r1 < 16,
        r2 < 16,
        r3 < 16,
        r4 < 16,
    ensures
        (((((0u32 | ((r0 as u32) << 16u32)) | ((r1 as u32) << 12u32)) | ((r2 as u32) << 8u32)) | ((r3 as u32)
            << 4u32)) | ((r4 as u32) << 0u32)) == (r0 as u32) * 65536 + (r1 as u32) * 4096 + (r2 as u32) * 256
            + (r3 as u32) * 16 + (r4 as u32),
        ((r0 as u32) << 16u32) == (((((0u32 | ((r0 as u32) << 16u32)) | (0u32 << 12u32)) | (0u32 << 8u32)) | (
        0u32 << 4u32)) | (0u32 << 0u32)),
        (0u32 | (0u32 << 16u32)) == 0,
{
}

/// Every encoded tiebreak stays below one unit of the category field.
pub proof fn lemma_encode_bound(ranks: Seq<u8>, n: int)
    requires
        0 <= n <= 5,
        n <= ranks.len(),
    ensures
        encode_prefix(ranks, n) < CATEGORY_UNIT,
    decreases n,
{
    if n > 0 {
        lemma_encode_bound(ranks, n - 1);
        lemma_pack_step(encode_prefix(ranks, n - 1), ranks[n - 1], (20 - 4 * n) as u32);
    }
}

/// Lists that agree on their first `n` entries encode the same prefix.
pub proof fn lemma_encode_prefix_agrees(a: Seq<u8>, b: Seq<u8>, n: int)
    requires
        0 <= n <= a.len(),
        n <= b.len(),
        forall|i: int| 0 <= i < n ==> a[i] == b[i],
    ensures
        encode_prefix(a, n) == encode_prefix(b, n),
    decreases n,
{
    if n > 0 {
        lemma_encode_prefix_agrees(a, b, n - 1);
    }
}

/// Ranks below sixteen encode to the number they spell in base sixteen,
/// missing places counting as zero: within a category, the hand whose ranks
/// come later in dictionary order has the larger tiebreak.
pub proof fn lemma_encode_base16(ranks: Seq<u8>)
    requires
        forall|i: int| 0 <= i < ranks.len() ==> ranks[i] < 16,
    ensures
        spec_encode_kickers(ranks) == base16(
            rank_or_zero(ranks, 0),
            rank_or_zero(ranks, 1),
            rank_or_zero(ranks, 2),
            rank_or_zero(ranks, 3),
            rank_or_zero(ranks, 4),
        ),
{
    let n: int = if ranks.len() < 5 {
        ranks.len() as int
    } else {
        5
    };
    let r0 = rank_or_zero(ranks, 0) as u8;
    let r1 = rank_or_zero(ranks, 1) as u8;
    let r2 = rank_or_zero(ranks, 2) as u8;
    let r3 = rank_or_zero(ranks, 3) as u8;
    let r4 = rank_or_zero(ranks, 4) as u8;
    reveal_with_fuel(encode_prefix, 6);
    lemma_pack_small(r0, r1, r2, r3, r4);
    assert(forall|x: u32| #[trigger] (x | (0u32 << 12u32)) == x) by (bit_vector);
    assert(forall|x: u32| #[trigger] (x | (0u32 << 8u32)) == x) by (bit_vector);
    assert(forall|x: u32| #[trigger] (x | (0u32 << 4u32)) == x) by (bit_vector);
    assert(forall|x: u32| #[trigger] (x | (0u32 << 0u32)) == x) by (bit_vector);
    let padded = seq![r0, r1, r2, r3, r4];
    assert(encode_prefix(padded, 5) == base16(r0 as int, r1 as int, r2 as int, r3 as int, r4 as int));
    lemma_encode_prefix_agrees(ranks, padded, n);
    if n < 5 {
        lemma_encode_padding(padded, n);
    }
}

proof fn lemma_encode_padding(padded: Seq<u8>, n: int)
    requires
        padded.len() == 5,
        0 <= n <= 5,
        forall|i: int| n <= i < 5 ==> padded[i] == 0,
    ensures
        encode_prefix(padded, 5) == encode_prefix(padded, n),
{
    reveal_with_fuel(encode_prefix, 6);
    assert(forall|x: u32| #[trigger] (x | (0u32 << 16u32)) == x) by (bit_vector);
    assert(forall|x: u32| #[trigger] (x | (0u32 << 12u32)) == x) by (bit_vector);
    assert(forall|x: u32| #[trigger] (x | (0u32 << 8u32)) == x) by (bit_vector);
    assert(forall|x: u32| #[trigger] (x | (0u32 << 4u32)) == x) by (bit_vector);
    assert(forall|x: u32| #[trigger] (x | (0u32 << 0u32)) == x) by (bit_vector);
}

/// Packs up to five ranks into a tiebreak, the first rank in the highest place.
pub fn encode_kickers(ranks: &[u8]) -> (packed: u32)
    ensures
        packed == spec_encode_kickers(ranks@),
        packed < CATEGORY_UNIT,
{
    let n: usize = if ranks.len() < 5 {
        ranks.len()
    } else {
        5
    };
    let mut packed: u32 = 0;
    let mut i: usize = 0;
    while i < n
        invariant
            i <= n <= 5,
            n <= ranks@.len(),
            packed == encode_prefix(ranks@, i as int),
        decreases n - i,
    {
        let shift: u32 = (16 - 4 * i) as u32;
        packed = packed | ((ranks[i] as u32) << shift);
        i += 1;
    }
    proof {
        lemma_encode_bound(ranks@, n as int);
    }
    packed
}

impl HandRanking {
    /// The category that the score's upper field encodes.
    pub open spec fn spec_category(self) -> HandCategory {
        HandCategory::of_ordinal(self.score as int / 0x100_0000)
    }

    /// The tiebreak in the score's lower field.
    pub open spec fn tiebreak(self) -> int {
        self.score as int % 0x100_0000
    }

    /// A straight flush whose tiebreak is the ace-high straight.
    pub open spec fn spec_is_royal_flush(self) -> bool {
        self.spec_category() == HandCategory::StraightFlush && self.score as int % 16 == 12
    }

    /// The score that a category and a tiebreak make.
    pub open spec fn compose(category: HandCategory, kickers: int) -> int {
        category.ordinal() * 0x100_0000 + kickers
    }

    /// The weakest ranking there is; it stands for a hand too short to rank.
    pub fn minimum() -> (r: Self)
        ensures
            r.score == 0,
    {
        Self { score: 0 }
    }

    /// The strongest ranking there is.
    pub fn maximum() -> (r: Self)
        ensures
            r.score == u32::MAX,
    {
        Self { score: u32::MAX }
    }

    /// The ranking with a score.
    pub fn from_score(score: u32) -> (r: Self)
        ensures
            r.score == score,
    {
        Self { score }
    }

    /// The ranking of a category with a tiebreak below one category unit.
    pub fn new(category: HandCategory, kickers: u32) -> (r: Self)
        requires
            kickers < CATEGORY_UNIT,
        ensures
            r.score == Self::compose(category, kickers as int),
            r.spec_category() == category,
            r.tiebreak() == kickers,
    {
        let code = category.code();
        let score = (code << 24) | kickers;
        proof {
            assert((code << 24u32) | kickers == code * 0x100_0000u32 + kickers) by (bit_vector)
                requires
                    code <= 8,
                    kickers < 0x100_0000u32,
            ;
        }
        Self { score }
    }

    /// The score.
    pub fn score(&self) -> (score: u32)
        ensures
            score == self.score,
    {
        self.score
    }

    /// The category that the score's upper field encodes.
    pub fn category(&self) -> (category: HandCategory)
        ensures
            category == self.spec_category(),
    {
        let score = self.score;
        proof {
            assert(score >> 24u32 == score / 0x100_0000u32) by (bit_vector);
        }
        match score >> 24 {
            0 => HandCategory::HighCard,
            1 => HandCategory::OnePair,
            2 => HandCategory::TwoPair,
            3 => HandCategory::ThreeOfAKind,
            4 => HandCategory::Straight,
            5 => HandCategory::Flush,
            6 => HandCategory::FullHouse,
            7 => HandCategory::FourOfAKind,
            8 => HandCategory::StraightFlush,
            _ => HandCategory::HighCard,
        }
    }

    /// Whether the ranking is that of an ace-high straight flush.
    pub fn is_royal_flush(&self) -> (royal: bool)
        ensures
            royal == self.spec_is_royal_flush(),
    {
        let score = self.score;
        proof {
            assert(score & 0xF == score % 16) by (bit_vector);
        }
        let category = self.category();
        category == HandCategory::StraightFlush && (score & 0xF) == 12
    }

    /// Compares two rankings by their scores.
    pub fn compare(&self, other: &Self) -> (o: Ordering)
        ensures
            o == Ordering::Less <==> self.score < other.score,
            o == Ordering::Equal <==> self.score == other.score,
            o == Ordering::Greater <==> self.score > other.score,
    {
        if self.score < other.score {
            Ordering::Less
        } else if self.score == other.score {
            Ordering::Equal
        } else {
            Ordering::Greater
        }
    }

    /// Writes the ranking's category, or the royal flush by its own name.
    pub fn to_string(&self) -> (s: String)
        ensures
            s@ == if self.spec_is_royal_flush() {
                "Royal Flush"@
            } else {
                self.spec_category().spec_name()
            },
    {
        if self.is_royal_flush() {
            String::from_str("Royal Flush")
        } else {
            self.category().to_string()
        }
    }

    /// A high card: up to five ranks, highest first.
    pub fn high_card(kickers: &[u8]) -> (r: Self)
        ensures
            r.score == Self::compose(HandCategory::HighCard, spec_encode_kickers(kickers@) as int),
    {
        Self::new(HandCategory::HighCard, encode_kickers(kickers))
    }

    /// One pair: its rank, then up to three kickers.
    pub fn one_pair(pair_rank: u8, kickers: &[u8]) -> (r: Self)
        ensures
            r.score == Self::compose(
                HandCategory::OnePair,
                spec_encode_kickers(seq![pair_rank] + first_ranks(kickers@, 3)) as int,
            ),
    {
        let ranks = lead_with(pair_rank, kickers, 3);
        Self::new(HandCategory::OnePair, encode_kickers(ranks.as_slice()))
    }

    /// Two pair: the higher pair, the lower pair, the kicker.
    pub fn two_pair(high_pair: u8, low_pair: u8, kicker: u8) -> (r: Self)
        ensures
            r.score == Self::compose(
                HandCategory::TwoPair,
                spec_encode_kickers(seq![high_pair, low_pair, kicker]) as int,
            ),
    {
        let ranks = [high_pair, low_pair, kicker];
        assert(ranks@ =~= seq![high_pair, low_pair, kicker]);
        Self::new(HandCategory::TwoPair, encode_kickers(&ranks))
    }

    /// Three of a kind: its rank, then up to two kickers.
    pub fn three_of_a_kind(trips_rank: u8, kickers: &[u8]) -> (r: Self)
        ensures
            r.score == Self::compose(
                HandCategory::ThreeOfAKind,
                spec_encode_kickers(seq![trips_rank] + first_ranks(kickers@, 2)) as int,
            ),
    {
        let ranks = lead_with(trips_rank, kickers, 2);
        Self::new(HandCategory::ThreeOfAKind, encode_kickers(ranks.as_slice()))
    }

    /// A straight with a high card.
    pub fn straight(high_card: u8) -> (r: Self)
        ensures
            r.score == Self::compose(HandCategory::Straight, high_card as int),
    {
        Self::new(HandCategory::Straight, high_card as u32)
    }

    /// A flush: up to five ranks, highest first.
    pub fn flush(kickers: &[u8]) -> (r: Self)
        ensures
            r.score == Self::compose(HandCategory::Flush, spec_encode_kickers(kickers@) as int),
    {
        Self::new(HandCategory::Flush, encode_kickers(kickers))
    }

    /// A full house: the rank of the three, then that of the two.
    pub fn full_house(trips_rank: u8, pair_rank: u8) -> (r: Self)
        ensures
            r.score == Self::compose(
                HandCategory::FullHouse,
                spec_encode_kickers(seq![trips_rank, pair_rank]) as int,
            ),
    {
        let ranks = [trips_rank, pair_rank];
        assert(ranks@ =~= seq![trips_rank, pair_rank]);
        Self::new(HandCategory::FullHouse, encode_kickers(&ranks))
    }

    /// Four of a kind: its rank, then the kicker.
    pub fn four_of_a_kind(quads_rank: u8, kicker: u8) -> (r: Self)
        ensures
            r.score == Self::compose(
                HandCategory::FourOfAKind,
                spec_encode_kickers(seq![quads_rank, kicker]) as int,
            ),
    {
        let ranks = [quads_rank, kicker];
        assert(ranks@ =~= seq![quads_rank, kicker]);
        Self::new(HandCategory::FourOfAKind, encode_kickers(&ranks))
    }

    /// A straight flush with a high card.
    pub fn straight_flush(high_card: u8) -> (r: Self)
        ensures
            r.score == Self::compose(HandCategory::StraightFlush, high_card as int),
    {
        Self::new(HandCategory::StraightFlush, high_card as u32)
    }

    /// The ace-high straight flush.
    pub fn royal_flush() -> (r: Self)
        ensures
            r.score == Self::compose(HandCategory::StraightFlush, 12),
            r.spec_is_royal_flush(),
    {
        Self::straight_flush(12)
    }
}

/// The first `n` entries of a list, or all of it where it is shorter.
pub open spec fn first_ranks(ranks: Seq<u8>, n: int) -> Seq<u8> {
    if ranks.len() <= n {
        ranks
    } else {
        ranks.take(n)
    }
}

/// Only the first five ranks of a list count for its tiebreak.
pub proof fn lemma_encode_first_five(ranks: Seq<u8>)
    ensures
        spec_encode_kickers(first_ranks(ranks, 5)) == spec_encode_kickers(ranks),
{
    if ranks.len() > 5 {
        lemma_encode_prefix_agrees(ranks.take(5), ranks, 5);
    }
}

/// One rank followed by the first `n` of a list of kickers.
fn lead_with(first: u8, kickers: &[u8], n: usize) -> (ranks: Vec<u8>)
    ensures
        ranks@ == seq![first] + first_ranks(kickers@, n as int),
{
    let mut ranks: Vec<u8> = Vec::new();
    ranks.push(first);
    let mut i: usize = 0;
    while i < kickers.len() && i < n
        invariant
            i <= kickers@.len(),
            i <= n,
            ranks@ == seq![first] + kickers@.take(i as int),
        decreases kickers.len() - i,
    {
        ranks.push(kickers[i]);
        proof {
            assert(kickers@.take(i + 1) =~= kickers@.take(i as int).push(kickers@[i as int]));
            assert(ranks@ =~= seq![first] + kickers@.take(i + 1));
        }
        i += 1;
    }
    proof {
        if kickers@.len() <= n {
            assert(kickers@.take(i as int) =~= kickers@);
        }
    }
    ranks
}

impl Default for HandRanking {
    fn default() -> (r: Self)
        ensures
            r.score == 0,
    {
        Self::minimum()
    }
}

/// The category decides before any tiebreak: of two scores made from
/// tiebreaks below one category unit, the one of the stronger category is
/// larger, and within one category the larger tiebreak is the larger score.
pub proof fn lemma_category_dominates(c1: HandCategory, k1: int, c2: HandCategory, k2: int)
    requires
        0 <= k1 < CATEGORY_UNIT,
        0 <= k2 < CATEGORY_UNIT,
    ensures
        c1.ordinal() < c2.ordinal() ==> HandRanking::compose(c1, k1) < HandRanking::compose(c2, k2),
        c1 == c2 ==> (HandRanking::compose(c1, k1) < HandRanking::compose(c2, k2) <==> k1 < k2),
        0 <= HandRanking::compose(c1, k1) < 9 * CATEGORY_UNIT,
{
}

/// A straight flush is a royal flush exactly when its high card is the ace.
pub proof fn lemma_royal_flush(high_card: u8)
    requires
        high_card <= 12,
    ensures
        (HandRanking { score: HandRanking::compose(HandCategory::StraightFlush, high_card as int) as u32 }).spec_is_royal_flush()
            <==> high_card == 12,
{
}

/// Any two rankings compare, and the comparison is that of their scores:
/// the order is total.
pub proof fn lemma_order_total(a: HandRanking, b: HandRanking)
    ensures
        a.score < b.score || a.score == b.score || a.score > b.score,
        a.score == b.score <==> a == b,
{
}

} // verus!

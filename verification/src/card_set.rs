//! A set of cards packed into the low fifty-two bits of a machine word.

use vstd::prelude::*;
use vstd::std_specs::bits::{axiom_u64_trailing_zeros, u64_trailing_zeros};
use crate::card::{lemma_index_of_index, lemma_of_index_index, Card};

verus! {

/// The mask with one bit for each card of the deck.
pub const FULL_DECK_BITS: u64 = 0xF_FFFF_FFFF_FFFF;

/// Whether bit `i` of `bits` is set.
pub open spec fn has_bit(bits: u64, i: int) -> bool {
    0 <= i < 64 && (bits >> (i as u64)) & 1 == 1
}

/// The cards whose bits are set in a mask; bits past the deck stand for no card.
pub open spec fn cards_of(bits: u64) -> Set<Card> {
    Set::new(|c: Card| has_bit(bits, c.spec_index()))
}

/// How many of the lowest `n` bits are set.
pub open spec fn count_below(bits: u64, n: int) -> int
    decreases n,
{
    if n <= 0 {
        0
    } else {
        count_below(bits, n - 1) + if has_bit(bits, n - 1) {
            1int
        } else {
            0int
        }
    }
}

/// Zero has no bit set.
pub proof fn lemma_bit_of_zero(j: u64)
    by (bit_vector)
    ensures
        (0u64 >> j) & 1 == 0,
{
}

/// A one shifted to a place has the bit of that place set, and no other.
pub proof fn lemma_bit_of_single(idx: u64, j: u64)
    by (bit_vector)
    requires
        idx < 64,
        j < 64,
    ensures
        ((1u64 << idx) >> j) & 1 == 1 <==> j == idx,
{
}

/// A bit is set in the union of two masks where it is set in either.
pub proof fn lemma_bit_of_or(a: u64, b: u64, j: u64)
    by (bit_vector)
    requires
        j < 64,
    ensures
        ((a | b) >> j) & 1 == 1 <==> ((a >> j) & 1 == 1 || (b >> j) & 1 == 1),
{
}

/// A bit is set in the intersection of two masks where it is set in both.
pub proof fn lemma_bit_of_and(a: u64, b: u64, j: u64)
    by (bit_vector)
    requires
        j < 64,
    ensures
        ((a & b) >> j) & 1 == 1 <==> ((a >> j) & 1 == 1 && (b >> j) & 1 == 1),
{
}

/// A bit is set in the difference of two masks where it is set in the
/// first and not in the second.
pub proof fn lemma_bit_of_and_not(a: u64, b: u64, j: u64)
    by (bit_vector)
    requires
        j < 64,
    ensures
        ((a & !b) >> j) & 1 == 1 <==> ((a >> j) & 1 == 1 && (b >> j) & 1 != 1),
{
}

/// The full deck has every bit below fifty-two set.
pub proof fn lemma_bit_in_deck(j: u64)
    by (bit_vector)
    requires
        j < 52,
    ensures
        (0xF_FFFF_FFFF_FFFFu64 >> j) & 1 == 1,
{
}

/// A mask inside the deck has no bit from fifty-two up set.
pub proof fn lemma_bit_past_deck(bits: u64, j: u64)
    by (bit_vector)
    requires
        bits <= 0xF_FFFF_FFFF_FFFFu64,
        52 <= j < 64,
    ensures
        (bits >> j) & 1 == 0,
{
}

/// Union, intersection and difference of masks inside the deck stay inside it.
pub proof fn lemma_bit_ops_stay_in_deck(a: u64, b: u64)
    by (bit_vector)
    requires
        a <= 0xF_FFFF_FFFF_FFFFu64,
        b <= 0xF_FFFF_FFFF_FFFFu64,
    ensures
        (a | b) <= 0xF_FFFF_FFFF_FFFFu64,
        (a & b) <= 0xF_FFFF_FFFF_FFFFu64,
        (a & !b) <= 0xF_FFFF_FFFF_FFFFu64,
{
}

/// Setting or clearing the bit of a card keeps a mask inside the deck.
pub proof fn lemma_single_bit_in_deck(a: u64, idx: u64)
    by (bit_vector)
    requires
        a <= 0xF_FFFF_FFFF_FFFFu64,
        idx < 52,
    ensures
        (a | (1u64 << idx)) <= 0xF_FFFF_FFFF_FFFFu64,
        (a & !(1u64 << idx)) <= 0xF_FFFF_FFFF_FFFFu64,
{
}

/// A mask that is not zero has a lowest set bit.
pub proof fn lemma_nonzero_has_bit(bits: u64) -> (j: int)
    requires
        bits != 0,
    ensures
        has_bit(bits, j),
        j == u64_trailing_zeros(bits),
        forall|k: int| 0 <= k < j ==> !has_bit(bits, k),
{
    axiom_u64_trailing_zeros(bits);
    let j = u64_trailing_zeros(bits) as int;
    assert forall|k: int| 0 <= k < j implies !has_bit(bits, k) by {
        let k64 = k as u64;
        assert((bits >> k64) & 1u64 == 0u64);
    }
    j
}

/// The cards of a mask are finitely many: as many as the mask has bits set
/// inside the deck.
pub proof fn lemma_cards_below(bits: u64, n: int)
    requires
        0 <= n <= 52,
    ensures
        cards_of(bits).filter(|c: Card| c.spec_index() < n).finite(),
        cards_of(bits).filter(|c: Card| c.spec_index() < n).len() == count_below(bits, n),
        0 <= count_below(bits, n) <= n,
    decreases n,
{
    let now = cards_of(bits).filter(|c: Card| c.spec_index() < n);
    if n == 0 {
        assert forall|c: Card| !now.contains(c) by {
            lemma_of_index_index(c);
        }
        assert(now =~= Set::<Card>::empty());
    } else {
        lemma_cards_below(bits, n - 1);
        let before = cards_of(bits).filter(|c: Card| c.spec_index() < n - 1);
        let top = Card::of_index(n - 1);
        lemma_index_of_index(n - 1);
        if has_bit(bits, n - 1) {
            assert forall|c: Card| now.contains(c) <==> before.insert(top).contains(c) by {
                lemma_of_index_index(c);
            }
            assert(now =~= before.insert(top));
        } else {
            assert forall|c: Card| now.contains(c) <==> before.contains(c) by {
                lemma_of_index_index(c);
            }
            assert(now =~= before);
        }
    }
}

/// Of the lowest `n` bits of the full deck, all are set.
pub proof fn lemma_full_deck_count(n: int)
    requires
        0 <= n <= 52,
    ensures
        count_below(FULL_DECK_BITS, n) == n,
    decreases n,
{
    if n > 0 {
        lemma_full_deck_count(n - 1);
        lemma_bit_in_deck((n - 1) as u64);
    }
}

/// The cards of a mask, counted.
pub proof fn lemma_cards_count(bits: u64)
    ensures
        cards_of(bits).finite(),
        cards_of(bits).len() == count_below(bits, 52),
        0 <= count_below(bits, 52) <= 52,
{
    lemma_cards_below(bits, 52);
    let all = cards_of(bits).filter(|c: Card| c.spec_index() < 52);
    assert forall|c: Card| all.contains(c) <==> cards_of(bits).contains(c) by {
        lemma_of_index_index(c);
    }
    assert(all =~= cards_of(bits));
}

/// The bit that stands for a card.
pub open spec fn card_bit(card: Card) -> u64 {
    1u64 << (card.spec_index() as u64)
}

/// The mask of the first `n` cards of a list.
pub open spec fn mask_prefix(cards: Seq<Card>, n: int) -> u64
    decreases n,
{
    if n <= 0 {
        0
    } else {
        mask_prefix(cards, n - 1) | card_bit(cards[n - 1])
    }
}

/// The mask of a list of cards.
pub open spec fn mask_of_cards(cards: Seq<Card>) -> u64 {
    mask_prefix(cards, cards.len() as int)
}

/// The mask of a list depends on the cards up to `n` only.
pub proof fn lemma_mask_prefix_agrees(a: Seq<Card>, b: Seq<Card>, n: int)
    requires
        0 <= n <= a.len(),
        n <= b.len(),
        forall|i: int| 0 <= i < n ==> a[i] == b[i],
    ensures
        mask_prefix(a, n) == mask_prefix(b, n),
    decreases n,
{
    if n > 0 {
        lemma_mask_prefix_agrees(a, b, n - 1);
    }
}

/// The bits of a mask below place `n`.
pub open spec fn low_bits(bits: u64, n: int) -> u64 {
    bits & !(0xFFFF_FFFF_FFFF_FFFFu64 << (n as u64))
}

proof fn lemma_low_bits_step(bits: u64, n: u64)
    by (bit_vector)
    requires
        n < 63,
    ensures
        (bits >> n) & 1 == 1 ==> (bits & !(0xFFFF_FFFF_FFFF_FFFFu64 << n)) | (1u64 << n) == bits & !(
        0xFFFF_FFFF_FFFF_FFFFu64 << ((n + 1) as u64)),
        (bits >> n) & 1 != 1 ==> bits & !(0xFFFF_FFFF_FFFF_FFFFu64 << n) == bits & !(
        0xFFFF_FFFF_FFFF_FFFFu64 << ((n + 1) as u64)),
{
}

proof fn lemma_low_bits_ends(bits: u64)
    by (bit_vector)
    ensures
        bits & !(0xFFFF_FFFF_FFFF_FFFFu64 << 0u64) == 0,
        bits <= 0xF_FFFF_FFFF_FFFFu64 ==> bits & !(0xFFFF_FFFF_FFFF_FFFFu64 << 52u64) == bits,
{
}

/// The cards of a mask below place `n`, put together again, are the bits
/// of the mask below that place.
pub proof fn lemma_mask_of_ascending(bits: u64, n: int)
    requires
        0 <= n <= 52,
    ensures
        mask_of_cards(cards_ascending(bits, n)) == low_bits(bits, n),
    decreases n,
{
    if n <= 0 {
        lemma_low_bits_ends(bits);
    } else {
        lemma_mask_of_ascending(bits, n - 1);
        lemma_low_bits_step(bits, (n - 1) as u64);
        let before = cards_ascending(bits, n - 1);
        if has_bit(bits, n - 1) {
            let top = Card::of_index(n - 1);
            lemma_index_of_index(n - 1);
            lemma_mask_prefix_agrees(before, before.push(top), before.len() as int);
            assert(before.push(top)[before.len() as int] == top);
        }
    }
}

/// The cards of a mask inside the deck, put together again, are the mask.
pub proof fn lemma_mask_of_all_cards(bits: u64)
    requires
        bits <= FULL_DECK_BITS,
    ensures
        mask_of_cards(cards_ascending(bits, 52)) == bits,
{
    lemma_mask_of_ascending(bits, 52);
    lemma_low_bits_ends(bits);
}

/// The cards of a mask whose index is below `n`, in ascending order of index.
pub open spec fn cards_ascending(bits: u64, n: int) -> Seq<Card>
    decreases n,
{
    if n <= 0 {
        Seq::empty()
    } else if has_bit(bits, n - 1) {
        cards_ascending(bits, n - 1).push(Card::of_index(n - 1))
    } else {
        cards_ascending(bits, n - 1)
    }
}

/// The texts of a sequence of cards, one space between neighbours.
pub open spec fn join_cards(cards: Seq<Card>) -> Seq<char>
    decreases cards.len(),
{
    if cards.len() == 0 {
        Seq::empty()
    } else if cards.len() == 1 {
        cards[0].text()
    } else {
        join_cards(cards.drop_last()) + seq![' '] + cards.last().text()
    }
}

/// The ascending list of a mask's cards holds each card of the mask below
/// `n` once, and nothing else, lower indices first.
pub proof fn lemma_cards_ascending(bits: u64, n: int)
    requires
        0 <= n <= 52,
    ensures
        cards_ascending(bits, n).len() == count_below(bits, n),
        forall|c: Card|
            #[trigger] cards_ascending(bits, n).contains(c) <==> (cards_of(bits).contains(c)
                && c.spec_index() < n),
        forall|i: int, j: int|
            0 <= i < j < cards_ascending(bits, n).len() ==> (#[trigger] cards_ascending(
                bits,
                n,
            )[i]).spec_index() < (#[trigger] cards_ascending(bits, n)[j]).spec_index(),
    decreases n,
{
    let now = cards_ascending(bits, n);
    if n <= 0 {
        assert forall|c: Card| !(cards_of(bits).contains(c) && c.spec_index() < n) by {
            lemma_of_index_index(c);
        }
        assert forall|c: Card| !now.contains(c) by {
            assert(now.len() == 0);
        }
    } else {
        lemma_cards_ascending(bits, n - 1);
        let before = cards_ascending(bits, n - 1);
        let top = Card::of_index(n - 1);
        lemma_index_of_index(n - 1);
        if has_bit(bits, n - 1) {
            assert(now == before.push(top));
            assert forall|c: Card| now.contains(c) implies cards_of(bits).contains(c)
                && c.spec_index() < n by {
                let i = choose|i: int| 0 <= i < now.len() && now[i] == c;
                if i < before.len() {
                    assert(before[i] == c);
                    assert(before.contains(c));
                } else {
                    assert(c == top);
                }
            }
            assert forall|c: Card| cards_of(bits).contains(c) && c.spec_index() < n implies now.contains(
                c,
            ) by {
                lemma_of_index_index(c);
                if c.spec_index() < n - 1 {
                    assert(before.contains(c));
                    let i = choose|i: int| 0 <= i < before.len() && before[i] == c;
                    assert(now[i] == c);
                } else {
                    assert(c == top);
                    assert(now[before.len() as int] == c);
                }
            }
            assert forall|i: int, j: int| 0 <= i < j < now.len() implies (#[trigger] now[i]).spec_index()
                < (#[trigger] now[j]).spec_index() by {
                assert(now[i] == before[i]);
                assert(before.contains(before[i]));
                if j < before.len() {
                    assert(now[j] == before[j]);
                    assert(before[i].spec_index() < before[j].spec_index());
                } else {
                    assert(now[j] == top);
                }
            }
        } else {
            assert(now == before);
            assert forall|c: Card| cards_of(bits).contains(c) && c.spec_index() < n implies now.contains(
                c,
            ) by {
                lemma_of_index_index(c);
                if c.spec_index() == n - 1 {
                    assert(c == top);
                }
                assert(before.contains(c));
            }
        }
    }
}

/// A set of cards, one bit per card at the card's index.
#[derive(Clone, Copy, Debug, PartialEq, Eq, Structural, Hash)]
pub struct CardSet(pub(crate) u64);

impl View for CardSet {
    type V = Set<Card>;

    open spec fn view(&self) -> Set<Card> {
        cards_of(self.bits())
    }
}

impl CardSet {
    /// The underlying mask.
    pub closed spec fn bits(self) -> u64 {
        self.0
    }

    /// Only bits that stand for a card are ever set.
    #[verifier::type_invariant]
    pub open spec fn wf(self) -> bool {
        self.bits() <= FULL_DECK_BITS
    }

    /// The empty set.
    pub fn new() -> (set: Self)
        ensures
            set@ == Set::<Card>::empty(),
            set.bits() == 0,
    {
        let set = Self(0);
        proof {
            assert forall|c: Card| !set@.contains(c) by {
                lemma_bit_of_zero(c.spec_index() as u64);
            }
            assert(set@ =~= Set::<Card>::empty());
        }
        set
    }

    /// The set of all fifty-two cards.
    pub fn full_deck() -> (set: Self)
        ensures
            set@ == Set::<Card>::full(),
            set@.len() == 52,
            set.bits() == FULL_DECK_BITS,
    {
        let set = Self(FULL_DECK_BITS);
        proof {
            lemma_full_deck_count(52);
            lemma_cards_count(FULL_DECK_BITS);
            assert forall|c: Card| set@.contains(c) by {
                lemma_of_index_index(c);
                lemma_bit_in_deck(c.spec_index() as u64);
            }
            assert(set@ =~= Set::<Card>::full());
        }
        set
    }

    /// The set of one card.
    pub fn from_card(card: Card) -> (set: Self)
        ensures
            set@ == Set::<Card>::empty().insert(card),
            set.bits() == 0u64 | card_bit(card),
    {
        let mut set = Self::new();
        set.insert(card);
        set
    }

    /// The set of the cards of a list.
    pub fn from_cards(cards: &[Card]) -> (set: Self)
        ensures
            set@ == cards@.to_set(),
            set.bits() == mask_of_cards(cards@),
    {
        let mut set = Self::new();
        let mut i: usize = 0;
        while i < cards.len()
            invariant
                i <= cards.len(),
                set@ == cards@.take(i as int).to_set(),
                set.bits() == mask_prefix(cards@, i as int),
            decreases cards.len() - i,
        {
            set.insert(cards[i]);
            proof {
                assert(cards@.take(i + 1) =~= cards@.take(i as int).push(cards@[i as int]));
                lemma_push_to_set(cards@.take(i as int), cards@[i as int]);
            }
            i += 1;
        }
        proof {
            assert(cards@.take(i as int) =~= cards@);
        }
        set
    }

    /// Puts a card into the set.
    pub fn insert(&mut self, card: Card)
        ensures
            final(self)@ == old(self)@.insert(card),
            final(self).bits() == old(self).bits() | card_bit(card),
    {
        proof {
            use_type_invariant(&*self);
        }
        let idx = card.index();
        let ghost before = self.0;
        proof {
            lemma_single_bit_in_deck(before, idx as u64);
        }
        self.0 = self.0 | (1u64 << idx);
        proof {
            assert forall|c: Card| self@.contains(c) <==> old(self)@.insert(card).contains(c) by {
                lemma_of_index_index(c);
                lemma_of_index_index(card);
                lemma_bit_of_or(before, 1u64 << idx, c.spec_index() as u64);
                lemma_bit_of_single(idx as u64, c.spec_index() as u64);
            }
            assert(self@ =~= old(self)@.insert(card));
        }
    }

    /// Takes a card out of the set.
    pub fn remove(&mut self, card: Card)
        ensures
            final(self)@ == old(self)@.remove(card),
    {
        proof {
            use_type_invariant(&*self);
        }
        let idx = card.index();
        let ghost before = self.0;
        proof {
            lemma_single_bit_in_deck(before, idx as u64);
        }
        self.0 = self.0 & !(1u64 << idx);
        proof {
            assert forall|c: Card| self@.contains(c) <==> old(self)@.remove(card).contains(c) by {
                lemma_of_index_index(c);
                lemma_of_index_index(card);
                lemma_bit_of_and_not(before, 1u64 << idx, c.spec_index() as u64);
                lemma_bit_of_single(idx as u64, c.spec_index() as u64);
            }
            assert(self@ =~= old(self)@.remove(card));
        }
    }

    /// Whether the set holds a card.
    pub fn contains(&self, card: Card) -> (found: bool)
        ensures
            found == self@.contains(card),
    {
        let idx = card.index();
        proof {
            let b = self.0;
            let i = idx as u64;
            assert((b & (1u64 << i)) != 0 <==> (b >> i) & 1 == 1) by (bit_vector)
                requires
                    i < 64,
            ;
        }
        (self.0 & (1u64 << idx)) != 0
    }

    /// How many cards the set holds.
    pub fn count(&self) -> (n: u32)
        ensures
            n == self@.len(),
            n <= 52,
    {
        proof {
            lemma_cards_count(self.0);
        }
        count_cards(self.0)
    }

    /// Whether the set holds no card.
    pub fn is_empty(&self) -> (empty: bool)
        ensures
            empty == self@.is_empty(),
    {
        proof {
            use_type_invariant(self);
            lemma_mask_empty(self.0);
        }
        self.0 == 0
    }

    /// The cards of either set.
    pub fn union(self, other: Self) -> (set: Self)
        ensures
            set@ == self@.union(other@),
    {
        proof {
            use_type_invariant(self);
            use_type_invariant(other);
            lemma_bit_ops_stay_in_deck(self.0, other.0);
        }
        let set = Self(self.0 | other.0);
        proof {
            assert forall|c: Card| set@.contains(c) <==> self@.union(other@).contains(c) by {
                lemma_of_index_index(c);
                lemma_bit_of_or(self.0, other.0, c.spec_index() as u64);
            }
            assert(set@ =~= self@.union(other@));
        }
        set
    }

    /// The cards of both sets.
    pub fn intersection(self, other: Self) -> (set: Self)
        ensures
            set@ == self@.intersect(other@),
    {
        proof {
            use_type_invariant(self);
            use_type_invariant(other);
            lemma_bit_ops_stay_in_deck(self.0, other.0);
        }
        let set = Self(self.0 & other.0);
        proof {
            assert forall|c: Card| set@.contains(c) <==> self@.intersect(other@).contains(c) by {
                lemma_of_index_index(c);
                lemma_bit_of_and(self.0, other.0, c.spec_index() as u64);
            }
            assert(set@ =~= self@.intersect(other@));
        }
        set
    }

    /// The cards of this set that the other does not hold.
    pub fn difference(self, other: Self) -> (set: Self)
        ensures
            set@ == self@.difference(other@),
    {
        proof {
            use_type_invariant(self);
            use_type_invariant(other);
            lemma_bit_ops_stay_in_deck(self.0, other.0);
        }
        let set = Self(self.0 & !other.0);
        proof {
            assert forall|c: Card| set@.contains(c) <==> self@.difference(other@).contains(c) by {
                lemma_of_index_index(c);
                lemma_bit_of_and_not(self.0, other.0, c.spec_index() as u64);
            }
            assert(set@ =~= self@.difference(other@));
        }
        set
    }

    /// Whether the two sets have a card in common.
    pub fn overlaps(self, other: Self) -> (shared: bool)
        ensures
            shared == !self@.disjoint(other@),
    {
        proof {
            use_type_invariant(self);
            use_type_invariant(other);
            lemma_bit_ops_stay_in_deck(self.0, other.0);
            let both = self.0 & other.0;
            lemma_mask_empty(both);
            assert forall|c: Card|
                cards_of(both).contains(c) <==> self@.contains(c) && other@.contains(c) by {
                lemma_of_index_index(c);
                lemma_bit_of_and(self.0, other.0, c.spec_index() as u64);
            }
            if both != 0 {
                let c = choose|c: Card| cards_of(both).contains(c);
                assert(self@.contains(c) && other@.contains(c));
            }
        }
        (self.0 & other.0) != 0
    }

    /// The cards of the set in ascending order of index.
    pub open spec fn ordered(self) -> Seq<Card> {
        cards_ascending(self.bits(), 52)
    }

    /// The set written out: its cards in ascending order between brackets.
    pub open spec fn text(self) -> Seq<char> {
        seq!['['] + join_cards(self.ordered()) + seq![']']
    }

    /// The cards of the set as a list, in ascending order of index.
    pub fn to_vec(&self) -> (cards: Vec<Card>)
        ensures
            cards@ == self.ordered(),
            cards@.len() == self@.len(),
    {
        proof {
            lemma_cards_count(self.0);
        }
        cards_of_mask(self.0)
    }

    /// A cursor over the cards of the set, lowest index first.
    pub fn iter(&self) -> (it: CardSetIter)
        ensures
            it@ == self@,
    {
        proof {
            use_type_invariant(self);
        }
        CardSetIter(self.0)
    }

    /// Writes the set as its cards in ascending order between brackets.
    pub fn to_string(&self) -> (s: String)
        ensures
            s@ == self.text(),
    {
        let cards = self.to_vec();
        let mut s = String::from_str("[");
        let inner = cards_to_string(&cards);
        s.append(inner.as_str());
        s.append("]");
        proof {
            reveal_strlit("[");
            reveal_strlit("]");
            assert(s@ =~= self.text());
        }
        s
    }

    /// The underlying mask.
    pub fn as_u64(&self) -> (bits: u64)
        ensures
            bits == self.bits(),
            bits <= FULL_DECK_BITS,
    {
        proof {
            use_type_invariant(self);
        }
        self.0
    }
}

/// The cards of a mask as a list, in ascending order of index. Bits past
/// the deck stand for no card.
pub fn cards_of_mask(bits: u64) -> (cards: Vec<Card>)
    ensures
        cards@ == cards_ascending(bits, 52),
        cards@.len() == count_below(bits, 52),
{
    let mut cards: Vec<Card> = Vec::new();
    let mut i: u8 = 0;
    while i < 52
        invariant
            i <= 52,
            cards@ == cards_ascending(bits, i as int),
        decreases 52 - i,
    {
        if (bits >> i) & 1 == 1 {
            match Card::from_index(i) {
                Some(card) => cards.push(card),
                None => {},
            }
        }
        i += 1;
    }
    proof {
        lemma_cards_ascending(bits, 52);
    }
    cards
}

/// Counts the cards of a mask. Bits past the deck stand for no card.
pub fn count_cards(bits: u64) -> (n: u32)
    ensures
        n == count_below(bits, 52),
        n == cards_of(bits).len(),
        n <= 52,
{
    let mut n: u32 = 0;
    let mut i: u8 = 0;
    while i < 52
        invariant
            i <= 52,
            n == count_below(bits, i as int),
            n <= i,
        decreases 52 - i,
    {
        if (bits >> i) & 1 == 1 {
            n += 1;
        }
        i += 1;
    }
    proof {
        lemma_cards_count(bits);
    }
    n
}

/// A mask inside the deck stands for no card exactly when it is zero.
pub proof fn lemma_mask_empty(bits: u64)
    requires
        bits <= FULL_DECK_BITS,
    ensures
        bits == 0 <==> cards_of(bits).is_empty(),
        bits != 0 ==> exists|c: Card| cards_of(bits).contains(c),
{
    if bits == 0 {
        assert forall|c: Card| !cards_of(bits).contains(c) by {
            lemma_bit_of_zero(c.spec_index() as u64);
        }
        assert(cards_of(bits) =~= Set::<Card>::empty());
    } else {
        let j = lemma_nonzero_has_bit(bits);
        if j >= 52 {
            lemma_bit_past_deck(bits, j as u64);
        }
        lemma_index_of_index(j);
        assert(cards_of(bits).contains(Card::of_index(j)));
    }
}

/// Pushing an element onto a sequence inserts it into the set of its elements.
pub proof fn lemma_push_to_set<A>(s: Seq<A>, a: A)
    ensures
        s.push(a).to_set() == s.to_set().insert(a),
{
    assert forall|x: A| s.push(a).to_set().contains(x) <==> s.to_set().insert(a).contains(x) by {
        if s.push(a).contains(x) {
            let i = choose|i: int| 0 <= i < s.push(a).len() && s.push(a)[i] == x;
            if i < s.len() {
                assert(s[i] == x);
            }
        }
        if s.to_set().insert(a).contains(x) {
            if x == a {
                assert(s.push(a)[s.len() as int] == x);
            } else {
                let i = choose|i: int| 0 <= i < s.len() && s[i] == x;
                assert(s.push(a)[i] == x);
            }
        }
    }
    assert(s.push(a).to_set() =~= s.to_set().insert(a));
}

/// Writes a list of cards with one space between neighbours.
pub fn cards_to_string(cards: &Vec<Card>) -> (s: String)
    ensures
        s@ == join_cards(cards@),
{
    let mut s = String::new();
    let mut i: usize = 0;
    while i < cards.len()
        invariant
            i <= cards.len(),
            s@ == join_cards(cards@.take(i as int)),
        decreases cards.len() - i,
    {
        if i > 0 {
            s.append(" ");
        }
        let text = cards[i].to_string();
        s.append(text.as_str());
        proof {
            reveal_strlit(" ");
            let now = cards@.take(i + 1);
            assert(now.drop_last() =~= cards@.take(i as int));
            assert(now.last() == cards@[i as int]);
            if i == 0 {
                assert(s@ =~= now[0].text());
            } else {
                assert(s@ =~= join_cards(now.drop_last()) + seq![' '] + now.last().text());
            }
        }
        i += 1;
    }
    proof {
        assert(cards@.take(i as int) =~= cards@);
    }
    s
}

/// A cursor that hands out the cards of a set from the lowest index up.
pub struct CardSetIter(u64);

impl View for CardSetIter {
    type V = Set<Card>;

    /// The cards that are still to come.
    open spec fn view(&self) -> Set<Card> {
        cards_of(self.bits())
    }
}

impl CardSetIter {
    /// The mask of the cards that are still to come.
    pub closed spec fn bits(self) -> u64 {
        self.0
    }

    /// Only bits that stand for a card are ever set.
    #[verifier::type_invariant]
    pub open spec fn wf(self) -> bool {
        self.bits() <= FULL_DECK_BITS
    }

    /// Hands out the remaining card of lowest index, if any card remains.
    pub fn next(&mut self) -> (r: Option<Card>)
        ensures
            old(self)@.is_empty() ==> r is None && final(self)@ == old(self)@,
            !old(self)@.is_empty() ==> r is Some && old(self)@.contains(r->Some_0) && final(self)@
                == old(self)@.remove(r->Some_0),
            forall|c: Card|
                r is Some && old(self)@.contains(c) ==> r->Some_0.spec_index() <= c.spec_index(),
    {
        proof {
            use_type_invariant(&*self);
            lemma_mask_empty(self.0);
        }
        if self.0 == 0 {
            return None;
        }
        let ghost before = self.0;
        let tz = self.0.trailing_zeros();
        proof {
            let j = lemma_nonzero_has_bit(before);
            if j >= 52 {
                lemma_bit_past_deck(before, j as u64);
            }
            lemma_index_of_index(j);
            lemma_single_bit_in_deck(before, j as u64);
        }
        let idx = tz as u8;
        self.0 = self.0 & !(1u64 << idx);
        let r = Card::from_index(idx);
        proof {
            let card = Card::of_index(idx as int);
            assert forall|c: Card| self@.contains(c) <==> old(self)@.remove(card).contains(c) by {
                lemma_of_index_index(c);
                lemma_bit_of_and_not(before, 1u64 << idx, c.spec_index() as u64);
                lemma_bit_of_single(idx as u64, c.spec_index() as u64);
            }
            assert(self@ =~= old(self)@.remove(card));
            assert forall|c: Card| old(self)@.contains(c) implies card.spec_index()
                <= c.spec_index() by {
                lemma_of_index_index(c);
            }
        }
        r
    }

    /// How many cards are still to come.
    pub fn len(&self) -> (n: usize)
        ensures
            n == self@.len(),
    {
        proof {
            use_type_invariant(self);
        }
        CardSet(self.0).count() as usize
    }
}

impl Default for CardSet {
    fn default() -> (set: Self)
        ensures
            set@ == Set::<Card>::empty(),
    {
        Self::new()
    }
}

} // verus!

//! A player's two cards, and a hand of cards to be ranked.

use vstd::prelude::*;
use crate::card::Card;
use crate::card_set::{
    card_bit, cards_to_string, join_cards, lemma_push_to_set, mask_of_cards, CardSet, CardSetIter,
};
use crate::text::{spec_trim, spec_words, split_whitespace, texts_of, trim};

verus! {

/// Two cards held by one player, the higher card first.
#[derive(Clone, Copy, Debug, PartialEq, Eq, Hash)]
pub struct HoleCards {
    cards: [Card; 2],
}

/// The two cards that a text of four characters denotes, in the order written.
pub open spec fn spec_parse_two_cards(s: Seq<char>) -> Option<(Card, Card)> {
    let t = spec_trim(s);
    if t.len() == 4 && Card::spec_parse(t.subrange(0, 2)) is Some && Card::spec_parse(
        t.subrange(2, 4),
    ) is Some {
        Some((Card::spec_parse(t.subrange(0, 2))->Some_0, Card::spec_parse(t.subrange(2, 4))->Some_0))
    } else {
        None
    }
}

impl HoleCards {
    /// The higher of the two cards.
    pub closed spec fn spec_high(self) -> Card {
        self.cards[0]
    }

    /// The lower of the two cards.
    pub closed spec fn spec_low(self) -> Card {
        self.cards[1]
    }

    /// The hole cards made of two cards, whichever is given first.
    pub closed spec fn spec_new(card1: Card, card2: Card) -> HoleCards {
        if card1.order_key() >= card2.order_key() {
            HoleCards { cards: [card1, card2] }
        } else {
            HoleCards { cards: [card2, card1] }
        }
    }

    /// The hole cards that a text denotes: two cards written one after the
    /// other, with white space allowed around them.
    pub open spec fn spec_parse(s: Seq<char>) -> Option<HoleCards> {
        match spec_parse_two_cards(s) {
            Some((card1, card2)) => Some(Self::spec_new(card1, card2)),
            None => None,
        }
    }

    /// Of two cards the one that compares higher becomes the high card, and
    /// the order in which they are given does not matter.
    pub proof fn lemma_spec_new(card1: Card, card2: Card)
        ensures
            Self::spec_new(card1, card2).wf(),
            Self::spec_new(card1, card2) == Self::spec_new(card2, card1),
            card1.order_key() >= card2.order_key() ==> Self::spec_new(card1, card2).spec_high()
                == card1 && Self::spec_new(card1, card2).spec_low() == card2,
            card1.order_key() < card2.order_key() ==> Self::spec_new(card1, card2).spec_high()
                == card2 && Self::spec_new(card1, card2).spec_low() == card1,
    {
        if card1.order_key() == card2.order_key() {
            crate::card::lemma_order_key_injective(card1, card2);
        }
    }

    /// The higher card stands first.
    #[verifier::type_invariant]
    pub open spec fn wf(self) -> bool {
        self.spec_high().order_key() >= self.spec_low().order_key()
    }

    /// The two cards written one after the other, the higher first.
    pub open spec fn text(self) -> Seq<char> {
        self.spec_high().text() + self.spec_low().text()
    }

    /// Two pairs of hole cards with the same high and the same low card are
    /// the same.
    pub proof fn lemma_same_cards(self, other: Self)
        ensures
            (self.spec_high() == other.spec_high() && self.spec_low() == other.spec_low()) <==> self
                == other,
    {
        if self.spec_high() == other.spec_high() && self.spec_low() == other.spec_low() {
            assert(self.cards =~= other.cards);
        }
    }

    /// The hole cards made of two cards, the higher card first, whichever
    /// is given first.
    pub fn new(card1: Card, card2: Card) -> (hole: Self)
        ensures
            hole == Self::spec_new(card1, card2),
            hole.wf(),
            card1.order_key() >= card2.order_key() ==> hole.spec_high() == card1 && hole.spec_low()
                == card2,
            card1.order_key() < card2.order_key() ==> hole.spec_high() == card2 && hole.spec_low()
                == card1,
    {
        let cards = if card1.sort_key() >= card2.sort_key() {
            [card1, card2]
        } else {
            [card2, card1]
        };
        Self { cards }
    }

    /// The higher of the two cards.
    pub fn high(&self) -> (card: Card)
        ensures
            card == self.spec_high(),
    {
        self.cards[0]
    }

    /// The lower of the two cards.
    pub fn low(&self) -> (card: Card)
        ensures
            card == self.spec_low(),
    {
        self.cards[1]
    }

    /// Whether the two cards are of one suit.
    pub fn is_suited(&self) -> (suited: bool)
        ensures
            suited == (self.spec_high().suit == self.spec_low().suit),
    {
        self.cards[0].suit == self.cards[1].suit
    }

    /// Whether the two cards are of one rank.
    pub fn is_pair(&self) -> (pair: bool)
        ensures
            pair == (self.spec_high().value == self.spec_low().value),
    {
        self.cards[0].value == self.cards[1].value
    }

    /// How many ranks the high card stands above the low card.
    pub fn gap(&self) -> (gap: u8)
        ensures
            gap == self.spec_high().value.ordinal() - self.spec_low().value.ordinal(),
    {
        proof {
            use_type_invariant(self);
        }
        let high = self.cards[0].value.rank();
        let low = self.cards[1].value.rank();
        high - low
    }

    /// The two cards as a set.
    pub fn to_card_set(&self) -> (set: CardSet)
        ensures
            set@ == Set::<Card>::empty().insert(self.spec_high()).insert(self.spec_low()),
    {
        let mut set = CardSet::new();
        set.insert(self.cards[0]);
        set.insert(self.cards[1]);
        set
    }

    /// The two cards, the higher first.
    pub fn cards(&self) -> (cards: &[Card; 2])
        ensures
            cards@ == seq![self.spec_high(), self.spec_low()],
    {
        assert(self.cards@ =~= seq![self.spec_high(), self.spec_low()]);
        &self.cards
    }

    /// Tells whether two pairs of hole cards hold the same cards.
    pub fn same(&self, other: &Self) -> (same: bool)
        ensures
            same == (*self == *other),
    {
        proof {
            self.lemma_same_cards(*other);
        }
        self.cards[0] == other.cards[0] && self.cards[1] == other.cards[1]
    }

    /// Reads two cards written one after the other, with white space allowed
    /// around them.
    pub fn parse(s: &str) -> (r: Option<Self>)
        ensures
            r == Self::spec_parse(s@),
    {
        let t = trim(s);
        if t.unicode_len() != 4 {
            return None;
        }
        let card1 = match Card::parse(t.substring_char(0, 2)) {
            Some(c) => c,
            None => { return None; },
        };
        let card2 = match Card::parse(t.substring_char(2, 4)) {
            Some(c) => c,
            None => { return None; },
        };
        Some(Self::new(card1, card2))
    }

    /// Writes the two cards one after the other, the higher first.
    pub fn to_string(&self) -> (s: String)
        ensures
            s@ == self.text(),
    {
        let mut s = self.cards[0].to_string();
        let low = self.cards[1].to_string();
        s.append(low.as_str());
        s
    }
}

/// A message that names a text between quotes after a few words of explanation.
fn quoted_message(words: &str, s: &str) -> (message: String)
    ensures
        message@ == words@ + s@ + seq!['\''],
{
    let mut message = String::from_str(words);
    message.append(s);
    message.append("'");
    proof {
        reveal_strlit("'");
        assert(message@ =~= words@ + s@ + seq!['\'']);
    }
    message
}

impl std::str::FromStr for HoleCards {
    type Err = String;

    fn from_str(s: &str) -> (r: Result<Self, String>)
        ensures
            match r {
                Ok(hole) => HoleCards::spec_parse(s@) == Some(hole),
                Err(message) => HoleCards::spec_parse(s@) is None && message@
                    == "Invalid hole cards format: '"@ + s@ + seq!['\''],
            },
    {
        match Self::parse(s) {
            Some(hole) => Ok(hole),
            None => Err(quoted_message("Invalid hole cards format: '", s)),
        }
    }
}


impl<'a> TryFrom<&'a str> for HoleCards {
    type Error = ();

    fn try_from(s: &'a str) -> (r: Result<Self, ()>) {
        match Self::parse(s) {
            Some(hole) => Ok(hole),
            None => Err(()),
        }
    }
}

impl<'a> vstd::std_specs::convert::TryFromSpecImpl<&'a str> for HoleCards {
    open spec fn obeys_try_from_spec() -> bool {
        true
    }

    open spec fn try_from_spec(s: &'a str) -> Result<Self, ()> {
        match HoleCards::spec_parse(s@) {
            Some(hole) => Ok(hole),
            None => Err(()),
        }
    }
}

/// The cards that the words of a text denote.
pub open spec fn cards_in_words(words: Seq<Seq<char>>) -> Set<Card> {
    Set::new(
        |c: Card| exists|i: int| 0 <= i < words.len() && Card::spec_parse(#[trigger] words[i]) == Some(c),
    )
}

/// Whether every word of a text denotes a card.
pub open spec fn all_words_are_cards(words: Seq<Seq<char>>) -> bool {
    forall|i: int| 0 <= i < words.len() ==> Card::spec_parse(#[trigger] words[i]) is Some
}

/// The cards of the hand that a text denotes: the text must have a word,
/// and every word of it must be a card.
pub open spec fn spec_parse_hand(s: Seq<char>) -> Option<Set<Card>> {
    let words = spec_words(s);
    if words.len() > 0 && all_words_are_cards(words) {
        Some(cards_in_words(words))
    } else {
        None
    }
}

/// One more word that denotes a card adds that card to the cards denoted.
pub proof fn lemma_one_more_word(words: Seq<Seq<char>>, word: Seq<char>, card: Card)
    requires
        Card::spec_parse(word) == Some(card),
    ensures
        cards_in_words(words.push(word)) == cards_in_words(words).insert(card),
{
    let more = words.push(word);
    assert forall|c: Card| cards_in_words(more).contains(c) <==> cards_in_words(words).insert(
        card,
    ).contains(c) by {
        if cards_in_words(words).contains(c) {
            let j = choose|j: int|
                0 <= j < words.len() && Card::spec_parse(#[trigger] words[j]) == Some(c);
            assert(more[j] == words[j]);
        }
        if c == card {
            assert(Card::spec_parse(more[words.len() as int]) == Some(c));
        }
        if cards_in_words(more).contains(c) {
            let j = choose|j: int| 0 <= j < more.len() && Card::spec_parse(#[trigger] more[j]) == Some(c);
            if j < words.len() {
                assert(words[j] == more[j]);
            }
        }
    }
    assert(cards_in_words(more) =~= cards_in_words(words).insert(card));
}

/// A set of cards to be ranked: a player's cards together with the board.
#[derive(Clone, Copy, Debug, PartialEq, Eq, Structural, Hash)]
pub struct Hand {
    cards: CardSet,
}

impl View for Hand {
    type V = Set<Card>;

    open spec fn view(&self) -> Set<Card> {
        self.spec_card_set()@
    }
}

impl Hand {
    /// The hand's cards as a set.
    pub closed spec fn spec_card_set(self) -> CardSet {
        self.cards
    }

    /// The hand without cards.
    pub fn new() -> (hand: Self)
        ensures
            hand@ == Set::<Card>::empty(),
            hand.spec_card_set().bits() == 0,
    {
        Self { cards: CardSet::new() }
    }

    /// The hand of the cards of a set.
    pub fn from_card_set(cards: CardSet) -> (hand: Self)
        ensures
            hand@ == cards@,
            hand.spec_card_set() == cards,
    {
        Self { cards }
    }

    /// The hand of the cards of a list.
    pub fn from_cards(cards: &[Card]) -> (hand: Self)
        ensures
            hand@ == cards@.to_set(),
            hand.spec_card_set().bits() == mask_of_cards(cards@),
    {
        Self { cards: CardSet::from_cards(cards) }
    }

    /// Adds a card to the hand.
    pub fn add(&mut self, card: Card)
        ensures
            final(self)@ == old(self)@.insert(card),
            final(self).spec_card_set().bits() == old(self).spec_card_set().bits() | card_bit(card),
    {
        self.cards.insert(card);
    }

    /// How many cards the hand holds.
    pub fn len(&self) -> (n: usize)
        ensures
            n == self@.len(),
            n <= 52,
    {
        self.cards.count() as usize
    }

    /// Whether the hand holds no card.
    pub fn is_empty(&self) -> (empty: bool)
        ensures
            empty == self@.is_empty(),
    {
        self.cards.is_empty()
    }

    /// Whether the hand holds a card.
    pub fn contains(&self, card: Card) -> (found: bool)
        ensures
            found == self@.contains(card),
    {
        self.cards.contains(card)
    }

    /// The hand's cards as a set.
    pub fn card_set(&self) -> (set: CardSet)
        ensures
            set == self.spec_card_set(),
            set@ == self@,
    {
        self.cards
    }

    /// The mask of the hand's cards.
    pub fn as_u64(&self) -> (bits: u64)
        ensures
            bits == self.spec_card_set().bits(),
    {
        self.cards.as_u64()
    }

    /// The hand together with the cards of a board.
    pub fn with_board(&self, board: &[Card]) -> (hand: Self)
        ensures
            hand@ == self@.union(board@.to_set()),
    {
        let mut combined = self.cards;
        let mut i: usize = 0;
        while i < board.len()
            invariant
                i <= board.len(),
                combined@ == self@.union(board@.take(i as int).to_set()),
            decreases board.len() - i,
        {
            combined.insert(board[i]);
            proof {
                assert(board@.take(i + 1) =~= board@.take(i as int).push(board@[i as int]));
                lemma_push_to_set(board@.take(i as int), board@[i as int]);
                assert(combined@ =~= self@.union(board@.take(i + 1).to_set()));
            }
            i += 1;
        }
        proof {
            assert(board@.take(i as int) =~= board@);
        }
        Self { cards: combined }
    }

    /// A cursor over the cards of the hand, lowest index first.
    pub fn iter(&self) -> (it: CardSetIter)
        ensures
            it@ == self@,
    {
        self.cards.iter()
    }

    /// Reads a hand: cards with white space between them. A text without
    /// a word, or with a word that is no card, gives nothing.
    pub fn parse(s: &str) -> (r: Option<Self>)
        ensures
            r is Some <==> spec_parse_hand(s@) is Some,
            r is Some ==> Some(r->Some_0@) == spec_parse_hand(s@),
    {
        let words = split_whitespace(s);
        if words.len() == 0 {
            return None;
        }
        let mut cards = CardSet::new();
        let mut i: usize = 0;
        while i < words.len()
            invariant
                i <= words.len(),
                texts_of(words@) == spec_words(s@),
                all_words_are_cards(spec_words(s@).take(i as int)),
                cards@ == cards_in_words(spec_words(s@).take(i as int)),
            decreases words.len() - i,
        {
            let ghost seen = spec_words(s@).take(i as int);
            let ghost word = words@[i as int]@;
            proof {
                assert(texts_of(words@)[i as int] == word);
                assert(spec_words(s@).take(i + 1) =~= seen.push(word));
            }
            match Card::parse(words[i]) {
                Some(card) => {
                    cards.insert(card);
                    proof {
                        lemma_one_more_word(seen, word, card);
                        assert forall|j: int| 0 <= j < i + 1 implies Card::spec_parse(
                            #[trigger] seen.push(word)[j],
                        ) is Some by {
                            if j < i {
                                assert(seen.push(word)[j] == seen[j]);
                            }
                        }
                    }
                },
                None => {
                    proof {
                        assert(spec_words(s@)[i as int] == word);
                    }
                    return None;
                },
            }
            i += 1;
        }
        proof {
            assert(spec_words(s@).take(i as int) =~= spec_words(s@));
            assert(cards_in_words(Seq::<Seq<char>>::empty()) =~= Set::<Card>::empty());
        }
        Some(Self { cards })
    }

    /// Writes the hand's cards in ascending order with spaces between them.
    pub fn to_string(&self) -> (s: String)
        ensures
            s@ == join_cards(self.spec_card_set().ordered()),
    {
        let cards = self.cards.to_vec();
        cards_to_string(&cards)
    }
}

impl std::str::FromStr for Hand {
    type Err = String;

    fn from_str(s: &str) -> (r: Result<Self, String>)
        ensures
            match r {
                Ok(hand) => Some(hand@) == spec_parse_hand(s@),
                Err(message) => spec_parse_hand(s@) is None && message@ == "Invalid hand format: '"@
                    + s@ + seq!['\''],
            },
    {
        match Self::parse(s) {
            Some(hand) => Ok(hand),
            None => Err(quoted_message("Invalid hand format: '", s)),
        }
    }
}

impl Default for Hand {
    fn default() -> (hand: Self)
        ensures
            hand@ == Set::<Card>::empty(),
    {
        Self::new()
    }
}

} // verus!

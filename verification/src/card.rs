//! Ranks, suits and cards, with the dense index that every bit mask is built on.

use vstd::prelude::*;

verus! {

/// The thirteen ranks, from the deuce up to the ace.
#[derive(PartialEq, Eq, Structural, PartialOrd, Ord, Clone, Copy, Debug, Hash)]
pub enum Value {
    Two,
    Three,
    Four,
    Five,
    Six,
    Seven,
    Eight,
    Nine,
    Ten,
    Jack,
    Queen,
    King,
    Ace,
}

/// The four suits. The declaration order is the order in which two cards of
/// one rank compare; the bit layout uses `slot` instead.
#[derive(PartialEq, Eq, Structural, PartialOrd, Ord, Clone, Copy, Debug, Hash)]
pub enum Suit {
    Hearts,
    Diamonds,
    Clubs,
    Spades,
}

/// The thirteen ranks in ascending order.
pub const VALUES: [Value; 13] = [
    Value::Two,
    Value::Three,
    Value::Four,
    Value::Five,
    Value::Six,
    Value::Seven,
    Value::Eight,
    Value::Nine,
    Value::Ten,
    Value::Jack,
    Value::Queen,
    Value::King,
    Value::Ace,
];

/// The four suits in the order of their slots.
pub const SUITS: [Suit; 4] = [Suit::Clubs, Suit::Diamonds, Suit::Hearts, Suit::Spades];

impl Value {
    /// Position of the rank among the thirteen, deuce first: `0..=12`.
    pub open spec fn ordinal(self) -> int {
        match self {
            Value::Two => 0,
            Value::Three => 1,
            Value::Four => 2,
            Value::Five => 3,
            Value::Six => 4,
            Value::Seven => 5,
            Value::Eight => 6,
            Value::Nine => 7,
            Value::Ten => 8,
            Value::Jack => 9,
            Value::Queen => 10,
            Value::King => 11,
            Value::Ace => 12,
        }
    }

    /// The rank at a position; positions past the ace give the ace.
    pub open spec fn of_ordinal(n: int) -> Value {
        if n <= 0 {
            Value::Two
        } else if n == 1 {
            Value::Three
        } else if n == 2 {
            Value::Four
        } else if n == 3 {
            Value::Five
        } else if n == 4 {
            Value::Six
        } else if n == 5 {
            Value::Seven
        } else if n == 6 {
            Value::Eight
        } else if n == 7 {
            Value::Nine
        } else if n == 8 {
            Value::Ten
        } else if n == 9 {
            Value::Jack
        } else if n == 10 {
            Value::Queen
        } else if n == 11 {
            Value::King
        } else {
            Value::Ace
        }
    }

    /// The character a rank is written with.
    pub open spec fn spec_to_char(self) -> char {
        match self {
            Value::Two => '2',
            Value::Three => '3',
            Value::Four => '4',
            Value::Five => '5',
            Value::Six => '6',
            Value::Seven => '7',
            Value::Eight => '8',
            Value::Nine => '9',
            Value::Ten => 'T',
            Value::Jack => 'J',
            Value::Queen => 'Q',
            Value::King => 'K',
            Value::Ace => 'A',
        }
    }

    /// The rank a character stands for, in either case of a letter.
    pub open spec fn spec_from_char(c: char) -> Option<Value> {
        if c == '2' {
            Some(Value::Two)
        } else if c == '3' {
            Some(Value::Three)
        } else if c == '4' {
            Some(Value::Four)
        } else if c == '5' {
            Some(Value::Five)
        } else if c == '6' {
            Some(Value::Six)
        } else if c == '7' {
            Some(Value::Seven)
        } else if c == '8' {
            Some(Value::Eight)
        } else if c == '9' {
            Some(Value::Nine)
        } else if c == 'T' || c == 't' {
            Some(Value::Ten)
        } else if c == 'J' || c == 'j' {
            Some(Value::Jack)
        } else if c == 'Q' || c == 'q' {
            Some(Value::Queen)
        } else if c == 'K' || c == 'k' {
            Some(Value::King)
        } else if c == 'A' || c == 'a' {
            Some(Value::Ace)
        } else {
            None
        }
    }

    /// Reads a rank from its character.
    pub fn from_char(c: char) -> (r: Option<Self>)
        ensures
            r == Self::spec_from_char(c),
    {
        match Value::try_from(c) {
            Ok(v) => Some(v),
            Err(_) => None,
        }
    }

    /// The character a rank is written with.
    pub fn to_char(self) -> (c: char)
        ensures
            c == self.spec_to_char(),
    {
        char::from(self)
    }

    /// The thirteen ranks in ascending order.
    pub fn all_values() -> (r: &'static [Value])
        ensures
            r@.len() == 13,
            forall|i: int| 0 <= i < 13 ==> #[trigger] r@[i] == Value::of_ordinal(i),
    {
        &VALUES
    }

    /// The rank's position as a machine integer.
    pub fn rank(self) -> (r: u8)
        ensures
            r == self.ordinal(),
    {
        match self {
            Value::Two => 0,
            Value::Three => 1,
            Value::Four => 2,
            Value::Five => 3,
            Value::Six => 4,
            Value::Seven => 5,
            Value::Eight => 6,
            Value::Nine => 7,
            Value::Ten => 8,
            Value::Jack => 9,
            Value::Queen => 10,
            Value::King => 11,
            Value::Ace => 12,
        }
    }
}

impl TryFrom<char> for Value {
    type Error = ();

    fn try_from(c: char) -> (r: Result<Self, ()>) {
        match c {
            '2' => Ok(Value::Two),
            '3' => Ok(Value::Three),
            '4' => Ok(Value::Four),
            '5' => Ok(Value::Five),
            '6' => Ok(Value::Six),
            '7' => Ok(Value::Seven),
            '8' => Ok(Value::Eight),
            '9' => Ok(Value::Nine),
            'T' | 't' => Ok(Value::Ten),
            'J' | 'j' => Ok(Value::Jack),
            'Q' | 'q' => Ok(Value::Queen),
            'K' | 'k' => Ok(Value::King),
            'A' | 'a' => Ok(Value::Ace),
            _ => Err(()),
        }
    }
}

impl vstd::std_specs::convert::TryFromSpecImpl<char> for Value {
    open spec fn obeys_try_from_spec() -> bool {
        true
    }

    open spec fn try_from_spec(c: char) -> Result<Self, ()> {
        match Value::spec_from_char(c) {
            Some(v) => Ok(v),
            None => Err(()),
        }
    }
}

impl From<Value> for u8 {
    fn from(value: Value) -> (r: u8) {
        match value {
            Value::Two => 2,
            Value::Three => 3,
            Value::Four => 4,
            Value::Five => 5,
            Value::Six => 6,
            Value::Seven => 7,
            Value::Eight => 8,
            Value::Nine => 9,
            Value::Ten => 10,
            Value::Jack => 11,
            Value::Queen => 12,
            Value::King => 13,
            Value::Ace => 14,
        }
    }
}

impl vstd::std_specs::convert::FromSpecImpl<Value> for u8 {
    open spec fn obeys_from_spec() -> bool {
        true
    }

    open spec fn from_spec(value: Value) -> u8 {
        (value.ordinal() + 2) as u8
    }
}

impl From<Value> for char {
    fn from(value: Value) -> (c: char) {
        match value {
            Value::Two => '2',
            Value::Three => '3',
            Value::Four => '4',
            Value::Five => '5',
            Value::Six => '6',
            Value::Seven => '7',
            Value::Eight => '8',
            Value::Nine => '9',
            Value::Ten => 'T',
            Value::Jack => 'J',
            Value::Queen => 'Q',
            Value::King => 'K',
            Value::Ace => 'A',
        }
    }
}

impl vstd::std_specs::convert::FromSpecImpl<Value> for char {
    open spec fn obeys_from_spec() -> bool {
        true
    }

    open spec fn from_spec(value: Value) -> char {
        value.spec_to_char()
    }
}

impl Suit {
    /// Position of the suit inside a rank's group of four bits.
    pub open spec fn slot(self) -> int {
        match self {
            Suit::Clubs => 0,
            Suit::Diamonds => 1,
            Suit::Hearts => 2,
            Suit::Spades => 3,
        }
    }

    /// The suit at a slot; slots past the last give spades.
    pub open spec fn of_slot(n: int) -> Suit {
        if n <= 0 {
            Suit::Clubs
        } else if n == 1 {
            Suit::Diamonds
        } else if n == 2 {
            Suit::Hearts
        } else {
            Suit::Spades
        }
    }

    /// Position of the suit in the order in which suits compare.
    pub open spec fn order(self) -> int {
        match self {
            Suit::Hearts => 0,
            Suit::Diamonds => 1,
            Suit::Clubs => 2,
            Suit::Spades => 3,
        }
    }

    /// The character a suit is written with.
    pub open spec fn spec_to_char(self) -> char {
        match self {
            Suit::Hearts => 'h',
            Suit::Diamonds => 'd',
            Suit::Clubs => 'c',
            Suit::Spades => 's',
        }
    }

    /// The suit a lower-case letter stands for.
    pub open spec fn spec_from_char(c: char) -> Option<Suit> {
        if c == 'h' {
            Some(Suit::Hearts)
        } else if c == 'd' {
            Some(Suit::Diamonds)
        } else if c == 'c' {
            Some(Suit::Clubs)
        } else if c == 's' {
            Some(Suit::Spades)
        } else {
            None
        }
    }

    /// Reads a suit from its character.
    pub fn from_char(c: char) -> (r: Option<Self>)
        ensures
            r == Self::spec_from_char(c),
    {
        match Suit::try_from(c) {
            Ok(s) => Some(s),
            Err(_) => None,
        }
    }

    /// The character a suit is written with.
    pub fn to_char(self) -> (c: char)
        ensures
            c == self.spec_to_char(),
    {
        char::from(self)
    }

    /// The suit's slot as a machine integer.
    pub fn slot_index(self) -> (r: u8)
        ensures
            r == self.slot(),
    {
        match self {
            Suit::Clubs => 0,
            Suit::Diamonds => 1,
            Suit::Hearts => 2,
            Suit::Spades => 3,
        }
    }

    /// The suit's place in the comparison order as a machine integer.
    pub fn order_index(self) -> (r: u8)
        ensures
            r == self.order(),
    {
        match self {
            Suit::Hearts => 0,
            Suit::Diamonds => 1,
            Suit::Clubs => 2,
            Suit::Spades => 3,
        }
    }
}

impl TryFrom<char> for Suit {
    type Error = ();

    fn try_from(c: char) -> (r: Result<Self, ()>) {
        match c {
            'h' => Ok(Suit::Hearts),
            'd' => Ok(Suit::Diamonds),
            'c' => Ok(Suit::Clubs),
            's' => Ok(Suit::Spades),
            _ => Err(()),
        }
    }
}

impl vstd::std_specs::convert::TryFromSpecImpl<char> for Suit {
    open spec fn obeys_try_from_spec() -> bool {
        true
    }

    open spec fn try_from_spec(c: char) -> Result<Self, ()> {
        match Suit::spec_from_char(c) {
            Some(s) => Ok(s),
            None => Err(()),
        }
    }
}

impl From<Suit> for char {
    fn from(suit: Suit) -> (c: char) {
        match suit {
            Suit::Hearts => 'h',
            Suit::Diamonds => 'd',
            Suit::Clubs => 'c',
            Suit::Spades => 's',
        }
    }
}

impl vstd::std_specs::convert::FromSpecImpl<Suit> for char {
    open spec fn obeys_from_spec() -> bool {
        true
    }

    open spec fn from_spec(suit: Suit) -> char {
        suit.spec_to_char()
    }
}

/// One of the fifty-two cards.
#[derive(PartialEq, Eq, Structural, PartialOrd, Ord, Clone, Copy, Debug, Hash)]
pub struct Card {
    pub value: Value,
    pub suit: Suit,
}

impl Card {
    /// The card's dense index: four consecutive indices per rank, deuces
    /// first, the suits of a rank in slot order.
    pub open spec fn spec_index(self) -> int {
        self.value.ordinal() * 4 + self.suit.slot()
    }

    /// The card at a dense index.
    pub open spec fn of_index(i: int) -> Card {
        Card { value: Value::of_ordinal(i / 4), suit: Suit::of_slot(i % 4) }
    }

    /// A number that orders cards by rank first and then by suit, the way
    /// two cards compare.
    pub open spec fn order_key(self) -> int {
        self.value.ordinal() * 4 + self.suit.order()
    }

    /// The two characters a card is written with: rank, then suit.
    pub open spec fn text(self) -> Seq<char> {
        seq![self.value.spec_to_char(), self.suit.spec_to_char()]
    }

    /// The card that a text denotes: exactly two characters, a rank and a suit.
    pub open spec fn spec_parse(s: Seq<char>) -> Option<Card> {
        if s.len() == 2 && Value::spec_from_char(s[0]) is Some && Suit::spec_from_char(s[1]) is Some {
            Some(
                Card {
                    value: Value::spec_from_char(s[0])->Some_0,
                    suit: Suit::spec_from_char(s[1])->Some_0,
                },
            )
        } else {
            None
        }
    }

    /// The card of a rank and a suit.
    pub fn new(value: Value, suit: Suit) -> (card: Self)
        ensures
            card == (Card { value, suit }),
    {
        Self { value, suit }
    }

    /// The card's dense index, below fifty-two.
    pub fn index(&self) -> (i: u8)
        ensures
            i == self.spec_index(),
            i < 52,
    {
        self.value.rank() * 4 + self.suit.slot_index()
    }

    /// The card at a dense index, if the index is below fifty-two.
    pub fn from_index(index: u8) -> (r: Option<Self>)
        ensures
            index < 52 ==> r == Some(Card::of_index(index as int)),
            index >= 52 ==> r is None,
    {
        if index >= 52 {
            return None;
        }
        let value = VALUES[(index / 4) as usize];
        let suit = SUITS[(index % 4) as usize];
        Some(Self { value, suit })
    }

    /// The key by which two cards compare, as a machine integer.
    pub fn sort_key(&self) -> (k: u8)
        ensures
            k == self.order_key(),
            k < 52,
    {
        self.value.rank() * 4 + self.suit.order_index()
    }

    /// Reads a card from its two-character text.
    pub fn parse(s: &str) -> (r: Option<Self>)
        ensures
            r == Card::spec_parse(s@),
    {
        if s.unicode_len() != 2 {
            return None;
        }
        let value = match Value::from_char(s.get_char(0)) {
            Some(v) => v,
            None => { return None; },
        };
        let suit = match Suit::from_char(s.get_char(1)) {
            Some(s) => s,
            None => { return None; },
        };
        Some(Self { value, suit })
    }

    /// Writes the card as its two-character text.
    pub fn to_string(&self) -> (s: String)
        ensures
            s@ == self.text(),
    {
        let mut s = String::from_str(value_str(self.value));
        s.append(suit_str(self.suit));
        assert(s@ =~= self.text());
        s
    }
}

/// The one-character text of a rank.
pub fn value_str(value: Value) -> (s: &'static str)
    ensures
        s@ == seq![value.spec_to_char()],
{
    proof {
        reveal_strlit("2");
        reveal_strlit("3");
        reveal_strlit("4");
        reveal_strlit("5");
        reveal_strlit("6");
        reveal_strlit("7");
        reveal_strlit("8");
        reveal_strlit("9");
        reveal_strlit("T");
        reveal_strlit("J");
        reveal_strlit("Q");
        reveal_strlit("K");
        reveal_strlit("A");
    }
    let s = match value {
        Value::Two => "2",
        Value::Three => "3",
        Value::Four => "4",
        Value::Five => "5",
        Value::Six => "6",
        Value::Seven => "7",
        Value::Eight => "8",
        Value::Nine => "9",
        Value::Ten => "T",
        Value::Jack => "J",
        Value::Queen => "Q",
        Value::King => "K",
        Value::Ace => "A",
    };
    assert(s@ =~= seq![value.spec_to_char()]);
    s
}

/// The one-character text of a suit.
pub fn suit_str(suit: Suit) -> (s: &'static str)
    ensures
        s@ == seq![suit.spec_to_char()],
{
    proof {
        reveal_strlit("h");
        reveal_strlit("d");
        reveal_strlit("c");
        reveal_strlit("s");
    }
    let s = match suit {
        Suit::Hearts => "h",
        Suit::Diamonds => "d",
        Suit::Clubs => "c",
        Suit::Spades => "s",
    };
    assert(s@ =~= seq![suit.spec_to_char()]);
    s
}

impl<'a> TryFrom<&'a str> for Card {
    type Error = ();

    fn try_from(s: &'a str) -> (r: Result<Self, ()>) {
        match Card::parse(s) {
            Some(card) => Ok(card),
            None => Err(()),
        }
    }
}

impl<'a> vstd::std_specs::convert::TryFromSpecImpl<&'a str> for Card {
    open spec fn obeys_try_from_spec() -> bool {
        true
    }

    open spec fn try_from_spec(s: &'a str) -> Result<Self, ()> {
        match Card::spec_parse(s@) {
            Some(card) => Ok(card),
            None => Err(()),
        }
    }
}

/// Every index below fifty-two names a card, and that card has this index.
pub proof fn lemma_index_of_index(i: int)
    requires
        0 <= i < 52,
    ensures
        Card::of_index(i).spec_index() == i,
{
}

/// Every card has an index below fifty-two, and the card at that index is
/// the card itself: cards and indices correspond one to one.
pub proof fn lemma_of_index_index(card: Card)
    ensures
        0 <= card.spec_index() < 52,
        Card::of_index(card.spec_index()) == card,
{
}

/// Two cards with the same comparison key are the same card.
pub proof fn lemma_order_key_injective(a: Card, b: Card)
    requires
        a.order_key() == b.order_key(),
    ensures
        a == b,
{
}

/// Writing a card and reading the text back gives the same card.
pub proof fn lemma_parse_text(card: Card)
    ensures
        Card::spec_parse(card.text()) == Some(card),
{
}

} // verus!

//! Ranges of starting hands: a compact text grammar, and its expansion into
//! concrete two-card combinations.

use vstd::prelude::*;
use crate::card::{lemma_of_index_index, value_str, Card, Suit, Value};
use crate::card_set::CardSet;
use crate::hand::HoleCards;
use crate::trusted::push_char;
use crate::text::{decimal, push_decimal, spec_split, spec_trim, split, texts_of, trim};

verus! {

/// One token of a range: a shape of starting hand.
#[derive(Clone, Copy, Debug, PartialEq, Eq, Structural, Hash)]
pub enum HandPattern {
    /// A pair of one rank.
    Pair(Value),
    /// The pairs of a rank and of every higher rank.
    PairPlus(Value),
    /// Two ranks in one suit.
    Suited(Value, Value),
    /// Suited, with the low rank anywhere from the given one up to just
    /// below the high rank.
    SuitedPlus(Value, Value),
    /// Two ranks in two suits.
    Offsuit(Value, Value),
    /// Offsuit, with the low rank anywhere from the given one up to just
    /// below the high rank.
    OffsuitPlus(Value, Value),
    /// Two ranks, suited or not.
    Any(Value, Value),
    /// Two ranks, suited or not, with the low rank anywhere from the given
    /// one up to just below the high rank.
    AnyPlus(Value, Value),
}

/// Why a token is no pattern.
#[derive(Debug, Clone, PartialEq)]
pub enum RangeParseError {
    /// The token has the wrong length; it is carried along.
    InvalidFormat(String),
    /// A character that should be a rank is none.
    InvalidValue(char),
    /// The third character is neither `s` nor `o`.
    InvalidSuitMarker(char),
}

/// Why a token is no pattern, with the token as plain text.
pub enum ParseFailure {
    Format(Seq<char>),
    Value(char),
    Marker(char),
}

impl View for RangeParseError {
    type V = ParseFailure;

    open spec fn view(&self) -> ParseFailure {
        match self {
            RangeParseError::InvalidFormat(token) => ParseFailure::Format(token@),
            RangeParseError::InvalidValue(c) => ParseFailure::Value(*c),
            RangeParseError::InvalidSuitMarker(c) => ParseFailure::Marker(*c),
        }
    }
}

/// Which pairs of suits a shape of hand takes: the first suit standing
/// before the second in the order of expansion, the same suit twice, or two
/// different suits.
#[derive(Clone, Copy, Debug, PartialEq, Eq, Structural)]
pub enum SuitRule {
    Ascending,
    Same,
    Different,
}

/// The suits in the order in which combinations are generated.
pub open spec fn suit_at(i: int) -> Suit {
    if i <= 0 {
        Suit::Spades
    } else if i == 1 {
        Suit::Hearts
    } else if i == 2 {
        Suit::Diamonds
    } else {
        Suit::Clubs
    }
}

/// Whether a rule takes the pair of suits at places `i` and `j`.
pub open spec fn rule_takes(rule: SuitRule, i: int, j: int) -> bool {
    match rule {
        SuitRule::Ascending => i < j,
        SuitRule::Same => i == j,
        SuitRule::Different => i != j,
    }
}

/// The combinations of a card of rank `high` with a card of rank `low`,
/// taken from the first `n` of the sixteen pairs of suits, row by row: those
/// that the rule takes and of which neither card is dead.
pub open spec fn grid_combos(
    high: Value,
    low: Value,
    rule: SuitRule,
    dead: Set<Card>,
    n: int,
) -> Seq<HoleCards>
    decreases n,
{
    if n <= 0 {
        Seq::empty()
    } else {
        let i = (n - 1) / 4;
        let j = (n - 1) % 4;
        let card1 = Card { value: high, suit: suit_at(i) };
        let card2 = Card { value: low, suit: suit_at(j) };
        let rest = grid_combos(high, low, rule, dead, n - 1);
        if rule_takes(rule, i, j) && !dead.contains(card1) && !dead.contains(card2) {
            rest.push(HoleCards::spec_new(card1, card2))
        } else {
            rest
        }
    }
}

/// The pairs of one rank: six where no card is dead.
pub open spec fn pair_combos(value: Value, dead: Set<Card>) -> Seq<HoleCards> {
    grid_combos(value, value, SuitRule::Ascending, dead, 16)
}

/// Two ranks in one suit: four where no card is dead.
pub open spec fn suited_combos(high: Value, low: Value, dead: Set<Card>) -> Seq<HoleCards> {
    grid_combos(high, low, SuitRule::Same, dead, 16)
}

/// Two ranks in two suits: twelve where no card is dead.
pub open spec fn offsuit_combos(high: Value, low: Value, dead: Set<Card>) -> Seq<HoleCards> {
    grid_combos(high, low, SuitRule::Different, dead, 16)
}

/// The pairs of every rank below position `n` that is at least `value`,
/// lower ranks first.
pub open spec fn pair_plus_combos(value: Value, dead: Set<Card>, n: int) -> Seq<HoleCards>
    decreases n,
{
    if n <= 0 {
        Seq::empty()
    } else {
        let rest = pair_plus_combos(value, dead, n - 1);
        if n - 1 >= value.ordinal() {
            rest + pair_combos(Value::of_ordinal(n - 1), dead)
        } else {
            rest
        }
    }
}

/// The combinations of `high` with every low rank below position `n` that
/// lies from `low` up to just below `high`, lower ranks first; `suited` and
/// `offsuit` say which of the two kinds are taken, the suited ones first.
pub open spec fn plus_combos(
    high: Value,
    low: Value,
    suited: bool,
    offsuit: bool,
    dead: Set<Card>,
    n: int,
) -> Seq<HoleCards>
    decreases n,
{
    if n <= 0 {
        Seq::empty()
    } else {
        let rest = plus_combos(high, low, suited, offsuit, dead, n - 1);
        if low.ordinal() <= n - 1 < high.ordinal() {
            rest + both_combos(high, Value::of_ordinal(n - 1), suited, offsuit, dead)
        } else {
            rest
        }
    }
}

/// The suited combinations of two ranks, the offsuit ones, or the suited
/// followed by the offsuit ones.
pub open spec fn both_combos(
    high: Value,
    low: Value,
    suited: bool,
    offsuit: bool,
    dead: Set<Card>,
) -> Seq<HoleCards> {
    (if suited {
        suited_combos(high, low, dead)
    } else {
        Seq::empty()
    }) + (if offsuit {
        offsuit_combos(high, low, dead)
    } else {
        Seq::empty()
    })
}

/// The combinations that a pattern stands for, without those that hold a
/// dead card.
pub open spec fn pattern_combos(pattern: HandPattern, dead: Set<Card>) -> Seq<HoleCards> {
    match pattern {
        HandPattern::Pair(v) => pair_combos(v, dead),
        HandPattern::PairPlus(v) => pair_plus_combos(v, dead, 13),
        HandPattern::Suited(h, l) => suited_combos(h, l, dead),
        HandPattern::SuitedPlus(h, l) => plus_combos(h, l, true, false, dead, 13),
        HandPattern::Offsuit(h, l) => offsuit_combos(h, l, dead),
        HandPattern::OffsuitPlus(h, l) => plus_combos(h, l, false, true, dead, 13),
        HandPattern::Any(h, l) => both_combos(h, l, true, true, dead),
        HandPattern::AnyPlus(h, l) => plus_combos(h, l, true, true, dead, 13),
    }
}

/// The pattern that a token denotes, or why it denotes none. The token is
/// trimmed; a `+` at its end is taken off; what is left must have two or
/// three characters, of which the first two are ranks, in either order.
/// Two equal ranks are a pair, and nothing may follow them. After two
/// different ranks a third character must be `s` or `o`.
pub open spec fn spec_parse_pattern(s: Seq<char>) -> Result<HandPattern, ParseFailure> {
    let token = spec_trim(s);
    let plus = token.len() > 0 && token.last() == '+';
    let base = if plus {
        token.drop_last()
    } else {
        token
    };
    if base.len() < 2 || base.len() > 3 {
        Err(ParseFailure::Format(token))
    } else if Value::spec_from_char(base[0]) is None {
        Err(ParseFailure::Value(base[0]))
    } else if Value::spec_from_char(base[1]) is None {
        Err(ParseFailure::Value(base[1]))
    } else {
        let v1 = Value::spec_from_char(base[0])->Some_0;
        let v2 = Value::spec_from_char(base[1])->Some_0;
        let high = if v1.ordinal() >= v2.ordinal() {
            v1
        } else {
            v2
        };
        let low = if v1.ordinal() >= v2.ordinal() {
            v2
        } else {
            v1
        };
        if high == low {
            if base.len() == 3 {
                Err(ParseFailure::Marker(base[2]))
            } else {
                Ok(
                    if plus {
                        HandPattern::PairPlus(high)
                    } else {
                        HandPattern::Pair(high)
                    },
                )
            }
        } else if base.len() == 3 {
            if base[2] == 's' {
                Ok(
                    if plus {
                        HandPattern::SuitedPlus(high, low)
                    } else {
                        HandPattern::Suited(high, low)
                    },
                )
            } else if base[2] == 'o' {
                Ok(
                    if plus {
                        HandPattern::OffsuitPlus(high, low)
                    } else {
                        HandPattern::Offsuit(high, low)
                    },
                )
            } else {
                Err(ParseFailure::Marker(base[2]))
            }
        } else {
            Ok(
                if plus {
                    HandPattern::AnyPlus(high, low)
                } else {
                    HandPattern::Any(high, low)
                },
            )
        }
    }
}

/// The suit at a place of the order of expansion.
fn suit_in_turn(i: u8) -> (suit: Suit)
    ensures
        suit == suit_at(i as int),
{
    if i == 0 {
        Suit::Spades
    } else if i == 1 {
        Suit::Hearts
    } else if i == 2 {
        Suit::Diamonds
    } else {
        Suit::Clubs
    }
}

/// Generates the combinations of two ranks over the sixteen pairs of suits.
fn expand_grid(high: Value, low: Value, rule: SuitRule, dead_cards: &CardSet) -> (combos: Vec<
    HoleCards,
>)
    ensures
        combos@ == grid_combos(high, low, rule, dead_cards@, 16),
{
    let mut combos: Vec<HoleCards> = Vec::new();
    let mut n: u8 = 0;
    while n < 16
        invariant
            n <= 16,
            combos@ == grid_combos(high, low, rule, dead_cards@, n as int),
        decreases 16 - n,
    {
        let i = n / 4;
        let j = n % 4;
        let taken = match rule {
            SuitRule::Ascending => i < j,
            SuitRule::Same => i == j,
            SuitRule::Different => i != j,
        };
        if taken {
            let card1 = Card::new(high, suit_in_turn(i));
            let card2 = Card::new(low, suit_in_turn(j));
            if !dead_cards.contains(card1) && !dead_cards.contains(card2) {
                combos.push(HoleCards::new(card1, card2));
            }
        }
        n += 1;
    }
    combos
}

/// The pairs of one rank that hold no dead card.
pub fn generate_pair_combos(value: Value, dead_cards: &CardSet) -> (combos: Vec<HoleCards>)
    ensures
        combos@ == pair_combos(value, dead_cards@),
{
    expand_grid(value, value, SuitRule::Ascending, dead_cards)
}

/// The suited combinations of two ranks that hold no dead card.
pub fn generate_suited_combos(high: Value, low: Value, dead_cards: &CardSet) -> (combos: Vec<
    HoleCards,
>)
    ensures
        combos@ == suited_combos(high, low, dead_cards@),
{
    expand_grid(high, low, SuitRule::Same, dead_cards)
}

/// The offsuit combinations of two ranks that hold no dead card.
pub fn generate_offsuit_combos(high: Value, low: Value, dead_cards: &CardSet) -> (combos: Vec<
    HoleCards,
>)
    ensures
        combos@ == offsuit_combos(high, low, dead_cards@),
{
    expand_grid(high, low, SuitRule::Different, dead_cards)
}

/// The suited combinations of two ranks, the offsuit ones, or both.
fn generate_both(high: Value, low: Value, suited: bool, offsuit: bool, dead_cards: &CardSet) -> (combos:
    Vec<HoleCards>)
    ensures
        combos@ == both_combos(high, low, suited, offsuit, dead_cards@),
{
    let mut combos: Vec<HoleCards> = Vec::new();
    if suited {
        let mut more = generate_suited_combos(high, low, dead_cards);
        combos.append(&mut more);
    }
    if offsuit {
        let mut more = generate_offsuit_combos(high, low, dead_cards);
        combos.append(&mut more);
    }
    proof {
        assert(combos@ =~= both_combos(high, low, suited, offsuit, dead_cards@));
    }
    combos
}

/// The combinations of a high rank with each low rank from `low` up to just
/// below it.
fn generate_plus(high: Value, low: Value, suited: bool, offsuit: bool, dead_cards: &CardSet) -> (combos:
    Vec<HoleCards>)
    ensures
        combos@ == plus_combos(high, low, suited, offsuit, dead_cards@, 13),
{
    let values = Value::all_values();
    let mut combos: Vec<HoleCards> = Vec::new();
    let mut n: usize = 0;
    while n < 13
        invariant
            n <= 13,
            values@.len() == 13,
            forall|i: int| 0 <= i < 13 ==> #[trigger] values@[i] == Value::of_ordinal(i),
            combos@ == plus_combos(high, low, suited, offsuit, dead_cards@, n as int),
        decreases 13 - n,
    {
        let low_val = values[n];
        if low_val.rank() >= low.rank() && low_val.rank() < high.rank() {
            let mut more = generate_both(high, low_val, suited, offsuit, dead_cards);
            combos.append(&mut more);
        }
        n += 1;
    }
    combos
}

impl HandPattern {
    /// The text a pattern is written with.
    pub open spec fn text(self) -> Seq<char> {
        match self {
            HandPattern::Pair(v) => seq![v.spec_to_char(), v.spec_to_char()],
            HandPattern::PairPlus(v) => seq![v.spec_to_char(), v.spec_to_char(), '+'],
            HandPattern::Suited(h, l) => seq![h.spec_to_char(), l.spec_to_char(), 's'],
            HandPattern::SuitedPlus(h, l) => seq![h.spec_to_char(), l.spec_to_char(), 's', '+'],
            HandPattern::Offsuit(h, l) => seq![h.spec_to_char(), l.spec_to_char(), 'o'],
            HandPattern::OffsuitPlus(h, l) => seq![h.spec_to_char(), l.spec_to_char(), 'o', '+'],
            HandPattern::Any(h, l) => seq![h.spec_to_char(), l.spec_to_char()],
            HandPattern::AnyPlus(h, l) => seq![h.spec_to_char(), l.spec_to_char(), '+'],
        }
    }

    /// Reads one token of a range.
    pub fn parse(s: &str) -> (r: Result<Self, RangeParseError>)
        ensures
            match r {
                Ok(pattern) => spec_parse_pattern(s@) == Ok::<HandPattern, ParseFailure>(pattern),
                Err(e) => spec_parse_pattern(s@) == Err::<HandPattern, ParseFailure>(e@),
            },
    {
        let token = trim(s);
        let n = token.unicode_len();
        let is_plus = n > 0 && token.get_char(n - 1) == '+';
        let base = if is_plus {
            token.substring_char(0, n - 1)
        } else {
            token
        };
        proof {
            if !is_plus {
                assert(base@ =~= token@);
            }
        }
        let len = base.unicode_len();
        if len < 2 || len > 3 {
            return Err(RangeParseError::InvalidFormat(String::from_str(token)));
        }
        let c0 = base.get_char(0);
        let c1 = base.get_char(1);
        let v1 = match Value::from_char(c0) {
            Some(v) => v,
            None => { return Err(RangeParseError::InvalidValue(c0)); },
        };
        let v2 = match Value::from_char(c1) {
            Some(v) => v,
            None => { return Err(RangeParseError::InvalidValue(c1)); },
        };
        let (high, low) = if v1.rank() >= v2.rank() {
            (v1, v2)
        } else {
            (v2, v1)
        };
        if high == low {
            if len == 3 {
                return Err(RangeParseError::InvalidSuitMarker(base.get_char(2)));
            }
            return Ok(
                if is_plus {
                    HandPattern::PairPlus(high)
                } else {
                    HandPattern::Pair(high)
                },
            );
        }
        if len == 3 {
            let marker = base.get_char(2);
            if marker == 's' {
                Ok(
                    if is_plus {
                        HandPattern::SuitedPlus(high, low)
                    } else {
                        HandPattern::Suited(high, low)
                    },
                )
            } else if marker == 'o' {
                Ok(
                    if is_plus {
                        HandPattern::OffsuitPlus(high, low)
                    } else {
                        HandPattern::Offsuit(high, low)
                    },
                )
            } else {
                Err(RangeParseError::InvalidSuitMarker(marker))
            }
        } else {
            Ok(
                if is_plus {
                    HandPattern::AnyPlus(high, low)
                } else {
                    HandPattern::Any(high, low)
                },
            )
        }
    }

    /// The combinations a pattern stands for, without those that hold a dead card.
    pub fn to_hole_cards(&self, dead_cards: &CardSet) -> (combos: Vec<HoleCards>)
        ensures
            combos@ == pattern_combos(*self, dead_cards@),
    {
        match self {
            HandPattern::Pair(v) => generate_pair_combos(*v, dead_cards),
            HandPattern::PairPlus(v) => {
                let values = Value::all_values();
                let mut combos: Vec<HoleCards> = Vec::new();
                let mut n: usize = 0;
                while n < 13
                    invariant
                        n <= 13,
                        values@.len() == 13,
                        forall|i: int| 0 <= i < 13 ==> #[trigger] values@[i] == Value::of_ordinal(i),
                        combos@ == pair_plus_combos(*v, dead_cards@, n as int),
                    decreases 13 - n,
                {
                    let val = values[n];
                    if val.rank() >= v.rank() {
                        let mut more = generate_pair_combos(val, dead_cards);
                        combos.append(&mut more);
                    }
                    n += 1;
                }
                combos
            },
            HandPattern::Suited(h, l) => generate_suited_combos(*h, *l, dead_cards),
            HandPattern::SuitedPlus(h, l) => generate_plus(*h, *l, true, false, dead_cards),
            HandPattern::Offsuit(h, l) => generate_offsuit_combos(*h, *l, dead_cards),
            HandPattern::OffsuitPlus(h, l) => generate_plus(*h, *l, false, true, dead_cards),
            HandPattern::Any(h, l) => generate_both(*h, *l, true, true, dead_cards),
            HandPattern::AnyPlus(h, l) => generate_plus(*h, *l, true, true, dead_cards),
        }
    }
}


/// A list of patterns with one more, unless the list holds it already.
pub open spec fn add_new(patterns: Seq<HandPattern>, pattern: HandPattern) -> Seq<HandPattern> {
    if patterns.contains(pattern) {
        patterns
    } else {
        patterns.push(pattern)
    }
}

/// The patterns of the first `n` pieces of a range, in the order in which
/// they first occur, or the failure of the first piece that is no pattern.
/// Pieces that are empty once trimmed count for nothing.
pub open spec fn parse_pieces(pieces: Seq<Seq<char>>, n: int) -> Result<Seq<HandPattern>, ParseFailure>
    decreases n,
{
    if n <= 0 {
        Ok(Seq::empty())
    } else {
        match parse_pieces(pieces, n - 1) {
            Err(e) => Err(e),
            Ok(patterns) => {
                let token = spec_trim(pieces[n - 1]);
                if token.len() == 0 {
                    Ok(patterns)
                } else {
                    match spec_parse_pattern(token) {
                        Err(e) => Err(e),
                        Ok(pattern) => Ok(add_new(patterns, pattern)),
                    }
                }
            },
        }
    }
}

/// The patterns that a text of tokens between commas denotes.
pub open spec fn spec_parse_range(s: Seq<char>) -> Result<Seq<HandPattern>, ParseFailure> {
    parse_pieces(spec_split(s, ','), spec_split(s, ',').len() as int)
}

/// The cards that are dead, where any are.
pub open spec fn dead_set(dead_cards: Option<CardSet>) -> Set<Card> {
    match dead_cards {
        Some(dead) => dead@,
        None => Set::empty(),
    }
}

/// The number by which combinations are ordered: first by the index of the
/// high card, then by that of the low card.
pub open spec fn combo_key(combo: HoleCards) -> int {
    combo.spec_high().spec_index() * 52 + combo.spec_low().spec_index()
}

/// Whether a list of combinations ascends strictly in the order of its keys.
pub open spec fn ascending(combos: Seq<HoleCards>) -> bool {
    forall|i: int, j: int|
        0 <= i < j < combos.len() ==> combo_key(#[trigger] combos[i]) < combo_key(#[trigger] combos[j])
}

/// Whether some pattern of a list stands for a combination.
pub open spec fn range_holds(patterns: Seq<HandPattern>, dead: Set<Card>, combo: HoleCards) -> bool {
    exists|i: int|
        0 <= i < patterns.len() && pattern_combos(#[trigger] patterns[i], dead).contains(combo)
}

/// Whether a list holds the combinations of some patterns, each once, in
/// ascending order.
pub open spec fn lists_range(combos: Seq<HoleCards>, patterns: Seq<HandPattern>, dead: Set<Card>) -> bool {
    &&& ascending(combos)
    &&& forall|x: HoleCards| #[trigger] combos.contains(x) <==> range_holds(patterns, dead, x)
}

/// The combinations that some patterns stand for, without those that hold
/// a dead card: each once, in ascending order of the high card's index and
/// then of the low card's.
pub open spec fn spec_hole_cards(patterns: Seq<HandPattern>, dead: Set<Card>) -> Seq<HoleCards> {
    choose|combos: Seq<HoleCards>| lists_range(combos, patterns, dead)
}

/// There is one list of the combinations of a range, and no other.
pub proof fn lemma_one_listing(
    a: Seq<HoleCards>,
    b: Seq<HoleCards>,
    patterns: Seq<HandPattern>,
    dead: Set<Card>,
)
    requires
        lists_range(a, patterns, dead),
        lists_range(b, patterns, dead),
    ensures
        a == b,
        a == spec_hole_cards(patterns, dead),
{
    lemma_same_elements(a, b);
    let c = spec_hole_cards(patterns, dead);
    assert(lists_range(c, patterns, dead));
    assert forall|x: HoleCards| a.contains(x) <==> c.contains(x) by {
        assert(a.contains(x) <==> range_holds(patterns, dead, x));
        assert(c.contains(x) <==> range_holds(patterns, dead, x));
    }
    lemma_same_elements(a, c);
}

/// Two strictly ascending lists with the same elements are the same list.
pub proof fn lemma_same_elements(a: Seq<HoleCards>, b: Seq<HoleCards>)
    requires
        ascending(a),
        ascending(b),
        forall|x: HoleCards| a.contains(x) <==> b.contains(x),
    ensures
        a == b,
    decreases a.len(),
{
    if a.len() == 0 {
        if b.len() > 0 {
            assert(b.contains(b[0]));
        }
        assert(a =~= b);
    } else {
        let top = a.last();
        assert(a.contains(top));
        assert(b.contains(top));
        assert(b.len() > 0);
        let other = b.last();
        assert(b.contains(other));
        assert(a.contains(other));
        let i = choose|i: int| 0 <= i < a.len() && a[i] == other;
        let j = choose|j: int| 0 <= j < b.len() && b[j] == top;
        if i < a.len() - 1 {
            assert(combo_key(a[i]) < combo_key(a[a.len() - 1]));
        }
        if j < b.len() - 1 {
            assert(combo_key(b[j]) < combo_key(b[b.len() - 1]));
        }
        lemma_combo_key_injective(top, other);
        let a0 = a.drop_last();
        let b0 = b.drop_last();
        assert forall|x: HoleCards| a0.contains(x) <==> b0.contains(x) by {
            if a0.contains(x) {
                let k = choose|k: int| 0 <= k < a0.len() && a0[k] == x;
                assert(a[k] == x);
                assert(combo_key(a[k]) < combo_key(a[a.len() - 1]));
                assert(a.contains(x));
                let m = choose|m: int| 0 <= m < b.len() && b[m] == x;
                assert(m < b.len() - 1);
                assert(b0[m] == x);
            }
            if b0.contains(x) {
                let k = choose|k: int| 0 <= k < b0.len() && b0[k] == x;
                assert(b[k] == x);
                assert(combo_key(b[k]) < combo_key(b[b.len() - 1]));
                assert(b.contains(x));
                let m = choose|m: int| 0 <= m < a.len() && a[m] == x;
                assert(m < a.len() - 1);
                assert(a0[m] == x);
            }
        }
        assert(ascending(a0)) by {
            assert forall|p: int, q: int| 0 <= p < q < a0.len() implies combo_key(#[trigger] a0[p])
                < combo_key(#[trigger] a0[q]) by {
                assert(a0[p] == a[p] && a0[q] == a[q]);
            }
        }
        assert(ascending(b0)) by {
            assert forall|p: int, q: int| 0 <= p < q < b0.len() implies combo_key(#[trigger] b0[p])
                < combo_key(#[trigger] b0[q]) by {
                assert(b0[p] == b[p] && b0[q] == b[q]);
            }
        }
        lemma_same_elements(a0, b0);
        assert(a =~= a0.push(top));
        assert(b =~= b0.push(other));
    }
}

/// How many of the first `n` combinations of a list are pairs.
pub open spec fn count_pairs(combos: Seq<HoleCards>, n: int) -> int
    decreases n,
{
    if n <= 0 {
        0
    } else {
        count_pairs(combos, n - 1) + if combos[n - 1].spec_high().value == combos[n
            - 1].spec_low().value {
            1int
        } else {
            0int
        }
    }
}

/// How many of the first `n` combinations of a list are suited and no pair.
pub open spec fn count_suited(combos: Seq<HoleCards>, n: int) -> int
    decreases n,
{
    if n <= 0 {
        0
    } else {
        count_suited(combos, n - 1) + if combos[n - 1].spec_high().value != combos[n
            - 1].spec_low().value && combos[n - 1].spec_high().suit == combos[n - 1].spec_low().suit {
            1int
        } else {
            0int
        }
    }
}

/// The texts of a list of patterns with a comma and a space between neighbours.
pub open spec fn join_patterns(patterns: Seq<HandPattern>) -> Seq<char>
    decreases patterns.len(),
{
    if patterns.len() == 0 {
        Seq::empty()
    } else if patterns.len() == 1 {
        patterns[0].text()
    } else {
        join_patterns(patterns.drop_last()) + seq![',', ' '] + patterns.last().text()
    }
}

/// Whether a combination holds no dead card.
pub open spec fn avoids(combo: HoleCards, dead: Set<Card>) -> bool {
    !dead.contains(combo.spec_high()) && !dead.contains(combo.spec_low())
}

/// With no card dead, a pair stands for six combinations, two ranks in one
/// suit for four, two ranks in two suits for twelve, and two ranks in any
/// suits for sixteen.
pub proof fn lemma_combo_counts(high: Value, low: Value)
    ensures
        pair_combos(high, Set::empty()).len() == 6,
        suited_combos(high, low, Set::empty()).len() == 4,
        offsuit_combos(high, low, Set::empty()).len() == 12,
        both_combos(high, low, true, true, Set::empty()).len() == 16,
{
    reveal_with_fuel(grid_combos, 17);
}

/// No combination in the listing of a range holds a dead card.
pub proof fn lemma_listing_avoids_dead(
    combos: Seq<HoleCards>,
    patterns: Seq<HandPattern>,
    dead: Set<Card>,
    k: int,
)
    requires
        lists_range(combos, patterns, dead),
        0 <= k < combos.len(),
    ensures
        avoids(combos[k], dead),
{
    assert(combos.contains(combos[k]));
    let i = choose|i: int|
        0 <= i < patterns.len() && pattern_combos(#[trigger] patterns[i], dead).contains(combos[k]);
    lemma_pattern_filter(patterns[i], dead, combos[k]);
}

/// A list with one more entry holds what the list held, and the entry.
pub proof fn lemma_push_contains<A>(s: Seq<A>, a: A, x: A)
    ensures
        s.push(a).contains(x) <==> (s.contains(x) || x == a),
{
    if s.push(a).contains(x) {
        let k = choose|k: int| 0 <= k < s.push(a).len() && s.push(a)[k] == x;
        if k < s.len() {
            assert(s[k] == x);
        }
    }
    if s.contains(x) {
        let k = choose|k: int| 0 <= k < s.len() && s[k] == x;
        assert(s.push(a)[k] == x);
    }
    if x == a {
        assert(s.push(a)[s.len() as int] == x);
    }
}

/// Two lists one after the other hold what either of them holds.
pub proof fn lemma_concat_contains<A>(s: Seq<A>, t: Seq<A>, x: A)
    ensures
        (s + t).contains(x) <==> (s.contains(x) || t.contains(x)),
{
    if (s + t).contains(x) {
        let k = choose|k: int| 0 <= k < (s + t).len() && (s + t)[k] == x;
        if k < s.len() {
            assert(s[k] == x);
        } else {
            assert(t[k - s.len()] == x);
        }
    }
    if s.contains(x) {
        let k = choose|k: int| 0 <= k < s.len() && s[k] == x;
        assert((s + t)[k] == x);
    }
    if t.contains(x) {
        let k = choose|k: int| 0 <= k < t.len() && t[k] == x;
        assert((s + t)[k + s.len()] == x);
    }
}

/// Dead cards take away the combinations of two ranks that hold one of
/// them, and no others.
pub proof fn lemma_grid_filter(
    high: Value,
    low: Value,
    rule: SuitRule,
    dead: Set<Card>,
    n: int,
    combo: HoleCards,
)
    ensures
        grid_combos(high, low, rule, dead, n).contains(combo) <==> (grid_combos(
            high,
            low,
            rule,
            Set::empty(),
            n,
        ).contains(combo) && avoids(combo, dead)),
    decreases n,
{
    if n > 0 {
        lemma_grid_filter(high, low, rule, dead, n - 1, combo);
        let i = (n - 1) / 4;
        let j = (n - 1) % 4;
        let card1 = Card { value: high, suit: suit_at(i) };
        let card2 = Card { value: low, suit: suit_at(j) };
        let made = HoleCards::spec_new(card1, card2);
        HoleCards::lemma_spec_new(card1, card2);
        lemma_push_contains(grid_combos(high, low, rule, dead, n - 1), made, combo);
        lemma_push_contains(grid_combos(high, low, rule, Set::empty(), n - 1), made, combo);
    } else {
        assert(!grid_combos(high, low, rule, dead, n).contains(combo));
        assert(!grid_combos(high, low, rule, Set::empty(), n).contains(combo));
    }
}

proof fn lemma_both_filter(
    high: Value,
    low: Value,
    suited: bool,
    offsuit: bool,
    dead: Set<Card>,
    combo: HoleCards,
)
    ensures
        both_combos(high, low, suited, offsuit, dead).contains(combo) <==> (both_combos(
            high,
            low,
            suited,
            offsuit,
            Set::empty(),
        ).contains(combo) && avoids(combo, dead)),
{
    let none = Seq::<HoleCards>::empty();
    assert(!none.contains(combo));
    lemma_grid_filter(high, low, SuitRule::Same, dead, 16, combo);
    lemma_grid_filter(high, low, SuitRule::Different, dead, 16, combo);
    lemma_concat_contains(
        if suited {
            suited_combos(high, low, dead)
        } else {
            none
        },
        if offsuit {
            offsuit_combos(high, low, dead)
        } else {
            none
        },
        combo,
    );
    lemma_concat_contains(
        if suited {
            suited_combos(high, low, Set::empty())
        } else {
            none
        },
        if offsuit {
            offsuit_combos(high, low, Set::empty())
        } else {
            none
        },
        combo,
    );
}

proof fn lemma_pair_plus_filter(value: Value, dead: Set<Card>, n: int, combo: HoleCards)
    ensures
        pair_plus_combos(value, dead, n).contains(combo) <==> (pair_plus_combos(
            value,
            Set::empty(),
            n,
        ).contains(combo) && avoids(combo, dead)),
    decreases n,
{
    if n > 0 {
        lemma_pair_plus_filter(value, dead, n - 1, combo);
        let rank = Value::of_ordinal(n - 1);
        lemma_grid_filter(rank, rank, SuitRule::Ascending, dead, 16, combo);
        lemma_concat_contains(
            pair_plus_combos(value, dead, n - 1),
            pair_combos(rank, dead),
            combo,
        );
        lemma_concat_contains(
            pair_plus_combos(value, Set::empty(), n - 1),
            pair_combos(rank, Set::empty()),
            combo,
        );
    } else {
        assert(!pair_plus_combos(value, dead, n).contains(combo));
        assert(!pair_plus_combos(value, Set::empty(), n).contains(combo));
    }
}

proof fn lemma_plus_filter(
    high: Value,
    low: Value,
    suited: bool,
    offsuit: bool,
    dead: Set<Card>,
    n: int,
    combo: HoleCards,
)
    ensures
        plus_combos(high, low, suited, offsuit, dead, n).contains(combo) <==> (plus_combos(
            high,
            low,
            suited,
            offsuit,
            Set::empty(),
            n,
        ).contains(combo) && avoids(combo, dead)),
    decreases n,
{
    if n > 0 {
        lemma_plus_filter(high, low, suited, offsuit, dead, n - 1, combo);
        let rank = Value::of_ordinal(n - 1);
        lemma_both_filter(high, rank, suited, offsuit, dead, combo);
        lemma_concat_contains(
            plus_combos(high, low, suited, offsuit, dead, n - 1),
            both_combos(high, rank, suited, offsuit, dead),
            combo,
        );
        lemma_concat_contains(
            plus_combos(high, low, suited, offsuit, Set::empty(), n - 1),
            both_combos(high, rank, suited, offsuit, Set::empty()),
            combo,
        );
    } else {
        assert(!plus_combos(high, low, suited, offsuit, dead, n).contains(combo));
        assert(!plus_combos(high, low, suited, offsuit, Set::empty(), n).contains(combo));
    }
}

/// Dead cards take away the combinations of a pattern that hold one of
/// them, and no others.
pub proof fn lemma_pattern_filter(pattern: HandPattern, dead: Set<Card>, combo: HoleCards)
    ensures
        pattern_combos(pattern, dead).contains(combo) <==> (pattern_combos(
            pattern,
            Set::empty(),
        ).contains(combo) && avoids(combo, dead)),
{
    match pattern {
        HandPattern::Pair(v) => {
            lemma_grid_filter(v, v, SuitRule::Ascending, dead, 16, combo);
        },
        HandPattern::PairPlus(v) => {
            lemma_pair_plus_filter(v, dead, 13, combo);
        },
        HandPattern::Suited(h, l) => {
            lemma_grid_filter(h, l, SuitRule::Same, dead, 16, combo);
        },
        HandPattern::SuitedPlus(h, l) => {
            lemma_plus_filter(h, l, true, false, dead, 13, combo);
        },
        HandPattern::Offsuit(h, l) => {
            lemma_grid_filter(h, l, SuitRule::Different, dead, 16, combo);
        },
        HandPattern::OffsuitPlus(h, l) => {
            lemma_plus_filter(h, l, false, true, dead, 13, combo);
        },
        HandPattern::Any(h, l) => {
            lemma_both_filter(h, l, true, true, dead, combo);
        },
        HandPattern::AnyPlus(h, l) => {
            lemma_plus_filter(h, l, true, true, dead, 13, combo);
        },
    }
}

/// The place of a suit in the order in which combinations are generated.
pub open spec fn suit_place(suit: Suit) -> int {
    match suit {
        Suit::Spades => 0,
        Suit::Hearts => 1,
        Suit::Diamonds => 2,
        Suit::Clubs => 3,
    }
}

/// The combination made of a card of one rank and suit and a card of
/// another rank and suit.
pub open spec fn combo_of(value1: Value, suit1: Suit, value2: Value, suit2: Suit) -> HoleCards {
    HoleCards::spec_new(Card { value: value1, suit: suit1 }, Card { value: value2, suit: suit2 })
}

/// What a pattern means: which combinations it stands for when no card
/// is dead. A pair is two cards of one rank in two suits; suited hands
/// are two ranks in one suit, offsuit hands two ranks in two suits; a
/// pattern with a plus takes, for pairs, the rank given and every higher
/// one, and else every low rank from the one given up to just below the
/// high rank.
pub open spec fn pattern_holds(pattern: HandPattern, combo: HoleCards) -> bool {
    match pattern {
        HandPattern::Pair(v) => exists|s1: Suit, s2: Suit|
            s1 != s2 && combo == #[trigger] combo_of(v, s1, v, s2),
        HandPattern::PairPlus(v) => exists|r: Value, s1: Suit, s2: Suit|
            r.ordinal() >= v.ordinal() && s1 != s2 && combo == #[trigger] combo_of(r, s1, r, s2),
        HandPattern::Suited(h, l) => exists|s: Suit| combo == #[trigger] combo_of(h, s, l, s),
        HandPattern::SuitedPlus(h, l) => exists|r: Value, s: Suit|
            l.ordinal() <= r.ordinal() < h.ordinal() && combo == #[trigger] combo_of(h, s, r, s),
        HandPattern::Offsuit(h, l) => exists|s1: Suit, s2: Suit|
            s1 != s2 && combo == #[trigger] combo_of(h, s1, l, s2),
        HandPattern::OffsuitPlus(h, l) => exists|r: Value, s1: Suit, s2: Suit|
            l.ordinal() <= r.ordinal() < h.ordinal() && s1 != s2 && combo == #[trigger] combo_of(
                h,
                s1,
                r,
                s2,
            ),
        HandPattern::Any(h, l) => exists|s1: Suit, s2: Suit|
            combo == #[trigger] combo_of(h, s1, l, s2),
        HandPattern::AnyPlus(h, l) => exists|r: Value, s1: Suit, s2: Suit|
            l.ordinal() <= r.ordinal() < h.ordinal() && combo == #[trigger] combo_of(h, s1, r, s2),
    }
}

/// The combination at a place of the grid of sixteen pairs of suits.
pub open spec fn candidate(high: Value, low: Value, k: int) -> HoleCards {
    combo_of(high, suit_at(k / 4), low, suit_at(k % 4))
}

/// Whether a rule takes two suits.
pub open spec fn rule_takes_suits(rule: SuitRule, s1: Suit, s2: Suit) -> bool {
    rule_takes(rule, suit_place(s1), suit_place(s2))
}

proof fn lemma_grid_places(high: Value, low: Value, rule: SuitRule, n: int, combo: HoleCards)
    requires
        0 <= n,
    ensures
        grid_combos(high, low, rule, Set::empty(), n).contains(combo) <==> exists|k: int|
            0 <= k < n && rule_takes(rule, k / 4, k % 4) && combo == #[trigger] candidate(
                high,
                low,
                k,
            ),
    decreases n,
{
    let now = grid_combos(high, low, rule, Set::empty(), n);
    if n > 0 {
        let rest = grid_combos(high, low, rule, Set::empty(), n - 1);
        lemma_grid_places(high, low, rule, n - 1, combo);
        lemma_push_contains(rest, candidate(high, low, n - 1), combo);
        if now.contains(combo) {
            if rest.contains(combo) {
                let k = choose|k: int|
                    0 <= k < n - 1 && rule_takes(rule, k / 4, k % 4) && combo == #[trigger] candidate(
                        high,
                        low,
                        k,
                    );
                assert(0 <= k < n && rule_takes(rule, k / 4, k % 4) && combo == candidate(
                    high,
                    low,
                    k,
                ));
            } else {
                assert(rule_takes(rule, (n - 1) / 4, (n - 1) % 4) && combo == candidate(
                    high,
                    low,
                    n - 1,
                ));
            }
        }
        if exists|k: int|
            0 <= k < n && rule_takes(rule, k / 4, k % 4) && combo == #[trigger] candidate(
                high,
                low,
                k,
            ) {
            let k = choose|k: int|
                0 <= k < n && rule_takes(rule, k / 4, k % 4) && combo == #[trigger] candidate(
                    high,
                    low,
                    k,
                );
            if k < n - 1 {
                assert(rest.contains(combo));
            }
        }
    } else {
        assert(!now.contains(combo));
    }
}

/// The combinations of two ranks under a rule are those of two suits that
/// the rule takes.
pub proof fn lemma_grid_meaning(high: Value, low: Value, rule: SuitRule, combo: HoleCards)
    ensures
        grid_combos(high, low, rule, Set::empty(), 16).contains(combo) <==> exists|
            s1: Suit,
            s2: Suit,
        |
            rule_takes_suits(rule, s1, s2) && combo == #[trigger] combo_of(high, s1, low, s2),
{
    lemma_grid_places(high, low, rule, 16, combo);
    if grid_combos(high, low, rule, Set::empty(), 16).contains(combo) {
        let k = choose|k: int|
            0 <= k < 16 && rule_takes(rule, k / 4, k % 4) && combo == #[trigger] candidate(
                high,
                low,
                k,
            );
        let s1 = suit_at(k / 4);
        let s2 = suit_at(k % 4);
        assert(rule_takes_suits(rule, s1, s2) && combo == combo_of(high, s1, low, s2));
    }
    if exists|s1: Suit, s2: Suit|
        rule_takes_suits(rule, s1, s2) && combo == #[trigger] combo_of(high, s1, low, s2) {
        let (s1, s2) = choose|s1: Suit, s2: Suit|
            rule_takes_suits(rule, s1, s2) && combo == #[trigger] combo_of(high, s1, low, s2);
        let k = 4 * suit_place(s1) + suit_place(s2);
        assert(suit_at(k / 4) == s1 && suit_at(k % 4) == s2);
        assert(0 <= k < 16 && rule_takes(rule, k / 4, k % 4) && combo == candidate(high, low, k));
    }
}

proof fn lemma_pair_meaning(value: Value, combo: HoleCards)
    ensures
        pair_combos(value, Set::empty()).contains(combo) <==> exists|s1: Suit, s2: Suit|
            s1 != s2 && combo == #[trigger] combo_of(value, s1, value, s2),
{
    lemma_grid_meaning(value, value, SuitRule::Ascending, combo);
    if pair_combos(value, Set::empty()).contains(combo) {
        let (s1, s2) = choose|s1: Suit, s2: Suit|
            rule_takes_suits(SuitRule::Ascending, s1, s2) && combo == #[trigger] combo_of(
                value,
                s1,
                value,
                s2,
            );
        assert(s1 != s2 && combo == combo_of(value, s1, value, s2));
    }
    if exists|s1: Suit, s2: Suit| s1 != s2 && combo == #[trigger] combo_of(value, s1, value, s2) {
        let (s1, s2) = choose|s1: Suit, s2: Suit|
            s1 != s2 && combo == #[trigger] combo_of(value, s1, value, s2);
        HoleCards::lemma_spec_new(
            Card { value, suit: s1 },
            Card { value, suit: s2 },
        );
        if suit_place(s1) < suit_place(s2) {
            assert(rule_takes_suits(SuitRule::Ascending, s1, s2) && combo == combo_of(
                value,
                s1,
                value,
                s2,
            ));
        } else {
            assert(rule_takes_suits(SuitRule::Ascending, s2, s1) && combo == combo_of(
                value,
                s2,
                value,
                s1,
            ));
        }
    }
}

/// Whether a combination is made of two ranks in suits that go with the
/// kinds taken: one suit for suited hands, two suits for offsuit hands.
pub open spec fn kind_holds(high: Value, low: Value, suited: bool, offsuit: bool, combo: HoleCards) -> bool {
    exists|s1: Suit, s2: Suit|
        ((suited && s1 == s2) || (offsuit && s1 != s2)) && combo == #[trigger] combo_of(
            high,
            s1,
            low,
            s2,
        )
}

proof fn lemma_both_meaning(high: Value, low: Value, suited: bool, offsuit: bool, combo: HoleCards)
    ensures
        both_combos(high, low, suited, offsuit, Set::empty()).contains(combo) <==> kind_holds(
            high,
            low,
            suited,
            offsuit,
            combo,
        ),
{
    let none = Seq::<HoleCards>::empty();
    let dead = Set::<Card>::empty();
    assert(!none.contains(combo));
    let first = if suited {
        suited_combos(high, low, dead)
    } else {
        none
    };
    let second = if offsuit {
        offsuit_combos(high, low, dead)
    } else {
        none
    };
    lemma_concat_contains(first, second, combo);
    lemma_grid_meaning(high, low, SuitRule::Same, combo);
    lemma_grid_meaning(high, low, SuitRule::Different, combo);
    if first.contains(combo) {
        let (s1, s2) = choose|s1: Suit, s2: Suit|
            rule_takes_suits(SuitRule::Same, s1, s2) && combo == #[trigger] combo_of(
                high,
                s1,
                low,
                s2,
            );
        assert(s1 == s2 && combo == combo_of(high, s1, low, s2));
    }
    if second.contains(combo) {
        let (s1, s2) = choose|s1: Suit, s2: Suit|
            rule_takes_suits(SuitRule::Different, s1, s2) && combo == #[trigger] combo_of(
                high,
                s1,
                low,
                s2,
            );
        assert(s1 != s2 && combo == combo_of(high, s1, low, s2));
    }
    if kind_holds(high, low, suited, offsuit, combo) {
        let (s1, s2) = choose|s1: Suit, s2: Suit|
            ((suited && s1 == s2) || (offsuit && s1 != s2)) && combo == #[trigger] combo_of(
                high,
                s1,
                low,
                s2,
            );
        if s1 == s2 {
            assert(rule_takes_suits(SuitRule::Same, s1, s2) && combo == combo_of(
                high,
                s1,
                low,
                s2,
            ));
        } else {
            assert(rule_takes_suits(SuitRule::Different, s1, s2) && combo == combo_of(
                high,
                s1,
                low,
                s2,
            ));
        }
    }
}

proof fn lemma_pair_plus_meaning(value: Value, n: int, combo: HoleCards)
    requires
        0 <= n <= 13,
    ensures
        pair_plus_combos(value, Set::empty(), n).contains(combo) <==> exists|
            r: Value,
            s1: Suit,
            s2: Suit,
        |
            value.ordinal() <= r.ordinal() < n && s1 != s2 && combo == #[trigger] combo_of(
                r,
                s1,
                r,
                s2,
            ),
    decreases n,
{
    let dead = Set::<Card>::empty();
    let now = pair_plus_combos(value, dead, n);
    if n > 0 {
        let rest = pair_plus_combos(value, dead, n - 1);
        let rank = Value::of_ordinal(n - 1);
        lemma_pair_plus_meaning(value, n - 1, combo);
        lemma_pair_meaning(rank, combo);
        lemma_concat_contains(rest, pair_combos(rank, dead), combo);
        if now.contains(combo) {
            if rest.contains(combo) {
                let (r, s1, s2) = choose|r: Value, s1: Suit, s2: Suit|
                    value.ordinal() <= r.ordinal() < n - 1 && s1 != s2 && combo
                        == #[trigger] combo_of(r, s1, r, s2);
                assert(value.ordinal() <= r.ordinal() < n && s1 != s2 && combo == combo_of(
                    r,
                    s1,
                    r,
                    s2,
                ));
            } else {
                let (s1, s2) = choose|s1: Suit, s2: Suit|
                    s1 != s2 && combo == #[trigger] combo_of(rank, s1, rank, s2);
                assert(value.ordinal() <= rank.ordinal() < n && s1 != s2 && combo == combo_of(
                    rank,
                    s1,
                    rank,
                    s2,
                ));
            }
        }
        if exists|r: Value, s1: Suit, s2: Suit|
            value.ordinal() <= r.ordinal() < n && s1 != s2 && combo == #[trigger] combo_of(
                r,
                s1,
                r,
                s2,
            ) {
            let (r, s1, s2) = choose|r: Value, s1: Suit, s2: Suit|
                value.ordinal() <= r.ordinal() < n && s1 != s2 && combo == #[trigger] combo_of(
                    r,
                    s1,
                    r,
                    s2,
                );
            if r.ordinal() < n - 1 {
                assert(rest.contains(combo));
            } else {
                assert(r == rank);
                assert(s1 != s2 && combo == combo_of(rank, s1, rank, s2));
            }
        }
    } else {
        assert(!now.contains(combo));
    }
}

proof fn lemma_plus_meaning(
    high: Value,
    low: Value,
    suited: bool,
    offsuit: bool,
    n: int,
    combo: HoleCards,
)
    requires
        0 <= n <= 13,
    ensures
        plus_combos(high, low, suited, offsuit, Set::empty(), n).contains(combo) <==> exists|
            r: Value,
        |
            low.ordinal() <= r.ordinal() < high.ordinal() && r.ordinal() < n && #[trigger] kind_holds(
                high,
                r,
                suited,
                offsuit,
                combo,
            ),
    decreases n,
{
    let dead = Set::<Card>::empty();
    let now = plus_combos(high, low, suited, offsuit, dead, n);
    if n > 0 {
        let rest = plus_combos(high, low, suited, offsuit, dead, n - 1);
        let rank = Value::of_ordinal(n - 1);
        lemma_plus_meaning(high, low, suited, offsuit, n - 1, combo);
        lemma_both_meaning(high, rank, suited, offsuit, combo);
        lemma_concat_contains(rest, both_combos(high, rank, suited, offsuit, dead), combo);
        if now.contains(combo) {
            if rest.contains(combo) {
                let r = choose|r: Value|
                    low.ordinal() <= r.ordinal() < high.ordinal() && r.ordinal() < n - 1
                        && #[trigger] kind_holds(high, r, suited, offsuit, combo);
                assert(low.ordinal() <= r.ordinal() < high.ordinal() && r.ordinal() < n
                    && kind_holds(high, r, suited, offsuit, combo));
            } else {
                assert(low.ordinal() <= rank.ordinal() < high.ordinal() && rank.ordinal() < n
                    && kind_holds(high, rank, suited, offsuit, combo));
            }
        }
        if exists|r: Value|
            low.ordinal() <= r.ordinal() < high.ordinal() && r.ordinal() < n && #[trigger] kind_holds(
                high,
                r,
                suited,
                offsuit,
                combo,
            ) {
            let r = choose|r: Value|
                low.ordinal() <= r.ordinal() < high.ordinal() && r.ordinal() < n
                    && #[trigger] kind_holds(high, r, suited, offsuit, combo);
            if r.ordinal() < n - 1 {
                assert(rest.contains(combo));
            } else {
                assert(r == rank);
            }
        }
    } else {
        assert(!now.contains(combo));
    }
}

/// With no card dead a pattern stands for the combinations that it means,
/// and for no others.
pub proof fn lemma_pattern_meaning(pattern: HandPattern, combo: HoleCards)
    ensures
        pattern_combos(pattern, Set::empty()).contains(combo) <==> pattern_holds(pattern, combo),
{
    match pattern {
        HandPattern::Pair(v) => {
            lemma_pair_meaning(v, combo);
        },
        HandPattern::PairPlus(v) => {
            lemma_pair_plus_meaning(v, 13, combo);
            if pattern_holds(pattern, combo) {
                let (r, s1, s2) = choose|r: Value, s1: Suit, s2: Suit|
                    r.ordinal() >= v.ordinal() && s1 != s2 && combo == #[trigger] combo_of(
                        r,
                        s1,
                        r,
                        s2,
                    );
                assert(v.ordinal() <= r.ordinal() < 13 && s1 != s2 && combo == combo_of(
                    r,
                    s1,
                    r,
                    s2,
                ));
            }
            if pattern_combos(pattern, Set::empty()).contains(combo) {
                let (r, s1, s2) = choose|r: Value, s1: Suit, s2: Suit|
                    v.ordinal() <= r.ordinal() < 13 && s1 != s2 && combo == #[trigger] combo_of(
                        r,
                        s1,
                        r,
                        s2,
                    );
                assert(r.ordinal() >= v.ordinal() && s1 != s2 && combo == combo_of(r, s1, r, s2));
            }
        },
        HandPattern::Suited(h, l) => {
            lemma_both_meaning(h, l, true, false, combo);
            assert(both_combos(h, l, true, false, Set::empty()) =~= suited_combos(
                h,
                l,
                Set::empty(),
            ));
            if kind_holds(h, l, true, false, combo) {
                let (s1, s2) = choose|s1: Suit, s2: Suit|
                    ((true && s1 == s2) || (false && s1 != s2)) && combo == #[trigger] combo_of(
                        h,
                        s1,
                        l,
                        s2,
                    );
                assert(combo == combo_of(h, s1, l, s1));
            }
            if pattern_holds(pattern, combo) {
                let s = choose|s: Suit| combo == #[trigger] combo_of(h, s, l, s);
                assert(((true && s == s) || (false && s != s)) && combo == combo_of(h, s, l, s));
            }
        },
        HandPattern::SuitedPlus(h, l) => {
            lemma_plus_meaning(h, l, true, false, 13, combo);
            if pattern_combos(pattern, Set::empty()).contains(combo) {
                let r = choose|r: Value|
                    l.ordinal() <= r.ordinal() < h.ordinal() && r.ordinal() < 13
                        && #[trigger] kind_holds(h, r, true, false, combo);
                let (s1, s2) = choose|s1: Suit, s2: Suit|
                    ((true && s1 == s2) || (false && s1 != s2)) && combo == #[trigger] combo_of(
                        h,
                        s1,
                        r,
                        s2,
                    );
                assert(l.ordinal() <= r.ordinal() < h.ordinal() && combo == combo_of(h, s1, r, s1));
            }
            if pattern_holds(pattern, combo) {
                let (r, s) = choose|r: Value, s: Suit|
                    l.ordinal() <= r.ordinal() < h.ordinal() && combo == #[trigger] combo_of(
                        h,
                        s,
                        r,
                        s,
                    );
                assert(((true && s == s) || (false && s != s)) && combo == combo_of(h, s, r, s));
                assert(kind_holds(h, r, true, false, combo));
            }
        },
        HandPattern::Offsuit(h, l) => {
            lemma_both_meaning(h, l, false, true, combo);
            assert(both_combos(h, l, false, true, Set::empty()) =~= offsuit_combos(
                h,
                l,
                Set::empty(),
            ));
            if kind_holds(h, l, false, true, combo) {
                let (s1, s2) = choose|s1: Suit, s2: Suit|
                    ((false && s1 == s2) || (true && s1 != s2)) && combo == #[trigger] combo_of(
                        h,
                        s1,
                        l,
                        s2,
                    );
                assert(s1 != s2 && combo == combo_of(h, s1, l, s2));
            }
            if pattern_holds(pattern, combo) {
                let (s1, s2) = choose|s1: Suit, s2: Suit|
                    s1 != s2 && combo == #[trigger] combo_of(h, s1, l, s2);
                assert(((false && s1 == s2) || (true && s1 != s2)) && combo == combo_of(
                    h,
                    s1,
                    l,
                    s2,
                ));
            }
        },
        HandPattern::OffsuitPlus(h, l) => {
            lemma_plus_meaning(h, l, false, true, 13, combo);
            if pattern_combos(pattern, Set::empty()).contains(combo) {
                let r = choose|r: Value|
                    l.ordinal() <= r.ordinal() < h.ordinal() && r.ordinal() < 13
                        && #[trigger] kind_holds(h, r, false, true, combo);
                let (s1, s2) = choose|s1: Suit, s2: Suit|
                    ((false && s1 == s2) || (true && s1 != s2)) && combo == #[trigger] combo_of(
                        h,
                        s1,
                        r,
                        s2,
                    );
                assert(l.ordinal() <= r.ordinal() < h.ordinal() && s1 != s2 && combo == combo_of(
                    h,
                    s1,
                    r,
                    s2,
                ));
            }
            if pattern_holds(pattern, combo) {
                let (r, s1, s2) = choose|r: Value, s1: Suit, s2: Suit|
                    l.ordinal() <= r.ordinal() < h.ordinal() && s1 != s2 && combo
                        == #[trigger] combo_of(h, s1, r, s2);
                assert(((false && s1 == s2) || (true && s1 != s2)) && combo == combo_of(
                    h,
                    s1,
                    r,
                    s2,
                ));
                assert(kind_holds(h, r, false, true, combo));
            }
        },
        HandPattern::Any(h, l) => {
            lemma_both_meaning(h, l, true, true, combo);
            if kind_holds(h, l, true, true, combo) {
                let (s1, s2) = choose|s1: Suit, s2: Suit|
                    ((true && s1 == s2) || (true && s1 != s2)) && combo == #[trigger] combo_of(
                        h,
                        s1,
                        l,
                        s2,
                    );
                assert(combo == combo_of(h, s1, l, s2));
            }
            if pattern_holds(pattern, combo) {
                let (s1, s2) = choose|s1: Suit, s2: Suit| combo == #[trigger] combo_of(h, s1, l, s2);
                assert(((true && s1 == s2) || (true && s1 != s2)) && combo == combo_of(
                    h,
                    s1,
                    l,
                    s2,
                ));
            }
        },
        HandPattern::AnyPlus(h, l) => {
            lemma_plus_meaning(h, l, true, true, 13, combo);
            if pattern_combos(pattern, Set::empty()).contains(combo) {
                let r = choose|r: Value|
                    l.ordinal() <= r.ordinal() < h.ordinal() && r.ordinal() < 13
                        && #[trigger] kind_holds(h, r, true, true, combo);
                let (s1, s2) = choose|s1: Suit, s2: Suit|
                    ((true && s1 == s2) || (true && s1 != s2)) && combo == #[trigger] combo_of(
                        h,
                        s1,
                        r,
                        s2,
                    );
                assert(l.ordinal() <= r.ordinal() < h.ordinal() && combo == combo_of(h, s1, r, s2));
            }
            if pattern_holds(pattern, combo) {
                let (r, s1, s2) = choose|r: Value, s1: Suit, s2: Suit|
                    l.ordinal() <= r.ordinal() < h.ordinal() && combo == #[trigger] combo_of(
                        h,
                        s1,
                        r,
                        s2,
                    );
                assert(((true && s1 == s2) || (true && s1 != s2)) && combo == combo_of(
                    h,
                    s1,
                    r,
                    s2,
                ));
                assert(kind_holds(h, r, true, true, combo));
            }
        },
    }
}

/// Whether some pattern of a list means a combination.
pub open spec fn range_means(patterns: Seq<HandPattern>, combo: HoleCards) -> bool {
    exists|i: int| 0 <= i < patterns.len() && pattern_holds(#[trigger] patterns[i], combo)
}

/// A range lists a combination exactly where one of its patterns means it
/// and it holds no dead card.
pub proof fn lemma_range_meaning(
    combos: Seq<HoleCards>,
    patterns: Seq<HandPattern>,
    dead: Set<Card>,
    combo: HoleCards,
)
    requires
        lists_range(combos, patterns, dead),
    ensures
        combos.contains(combo) <==> (avoids(combo, dead) && range_means(patterns, combo)),
{
    if combos.contains(combo) {
        let i = choose|i: int|
            0 <= i < patterns.len() && pattern_combos(#[trigger] patterns[i], dead).contains(combo);
        lemma_pattern_filter(patterns[i], dead, combo);
        lemma_pattern_meaning(patterns[i], combo);
    }
    if avoids(combo, dead) && exists|i: int|
        0 <= i < patterns.len() && pattern_holds(#[trigger] patterns[i], combo) {
        let i = choose|i: int| 0 <= i < patterns.len() && pattern_holds(#[trigger] patterns[i], combo);
        lemma_pattern_meaning(patterns[i], combo);
        lemma_pattern_filter(patterns[i], dead, combo);
        assert(range_holds(patterns, dead, combo));
    }
}

/// A strictly ascending list whose entries all occur in another is no
/// longer than the other.
pub proof fn lemma_sublist_len(a: Seq<HoleCards>, b: Seq<HoleCards>)
    requires
        ascending(a),
        ascending(b),
        forall|x: HoleCards| a.contains(x) ==> b.contains(x),
    ensures
        a.len() <= b.len(),
    decreases b.len(),
{
    if a.len() > 0 {
        let top = a.last();
        assert(a.contains(top));
        assert(b.contains(top));
        let j = choose|j: int| 0 <= j < b.len() && b[j] == top;
        let a0 = a.drop_last();
        let b0 = b.take(j);
        assert forall|x: HoleCards| a0.contains(x) implies b0.contains(x) by {
            let k = choose|k: int| 0 <= k < a0.len() && a0[k] == x;
            assert(a[k] == x);
            assert(a.contains(x));
            assert(combo_key(a[k]) < combo_key(a[a.len() - 1]));
            let m = choose|m: int| 0 <= m < b.len() && b[m] == x;
            if m >= j {
                if m > j {
                    assert(combo_key(b[j]) < combo_key(b[m]));
                }
            }
            assert(b0[m] == x);
        }
        assert(ascending(a0)) by {
            assert forall|p: int, q: int| 0 <= p < q < a0.len() implies combo_key(#[trigger] a0[p])
                < combo_key(#[trigger] a0[q]) by {
                assert(a0[p] == a[p] && a0[q] == a[q]);
            }
        }
        assert(ascending(b0)) by {
            assert forall|p: int, q: int| 0 <= p < q < b0.len() implies combo_key(#[trigger] b0[p])
                < combo_key(#[trigger] b0[q]) by {
                assert(b0[p] == b[p] && b0[q] == b[q]);
            }
        }
        lemma_sublist_len(a0, b0);
    }
}

/// Dead cards only ever take combinations away from a range: what is
/// listed with some cards dead is what is listed with none dead and holds
/// none of them, so that the count cannot grow.
pub proof fn lemma_dead_cards_only_remove(
    with_dead: Seq<HoleCards>,
    without: Seq<HoleCards>,
    patterns: Seq<HandPattern>,
    dead: Set<Card>,
)
    requires
        lists_range(with_dead, patterns, dead),
        lists_range(without, patterns, Set::empty()),
    ensures
        forall|x: HoleCards|
            #[trigger] with_dead.contains(x) <==> (without.contains(x) && avoids(x, dead)),
        with_dead.len() <= without.len(),
{
    assert forall|x: HoleCards| #[trigger] with_dead.contains(x) <==> (without.contains(x) && avoids(
        x,
        dead,
    )) by {
        if with_dead.contains(x) {
            let i = choose|i: int|
                0 <= i < patterns.len() && pattern_combos(#[trigger] patterns[i], dead).contains(x);
            lemma_pattern_filter(patterns[i], dead, x);
            assert(range_holds(patterns, Set::empty(), x));
        }
        if without.contains(x) && avoids(x, dead) {
            let i = choose|i: int|
                0 <= i < patterns.len() && pattern_combos(
                    #[trigger] patterns[i],
                    Set::empty(),
                ).contains(x);
            lemma_pattern_filter(patterns[i], dead, x);
            assert(range_holds(patterns, dead, x));
        }
    }
    lemma_sublist_len(with_dead, without);
}

/// A strictly ascending list has at most as many entries as there are keys.
pub proof fn lemma_listing_len(combos: Seq<HoleCards>)
    requires
        ascending(combos),
    ensures
        combos.len() <= 2704,
{
    if combos.len() > 0 {
        lemma_keys_climb(combos, combos.len() - 1);
        lemma_of_index_index(combos.last().spec_high());
        lemma_of_index_index(combos.last().spec_low());
    }
}

proof fn lemma_keys_climb(combos: Seq<HoleCards>, i: int)
    requires
        ascending(combos),
        0 <= i < combos.len(),
    ensures
        combo_key(combos[i]) >= i,
    decreases i,
{
    lemma_of_index_index(combos[i].spec_high());
    lemma_of_index_index(combos[i].spec_low());
    if i > 0 {
        lemma_keys_climb(combos, i - 1);
        assert(combo_key(combos[i - 1]) < combo_key(combos[i]));
    }
}

/// Two combinations with the same key are the same combination.
pub proof fn lemma_combo_key_injective(a: HoleCards, b: HoleCards)
    requires
        combo_key(a) == combo_key(b),
    ensures
        a == b,
{
    lemma_of_index_index(a.spec_high());
    lemma_of_index_index(a.spec_low());
    lemma_of_index_index(b.spec_high());
    lemma_of_index_index(b.spec_low());
    a.lemma_same_cards(b);
}

/// The key of a combination as a machine integer.
fn key_of(combo: &HoleCards) -> (key: u32)
    ensures
        key == combo_key(*combo),
{
    (combo.high().index() as u32) * 52 + (combo.low().index() as u32)
}

/// Puts a combination into a strictly ascending list, at its place, unless
/// the list holds it already.
fn insert_sorted(combos: &mut Vec<HoleCards>, combo: HoleCards)
    requires
        ascending(old(combos)@),
    ensures
        ascending(final(combos)@),
        forall|x: HoleCards|
            final(combos)@.contains(x) <==> (old(combos)@.contains(x) || x == combo),
        final(combos)@.len() <= old(combos)@.len() + 1,
{
    let key = key_of(&combo);
    let mut i: usize = 0;
    while i < combos.len() && key_of(&combos[i]) < key
        invariant
            i <= combos@.len(),
            combos@ == old(combos)@,
            key == combo_key(combo),
            forall|k: int| 0 <= k < i ==> combo_key(#[trigger] combos@[k]) < key,
        decreases combos.len() - i,
    {
        i += 1;
    }
    let ghost before = combos@;
    if i < combos.len() && key_of(&combos[i]) == key {
        proof {
            lemma_combo_key_injective(before[i as int], combo);
            assert(before.contains(combo));
        }
    } else {
        combos.insert(i, combo);
        proof {
            let after = combos@;
            assert(after.len() == before.len() + 1);
            assert(after[i as int] == combo);
            assert(forall|k: int| 0 <= k < i ==> after[k] == before[k]);
            assert(forall|k: int| i < k < after.len() ==> after[k] == before[k - 1]);
            assert forall|a: int, b: int| 0 <= a < b < after.len() implies combo_key(
                #[trigger] after[a],
            ) < combo_key(#[trigger] after[b]) by {
                if b < i {
                    assert(after[a] == before[a] && after[b] == before[b]);
                } else if b == i {
                    assert(after[a] == before[a]);
                } else if a < i {
                    assert(after[a] == before[a] && after[b] == before[b - 1]);
                    assert(combo_key(before[i as int]) <= combo_key(before[b - 1])) by {
                        if b - 1 > i {
                            assert(combo_key(before[i as int]) < combo_key(before[b - 1]));
                        }
                    }
                } else if a == i {
                    assert(after[b] == before[b - 1]);
                    if b - 1 > i {
                        assert(combo_key(before[i as int]) < combo_key(before[b - 1]));
                    }
                } else {
                    assert(after[a] == before[a - 1] && after[b] == before[b - 1]);
                }
            }
            assert forall|x: HoleCards| after.contains(x) <==> (before.contains(x) || x == combo) by {
                if after.contains(x) {
                    let k = choose|k: int| 0 <= k < after.len() && after[k] == x;
                    if k < i {
                        assert(before[k] == x);
                    } else if k > i {
                        assert(before[k - 1] == x);
                    }
                }
                if before.contains(x) {
                    let k = choose|k: int| 0 <= k < before.len() && before[k] == x;
                    if k < i {
                        assert(after[k] == x);
                    } else {
                        assert(after[k + 1] == x);
                    }
                }
            }
        }
    }
}

/// How the combinations of a range divide into pairs, suited and offsuit hands.
#[derive(Clone, Debug, PartialEq)]
pub struct ComboBreakdown {
    pub pairs: usize,
    pub suited: usize,
    pub offsuit: usize,
    pub total: usize,
}

impl ComboBreakdown {
    /// The breakdown in words: the total, then each kind in brackets.
    pub open spec fn text(self) -> Seq<char> {
        "Total: "@ + decimal(self.total as nat) + " (Pairs: "@ + decimal(self.pairs as nat)
            + ", Suited: "@ + decimal(self.suited as nat) + ", Offsuit: "@ + decimal(
            self.offsuit as nat,
        ) + ")"@
    }

    /// Writes the breakdown in words.
    pub fn to_string(&self) -> (s: String)
        ensures
            s@ == self.text(),
    {
        let mut s = String::from_str("Total: ");
        push_decimal(&mut s, self.total);
        s.append(" (Pairs: ");
        push_decimal(&mut s, self.pairs);
        s.append(", Suited: ");
        push_decimal(&mut s, self.suited);
        s.append(", Offsuit: ");
        push_decimal(&mut s, self.offsuit);
        s.append(")");
        proof {
            assert(s@ =~= self.text());
        }
        s
    }
}

impl RangeParseError {
    /// The failure in words.
    pub open spec fn text(self) -> Seq<char> {
        match self {
            RangeParseError::InvalidFormat(token) => "Invalid range format: "@ + token@,
            RangeParseError::InvalidValue(c) => "Invalid card value: "@.push(c),
            RangeParseError::InvalidSuitMarker(c) => "Invalid suit marker: "@.push(c),
        }
    }

    /// Writes the failure in words.
    pub fn to_string(&self) -> (s: String)
        ensures
            s@ == self.text(),
    {
        match self {
            RangeParseError::InvalidFormat(token) => {
                let mut s = String::from_str("Invalid range format: ");
                s.append(token.as_str());
                s
            },
            RangeParseError::InvalidValue(c) => {
                let mut s = String::from_str("Invalid card value: ");
                push_char(&mut s, *c);
                s
            },
            RangeParseError::InvalidSuitMarker(c) => {
                let mut s = String::from_str("Invalid suit marker: ");
                push_char(&mut s, *c);
                s
            },
        }
    }
}

/// A set of hand patterns. All combinations it stands for count alike.
#[derive(Debug)]
pub struct Range {
    hands: Vec<HandPattern>,
}

impl View for Range {
    type V = Seq<HandPattern>;

    /// The patterns of the range, in the order in which they came.
    closed spec fn view(&self) -> Seq<HandPattern> {
        self.hands@
    }
}

impl Range {
    /// No pattern occurs twice.
    #[verifier::type_invariant]
    pub open spec fn wf(self) -> bool {
        self@.no_duplicates()
    }

    /// The range without patterns.
    pub fn new() -> (range: Self)
        ensures
            range@ == Seq::<HandPattern>::empty(),
    {
        Self { hands: Vec::new() }
    }

    /// Adds a pattern unless the range holds it already.
    fn insert(&mut self, pattern: HandPattern)
        ensures
            final(self)@ == add_new(old(self)@, pattern),
    {
        proof {
            use_type_invariant(&*self);
        }
        let mut i: usize = 0;
        while i < self.hands.len()
            invariant
                i <= self.hands@.len(),
                self.hands@ == old(self).hands@,
                forall|k: int| 0 <= k < i ==> self.hands@[k] != pattern,
            decreases self.hands.len() - i,
        {
            if self.hands[i] == pattern {
                return ;
            }
            i += 1;
        }
        let ghost before = self.hands@;
        let mut hands: Vec<HandPattern> = Vec::new();
        let mut k: usize = 0;
        while k < self.hands.len()
            invariant
                k <= self.hands@.len(),
                self.hands@ == before,
                hands@ == before.take(k as int),
            decreases self.hands.len() - k,
        {
            hands.push(self.hands[k]);
            proof {
                assert(before.take(k + 1) =~= before.take(k as int).push(before[k as int]));
            }
            k += 1;
        }
        hands.push(pattern);
        proof {
            assert(before.take(k as int) =~= before);
            assert(!before.contains(pattern));
            let after = before.push(pattern);
            assert forall|a: int, b: int| 0 <= a < after.len() && 0 <= b < after.len() && a
                != b implies after[a] != after[b] by {
                if a < before.len() && b < before.len() {
                    assert(before[a] != before[b]);
                } else if a < before.len() {
                    assert(before.contains(before[a]));
                } else {
                    assert(before.contains(before[b]));
                }
            }
        }
        self.hands = hands;
    }

    /// Reads a range: tokens between commas, each a pattern. The first
    /// token that is no pattern fails the whole range.
    pub fn from_str(s: &str) -> (r: Result<Self, RangeParseError>)
        ensures
            match r {
                Ok(range) => spec_parse_range(s@) == Ok::<Seq<HandPattern>, ParseFailure>(range@),
                Err(e) => spec_parse_range(s@) == Err::<Seq<HandPattern>, ParseFailure>(e@),
            },
    {
        let mut range = Range::new();
        let pieces = split(s, ',');
        let mut i: usize = 0;
        while i < pieces.len()
            invariant
                i <= pieces@.len(),
                texts_of(pieces@) == spec_split(s@, ','),
                parse_pieces(spec_split(s@, ','), i as int) == Ok::<Seq<HandPattern>, ParseFailure>(
                    range@,
                ),
            decreases pieces.len() - i,
        {
            proof {
                assert(texts_of(pieces@)[i as int] == pieces@[i as int]@);
            }
            let trimmed = trim(pieces[i]);
            if trimmed.unicode_len() > 0 {
                match HandPattern::parse(trimmed) {
                    Ok(pattern) => {
                        range.insert(pattern);
                    },
                    Err(e) => {
                        proof {
                            lemma_parse_failure_stays(spec_split(s@, ','), i + 1, pieces@.len() as int);
                        }
                        return Err(e);
                    },
                }
            }
            i += 1;
        }
        Ok(range)
    }

    /// The combinations of the range that hold no dead card, each once, in
    /// ascending order of the high card's index and then of the low card's.
    pub fn to_hole_cards(&self, dead_cards: Option<CardSet>) -> (combos: Vec<HoleCards>)
        ensures
            combos@ == spec_hole_cards(self@, dead_set(dead_cards)),
            lists_range(combos@, self@, dead_set(dead_cards)),
            ascending(combos@),
            forall|x: HoleCards|
                #[trigger] combos@.contains(x) <==> (avoids(x, dead_set(dead_cards)) && range_means(
                    self@,
                    x,
                )),
            combos@.len() <= 2704,
            forall|k: int|
                0 <= k < combos@.len() ==> avoids(#[trigger] combos@[k], dead_set(dead_cards)),
    {
        let dead = match dead_cards {
            Some(dead) => dead,
            None => CardSet::new(),
        };
        let mut combos: Vec<HoleCards> = Vec::new();
        let mut p: usize = 0;
        while p < self.hands.len()
            invariant
                p <= self.hands@.len(),
                dead@ == dead_set(dead_cards),
                ascending(combos@),
                forall|x: HoleCards|
                    combos@.contains(x) <==> range_holds(self@.take(p as int), dead@, x),
            decreases self.hands.len() - p,
        {
            let found = self.hands[p].to_hole_cards(&dead);
            let ghost earlier = self@.take(p as int);
            let ghost now = self@.take(p + 1);
            let mut k: usize = 0;
            while k < found.len()
                invariant
                    k <= found@.len(),
                    p < self.hands@.len(),
                    found@ == pattern_combos(self@[p as int], dead@),
                    earlier == self@.take(p as int),
                    ascending(combos@),
                    forall|x: HoleCards|
                        combos@.contains(x) <==> (range_holds(earlier, dead@, x) || found@.take(
                            k as int,
                        ).contains(x)),
                decreases found.len() - k,
            {
                let ghost before = combos@;
                insert_sorted(&mut combos, found[k]);
                proof {
                    let done = found@.take(k as int);
                    let more = found@.take(k + 1);
                    assert(more =~= done.push(found@[k as int]));
                    assert forall|x: HoleCards|
                        combos@.contains(x) <==> (range_holds(earlier, dead@, x) || more.contains(
                            x,
                        )) by {
                        if done.contains(x) {
                            let a = choose|a: int| 0 <= a < done.len() && done[a] == x;
                            assert(more[a] == x);
                        }
                        if x == found@[k as int] {
                            assert(more[k as int] == x);
                        }
                        if more.contains(x) {
                            let a = choose|a: int| 0 <= a < more.len() && more[a] == x;
                            if a < k {
                                assert(done[a] == x);
                            }
                        }
                    }
                }
                k += 1;
            }
            proof {
                assert(found@.take(k as int) =~= found@);
                assert forall|x: HoleCards|
                    combos@.contains(x) <==> range_holds(now, dead@, x) by {
                    if range_holds(earlier, dead@, x) {
                        let a = choose|a: int|
                            0 <= a < earlier.len() && pattern_combos(
                                #[trigger] earlier[a],
                                dead@,
                            ).contains(x);
                        assert(now[a] == earlier[a]);
                    }
                    if found@.contains(x) {
                        assert(now[p as int] == self@[p as int]);
                    }
                    if range_holds(now, dead@, x) {
                        let a = choose|a: int|
                            0 <= a < now.len() && pattern_combos(#[trigger] now[a], dead@).contains(x);
                        if a < p {
                            assert(earlier[a] == now[a]);
                        }
                    }
                }
            }
            p += 1;
        }
        proof {
            assert(self@.take(p as int) =~= self@);
            assert(lists_range(combos@, self@, dead@));
            lemma_one_listing(combos@, combos@, self@, dead@);
            lemma_listing_len(combos@);
            assert forall|x: HoleCards| #[trigger] combos@.contains(x) <==> (avoids(x, dead@)
                && range_means(self@, x)) by {
                lemma_range_meaning(combos@, self@, dead@, x);
            }
            assert forall|k: int| 0 <= k < combos@.len() implies avoids(
                #[trigger] combos@[k],
                dead@,
            ) by {
                lemma_listing_avoids_dead(combos@, self@, dead@, k);
            }
        }
        combos
    }

    /// How many combinations the range stands for.
    pub fn combo_count(&self, dead_cards: Option<CardSet>) -> (n: usize)
        ensures
            n == spec_hole_cards(self@, dead_set(dead_cards)).len(),
            n <= 2704,
    {
        let combos = self.to_hole_cards(dead_cards);
        combos.len()
    }

    /// How the combinations of the range divide into pairs, suited hands
    /// and offsuit hands.
    pub fn combo_breakdown(&self, dead_cards: Option<CardSet>) -> (breakdown: ComboBreakdown)
        ensures
            ({
                let combos = spec_hole_cards(self@, dead_set(dead_cards));
                &&& breakdown.total == combos.len()
                &&& breakdown.pairs == count_pairs(combos, combos.len() as int)
                &&& breakdown.suited == count_suited(combos, combos.len() as int)
                &&& breakdown.offsuit == breakdown.total - breakdown.pairs - breakdown.suited
            }),
    {
        let hole_cards = self.to_hole_cards(dead_cards);
        let mut pairs: usize = 0;
        let mut suited: usize = 0;
        let mut offsuit: usize = 0;
        let mut i: usize = 0;
        while i < hole_cards.len()
            invariant
                i <= hole_cards@.len(),
                pairs == count_pairs(hole_cards@, i as int),
                suited == count_suited(hole_cards@, i as int),
                pairs + suited + offsuit == i,
            decreases hole_cards.len() - i,
        {
            let hc = &hole_cards[i];
            if hc.is_pair() {
                pairs += 1;
            } else if hc.is_suited() {
                suited += 1;
            } else {
                offsuit += 1;
            }
            i += 1;
        }
        ComboBreakdown { pairs, suited, offsuit, total: pairs + suited + offsuit }
    }

    /// Adds the pattern that a token denotes.
    pub fn add_pattern(&mut self, pattern: &str) -> (r: Result<(), RangeParseError>)
        ensures
            match r {
                Ok(_) => spec_parse_pattern(pattern@) is Ok && final(self)@ == add_new(
                    old(self)@,
                    spec_parse_pattern(pattern@)->Ok_0,
                ),
                Err(e) => spec_parse_pattern(pattern@) == Err::<HandPattern, ParseFailure>(e@)
                    && final(self)@ == old(self)@,
            },
    {
        match HandPattern::parse(pattern) {
            Ok(p) => {
                self.insert(p);
                Ok(())
            },
            Err(e) => Err(e),
        }
    }

    /// Whether the range, with no card dead, stands for a combination.
    pub fn contains(&self, hole_cards: &HoleCards) -> (found: bool)
        ensures
            found == range_means(self@, *hole_cards),
            found == range_holds(self@, Set::<Card>::empty(), *hole_cards),
    {
        let combos = self.to_hole_cards(None);
        proof {
            lemma_range_meaning(combos@, self@, Set::<Card>::empty(), *hole_cards);
        }
        let mut i: usize = 0;
        while i < combos.len()
            invariant
                i <= combos@.len(),
                forall|k: int| 0 <= k < i ==> combos@[k] != *hole_cards,
                lists_range(combos@, self@, Set::<Card>::empty()),
                combos@.contains(*hole_cards) <==> range_means(self@, *hole_cards),
            decreases combos.len() - i,
        {
            if combos[i].same(hole_cards) {
                assert(combos@.contains(*hole_cards));
                return true;
            }
            i += 1;
        }
        assert(!combos@.contains(*hole_cards));
        false
    }

    /// Whether the range holds a pattern.
    pub fn has_pattern(&self, pattern: HandPattern) -> (found: bool)
        ensures
            found == self@.contains(pattern),
    {
        let mut i: usize = 0;
        while i < self.hands.len()
            invariant
                i <= self.hands@.len(),
                forall|k: int| 0 <= k < i ==> self.hands@[k] != pattern,
            decreases self.hands.len() - i,
        {
            if self.hands[i] == pattern {
                return true;
            }
            i += 1;
        }
        false
    }

    /// Whether two ranges hold the same patterns, in whatever order.
    pub fn same_patterns(&self, other: &Self) -> (same: bool)
        ensures
            same == (self@.to_set() == other@.to_set()),
    {
        proof {
            use_type_invariant(self);
            use_type_invariant(other);
            self@.unique_seq_to_set();
            other@.unique_seq_to_set();
        }
        if self.hands.len() != other.hands.len() {
            proof {
                if self@.to_set() == other@.to_set() {
                    assert(self@.to_set().len() == other@.to_set().len());
                }
            }
            return false;
        }
        let mut i: usize = 0;
        while i < self.hands.len()
            invariant
                i <= self.hands@.len(),
                self@.no_duplicates(),
                other@.no_duplicates(),
                self@.len() == other@.len(),
                self@.to_set().len() == self@.len(),
                other@.to_set().len() == other@.len(),
                forall|k: int| 0 <= k < i ==> other@.contains(#[trigger] self@[k]),
            decreases self.hands.len() - i,
        {
            if !other.has_pattern(self.hands[i]) {
                proof {
                    assert(self@.to_set().contains(self@[i as int]));
                    assert(!other@.to_set().contains(self@[i as int]));
                }
                return false;
            }
            i += 1;
        }
        proof {
            assert(self@.to_set().subset_of(other@.to_set())) by {
                assert forall|p: HandPattern| self@.to_set().contains(p) implies other@.to_set().contains(
                    p,
                ) by {
                    let k = choose|k: int| 0 <= k < self@.len() && self@[k] == p;
                    assert(other@.contains(self@[k]));
                }
            }
            vstd::set_lib::lemma_subset_equality(self@.to_set(), other@.to_set());
        }
        true
    }

    /// Writes the patterns of the range with commas between them.
    pub fn to_string(&self) -> (s: String)
        ensures
            s@ == join_patterns(self@),
    {
        let mut s = String::new();
        let mut i: usize = 0;
        while i < self.hands.len()
            invariant
                i <= self.hands@.len(),
                s@ == join_patterns(self@.take(i as int)),
            decreases self.hands.len() - i,
        {
            if i > 0 {
                s.append(", ");
            }
            let text = self.hands[i].to_string();
            s.append(text.as_str());
            proof {
                reveal_strlit(", ");
                let now = self@.take(i + 1);
                assert(now.drop_last() =~= self@.take(i as int));
                assert(now.last() == self@[i as int]);
                if i == 0 {
                    assert(s@ =~= now[0].text());
                } else {
                    assert(s@ =~= join_patterns(now.drop_last()) + seq![',', ' '] + now.last().text());
                }
            }
            i += 1;
        }
        proof {
            assert(self@.take(i as int) =~= self@);
        }
        s
    }
}

impl HandPattern {
    /// Writes the pattern as the token that denotes it.
    pub fn to_string(&self) -> (s: String)
        ensures
            s@ == self.text(),
    {
        proof {
            reveal_strlit("s");
            reveal_strlit("o");
            reveal_strlit("+");
        }
        let (first, second, marker, plus) = match self {
            HandPattern::Pair(v) => (*v, *v, "", false),
            HandPattern::PairPlus(v) => (*v, *v, "", true),
            HandPattern::Suited(h, l) => (*h, *l, "s", false),
            HandPattern::SuitedPlus(h, l) => (*h, *l, "s", true),
            HandPattern::Offsuit(h, l) => (*h, *l, "o", false),
            HandPattern::OffsuitPlus(h, l) => (*h, *l, "o", true),
            HandPattern::Any(h, l) => (*h, *l, "", false),
            HandPattern::AnyPlus(h, l) => (*h, *l, "", true),
        };
        proof {
            reveal_strlit("");
        }
        let mut s = String::from_str(value_str(first));
        s.append(value_str(second));
        s.append(marker);
        if plus {
            s.append("+");
        }
        assert(s@ =~= self.text());
        s
    }
}

/// Once a piece has failed, the failure stands whatever follows.
pub proof fn lemma_parse_failure_stays(pieces: Seq<Seq<char>>, n: int, m: int)
    requires
        0 <= n <= m,
        parse_pieces(pieces, n) is Err,
    ensures
        parse_pieces(pieces, m) == parse_pieces(pieces, n),
    decreases m - n,
{
    if n < m {
        lemma_parse_failure_stays(pieces, n, m - 1);
    }
}

impl Clone for Range {
    fn clone(&self) -> (range: Self)
        ensures
            range@ == self@,
    {
        proof {
            use_type_invariant(self);
        }
        let mut hands: Vec<HandPattern> = Vec::new();
        let mut k: usize = 0;
        while k < self.hands.len()
            invariant
                k <= self.hands@.len(),
                hands@ == self.hands@.take(k as int),
            decreases self.hands.len() - k,
        {
            hands.push(self.hands[k]);
            proof {
                assert(self.hands@.take(k + 1) =~= self.hands@.take(k as int).push(
                    self.hands@[k as int],
                ));
            }
            k += 1;
        }
        proof {
            assert(self.hands@.take(k as int) =~= self.hands@);
        }
        Self { hands }
    }
}

impl Default for Range {
    fn default() -> (range: Self)
        ensures
            range@ == Seq::<HandPattern>::empty(),
    {
        Self::new()
    }
}

} // verus!

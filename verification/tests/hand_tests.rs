use holdem_rsources::{Card, Hand, HoleCards, Suit, Value};
use std::str::FromStr;

#[test]
fn test_hole_cards() {
    let card1 = Card::new(Value::Ace, Suit::Spades);
    let card2 = Card::new(Value::King, Suit::Spades);
    let hole = HoleCards::new(card1, card2);

    assert!(hole.is_suited());
    assert!(!hole.is_pair());
    assert_eq!(hole.gap(), 1);
    assert_eq!(hole.high().value, Value::Ace);
}

#[test]
fn test_hole_cards_pair() {
    let card1 = Card::new(Value::Queen, Suit::Hearts);
    let card2 = Card::new(Value::Queen, Suit::Diamonds);
    let hole = HoleCards::new(card1, card2);

    assert!(!hole.is_suited());
    assert!(hole.is_pair());
    assert_eq!(hole.gap(), 0);
}

#[test]
fn test_hole_cards_parse() {
    let hole = HoleCards::from_str("AhKs").unwrap();
    assert_eq!(hole.high().value, Value::Ace);
    assert_eq!(hole.low().value, Value::King);
}

#[test]
fn test_hand_basic() {
    let mut hand = Hand::new();
    assert!(hand.is_empty());

    let card = Card::new(Value::Ace, Suit::Spades);
    hand.add(card);
    assert_eq!(hand.len(), 1);
    assert!(hand.contains(card));
}

#[test]
fn test_hand_with_board() {
    let hole = HoleCards::new(
        Card::new(Value::Ace, Suit::Spades),
        Card::new(Value::King, Suit::Spades),
    );
    let hand = Hand::from_card_set(hole.to_card_set());

    let board = vec![
        Card::new(Value::Queen, Suit::Spades),
        Card::new(Value::Jack, Suit::Spades),
        Card::new(Value::Ten, Suit::Spades),
    ];

    let full_hand = hand.with_board(&board);
    assert_eq!(full_hand.len(), 5);
}

#[test]
fn test_hole_cards_are_canonical() {
    let king = Card::new(Value::King, Suit::Spades);
    let ace = Card::new(Value::Ace, Suit::Hearts);
    let a = HoleCards::new(king, ace);
    let b = HoleCards::new(ace, king);
    assert_eq!(a, b);
    assert!(a.same(&b));
    assert_eq!(a.high(), ace);
    assert_eq!(a.low(), king);
    assert_eq!(a.cards(), &[ace, king]);
    assert_eq!(a.gap(), 1);
    assert_eq!(a.to_string(), "AhKs");
    assert_eq!(a.to_card_set().count(), 2);

    // Equal ranks: the suit decides, hearts lowest, spades highest.
    let qh = Card::new(Value::Queen, Suit::Hearts);
    let qd = Card::new(Value::Queen, Suit::Diamonds);
    let qc = Card::new(Value::Queen, Suit::Clubs);
    let qs = Card::new(Value::Queen, Suit::Spades);
    assert_eq!(HoleCards::new(qh, qd).high(), qd);
    assert_eq!(HoleCards::new(qd, qc).high(), qc);
    assert_eq!(HoleCards::new(qs, qc).high(), qs);
    assert_eq!(HoleCards::new(qh, qs).low(), qh);
}

#[test]
fn test_hole_cards_parse_errors() {
    assert_eq!(HoleCards::parse("AhKs").unwrap().to_string(), "AhKs");
    assert_eq!(HoleCards::parse("KsAh").unwrap().to_string(), "AhKs");
    assert_eq!(HoleCards::parse("  AhKs \n").unwrap().to_string(), "AhKs");
    assert_eq!(HoleCards::parse(""), None);
    assert_eq!(HoleCards::parse("Ah"), None);
    assert_eq!(HoleCards::parse("AhK"), None);
    assert_eq!(HoleCards::parse("AhKsQ"), None);
    assert_eq!(HoleCards::parse("Ah Ks"), None);
    assert_eq!(HoleCards::parse("AhKx"), None);
    assert_eq!(HoleCards::parse("1hKs"), None);
    assert_eq!(
        HoleCards::from_str("AhK"),
        Err(String::from("Invalid hole cards format: 'AhK'"))
    );
    assert_eq!(HoleCards::try_from("AhK"), Err(()));
    assert_eq!(HoleCards::try_from("QdQc").unwrap().to_string(), "QcQd");
}

#[test]
fn test_hand_parse() {
    let hand = Hand::parse("As Kd  7c\t2h").unwrap();
    assert_eq!(hand.len(), 4);
    assert!(hand.contains(Card::new(Value::Seven, Suit::Clubs)));
    assert_eq!(hand.to_string(), "2h 7c Kd As");

    // One word that is no card spoils the hand.
    assert_eq!(Hand::parse("As Xx Kd"), None);
    assert_eq!(Hand::parse("As Kd Ahh"), None);
    assert_eq!(Hand::parse("As Kd").unwrap().len(), 2);

    // The same card twice is one card.
    assert_eq!(Hand::parse("As As").unwrap().len(), 1);

    assert_eq!(Hand::parse(""), None);
    assert_eq!(Hand::parse("   "), None);
    assert_eq!(Hand::parse("xx yy"), None);
    assert_eq!(
        Hand::from_str("xx"),
        Err(String::from("Invalid hand format: 'xx'"))
    );
    assert_eq!(Hand::from_str("As").unwrap().len(), 1);
    assert_eq!(Hand::default(), Hand::new());
}

#[test]
fn test_hand_accessors() {
    let ace = Card::new(Value::Ace, Suit::Spades);
    let two = Card::new(Value::Two, Suit::Clubs);
    let hand = Hand::from_cards(&[ace, two, ace]);
    assert_eq!(hand.len(), 2);
    assert_eq!(hand.as_u64(), (1u64 << 51) | 1);
    assert_eq!(hand.card_set().count(), 2);
    let mut it = hand.iter();
    assert_eq!(it.next(), Some(two));
    assert_eq!(it.next(), Some(ace));
    assert_eq!(it.next(), None);
    let with = hand.with_board(&[two, Card::new(Value::Three, Suit::Clubs)]);
    assert_eq!(with.len(), 3);
}

use holdem_rsources::{Card, CardSet, Suit, Value};

#[test]
fn test_card_set_basic() {
    let mut set = CardSet::new();
    assert!(set.is_empty());
    assert_eq!(set.count(), 0);

    let card = Card::new(Value::Ace, Suit::Spades);
    set.insert(card);
    assert!(set.contains(card));
    assert_eq!(set.count(), 1);

    set.remove(card);
    assert!(!set.contains(card));
    assert!(set.is_empty());
}

#[test]
fn test_card_set_operations() {
    let card1 = Card::new(Value::Ace, Suit::Spades);
    let card2 = Card::new(Value::King, Suit::Hearts);
    let card3 = Card::new(Value::Queen, Suit::Diamonds);

    let set1 = CardSet::from_cards(&[card1, card2]);
    let set2 = CardSet::from_cards(&[card2, card3]);

    assert_eq!(set1.union(set2).count(), 3);
    assert_eq!(set1.intersection(set2).count(), 1);
    assert!(set1.intersection(set2).contains(card2));
    assert_eq!(set1.difference(set2).count(), 1);
    assert!(set1.overlaps(set2));
}

#[test]
fn test_full_deck() {
    assert_eq!(CardSet::full_deck().count(), 52);
}

#[test]
fn test_iterator() {
    let cards = vec![
        Card::new(Value::Two, Suit::Clubs),
        Card::new(Value::Ace, Suit::Spades),
    ];
    let set = CardSet::from_cards(&cards);
    let mut it = set.iter();
    let mut collected: Vec<Card> = Vec::new();
    while let Some(card) = it.next() {
        collected.push(card);
    }
    assert_eq!(collected.len(), 2);
}

#[test]
fn test_iterator_order_and_listing() {
    let two = Card::new(Value::Two, Suit::Clubs);
    let ace = Card::new(Value::Ace, Suit::Spades);
    let nine = Card::new(Value::Nine, Suit::Hearts);
    let set = CardSet::from_cards(&[ace, two, nine]);
    let mut it = set.iter();
    assert_eq!(it.len(), 3);
    assert_eq!(it.next(), Some(two));
    assert_eq!(it.next(), Some(nine));
    assert_eq!(it.len(), 1);
    assert_eq!(it.next(), Some(ace));
    assert_eq!(it.next(), None);
    assert_eq!(set.to_vec(), vec![two, nine, ace]);
    assert_eq!(set.to_string(), "[2c 9h As]");
    assert_eq!(CardSet::new().to_string(), "[]");
}

#[test]
fn test_card_index_is_a_bijection() {
    for index in 0u8..52 {
        let card = Card::from_index(index).unwrap();
        assert_eq!(card.index(), index);
    }
    assert_eq!(Card::from_index(52), None);
    assert_eq!(Card::from_index(255), None);
    assert_eq!(Card::new(Value::Two, Suit::Clubs).index(), 0);
    assert_eq!(Card::new(Value::Two, Suit::Spades).index(), 3);
    assert_eq!(Card::new(Value::Three, Suit::Diamonds).index(), 5);
    assert_eq!(Card::new(Value::Ace, Suit::Spades).index(), 51);
    assert_eq!(Card::new(Value::Ace, Suit::Hearts).index(), 50);
}

#[test]
fn test_card_text_round_trip() {
    for index in 0u8..52 {
        let card = Card::from_index(index).unwrap();
        let text = card.to_string();
        assert_eq!(text.chars().count(), 2);
        assert_eq!(Card::parse(&text), Some(card));
        assert_eq!(Card::try_from(text.as_str()), Ok(card));
    }
    assert_eq!(Card::new(Value::Ten, Suit::Hearts).to_string(), "Th");
}

#[test]
fn test_card_parse_rejects_malformed_text() {
    assert_eq!(Card::parse("Ah"), Some(Card::new(Value::Ace, Suit::Hearts)));
    assert_eq!(Card::parse("ah"), Some(Card::new(Value::Ace, Suit::Hearts)));
    assert_eq!(Card::parse("tc"), Some(Card::new(Value::Ten, Suit::Clubs)));
    assert_eq!(Card::parse(""), None);
    assert_eq!(Card::parse("A"), None);
    assert_eq!(Card::parse("Ahx"), None);
    assert_eq!(Card::parse("1h"), None);
    assert_eq!(Card::parse("Ax"), None);
    assert_eq!(Card::parse("AH"), None);
    assert_eq!(Card::try_from("Zz"), Err(()));
}

#[test]
fn test_value_and_suit_characters() {
    assert_eq!(Value::from_char('A'), Some(Value::Ace));
    assert_eq!(Value::from_char('q'), Some(Value::Queen));
    assert_eq!(Value::from_char('2'), Some(Value::Two));
    assert_eq!(Value::from_char('1'), None);
    assert_eq!(Value::Ten.to_char(), 'T');
    assert_eq!(Value::Nine.to_char(), '9');
    assert_eq!(u8::from(Value::Two), 2);
    assert_eq!(u8::from(Value::Ace), 14);
    assert_eq!(char::from(Value::King), 'K');
    assert_eq!(char::from(Suit::Diamonds), 'd');
    assert_eq!(Suit::try_from('s'), Ok(Suit::Spades));
    assert_eq!(Suit::try_from('x'), Err(()));
    assert_eq!(Value::try_from('j'), Ok(Value::Jack));
    let all = Value::all_values();
    assert_eq!(all.len(), 13);
    assert_eq!(all[0], Value::Two);
    assert_eq!(all[12], Value::Ace);
    assert_eq!(Value::Jack.rank(), 9);
}

#[test]
fn test_set_algebra_on_whole_deck() {
    let deck = CardSet::full_deck();
    let ace = Card::new(Value::Ace, Suit::Spades);
    let one = CardSet::from_card(ace);
    assert_eq!(one.count(), 1);
    assert_eq!(deck.difference(one).count(), 51);
    assert!(!deck.difference(one).contains(ace));
    assert_eq!(deck.union(one), deck);
    assert_eq!(deck.intersection(one), one);
    assert!(!CardSet::new().overlaps(deck));
    assert_eq!(deck.as_u64(), (1u64 << 52) - 1);
    assert_eq!(one.as_u64(), 1u64 << 51);
    assert_eq!(CardSet::default(), CardSet::new());
}

#[test]
fn test_cards_compare_by_rank_then_suit() {
    let qh = Card::new(Value::Queen, Suit::Hearts);
    let qd = Card::new(Value::Queen, Suit::Diamonds);
    let qc = Card::new(Value::Queen, Suit::Clubs);
    let qs = Card::new(Value::Queen, Suit::Spades);
    let kh = Card::new(Value::King, Suit::Hearts);
    assert!(qh < qd && qd < qc && qc < qs && qs < kh);
    assert_eq!(qh.sort_key(), 40);
    assert_eq!(qd.sort_key(), 41);
    assert_eq!(qc.sort_key(), 42);
    assert_eq!(qs.sort_key(), 43);
    assert_eq!(kh.sort_key(), 44);
    // The index goes by the slot of the suit instead.
    assert_eq!(qc.index(), 40);
    assert_eq!(qd.index(), 41);
    assert_eq!(qh.index(), 42);
    assert_eq!(qs.index(), 43);
    assert_eq!(Suit::Clubs.slot_index(), 0);
    assert_eq!(Suit::Hearts.slot_index(), 2);
    assert_eq!(Suit::Hearts.order_index(), 0);
    assert_eq!(Suit::Clubs.order_index(), 2);
    assert_eq!(Suit::from_char('h'), Some(Suit::Hearts));
    assert_eq!(Suit::from_char('H'), None);
    assert_eq!(Suit::Spades.to_char(), 's');
    for index in 0u8..52 {
        for other in 0u8..52 {
            let a = Card::from_index(index).unwrap();
            let b = Card::from_index(other).unwrap();
            assert_eq!(a < b, a.sort_key() < b.sort_key());
        }
    }
}

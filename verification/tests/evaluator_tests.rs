use holdem_rsources::{
    evaluate_7_cards, evaluate_7_cards_fast, Card, Hand, HandCategory, HandEvaluator, HandRanking,
    LookupEvaluator, Suit, Value,
};

fn make_card(value: Value, suit: Suit) -> Card {
    Card::new(value, suit)
}

fn cards_to_hand(cards: &[Card]) -> Hand {
    Hand::from_cards(cards)
}

fn rank_text(text: &str) -> HandRanking {
    LookupEvaluator::new().evaluate(&Hand::parse(text).unwrap())
}

#[test]
fn test_high_card() {
    let evaluator = LookupEvaluator::new();
    let hand = cards_to_hand(&[
        make_card(Value::Ace, Suit::Spades),
        make_card(Value::King, Suit::Hearts),
        make_card(Value::Queen, Suit::Diamonds),
        make_card(Value::Jack, Suit::Clubs),
        make_card(Value::Nine, Suit::Spades),
    ]);

    let ranking = evaluator.evaluate(&hand);
    assert_eq!(ranking.category(), HandCategory::HighCard);
}

#[test]
fn test_pair() {
    let evaluator = LookupEvaluator::new();
    let hand = cards_to_hand(&[
        make_card(Value::Ace, Suit::Spades),
        make_card(Value::Ace, Suit::Hearts),
        make_card(Value::King, Suit::Diamonds),
        make_card(Value::Queen, Suit::Clubs),
        make_card(Value::Jack, Suit::Spades),
    ]);

    let ranking = evaluator.evaluate(&hand);
    assert_eq!(ranking.category(), HandCategory::OnePair);
}

#[test]
fn test_two_pair() {
    let evaluator = LookupEvaluator::new();
    let hand = cards_to_hand(&[
        make_card(Value::Ace, Suit::Spades),
        make_card(Value::Ace, Suit::Hearts),
        make_card(Value::King, Suit::Diamonds),
        make_card(Value::King, Suit::Clubs),
        make_card(Value::Queen, Suit::Spades),
    ]);

    let ranking = evaluator.evaluate(&hand);
    assert_eq!(ranking.category(), HandCategory::TwoPair);
}

#[test]
fn test_three_of_a_kind() {
    let evaluator = LookupEvaluator::new();
    let hand = cards_to_hand(&[
        make_card(Value::Ace, Suit::Spades),
        make_card(Value::Ace, Suit::Hearts),
        make_card(Value::Ace, Suit::Diamonds),
        make_card(Value::King, Suit::Clubs),
        make_card(Value::Queen, Suit::Spades),
    ]);

    let ranking = evaluator.evaluate(&hand);
    assert_eq!(ranking.category(), HandCategory::ThreeOfAKind);
}

#[test]
fn test_straight() {
    let evaluator = LookupEvaluator::new();
    let hand = cards_to_hand(&[
        make_card(Value::Ten, Suit::Spades),
        make_card(Value::Jack, Suit::Hearts),
        make_card(Value::Queen, Suit::Diamonds),
        make_card(Value::King, Suit::Clubs),
        make_card(Value::Ace, Suit::Spades),
    ]);

    let ranking = evaluator.evaluate(&hand);
    assert_eq!(ranking.category(), HandCategory::Straight);
}

#[test]
fn test_wheel_straight() {
    let evaluator = LookupEvaluator::new();
    let hand = cards_to_hand(&[
        make_card(Value::Ace, Suit::Spades),
        make_card(Value::Two, Suit::Hearts),
        make_card(Value::Three, Suit::Diamonds),
        make_card(Value::Four, Suit::Clubs),
        make_card(Value::Five, Suit::Spades),
    ]);

    let ranking = evaluator.evaluate(&hand);
    assert_eq!(ranking.category(), HandCategory::Straight);
}

#[test]
fn test_flush() {
    let evaluator = LookupEvaluator::new();
    let hand = cards_to_hand(&[
        make_card(Value::Ace, Suit::Spades),
        make_card(Value::King, Suit::Spades),
        make_card(Value::Queen, Suit::Spades),
        make_card(Value::Jack, Suit::Spades),
        make_card(Value::Nine, Suit::Spades),
    ]);

    let ranking = evaluator.evaluate(&hand);
    assert_eq!(ranking.category(), HandCategory::Flush);
}

#[test]
fn test_full_house() {
    let evaluator = LookupEvaluator::new();
    let hand = cards_to_hand(&[
        make_card(Value::Ace, Suit::Spades),
        make_card(Value::Ace, Suit::Hearts),
        make_card(Value::Ace, Suit::Diamonds),
        make_card(Value::King, Suit::Clubs),
        make_card(Value::King, Suit::Spades),
    ]);

    let ranking = evaluator.evaluate(&hand);
    assert_eq!(ranking.category(), HandCategory::FullHouse);
}

#[test]
fn test_four_of_a_kind() {
    let evaluator = LookupEvaluator::new();
    let hand = cards_to_hand(&[
        make_card(Value::Ace, Suit::Spades),
        make_card(Value::Ace, Suit::Hearts),
        make_card(Value::Ace, Suit::Diamonds),
        make_card(Value::Ace, Suit::Clubs),
        make_card(Value::King, Suit::Spades),
    ]);

    let ranking = evaluator.evaluate(&hand);
    assert_eq!(ranking.category(), HandCategory::FourOfAKind);
}

#[test]
fn test_straight_flush() {
    let evaluator = LookupEvaluator::new();
    let hand = cards_to_hand(&[
        make_card(Value::Nine, Suit::Spades),
        make_card(Value::Ten, Suit::Spades),
        make_card(Value::Jack, Suit::Spades),
        make_card(Value::Queen, Suit::Spades),
        make_card(Value::King, Suit::Spades),
    ]);

    let ranking = evaluator.evaluate(&hand);
    assert_eq!(ranking.category(), HandCategory::StraightFlush);
}

#[test]
fn test_royal_flush() {
    let evaluator = LookupEvaluator::new();
    let hand = cards_to_hand(&[
        make_card(Value::Ten, Suit::Spades),
        make_card(Value::Jack, Suit::Spades),
        make_card(Value::Queen, Suit::Spades),
        make_card(Value::King, Suit::Spades),
        make_card(Value::Ace, Suit::Spades),
    ]);

    let ranking = evaluator.evaluate(&hand);
    assert_eq!(ranking.category(), HandCategory::StraightFlush);
}

#[test]
fn test_hand_comparison() {
    let evaluator = LookupEvaluator::new();

    let pair = cards_to_hand(&[
        make_card(Value::Ace, Suit::Spades),
        make_card(Value::Ace, Suit::Hearts),
        make_card(Value::King, Suit::Diamonds),
        make_card(Value::Queen, Suit::Clubs),
        make_card(Value::Jack, Suit::Spades),
    ]);

    let two_pair = cards_to_hand(&[
        make_card(Value::King, Suit::Spades),
        make_card(Value::King, Suit::Hearts),
        make_card(Value::Queen, Suit::Diamonds),
        make_card(Value::Queen, Suit::Clubs),
        make_card(Value::Jack, Suit::Spades),
    ]);

    let pair_rank = evaluator.evaluate(&pair);
    let two_pair_rank = evaluator.evaluate(&two_pair);

    assert!(two_pair_rank > pair_rank);
}

#[test]
fn test_category_ordering_on_example_hands() {
    let hands = [
        "As Kh Qd Jc 9s",
        "As Ah Kd Qc Js",
        "As Ah Kd Kc Qs",
        "As Ah Ad Kc Qs",
        "Ts Jh Qd Kc As",
        "As Ks Qs Js 9s",
        "As Ah Ad Kc Ks",
        "As Ah Ad Ac Ks",
        "9s Ts Js Qs Ks",
    ];
    let categories = [
        HandCategory::HighCard,
        HandCategory::OnePair,
        HandCategory::TwoPair,
        HandCategory::ThreeOfAKind,
        HandCategory::Straight,
        HandCategory::Flush,
        HandCategory::FullHouse,
        HandCategory::FourOfAKind,
        HandCategory::StraightFlush,
    ];
    let mut last: Option<HandRanking> = None;
    for (text, category) in hands.iter().zip(categories.iter()) {
        let ranking = rank_text(text);
        assert_eq!(ranking.category(), *category);
        if let Some(weaker) = last {
            assert!(ranking > weaker);
            assert!(ranking.score() > weaker.score());
        }
        last = Some(ranking);
    }
}

#[test]
fn test_nine_high_straight_flush_is_no_plain_flush() {
    let ranking = rank_text("9s 8s 7s 6s 5s");
    assert_eq!(ranking.category(), HandCategory::StraightFlush);
    assert_eq!(ranking.score(), (8 << 24) | 7);
    assert!(!ranking.is_royal_flush());
}

#[test]
fn test_royal_flush_is_detected() {
    let royal = rank_text("Th Jh Qh Kh Ah");
    assert_eq!(royal.score(), (8 << 24) | 12);
    assert!(royal.is_royal_flush());
    let king_high = rank_text("9h Th Jh Qh Kh");
    assert_eq!(king_high.score(), (8 << 24) | 11);
    assert!(!king_high.is_royal_flush());
    let wheel = rank_text("Ad 2d 3d 4d 5d");
    assert_eq!(wheel.score(), (8 << 24) | 3);
}

#[test]
fn test_exact_scores_of_five_card_hands() {
    // High card: the five ranks in base sixteen.
    assert_eq!(rank_text("As Kh Qd Jc 9s").score(), 0xCBA97);
    // One pair of aces, kickers K Q J.
    assert_eq!(rank_text("As Ah Kd Qc Js").score(), (1 << 24) | 0xCBA90);
    // Two pair, aces and kings, queen kicker.
    assert_eq!(rank_text("As Ah Kd Kc Qs").score(), (2 << 24) | 0xCBA00);
    // Trips of aces, kickers K Q.
    assert_eq!(rank_text("As Ah Ad Kc Qs").score(), (3 << 24) | 0xCBA00);
    // Straights: the high card alone.
    assert_eq!(rank_text("Ts Jh Qd Kc As").score(), (4 << 24) | 12);
    assert_eq!(rank_text("As 2h 3d 4c 5s").score(), (4 << 24) | 3);
    assert_eq!(rank_text("2s 3h 4d 5c 6s").score(), (4 << 24) | 4);
    // A plain flush: the five ranks in base sixteen.
    assert_eq!(rank_text("As Ks Qs Js 9s").score(), (5 << 24) | 0xCBA97);
    assert_eq!(rank_text("7c 5c 4c 3c 2c").score(), (5 << 24) | 0x53210);
    // Full house, aces over kings.
    assert_eq!(rank_text("As Ah Ad Kc Ks").score(), (6 << 24) | 0xCB000);
    // Quads of aces, king kicker.
    assert_eq!(rank_text("As Ah Ad Ac Ks").score(), (7 << 24) | 0xCB000);
}

#[test]
fn test_short_hands_rank_lowest() {
    let evaluator = LookupEvaluator::new();
    assert_eq!(evaluator.evaluate(&Hand::new()), HandRanking::minimum());
    assert_eq!(rank_text("As Ah Ad Ac"), HandRanking::minimum());
    assert_eq!(evaluator.evaluate_u64(0b1111), HandRanking::minimum());
}

#[test]
fn test_seven_card_hands() {
    // Two hearts short of a flush: the pair decides.
    assert_eq!(
        rank_text("As Ah Kd Qc Js 9h 2h").score(),
        (1 << 24) | 0xCBA90
    );
    // Three pairs: the kicker is the highest rank beside the two best pairs.
    assert_eq!(
        rank_text("As Ah Kd Kc 2s 2h Qd").score(),
        (2 << 24) | 0xCBA00
    );
    assert_eq!(
        rank_text("As Ah Kd Kc Qs Qh 2d").score(),
        (2 << 24) | 0xCBA00
    );
    // Two trips make a full house of the higher over the lower.
    assert_eq!(
        rank_text("As Ah Ad Kc Ks Kh 2d").score(),
        (6 << 24) | 0xCB000
    );
    // Quads: the kicker is the highest rank beside them.
    assert_eq!(
        rank_text("3s 3h 3d 3c Ks Kh Kd").score(),
        (7 << 24) | 0x1B000
    );
    assert_eq!(
        rank_text("3s 3h 3d 3c Ks Kh Ad").score(),
        (7 << 24) | 0x1C000
    );
    // Six of a suit: the five that make the straight flush count.
    assert_eq!(
        rank_text("As 9s 8s 7s 6s 5s 2d").score(),
        (8 << 24) | 7
    );
    // Six of a suit without a straight: the five highest count.
    assert_eq!(
        rank_text("As Qs 8s 7s 6s 5s 2d").score(),
        (5 << 24) | 0xCA654
    );
    // A pair beside a straight: the straight counts.
    assert_eq!(
        rank_text("9h 8d 7c 6s 5h 5d 2c").score(),
        (4 << 24) | 7
    );
    // A full house beside a flush: the full house counts.
    assert_eq!(
        rank_text("2h 3h 7h 7s 7d 3s 9h").score(),
        (6 << 24) | 0x51000
    );
    // Seven distinct ranks without flush: the best straight.
    assert_eq!(
        rank_text("3s 4h 5d 6c 7s 8h Kd").score(),
        (4 << 24) | 6
    );
    // No straight, no pair: the five highest ranks.
    assert_eq!(
        rank_text("As Kh Qd Jc 9s 7h 2d").score(),
        0xCBA97
    );
    // A flush beats three of a kind.
    assert_eq!(
        rank_text("2h 3h 4h 5h 7h 7s 7d").category(),
        HandCategory::Flush
    );
}

#[test]
fn test_evaluate_u64_ignores_bits_past_the_deck() {
    let evaluator = LookupEvaluator::new();
    let hand = Hand::parse("As Ah Kd Qc Js").unwrap();
    let bits = hand.as_u64();
    assert_eq!(evaluator.evaluate_u64(bits), evaluator.evaluate(&hand));
    assert_eq!(
        evaluator.evaluate_u64(bits | (1 << 60)),
        evaluator.evaluate(&hand)
    );
    assert_eq!(evaluate_7_cards_fast(&evaluator, bits), evaluator.evaluate(&hand));
}

#[test]
fn test_evaluate_7_cards_finds_best_five() {
    let evaluator = LookupEvaluator::default();
    let cards = [
        make_card(Value::Ace, Suit::Spades),
        make_card(Value::Nine, Suit::Spades),
        make_card(Value::Eight, Suit::Spades),
        make_card(Value::Seven, Suit::Spades),
        make_card(Value::Six, Suit::Spades),
        make_card(Value::Five, Suit::Spades),
        make_card(Value::Two, Suit::Diamonds),
    ];
    // Leaving out the ace and the deuce shows the nine-high straight flush.
    let best = evaluate_7_cards(&evaluator, &cards);
    assert_eq!(best.score(), (8 << 24) | 7);

    let cards = [
        make_card(Value::Five, Suit::Spades),
        make_card(Value::Six, Suit::Hearts),
        make_card(Value::Seven, Suit::Diamonds),
        make_card(Value::Eight, Suit::Clubs),
        make_card(Value::Nine, Suit::Spades),
        make_card(Value::Nine, Suit::Hearts),
        make_card(Value::King, Suit::Diamonds),
    ];
    // Five of the cards show the straight, whatever the pair beside them.
    let best = evaluate_7_cards(&evaluator, &cards);
    assert_eq!(best.score(), (4 << 24) | 7);
    let whole = Hand::from_cards(&cards);
    assert_eq!(evaluator.evaluate(&whole), best);
    assert_eq!(evaluate_7_cards_fast(&evaluator, whole.as_u64()), best);
}

#[test]
fn test_flushes_are_ordered_by_their_ranks() {
    let ace_high = rank_text("As Ks Qs Js 9s");
    let king_high = rank_text("Ks Qs Js 9s 8s");
    assert_eq!(ace_high.category(), HandCategory::Flush);
    assert_eq!(king_high.category(), HandCategory::Flush);
    assert!(ace_high > king_high);
    // The last card decides where the first four are alike.
    assert!(rank_text("Ah Kh Qh Jh 9h") > rank_text("Ad Kd Qd Jd 8d"));
    // The suit decides nothing.
    assert_eq!(rank_text("Ah Kh Qh Jh 9h"), rank_text("Ad Kd Qd Jd 9d"));
}

#[test]
fn test_whole_mask_and_best_five_agree() {
    let evaluator = LookupEvaluator::new();
    let hands = [
        "9h 8d 7c 6s 5h 5d 2c",
        "As 9s 8s 7s 6s 5s 2d",
        "As Ah Kd Kc 2s 2h Qd",
        "3s 3h 3d 3c Ks Kh Ad",
        "2h 3h 4h 5h 7h 7s 7d",
        "As Kh Qd Jc 9s 7h 2d",
        "Ah 2d 3c 4s 5h Kd Kc",
    ];
    for text in hands {
        let hand = Hand::parse(text).unwrap();
        let cards = hand.card_set().to_vec();
        let seven = [cards[0], cards[1], cards[2], cards[3], cards[4], cards[5], cards[6]];
        let best = evaluate_7_cards(&evaluator, &seven);
        assert_eq!(evaluator.evaluate(&hand), best, "{}", text);
        assert_eq!(evaluate_7_cards_fast(&evaluator, hand.as_u64()), best, "{}", text);
    }
    // Six cards: the best five of them.
    assert_eq!(rank_text("9h 8d 7c 6s 5h 5d").score(), (4 << 24) | 7);
}

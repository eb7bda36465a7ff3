use holdem_rsources::{encode_kickers, HandCategory, HandRanking};
use std::cmp::Ordering;

#[test]
fn test_hand_category_ordering() {
    assert!(HandCategory::OnePair > HandCategory::HighCard);
    assert!(HandCategory::TwoPair > HandCategory::OnePair);
    assert!(HandCategory::StraightFlush > HandCategory::FourOfAKind);
}

#[test]
fn test_hand_ranking_comparison() {
    let high_card = HandRanking::high_card(&[12, 10, 8, 6, 4]);
    let pair = HandRanking::one_pair(10, &[12, 8, 6]);
    let two_pair = HandRanking::two_pair(10, 8, 12);
    let trips = HandRanking::three_of_a_kind(10, &[12, 8]);
    let straight = HandRanking::straight(10);
    let flush = HandRanking::flush(&[12, 10, 8, 6, 4]);
    let full_house = HandRanking::full_house(10, 8);
    let quads = HandRanking::four_of_a_kind(10, 12);
    let straight_flush = HandRanking::straight_flush(10);
    let royal_flush = HandRanking::royal_flush();

    assert!(pair > high_card);
    assert!(two_pair > pair);
    assert!(trips > two_pair);
    assert!(straight > trips);
    assert!(flush > straight);
    assert!(full_house > flush);
    assert!(quads > full_house);
    assert!(straight_flush > quads);
    assert!(royal_flush > straight_flush);
}

#[test]
fn test_same_category_comparison() {
    let pair_aces = HandRanking::one_pair(12, &[10, 8, 6]);
    let pair_kings = HandRanking::one_pair(11, &[12, 10, 8]);
    assert!(pair_aces > pair_kings);

    let pair_aces_good_kicker = HandRanking::one_pair(12, &[11, 10, 9]);
    let pair_aces_bad_kicker = HandRanking::one_pair(12, &[10, 9, 8]);
    assert!(pair_aces_good_kicker > pair_aces_bad_kicker);
}

#[test]
fn test_royal_flush_detection() {
    let royal = HandRanking::royal_flush();
    let sf_king = HandRanking::straight_flush(11);

    assert!(royal.is_royal_flush());
    assert!(!sf_king.is_royal_flush());
}

#[test]
fn test_category_extraction() {
    assert_eq!(
        HandRanking::high_card(&[12]).category(),
        HandCategory::HighCard
    );
    assert_eq!(
        HandRanking::one_pair(10, &[]).category(),
        HandCategory::OnePair
    );
    assert_eq!(
        HandRanking::royal_flush().category(),
        HandCategory::StraightFlush
    );
}

#[test]
fn test_encode_kickers_exact_values() {
    assert_eq!(encode_kickers(&[]), 0);
    assert_eq!(encode_kickers(&[12]), 12 << 16);
    assert_eq!(encode_kickers(&[12, 10, 8, 6, 4]), 0xCA864);
    // Only the first five ranks count.
    assert_eq!(encode_kickers(&[12, 10, 8, 6, 4, 3, 2]), 0xCA864);
    assert_eq!(encode_kickers(&[1, 2]), 0x12000);
    // Ranks of sixteen and more run into the place above.
    assert_eq!(encode_kickers(&[0, 16]), 1 << 16);
    assert_eq!(encode_kickers(&[255, 255, 255, 255, 255]), 0xFFFFFF);
}

#[test]
fn test_scores_are_category_and_tiebreak() {
    assert_eq!(HandRanking::high_card(&[12, 10, 8, 6, 4]).score(), 0xCA864);
    assert_eq!(HandRanking::one_pair(10, &[12, 8, 6]).score(), (1 << 24) | 0xAC860);
    assert_eq!(HandRanking::one_pair(10, &[12, 8, 6, 5, 4]).score(), (1 << 24) | 0xAC860);
    assert_eq!(HandRanking::two_pair(10, 8, 12).score(), (2 << 24) | 0xA8C00);
    assert_eq!(HandRanking::three_of_a_kind(10, &[12, 8]).score(), (3 << 24) | 0xAC800);
    assert_eq!(HandRanking::three_of_a_kind(10, &[12, 8, 7]).score(), (3 << 24) | 0xAC800);
    assert_eq!(HandRanking::straight(10).score(), (4 << 24) | 10);
    assert_eq!(HandRanking::flush(&[12, 10, 8, 6, 4]).score(), (5 << 24) | 0xCA864);
    assert_eq!(HandRanking::full_house(10, 8).score(), (6 << 24) | 0xA8000);
    assert_eq!(HandRanking::four_of_a_kind(10, 12).score(), (7 << 24) | 0xAC000);
    assert_eq!(HandRanking::straight_flush(10).score(), (8 << 24) | 10);
    assert_eq!(HandRanking::royal_flush().score(), (8 << 24) | 12);
    assert_eq!(HandRanking::new(HandCategory::Flush, 77).score(), (5 << 24) | 77);
    assert_eq!(HandRanking::from_score(42).score(), 42);
    assert_eq!(HandRanking::minimum().score(), 0);
    assert_eq!(HandRanking::maximum().score(), u32::MAX);
    assert_eq!(HandRanking::default(), HandRanking::minimum());
}

#[test]
fn test_category_of_any_score() {
    assert_eq!(HandRanking::from_score(0).category(), HandCategory::HighCard);
    assert_eq!(HandRanking::from_score((8 << 24) - 1).category(), HandCategory::FourOfAKind);
    assert_eq!(HandRanking::from_score(8 << 24).category(), HandCategory::StraightFlush);
    // A category field that names no category reads as the weakest.
    assert_eq!(HandRanking::from_score(9 << 24).category(), HandCategory::HighCard);
    assert_eq!(HandRanking::maximum().category(), HandCategory::HighCard);
    assert!(!HandRanking::from_score((7 << 24) | 12).is_royal_flush());
    assert!(HandRanking::from_score((8 << 24) | 0x1C).is_royal_flush());
}

#[test]
fn test_compare_and_names() {
    let low = HandRanking::straight(5);
    let high = HandRanking::straight(9);
    assert_eq!(low.compare(&high), Ordering::Less);
    assert_eq!(high.compare(&low), Ordering::Greater);
    assert_eq!(low.compare(&low), Ordering::Equal);
    assert_eq!(HandCategory::ThreeOfAKind.name(), "Three of a Kind");
    assert_eq!(HandCategory::HighCard.to_string(), "High Card");
    assert_eq!(HandCategory::FullHouse.code(), 6);
    assert_eq!(HandRanking::royal_flush().to_string(), "Royal Flush");
    assert_eq!(HandRanking::straight_flush(11).to_string(), "Straight Flush");
    assert_eq!(HandRanking::full_house(3, 2).to_string(), "Full House");
}

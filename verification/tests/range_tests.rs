use holdem_rsources::{
    Card, CardSet, EquityCalculator, EquityResult, Fraction, HandPattern, HoleCards, Range,
    RangeParseError, Suit, Value,
};
use std::str::FromStr;

const TOLERANCE: f64 = 1.0;

fn assert_within_tolerance(actual: f64, expected: f64, tolerance: f64) {
    let min = expected - tolerance;
    let max = expected + tolerance;
    assert!(
        actual >= min && actual <= max,
        "assertion failed: value is within tolerance\n  actual: {:.2}%\n  expected: {:.2}% ±{:.2}%",
        actual,
        expected,
        tolerance
    );
}

fn as_float(f: Fraction) -> f64 {
    f.numerator as f64 / f.denominator as f64
}

#[test]
fn test_parse_single_pair() {
    let range = Range::from_str("AA").unwrap();
    assert_eq!(range.combo_count(None), 6);
}

#[test]
fn test_parse_pair_plus() {
    let range = Range::from_str("QQ+").unwrap();
    // QQ (6) + KK (6) + AA (6) = 18
    assert_eq!(range.combo_count(None), 18);
}

#[test]
fn test_parse_suited() {
    let range = Range::from_str("AKs").unwrap();
    assert_eq!(range.combo_count(None), 4);
}

#[test]
fn test_parse_suited_plus() {
    let range = Range::from_str("ATs+").unwrap();
    // ATs, AJs, AQs, AKs = 4 * 4 = 16
    assert_eq!(range.combo_count(None), 16);
}

#[test]
fn test_parse_offsuit() {
    let range = Range::from_str("AKo").unwrap();
    assert_eq!(range.combo_count(None), 12);
}

#[test]
fn test_parse_offsuit_plus() {
    let range = Range::from_str("AQo+").unwrap();
    // AQo, AKo = 12 + 12 = 24
    assert_eq!(range.combo_count(None), 24);
}

#[test]
fn test_parse_any() {
    let range = Range::from_str("AK").unwrap();
    assert_eq!(range.combo_count(None), 16);
}

#[test]
fn test_parse_any_plus() {
    let range = Range::from_str("AQ+").unwrap();
    // AQ (16) + AK (16) = 32
    assert_eq!(range.combo_count(None), 32);
}

#[test]
fn test_parse_complex_range() {
    let range = Range::from_str("AA, KK, AKs, AQs, AKo").unwrap();
    // AA (6) + KK (6) + AKs (4) + AQs (4) + AKo (12) = 32
    assert_eq!(range.combo_count(None), 32);
}

#[test]
fn test_parse_premium_range() {
    let range = Range::from_str("QQ+, AK").unwrap();
    // QQ (6) + KK (6) + AA (6) + AK (16) = 34
    assert_eq!(range.combo_count(None), 34);
}

#[test]
fn test_combo_breakdown() {
    let range = Range::from_str("AA, AKs, AKo").unwrap();
    let breakdown = range.combo_breakdown(None);

    assert_eq!(breakdown.pairs, 6);
    assert_eq!(breakdown.suited, 4);
    assert_eq!(breakdown.offsuit, 12);
    assert_eq!(breakdown.total, 22);
}

#[test]
fn test_range_with_dead_cards() {
    let range = Range::from_str("AA").unwrap();

    assert_eq!(range.combo_count(None), 6);

    let mut dead = CardSet::new();
    dead.insert(Card::try_from("Ah").unwrap());
    assert_eq!(range.combo_count(Some(dead)), 3);

    dead.insert(Card::try_from("As").unwrap());
    assert_eq!(range.combo_count(Some(dead)), 1);
}

#[test]
fn test_to_hole_cards() {
    let range = Range::from_str("KK").unwrap();
    let hole_cards = range.to_hole_cards(None);

    assert_eq!(hole_cards.len(), 6);

    for hc in hole_cards {
        assert!(hc.is_pair());
        assert_eq!(hc.high().value, Value::King);
    }
}

#[test]
fn test_suited_combos() {
    let range = Range::from_str("AKs").unwrap();
    let hole_cards = range.to_hole_cards(None);

    assert_eq!(hole_cards.len(), 4);

    for hc in hole_cards {
        assert!(hc.is_suited());
    }
}

#[test]
fn test_offsuit_combos() {
    let range = Range::from_str("AKo").unwrap();
    let hole_cards = range.to_hole_cards(None);

    assert_eq!(hole_cards.len(), 12);

    for hc in hole_cards {
        assert!(!hc.is_suited());
    }
}

#[test]
fn test_contains() {
    let range = Range::from_str("AA, KK, AKs").unwrap();

    let aa = HoleCards::from_str("AhAs").unwrap();
    assert!(range.contains(&aa));

    let kk = HoleCards::from_str("KdKc").unwrap();
    assert!(range.contains(&kk));

    let aks = HoleCards::from_str("AhKh").unwrap();
    assert!(range.contains(&aks));

    let ako = HoleCards::from_str("AhKd").unwrap();
    assert!(!range.contains(&ako));

    let qq = HoleCards::from_str("QhQd").unwrap();
    assert!(!range.contains(&qq));
}

#[test]
fn test_broadway_range() {
    let range = Range::from_str("TT+, AK, AQ, AJ, KQ").unwrap();
    let breakdown = range.combo_breakdown(None);

    // TT, JJ, QQ, KK, AA = 5 * 6 = 30 pairs
    // AK, AQ, AJ, KQ = 4 * 16 = 64 others
    assert_eq!(breakdown.total, 94);
}

#[test]
fn test_suited_connectors() {
    let range = Range::from_str("JTs, T9s, 98s, 87s").unwrap();
    let breakdown = range.combo_breakdown(None);

    assert_eq!(breakdown.suited, 16);
    assert_eq!(breakdown.offsuit, 0);
    assert_eq!(breakdown.pairs, 0);
}

#[test]
fn test_range_display() {
    let range = Range::from_str("AA, KK+").unwrap();
    let display = range.to_string();

    assert!(display.contains("AA") || display.contains("KK"));
}

#[test]
fn test_range_text_is_exact() {
    let range = Range::from_str(" AA ,KK+,, AKs , kq, 98o+ ,AA").unwrap();
    assert_eq!(range.to_string(), "AA, KK+, AKs, KQ, 98o+");
    assert_eq!(Range::new().to_string(), "");
    assert_eq!(Range::default().combo_count(None), 0);
    assert_eq!(Range::from_str("").unwrap().combo_count(None), 0);
    assert_eq!(Range::from_str(" , ,").unwrap().combo_count(None), 0);
    assert_eq!(range.clone().to_string(), range.to_string());
}

#[test]
fn test_pattern_parse_variants() {
    assert_eq!(HandPattern::parse("AA"), Ok(HandPattern::Pair(Value::Ace)));
    assert_eq!(HandPattern::parse("QQ+"), Ok(HandPattern::PairPlus(Value::Queen)));
    assert_eq!(
        HandPattern::parse("AKs"),
        Ok(HandPattern::Suited(Value::Ace, Value::King))
    );
    // The higher rank comes first whatever the order written.
    assert_eq!(
        HandPattern::parse("KAs"),
        Ok(HandPattern::Suited(Value::Ace, Value::King))
    );
    assert_eq!(
        HandPattern::parse("ATs+"),
        Ok(HandPattern::SuitedPlus(Value::Ace, Value::Ten))
    );
    assert_eq!(
        HandPattern::parse("AKo"),
        Ok(HandPattern::Offsuit(Value::Ace, Value::King))
    );
    assert_eq!(
        HandPattern::parse("AQo+"),
        Ok(HandPattern::OffsuitPlus(Value::Ace, Value::Queen))
    );
    assert_eq!(
        HandPattern::parse("72"),
        Ok(HandPattern::Any(Value::Seven, Value::Two))
    );
    assert_eq!(
        HandPattern::parse(" aq+ "),
        Ok(HandPattern::AnyPlus(Value::Ace, Value::Queen))
    );
    // After two equal ranks nothing may follow.
    assert_eq!(
        HandPattern::parse("AAs"),
        Err(RangeParseError::InvalidSuitMarker('s'))
    );
    assert_eq!(
        HandPattern::parse("TTx+"),
        Err(RangeParseError::InvalidSuitMarker('x'))
    );
    assert_eq!(
        Range::from_str("AAx").err(),
        Some(RangeParseError::InvalidSuitMarker('x'))
    );
    assert_eq!(
        Range::from_str("AA, AXs, K").err(),
        Some(RangeParseError::InvalidValue('X'))
    );
    assert_eq!(HandPattern::Suited(Value::Ace, Value::King).to_string(), "AKs");
    assert_eq!(HandPattern::OffsuitPlus(Value::Ace, Value::Two).to_string(), "A2o+");
    assert_eq!(HandPattern::PairPlus(Value::Ten).to_string(), "TT+");
    assert_eq!(HandPattern::Any(Value::King, Value::Queen).to_string(), "KQ");
}

#[test]
fn test_pattern_parse_errors() {
    assert_eq!(
        HandPattern::parse("A"),
        Err(RangeParseError::InvalidFormat(String::from("A")))
    );
    assert_eq!(
        HandPattern::parse(""),
        Err(RangeParseError::InvalidFormat(String::new()))
    );
    assert_eq!(
        HandPattern::parse(" AKso "),
        Err(RangeParseError::InvalidFormat(String::from("AKso")))
    );
    assert_eq!(
        HandPattern::parse("A+"),
        Err(RangeParseError::InvalidFormat(String::from("A+")))
    );
    assert_eq!(HandPattern::parse("XK"), Err(RangeParseError::InvalidValue('X')));
    assert_eq!(HandPattern::parse("A1s"), Err(RangeParseError::InvalidValue('1')));
    assert_eq!(
        HandPattern::parse("AKx"),
        Err(RangeParseError::InvalidSuitMarker('x'))
    );
    assert_eq!(
        HandPattern::parse("AKS"),
        Err(RangeParseError::InvalidSuitMarker('S'))
    );
    // The first token that fails decides.
    assert_eq!(
        Range::from_str("AA, AKx, ZZ").err(),
        Some(RangeParseError::InvalidSuitMarker('x'))
    );
    assert_eq!(
        Range::from_str("AA, K").err(),
        Some(RangeParseError::InvalidFormat(String::from("K")))
    );
    let mut range = Range::new();
    assert_eq!(range.add_pattern("QQ"), Ok(()));
    assert_eq!(range.add_pattern("QQ"), Ok(()));
    assert_eq!(range.add_pattern("Q?"), Err(RangeParseError::InvalidValue('?')));
    assert_eq!(range.to_string(), "QQ");
    assert_eq!(range.combo_count(None), 6);
}

#[test]
fn test_hole_cards_come_sorted_and_once() {
    let range = Range::from_str("AK, AKs, AK+, KK+, AA").unwrap();
    let combos = range.to_hole_cards(None);
    // AK (16) + KK (6) + AA (6), each once although three patterns give AKs.
    assert_eq!(combos.len(), 28);
    for pair in combos.windows(2) {
        let a = (pair[0].high().index(), pair[0].low().index());
        let b = (pair[1].high().index(), pair[1].low().index());
        assert!(a < b);
    }
    // Lowest key: the king of clubs with the king of diamonds.
    assert_eq!(combos[0].to_string(), "KcKd");
    assert_eq!(combos[27].to_string(), "AsAh");
}

#[test]
fn test_dead_cards_remove_every_combo_that_touches_them() {
    let range = Range::from_str("AK").unwrap();
    let ace = Card::new(Value::Ace, Suit::Spades);
    let king = Card::new(Value::King, Suit::Spades);
    let dead = CardSet::from_cards(&[ace, king]);
    let combos = range.to_hole_cards(Some(dead));
    // Three aces times three kings are left.
    assert_eq!(combos.len(), 9);
    for hc in &combos {
        assert!(!dead.contains(hc.high()));
        assert!(!dead.contains(hc.low()));
    }
    // A dead card outside the range changes nothing.
    let deuce = CardSet::from_card(Card::new(Value::Two, Suit::Clubs));
    assert_eq!(range.combo_count(Some(deuce)), 16);
    let breakdown = range.combo_breakdown(Some(dead));
    assert_eq!(breakdown.suited, 3);
    assert_eq!(breakdown.offsuit, 6);
    assert_eq!(breakdown.pairs, 0);
    assert_eq!(breakdown.total, 9);
}

#[test]
fn test_range_vs_hand_equity() {
    let range = Range::from_str("AA, KK").unwrap();
    let villain_hand = HoleCards::from_str("QdQc").unwrap();
    let calculator = EquityCalculator::new();

    let result = calculator.calculate_range_vs_hand(&range, &villain_hand, &[], 1000);

    assert_within_tolerance(as_float(result.range_percent()), 81.7, TOLERANCE);
    assert_eq!(result.combos_evaluated, 12); // 6 combos AA + 6 combos KK
}

#[test]
fn test_range_vs_range_equity() {
    let range1 = Range::from_str("AA").unwrap();
    let range2 = Range::from_str("KK").unwrap();
    let calculator = EquityCalculator::new();

    let result = calculator.calculate_range_vs_range(&range1, &range2, &[], 1000);

    assert_within_tolerance(as_float(result.range_percent()), 82.0, TOLERANCE);
}

#[test]
fn test_range_equity_with_nothing_to_play() {
    let calculator = EquityCalculator::new();
    let queens = Range::from_str("QQ").unwrap();
    // The opponent and the board hold three queens: no pair of queens is left.
    let villain = HoleCards::from_str("QdQc").unwrap();
    let board = [Card::try_from("Qh").unwrap()];
    let result = calculator.calculate_range_vs_hand(&queens, &villain, &board, 100);
    assert_eq!(result.range_equity, Fraction::new(0, 1));
    assert_eq!(result.opponent_equity, Fraction::new(1, 1));
    assert_eq!(result.tie_equity, Fraction::new(0, 1));
    assert_eq!(result.combos_evaluated, 0);
    assert_eq!(result.total_simulations, 0);

    // Between two ranges nobody has anything where nothing can be played.
    let empty = Range::new();
    let result = calculator.calculate_range_vs_range(&empty, &queens, &[], 100);
    assert_eq!(result.range_equity, Fraction::new(0, 1));
    assert_eq!(result.opponent_equity, Fraction::new(0, 1));
    assert_eq!(result.combos_evaluated, 0);
    let result = calculator.calculate_range_vs_range_sequential(&queens, &empty, &[], 100);
    assert_eq!(result.opponent_equity, Fraction::new(0, 1));
    assert_eq!(result.total_simulations, 0);

    // Two ranges whose every matchup shares a card.
    let aces_kings = Range::from_str("AKs").unwrap();
    let board = [
        Card::try_from("Ah").unwrap(),
        Card::try_from("Ad").unwrap(),
        Card::try_from("Ac").unwrap(),
    ];
    let result = calculator.calculate_range_vs_range(&aces_kings, &aces_kings, &board, 10);
    assert_eq!(result.combos_evaluated, 0);
    assert_eq!(result.range_equity, Fraction::new(0, 1));
}

#[test]
fn test_range_equity_counts_matchups() {
    let calculator = EquityCalculator::new();
    let aces = Range::from_str("AA").unwrap();
    let kings = Range::from_str("KK").unwrap();
    let result = calculator.calculate_range_vs_range(&aces, &kings, &[], 50);
    assert_eq!(result.combos_evaluated, 36);
    assert_eq!(result.total_simulations, 1800);
    assert_eq!(result.range_equity.denominator, 3600);
    assert_eq!(result.opponent_equity.denominator, 3600);
    assert_eq!(result.tie_equity.denominator, 1800);
    assert_eq!(
        result.range_equity.numerator + result.opponent_equity.numerator,
        3600
    );
    let sequential = calculator.calculate_range_vs_range_sequential(&aces, &kings, &[], 50);
    assert_eq!(sequential.combos_evaluated, 36);
    assert_eq!(sequential.total_simulations, 1800);

    // AA against AK: of the six pairs of aces, the three that hold the
    // ace of a matchup's AK are left out of that matchup.
    let ace_king = Range::from_str("AKs").unwrap();
    let pairs = EquityCalculator::matchups(&aces.to_hole_cards(None), &ace_king.to_hole_cards(None));
    assert_eq!(pairs.len(), 12);
    for (a, b) in &pairs {
        assert!(a.high() != b.high() && a.low() != b.high());
    }

    // Averaging exact results.
    let results = vec![
        EquityResult::from_tally(3, 1, 0),
        EquityResult::from_tally(0, 2, 2),
    ];
    let average = EquityCalculator::average_results(&results, 4);
    assert_eq!(average.range_equity, Fraction::new(8, 16));
    assert_eq!(average.opponent_equity, Fraction::new(8, 16));
    assert_eq!(average.tie_equity, Fraction::new(2, 8));
    assert_eq!(average.combos_evaluated, 2);
    assert_eq!(average.total_simulations, 8);
    assert_eq!(average.range_percent(), Fraction::new(800, 16));
    assert_eq!(average.opponent_percent(), Fraction::new(800, 16));
    assert_eq!(average.tie_percent(), Fraction::new(200, 8));
}

#[test]
fn test_ranges_compare_as_sets_of_patterns() {
    let a = Range::from_str("AA, KK+, AKs").unwrap();
    let b = Range::from_str("AKs, AA, KK+, AA").unwrap();
    let c = Range::from_str("AA, KK, AKs").unwrap();
    let d = Range::from_str("AA, KK+").unwrap();
    assert!(a.same_patterns(&b));
    assert!(b.same_patterns(&a));
    assert!(!a.same_patterns(&c));
    assert!(!a.same_patterns(&d));
    assert!(!d.same_patterns(&a));
    assert!(Range::new().same_patterns(&Range::default()));
    assert!(a.has_pattern(HandPattern::PairPlus(Value::King)));
    assert!(!a.has_pattern(HandPattern::Pair(Value::King)));
}

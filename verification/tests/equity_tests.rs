use holdem_rsources::{Card, EquityCalculator, EquityResult, Fraction, HoleCards, Outcome, Suit, Value};

const TOLERANCE: f64 = 1.0;
const STRICT_TOLERANCE: f64 = 0.1;

fn assert_within_tolerance(actual: f64, expected: f64, tolerance: f64) {
    let min = expected - tolerance;
    let max = expected + tolerance;
    assert!(
        actual >= min && actual <= max,
        "assertion failed: value is within tolerance\n  actual: {:.2}%\n  expected: {:.2}% ±{:.2}%\n  range: [{:.2}%, {:.2}%]",
        actual,
        expected,
        tolerance,
        min,
        max
    );
}

fn as_float(f: Fraction) -> f64 {
    f.numerator as f64 / f.denominator as f64
}

#[test]
fn test_assert_within_tolerance_pass() {
    assert_within_tolerance(50.0, 50.0, 1.0);
    assert_within_tolerance(50.5, 50.0, 1.0);
    assert_within_tolerance(49.5, 50.0, 1.0);
}

#[test]
#[should_panic(expected = "assertion failed")]
fn test_assert_within_tolerance_fail() {
    assert_within_tolerance(52.0, 50.0, 1.0);
}

#[test]
fn test_equity_aa_vs_kk_preflop() {
    let calc = EquityCalculator::new();

    let aa = HoleCards::new(
        Card::new(Value::Ace, Suit::Spades),
        Card::new(Value::Ace, Suit::Hearts),
    );
    // The kings are of the aces' suits: between two pairs the share
    // depends on the suits that they have in common, and lies at the value
    // held here where they have both.
    let kk = HoleCards::new(
        Card::new(Value::King, Suit::Spades),
        Card::new(Value::King, Suit::Hearts),
    );

    let result = calc.calculate_monte_carlo(&aa, &kk, &[], 50000);

    println!("AA vs KK preflop:");
    println!("  AA: {:.2}%", as_float(result.player1_percent()));
    println!("  KK: {:.2}%", as_float(result.player2_percent()));
    println!("  Tie: {:.2}%", as_float(result.tie_percent()));

    assert_within_tolerance(as_float(result.player1_percent()), 82.4, TOLERANCE);
    assert_within_tolerance(as_float(result.player2_percent()), 17.6, TOLERANCE);
}

#[test]
fn test_equity_ako_vs_ajs_preflop() {
    let calc = EquityCalculator::new();

    let ako = HoleCards::new(
        Card::new(Value::Ace, Suit::Spades),
        Card::new(Value::King, Suit::Hearts),
    );

    let ajs = HoleCards::new(
        Card::new(Value::Ace, Suit::Clubs),
        Card::new(Value::Jack, Suit::Clubs),
    );

    let result = calc.calculate_monte_carlo(&ako, &ajs, &[], 50000);

    println!("\nAKo (AsKh) vs AJs (AcJc) preflop:");
    println!("  AKo: {:.2}%", as_float(result.player1_percent()));
    println!("  AJs: {:.2}%", as_float(result.player2_percent()));
    println!("  Tie: {:.2}%", as_float(result.tie_percent()));

    assert_within_tolerance(as_float(result.player1_percent()), 69.8, TOLERANCE);
    assert_within_tolerance(as_float(result.player2_percent()), 30.2, TOLERANCE);
}

#[test]
fn test_equity_ako_vs_ajs_different_suits() {
    let calc = EquityCalculator::new();

    let ako = HoleCards::new(
        Card::new(Value::Ace, Suit::Hearts),
        Card::new(Value::King, Suit::Diamonds),
    );

    let ajs = HoleCards::new(
        Card::new(Value::Ace, Suit::Spades),
        Card::new(Value::Jack, Suit::Spades),
    );

    let result = calc.calculate_monte_carlo(&ako, &ajs, &[], 50000);

    println!("\nAKo (AhKd) vs AJs (AsJs) preflop:");
    println!("  AKo: {:.2}%", as_float(result.player1_percent()));
    println!("  AJs: {:.2}%", as_float(result.player2_percent()));
    println!("  Tie: {:.2}%", as_float(result.tie_percent()));

    assert_within_tolerance(as_float(result.player1_percent()), 69.8, TOLERANCE);
    assert_within_tolerance(as_float(result.player2_percent()), 30.2, TOLERANCE);
}

#[test]
fn test_equity_with_flop() {
    let calc = EquityCalculator::new();

    let hand1 = HoleCards::new(
        Card::new(Value::Ace, Suit::Spades),
        Card::new(Value::King, Suit::Spades),
    );
    let hand2 = HoleCards::new(
        Card::new(Value::Queen, Suit::Hearts),
        Card::new(Value::Queen, Suit::Diamonds),
    );

    let flop = vec![
        Card::new(Value::Queen, Suit::Clubs),
        Card::new(Value::Seven, Suit::Spades),
        Card::new(Value::Two, Suit::Spades),
    ];

    let result = calc.calculate_monte_carlo(&hand1, &hand2, &flop, 50000);

    println!("\nAKs vs QQ on the flop Qc7s2s:");
    println!("  AKs: {:.2}%", as_float(result.player1_percent()));
    println!("  QQ: {:.2}%", as_float(result.player2_percent()));
    println!("  Tie: {:.2}%", as_float(result.tie_percent()));

    assert_within_tolerance(as_float(result.player1_percent()), 25.5, TOLERANCE);
    assert_within_tolerance(as_float(result.player2_percent()), 74.5, TOLERANCE);
}

#[test]
fn test_exact_equity_postflop() {
    let calc = EquityCalculator::new();

    let hand1 = HoleCards::new(
        Card::new(Value::Ace, Suit::Spades),
        Card::new(Value::King, Suit::Spades),
    );
    let hand2 = HoleCards::new(
        Card::new(Value::Queen, Suit::Hearts),
        Card::new(Value::Queen, Suit::Diamonds),
    );

    let board = vec![
        Card::new(Value::Queen, Suit::Clubs),
        Card::new(Value::Seven, Suit::Spades),
        Card::new(Value::Two, Suit::Spades),
        Card::new(Value::Three, Suit::Hearts),
    ];

    let result = calc.calculate_exact(&hand1, &hand2, &board);

    println!("\nExact - AKs vs QQ on the turn Qc7s2s3h:");
    println!("  AKs: {:.2}%", as_float(result.player1_percent()));
    println!("  QQ: {:.2}%", as_float(result.player2_percent()));
    println!("  Simulations: {}", result.simulations);

    assert_eq!(result.simulations, 44);

    assert_within_tolerance(as_float(result.player1_percent()), 15.91, STRICT_TOLERANCE);
    assert_within_tolerance(as_float(result.player2_percent()), 84.09, STRICT_TOLERANCE);
}

#[test]
fn test_exact_equity_is_the_same_every_time() {
    let calc = EquityCalculator::new();
    let hand1 = HoleCards::parse("AsKs").unwrap();
    let hand2 = HoleCards::parse("QhQd").unwrap();
    let board = [
        Card::parse("Qc").unwrap(),
        Card::parse("7s").unwrap(),
        Card::parse("2s").unwrap(),
        Card::parse("3h").unwrap(),
    ];
    let first = calc.calculate_exact(&hand1, &hand2, &board);
    let second = calc.calculate_exact(&hand1, &hand2, &board);
    assert_eq!(first, second);
    // Seven spades are left that do not pair the board: 44 rivers, 7 wins.
    assert_eq!(first, EquityResult::from_tally(7, 37, 0));
    assert_eq!(first.player1_equity, Fraction::new(14, 88));
    assert_eq!(first.player2_equity, Fraction::new(74, 88));
    assert_eq!(first.tie_equity, Fraction::new(0, 44));
    assert_eq!(first.player1_percent(), Fraction::new(1400, 88));
}

#[test]
fn test_exact_equity_counts_every_completion() {
    let calc = EquityCalculator::new();
    let hand1 = HoleCards::parse("AsKs").unwrap();
    let hand2 = HoleCards::parse("QhQd").unwrap();
    let flop = [
        Card::parse("Qc").unwrap(),
        Card::parse("7s").unwrap(),
        Card::parse("2s").unwrap(),
    ];
    // 45 cards are left, two are to come: C(45, 2) = 990.
    let result = calc.calculate_exact(&hand1, &hand2, &flop);
    assert_eq!(result.simulations, 990);
    assert_eq!(result.tie_equity.denominator, 990);
    assert_eq!(result.player1_equity.denominator, 1980);
    // On a full board there is one showdown.
    let river = [
        Card::parse("Qc").unwrap(),
        Card::parse("7s").unwrap(),
        Card::parse("2s").unwrap(),
        Card::parse("3h").unwrap(),
        Card::parse("9s").unwrap(),
    ];
    let result = calc.calculate_exact(&hand1, &hand2, &river);
    assert_eq!(result, EquityResult::from_tally(1, 0, 0));
    assert_eq!(calc.showdown(&hand1, &hand2, &river), Outcome::Player1);
    assert_eq!(calc.showdown(&hand2, &hand1, &river), Outcome::Player2);
    assert_eq!(calc.showdown(&hand1, &hand1, &river), Outcome::Tie);
}

#[test]
fn test_monte_carlo_tallies_add_up() {
    let calc = EquityCalculator::default();
    let hand1 = HoleCards::parse("AsKs").unwrap();
    let hand2 = HoleCards::parse("QhQd").unwrap();
    let result = calc.calculate_monte_carlo(&hand1, &hand2, &[], 1000);
    assert_eq!(result.simulations, 1000);
    assert_eq!(result.tie_equity.denominator, 1000);
    assert_eq!(result.player1_equity.denominator, 2000);
    assert_eq!(result.player2_equity.denominator, 2000);
    // Each side's wins and half the ties: the two shares make the whole.
    assert_eq!(
        result.player1_equity.numerator + result.player2_equity.numerator,
        2000
    );
    // Not every draw gives the same winner: the deck is really shuffled.
    assert!(result.player1_equity.numerator > 0);
    assert!(result.player2_equity.numerator > 0);

    // On a full board nothing is left to chance.
    let river = [
        Card::parse("Qc").unwrap(),
        Card::parse("7s").unwrap(),
        Card::parse("2s").unwrap(),
        Card::parse("3h").unwrap(),
        Card::parse("9s").unwrap(),
    ];
    let result = calc.calculate_monte_carlo(&hand1, &hand2, &river, 25);
    assert_eq!(result, EquityResult::from_tally(25, 0, 0));

    // Without iterations there is nothing to divide by.
    let result = calc.calculate_monte_carlo(&hand1, &hand2, &[], 0);
    assert_eq!(result, EquityResult::from_tally(0, 0, 0));
    assert_eq!(result.player1_equity, Fraction::new(0, 0));
}

#[test]
fn test_aces_against_kings_by_common_suits() {
    // Exact shares are known for each number of suits in common; a long
    // run comes within a third of a point of each.
    let calc = EquityCalculator::new();
    let aces = HoleCards::parse("AsAh").unwrap();
    for (kings, expected) in [("KsKh", 82.64), ("KsKd", 81.95), ("KcKd", 81.26)] {
        let kings = HoleCards::parse(kings).unwrap();
        let result = calc.calculate_monte_carlo(&aces, &kings, &[], 400000);
        assert_within_tolerance(as_float(result.player1_percent()), expected, 0.35);
    }
}

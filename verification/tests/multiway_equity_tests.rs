use holdem_rsources::{
    Card, EquityCalculator, Fraction, HoleCards, LookupEvaluator, MultiPlayerEquityResult,
    MultiwayCalculator, MultiwayEquityCalculator,
};
use std::str::FromStr;

fn as_float(f: Fraction) -> f64 {
    f.numerator as f64 / f.denominator as f64
}

fn percent(result: &MultiPlayerEquityResult, player: usize) -> f64 {
    as_float(result.player_percent(player))
}

fn total(result: &MultiPlayerEquityResult) -> f64 {
    result.player_equities.iter().map(|f| as_float(*f)).sum()
}

#[test]
fn test_multiway_exact_three_players() {
    let calc = EquityCalculator::new();

    // Board: As Ks Qs Js Ts (royal flush on board)
    let board = vec![
        Card::try_from("As").unwrap(),
        Card::try_from("Ks").unwrap(),
        Card::try_from("Qs").unwrap(),
        Card::try_from("Js").unwrap(),
        Card::try_from("Ts").unwrap(),
    ];

    // All players tie with royal flush
    let hole_cards = vec![
        HoleCards::from_str("2h3h").unwrap(),
        HoleCards::from_str("4c5c").unwrap(),
        HoleCards::from_str("6d7d").unwrap(),
    ];

    let result = calc.calculate_multiway_exact(&hole_cards, &board);

    assert_eq!(result.num_players(), 3);
    assert_eq!(result.ties, 1);

    // Each player should have ~33.33% equity
    for i in 0..3 {
        assert!(
            (percent(&result, i) - 33.33).abs() < 0.1,
            "Player {} equity: {}%",
            i,
            percent(&result, i)
        );
    }
}

#[test]
fn test_multiway_exact_one_winner() {
    let calc = EquityCalculator::new();

    // Board: Ah Kh Qh 2c 3d
    let board = vec![
        Card::try_from("Ah").unwrap(),
        Card::try_from("Kh").unwrap(),
        Card::try_from("Qh").unwrap(),
        Card::try_from("2c").unwrap(),
        Card::try_from("3d").unwrap(),
    ];

    let hole_cards = vec![
        HoleCards::from_str("JhTh").unwrap(), // Royal flush
        HoleCards::from_str("AsKs").unwrap(), // Two pair
        HoleCards::from_str("QdQc").unwrap(), // Three of a kind
    ];

    let result = calc.calculate_multiway_exact(&hole_cards, &board);

    assert_eq!(result.num_players(), 3);
    assert_eq!(result.ties, 0);
    assert_eq!(result.wins[0], 1);
    assert_eq!(result.wins[1], 0);
    assert_eq!(result.wins[2], 0);

    assert!((percent(&result, 0) - 100.0).abs() < 0.01);
    assert!((percent(&result, 1) - 0.0).abs() < 0.01);
    assert!((percent(&result, 2) - 0.0).abs() < 0.01);
}

#[test]
fn test_multiway_monte_carlo_three_players() {
    let calc = EquityCalculator::new();

    let hole_cards = vec![
        HoleCards::from_str("AsAh").unwrap(), // AA
        HoleCards::from_str("KcKd").unwrap(), // KK
        HoleCards::from_str("QhQs").unwrap(), // QQ
    ];

    let result = calc.calculate_multiway_monte_carlo(&hole_cards, &[], 10000);

    assert_eq!(result.num_players(), 3);
    assert_eq!(result.simulations, 10000);

    println!("AA equity: {}%", percent(&result, 0));
    println!("KK equity: {}%", percent(&result, 1));
    println!("QQ equity: {}%", percent(&result, 2));

    assert!(percent(&result, 0) > 45.0);
    assert!(percent(&result, 1) > 18.0);
    assert!(percent(&result, 2) > 13.0);

    // AA should be ahead
    assert!(as_float(result.player_equities[0]) > as_float(result.player_equities[1]));
    assert!(as_float(result.player_equities[1]) > as_float(result.player_equities[2]));

    // Total equity should sum to ~100%
    assert!((total(&result) - 1.0).abs() < 0.01);
}

#[test]
fn test_multiway_monte_carlo_four_players() {
    let calc = EquityCalculator::new();

    let hole_cards = vec![
        HoleCards::from_str("AsAh").unwrap(), // AA
        HoleCards::from_str("KcKd").unwrap(), // KK
        HoleCards::from_str("QhQs").unwrap(), // QQ
        HoleCards::from_str("JdJc").unwrap(), // JJ
    ];

    let result = calc.calculate_multiway_monte_carlo(&hole_cards, &[], 5000);

    assert_eq!(result.num_players(), 4);

    println!("AA equity: {}%", percent(&result, 0));
    println!("KK equity: {}%", percent(&result, 1));
    println!("QQ equity: {}%", percent(&result, 2));
    println!("JJ equity: {}%", percent(&result, 3));

    // AA should still be ahead
    assert!(as_float(result.player_equities[0]) > as_float(result.player_equities[1]));

    // Total equity should sum to ~100%
    assert!((total(&result) - 1.0).abs() < 0.01);
}

#[test]
fn test_multiway_with_board() {
    let calc = EquityCalculator::new();

    let board = vec![
        Card::try_from("Ah").unwrap(),
        Card::try_from("Kh").unwrap(),
        Card::try_from("Qh").unwrap(),
    ];

    let hole_cards = vec![
        HoleCards::from_str("JhTh").unwrap(), // Royal flush draw
        HoleCards::from_str("AsKs").unwrap(), // Two pair
        HoleCards::from_str("2c3c").unwrap(), // Nothing
    ];

    let result = calc.calculate_multiway_monte_carlo(&hole_cards, &board, 5000);

    assert_eq!(result.num_players(), 3);

    println!("JhTh equity: {}%", percent(&result, 0));
    println!("AsKs equity: {}%", percent(&result, 1));
    println!("2c3c equity: {}%", percent(&result, 2));

    // JhTh has flush draw and straight draw, should have good equity
    assert!(percent(&result, 0) > 30.0);

    // Total equity should sum to ~100%
    assert!((total(&result) - 1.0).abs() < 0.01);
}

#[test]
fn test_multiway_nine_players_max() {
    let calc = EquityCalculator::new();
    let hole_cards = vec![
        HoleCards::from_str("AsAh").unwrap(),
        HoleCards::from_str("KcKd").unwrap(),
        HoleCards::from_str("QhQs").unwrap(),
        HoleCards::from_str("JdJc").unwrap(),
        HoleCards::from_str("ThTd").unwrap(),
        HoleCards::from_str("9s9h").unwrap(),
        HoleCards::from_str("8c8d").unwrap(),
        HoleCards::from_str("7h7s").unwrap(),
        HoleCards::from_str("6d6c").unwrap(), // 9 players - max allowed
    ];

    let result = calc.calculate_multiway_monte_carlo(&hole_cards, &[], 1000);

    assert_eq!(result.num_players(), 9);

    // AA should still have highest equity
    for i in 1..9 {
        assert!(as_float(result.player_equities[0]) > as_float(result.player_equities[i]));
    }

    // Total equity should sum to ~100%
    assert!((total(&result) - 1.0).abs() < 0.01);
}

#[test]
fn test_multiway_exact_shares_are_exact_fractions() {
    let calc = EquityCalculator::new();
    let board = [
        Card::parse("As").unwrap(),
        Card::parse("Ks").unwrap(),
        Card::parse("Qs").unwrap(),
        Card::parse("Js").unwrap(),
        Card::parse("Ts").unwrap(),
    ];
    let hole_cards = [
        HoleCards::parse("2h3h").unwrap(),
        HoleCards::parse("4c5c").unwrap(),
        HoleCards::parse("6d7d").unwrap(),
        HoleCards::parse("8d9d").unwrap(),
    ];
    let result = calc.calculate_multiway_exact(&hole_cards, &board);
    assert_eq!(result.ties, 1);
    assert_eq!(result.simulations, 1);
    assert_eq!(result.wins, vec![0, 0, 0, 0]);
    assert_eq!(result.player_equities, vec![Fraction::new(1, 4); 4]);
    assert_eq!(result.tie_percent(), Fraction::new(100, 1));
    assert_eq!(result.player_percent(0), Fraction::new(100, 4));
    assert_eq!(result.player_percent(7), Fraction::new(0, 1));

    // One winner has it all.
    let board = [
        Card::parse("Ah").unwrap(),
        Card::parse("Kd").unwrap(),
        Card::parse("7c").unwrap(),
        Card::parse("4s").unwrap(),
        Card::parse("2d").unwrap(),
    ];
    let hole_cards = [
        HoleCards::parse("AsAc").unwrap(),
        HoleCards::parse("QhJh").unwrap(),
    ];
    let result = calc.calculate_multiway_exact(&hole_cards, &board);
    assert_eq!(result.ties, 0);
    assert_eq!(result.wins, vec![1, 0]);
    assert_eq!(
        result.player_equities,
        vec![Fraction::new(2, 2), Fraction::new(0, 2)]
    );
}

#[test]
fn test_multiway_tie_share_goes_to_every_player() {
    // Two of three players share the best hand. The tie is shared out among
    // all three players, the third one too, although that player lost: the
    // shares are not what each player can expect to win. An independent
    // calculation gives one half, one half and nothing.
    let calc = EquityCalculator::new();
    let board = [
        Card::parse("Ah").unwrap(),
        Card::parse("Kd").unwrap(),
        Card::parse("7c").unwrap(),
        Card::parse("4s").unwrap(),
        Card::parse("2d").unwrap(),
    ];
    let hole_cards = [
        HoleCards::parse("QsJs").unwrap(),
        HoleCards::parse("QhJh").unwrap(),
        HoleCards::parse("9c8c").unwrap(),
    ];
    let evaluator = LookupEvaluator::new();
    let multiway = MultiwayCalculator::new(&evaluator);
    assert_eq!(multiway.winners(&hole_cards, &board), vec![0, 1]);
    let result = calc.calculate_multiway_exact(&hole_cards, &board);
    assert_eq!(result.ties, 1);
    assert_eq!(result.wins, vec![0, 0, 0]);
    assert_eq!(result.player_equities, vec![Fraction::new(1, 3); 3]);
    assert_eq!(multiway.calculate_exact(&hole_cards, &board), result);
}

#[test]
fn test_multiway_tally_and_shares() {
    // Trials: player 0 wins twice, player 2 once, two trials are shared
    // (one by two players, one by nobody at all).
    let trials = vec![vec![0], vec![2], vec![0, 1], vec![0], vec![]];
    let result = MultiwayCalculator::aggregate_results(trials, 3, 5);
    assert_eq!(result.wins, vec![2, 0, 1]);
    assert_eq!(result.ties, 2);
    assert_eq!(result.simulations, 5);
    // Each share: wins times players plus ties, over trials times players.
    assert_eq!(
        result.player_equities,
        vec![Fraction::new(8, 15), Fraction::new(2, 15), Fraction::new(5, 15)]
    );
    let numerators: u128 = result.player_equities.iter().map(|f| f.numerator).sum();
    assert_eq!(numerators, 15);
    assert_eq!(result.tie_percent(), Fraction::new(200, 5));

    let result = MultiwayCalculator::build_result(vec![3, 1], 0, 2, 4);
    assert_eq!(
        result.player_equities,
        vec![Fraction::new(6, 8), Fraction::new(2, 8)]
    );
    assert_eq!(result.num_players(), 2);
}

#[test]
fn test_multiway_sequential_and_parallel_agree_on_a_full_board() {
    let evaluator = LookupEvaluator::new();
    let calc = MultiwayCalculator::new(&evaluator);
    let board = [
        Card::parse("Ah").unwrap(),
        Card::parse("Kh").unwrap(),
        Card::parse("Qh").unwrap(),
        Card::parse("2c").unwrap(),
        Card::parse("3d").unwrap(),
    ];
    let hole_cards = [
        HoleCards::parse("JhTh").unwrap(),
        HoleCards::parse("AsKs").unwrap(),
        HoleCards::parse("QdQc").unwrap(),
    ];
    assert_eq!(calc.winners(&hole_cards, &board), vec![0]);
    let parallel = calc.calculate_parallel(&hole_cards, &board, 40);
    let sequential = calc.calculate_sequential(&hole_cards, &board, 40);
    assert_eq!(parallel, sequential);
    assert_eq!(parallel.wins, vec![40, 0, 0]);
    assert_eq!(parallel.ties, 0);
    assert_eq!(parallel.player_equities[0], Fraction::new(120, 120));
    assert_eq!(parallel.player_equities[1], Fraction::new(0, 120));

    let calc = EquityCalculator::new();
    let result = calc.calculate_multiway_monte_carlo_sequential(&hole_cards, &[], 500);
    assert_eq!(result.simulations, 500);
    let wins: usize = result.wins.iter().sum();
    assert_eq!(wins + result.ties, 500);
    let numerators: u128 = result.player_equities.iter().map(|f| f.numerator).sum();
    assert_eq!(numerators, 1500);
    assert!(result.wins.iter().filter(|w| **w > 0).count() >= 2);
}

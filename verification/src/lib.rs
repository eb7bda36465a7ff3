//! Hand evaluation, range expansion and equity tallies for a 52-card deck.

pub mod card;
pub mod card_set;
pub mod equity;
pub mod evaluator;
pub mod hand;
pub mod hand_rank;
pub mod helpers;
pub mod range;
pub mod text;
mod trusted;

pub use crate::card::{Card, Suit, Value};
pub use crate::card_set::{CardSet, CardSetIter};
pub use crate::equity::{
    EquityCalculator, EquityResult, Fraction, MultiPlayerEquityResult, MultiwayCalculator,
    MultiwayEquityCalculator, Outcome, RangeEquityResult,
};
pub use crate::evaluator::{evaluate_7_cards, evaluate_7_cards_fast, HandEvaluator, LookupEvaluator};
pub use crate::hand::{Hand, HoleCards};
pub use crate::hand_rank::{encode_kickers, HandCategory, HandRanking};
pub use crate::helpers::{all_cards, build_hand};
pub use crate::range::{ComboBreakdown, HandPattern, Range, RangeParseError};

//! Heads-up postflop poker primitives with proved contracts: card and hand indices, player
//! ranges and their text form, a tournament utility table, and the terminal-node evaluator
//! of a counterfactual-regret solver.

use vstd::prelude::*;

pub mod card;
pub mod evaluation;
pub mod mutex_like;
pub mod range;
pub mod range_text;
pub mod range_print;
pub mod text;
pub mod utility;

pub use card::{card_pair_index, char_to_rank, char_to_suit, rank_to_char, suit_to_char, NOT_DEALT};
pub use evaluation::{
    evaluate_terminal, evaluate_terminal_node, fold_values, showdown_values, showdown_values_raked, terminal_payoffs,
    Payoffs, StrengthItem, TerminalHands, NO_SAME_HAND, PLAYER_FOLD_FLAG, PLAYER_MASK,
    PLAYER_TERMINAL_FLAG,
};
pub use mutex_like::{MutexGuardLike, MutexLike};
pub use range::{
    nonpair_indices, offsuit_indices, pair_indices, suited_indices, Range, Suitedness, PROB_ONE,
};
pub use range_text::{range_token_parts, squeeze_range_text};
pub use utility::UtilityFile;

verus! {

} // verus!

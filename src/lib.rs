pub mod combinatorics;
pub mod dice_states;
pub mod score_states;
pub mod reward_evaluation;
pub mod row_sums;

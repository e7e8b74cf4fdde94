use yahtzee_solver::dice_states::{
    action_to_kept_array, get_all_dice_states, get_all_keep_actions, get_transition_function,
    probability_of_goal_roll, transition_probability, NUM_DICE_STATES, NUM_KEEP_ACTIONS,
    PROBABILITY_DENOMINATOR,
};

#[test]
fn dice_states_are_252_distinct_five_dice_states() {
    let states = get_all_dice_states();
    assert_eq!(states.len(), 252);
    assert_eq!(NUM_DICE_STATES, 252);
    for s in states.iter() {
        assert_eq!(s.iter().map(|&c| c as u32).sum::<u32>(), 5);
    }
    for i in 0..states.len() {
        for j in (i + 1)..states.len() {
            assert_ne!(states[i], states[j]);
        }
    }
}

#[test]
fn dice_states_follow_nested_loop_order() {
    let states = get_all_dice_states();
    assert_eq!(states[0], [0, 0, 0, 0, 0, 5]);
    assert_eq!(states[1], [0, 0, 0, 0, 1, 4]);
    assert_eq!(states[5], [0, 0, 0, 0, 5, 0]);
    assert_eq!(states[6], [0, 0, 0, 1, 0, 4]);
    assert_eq!(states[251], [5, 0, 0, 0, 0, 0]);
}

#[test]
fn keep_actions_are_32_distinct_masks_in_binary_order() {
    let actions = get_all_keep_actions();
    assert_eq!(actions.len(), 32);
    assert_eq!(NUM_KEEP_ACTIONS, 32);
    assert_eq!(actions[0], [false; 5]);
    assert_eq!(actions[1], [false, false, false, false, true]);
    assert_eq!(actions[16], [true, false, false, false, false]);
    assert_eq!(actions[31], [true; 5]);
    for i in 0..32 {
        for j in (i + 1)..32 {
            assert_ne!(actions[i], actions[j]);
        }
    }
}

#[test]
fn kept_dice_follow_ascending_positions() {
    let kept = action_to_kept_array(&[2, 3, 0, 0, 0, 0], &[true, false, true, false, false]);
    assert_eq!(kept, [1, 1, 0, 0, 0, 0]);
    let kept = action_to_kept_array(&[0, 1, 0, 2, 0, 2], &[false, true, true, false, true]);
    assert_eq!(kept, [0, 0, 0, 2, 0, 1]);
    let kept = action_to_kept_array(&[1, 1, 1, 1, 1, 0], &[false; 5]);
    assert_eq!(kept, [0; 6]);
}

#[test]
fn five_ones_again_after_full_reroll() {
    let p = transition_probability(&[5, 0, 0, 0, 0, 0], &[false; 5], &[5, 0, 0, 0, 0, 0]);
    assert_eq!(p, 1);
    let prob = p as f64 / PROBABILITY_DENOMINATOR as f64;
    assert!((prob - 1.0 / 7776.0).abs() < 1e-12);
    assert!((prob - 0.0001286).abs() < 1e-7);
}

#[test]
fn two_dice_one_and_two() {
    let w = probability_of_goal_roll(&[1, 1, 0, 0, 0, 0]);
    assert_eq!(w, 432);
    let prob = w as f64 / PROBABILITY_DENOMINATOR as f64;
    assert!((prob - 1.0 / 18.0).abs() < 1e-12);
}

#[test]
fn goal_roll_weights() {
    assert_eq!(probability_of_goal_roll(&[0; 6]), 7776);
    assert_eq!(probability_of_goal_roll(&[1, 0, 0, 0, 0, 0]), 1296);
    assert_eq!(probability_of_goal_roll(&[0, 0, 0, 0, 0, 2]), 216);
    assert_eq!(probability_of_goal_roll(&[1, 1, 1, 1, 1, 0]), 120);
    assert_eq!(probability_of_goal_roll(&[2, 0, 3, 0, 0, 0]), 10);
}

#[test]
fn impossible_and_certain_transitions() {
    // keeping the two ones of (2,3,0,0,0,0) cannot lead to a state with one one
    let p = transition_probability(&[2, 3, 0, 0, 0, 0], &[true, true, false, false, false], &[1, 4, 0, 0, 0, 0]);
    assert_eq!(p, 0);
    // keeping every die leads back to the same state
    let p = transition_probability(&[2, 3, 0, 0, 0, 0], &[true; 5], &[2, 3, 0, 0, 0, 0]);
    assert_eq!(p, PROBABILITY_DENOMINATOR);
    // rerolling one die of (1,1,1,1,1,0): the kept four are 1..4, a five comes with 1/6
    let p = transition_probability(&[1, 1, 1, 1, 1, 0], &[true, true, true, true, false], &[1, 1, 1, 1, 1, 0]);
    assert_eq!(p, 1296);
}

#[test]
fn every_tensor_row_sums_to_one() {
    let states = get_all_dice_states();
    let actions = get_all_keep_actions();
    let t = get_transition_function(&states, &actions);
    assert_eq!(t.len(), 252);
    for row in t.iter() {
        assert_eq!(row.len(), 32);
        for probabilities in row.iter() {
            assert_eq!(probabilities.len(), 252);
            let total: u32 = probabilities.iter().sum();
            assert_eq!(total, PROBABILITY_DENOMINATOR);
            let as_float: f64 = probabilities
                .iter()
                .map(|&p| p as f64 / PROBABILITY_DENOMINATOR as f64)
                .sum();
            assert!((as_float - 1.0).abs() < 1e-6);
        }
    }
}

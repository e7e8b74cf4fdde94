use yahtzee_solver::score_states::{ScoreAction, ScoreState, YahtzeeField, NUM_TERMINAL_STATES};

fn all_locked_but(action: ScoreAction) -> ScoreState {
    let mut s = ScoreState::new(
        Some(3),
        Some(3),
        Some(3),
        Some(3),
        Some(3),
        Some(3),
        true,
        true,
        true,
        true,
        true,
        true,
        YahtzeeField::ScoredNonZero,
    );
    s = s.unlocked(action);
    s
}

#[test]
fn all_lists_thirteen_categories_in_order() {
    let all = ScoreAction::all();
    assert_eq!(all.len(), 13);
    assert_eq!(all[0], ScoreAction::Ones);
    assert_eq!(all[5], ScoreAction::Sixes);
    assert_eq!(all[6], ScoreAction::ThreeOfAKind);
    assert_eq!(all[12], ScoreAction::Yahtzee);
}

#[test]
fn empty_state_has_everything_open() {
    let s = ScoreState::empty();
    for a in ScoreAction::all().iter() {
        assert!(!s.is_taken(*a));
    }
    assert_eq!(s.possible_score_actions().len(), 13);
    assert_eq!(s.get_parent_states().len(), 0);
    assert_eq!(s.locked_categories(), 0);
    assert_eq!(s.upper_score(), 0);
    assert_eq!(s.score(), 0);
    assert_eq!(s.sum_of_upper(), None);
    // all six upper fields hold the open marker 7, the Yahtzee box code 2
    assert_eq!(s.to_key(), 0b111_111_111_111_111_111_000000_10);
}

#[test]
fn key_round_trip() {
    let states = [
        ScoreState::empty(),
        ScoreState::new(Some(0), None, Some(5), None, Some(2), Some(1), true, false, true, false, false, true, YahtzeeField::ScoredZero),
        ScoreState::new(Some(5), Some(5), Some(5), Some(5), Some(5), Some(5), true, true, true, true, true, true, YahtzeeField::ScoredNonZero),
    ];
    for s in states.iter() {
        let key = s.to_key();
        assert_eq!(ScoreState::from_key(key), Some(*s));
        assert_eq!(ScoreState::from_key(key).unwrap().to_key(), key);
    }
}

#[test]
fn invalid_keys_are_refused() {
    // Yahtzee code 3
    assert_eq!(ScoreState::from_key(0b111_111_111_111_111_111_000000_11), None);
    // an upper field holding 6
    assert_eq!(ScoreState::from_key(0b110_111_111_111_111_111_000000_10), None);
    // bits above the layout
    assert_eq!(ScoreState::from_key(1 << 26), None);
}

#[test]
fn relocking_fails() {
    let s = ScoreState::empty();
    let roll = [1, 1, 1, 1, 1, 0];
    let child = s.apply_action(ScoreAction::Chance, &roll).unwrap();
    assert!(child.is_taken(ScoreAction::Chance));
    assert_eq!(child.apply_action(ScoreAction::Chance, &roll), None);
    let child = child.apply_action(ScoreAction::Twos, &roll).unwrap();
    assert_eq!(child.twos, Some(1));
    assert_eq!(child.apply_action(ScoreAction::Twos, &[0, 5, 0, 0, 0, 0]), None);
}

#[test]
fn applying_locks_one_more_and_parent_is_found() {
    let s = ScoreState::new(Some(2), None, None, Some(1), None, None, false, true, false, false, true, false, YahtzeeField::Open);
    let roll = [0, 2, 3, 0, 0, 0];
    for a in s.possible_score_actions().iter() {
        let child = s.apply_action(*a, &roll).unwrap();
        assert_eq!(child.locked_categories(), s.locked_categories() + 1);
        assert!(child.get_parent_states().contains(&s));
    }
}

#[test]
fn yahtzee_box_records_zero_or_nonzero() {
    let s = ScoreState::empty();
    let c = s.apply_action(ScoreAction::Yahtzee, &[0, 0, 0, 5, 0, 0]).unwrap();
    assert_eq!(c.yahtzee, YahtzeeField::ScoredNonZero);
    let c = s.apply_action(ScoreAction::Yahtzee, &[0, 0, 0, 4, 1, 0]).unwrap();
    assert_eq!(c.yahtzee, YahtzeeField::ScoredZero);
    assert_eq!(c.get_parent_states(), vec![ScoreState::empty()]);
}

#[test]
fn parents_in_scorecard_order() {
    let s = ScoreState::new(Some(1), None, None, None, None, Some(0), false, false, true, false, false, false, YahtzeeField::ScoredZero);
    let parents = s.get_parent_states();
    assert_eq!(parents.len(), 4);
    assert_eq!(parents[0], s.unlocked(ScoreAction::Ones));
    assert_eq!(parents[1], s.unlocked(ScoreAction::Sixes));
    assert_eq!(parents[2], s.unlocked(ScoreAction::FullHouse));
    assert_eq!(parents[3], s.unlocked(ScoreAction::Yahtzee));
    assert_eq!(parents[3].yahtzee, YahtzeeField::Open);
}

#[test]
fn terminal_states() {
    let terminal = ScoreState::get_all_terminal_states();
    assert_eq!(terminal.len(), NUM_TERMINAL_STATES);
    assert_eq!(terminal.len(), 6 * 6 * 6 * 6 * 6 * 6 * 2);
    for s in terminal.iter().take(100) {
        assert_eq!(s.locked_categories(), 13);
        assert!(s.possible_score_actions().is_empty());
    }
    let mut keys: Vec<u32> = terminal.iter().map(|s| s.to_key()).collect();
    keys.sort();
    keys.dedup();
    assert_eq!(keys.len(), NUM_TERMINAL_STATES);
}

#[test]
fn upper_rewards_and_bonus() {
    let s = ScoreState::empty();
    assert_eq!(s.reward(ScoreAction::Threes, &[0, 1, 3, 1, 0, 0]), 9);
    assert_eq!(s.reward(ScoreAction::Sixes, &[0, 1, 3, 1, 0, 0]), 0);
    // upper total 45 so far: two sixes (57) stay below the threshold, four (69) reach it
    let s = ScoreState::new(Some(3), Some(3), Some(3), Some(3), Some(3), None, false, false, false, false, false, false, YahtzeeField::Open);
    assert_eq!(s.upper_score(), 45);
    assert_eq!(s.score(), 45);
    assert_eq!(s.reward(ScoreAction::Sixes, &[0, 0, 0, 2, 1, 2]), 12);
    assert_eq!(s.reward(ScoreAction::Sixes, &[0, 0, 0, 0, 1, 4]), 24 + 35);
    let s = ScoreState::new(Some(3), Some(3), Some(3), Some(3), Some(4), None, false, false, false, false, false, false, YahtzeeField::Open);
    assert_eq!(s.upper_score(), 50);
    assert_eq!(s.reward(ScoreAction::Sixes, &[0, 0, 0, 0, 2, 3]), 18 + 35);
    // once the threshold is passed, no second bonus
    let s = ScoreState::new(Some(5), Some(5), Some(5), Some(5), Some(5), None, false, false, false, false, false, false, YahtzeeField::Open);
    assert_eq!(s.score(), 75 + 35);
    assert_eq!(s.reward(ScoreAction::Sixes, &[0, 0, 0, 0, 0, 5]), 30);
    let full = s.apply_action(ScoreAction::Sixes, &[0, 0, 0, 0, 2, 3]).unwrap();
    assert_eq!(full.sum_of_upper(), Some(93));
    assert_eq!(full.score(), 128);
}

#[test]
fn lower_rewards() {
    let s = ScoreState::empty();
    let three = [0, 3, 0, 1, 0, 1];
    assert_eq!(s.reward(ScoreAction::ThreeOfAKind, &three), 16);
    assert_eq!(s.reward(ScoreAction::FourOfAKind, &three), 0);
    assert_eq!(s.reward(ScoreAction::FourOfAKind, &[0, 0, 0, 0, 4, 1]), 26);
    assert_eq!(s.reward(ScoreAction::FullHouse, &[0, 3, 2, 0, 0, 0]), 25);
    assert_eq!(s.reward(ScoreAction::FullHouse, &three), 0);
    assert_eq!(s.reward(ScoreAction::SmallStraight, &[1, 1, 1, 1, 0, 1]), 30);
    assert_eq!(s.reward(ScoreAction::SmallStraight, &[0, 0, 2, 1, 1, 1]), 30);
    assert_eq!(s.reward(ScoreAction::SmallStraight, &[1, 1, 0, 1, 1, 1]), 0);
    assert_eq!(s.reward(ScoreAction::LargeStraight, &[0, 1, 1, 1, 1, 1]), 40);
    assert_eq!(s.reward(ScoreAction::LargeStraight, &[1, 1, 1, 1, 0, 1]), 0);
    assert_eq!(s.reward(ScoreAction::Chance, &three), 16);
    assert_eq!(s.reward(ScoreAction::Yahtzee, &[0, 0, 5, 0, 0, 0]), 50);
    assert_eq!(s.reward(ScoreAction::Yahtzee, &three), 0);
}

#[test]
fn joker_rule() {
    let roll = [0, 0, 0, 0, 0, 5];
    let scored = all_locked_but(ScoreAction::FullHouse);
    assert_eq!(scored.reward(ScoreAction::FullHouse, &roll), 125);
    assert_eq!(scored.reward(ScoreAction::SmallStraight, &roll), 130);
    assert_eq!(scored.reward(ScoreAction::LargeStraight, &roll), 140);
    assert_eq!(scored.reward(ScoreAction::ThreeOfAKind, &roll), 130);
    assert_eq!(scored.reward(ScoreAction::FourOfAKind, &roll), 130);
    assert_eq!(scored.reward(ScoreAction::Chance, &roll), 30);
    let zero = scored.apply_action(ScoreAction::FullHouse, &roll).unwrap().unlocked(ScoreAction::Yahtzee);
    let zero = zero.apply_action(ScoreAction::Yahtzee, &[1, 1, 1, 1, 1, 0]).unwrap().unlocked(ScoreAction::FullHouse);
    assert_eq!(zero.yahtzee, YahtzeeField::ScoredZero);
    assert_eq!(zero.reward(ScoreAction::FullHouse, &roll), 25);
    assert_eq!(zero.reward(ScoreAction::LargeStraight, &roll), 40);
    // with the Yahtzee box still open, a five-of-a-kind is no full house
    assert_eq!(ScoreState::empty().reward(ScoreAction::FullHouse, &roll), 0);
}

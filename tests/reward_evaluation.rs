use yahtzee_solver::reward_evaluation::{parent_layer_keys, score_outcomes, IntKeyedArrayMap};
use yahtzee_solver::score_states::{ScoreAction, ScoreState, YahtzeeField};

#[test]
fn empty_scorecard_five_ones_scores_yahtzee() {
    let s = ScoreState::empty();
    let outcomes = score_outcomes(&s, &[5, 0, 0, 0, 0, 0]);
    assert_eq!(outcomes.len(), 13);
    let best = outcomes.iter().max_by_key(|o| o.reward).unwrap();
    assert_eq!(best.action, ScoreAction::Yahtzee);
    assert_eq!(best.reward, 50);
    for o in outcomes.iter() {
        if o.action != ScoreAction::Yahtzee {
            assert!(o.reward <= 5);
        }
    }
    let child = ScoreState::from_key(best.child_key).unwrap();
    assert_eq!(child.yahtzee, YahtzeeField::ScoredNonZero);
    assert_eq!(child.locked_categories(), 1);
}

#[test]
fn score_outcomes_follow_open_categories() {
    let s = ScoreState::new(None, Some(2), None, None, None, None, true, true, true, true, true, true, YahtzeeField::ScoredZero);
    let roll = [1, 1, 1, 1, 1, 0];
    let outcomes = score_outcomes(&s, &roll);
    let actions: Vec<ScoreAction> = outcomes.iter().map(|o| o.action).collect();
    assert_eq!(
        actions,
        vec![ScoreAction::Ones, ScoreAction::Threes, ScoreAction::Fours, ScoreAction::Fives, ScoreAction::Sixes]
    );
    assert_eq!(outcomes[0].reward, 1);
    assert_eq!(outcomes[3].reward, 5);
    assert_eq!(outcomes[4].reward, 0);
    for o in outcomes.iter() {
        assert_eq!(Some(o.child_key), s.apply_action(o.action, &roll).map(|c| c.to_key()));
    }
}

#[test]
fn int_keyed_array_map_sorts_and_dedups() {
    let states = vec![
        ScoreState::empty(),
        ScoreState::new(Some(1), None, None, None, None, None, false, false, false, false, false, false, YahtzeeField::Open),
        ScoreState::empty(),
    ];
    let mut map: IntKeyedArrayMap<u8> = IntKeyedArrayMap::new(&states, 0);
    assert_eq!(map.keys.len(), 2);
    assert!(map.keys[0] < map.keys[1]);
    assert_eq!(map.values, vec![0, 0]);
    let key = ScoreState::empty().to_key();
    map.set(key, 7);
    assert_eq!(map.get(key), Some(&7));
    assert_eq!(map.position(key), Some(1));
    assert_eq!(map.get(12345), None);
    assert_eq!(map.position(12345), None);
    let other = states[1].to_key();
    assert_eq!(map.get(other), Some(&0));
}

#[test]
fn with_keys_keeps_each_key_once() {
    let map: IntKeyedArrayMap<u16> = IntKeyedArrayMap::with_keys(&vec![9, 3, 9, 1, 3], 4);
    assert_eq!(map.keys, vec![1, 3, 9]);
    assert_eq!(map.values, vec![4, 4, 4]);
}

#[test]
fn layers_walk_back_to_the_empty_scorecard() {
    let terminal = ScoreState::get_all_terminal_states();
    let first: IntKeyedArrayMap<u8> = IntKeyedArrayMap::new(&terminal, 0);
    let mut keys = first.keys.clone();
    let mut generation = 13;
    while !keys.is_empty() {
        for k in keys.iter().step_by(997) {
            assert_eq!(ScoreState::from_key(*k).unwrap().locked_categories(), generation);
        }
        for w in keys.windows(2) {
            assert!(w[0] < w[1]);
        }
        if generation == 12 {
            // a five-of-a-kind Yahtzee already scored, or not, and any one category open
            assert!(keys.len() > terminal.len());
        }
        if generation <= 11 {
            break;
        }
        keys = parent_layer_keys(&keys);
        generation -= 1;
    }
    let last = parent_layer_keys(&vec![ScoreState::empty()
        .apply_action(ScoreAction::Chance, &[1, 1, 1, 1, 1, 0])
        .unwrap()
        .to_key()]);
    assert_eq!(last, vec![ScoreState::empty().to_key()]);
    assert!(parent_layer_keys(&vec![ScoreState::empty().to_key()]).is_empty());
}

#[test]
fn layer_keys_do_not_depend_on_input_order() {
    let states = vec![
        ScoreState::new(Some(1), Some(0), None, None, None, None, true, false, false, false, false, true, YahtzeeField::ScoredNonZero),
        ScoreState::new(None, Some(2), Some(3), None, None, Some(5), false, false, true, false, false, false, YahtzeeField::ScoredZero),
        ScoreState::new(Some(4), None, None, None, Some(1), None, false, true, false, true, false, false, YahtzeeField::Open),
    ];
    let keys: Vec<u32> = states.iter().map(|s| s.to_key()).collect();
    let mut reversed = keys.clone();
    reversed.reverse();
    let first = parent_layer_keys(&keys);
    let second = parent_layer_keys(&reversed);
    let third = parent_layer_keys(&keys);
    assert_eq!(first, second);
    assert_eq!(first, third);
    assert_eq!(first.len(), 5 + 5 + 4);
    let a: IntKeyedArrayMap<u8> = IntKeyedArrayMap::with_keys(&keys, 0);
    let b: IntKeyedArrayMap<u8> = IntKeyedArrayMap::with_keys(&reversed, 0);
    assert_eq!(a.keys, b.keys);
}

use vstd::prelude::*;

use crate::combinatorics::{
    binomial_coefficient, factorial, lemma_binomial_factorial, lemma_factorial_20_fits,
    lemma_factorial_monotonic, lemma_factorial_positive,
};

verus! {

/// Number of dice rolled in a turn.
pub const NUM_DICES: usize = 5;

/// Number of distinct dice states: the ways to spread five dice over six faces.
pub const NUM_DICE_STATES: usize = 252;

/// Number of keep actions: one for each subset of the five dice positions.
pub const NUM_KEEP_ACTIONS: usize = 32;

/// Transition probabilities are exact multiples of `1 / 6^5`; they are given as
/// numerators over this denominator.
pub const PROBABILITY_DENOMINATOR: u32 = 7776;

/// A dice state: how many of the five dice show each face, faces 1 to 6.
pub type DiceState = [u8; 6];

/// A keep action: for each of the five dice, taken in ascending order of face,
/// whether it is kept.
pub type KeepAction = [bool; 5];

/// `s[0] + ... + s[n - 1]`
pub open spec fn sum_prefix(s: Seq<u8>, n: int) -> int
    decreases n,
{
    if n <= 0 {
        0
    } else {
        sum_prefix(s, n - 1) + s[n - 1]
    }
}

/// The number of dice that a count vector describes.
pub open spec fn dice_total(d: DiceState) -> int {
    sum_prefix(d@, 6)
}

/// A valid dice state holds exactly five dice.
pub open spec fn is_dice_state(d: DiceState) -> bool {
    dice_total(d) == NUM_DICES
}

/// `a` comes before `b` in lexicographic order of the face counts.
pub open spec fn lex_less(a: DiceState, b: DiceState) -> bool {
    exists|k: int|
        0 <= k < 6 && a[k] < b[k] && (forall|g: int| 0 <= g < k ==> a[g] == b[g])
}

/// `s[0]! * ... * s[n - 1]!`
pub open spec fn factorial_product(s: Seq<u8>, n: int) -> nat
    decreases n,
{
    if n <= 0 {
        1
    } else {
        factorial_product(s, n - 1) * factorial(s[n - 1] as nat)
    }
}

/// The multinomial coefficient `n! / (k_1! * ... * k_6!)` with `n = k_1 + ... + k_6`:
/// the number of ordered rolls of `n` dice that show face `f` exactly `k_f` times.
pub open spec fn multinomial(k: Seq<u8>) -> int {
    factorial(sum_prefix(k, 6) as nat) as int / factorial_product(k, 6) as int
}

/// `6^e`
pub open spec fn pow6(e: nat) -> nat
    decreases e,
{
    if e == 0 {
        1
    } else {
        6 * pow6((e - 1) as nat)
    }
}

/// The probability, in units of `1 / 6^5`, that rerolling `n = k_1 + ... + k_6`
/// dice shows face `f` exactly `k_f` times: `multinomial(k) / 6^n`.
pub open spec fn goal_roll_weight(k: Seq<u8>) -> int {
    multinomial(k) * pow6((NUM_DICES - sum_prefix(k, 6)) as nat)
}

/// The number of positions in `[lo, hi)` that the mask keeps.
pub open spec fn kept_between(mask: KeepAction, lo: int, hi: int) -> int
    decreases hi - lo,
{
    if hi <= lo {
        0
    } else {
        kept_between(mask, lo, hi - 1) + if 0 <= hi - 1 < 5 && mask[hi - 1] {
            1int
        } else {
            0int
        }
    }
}

/// How many dice of face `f + 1` the mask keeps. Laid out in ascending order of
/// face, the dice of that face take the positions `[d_1 + ... + d_f, d_1 + ... + d_(f+1))`.
pub open spec fn kept_count(d: DiceState, mask: KeepAction, f: int) -> int {
    kept_between(mask, sum_prefix(d@, f), sum_prefix(d@, f + 1))
}

/// Keeping is possible toward `to` when no face keeps more dice than `to` shows.
pub open spec fn can_reach(from: DiceState, mask: KeepAction, to: DiceState) -> bool {
    forall|f: int| 0 <= f < 6 ==> kept_count(from, mask, f) <= to[f]
}

/// The dice that must come up on the reroll to go from the kept dice to `to`.
pub open spec fn needed_roll(from: DiceState, mask: KeepAction, to: DiceState) -> Seq<u8> {
    Seq::new(6, |f: int| (to[f] - kept_count(from, mask, f)) as u8)
}

/// The probability, in units of `1 / 6^5`, of landing on `to` from `from` when the
/// dice that `mask` keeps stay and the others are rerolled.
pub open spec fn transition_weight(from: DiceState, mask: KeepAction, to: DiceState) -> int {
    if can_reach(from, mask, to) {
        goal_roll_weight(needed_roll(from, mask, to))
    } else {
        0
    }
}

proof fn lemma_factorial_product_positive(s: Seq<u8>, n: int)
    ensures
        factorial_product(s, n) >= 1,
    decreases n,
{
    if n > 0 {
        lemma_factorial_product_positive(s, n - 1);
        lemma_factorial_positive(s[n - 1] as nat);
        let a = factorial_product(s, n - 1);
        let b = factorial(s[n - 1] as nat);
        assert(a * b >= 1) by (nonlinear_arith)
            requires
                a >= 1,
                b >= 1,
        ;
    }
}

/// The multinomial coefficient of the counts, built face by face as a product of
/// binomial coefficients: `C(k_1, k_1) * C(k_1 + k_2, k_2) * ...`.
fn multinomial_coefficient(all_k: &[u8; 6]) -> (r: u64)
    requires
        sum_prefix(all_k@, 6) <= 20,
    ensures
        r == multinomial(all_k@),
        r <= factorial(sum_prefix(all_k@, 6) as nat),
{
    let mut result: u64 = 1;
    let mut cum_k: u8 = 0;
    let mut i: usize = 0;
    while i < 6
        invariant
            i <= 6,
            sum_prefix(all_k@, 6) <= 20,
            cum_k == sum_prefix(all_k@, i as int),
            result * factorial_product(all_k@, i as int) == factorial(cum_k as nat),
        decreases 6 - i,
    {
        proof {
            lemma_sum_prefix_monotonic(all_k@, i as int + 1, 6);
        }
        let k = all_k[i];
        cum_k = cum_k + k;
        let c = binomial_coefficient(cum_k as u64, k as u64);
        proof {
            let n = cum_k as nat;
            lemma_binomial_factorial(n, k as nat);
            lemma_factorial_product_positive(all_k@, i as int);
            lemma_factorial_positive(k as nat);
            let fp = factorial_product(all_k@, i as int);
            let fk = factorial(k as nat);
            let fr = factorial((n - k) as nat);
            assert((result * c) * (fp * fk) == factorial(n)) by (nonlinear_arith)
                requires
                    result * fp == fr,
                    c * fk * fr == factorial(n),
            ;
            assert(result * c <= factorial(n)) by (nonlinear_arith)
                requires
                    (result * c) * (fp * fk) == factorial(n),
                    fp >= 1,
                    fk >= 1,
            ;
            lemma_factorial_monotonic(n, 20);
            lemma_factorial_20_fits();
        }
        result = result * c;
        i = i + 1;
    }
    proof {
        lemma_factorial_product_positive(all_k@, 6);
        vstd::arithmetic::div_mod::lemma_div_by_multiple(
            result as int,
            factorial_product(all_k@, 6) as int,
        );
        let fp = factorial_product(all_k@, 6);
        assert(result <= result * fp) by (nonlinear_arith)
            requires
                fp >= 1,
        ;
    }
    result
}

proof fn lemma_sum_prefix_monotonic(s: Seq<u8>, m: int, n: int)
    requires
        0 <= m <= n,
    ensures
        sum_prefix(s, m) <= sum_prefix(s, n),
    decreases n - m,
{
    if m < n {
        lemma_sum_prefix_monotonic(s, m, n - 1);
    }
}

/// `6^e` for the exponents that a reroll of at most five dice needs.
fn pow_six(e: u8) -> (r: u32)
    requires
        e <= NUM_DICES,
    ensures
        r == pow6(e as nat),
        r <= 7776,
{
    let mut r: u32 = 1;
    let mut i: u8 = 0;
    assert(pow6(5) == 7776) by {
        reveal_with_fuel(pow6, 6);
    }
    while i < e
        invariant
            i <= e <= 5,
            r == pow6(i as nat),
            r <= pow6(i as nat),
            pow6(i as nat) * pow6((5 - i) as nat) == 7776,
        decreases e - i,
    {
        proof {
            let a = pow6(i as nat);
            let b = pow6((4 - i) as nat);
            assert(pow6((5 - i) as nat) == 6 * b);
            assert(pow6((i + 1) as nat) == 6 * a);
            assert((6 * a) * b == a * (6 * b)) by (nonlinear_arith);
            assert(b >= 1) by {
                lemma_pow6_positive((4 - i) as nat);
            }
            assert(6 * a <= 7776) by (nonlinear_arith)
                requires
                    (6 * a) * b == 7776,
                    b >= 1,
                    a >= 0,
            ;
        }
        r = r * 6;
        i = i + 1;
    }
    proof {
        lemma_pow6_positive((5 - i) as nat);
        let a = pow6(i as nat);
        let b = pow6((5 - i) as nat);
        assert(a <= 7776) by (nonlinear_arith)
            requires
                a * b == 7776,
                b >= 1,
                a >= 0,
        ;
    }
    r
}

proof fn lemma_pow6_positive(e: nat)
    ensures
        pow6(e) >= 1,
    decreases e,
{
    if e > 0 {
        lemma_pow6_positive((e - 1) as nat);
    }
}

/// The probability, in units of `1 / 6^5`, that rerolling `n = k_1 + ... + k_6` dice
/// shows face `f` exactly `k_f` times: the multinomial coefficient over `6^n`.
pub fn probability_of_goal_roll(goal_roll: &[u8; 6]) -> (r: u32)
    requires
        sum_prefix(goal_roll@, 6) <= NUM_DICES,
    ensures
        r == goal_roll_weight(goal_roll@),
{
    assert(goal_roll[0] + goal_roll[1] + goal_roll[2] + goal_roll[3] + goal_roll[4] + goal_roll[5]
        == sum_prefix(goal_roll@, 6)) by {
        reveal_with_fuel(sum_prefix, 7);
    }
    let num_rolls = goal_roll[0] + goal_roll[1] + goal_roll[2] + goal_roll[3] + goal_roll[4]
        + goal_roll[5];
    assert(num_rolls == sum_prefix(goal_roll@, 6)) by {
        reveal_with_fuel(sum_prefix, 7);
    }
    let accepted = multinomial_coefficient(goal_roll);
    let scale = pow_six(5 - num_rolls);
    proof {
        lemma_factorial_monotonic(num_rolls as nat, 5);
        assert(factorial(5) == 120) by {
            reveal_with_fuel(factorial, 6);
        }
        assert(accepted * scale <= 120 * 7776) by (nonlinear_arith)
            requires
                accepted <= 120,
                scale <= 7776,
        ;
    }
    (accepted as u32) * scale
}

/// The counts of the dice that `keep_action` keeps from `dice_state`: the dice are laid
/// out in ascending order of face and the mask is applied position by position.
pub fn action_to_kept_array(dice_state: &[u8; 6], keep_action: &[bool; 5]) -> (kept: [u8; 6])
    requires
        is_dice_state(*dice_state),
    ensures
        forall|f: int| 0 <= f < 6 ==> kept[f] == kept_count(*dice_state, *keep_action, f),
{
    let ghost d = *dice_state;
    let ghost m = *keep_action;
    let mut kept: [u8; 6] = [0, 0, 0, 0, 0, 0];
    let mut action_index: usize = 0;
    let mut f: usize = 0;
    while f < 6
        invariant
            f <= 6,
            d == *dice_state,
            m == *keep_action,
            sum_prefix(d@, 6) == 5,
            action_index == sum_prefix(d@, f as int),
            forall|g: int| 0 <= g < f ==> kept[g] == kept_count(d, m, g),
            forall|g: int| f <= g < 6 ==> kept[g] == 0,
        decreases 6 - f,
    {
        proof {
            lemma_sum_prefix_monotonic(d@, f as int + 1, 6);
        }
        let n = dice_state[f];
        let mut j: u8 = 0;
        while j < n
            invariant
                f < 6,
                j <= n,
                n == d[f as int],
                d == *dice_state,
                m == *keep_action,
                sum_prefix(d@, f as int) + n <= 5,
                action_index == sum_prefix(d@, f as int) + j,
                kept[f as int] <= j,
                kept[f as int] == kept_between(m, sum_prefix(d@, f as int), action_index as int),
                forall|g: int| 0 <= g < f ==> kept[g] == kept_count(d, m, g),
                forall|g: int| f < g < 6 ==> kept[g] == 0,
            decreases n - j,
        {
            if keep_action[action_index] {
                kept[f] = kept[f] + 1;
            }
            action_index = action_index + 1;
            j = j + 1;
        }
        f = f + 1;
    }
    kept
}

/// The probability, in units of `1 / 6^5`, of going from `dice_state` to
/// `next_dice_state` by keeping the dice that `keep_action` marks and rerolling the others.
pub fn transition_probability(
    dice_state: &[u8; 6],
    keep_action: &[bool; 5],
    next_dice_state: &[u8; 6],
) -> (r: u32)
    requires
        is_dice_state(*dice_state),
        is_dice_state(*next_dice_state),
    ensures
        r == transition_weight(*dice_state, *keep_action, *next_dice_state),
{
    let kept = action_to_kept_array(dice_state, keep_action);
    let mut f: usize = 0;
    while f < 6
        invariant
            f <= 6,
            forall|g: int| 0 <= g < 6 ==> kept[g] == kept_count(*dice_state, *keep_action, g),
            forall|g: int| 0 <= g < f ==> kept[g] <= next_dice_state[g],
        decreases 6 - f,
    {
        if kept[f] > next_dice_state[f] {
            return 0;
        }
        f = f + 1;
    }
    let goal_roll: [u8; 6] = [
        next_dice_state[0] - kept[0],
        next_dice_state[1] - kept[1],
        next_dice_state[2] - kept[2],
        next_dice_state[3] - kept[3],
        next_dice_state[4] - kept[4],
        next_dice_state[5] - kept[5],
    ];
    proof {
        assert(goal_roll@ =~= needed_roll(*dice_state, *keep_action, *next_dice_state));
        reveal_with_fuel(sum_prefix, 7);
        assert(sum_prefix(goal_roll@, 6) <= 5);
    }
    probability_of_goal_roll(&goal_roll)
}

/// The transition tensor: entry `[i][a][j]` is the probability, in units of `1 / 6^5`,
/// of going from dice state `i` to dice state `j` under keep action `a`.
pub fn get_transition_function(
    all_dice_states: &Vec<[u8; 6]>,
    all_keep_actions: &Vec<[bool; 5]>,
) -> (t: Vec<Vec<Vec<u32>>>)
    requires
        forall|i: int| 0 <= i < all_dice_states.len() ==> is_dice_state(#[trigger] all_dice_states[i]),
    ensures
        t.len() == all_dice_states.len(),
        forall|i: int| 0 <= i < t.len() ==> (#[trigger] t[i]).len() == all_keep_actions.len(),
        forall|i: int, a: int|
            0 <= i < t.len() && 0 <= a < all_keep_actions.len() ==> (#[trigger] t[i][a]).len()
                == all_dice_states.len(),
        forall|i: int, a: int, j: int|
            0 <= i < all_dice_states.len() && 0 <= a < all_keep_actions.len() && 0 <= j
                < all_dice_states.len() ==> #[trigger] t[i][a][j] == transition_weight(
                all_dice_states[i],
                all_keep_actions[a],
                all_dice_states[j],
            ),
{
    let n = all_dice_states.len();
    let num_actions = all_keep_actions.len();
    let mut t: Vec<Vec<Vec<u32>>> = Vec::new();
    let mut i: usize = 0;
    while i < n
        invariant
            i <= n,
            n == all_dice_states.len(),
            num_actions == all_keep_actions.len(),
            forall|x: int| 0 <= x < n ==> is_dice_state(#[trigger] all_dice_states[x]),
            t.len() == i,
            forall|x: int| 0 <= x < i ==> (#[trigger] t[x]).len() == num_actions,
            forall|x: int, a: int|
                0 <= x < i && 0 <= a < num_actions ==> (#[trigger] t[x][a]).len() == n,
            forall|x: int, a: int, j: int|
                0 <= x < i && 0 <= a < num_actions && 0 <= j < n ==> #[trigger] t[x][a][j]
                    == transition_weight(all_dice_states[x], all_keep_actions[a], all_dice_states[j]),
        decreases n - i,
    {
        let mut row: Vec<Vec<u32>> = Vec::new();
        let mut a: usize = 0;
        while a < num_actions
            invariant
                i < n,
                a <= num_actions,
                n == all_dice_states.len(),
                num_actions == all_keep_actions.len(),
                forall|x: int| 0 <= x < n ==> is_dice_state(#[trigger] all_dice_states[x]),
                row.len() == a,
                forall|b: int| 0 <= b < a ==> (#[trigger] row[b]).len() == n,
                forall|b: int, j: int|
                    0 <= b < a && 0 <= j < n ==> #[trigger] row[b][j] == transition_weight(
                        all_dice_states[i as int],
                        all_keep_actions[b],
                        all_dice_states[j],
                    ),
            decreases num_actions - a,
        {
            let mut probabilities: Vec<u32> = Vec::new();
            let mut j: usize = 0;
            while j < n
                invariant
                    i < n,
                    a < num_actions,
                    j <= n,
                    n == all_dice_states.len(),
                    num_actions == all_keep_actions.len(),
                    forall|x: int| 0 <= x < n ==> is_dice_state(#[trigger] all_dice_states[x]),
                    probabilities.len() == j,
                    forall|y: int|
                        0 <= y < j ==> #[trigger] probabilities[y] == transition_weight(
                            all_dice_states[i as int],
                            all_keep_actions[a as int],
                            all_dice_states[y],
                        ),
                decreases n - j,
            {
                let p = transition_probability(
                    &all_dice_states[i],
                    &all_keep_actions[a],
                    &all_dice_states[j],
                );
                probabilities.push(p);
                j = j + 1;
            }
            row.push(probabilities);
            a = a + 1;
        }
        t.push(row);
        i = i + 1;
    }
    t
}

/// The number of ways to spread `rest` dice over `faces` faces.
pub open spec fn num_completions(faces: nat, rest: int) -> int
    decreases faces, rest,
{
    if rest < 0 {
        0
    } else if faces <= 1 || rest == 0 {
        1
    } else {
        num_completions((faces - 1) as nat, rest) + num_completions(faces, rest - 1)
    }
}

/// `d` shows the same counts as `prefix` on the faces before `face`.
pub open spec fn agrees_before(d: DiceState, prefix: DiceState, face: int) -> bool {
    forall|g: int| 0 <= g < face ==> d[g] == prefix[g]
}

proof fn lemma_num_completions_table()
    ensures
        num_completions(6, 5) == NUM_DICE_STATES,
{
    assert(num_completions(1, 0) == 1 && num_completions(1, 1) == 1 && num_completions(1, 2) == 1);
    assert(num_completions(1, 3) == 1 && num_completions(1, 4) == 1 && num_completions(1, 5) == 1);
    assert(num_completions(2, 0) == 1);
    assert(num_completions(2, 1) == 2);
    assert(num_completions(2, 2) == 3);
    assert(num_completions(2, 3) == 4);
    assert(num_completions(2, 4) == 5);
    assert(num_completions(2, 5) == 6);
    assert(num_completions(3, 0) == 1);
    assert(num_completions(3, 1) == 3);
    assert(num_completions(3, 2) == 6);
    assert(num_completions(3, 3) == 10);
    assert(num_completions(3, 4) == 15);
    assert(num_completions(3, 5) == 21);
    assert(num_completions(4, 0) == 1);
    assert(num_completions(4, 1) == 4);
    assert(num_completions(4, 2) == 10);
    assert(num_completions(4, 3) == 20);
    assert(num_completions(4, 4) == 35);
    assert(num_completions(4, 5) == 56);
    assert(num_completions(5, 0) == 1);
    assert(num_completions(5, 1) == 5);
    assert(num_completions(5, 2) == 15);
    assert(num_completions(5, 3) == 35);
    assert(num_completions(5, 4) == 70);
    assert(num_completions(5, 5) == 126);
    assert(num_completions(6, 0) == 1);
    assert(num_completions(6, 1) == 6);
    assert(num_completions(6, 2) == 21);
    assert(num_completions(6, 3) == 56);
    assert(num_completions(6, 4) == 126);
    assert(num_completions(6, 5) == 252);
}

proof fn lemma_num_completions_nonnegative(faces: nat, rest: int)
    ensures
        num_completions(faces, rest) >= 0,
    decreases faces, rest,
{
    if rest > 0 && faces > 1 {
        lemma_num_completions_nonnegative((faces - 1) as nat, rest);
        lemma_num_completions_nonnegative(faces, rest - 1);
    }
}

proof fn lemma_sum_prefix_agrees(a: Seq<u8>, b: Seq<u8>, n: int)
    requires
        0 <= n <= a.len(),
        n <= b.len(),
        forall|g: int| 0 <= g < n ==> a[g] == b[g],
    ensures
        sum_prefix(a, n) == sum_prefix(b, n),
    decreases n,
{
    if n > 0 {
        lemma_sum_prefix_agrees(a, b, n - 1);
    }
}

/// Every count vector that agrees with `prefix` before `face` and spreads `rest` dice over
/// the faces from `face` on, in lexicographic order, the count of `face` starting at `x`.
pub open spec fn completions_from(prefix: Seq<u8>, face: int, rest: int, x: int) -> Seq<Seq<u8>>
    decreases 5 - face, rest + 1 - x,
{
    if face < 0 || face > 5 || rest < 0 || x < 0 {
        Seq::empty()
    } else if face == 5 {
        if x == 0 {
            seq![prefix.update(5, rest as u8)]
        } else {
            Seq::empty()
        }
    } else if x > rest {
        Seq::empty()
    } else {
        completions_from(prefix.update(face, x as u8), face + 1, rest - x, 0) + completions_from(
            prefix,
            face,
            rest,
            x + 1,
        )
    }
}

/// Appends, in lexicographic order, every dice state that agrees with `prefix` on the
/// faces before `face` and spreads the remaining `rest` dice over the other faces.
fn push_dice_states(out: &mut Vec<[u8; 6]>, prefix: [u8; 6], face: usize, rest: u8)
    requires
        face < 6,
        sum_prefix(prefix@, face as int) + rest == NUM_DICES,
    ensures
        final(out).len() == old(out).len() + num_completions((6 - face) as nat, rest as int),
        forall|i: int| 0 <= i < old(out).len() ==> final(out)[i] == old(out)[i],
        forall|i: int|
            old(out).len() <= i < final(out).len() ==> is_dice_state(#[trigger] final(out)[i])
                && agrees_before(final(out)[i], prefix, face as int),
        forall|i: int, j: int|
            old(out).len() <= i < j < final(out).len() ==> lex_less(
                #[trigger] final(out)[i],
                #[trigger] final(out)[j],
            ),
        forall|d: DiceState|
            is_dice_state(d) && agrees_before(d, prefix, face as int) ==> exists|i: int|
                old(out).len() <= i < final(out).len() && #[trigger] final(out)[i] == d,
        final(out).len() == old(out).len() + completions_from(prefix@, face as int, rest as int, 0).len(),
        forall|i: int|
            old(out).len() <= i < final(out).len() ==> (#[trigger] final(out)[i])@
                == completions_from(prefix@, face as int, rest as int, 0)[i - old(out).len()],
    decreases 6 - face,
{
    let ghost start = out.len();
    if face == 5 {
        let mut p = prefix;
        p[5] = rest;
        proof {
            lemma_sum_prefix_agrees(p@, prefix@, 5);
            assert(sum_prefix(p@, 6) == sum_prefix(p@, 5) + rest);
        }
        out.push(p);
        proof {
            assert(p@ =~= prefix@.update(5, rest as u8));
            assert forall|d: DiceState|
                is_dice_state(d) && agrees_before(d, prefix, 5) implies exists|i: int|
                    start <= i < out.len() && #[trigger] out[i] == d by {
                lemma_sum_prefix_agrees(d@, prefix@, 5);
                assert(d@ =~= p@);
                assert(out[start as int] == d);
            }
        }
        return;
    }
    let ghost faces = (6 - face) as nat;
    proof {
        lemma_sum_prefix_monotonic(prefix@, 0, face as int);
    }
    let mut x: u8 = 0;
    while x <= rest
        invariant
            face < 5,
            faces == 6 - face,
            x <= rest + 1,
            rest <= NUM_DICES,
            sum_prefix(prefix@, face as int) + rest == NUM_DICES,
            start == old(out).len(),
            start <= out.len(),
            out.len() == start + num_completions(faces, rest as int) - num_completions(
                faces,
                rest - x,
            ),
            forall|i: int| 0 <= i < start ==> out[i] == old(out)[i],
            forall|i: int|
                start <= i < out.len() ==> is_dice_state(#[trigger] out[i]) && agrees_before(
                    out[i],
                    prefix,
                    face as int,
                ) && out[i][face as int] < x,
            forall|i: int, j: int|
                start <= i < j < out.len() ==> lex_less(#[trigger] out[i], #[trigger] out[j]),
            forall|d: DiceState|
                is_dice_state(d) && agrees_before(d, prefix, face as int) && d[face as int] < x
                    ==> exists|i: int| start <= i < out.len() && #[trigger] out[i] == d,
            out.len() - start + completions_from(prefix@, face as int, rest as int, x as int).len()
                == completions_from(prefix@, face as int, rest as int, 0).len(),
            forall|i: int|
                start <= i < out.len() ==> (#[trigger] out[i])@ == completions_from(
                    prefix@,
                    face as int,
                    rest as int,
                    0,
                )[i - start],
            forall|j: int|
                0 <= j < completions_from(prefix@, face as int, rest as int, x as int).len()
                    ==> #[trigger] completions_from(prefix@, face as int, rest as int, x as int)[j]
                    == completions_from(prefix@, face as int, rest as int, 0)[out.len() - start + j],
        decreases rest + 1 - x,
    {
        let mut p = prefix;
        p[face] = x;
        proof {
            lemma_sum_prefix_agrees(p@, prefix@, face as int);
            assert(p@ =~= prefix@.update(face as int, x));
        }
        let ghost before = out@;
        push_dice_states(out, p, face + 1, rest - x);
        proof {
            lemma_num_completions_nonnegative((faces - 1) as nat, rest - x);
            let mid = before.len() as int;
            assert(num_completions(faces, rest - x) == num_completions((faces - 1) as nat, rest - x)
                + num_completions(faces, rest - x - 1));
            let c0 = completions_from(prefix@, face as int, rest as int, 0);
            let cx = completions_from(prefix@, face as int, rest as int, x as int);
            let child = completions_from(p@, face as int + 1, rest - x, 0);
            let cnext = completions_from(prefix@, face as int, rest as int, x + 1);
            assert(cx == child + cnext);
            assert forall|i: int| start <= i < out.len() implies (#[trigger] out[i])@ == c0[i
                - start] by {
                if i >= mid {
                    assert(out[i]@ == child[i - mid]);
                    assert(cx[i - mid] == child[i - mid]);
                    assert(c0[mid - start + (i - mid)] == cx[i - mid]);
                } else {
                    assert(out[i] == before[i]);
                }
            }
            assert forall|j: int| 0 <= j < cnext.len() implies #[trigger] cnext[j] == c0[out.len()
                - start + j] by {
                assert(cx[child.len() + j] == cnext[j]);
            }
            assert forall|i: int| start <= i < out.len() implies is_dice_state(#[trigger] out[i])
                && agrees_before(out[i], prefix, face as int) && out[i][face as int] < x + 1 by {
                if i < mid {
                    assert(out[i] == before[i]);
                }
            }
            assert forall|i: int, j: int| start <= i < j < out.len() implies lex_less(
                #[trigger] out[i],
                #[trigger] out[j],
            ) by {
                if j < mid {
                    assert(out[i] == before[i] && out[j] == before[j]);
                } else if i < mid {
                    assert(out[i] == before[i]);
                    assert(out[i][face as int] < out[j][face as int]);
                    assert(forall|g: int| 0 <= g < face ==> out[i][g] == out[j][g]);
                }
            }
            assert forall|d: DiceState|
                is_dice_state(d) && agrees_before(d, prefix, face as int) && d[face as int] < x
                    + 1 implies exists|i: int| start <= i < out.len() && #[trigger] out[i] == d by {
                if d[face as int] < x {
                    let i = choose|i: int| start <= i < before.len() && before[i] == d;
                    assert(out[i] == d);
                } else {
                    assert(agrees_before(d, p, face as int + 1));
                }
            }
        }
        x = x + 1;
    }
    proof {
        assert forall|d: DiceState|
            is_dice_state(d) && agrees_before(d, prefix, face as int) implies exists|i: int|
                start <= i < out.len() && #[trigger] out[i] == d by {
            lemma_sum_prefix_agrees(d@, prefix@, face as int);
            lemma_sum_prefix_monotonic(d@, face as int + 1, 6);
        }
    }
}

/// All dice states, in lexicographic order of the counts of faces 1 to 6; the
/// position of a state in this list is its index everywhere else.
pub fn get_all_dice_states() -> (states: Vec<[u8; 6]>)
    ensures
        states.len() == NUM_DICE_STATES,
        forall|i: int| 0 <= i < states.len() ==> is_dice_state(#[trigger] states[i]),
        forall|i: int, j: int|
            0 <= i < j < states.len() ==> lex_less(#[trigger] states[i], #[trigger] states[j]),
        forall|d: DiceState| is_dice_state(d) ==> exists|i: int|
            0 <= i < states.len() && #[trigger] states[i] == d,
        states.len() == completions_from(seq![0u8, 0, 0, 0, 0, 0], 0, 5, 0).len(),
        forall|i: int|
            0 <= i < states.len() ==> (#[trigger] states[i])@ == completions_from(
                seq![0u8, 0, 0, 0, 0, 0],
                0,
                5,
                0,
            )[i],
{
    let mut states: Vec<[u8; 6]> = Vec::new();
    let zeros: [u8; 6] = [0, 0, 0, 0, 0, 0];
    assert(zeros@ =~= seq![0u8, 0, 0, 0, 0, 0]);
    push_dice_states(&mut states, zeros, 0, 5);
    proof {
        lemma_num_completions_table();
    }
    states
}

/// Bit `shift` of `i`.
pub open spec fn bit_of(i: u8, shift: u8) -> bool {
    (i >> shift) & 1u8 == 1u8
}

/// Keep action number `i` in binary counting order: position `p` is kept when bit
/// `4 - p` of `i` is set, so the first die is the most significant bit.
pub open spec fn keeps_position(i: int, p: int) -> bool {
    bit_of(i as u8, (4 - p) as u8)
}

proof fn lemma_keep_masks_differ(i: u8, j: u8)
    requires
        i < 32,
        j < 32,
        i != j,
    ensures
        bit_of(i, 4) != bit_of(j, 4) || bit_of(i, 3) != bit_of(j, 3) || bit_of(i, 2) != bit_of(j, 2)
            || bit_of(i, 1) != bit_of(j, 1) || bit_of(i, 0) != bit_of(j, 0),
{
    assert(((i >> 4u8) & 1u8 == 1u8) != ((j >> 4u8) & 1u8 == 1u8) || ((i >> 3u8) & 1u8 == 1u8) != ((j
        >> 3u8) & 1u8 == 1u8) || ((i >> 2u8) & 1u8 == 1u8) != ((j >> 2u8) & 1u8 == 1u8) || ((i >> 1u8)
        & 1u8 == 1u8) != ((j >> 1u8) & 1u8 == 1u8) || ((i >> 0u8) & 1u8 == 1u8) != ((j >> 0u8) & 1u8
        == 1u8)) by (bit_vector)
        requires
            i < 32,
            j < 32,
            i != j,
    ;
}

/// All keep actions, in binary counting order over the five positions.
pub fn get_all_keep_actions() -> (actions: Vec<[bool; 5]>)
    ensures
        actions.len() == NUM_KEEP_ACTIONS,
        forall|i: int, p: int|
            0 <= i < actions.len() && 0 <= p < 5 ==> #[trigger] actions[i][p] == keeps_position(i, p),
        forall|i: int, j: int|
            0 <= i < j < actions.len() ==> #[trigger] actions[i] != #[trigger] actions[j],
{
    let mut actions: Vec<[bool; 5]> = Vec::new();
    let mut i: u8 = 0;
    while i < 32
        invariant
            i <= 32,
            actions.len() == i,
            forall|x: int, p: int|
                0 <= x < i && 0 <= p < 5 ==> #[trigger] actions[x][p] == keeps_position(x, p),
        decreases 32 - i,
    {
        let action: [bool; 5] = [
            (i >> 4u8) & 1 == 1,
            (i >> 3u8) & 1 == 1,
            (i >> 2u8) & 1 == 1,
            (i >> 1u8) & 1 == 1,
            (i >> 0u8) & 1 == 1,
        ];
        actions.push(action);
        i = i + 1;
    }
    proof {
        assert forall|x: int, y: int| 0 <= x < y < actions.len() implies #[trigger] actions[x]
            != #[trigger] actions[y] by {
            lemma_keep_masks_differ(x as u8, y as u8);
            if bit_of(x as u8, 4) != bit_of(y as u8, 4) {
                assert(actions[x][0] != actions[y][0]);
            } else if bit_of(x as u8, 3) != bit_of(y as u8, 3) {
                assert(actions[x][1] != actions[y][1]);
            } else if bit_of(x as u8, 2) != bit_of(y as u8, 2) {
                assert(actions[x][2] != actions[y][2]);
            } else if bit_of(x as u8, 1) != bit_of(y as u8, 1) {
                assert(actions[x][3] != actions[y][3]);
            } else {
                assert(actions[x][4] != actions[y][4]);
            }
        }
    }
    actions
}

} // verus!

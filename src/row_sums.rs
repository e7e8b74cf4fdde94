use vstd::prelude::*;

use crate::combinatorics::{binomial, factorial, lemma_binomial_diagonal, lemma_binomial_factorial};
use crate::dice_states::{
    can_reach, completions_from, factorial_product, goal_roll_weight, is_dice_state, kept_between,
    kept_count, multinomial, needed_roll, pow6, sum_prefix, transition_weight, DiceState,
    KeepAction, PROBABILITY_DENOMINATOR,
};

verus! {

/// `b^e`
pub open spec fn pow(b: int, e: nat) -> int
    decreases e,
{
    if e == 0 {
        1
    } else {
        b * pow(b, (e - 1) as nat)
    }
}

/// `binomial(q, y) * b^(q - y)` for `0 <= y <= q`, else zero: a term of `(b + 1)^q`.
pub open spec fn binomial_term(q: int, b: int, y: int) -> int {
    if 0 <= y <= q {
        binomial(q as nat, y as nat) * pow(b, (q - y) as nat)
    } else {
        0
    }
}

/// The first `n` terms of the binomial expansion of `(b + 1)^q`.
pub open spec fn binomial_prefix(q: int, b: int, n: int) -> int
    decreases n,
{
    if n <= 0 {
        0
    } else {
        binomial_prefix(q, b, n - 1) + binomial_term(q, b, n - 1)
    }
}

proof fn lemma_binomial_term_pascal(q: int, b: int, y: int)
    requires
        q >= 0,
        0 <= y <= q + 1,
    ensures
        binomial_term(q + 1, b, y) == binomial_term(q, b, y - 1) + b * binomial_term(q, b, y),
{
    if y == 0 {
        assert(pow(b, (q + 1) as nat) == b * pow(b, q as nat));
        assert(binomial((q + 1) as nat, 0) == 1 && binomial(q as nat, 0) == 1);
        assert(b * (1 * pow(b, q as nat)) == 1 * (b * pow(b, q as nat))) by (nonlinear_arith);
    } else if y == q + 1 {
        crate::combinatorics::lemma_binomial_diagonal((q + 1) as nat);
        crate::combinatorics::lemma_binomial_diagonal(q as nat);
        assert(pow(b, 0) == 1);
    } else {
        let c1 = binomial(q as nat, (y - 1) as nat);
        let c2 = binomial(q as nat, y as nat);
        let e = (q - y) as nat;
        assert(binomial((q + 1) as nat, y as nat) == c1 + c2);
        assert(pow(b, (e + 1) as nat) == b * pow(b, e));
        assert((q - (y - 1)) as nat == (e + 1) as nat);
        assert((q + 1 - y) as nat == (e + 1) as nat);
        let pe = pow(b, e);
        assert((c1 + c2) * (b * pe) == c1 * (b * pe) + b * (c2 * pe)) by (nonlinear_arith);
    }
}

proof fn lemma_binomial_prefix_shift(q: int, b: int, n: int)
    requires
        q >= 0,
        0 <= n <= q + 1,
    ensures
        binomial_prefix(q + 1, b, n + 1) == binomial_prefix(q, b, n) + b * binomial_prefix(
            q,
            b,
            n + 1,
        ),
    decreases n,
{
    lemma_binomial_term_pascal(q, b, n);
    assert(binomial_prefix(q + 1, b, n + 1) == binomial_prefix(q + 1, b, n) + binomial_term(
        q + 1,
        b,
        n,
    ));
    assert(binomial_prefix(q, b, n + 1) == binomial_prefix(q, b, n) + binomial_term(q, b, n));
    if n > 0 {
        lemma_binomial_prefix_shift(q, b, n - 1);
        assert(binomial_prefix(q, b, n) == binomial_prefix(q, b, n - 1) + binomial_term(
            q,
            b,
            n - 1,
        ));
        let a = binomial_prefix(q, b, n);
        let t = binomial_term(q, b, n);
        assert(b * (a + t) == b * a + b * t) by (nonlinear_arith);
    } else {
        assert(binomial_term(q, b, -1) == 0);
        assert(binomial_prefix(q + 1, b, 0) == 0 && binomial_prefix(q, b, 0) == 0);
        let t = binomial_term(q, b, 0);
        assert(b * (0 + t) == b * t) by (nonlinear_arith);
    }
}

/// The binomial theorem, with one of the two summands equal to one:
/// `sum over y of binomial(q, y) * b^(q - y) == (b + 1)^q`.
pub proof fn lemma_binomial_theorem(q: int, b: int)
    requires
        q >= 0,
    ensures
        binomial_prefix(q, b, q + 1) == pow(b + 1, q as nat),
    decreases q,
{
    if q == 0 {
        assert(binomial_prefix(0, b, 0) == 0);
        assert(binomial_prefix(0, b, 1) == binomial_term(0, b, 0));
        assert(binomial(0, 0) == 1);
        assert(pow(b, 0) == 1 && pow(b + 1, 0) == 1);
    } else {
        let p = q - 1;
        lemma_binomial_theorem(p, b);
        lemma_binomial_prefix_shift(p, b, p + 1);
        crate::combinatorics::lemma_binomial_above(p as nat, (p + 1) as nat);
        assert(binomial_term(p, b, p + 1) == 0);
        assert(binomial_prefix(p, b, p + 2) == binomial_prefix(p, b, p + 1) + binomial_term(
            p,
            b,
            p + 1,
        ));
        let s = pow(b + 1, p as nat);
        assert(pow(b + 1, q as nat) == (b + 1) * s);
        assert(s + b * s == (b + 1) * s) by (nonlinear_arith);
    }
}

/// Terms past `q` are zero, so the expansion stops growing there.
proof fn lemma_binomial_prefix_stable(q: int, b: int, n: int)
    requires
        n >= q + 1,
    ensures
        binomial_prefix(q, b, n) == binomial_prefix(q, b, if q + 1 >= 0 {
            q + 1
        } else {
            0
        }),
    decreases n,
{
    if n > q + 1 && n > 0 {
        lemma_binomial_prefix_stable(q, b, n - 1);
    }
}

/// `t[face] + ... + t[5]`
pub open spec fn tail_sum(t: Seq<u8>, face: int) -> int
    decreases 6 - face,
{
    if face < 0 || face >= 6 {
        0
    } else {
        t[face] + tail_sum(t, face + 1)
    }
}

/// The number of kept dice that show faces `face + 1` to 6.
pub open spec fn kept_tail(from: DiceState, mask: KeepAction, face: int) -> int
    decreases 6 - face,
{
    if face < 0 || face >= 6 {
        0
    } else {
        kept_count(from, mask, face) + kept_tail(from, mask, face + 1)
    }
}

/// The number of ways that the rerolled dice complete the kept ones to the counts of
/// `to` on the faces from `face` on: a product of one binomial coefficient per face.
pub open spec fn suffix_weight(from: DiceState, mask: KeepAction, to: Seq<u8>, face: int) -> int
    decreases 6 - face,
{
    if face < 0 || face >= 6 {
        1
    } else {
        let y = to[face] - kept_count(from, mask, face);
        let q = tail_sum(to, face) - kept_tail(from, mask, face);
        if y < 0 || q < y {
            0
        } else {
            binomial(q as nat, y as nat) * suffix_weight(from, mask, to, face + 1)
        }
    }
}

/// The sum of `suffix_weight` over a sequence of count vectors.
pub open spec fn weight_sum(from: DiceState, mask: KeepAction, s: Seq<Seq<u8>>, face: int) -> int
    decreases s.len(),
{
    if s.len() == 0 {
        0
    } else {
        weight_sum(from, mask, s.drop_last(), face) + suffix_weight(from, mask, s.last(), face)
    }
}

/// The sum of the transition weights from `from` under `mask` toward each of `states`.
pub open spec fn row_weight(from: DiceState, mask: KeepAction, states: Seq<DiceState>) -> int
    decreases states.len(),
{
    if states.len() == 0 {
        0
    } else {
        row_weight(from, mask, states.drop_last()) + transition_weight(from, mask, states.last())
    }
}

proof fn lemma_pow_one(e: nat)
    ensures
        pow(1, e) == 1,
    decreases e,
{
    if e > 0 {
        lemma_pow_one((e - 1) as nat);
    }
}

proof fn lemma_kept_between_bounds(mask: KeepAction, lo: int, hi: int)
    ensures
        0 <= kept_between(mask, lo, hi),
        lo <= hi ==> kept_between(mask, lo, hi) <= hi - lo,
    decreases hi - lo,
{
    if hi > lo {
        lemma_kept_between_bounds(mask, lo, hi - 1);
    }
}

proof fn lemma_kept_tail_bounds(from: DiceState, mask: KeepAction, face: int)
    requires
        0 <= face <= 6,
    ensures
        0 <= kept_tail(from, mask, face) <= sum_prefix(from@, 6) - sum_prefix(from@, face),
    decreases 6 - face,
{
    if face < 6 {
        lemma_kept_tail_bounds(from, mask, face + 1);
        lemma_kept_between_bounds(mask, sum_prefix(from@, face), sum_prefix(from@, face + 1));
    }
}

/// Each completion agrees with the prefix before `face`, shows at least `x` dice of
/// `face`, and holds `rest` dice from `face` on.
proof fn lemma_completion_elements(p: Seq<u8>, face: int, rest: int, x: int)
    requires
        p.len() == 6,
        0 <= face <= 5,
        0 <= rest <= 5,
        0 <= x,
    ensures
        forall|i: int|
            0 <= i < completions_from(p, face, rest, x).len() ==> {
                let to = #[trigger] completions_from(p, face, rest, x)[i];
                &&& to.len() == 6
                &&& forall|g: int| 0 <= g < face ==> to[g] == p[g]
                &&& tail_sum(to, face) == rest
                &&& to[face] >= x
            },
    decreases 5 - face, rest + 1 - x,
{
    let c = completions_from(p, face, rest, x);
    if face == 5 {
        if x == 0 {
            let to = p.update(5, rest as u8);
            assert(c[0] == to);
            assert(tail_sum(to, 6) == 0);
        }
    } else if x <= rest {
        let next_prefix = p.update(face, x as u8);
        let child = completions_from(next_prefix, face + 1, rest - x, 0);
        let others = completions_from(p, face, rest, x + 1);
        lemma_completion_elements(next_prefix, face + 1, rest - x, 0);
        lemma_completion_elements(p, face, rest, x + 1);
        assert(c == child + others);
        assert forall|i: int| 0 <= i < c.len() implies {
            let to = #[trigger] c[i];
            &&& to.len() == 6
            &&& forall|g: int| 0 <= g < face ==> to[g] == p[g]
            &&& tail_sum(to, face) == rest
            &&& to[face] >= x
        } by {
            if i < child.len() {
                let to = child[i];
                assert(c[i] == to);
                assert(to[face] == next_prefix[face]);
                assert(forall|g: int| 0 <= g < face ==> to[g] == next_prefix[g] && next_prefix[g] == p[g]);
            } else {
                assert(c[i] == others[i - child.len()]);
            }
        }
    }
}

proof fn lemma_weight_sum_concat(
    from: DiceState,
    mask: KeepAction,
    a: Seq<Seq<u8>>,
    b: Seq<Seq<u8>>,
    face: int,
)
    ensures
        weight_sum(from, mask, a + b, face) == weight_sum(from, mask, a, face) + weight_sum(
            from,
            mask,
            b,
            face,
        ),
    decreases b.len(),
{
    if b.len() == 0 {
        assert(a + b =~= a);
    } else {
        lemma_weight_sum_concat(from, mask, a, b.drop_last(), face);
        assert((a + b).drop_last() =~= a + b.drop_last());
        assert((a + b).last() == b.last());
    }
}

proof fn lemma_weight_sum_scale(
    from: DiceState,
    mask: KeepAction,
    s: Seq<Seq<u8>>,
    face: int,
    c: int,
)
    requires
        forall|i: int|
            0 <= i < s.len() ==> suffix_weight(from, mask, #[trigger] s[i], face) == c
                * suffix_weight(from, mask, s[i], face + 1),
    ensures
        weight_sum(from, mask, s, face) == c * weight_sum(from, mask, s, face + 1),
    decreases s.len(),
{
    if s.len() > 0 {
        let d = s.drop_last();
        assert forall|i: int| 0 <= i < d.len() implies suffix_weight(from, mask, #[trigger] d[i], face)
            == c * suffix_weight(from, mask, d[i], face + 1) by {
            assert(d[i] == s[i]);
        }
        lemma_weight_sum_scale(from, mask, d, face, c);
        assert(s.last() == s[s.len() - 1]);
        let a = weight_sum(from, mask, d, face + 1);
        let w = suffix_weight(from, mask, s.last(), face + 1);
        assert(c * a + c * w == c * (a + w)) by (nonlinear_arith);
    }
}

/// The total weight of the completions with `rest` dice over the faces from `face` on:
/// `(6 - face)^q` ways, `q` being the number of rerolled dice that land there.
pub open spec fn completion_total(from: DiceState, mask: KeepAction, face: int, rest: int) -> int {
    let q = rest - kept_tail(from, mask, face);
    if q >= 0 {
        pow(6 - face, q as nat)
    } else {
        0
    }
}

proof fn lemma_completions_partial(
    from: DiceState,
    mask: KeepAction,
    p: Seq<u8>,
    face: int,
    rest: int,
    x: int,
)
    requires
        p.len() == 6,
        0 <= face <= 4,
        0 <= rest <= 5,
        0 <= x <= rest + 1,
        forall|next_prefix: Seq<u8>, r: int|
            next_prefix.len() == 6 && 0 <= r <= 5 ==> #[trigger] weight_sum(
                from,
                mask,
                completions_from(next_prefix, face + 1, r, 0),
                face + 1,
            ) == completion_total(from, mask, face + 1, r),
    ensures
        ({
            let kc = kept_count(from, mask, face);
            let q = rest - kept_tail(from, mask, face);
            weight_sum(from, mask, completions_from(p, face, rest, x), face) + binomial_prefix(
                q,
                5 - face,
                x - kc,
            ) == binomial_prefix(q, 5 - face, rest + 1 - kc)
        }),
    decreases rest + 1 - x,
{
    let kc = kept_count(from, mask, face);
    let q = rest - kept_tail(from, mask, face);
    let b = 5 - face;
    if x <= rest {
        let next_prefix = p.update(face, x as u8);
        let child = completions_from(next_prefix, face + 1, rest - x, 0);
        let others = completions_from(p, face, rest, x + 1);
        assert(completions_from(p, face, rest, x) == child + others);
        lemma_weight_sum_concat(from, mask, child, others, face);
        lemma_completions_partial(from, mask, p, face, rest, x + 1);
        let y = x - kc;
        let c = if y < 0 || q < y {
            0
        } else {
            binomial(q as nat, y as nat) as int
        };
        lemma_completion_elements(next_prefix, face + 1, rest - x, 0);
        assert forall|i: int| 0 <= i < child.len() implies suffix_weight(
            from,
            mask,
            #[trigger] child[i],
            face,
        ) == c * suffix_weight(from, mask, child[i], face + 1) by {
            let to = child[i];
            assert(to[face] == next_prefix[face]);
            assert(tail_sum(to, face) == x + tail_sum(to, face + 1));
        }
        lemma_weight_sum_scale(from, mask, child, face, c);
        assert(weight_sum(from, mask, child, face + 1) == completion_total(
            from,
            mask,
            face + 1,
            rest - x,
        ));
        assert(kept_tail(from, mask, face) == kc + kept_tail(from, mask, face + 1));
        assert(c * completion_total(from, mask, face + 1, rest - x) == binomial_term(q, b, y));
        if y >= 0 {
            assert(binomial_prefix(q, b, y + 1) == binomial_prefix(q, b, y) + binomial_term(
                q,
                b,
                y,
            ));
        } else {
            assert(binomial_prefix(q, b, y) == 0);
            assert(binomial_prefix(q, b, y + 1) == 0);
        }
    }
}

/// Over all completions of a prefix, the weights add up to `(6 - face)^q`.
proof fn lemma_completions_total(
    from: DiceState,
    mask: KeepAction,
    p: Seq<u8>,
    face: int,
    rest: int,
)
    requires
        p.len() == 6,
        0 <= face <= 5,
        0 <= rest <= 5,
    ensures
        weight_sum(from, mask, completions_from(p, face, rest, 0), face) == completion_total(
            from,
            mask,
            face,
            rest,
        ),
    decreases 5 - face,
{
    lemma_kept_between_bounds(
        mask,
        sum_prefix(from@, face),
        sum_prefix(from@, face + 1),
    );
    if face == 5 {
        let to = p.update(5, rest as u8);
        let c = completions_from(p, face, rest, 0);
        assert(c.drop_last() =~= Seq::<Seq<u8>>::empty());
        assert(c.last() == to);
        assert(tail_sum(to, 6) == 0);
        assert(kept_tail(from, mask, 6) == 0);
        let q = rest - kept_tail(from, mask, 5);
        assert(weight_sum(from, mask, c.drop_last(), 5) == 0);
        assert(to[5] == rest);
        assert(tail_sum(to, 5) == rest);
        assert(suffix_weight(from, mask, to, 6) == 1);
        if q >= 0 {
            lemma_binomial_diagonal(q as nat);
            lemma_pow_one(q as nat);
            assert(suffix_weight(from, mask, to, 5) == 1);
        } else {
            assert(suffix_weight(from, mask, to, 5) == 0);
        }
        assert(weight_sum(from, mask, c, 5) == suffix_weight(from, mask, to, 5));
    } else {
        assert forall|next_prefix: Seq<u8>, r: int| next_prefix.len() == 6 && 0 <= r <= 5 implies #[trigger] weight_sum(
            from,
            mask,
            completions_from(next_prefix, face + 1, r, 0),
            face + 1,
        ) == completion_total(from, mask, face + 1, r) by {
            lemma_completions_total(from, mask, next_prefix, face + 1, r);
        }
        lemma_completions_partial(from, mask, p, face, rest, 0);
        let kc = kept_count(from, mask, face);
        let q = rest - kept_tail(from, mask, face);
        let b = 5 - face;
        lemma_kept_tail_bounds(from, mask, face + 1);
        assert(binomial_prefix(q, b, -kc) == 0);
        lemma_binomial_prefix_stable(q, b, rest + 1 - kc);
        if q >= 0 {
            lemma_binomial_theorem(q, b);
        } else {
            assert(binomial_prefix(q, b, 0) == 0);
        }
    }
}

/// `s[face]! * ... * s[5]!`
pub open spec fn factorial_tail(s: Seq<u8>, face: int) -> nat
    decreases 6 - face,
{
    if face < 0 || face >= 6 {
        1
    } else {
        factorial(s[face] as nat) * factorial_tail(s, face + 1)
    }
}

proof fn lemma_factorial_tail_positive(s: Seq<u8>, face: int)
    ensures
        factorial_tail(s, face) >= 1,
    decreases 6 - face,
{
    if 0 <= face < 6 {
        lemma_factorial_tail_positive(s, face + 1);
        crate::combinatorics::lemma_factorial_positive(s[face] as nat);
        let a = factorial(s[face] as nat);
        let b = factorial_tail(s, face + 1);
        assert(a * b >= 1) by (nonlinear_arith)
            requires
                a >= 1,
                b >= 1,
        ;
    }
}

proof fn lemma_factorial_split(s: Seq<u8>, n: int)
    requires
        0 <= n <= 6,
    ensures
        factorial_product(s, n) * factorial_tail(s, n) == factorial_tail(s, 0),
    decreases n,
{
    if n > 0 {
        lemma_factorial_split(s, n - 1);
        let a = factorial_product(s, n - 1);
        let f = factorial(s[n - 1] as nat);
        let t = factorial_tail(s, n);
        assert(factorial_tail(s, n - 1) == f * t);
        assert(factorial_product(s, n) == a * f);
        assert((a * f) * t == a * (f * t)) by (nonlinear_arith);
    } else {
        let t = factorial_tail(s, 0);
        assert(factorial_product(s, 0) == 1);
        assert(1 * t == t) by (nonlinear_arith);
    }
}

proof fn lemma_suffix_weight_nonnegative(from: DiceState, mask: KeepAction, to: Seq<u8>, face: int)
    ensures
        suffix_weight(from, mask, to, face) >= 0,
    decreases 6 - face,
{
    if 0 <= face < 6 {
        lemma_suffix_weight_nonnegative(from, mask, to, face + 1);
        let y = to[face] - kept_count(from, mask, face);
        let q = tail_sum(to, face) - kept_tail(from, mask, face);
        if !(y < 0 || q < y) {
            let c = binomial(q as nat, y as nat);
            let w = suffix_weight(from, mask, to, face + 1);
            assert(c * w >= 0) by (nonlinear_arith)
                requires
                    c >= 0,
                    w >= 0,
            ;
        }
    }
}

proof fn lemma_sum_split(s: Seq<u8>, n: int)
    requires
        0 <= n <= 6,
    ensures
        sum_prefix(s, n) + tail_sum(s, n) == tail_sum(s, 0),
    decreases n,
{
    if n > 0 {
        lemma_sum_split(s, n - 1);
    }
}

proof fn lemma_tail_sum_nonnegative(s: Seq<u8>, face: int)
    ensures
        tail_sum(s, face) >= 0,
    decreases 6 - face,
{
    if 0 <= face < 6 {
        lemma_tail_sum_nonnegative(s, face + 1);
    }
}

proof fn lemma_suffix_weight_unreachable(
    from: DiceState,
    mask: KeepAction,
    to: Seq<u8>,
    face: int,
    g: int,
)
    requires
        0 <= face <= g < 6,
        to[g] < kept_count(from, mask, g),
    ensures
        suffix_weight(from, mask, to, face) == 0,
    decreases g - face,
{
    if face < g {
        lemma_suffix_weight_unreachable(from, mask, to, face + 1, g);
    }
}

/// Once every face of `to` holds its kept dice, the suffix weight times the factorials of
/// the rerolled counts is the factorial of their number.
proof fn lemma_suffix_weight_factorial(from: DiceState, mask: KeepAction, to: DiceState, face: int)
    requires
        0 <= face <= 6,
        can_reach(from, mask, to),
    ensures
        tail_sum(to@, face) - kept_tail(from, mask, face) == tail_sum(
            needed_roll(from, mask, to),
            face,
        ),
        suffix_weight(from, mask, to@, face) * factorial_tail(needed_roll(from, mask, to), face)
            == factorial(tail_sum(needed_roll(from, mask, to), face) as nat),
    decreases 6 - face,
{
    let k = needed_roll(from, mask, to);
    if face < 6 {
        lemma_suffix_weight_factorial(from, mask, to, face + 1);
        lemma_kept_between_bounds(mask, sum_prefix(from@, face), sum_prefix(from@, face + 1));
        lemma_tail_sum_nonnegative(k, face + 1);
        let y = to[face] - kept_count(from, mask, face);
        assert(k[face] == y);
        let q = tail_sum(k, face);
        let r = tail_sum(k, face + 1);
        assert(q == y + r);
        lemma_binomial_factorial(q as nat, y as nat);
        let c = binomial(q as nat, y as nat);
        let w = suffix_weight(from, mask, to@, face + 1);
        let ft = factorial_tail(k, face + 1);
        let fy = factorial(y as nat);
        assert((q - y) as nat == r as nat);
        assert(suffix_weight(from, mask, to@, face) == c * w);
        assert(factorial_tail(k, face) == fy * ft);
        assert((c * w) * (fy * ft) == c * fy * (w * ft)) by (nonlinear_arith);
    } else {
        assert(factorial(0) == 1);
    }
}

/// The transition weight toward `to` is the number of rerolls that complete the kept
/// dice to `to`, counted face by face, times `6^m` for the `m` kept dice.
proof fn lemma_transition_weight_factors(from: DiceState, mask: KeepAction, to: DiceState)
    requires
        is_dice_state(to),
    ensures
        transition_weight(from, mask, to) == pow6(kept_tail(from, mask, 0) as nat) * suffix_weight(
            from,
            mask,
            to@,
            0,
        ),
{
    if can_reach(from, mask, to) {
        let k = needed_roll(from, mask, to);
        lemma_suffix_weight_factorial(from, mask, to, 0);
        lemma_factorial_split(k, 6);
        lemma_factorial_tail_positive(k, 0);
        lemma_sum_split(k, 6);
        lemma_sum_split(to@, 6);
        let w = suffix_weight(from, mask, to@, 0);
        let ft = factorial_tail(k, 0);
        assert(factorial_tail(k, 6) == 1);
        let fp = factorial_product(k, 6);
        assert(fp * 1 == fp) by (nonlinear_arith);
        assert(fp == ft);
        lemma_suffix_weight_nonnegative(from, mask, to@, 0);
        assert(tail_sum(k, 6) == 0);
        assert(factorial(sum_prefix(k, 6) as nat) == w * ft);
        vstd::arithmetic::div_mod::lemma_div_by_multiple(w, ft as int);
        assert(multinomial(k) == w);
        assert(goal_roll_weight(k) == w * pow6(kept_tail(from, mask, 0) as nat));
    } else {
        let g = choose|g: int| 0 <= g < 6 && !(kept_count(from, mask, g) <= to[g]);
        lemma_suffix_weight_unreachable(from, mask, to@, 0, g);
    }
}

proof fn lemma_pow_six(e: nat)
    ensures
        pow(6, e) == pow6(e),
    decreases e,
{
    if e > 0 {
        lemma_pow_six((e - 1) as nat);
    }
}

proof fn lemma_pow6_adds(a: nat, b: nat)
    ensures
        pow6(a) * pow6(b) == pow6(a + b),
    decreases a,
{
    if a > 0 {
        lemma_pow6_adds((a - 1) as nat, b);
        let x = pow6((a - 1) as nat);
        let y = pow6(b);
        assert((6 * x) * y == 6 * (x * y)) by (nonlinear_arith);
    } else {
        let y = pow6(b);
        assert(1 * y == y) by (nonlinear_arith);
    }
}

proof fn lemma_row_weight_scaled(
    from: DiceState,
    mask: KeepAction,
    states: Seq<DiceState>,
    c: Seq<Seq<u8>>,
    scale: int,
)
    requires
        states.len() == c.len(),
        forall|i: int|
            0 <= i < states.len() ==> transition_weight(from, mask, #[trigger] states[i]) == scale
                * suffix_weight(from, mask, c[i], 0),
    ensures
        row_weight(from, mask, states) == scale * weight_sum(from, mask, c, 0),
    decreases states.len(),
{
    if states.len() > 0 {
        let ds = states.drop_last();
        let dc = c.drop_last();
        assert forall|i: int| 0 <= i < ds.len() implies transition_weight(
            from,
            mask,
            #[trigger] ds[i],
        ) == scale * suffix_weight(from, mask, dc[i], 0) by {
            assert(ds[i] == states[i] && dc[i] == c[i]);
        }
        lemma_row_weight_scaled(from, mask, ds, dc, scale);
        assert(states.last() == states[states.len() - 1]);
        assert(c.last() == c[c.len() - 1]);
        let a = weight_sum(from, mask, dc, 0);
        let w = suffix_weight(from, mask, c.last(), 0);
        assert(scale * a + scale * w == scale * (a + w)) by (nonlinear_arith);
    }
}

/// Every row of the transition tensor sums to one: from any dice state, under any keep
/// action, the weights toward the dice states of the enumeration add up to `6^5`, the
/// common denominator of the probabilities.
pub proof fn lemma_transition_rows_sum_to_one(
    from: DiceState,
    mask: KeepAction,
    states: Seq<DiceState>,
)
    requires
        is_dice_state(from),
        states.len() == completions_from(seq![0u8, 0, 0, 0, 0, 0], 0, 5, 0).len(),
        forall|i: int|
            0 <= i < states.len() ==> (#[trigger] states[i])@ == completions_from(
                seq![0u8, 0, 0, 0, 0, 0],
                0,
                5,
                0,
            )[i],
    ensures
        row_weight(from, mask, states) == PROBABILITY_DENOMINATOR,
{
    let zeros = seq![0u8, 0, 0, 0, 0, 0];
    let c = completions_from(zeros, 0, 5, 0);
    let m = kept_tail(from, mask, 0);
    lemma_completion_elements(zeros, 0, 5, 0);
    assert forall|i: int| 0 <= i < states.len() implies transition_weight(
        from,
        mask,
        #[trigger] states[i],
    ) == pow6(m as nat) * suffix_weight(from, mask, c[i], 0) by {
        assert(states[i]@ == c[i]);
        assert(tail_sum(c[i], 0) == 5);
        lemma_sum_split(states[i]@, 6);
        lemma_transition_weight_factors(from, mask, states[i]);
    }
    lemma_row_weight_scaled(from, mask, states, c, pow6(m as nat) as int);
    lemma_completions_total(from, mask, zeros, 0, 5);
    lemma_kept_tail_bounds(from, mask, 0);
    assert(sum_prefix(from@, 0) == 0);
    lemma_pow_six((5 - m) as nat);
    lemma_pow6_adds(m as nat, (5 - m) as nat);
    assert(pow6(5) == 7776) by {
        reveal_with_fuel(pow6, 6);
    }
}

} // verus!

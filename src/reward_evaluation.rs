use vstd::prelude::*;

use crate::dice_states::is_dice_state;
use crate::score_states::{
    action_at, apply, decode, encode, is_valid_key, lemma_apply_then_parent, lemma_decode_encode,
    lemma_encode_decode, locked_count, open_prefix, parents_prefix, reward_of, unlock, ScoreAction,
    ScoreState,
};

verus! {

/// Number of rows of a state's reward table: zero, one or two rerolls left.
pub const NUM_ROLLS: usize = 3;

/// The elements of `s` rise strictly.
pub open spec fn strictly_sorted(s: Seq<u32>) -> bool {
    forall|i: int, j: int| 0 <= i < j < s.len() ==> s[i] < s[j]
}

/// The keys of the parents of the state with key `key`, in scorecard order.
pub open spec fn parent_keys_of(key: u32) -> Seq<u32> {
    parents_prefix(decode(key), 13).map_values(|s: ScoreState| encode(s))
}

/// `k` is the key of a parent of some state whose key is in `layer`.
pub open spec fn is_parent_key(layer: Seq<u32>, k: u32) -> bool {
    exists|i: int| 0 <= i < layer.len() && (#[trigger] parent_keys_of(layer[i])).contains(k)
}

/// Relies on `slice::sort_unstable`: afterwards the vector holds the same elements in
/// ascending order.
#[verifier::external_body]
fn sort_ascending(v: &mut Vec<u32>)
    ensures
        final(v).len() == old(v).len(),
        forall|i: int, j: int| 0 <= i < j < final(v).len() ==> final(v)[i] <= final(v)[j],
        forall|k: u32| final(v)@.contains(k) <==> old(v)@.contains(k),
{
    v.sort_unstable();
}

/// The distinct elements of a vector in ascending order.
fn dedup_sorted(v: &Vec<u32>) -> (r: Vec<u32>)
    requires
        forall|i: int, j: int| 0 <= i < j < v.len() ==> v[i] <= v[j],
    ensures
        strictly_sorted(r@),
        forall|k: u32| r@.contains(k) <==> v@.contains(k),
{
    let mut r: Vec<u32> = Vec::new();
    let mut i: usize = 0;
    while i < v.len()
        invariant
            i <= v.len(),
            forall|a: int, b: int| 0 <= a < b < v.len() ==> v[a] <= v[b],
            strictly_sorted(r@),
            i > 0 ==> r.len() > 0 && r[r.len() - 1] == v[i - 1],
            i == 0 ==> r.len() == 0,
            forall|k: u32| r@.contains(k) <==> exists|j: int| 0 <= j < i && v[j] == k,
        decreases v.len() - i,
    {
        let x = v[i];
        let ghost before = r@;
        if r.len() == 0 || r[r.len() - 1] != x {
            r.push(x);
            proof {
                assert forall|a: int, b: int| 0 <= a < b < r.len() implies r[a] < r[b] by {
                    if b == r.len() - 1 && a < b && before.len() > 0 {
                        assert(before[a] <= before[before.len() - 1]);
                    }
                }
                assert forall|k: u32| r@.contains(k) <==> exists|j: int| 0 <= j < i + 1 && v[j] == k by {
                    if r@.contains(k) && k != x {
                        let m = choose|m: int| 0 <= m < r.len() && r[m] == k;
                        assert(before[m] == k);
                        assert(before.contains(k));
                    }
                    if exists|j: int| 0 <= j < i && v[j] == k {
                        assert(before.contains(k));
                        let m = choose|m: int| 0 <= m < before.len() && before[m] == k;
                        assert(r[m] == k);
                    }
                    if k == x {
                        assert(r[r.len() - 1] == k);
                    }
                }
            }
        }
        i = i + 1;
    }
    proof {
        assert forall|k: u32| r@.contains(k) <==> v@.contains(k) by {
            if v@.contains(k) {
                let j = choose|j: int| 0 <= j < v.len() && v[j] == k;
                assert(exists|j: int| 0 <= j < i && v[j] == k);
            }
        }
    }
    r
}

/// The keys of the parents of the state with key `key`.
fn parent_keys(key: u32) -> (r: Vec<u32>)
    requires
        is_valid_key(key),
    ensures
        r@ == parent_keys_of(key),
{
    proof {
        lemma_encode_decode(key);
    }
    let state = ScoreState::from_key(key);
    let mut r: Vec<u32> = Vec::new();
    if let Some(s) = state {
        let parents = s.get_parent_states();
        let mut j: usize = 0;
        while j < parents.len()
            invariant
                j <= parents.len(),
                parents@ == parents_prefix(decode(key), 13),
                r@ == parents@.subrange(0, j as int).map_values(|p: ScoreState| encode(p)),
            decreases parents.len() - j,
        {
            let k = parents[j].to_key();
            r.push(k);
            j = j + 1;
            proof {
                assert(r@ =~= parents@.subrange(0, j as int).map_values(|p: ScoreState| encode(p)));
            }
        }
        proof {
            assert(parents@.subrange(0, parents.len() as int) =~= parents@);
        }
    }
    r
}

/// The next layer: the keys, ascending and without repeats, of every parent of every
/// state in `layer`.
pub fn parent_layer_keys(layer: &Vec<u32>) -> (r: Vec<u32>)
    requires
        forall|i: int| 0 <= i < layer.len() ==> is_valid_key(#[trigger] layer[i]),
    ensures
        strictly_sorted(r@),
        forall|k: u32| r@.contains(k) <==> is_parent_key(layer@, k),
        forall|i: int| 0 <= i < r.len() ==> is_valid_key(#[trigger] r[i]),
{
    let mut all: Vec<u32> = Vec::new();
    let mut i: usize = 0;
    while i < layer.len()
        invariant
            i <= layer.len(),
            forall|x: int| 0 <= x < layer.len() ==> is_valid_key(#[trigger] layer[x]),
            forall|k: u32|
                all@.contains(k) <==> exists|x: int|
                    0 <= x < i && (#[trigger] parent_keys_of(layer[x])).contains(k),
        decreases layer.len() - i,
    {
        let keys = parent_keys(layer[i]);
        let ghost before = all@;
        let mut j: usize = 0;
        while j < keys.len()
            invariant
                j <= keys.len(),
                keys@ == parent_keys_of(layer[i as int]),
                all@ == before + keys@.subrange(0, j as int),
            decreases keys.len() - j,
        {
            all.push(keys[j]);
            j = j + 1;
            proof {
                assert(all@ =~= before + keys@.subrange(0, j as int));
            }
        }
        proof {
            assert(keys@.subrange(0, keys.len() as int) =~= keys@);
            assert forall|k: u32|
                all@.contains(k) <==> exists|x: int|
                    0 <= x < i + 1 && (#[trigger] parent_keys_of(layer[x])).contains(k) by {
                if all@.contains(k) {
                    let m = choose|m: int| 0 <= m < all.len() && all[m] == k;
                    if m < before.len() {
                        assert(before[m] == k);
                        assert(before.contains(k));
                    } else {
                        assert(keys@[m - before.len()] == k);
                        assert(parent_keys_of(layer[i as int]).contains(k));
                    }
                }
                if exists|x: int| 0 <= x < i + 1 && (#[trigger] parent_keys_of(layer[x])).contains(
                    k,
                ) {
                    let x = choose|x: int|
                        0 <= x < i + 1 && (#[trigger] parent_keys_of(layer[x])).contains(k);
                    if x < i {
                        assert(before.contains(k));
                        let m = choose|m: int| 0 <= m < before.len() && before[m] == k;
                        assert(all[m] == k);
                    } else {
                        let m = choose|m: int| 0 <= m < keys.len() && keys[m] == k;
                        assert(all[before.len() + m] == k);
                    }
                }
            }
        }
        i = i + 1;
    }
    sort_ascending(&mut all);
    let r = dedup_sorted(&all);
    proof {
        assert forall|i: int| 0 <= i < r.len() implies is_valid_key(#[trigger] r[i]) by {
            let k = r[i];
            assert(r@.contains(k));
            let x = choose|x: int|
                0 <= x < layer.len() && (#[trigger] parent_keys_of(layer[x])).contains(k);
            let s = decode(layer[x]);
            lemma_encode_decode(layer[x]);
            let ps = parents_prefix(s, 13);
            let j = choose|j: int|
                0 <= j < parent_keys_of(layer[x]).len() && parent_keys_of(layer[x])[j] == k;
            lemma_parents_wf(s, 13);
            assert(k == encode(ps[j]));
            lemma_decode_encode(ps[j]);
        }
    }
    r
}

proof fn lemma_parents_wf(s: ScoreState, n: int)
    requires
        s.wf(),
    ensures
        forall|j: int|
            0 <= j < parents_prefix(s, n).len() ==> (#[trigger] parents_prefix(s, n)[j]).wf(),
    decreases n,
{
    if n > 0 {
        lemma_parents_wf(s, n - 1);
        let prev = parents_prefix(s, n - 1);
        assert(unlock(s, action_at(n - 1)).wf());
        assert forall|j: int|
            0 <= j < parents_prefix(s, n).len() implies (#[trigger] parents_prefix(s, n)[j]).wf() by {
            if j < prev.len() {
                assert(parents_prefix(s, n)[j] == prev[j]);
            }
        }
    }
}

/// What scoring one open category with a given roll leads to: the points it earns
/// and the key of the state that follows.
#[derive(Debug, Clone, Copy, PartialEq, Eq)]
pub struct ScoreOutcome {
    pub action: ScoreAction,
    pub reward: u16,
    pub child_key: u32,
}

/// For each open category of `score_state`, in scorecard order, the points that
/// scoring it with `dice_state` earns and the key of the resulting state, whose
/// generation is one higher.
pub fn score_outcomes(score_state: &ScoreState, dice_state: &[u8; 6]) -> (r: Vec<ScoreOutcome>)
    requires
        score_state.wf(),
        is_dice_state(*dice_state),
    ensures
        r.len() == open_prefix(*score_state, 13).len(),
        forall|i: int|
            0 <= i < r.len() ==> {
                let a = open_prefix(*score_state, 13)[i];
                &&& (#[trigger] r[i]).action == a
                &&& r[i].reward == reward_of(*score_state, a, *dice_state)
                &&& r[i].child_key == encode(apply(*score_state, a, *dice_state))
                &&& is_valid_key(r[i].child_key)
                &&& locked_count(decode(r[i].child_key)) == locked_count(*score_state) + 1
            },
{
    let actions = score_state.possible_score_actions();
    let mut r: Vec<ScoreOutcome> = Vec::new();
    let mut i: usize = 0;
    while i < actions.len()
        invariant
            i <= actions.len(),
            score_state.wf(),
            is_dice_state(*dice_state),
            actions@ == open_prefix(*score_state, 13),
            r.len() == i,
            forall|x: int|
                0 <= x < i ==> {
                    let a = actions[x];
                    &&& (#[trigger] r[x]).action == a
                    &&& r[x].reward == reward_of(*score_state, a, *dice_state)
                    &&& r[x].child_key == encode(apply(*score_state, a, *dice_state))
                    &&& is_valid_key(r[x].child_key)
                    &&& locked_count(decode(r[x].child_key)) == locked_count(*score_state) + 1
                },
        decreases actions.len() - i,
    {
        let a = actions[i];
        proof {
            assert(open_prefix(*score_state, 13).contains(a));
            lemma_apply_then_parent(*score_state, a, *dice_state);
            lemma_decode_encode(apply(*score_state, a, *dice_state));
        }
        let reward = score_state.reward(a, dice_state);
        if let Some(child) = score_state.apply_action(a, dice_state) {
            r.push(ScoreOutcome { action: a, reward, child_key: child.to_key() });
        }
        i = i + 1;
    }
    r
}

/// A table of values keyed by scorecard keys: the keys ascend strictly and the value of
/// `keys[i]` is `values[i]`, so each key's slot is fixed before any value is computed.
#[derive(Debug, Clone)]
pub struct IntKeyedArrayMap<V> {
    pub keys: Vec<u32>,
    pub values: Vec<V>,
}

impl<V: Copy> IntKeyedArrayMap<V> {
    /// The keys ascend strictly and each has one value.
    pub open spec fn wf(&self) -> bool {
        &&& strictly_sorted(self.keys@)
        &&& self.keys.len() == self.values.len()
    }

    /// A table over the distinct keys of `keys`, in ascending order, each holding `fill`.
    pub fn with_keys(keys: &Vec<u32>, fill: V) -> (r: Self)
        ensures
            r.wf(),
            forall|k: u32| r.keys@.contains(k) <==> keys@.contains(k),
            forall|i: int| 0 <= i < r.values.len() ==> #[trigger] r.values[i] == fill,
    {
        let mut sorted_keys = keys.clone();
        sort_ascending(&mut sorted_keys);
        let sorted_keys = dedup_sorted(&sorted_keys);
        let mut values: Vec<V> = Vec::new();
        let mut i: usize = 0;
        while i < sorted_keys.len()
            invariant
                i <= sorted_keys.len(),
                values.len() == i,
                forall|x: int| 0 <= x < i ==> #[trigger] values[x] == fill,
            decreases sorted_keys.len() - i,
        {
            values.push(fill);
            i = i + 1;
        }
        IntKeyedArrayMap { keys: sorted_keys, values }
    }

    /// A table over the keys of the given states, each holding `fill`.
    pub fn new(states: &Vec<ScoreState>, fill: V) -> (r: Self)
        ensures
            r.wf(),
            forall|k: u32|
                r.keys@.contains(k) <==> exists|i: int|
                    0 <= i < states.len() && encode(#[trigger] states[i]) == k,
            forall|i: int| 0 <= i < r.values.len() ==> #[trigger] r.values[i] == fill,
    {
        let mut keys: Vec<u32> = Vec::new();
        let mut i: usize = 0;
        while i < states.len()
            invariant
                i <= states.len(),
                keys.len() == i,
                forall|x: int| 0 <= x < i ==> #[trigger] keys[x] == encode(states[x]),
            decreases states.len() - i,
        {
            keys.push(states[i].to_key());
            i = i + 1;
        }
        let r = IntKeyedArrayMap::with_keys(&keys, fill);
        proof {
            assert forall|k: u32|
                r.keys@.contains(k) <==> exists|i: int|
                    0 <= i < states.len() && encode(#[trigger] states[i]) == k by {
                if exists|i: int| 0 <= i < states.len() && encode(#[trigger] states[i]) == k {
                    let i = choose|i: int| 0 <= i < states.len() && encode(#[trigger] states[i]) == k;
                    assert(keys[i] == k);
                    assert(keys@.contains(k));
                }
                if r.keys@.contains(k) {
                    assert(keys@.contains(k));
                    let i = choose|i: int| 0 <= i < keys.len() && keys[i] == k;
                    assert(encode(states[i]) == k);
                }
            }
        }
        r
    }

    /// The slot of `key`, found by binary search.
    pub fn position(&self, key: u32) -> (r: Option<usize>)
        requires
            self.wf(),
        ensures
            match r {
                Some(i) => i < self.keys.len() && self.keys[i as int] == key,
                None => !self.keys@.contains(key),
            },
    {
        let mut lo: usize = 0;
        let mut hi: usize = self.keys.len();
        while lo < hi
            invariant
                self.wf(),
                lo <= hi <= self.keys.len(),
                forall|i: int| 0 <= i < lo ==> self.keys[i] < key,
                forall|i: int| hi <= i < self.keys.len() ==> self.keys[i] > key,
            decreases hi - lo,
        {
            let mid = lo + (hi - lo) / 2;
            let k = self.keys[mid];
            if k == key {
                return Some(mid);
            } else if k < key {
                lo = mid + 1;
            } else {
                hi = mid;
            }
        }
        None
    }

    /// The value of `key`, or `None` when the table has no such key.
    pub fn get(&self, key: u32) -> (r: Option<&V>)
        requires
            self.wf(),
        ensures
            r is Some <==> self.keys@.contains(key),
            forall|i: int|
                0 <= i < self.keys.len() && self.keys[i] == key ==> r == Some(&self.values[i]),
    {
        match self.position(key) {
            Some(i) => Some(&self.values[i]),
            None => None,
        }
    }

    /// Stores `value` as the value of `key`, which the table must hold.
    pub fn set(&mut self, key: u32, value: V)
        requires
            old(self).wf(),
            old(self).keys@.contains(key),
        ensures
            final(self).wf(),
            final(self).keys == old(self).keys,
            forall|i: int|
                0 <= i < old(self).keys.len() && old(self).keys[i] == key ==> final(self).values@
                    == old(self).values@.update(i, value),
    {
        match self.position(key) {
            Some(i) => {
                self.values.set(i, value);
            },
            None => {},
        }
    }
}

/// Two strictly ascending key sequences with the same keys are the same sequence.
pub proof fn lemma_sorted_keys_unique(a: Seq<u32>, b: Seq<u32>)
    requires
        strictly_sorted(a),
        strictly_sorted(b),
        forall|k: u32| a.contains(k) <==> b.contains(k),
    ensures
        a == b,
    decreases a.len(),
{
    if a.len() == 0 {
        if b.len() > 0 {
            assert(b.contains(b[0]));
        }
        assert(a =~= b);
    } else {
        assert(a.contains(a[0]));
        let j = choose|j: int| 0 <= j < b.len() && b[j] == a[0];
        assert(b.contains(b[0]));
        let i = choose|i: int| 0 <= i < a.len() && a[i] == b[0];
        assert(a[0] == b[0]);
        let ta = a.subrange(1, a.len() as int);
        let tb = b.subrange(1, b.len() as int);
        assert forall|k: u32| ta.contains(k) <==> tb.contains(k) by {
            if ta.contains(k) {
                let x = choose|x: int| 0 <= x < ta.len() && ta[x] == k;
                assert(a[x + 1] == k);
                assert(a.contains(k));
                let y = choose|y: int| 0 <= y < b.len() && b[y] == k;
                assert(y != 0);
                assert(tb[y - 1] == k);
            }
            if tb.contains(k) {
                let x = choose|x: int| 0 <= x < tb.len() && tb[x] == k;
                assert(b[x + 1] == k);
                assert(b.contains(k));
                let y = choose|y: int| 0 <= y < a.len() && a[y] == k;
                assert(y != 0);
                assert(ta[y - 1] == k);
            }
        }
        lemma_sorted_keys_unique(ta, tb);
        assert(a =~= b) by {
            assert forall|x: int| 0 <= x < a.len() implies a[x] == b[x] by {
                if x > 0 {
                    assert(ta[x - 1] == tb[x - 1]);
                }
            }
        }
    }
}

/// The next layer's key array depends on nothing but the layer before it: any two
/// results that meet the contract of `parent_layer_keys` on one layer are equal, so two
/// runs lay out every layer's table identically.
pub proof fn lemma_parent_layer_keys_deterministic(layer: Seq<u32>, r1: Seq<u32>, r2: Seq<u32>)
    requires
        strictly_sorted(r1),
        strictly_sorted(r2),
        forall|k: u32| r1.contains(k) <==> is_parent_key(layer, k),
        forall|k: u32| r2.contains(k) <==> is_parent_key(layer, k),
    ensures
        r1 == r2,
{
    lemma_sorted_keys_unique(r1, r2);
}

} // verus!

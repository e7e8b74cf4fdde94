use vstd::prelude::*;

use crate::dice_states::{is_dice_state, pow6, DiceState};

verus! {

/// The thirteen scoring categories of the scorecard.
#[derive(Debug, Clone, Copy, PartialEq, Eq, Structural, PartialOrd, Ord, Hash)]
pub enum ScoreAction {
    Ones,
    Twos,
    Threes,
    Fours,
    Fives,
    Sixes,
    ThreeOfAKind,
    FourOfAKind,
    FullHouse,
    SmallStraight,
    LargeStraight,
    Chance,
    Yahtzee,
}

/// Number of scoring categories.
pub const NUM_CATEGORIES: usize = 13;

/// The Yahtzee box: open, or scored with zero or with fifty points. The difference
/// between the two scored states decides the joker bonus of later five-of-a-kinds.
#[derive(Debug, Clone, Copy, PartialEq, Eq, Structural, Hash)]
pub enum YahtzeeField {
    Open,
    ScoredZero,
    ScoredNonZero,
}

/// A partially filled scorecard. An upper category holds, once locked, how many dice
/// showed its face; a lower category is locked or not; the Yahtzee box is tri-state.
#[derive(Debug, Clone, Copy, PartialEq, Eq, Hash)]
pub struct ScoreState {
    pub ones: Option<u8>,
    pub twos: Option<u8>,
    pub threes: Option<u8>,
    pub fours: Option<u8>,
    pub fives: Option<u8>,
    pub sixes: Option<u8>,
    pub three_of_a_kind: bool,
    pub four_of_a_kind: bool,
    pub full_house: bool,
    pub small_straight: bool,
    pub large_straight: bool,
    pub chance: bool,
    pub yahtzee: YahtzeeField,
}

/// The position of a category in the fixed order of the scorecard.
pub open spec fn action_index(a: ScoreAction) -> int {
    match a {
        ScoreAction::Ones => 0,
        ScoreAction::Twos => 1,
        ScoreAction::Threes => 2,
        ScoreAction::Fours => 3,
        ScoreAction::Fives => 4,
        ScoreAction::Sixes => 5,
        ScoreAction::ThreeOfAKind => 6,
        ScoreAction::FourOfAKind => 7,
        ScoreAction::FullHouse => 8,
        ScoreAction::SmallStraight => 9,
        ScoreAction::LargeStraight => 10,
        ScoreAction::Chance => 11,
        ScoreAction::Yahtzee => 12,
    }
}

/// The category at position `i` of the scorecard.
pub open spec fn action_at(i: int) -> ScoreAction {
    if i == 0 {
        ScoreAction::Ones
    } else if i == 1 {
        ScoreAction::Twos
    } else if i == 2 {
        ScoreAction::Threes
    } else if i == 3 {
        ScoreAction::Fours
    } else if i == 4 {
        ScoreAction::Fives
    } else if i == 5 {
        ScoreAction::Sixes
    } else if i == 6 {
        ScoreAction::ThreeOfAKind
    } else if i == 7 {
        ScoreAction::FourOfAKind
    } else if i == 8 {
        ScoreAction::FullHouse
    } else if i == 9 {
        ScoreAction::SmallStraight
    } else if i == 10 {
        ScoreAction::LargeStraight
    } else if i == 11 {
        ScoreAction::Chance
    } else {
        ScoreAction::Yahtzee
    }
}

/// An upper category: one of Ones to Sixes.
pub open spec fn is_upper(a: ScoreAction) -> bool {
    action_index(a) < 6
}

/// The upper field of face `f + 1`.
pub open spec fn upper_field(s: ScoreState, f: int) -> Option<u8> {
    if f == 0 {
        s.ones
    } else if f == 1 {
        s.twos
    } else if f == 2 {
        s.threes
    } else if f == 3 {
        s.fours
    } else if f == 4 {
        s.fives
    } else {
        s.sixes
    }
}

/// Whether category `a` has been scored.
pub open spec fn is_locked(s: ScoreState, a: ScoreAction) -> bool {
    match a {
        ScoreAction::ThreeOfAKind => s.three_of_a_kind,
        ScoreAction::FourOfAKind => s.four_of_a_kind,
        ScoreAction::FullHouse => s.full_house,
        ScoreAction::SmallStraight => s.small_straight,
        ScoreAction::LargeStraight => s.large_straight,
        ScoreAction::Chance => s.chance,
        ScoreAction::Yahtzee => s.yahtzee != YahtzeeField::Open,
        _ => upper_field(s, action_index(a)) is Some,
    }
}

/// The number of locked categories among the first `n` of the scorecard.
pub open spec fn locked_prefix(s: ScoreState, n: int) -> int
    decreases n,
{
    if n <= 0 {
        0
    } else {
        locked_prefix(s, n - 1) + if is_locked(s, action_at(n - 1)) {
            1int
        } else {
            0int
        }
    }
}

/// The number of locked categories: the generation of the state.
pub open spec fn locked_count(s: ScoreState) -> int {
    locked_prefix(s, 13)
}

/// Every locked upper category records at most five dice.
pub open spec fn upper_count_ok(o: Option<u8>) -> bool {
    match o {
        Some(c) => c <= 5,
        None => true,
    }
}

impl ScoreState {
    /// The state is well formed: each recorded count is a possible number of dice.
    pub open spec fn wf(self) -> bool {
        upper_count_ok(self.ones) && upper_count_ok(self.twos) && upper_count_ok(self.threes)
            && upper_count_ok(self.fours) && upper_count_ok(self.fives) && upper_count_ok(
            self.sixes,
        )
    }
}

/// The 3-bit code of an upper field: the count, or 7 while open.
pub open spec fn upper_code(o: Option<u8>) -> u32 {
    match o {
        Some(c) => c as u32,
        None => 7,
    }
}

/// The bit of a lower category.
pub open spec fn flag_code(b: bool) -> u32 {
    if b {
        1
    } else {
        0
    }
}

/// The 2-bit code of the Yahtzee box.
pub open spec fn yahtzee_code(y: YahtzeeField) -> u32 {
    match y {
        YahtzeeField::ScoredZero => 0,
        YahtzeeField::ScoredNonZero => 1,
        YahtzeeField::Open => 2,
    }
}

/// The key layout: faces one to six in bits 23-25, 20-22, 17-19, 14-16, 11-13, 8-10;
/// the six lower categories in bits 7 down to 2; the Yahtzee box in bits 0-1.
pub open spec fn pack(
    u0: u32,
    u1: u32,
    u2: u32,
    u3: u32,
    u4: u32,
    u5: u32,
    l0: u32,
    l1: u32,
    l2: u32,
    l3: u32,
    l4: u32,
    l5: u32,
    y: u32,
) -> u32 {
    (u0 << 23u32) | (u1 << 20u32) | (u2 << 17u32) | (u3 << 14u32) | (u4 << 11u32) | (u5 << 8u32)
        | (l0 << 7u32) | (l1 << 6u32) | (l2 << 5u32) | (l3 << 4u32) | (l4 << 3u32) | (l5 << 2u32)
        | y
}

/// The 32-bit key of a scorecard state.
pub open spec fn encode(s: ScoreState) -> u32 {
    pack(
        upper_code(s.ones),
        upper_code(s.twos),
        upper_code(s.threes),
        upper_code(s.fours),
        upper_code(s.fives),
        upper_code(s.sixes),
        flag_code(s.three_of_a_kind),
        flag_code(s.four_of_a_kind),
        flag_code(s.full_house),
        flag_code(s.small_straight),
        flag_code(s.large_straight),
        flag_code(s.chance),
        yahtzee_code(s.yahtzee),
    )
}

/// The three bits of `key` from bit `shift` on.
pub open spec fn field3(key: u32, shift: u32) -> u32 {
    (key >> shift) & 7u32
}

pub open spec fn decode_upper(code: u32) -> Option<u8> {
    if code == 7 {
        None
    } else {
        Some(code as u8)
    }
}

pub open spec fn decode_flag(key: u32, shift: u32) -> bool {
    (key >> shift) & 1u32 == 1u32
}

pub open spec fn decode_yahtzee(code: u32) -> YahtzeeField {
    if code == 0 {
        YahtzeeField::ScoredZero
    } else if code == 1 {
        YahtzeeField::ScoredNonZero
    } else {
        YahtzeeField::Open
    }
}

/// An upper field code is a count of at most five dice, or the open marker.
pub open spec fn upper_code_ok(code: u32) -> bool {
    code <= 5 || code == 7
}

/// A key that some well-formed state encodes to.
pub open spec fn is_valid_key(key: u32) -> bool {
    &&& key < 0x4000000u32
    &&& upper_code_ok(field3(key, 23))
    &&& upper_code_ok(field3(key, 20))
    &&& upper_code_ok(field3(key, 17))
    &&& upper_code_ok(field3(key, 14))
    &&& upper_code_ok(field3(key, 11))
    &&& upper_code_ok(field3(key, 8))
    &&& key & 3u32 != 3u32
}

/// The state that a key describes.
pub open spec fn decode(key: u32) -> ScoreState {
    ScoreState {
        ones: decode_upper(field3(key, 23)),
        twos: decode_upper(field3(key, 20)),
        threes: decode_upper(field3(key, 17)),
        fours: decode_upper(field3(key, 14)),
        fives: decode_upper(field3(key, 11)),
        sixes: decode_upper(field3(key, 8)),
        three_of_a_kind: decode_flag(key, 7),
        four_of_a_kind: decode_flag(key, 6),
        full_house: decode_flag(key, 5),
        small_straight: decode_flag(key, 4),
        large_straight: decode_flag(key, 3),
        chance: decode_flag(key, 2),
        yahtzee: decode_yahtzee(key & 3u32),
    }
}

proof fn lemma_pack_fields(
    u0: u32,
    u1: u32,
    u2: u32,
    u3: u32,
    u4: u32,
    u5: u32,
    l0: u32,
    l1: u32,
    l2: u32,
    l3: u32,
    l4: u32,
    l5: u32,
    y: u32,
)
    requires
        u0 < 8 && u1 < 8 && u2 < 8 && u3 < 8 && u4 < 8 && u5 < 8,
        l0 < 2 && l1 < 2 && l2 < 2 && l3 < 2 && l4 < 2 && l5 < 2,
        y < 4,
    ensures
        ({
            let k = pack(u0, u1, u2, u3, u4, u5, l0, l1, l2, l3, l4, l5, y);
            &&& k < 0x4000000u32
            &&& field3(k, 23) == u0 && field3(k, 20) == u1 && field3(k, 17) == u2
            &&& field3(k, 14) == u3 && field3(k, 11) == u4 && field3(k, 8) == u5
            &&& (k >> 7u32) & 1u32 == l0 && (k >> 6u32) & 1u32 == l1 && (k >> 5u32) & 1u32 == l2
            &&& (k >> 4u32) & 1u32 == l3 && (k >> 3u32) & 1u32 == l4 && (k >> 2u32) & 1u32 == l5
            &&& k & 3u32 == y
        }),
{
    let k = pack(u0, u1, u2, u3, u4, u5, l0, l1, l2, l3, l4, l5, y);
    assert({
        let k = (u0 << 23u32) | (u1 << 20u32) | (u2 << 17u32) | (u3 << 14u32) | (u4 << 11u32) | (u5
            << 8u32) | (l0 << 7u32) | (l1 << 6u32) | (l2 << 5u32) | (l3 << 4u32) | (l4 << 3u32) | (
        l5 << 2u32) | y;
        &&& k < 0x4000000u32
        &&& (k >> 23u32) & 7u32 == u0 && (k >> 20u32) & 7u32 == u1 && (k >> 17u32) & 7u32 == u2
        &&& (k >> 14u32) & 7u32 == u3 && (k >> 11u32) & 7u32 == u4 && (k >> 8u32) & 7u32 == u5
        &&& (k >> 7u32) & 1u32 == l0 && (k >> 6u32) & 1u32 == l1 && (k >> 5u32) & 1u32 == l2
        &&& (k >> 4u32) & 1u32 == l3 && (k >> 3u32) & 1u32 == l4 && (k >> 2u32) & 1u32 == l5
        &&& k & 3u32 == y
    }) by (bit_vector)
        requires
            u0 < 8 && u1 < 8 && u2 < 8 && u3 < 8 && u4 < 8 && u5 < 8,
            l0 < 2 && l1 < 2 && l2 < 2 && l3 < 2 && l4 < 2 && l5 < 2,
            y < 4,
    ;
}

proof fn lemma_unpack_fields(k: u32)
    requires
        k < 0x4000000u32,
    ensures
        k == pack(
            field3(k, 23),
            field3(k, 20),
            field3(k, 17),
            field3(k, 14),
            field3(k, 11),
            field3(k, 8),
            (k >> 7u32) & 1u32,
            (k >> 6u32) & 1u32,
            (k >> 5u32) & 1u32,
            (k >> 4u32) & 1u32,
            (k >> 3u32) & 1u32,
            (k >> 2u32) & 1u32,
            k & 3u32,
        ),
{
    assert(k == (((k >> 23u32) & 7u32) << 23u32) | (((k >> 20u32) & 7u32) << 20u32) | (((k
        >> 17u32) & 7u32) << 17u32) | (((k >> 14u32) & 7u32) << 14u32) | (((k >> 11u32) & 7u32)
        << 11u32) | (((k >> 8u32) & 7u32) << 8u32) | (((k >> 7u32) & 1u32) << 7u32) | (((k
        >> 6u32) & 1u32) << 6u32) | (((k >> 5u32) & 1u32) << 5u32) | (((k >> 4u32) & 1u32)
        << 4u32) | (((k >> 3u32) & 1u32) << 3u32) | (((k >> 2u32) & 1u32) << 2u32) | (k & 3u32))
        by (bit_vector)
        requires
            k < 0x4000000u32,
    ;
}

/// Encoding a well-formed scorecard and decoding the key gives back the same state,
/// and the key is a valid one.
pub proof fn lemma_decode_encode(s: ScoreState)
    requires
        s.wf(),
    ensures
        is_valid_key(encode(s)),
        decode(encode(s)) == s,
{
    lemma_pack_fields(
        upper_code(s.ones),
        upper_code(s.twos),
        upper_code(s.threes),
        upper_code(s.fours),
        upper_code(s.fives),
        upper_code(s.sixes),
        flag_code(s.three_of_a_kind),
        flag_code(s.four_of_a_kind),
        flag_code(s.full_house),
        flag_code(s.small_straight),
        flag_code(s.large_straight),
        flag_code(s.chance),
        yahtzee_code(s.yahtzee),
    );
}

/// Decoding a valid key gives a well-formed state whose encoding is that key.
pub proof fn lemma_encode_decode(key: u32)
    requires
        is_valid_key(key),
    ensures
        decode(key).wf(),
        encode(decode(key)) == key,
{
    lemma_unpack_fields(key);
    let k = key;
    assert((k >> 7u32) & 1u32 <= 1 && (k >> 6u32) & 1u32 <= 1 && (k >> 5u32) & 1u32 <= 1 && (k
        >> 4u32) & 1u32 <= 1 && (k >> 3u32) & 1u32 <= 1 && (k >> 2u32) & 1u32 <= 1 && (k >> 23u32)
        & 7u32 <= 7 && (k >> 20u32) & 7u32 <= 7 && (k >> 17u32) & 7u32 <= 7 && (k >> 14u32) & 7u32
        <= 7 && (k >> 11u32) & 7u32 <= 7 && (k >> 8u32) & 7u32 <= 7 && k & 3u32 <= 3) by (bit_vector);
}

/// The state with category `a` open again: the inverse of scoring it.
pub open spec fn unlock(s: ScoreState, a: ScoreAction) -> ScoreState {
    match a {
        ScoreAction::Ones => ScoreState { ones: None, ..s },
        ScoreAction::Twos => ScoreState { twos: None, ..s },
        ScoreAction::Threes => ScoreState { threes: None, ..s },
        ScoreAction::Fours => ScoreState { fours: None, ..s },
        ScoreAction::Fives => ScoreState { fives: None, ..s },
        ScoreAction::Sixes => ScoreState { sixes: None, ..s },
        ScoreAction::ThreeOfAKind => ScoreState { three_of_a_kind: false, ..s },
        ScoreAction::FourOfAKind => ScoreState { four_of_a_kind: false, ..s },
        ScoreAction::FullHouse => ScoreState { full_house: false, ..s },
        ScoreAction::SmallStraight => ScoreState { small_straight: false, ..s },
        ScoreAction::LargeStraight => ScoreState { large_straight: false, ..s },
        ScoreAction::Chance => ScoreState { chance: false, ..s },
        ScoreAction::Yahtzee => ScoreState { yahtzee: YahtzeeField::Open, ..s },
    }
}

/// The points that a locked upper field of face `face` holds.
pub open spec fn upper_points(o: Option<u8>, face: int) -> int {
    match o {
        Some(c) => c * face,
        None => 0,
    }
}

/// The points in the upper section so far, without the bonus.
pub open spec fn upper_total(s: ScoreState) -> int {
    upper_points(s.ones, 1) + upper_points(s.twos, 2) + upper_points(s.threes, 3) + upper_points(
        s.fours,
        4,
    ) + upper_points(s.fives, 5) + upper_points(s.sixes, 6)
}

/// The upper total at which the bonus is earned.
pub const UPPER_SCORE_THRESHOLD: u16 = 63;

/// The upper-section bonus.
pub const UPPER_SCORE_BONUS: u16 = 35;

/// The upper section's score: its total, with the bonus once the threshold is reached.
pub open spec fn upper_section_score(s: ScoreState) -> int {
    upper_total(s) + if upper_total(s) >= UPPER_SCORE_THRESHOLD {
        UPPER_SCORE_BONUS as int
    } else {
        0
    }
}

/// The empty scorecard: every category open.
pub open spec fn empty_state() -> ScoreState {
    ScoreState {
        ones: None,
        twos: None,
        threes: None,
        fours: None,
        fives: None,
        sixes: None,
        three_of_a_kind: false,
        four_of_a_kind: false,
        full_house: false,
        small_straight: false,
        large_straight: false,
        chance: false,
        yahtzee: YahtzeeField::Open,
    }
}

fn upper_code_of(o: Option<u8>) -> (r: u32)
    ensures
        r == upper_code(o),
{
    match o {
        Some(c) => c as u32,
        None => 7,
    }
}

fn flag_code_of(b: bool) -> (r: u32)
    ensures
        r == flag_code(b),
{
    if b {
        1
    } else {
        0
    }
}

fn decode_upper_of(code: u32) -> (r: Option<u8>)
    requires
        code < 8,
    ensures
        r == decode_upper(code),
{
    if code == 7 {
        None
    } else {
        Some(code as u8)
    }
}

fn upper_points_of(o: Option<u8>, face: u16) -> (r: u16)
    requires
        upper_count_ok(o),
        face <= 6,
    ensures
        r == upper_points(o, face as int),
        r <= 5 * face,
{
    match o {
        Some(c) => {
            assert(c * face <= 5 * face) by (nonlinear_arith)
                requires
                    c <= 5,
            ;
            c as u16 * face
        },
        None => 0,
    }
}

impl ScoreAction {
    /// The thirteen categories in the order of the scorecard.
    pub fn all() -> (r: [ScoreAction; 13])
        ensures
            forall|i: int| 0 <= i < 13 ==> #[trigger] r[i] == action_at(i),
    {
        [
            ScoreAction::Ones,
            ScoreAction::Twos,
            ScoreAction::Threes,
            ScoreAction::Fours,
            ScoreAction::Fives,
            ScoreAction::Sixes,
            ScoreAction::ThreeOfAKind,
            ScoreAction::FourOfAKind,
            ScoreAction::FullHouse,
            ScoreAction::SmallStraight,
            ScoreAction::LargeStraight,
            ScoreAction::Chance,
            ScoreAction::Yahtzee,
        ]
    }
}

impl ScoreState {
    /// A scorecard with the given fields.
    pub fn new(
        ones: Option<u8>,
        twos: Option<u8>,
        threes: Option<u8>,
        fours: Option<u8>,
        fives: Option<u8>,
        sixes: Option<u8>,
        three_of_a_kind: bool,
        four_of_a_kind: bool,
        full_house: bool,
        small_straight: bool,
        large_straight: bool,
        chance: bool,
        yahtzee: YahtzeeField,
    ) -> (r: Self)
        requires
            upper_count_ok(ones),
            upper_count_ok(twos),
            upper_count_ok(threes),
            upper_count_ok(fours),
            upper_count_ok(fives),
            upper_count_ok(sixes),
        ensures
            r.wf(),
            r == (ScoreState {
                ones,
                twos,
                threes,
                fours,
                fives,
                sixes,
                three_of_a_kind,
                four_of_a_kind,
                full_house,
                small_straight,
                large_straight,
                chance,
                yahtzee,
            }),
    {
        ScoreState {
            ones,
            twos,
            threes,
            fours,
            fives,
            sixes,
            three_of_a_kind,
            four_of_a_kind,
            full_house,
            small_straight,
            large_straight,
            chance,
            yahtzee,
        }
    }

    /// The scorecard at the start of a game.
    pub fn empty() -> (r: Self)
        ensures
            r == empty_state(),
            r.wf(),
    {
        ScoreState::new(
            None,
            None,
            None,
            None,
            None,
            None,
            false,
            false,
            false,
            false,
            false,
            false,
            YahtzeeField::Open,
        )
    }

    /// The 32-bit key of this state.
    pub fn to_key(&self) -> (key: u32)
        ensures
            key == encode(*self),
    {
        (upper_code_of(self.ones) << 23u32) | (upper_code_of(self.twos) << 20u32) | (upper_code_of(
            self.threes,
        ) << 17u32) | (upper_code_of(self.fours) << 14u32) | (upper_code_of(self.fives) << 11u32)
            | (upper_code_of(self.sixes) << 8u32) | (flag_code_of(self.three_of_a_kind) << 7u32)
            | (flag_code_of(self.four_of_a_kind) << 6u32) | (flag_code_of(self.full_house) << 5u32)
            | (flag_code_of(self.small_straight) << 4u32) | (flag_code_of(self.large_straight)
            << 3u32) | (flag_code_of(self.chance) << 2u32) | match self.yahtzee {
            YahtzeeField::ScoredZero => 0u32,
            YahtzeeField::ScoredNonZero => 1u32,
            YahtzeeField::Open => 2u32,
        }
    }

    /// The state that `key` describes, or `None` when no well-formed state has that key.
    pub fn from_key(key: u32) -> (r: Option<Self>)
        ensures
            r == if is_valid_key(key) {
                Some(decode(key))
            } else {
                None::<ScoreState>
            },
            r matches Some(s) ==> s.wf(),
    {
        let c0 = (key >> 23u32) & 7u32;
        let c1 = (key >> 20u32) & 7u32;
        let c2 = (key >> 17u32) & 7u32;
        let c3 = (key >> 14u32) & 7u32;
        let c4 = (key >> 11u32) & 7u32;
        let c5 = (key >> 8u32) & 7u32;
        let y = key & 3u32;
        assert(c0 < 8 && c1 < 8 && c2 < 8 && c3 < 8 && c4 < 8 && c5 < 8) by (bit_vector)
            requires
                c0 == (key >> 23u32) & 7u32,
                c1 == (key >> 20u32) & 7u32,
                c2 == (key >> 17u32) & 7u32,
                c3 == (key >> 14u32) & 7u32,
                c4 == (key >> 11u32) & 7u32,
                c5 == (key >> 8u32) & 7u32,
        ;
        if key >= 0x4000000u32 || y == 3 || c0 == 6 || c1 == 6 || c2 == 6 || c3 == 6 || c4 == 6
            || c5 == 6 {
            return None;
        }
        proof {
            lemma_encode_decode(key);
        }
        Some(
            ScoreState {
                ones: decode_upper_of(c0),
                twos: decode_upper_of(c1),
                threes: decode_upper_of(c2),
                fours: decode_upper_of(c3),
                fives: decode_upper_of(c4),
                sixes: decode_upper_of(c5),
                three_of_a_kind: (key >> 7u32) & 1u32 == 1u32,
                four_of_a_kind: (key >> 6u32) & 1u32 == 1u32,
                full_house: (key >> 5u32) & 1u32 == 1u32,
                small_straight: (key >> 4u32) & 1u32 == 1u32,
                large_straight: (key >> 3u32) & 1u32 == 1u32,
                chance: (key >> 2u32) & 1u32 == 1u32,
                yahtzee: if y == 0 {
                    YahtzeeField::ScoredZero
                } else if y == 1 {
                    YahtzeeField::ScoredNonZero
                } else {
                    YahtzeeField::Open
                },
            },
        )
    }

    /// Whether category `score_action` has been scored.
    pub fn is_taken(&self, score_action: ScoreAction) -> (r: bool)
        ensures
            r == is_locked(*self, score_action),
    {
        match score_action {
            ScoreAction::Ones => self.ones.is_some(),
            ScoreAction::Twos => self.twos.is_some(),
            ScoreAction::Threes => self.threes.is_some(),
            ScoreAction::Fours => self.fours.is_some(),
            ScoreAction::Fives => self.fives.is_some(),
            ScoreAction::Sixes => self.sixes.is_some(),
            ScoreAction::ThreeOfAKind => self.three_of_a_kind,
            ScoreAction::FourOfAKind => self.four_of_a_kind,
            ScoreAction::FullHouse => self.full_house,
            ScoreAction::SmallStraight => self.small_straight,
            ScoreAction::LargeStraight => self.large_straight,
            ScoreAction::Chance => self.chance,
            ScoreAction::Yahtzee => self.yahtzee != YahtzeeField::Open,
        }
    }

    /// This state with category `score_action` open again.
    pub fn unlocked(&self, score_action: ScoreAction) -> (r: Self)
        ensures
            r == unlock(*self, score_action),
    {
        let mut r = *self;
        match score_action {
            ScoreAction::Ones => r.ones = None,
            ScoreAction::Twos => r.twos = None,
            ScoreAction::Threes => r.threes = None,
            ScoreAction::Fours => r.fours = None,
            ScoreAction::Fives => r.fives = None,
            ScoreAction::Sixes => r.sixes = None,
            ScoreAction::ThreeOfAKind => r.three_of_a_kind = false,
            ScoreAction::FourOfAKind => r.four_of_a_kind = false,
            ScoreAction::FullHouse => r.full_house = false,
            ScoreAction::SmallStraight => r.small_straight = false,
            ScoreAction::LargeStraight => r.large_straight = false,
            ScoreAction::Chance => r.chance = false,
            ScoreAction::Yahtzee => r.yahtzee = YahtzeeField::Open,
        }
        r
    }

    /// The points scored in the upper section so far, without the bonus.
    pub fn upper_score(&self) -> (r: u8)
        requires
            self.wf(),
        ensures
            r == upper_total(*self),
    {
        let total = upper_points_of(self.ones, 1) + upper_points_of(self.twos, 2) + upper_points_of(
            self.threes,
            3,
        ) + upper_points_of(self.fours, 4) + upper_points_of(self.fives, 5) + upper_points_of(
            self.sixes,
            6,
        );
        total as u8
    }

    /// The upper section's score: its total, plus the bonus once it reaches the threshold.
    pub fn score(&self) -> (r: u16)
        requires
            self.wf(),
        ensures
            r == upper_section_score(*self),
    {
        let mut score = self.upper_score() as u16;
        if score >= UPPER_SCORE_THRESHOLD {
            score = score + UPPER_SCORE_BONUS;
        }
        score
    }

    /// The upper total once all six upper categories are scored, else `None`.
    pub fn sum_of_upper(&self) -> (r: Option<u8>)
        requires
            self.wf(),
        ensures
            r == if self.ones is Some && self.twos is Some && self.threes is Some && self.fours is Some
                && self.fives is Some && self.sixes is Some {
                Some(upper_total(*self) as u8)
            } else {
                None::<u8>
            },
    {
        if self.ones.is_some() && self.twos.is_some() && self.threes.is_some()
            && self.fours.is_some() && self.fives.is_some() && self.sixes.is_some() {
            Some(self.upper_score())
        } else {
            None
        }
    }
}

/// The sum of the faces of all dice.
pub open spec fn dice_sum(d: DiceState) -> int {
    d[0] + 2 * d[1] + 3 * d[2] + 4 * d[3] + 5 * d[4] + 6 * d[5]
}

/// Some face shows at least `n` dice.
pub open spec fn has_of_a_kind(d: DiceState, n: int) -> bool {
    d[0] >= n || d[1] >= n || d[2] >= n || d[3] >= n || d[4] >= n || d[5] >= n
}

/// All five dice show the same face.
pub open spec fn is_yahtzee_roll(d: DiceState) -> bool {
    has_of_a_kind(d, 5)
}

/// Some face shows exactly `n` dice.
pub open spec fn has_exactly(d: DiceState, n: int) -> bool {
    d[0] == n || d[1] == n || d[2] == n || d[3] == n || d[4] == n || d[5] == n
}

/// Three dice of one face and two of another.
pub open spec fn is_full_house_roll(d: DiceState) -> bool {
    has_exactly(d, 3) && has_exactly(d, 2)
}

/// Four consecutive faces are all present.
pub open spec fn is_small_straight_roll(d: DiceState) -> bool {
    (d[0] > 0 && d[1] > 0 && d[2] > 0 && d[3] > 0) || (d[1] > 0 && d[2] > 0 && d[3] > 0 && d[4]
        > 0) || (d[2] > 0 && d[3] > 0 && d[4] > 0 && d[5] > 0)
}

/// One die of each face 1 to 5, or of each face 2 to 6.
pub open spec fn is_large_straight_roll(d: DiceState) -> bool {
    (d[0] == 1 && d[1] == 1 && d[2] == 1 && d[3] == 1 && d[4] == 1) || (d[1] == 1 && d[2] == 1
        && d[3] == 1 && d[4] == 1 && d[5] == 1)
}

/// The joker bonus: a five-of-a-kind after the Yahtzee box was scored with fifty points
/// adds this much to the lower categories with a pattern.
pub const JOKER_BONUS: u16 = 100;

/// The points that scoring category `a` with roll `d` earns in state `s`.
pub open spec fn reward_of(s: ScoreState, a: ScoreAction, d: DiceState) -> int {
    let forced = is_yahtzee_roll(d) && s.yahtzee != YahtzeeField::Open;
    let joker = if is_yahtzee_roll(d) && s.yahtzee == YahtzeeField::ScoredNonZero {
        JOKER_BONUS as int
    } else {
        0
    };
    if is_upper(a) {
        let f = action_index(a);
        let gained = d[f] * (f + 1);
        gained + if upper_total(s) < UPPER_SCORE_THRESHOLD && upper_total(s) + gained
            >= UPPER_SCORE_THRESHOLD {
            UPPER_SCORE_BONUS as int
        } else {
            0
        }
    } else {
        match a {
            ScoreAction::ThreeOfAKind => (if has_of_a_kind(d, 3) {
                dice_sum(d)
            } else {
                0int
            }) + joker,
            ScoreAction::FourOfAKind => (if has_of_a_kind(d, 4) {
                dice_sum(d)
            } else {
                0int
            }) + joker,
            ScoreAction::FullHouse => (if is_full_house_roll(d) || forced {
                25int
            } else {
                0int
            }) + joker,
            ScoreAction::SmallStraight => (if is_small_straight_roll(d) || forced {
                30int
            } else {
                0int
            }) + joker,
            ScoreAction::LargeStraight => (if is_large_straight_roll(d) || forced {
                40int
            } else {
                0int
            }) + joker,
            ScoreAction::Chance => dice_sum(d),
            _ => if is_yahtzee_roll(d) {
                50int
            } else {
                0int
            },
        }
    }
}

/// The state after scoring category `a` with roll `d`: an upper category records how
/// many dice show its face, the Yahtzee box whether the roll is a five-of-a-kind.
pub open spec fn apply(s: ScoreState, a: ScoreAction, d: DiceState) -> ScoreState {
    match a {
        ScoreAction::Ones => ScoreState { ones: Some(d[0]), ..s },
        ScoreAction::Twos => ScoreState { twos: Some(d[1]), ..s },
        ScoreAction::Threes => ScoreState { threes: Some(d[2]), ..s },
        ScoreAction::Fours => ScoreState { fours: Some(d[3]), ..s },
        ScoreAction::Fives => ScoreState { fives: Some(d[4]), ..s },
        ScoreAction::Sixes => ScoreState { sixes: Some(d[5]), ..s },
        ScoreAction::ThreeOfAKind => ScoreState { three_of_a_kind: true, ..s },
        ScoreAction::FourOfAKind => ScoreState { four_of_a_kind: true, ..s },
        ScoreAction::FullHouse => ScoreState { full_house: true, ..s },
        ScoreAction::SmallStraight => ScoreState { small_straight: true, ..s },
        ScoreAction::LargeStraight => ScoreState { large_straight: true, ..s },
        ScoreAction::Chance => ScoreState { chance: true, ..s },
        ScoreAction::Yahtzee => ScoreState {
            yahtzee: if is_yahtzee_roll(d) {
                YahtzeeField::ScoredNonZero
            } else {
                YahtzeeField::ScoredZero
            },
            ..s
        },
    }
}

/// The categories still open among the first `n`, in scorecard order.
pub open spec fn open_prefix(s: ScoreState, n: int) -> Seq<ScoreAction>
    decreases n,
{
    if n <= 0 {
        Seq::empty()
    } else if is_locked(s, action_at(n - 1)) {
        open_prefix(s, n - 1)
    } else {
        open_prefix(s, n - 1).push(action_at(n - 1))
    }
}

/// The states with one of the first `n` locked categories open again, in scorecard order.
pub open spec fn parents_prefix(s: ScoreState, n: int) -> Seq<ScoreState>
    decreases n,
{
    if n <= 0 {
        Seq::empty()
    } else if is_locked(s, action_at(n - 1)) {
        parents_prefix(s, n - 1).push(unlock(s, action_at(n - 1)))
    } else {
        parents_prefix(s, n - 1)
    }
}

fn sum_of_dice(d: &[u8; 6]) -> (r: u16)
    requires
        is_dice_state(*d),
    ensures
        r == dice_sum(*d),
        r <= 30,
{
    proof {
        reveal_with_fuel(crate::dice_states::sum_prefix, 7);
    }
    d[0] as u16 + 2 * d[1] as u16 + 3 * d[2] as u16 + 4 * d[3] as u16 + 5 * d[4] as u16 + 6
        * d[5] as u16
}

fn of_a_kind(d: &[u8; 6], n: u8) -> (r: bool)
    ensures
        r == has_of_a_kind(*d, n as int),
{
    d[0] >= n || d[1] >= n || d[2] >= n || d[3] >= n || d[4] >= n || d[5] >= n
}

fn exactly(d: &[u8; 6], n: u8) -> (r: bool)
    ensures
        r == has_exactly(*d, n as int),
{
    d[0] == n || d[1] == n || d[2] == n || d[3] == n || d[4] == n || d[5] == n
}

fn is_three_of_a_kind(d: &[u8; 6]) -> (r: bool)
    ensures
        r == has_of_a_kind(*d, 3),
{
    of_a_kind(d, 3)
}

fn is_four_of_a_kind(d: &[u8; 6]) -> (r: bool)
    ensures
        r == has_of_a_kind(*d, 4),
{
    of_a_kind(d, 4)
}

fn is_yahtzee(d: &[u8; 6]) -> (r: bool)
    ensures
        r == is_yahtzee_roll(*d),
{
    of_a_kind(d, 5)
}

fn is_full_house(d: &[u8; 6]) -> (r: bool)
    ensures
        r == is_full_house_roll(*d),
{
    exactly(d, 3) && exactly(d, 2)
}

fn is_small_straight(d: &[u8; 6]) -> (r: bool)
    ensures
        r == is_small_straight_roll(*d),
{
    let mut shift: usize = 0;
    while shift <= 2
        invariant
            shift <= 3,
            forall|k: int|
                0 <= k < shift ==> !(#[trigger] d[k] > 0 && d[k + 1] > 0 && d[k + 2] > 0 && d[k + 3] > 0),
        decreases 3 - shift,
    {
        if d[shift] > 0 && d[shift + 1] > 0 && d[shift + 2] > 0 && d[shift + 3] > 0 {
            return true;
        }
        shift = shift + 1;
    }
    false
}

fn is_large_straight(d: &[u8; 6]) -> (r: bool)
    ensures
        r == is_large_straight_roll(*d),
{
    (d[0] == 1 && d[1] == 1 && d[2] == 1 && d[3] == 1 && d[4] == 1) || (d[1] == 1 && d[2] == 1
        && d[3] == 1 && d[4] == 1 && d[5] == 1)
}

impl ScoreState {
    /// The points that scoring `score_action` with `dice_state` earns in this state.
    pub fn reward(&self, score_action: ScoreAction, dice_state: &[u8; 6]) -> (r: u16)
        requires
            self.wf(),
            is_dice_state(*dice_state),
        ensures
            r == reward_of(*self, score_action, *dice_state),
    {
        let d = dice_state;
        let five_of_a_kind = is_yahtzee(d);
        let forced = five_of_a_kind && self.yahtzee != YahtzeeField::Open;
        let joker: u16 = if five_of_a_kind && self.yahtzee == YahtzeeField::ScoredNonZero {
            JOKER_BONUS
        } else {
            0
        };
        proof {
            reveal_with_fuel(crate::dice_states::sum_prefix, 7);
        }
        match score_action {
            ScoreAction::Ones => self.upper_reward(d[0] as u16, 1),
            ScoreAction::Twos => self.upper_reward(d[1] as u16 * 2, 2),
            ScoreAction::Threes => self.upper_reward(d[2] as u16 * 3, 3),
            ScoreAction::Fours => self.upper_reward(d[3] as u16 * 4, 4),
            ScoreAction::Fives => self.upper_reward(d[4] as u16 * 5, 5),
            ScoreAction::Sixes => self.upper_reward(d[5] as u16 * 6, 6),
            ScoreAction::ThreeOfAKind => (if is_three_of_a_kind(d) {
                sum_of_dice(d)
            } else {
                0
            }) + joker,
            ScoreAction::FourOfAKind => (if is_four_of_a_kind(d) {
                sum_of_dice(d)
            } else {
                0
            }) + joker,
            ScoreAction::FullHouse => (if is_full_house(d) || forced {
                25
            } else {
                0
            }) + joker,
            ScoreAction::SmallStraight => (if is_small_straight(d) || forced {
                30
            } else {
                0
            }) + joker,
            ScoreAction::LargeStraight => (if is_large_straight(d) || forced {
                40
            } else {
                0
            }) + joker,
            ScoreAction::Chance => sum_of_dice(d),
            ScoreAction::Yahtzee => if five_of_a_kind {
                50
            } else {
                0
            },
        }
    }

    /// The points of an upper category that adds `gained` to the upper total, with the
    /// bonus when this is what first reaches the threshold.
    fn upper_reward(&self, gained: u16, face: u16) -> (r: u16)
        requires
            self.wf(),
            gained <= 30,
        ensures
            r == gained + if upper_total(*self) < UPPER_SCORE_THRESHOLD && upper_total(*self)
                + gained >= UPPER_SCORE_THRESHOLD {
                UPPER_SCORE_BONUS as int
            } else {
                0
            },
    {
        let before = self.upper_score() as u16;
        if before < UPPER_SCORE_THRESHOLD && before + gained >= UPPER_SCORE_THRESHOLD {
            gained + UPPER_SCORE_BONUS
        } else {
            gained
        }
    }

    /// The state after scoring `score_action` with `dice_state`, or `None` when that
    /// category is already locked.
    pub fn apply_action(&self, score_action: ScoreAction, dice_state: &[u8; 6]) -> (r: Option<
        Self,
    >)
        requires
            self.wf(),
            is_dice_state(*dice_state),
        ensures
            r == if is_locked(*self, score_action) {
                None::<ScoreState>
            } else {
                Some(apply(*self, score_action, *dice_state))
            },
            r matches Some(s) ==> s.wf(),
    {
        if self.is_taken(score_action) {
            return None;
        }
        proof {
            reveal_with_fuel(crate::dice_states::sum_prefix, 7);
        }
        let d = dice_state;
        let mut new_state = *self;
        match score_action {
            ScoreAction::Ones => new_state.ones = Some(d[0]),
            ScoreAction::Twos => new_state.twos = Some(d[1]),
            ScoreAction::Threes => new_state.threes = Some(d[2]),
            ScoreAction::Fours => new_state.fours = Some(d[3]),
            ScoreAction::Fives => new_state.fives = Some(d[4]),
            ScoreAction::Sixes => new_state.sixes = Some(d[5]),
            ScoreAction::ThreeOfAKind => new_state.three_of_a_kind = true,
            ScoreAction::FourOfAKind => new_state.four_of_a_kind = true,
            ScoreAction::FullHouse => new_state.full_house = true,
            ScoreAction::SmallStraight => new_state.small_straight = true,
            ScoreAction::LargeStraight => new_state.large_straight = true,
            ScoreAction::Chance => new_state.chance = true,
            ScoreAction::Yahtzee => new_state.yahtzee = if is_yahtzee(d) {
                YahtzeeField::ScoredNonZero
            } else {
                YahtzeeField::ScoredZero
            },
        }
        Some(new_state)
    }

    /// The categories still open, in scorecard order.
    pub fn possible_score_actions(&self) -> (r: Vec<ScoreAction>)
        ensures
            r@ == open_prefix(*self, 13),
    {
        let all = ScoreAction::all();
        let mut possible_score_actions: Vec<ScoreAction> = Vec::new();
        let mut i: usize = 0;
        while i < 13
            invariant
                i <= 13,
                forall|k: int| 0 <= k < 13 ==> #[trigger] all[k] == action_at(k),
                possible_score_actions@ == open_prefix(*self, i as int),
            decreases 13 - i,
        {
            if !self.is_taken(all[i]) {
                possible_score_actions.push(all[i]);
            }
            i = i + 1;
        }
        possible_score_actions
    }

    /// The states one step closer to the empty scorecard: for each locked category, in
    /// scorecard order, this state with that category open again.
    pub fn get_parent_states(&self) -> (r: Vec<Self>)
        ensures
            r@ == parents_prefix(*self, 13),
    {
        let all = ScoreAction::all();
        let mut parent_states: Vec<ScoreState> = Vec::new();
        let mut i: usize = 0;
        while i < 13
            invariant
                i <= 13,
                forall|k: int| 0 <= k < 13 ==> #[trigger] all[k] == action_at(k),
                parent_states@ == parents_prefix(*self, i as int),
            decreases 13 - i,
        {
            if self.is_taken(all[i]) {
                parent_states.push(self.unlocked(all[i]));
            }
            i = i + 1;
        }
        parent_states
    }

    /// The number of locked categories.
    pub fn locked_categories(&self) -> (r: usize)
        ensures
            r == locked_count(*self),
    {
        let all = ScoreAction::all();
        let mut count: usize = 0;
        let mut i: usize = 0;
        while i < 13
            invariant
                i <= 13,
                count <= i,
                forall|k: int| 0 <= k < 13 ==> #[trigger] all[k] == action_at(k),
                count == locked_prefix(*self, i as int),
            decreases 13 - i,
        {
            if self.is_taken(all[i]) {
                count = count + 1;
            }
            i = i + 1;
        }
        count
    }
}

proof fn lemma_action_at_index(a: ScoreAction)
    ensures
        0 <= action_index(a) < 13,
        action_at(action_index(a)) == a,
{
}

proof fn lemma_open_prefix_contains(s: ScoreState, n: int, a: ScoreAction)
    requires
        0 <= n <= 13,
    ensures
        open_prefix(s, n).contains(a) <==> (action_index(a) < n && !is_locked(s, a)),
    decreases n,
{
    lemma_action_at_index(a);
    if n > 0 {
        lemma_open_prefix_contains(s, n - 1, a);
        let b = action_at(n - 1);
        if !is_locked(s, b) {
            let p = open_prefix(s, n - 1);
            assert(p.push(b).contains(a) <==> (p.contains(a) || a == b)) by {
                if a == b {
                    assert(p.push(b)[p.len() as int] == a);
                }
                if p.contains(a) {
                    let i = choose|i: int| 0 <= i < p.len() && p[i] == a;
                    assert(p.push(b)[i] == a);
                }
                if p.push(b).contains(a) && a != b {
                    let i = choose|i: int| 0 <= i < p.len() + 1 && p.push(b)[i] == a;
                    assert(p[i] == a);
                }
            }
        }
    }
}

proof fn lemma_parents_prefix_contains(s: ScoreState, n: int, a: ScoreAction)
    requires
        0 <= action_index(a) < n <= 13,
        is_locked(s, a),
    ensures
        parents_prefix(s, n).contains(unlock(s, a)),
    decreases n,
{
    lemma_action_at_index(a);
    let p = parents_prefix(s, n - 1);
    if action_index(a) == n - 1 {
        assert(parents_prefix(s, n) == p.push(unlock(s, a)));
        assert(parents_prefix(s, n)[p.len() as int] == unlock(s, a));
    } else {
        lemma_parents_prefix_contains(s, n - 1, a);
        let i = choose|i: int| 0 <= i < p.len() && p[i] == unlock(s, a);
        if is_locked(s, action_at(n - 1)) {
            assert(parents_prefix(s, n)[i] == unlock(s, a));
        }
    }
}

proof fn lemma_apply_locks_one(s: ScoreState, a: ScoreAction, d: DiceState, n: int)
    requires
        !is_locked(s, a),
        0 <= n <= 13,
    ensures
        locked_prefix(apply(s, a, d), n) == locked_prefix(s, n) + if action_index(a) < n {
            1int
        } else {
            0int
        },
    decreases n,
{
    if n > 0 {
        lemma_apply_locks_one(s, a, d, n - 1);
        lemma_action_at_index(a);
    }
}

/// Scoring an open category always succeeds, locks exactly one more category, and the
/// state it started from is among the parents of the result.
pub proof fn lemma_apply_then_parent(s: ScoreState, a: ScoreAction, d: DiceState)
    requires
        s.wf(),
        is_dice_state(d),
        open_prefix(s, 13).contains(a),
    ensures
        !is_locked(s, a),
        apply(s, a, d).wf(),
        locked_count(apply(s, a, d)) == locked_count(s) + 1,
        parents_prefix(apply(s, a, d), 13).contains(s),
{
    lemma_open_prefix_contains(s, 13, a);
    lemma_action_at_index(a);
    lemma_apply_locks_one(s, a, d, 13);
    let c = apply(s, a, d);
    assert(is_locked(c, a));
    assert(unlock(c, a) == s);
    lemma_parents_prefix_contains(c, 13, a);
    reveal_with_fuel(crate::dice_states::sum_prefix, 7);
}

/// Scoring a category locks it, so scoring it a second time fails.
pub proof fn lemma_relock_fails(s: ScoreState, a: ScoreAction, d: DiceState)
    requires
        !is_locked(s, a),
    ensures
        is_locked(apply(s, a, d), a),
{
}

/// Every category is locked: the game is over.
pub open spec fn is_terminal(s: ScoreState) -> bool {
    &&& s.ones is Some && s.twos is Some && s.threes is Some
    &&& s.fours is Some && s.fives is Some && s.sixes is Some
    &&& s.three_of_a_kind && s.four_of_a_kind && s.full_house
    &&& s.small_straight && s.large_straight && s.chance
    &&& s.yahtzee != YahtzeeField::Open
}

/// Number of terminal states: six possible counts for each upper category, times the
/// two ways the Yahtzee box can have been scored.
pub const NUM_TERMINAL_STATES: usize = 93312;

/// The upper fields of `s` hold the counts of `counts` on the faces before `face`.
pub open spec fn upper_agrees(s: ScoreState, counts: [u8; 6], face: int) -> bool {
    forall|g: int| 0 <= g < face ==> upper_field(s, g) == Some(#[trigger] counts[g])
}

proof fn lemma_terminal_locks_all(s: ScoreState)
    requires
        is_terminal(s),
    ensures
        locked_count(s) == NUM_CATEGORIES,
{
    reveal_with_fuel(locked_prefix, 14);
}

fn terminal_state(counts: [u8; 6], yahtzee: YahtzeeField) -> (r: ScoreState)
    requires
        forall|g: int| 0 <= g < 6 ==> #[trigger] counts[g] <= 5,
        yahtzee != YahtzeeField::Open,
    ensures
        r.wf(),
        is_terminal(r),
        upper_agrees(r, counts, 6),
        r.yahtzee == yahtzee,
{
    ScoreState::new(
        Some(counts[0]),
        Some(counts[1]),
        Some(counts[2]),
        Some(counts[3]),
        Some(counts[4]),
        Some(counts[5]),
        true,
        true,
        true,
        true,
        true,
        true,
        yahtzee,
    )
}

/// A locked upper field holding fewer than `x` dice.
pub open spec fn count_below(o: Option<u8>, x: int) -> bool {
    match o {
        Some(c) => c < x,
        None => false,
    }
}

/// Appends every terminal state whose upper fields before `face` hold `counts`.
fn push_terminal_states(out: &mut Vec<ScoreState>, counts: [u8; 6], face: usize)
    requires
        face <= 6,
        forall|g: int| 0 <= g < face ==> #[trigger] counts[g] <= 5,
    ensures
        final(out).len() == old(out).len() + 2 * pow6((6 - face) as nat),
        forall|i: int| 0 <= i < old(out).len() ==> final(out)[i] == old(out)[i],
        forall|i: int|
            old(out).len() <= i < final(out).len() ==> (#[trigger] final(out)[i]).wf()
                && is_terminal(final(out)[i]) && upper_agrees(final(out)[i], counts, face as int),
        forall|s: ScoreState|
            s.wf() && is_terminal(s) && upper_agrees(s, counts, face as int) ==> exists|i: int|
                old(out).len() <= i < final(out).len() && #[trigger] final(out)[i] == s,
    decreases 6 - face,
{
    let ghost start = out.len();
    if face == 6 {
        let zero = terminal_state(counts, YahtzeeField::ScoredZero);
        let nonzero = terminal_state(counts, YahtzeeField::ScoredNonZero);
        out.push(zero);
        out.push(nonzero);
        proof {
            assert(pow6(0) == 1);
            assert forall|s: ScoreState|
                s.wf() && is_terminal(s) && upper_agrees(s, counts, 6) implies exists|i: int|
                    start <= i < out.len() && #[trigger] out[i] == s by {
                assert(upper_field(s, 0) == Some(counts[0]));
                assert(upper_field(s, 1) == Some(counts[1]));
                assert(upper_field(s, 2) == Some(counts[2]));
                assert(upper_field(s, 3) == Some(counts[3]));
                assert(upper_field(s, 4) == Some(counts[4]));
                assert(upper_field(s, 5) == Some(counts[5]));
                assert(upper_field(zero, 0) == Some(counts[0]));
                assert(upper_field(zero, 1) == Some(counts[1]));
                assert(upper_field(zero, 2) == Some(counts[2]));
                assert(upper_field(zero, 3) == Some(counts[3]));
                assert(upper_field(zero, 4) == Some(counts[4]));
                assert(upper_field(zero, 5) == Some(counts[5]));
                if s.yahtzee == YahtzeeField::ScoredZero {
                    assert(out[start as int] == s);
                } else {
                    assert(out[start + 1] == s);
                }
            }
        }
        return;
    }
    let ghost block = 2 * pow6((5 - face) as nat);
    let mut x: u8 = 0;
    while x <= 5
        invariant
            face < 6,
            x <= 6,
            forall|g: int| 0 <= g < face ==> #[trigger] counts[g] <= 5,
            block == 2 * pow6((5 - face) as nat),
            start == old(out).len(),
            out.len() == start + x * block,
            forall|i: int| 0 <= i < start ==> out[i] == old(out)[i],
            forall|i: int|
                start <= i < out.len() ==> (#[trigger] out[i]).wf() && is_terminal(out[i])
                    && upper_agrees(out[i], counts, face as int) && count_below(upper_field(out[i], face as int), x as int),
            forall|s: ScoreState|
                s.wf() && is_terminal(s) && upper_agrees(s, counts, face as int) && count_below(upper_field(s, face as int), x as int) ==> exists|i: int|
                    start <= i < out.len() && #[trigger] out[i] == s,
        decreases 6 - x,
    {
        let mut next = counts;
        next[face] = x;
        let ghost before = out@;
        proof {
            assert(start + x * block <= start + x * block + block) by (nonlinear_arith)
                requires
                    block >= 0,
            ;
        }
        push_terminal_states(out, next, face + 1);
        proof {
            let mid = before.len() as int;
            assert((5 - face) as nat == (6 - (face + 1)) as nat);
            assert(start + x * block + block == start + (x + 1) * block) by (nonlinear_arith);
            assert forall|i: int| start <= i < out.len() implies (#[trigger] out[i]).wf()
                && is_terminal(out[i]) && upper_agrees(out[i], counts, face as int) && count_below(upper_field(out[i], face as int), x + 1) by {
                if i < mid {
                    assert(out[i] == before[i]);
                } else {
                    assert(upper_agrees(out[i], next, face as int + 1));
                    assert(upper_field(out[i], face as int) == Some(next[face as int]));
                    assert forall|g: int| 0 <= g < face implies upper_field(out[i], g) == Some(
                        #[trigger] counts[g],
                    ) by {
                        assert(next[g] == counts[g]);
                    }
                }
            }
            assert forall|s: ScoreState|
                s.wf() && is_terminal(s) && upper_agrees(s, counts, face as int) && count_below(upper_field(s, face as int), x + 1) implies exists|i: int|
                start <= i < out.len() && #[trigger] out[i] == s by {
                if upper_field(s, face as int) == Some(x) {
                    assert forall|g: int| 0 <= g < face + 1 implies upper_field(s, g) == Some(
                        #[trigger] next[g],
                    ) by {
                        if g < face {
                            assert(upper_field(s, g) == Some(counts[g]));
                        }
                    }
                } else {
                    let i = choose|i: int| start <= i < mid && before[i] == s;
                    assert(out[i] == s);
                }
            }
        }
        x = x + 1;
    }
    proof {
        assert(pow6((6 - face) as nat) == 6 * pow6((5 - face) as nat));
        assert forall|s: ScoreState|
            s.wf() && is_terminal(s) && upper_agrees(s, counts, face as int) implies exists|i: int|
                start <= i < out.len() && #[trigger] out[i] == s by {
            assert(count_below(upper_field(s, face as int), 6));
        }
    }
}

impl ScoreState {
    /// Every terminal state: each upper category holding any count from 0 to 5, every
    /// lower category locked, and the Yahtzee box scored with zero or with fifty.
    pub fn get_all_terminal_states() -> (r: Vec<ScoreState>)
        ensures
            r.len() == NUM_TERMINAL_STATES,
            forall|i: int|
                0 <= i < r.len() ==> (#[trigger] r[i]).wf() && is_terminal(r[i]) && locked_count(
                    r[i],
                ) == NUM_CATEGORIES,
            forall|s: ScoreState| s.wf() && is_terminal(s) ==> exists|i: int|
                0 <= i < r.len() && #[trigger] r[i] == s,
    {
        let mut terminal_states: Vec<ScoreState> = Vec::new();
        push_terminal_states(&mut terminal_states, [0, 0, 0, 0, 0, 0], 0);
        proof {
            reveal_with_fuel(pow6, 7);
            assert forall|i: int| 0 <= i < terminal_states.len() implies locked_count(
                #[trigger] terminal_states[i],
            ) == NUM_CATEGORIES by {
                lemma_terminal_locks_all(terminal_states[i]);
            }
        }
        terminal_states
    }
}

proof fn lemma_unlock_count(s: ScoreState, a: ScoreAction, n: int)
    requires
        is_locked(s, a),
        0 <= n <= 13,
    ensures
        locked_prefix(unlock(s, a), n) == locked_prefix(s, n) - if action_index(a) < n {
            1int
        } else {
            0int
        },
    decreases n,
{
    if n > 0 {
        lemma_unlock_count(s, a, n - 1);
        lemma_action_at_index(a);
    }
}

proof fn lemma_parents_are_unlocks(s: ScoreState, n: int)
    requires
        0 <= n <= 13,
    ensures
        forall|j: int|
            0 <= j < parents_prefix(s, n).len() ==> exists|a: ScoreAction|
                is_locked(s, a) && #[trigger] parents_prefix(s, n)[j] == unlock(s, a),
    decreases n,
{
    if n > 0 {
        lemma_parents_are_unlocks(s, n - 1);
        let prev = parents_prefix(s, n - 1);
        assert forall|j: int| 0 <= j < parents_prefix(s, n).len() implies exists|a: ScoreAction|
            is_locked(s, a) && #[trigger] parents_prefix(s, n)[j] == unlock(s, a) by {
            if j < prev.len() {
                assert(parents_prefix(s, n)[j] == prev[j]);
            } else {
                assert(parents_prefix(s, n)[j] == unlock(s, action_at(n - 1)));
            }
        }
    }
}

/// Every parent of a state has exactly one locked category fewer: the states form a
/// graph layered by the number of locked categories.
pub proof fn lemma_parents_one_layer_down(s: ScoreState)
    ensures
        forall|j: int|
            0 <= j < parents_prefix(s, 13).len() ==> locked_count(
                #[trigger] parents_prefix(s, 13)[j],
            ) == locked_count(s) - 1,
{
    lemma_parents_are_unlocks(s, 13);
    assert forall|j: int| 0 <= j < parents_prefix(s, 13).len() implies locked_count(
        #[trigger] parents_prefix(s, 13)[j],
    ) == locked_count(s) - 1 by {
        let a = choose|a: ScoreAction|
            is_locked(s, a) && #[trigger] parents_prefix(s, 13)[j] == unlock(s, a);
        lemma_unlock_count(s, a, 13);
        lemma_action_at_index(a);
    }
}

} // verus!

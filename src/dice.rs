use vstd::prelude::*;
use vstd::multiset::Multiset;
use vstd::utf8::encode_utf8;

use crate::combos::{chances, outcomes_from, pow, Fraction};

verus! {

broadcast use {vstd::seq_lib::group_to_multiset_ensures, vstd::multiset::group_multiset_axioms};

/// A face of a die, or the wildcard that stands in a target hand for
/// "any face will do".
#[derive(Clone, Copy, PartialEq, Eq, Structural, Debug, Hash)]
pub enum Die {
    One,
    Two,
    Three,
    Four,
    Five,
    Six,
    Any,
}

/// Why a die face could not be built.
#[derive(Clone, Copy, PartialEq, Eq, Structural, Debug)]
pub enum DieConstructionError {
    /// The text is not an integer.
    NonDigit,
    /// The integer lies outside 1 to 6.
    OutOfRange,
}

impl DieConstructionError {
    /// What went wrong, in words.
    pub fn message(&self) -> (r: &'static str)
        ensures
            r@ == match self {
                DieConstructionError::OutOfRange => "Face value out of range (1 - 6)."@,
                DieConstructionError::NonDigit => "Die value not a digit."@,
            },
    {
        match self {
            DieConstructionError::OutOfRange => "Face value out of range (1 - 6).",
            DieConstructionError::NonDigit => "Die value not a digit.",
        }
    }
}

/// The face showing `v` pips, for `v` in 1 to 6; the wildcard otherwise.
pub open spec fn face(v: int) -> Die {
    if v == 1 {
        Die::One
    } else if v == 2 {
        Die::Two
    } else if v == 3 {
        Die::Three
    } else if v == 4 {
        Die::Four
    } else if v == 5 {
        Die::Five
    } else if v == 6 {
        Die::Six
    } else {
        Die::Any
    }
}

/// The face for an integer: `Ok` exactly for 1 to 6.
pub open spec fn die_of_value(v: int) -> Result<Die, DieConstructionError> {
    if 1 <= v <= 6 {
        Ok(face(v))
    } else {
        Err(DieConstructionError::OutOfRange)
    }
}

/// ASCII code of `0`.
pub const DIGIT_ZERO: u8 = 48;
/// ASCII code of `9`.
pub const DIGIT_NINE: u8 = 57;
/// ASCII code of `+`.
pub const PLUS_SIGN: u8 = 43;
/// ASCII code of `-`.
pub const MINUS_SIGN: u8 = 45;

/// An ASCII decimal digit.
pub open spec fn is_digit(b: u8) -> bool {
    DIGIT_ZERO <= b <= DIGIT_NINE
}

/// A leading sign, `+` or `-`.
pub open spec fn is_sign(b: u8) -> bool {
    b == PLUS_SIGN || b == MINUS_SIGN
}

/// The text after its leading sign, if it has one.
pub open spec fn unsigned_part(t: Seq<u8>) -> Seq<u8> {
    if t.len() > 0 && is_sign(t[0]) {
        t.drop_first()
    } else {
        t
    }
}

/// Text that writes an integer: an optional sign, then one or more digits.
pub open spec fn is_integer_text(t: Seq<u8>) -> bool {
    let d = unsigned_part(t);
    d.len() > 0 && forall|i: int| 0 <= i < d.len() ==> is_digit(#[trigger] d[i])
}

/// The number that a string of digits writes in base ten.
pub open spec fn digits_value(d: Seq<u8>) -> nat
    decreases d.len(),
{
    if d.len() == 0 {
        0
    } else {
        digits_value(d.drop_last()) * 10 + (d.last() - DIGIT_ZERO) as nat
    }
}

/// The integer that an integer text writes.
pub open spec fn integer_value(t: Seq<u8>) -> int {
    if t.len() > 0 && t[0] == MINUS_SIGN {
        -digits_value(unsigned_part(t))
    } else {
        digits_value(unsigned_part(t)) as int
    }
}

/// The face that a text names: `NonDigit` unless it writes an integer,
/// `OutOfRange` unless that integer lies in 1 to 6.
pub open spec fn die_of_text(t: Seq<u8>) -> Result<Die, DieConstructionError> {
    if is_integer_text(t) {
        die_of_value(integer_value(t))
    } else {
        Err(DieConstructionError::NonDigit)
    }
}

impl Die {
    /// The number this face shows as: its pips, or 7 for the wildcard.
    pub fn pips(&self) -> (r: u8)
        ensures
            face(r as int) == *self,
            *self != Die::Any ==> 1 <= r <= 6,
            *self == Die::Any ==> r == 7,
    {
        match self {
            Die::One => 1,
            Die::Two => 2,
            Die::Three => 3,
            Die::Four => 4,
            Die::Five => 5,
            Die::Six => 6,
            Die::Any => 7,
        }
    }

    /// The face showing `value` pips.
    pub fn from_value(value: u8) -> (r: Result<Die, DieConstructionError>)
        ensures
            r == die_of_value(value as int),
    {
        match value {
            1 => Ok(Die::One),
            2 => Ok(Die::Two),
            3 => Ok(Die::Three),
            4 => Ok(Die::Four),
            5 => Ok(Die::Five),
            6 => Ok(Die::Six),
            _ => Err(DieConstructionError::OutOfRange),
        }
    }

    /// The face that a token names, read as a decimal integer of any size.
    pub fn parse(token: &str) -> (r: Result<Die, DieConstructionError>)
        ensures
            r == die_of_text(encode_utf8(token@)),
    {
        let bytes = token.as_bytes();
        let ghost t = bytes@;
        let len = bytes.len();
        let mut start: usize = 0;
        if len > 0 && (bytes[0] == PLUS_SIGN || bytes[0] == MINUS_SIGN) {
            start = 1;
        }
        proof {
            assert(unsigned_part(t) =~= t.subrange(start as int, len as int));
        }
        if start == len {
            return Err(DieConstructionError::NonDigit);
        }
        // The value read so far, capped at 7: enough to tell 1 to 6 apart.
        let mut capped: u8 = 0;
        let mut i: usize = start;
        while i < len
            invariant
                t == bytes@,
                t == encode_utf8(token@),
                len == t.len(),
                start <= i <= len,
                unsigned_part(t) == t.subrange(start as int, len as int),
                forall|j: int| start <= j < i ==> is_digit(#[trigger] t[j]),
                capped as nat == if digits_value(t.subrange(start as int, i as int)) < 7 {
                    digits_value(t.subrange(start as int, i as int))
                } else {
                    7
                },
            decreases len - i,
        {
            let b = bytes[i];
            if b < DIGIT_ZERO || b > DIGIT_NINE {
                proof {
                    let d = unsigned_part(t);
                    assert(d[i - start] == t[i as int]);
                    assert(!is_digit(d[i - start]));
                    assert(!is_integer_text(t));
                }
                return Err(DieConstructionError::NonDigit);
            }
            proof {
                let prev = t.subrange(start as int, i as int);
                assert(t.subrange(start as int, i + 1).drop_last() =~= prev);
            }
            let next: u8 = capped * 10 + (b - DIGIT_ZERO);
            capped = if next < 7 { next } else { 7 };
            i = i + 1;
        }
        proof {
            let d = unsigned_part(t);
            assert(d =~= t.subrange(start as int, i as int));
            assert forall|j: int| 0 <= j < d.len() implies is_digit(#[trigger] d[j]) by {
                assert(d[j] == t[j + start]);
            }
        }
        if start == 1 && bytes[0] == MINUS_SIGN {
            return Err(DieConstructionError::OutOfRange);
        }
        Die::from_value(capped)
    }
}

impl TryFrom<u8> for Die {
    type Error = DieConstructionError;

    fn try_from(value: u8) -> (r: Result<Die, DieConstructionError>) {
        Die::from_value(value)
    }
}

impl vstd::std_specs::convert::TryFromSpecImpl<u8> for Die {
    open spec fn obeys_try_from_spec() -> bool {
        true
    }

    open spec fn try_from_spec(value: u8) -> Result<Die, DieConstructionError> {
        die_of_value(value as int)
    }
}

/// The number of dice in a hand.
pub const DICE_COUNT: usize = 6;

/// One roll of six dice, or a target hand in which wildcards stand for any
/// face. Its order is kept for display; nothing else depends on it.
#[derive(Clone, Copy, Debug)]
pub struct Roll {
    dice: [Die; 6],
}

/// Why a hand could not be built from tokens.
#[derive(Clone, Copy, PartialEq, Eq, Structural, Debug)]
pub enum RollConstructionError {
    /// There were not exactly six tokens.
    WrongDieCount,
    /// A token does not name a face.
    InvalidDie(DieConstructionError),
}

impl View for Roll {
    type V = Seq<Die>;

    closed spec fn view(&self) -> Seq<Die> {
        self.dice@
    }
}

/// How many dice of `s` show the face with `v` pips.
pub open spec fn count(s: Seq<Die>, v: int) -> nat {
    s.to_multiset().count(face(v))
}

/// `2` to the power `n`.
pub open spec fn pow2(n: nat) -> nat
    decreases n,
{
    if n == 0 {
        1
    } else {
        2 * pow2((n - 1) as nat)
    }
}

/// What `c` dice showing face `v` add to a score: ones score 100 each, or
/// 1000 from three on; fives score 50 each up to two; three or more of a
/// face score 100 times its pips; each die past the third doubles the lot.
pub open spec fn face_points(v: int, c: nat) -> nat {
    if v == 1 && c >= 3 {
        1000 * pow2((c - 3) as nat)
    } else if v == 1 {
        100 * c
    } else if v == 5 && c <= 2 {
        50 * c
    } else if c >= 3 {
        (100 * v * pow2((c - 3) as nat)) as nat
    } else {
        0
    }
}

/// The sum of `face_points` over the faces 1 to `v`.
pub open spec fn points_upto(s: Seq<Die>, v: int) -> nat
    decreases v,
{
    if v <= 0 {
        0
    } else {
        points_upto(s, v - 1) + face_points(v, count(s, v))
    }
}

/// How many of the faces 1 to `v` show on exactly `c` dice.
pub open spec fn faces_with_count(s: Seq<Die>, c: nat, v: int) -> nat
    decreases v,
{
    if v <= 0 {
        0
    } else {
        faces_with_count(s, c, v - 1) + if count(s, v) == c {
            1nat
        } else {
            0nat
        }
    }
}

/// One of each face, 1 to 6.
pub open spec fn is_straight(s: Seq<Die>) -> bool {
    forall|v: int| 1 <= v <= 6 ==> count(s, v) == 1
}

/// Three faces, each on exactly two dice.
pub open spec fn is_three_pairs(s: Seq<Die>) -> bool {
    faces_with_count(s, 2, 6) == 3
}

/// Two faces, each on exactly three dice.
pub open spec fn is_two_triplets(s: Seq<Die>) -> bool {
    faces_with_count(s, 3, 6) == 2
}

/// The score of a hand: 2000 for a straight, 1500 for three pairs, else the
/// points of each face added up. Wildcards score nothing.
pub open spec fn score_of(s: Seq<Die>) -> nat {
    if is_straight(s) {
        2000
    } else if is_three_pairs(s) {
        1500
    } else {
        points_upto(s, 6)
    }
}

/// A face that scores only as three or more of a kind: 2, 3, 4 or 6.
pub open spec fn is_regular(v: int) -> bool {
    v == 2 || v == 3 || v == 4 || v == 6
}

/// The regular face `v` shows on three or more dice and every other die
/// shows a 1 or a 5.
pub open spec fn is_run_with_scorers(s: Seq<Die>, v: int) -> bool {
    count(s, v) >= 3 && count(s, v) + count(s, 1) + count(s, 5) == s.len()
}

/// Whether a hand entitles its player to roll all six dice again.
pub open spec fn reroll_of(s: Seq<Die>) -> bool {
    is_straight(s) || is_three_pairs(s) || is_two_triplets(s) || exists|v: int|
        is_regular(v) && #[trigger] is_run_with_scorers(s, v)
}

/// `2` to the power `c - 3`: how often three or more of a kind double.
fn doubling(c: u8) -> (r: u32)
    requires
        3 <= c <= 6,
    ensures
        r == pow2((c - 3) as nat),
        1 <= r <= 8,
{
    proof {
        reveal_with_fuel(pow2, 4);
    }
    match c {
        3 => 1,
        4 => 2,
        5 => 4,
        _ => 8,
    }
}

/// What `c` dice showing face `v` add to a score.
fn points(v: u8, c: u8) -> (r: u32)
    requires
        1 <= v <= 6,
        c <= 6,
    ensures
        r == face_points(v as int, c as nat),
        r <= 8000,
{
    if v == 1 && c >= 3 {
        1000 * doubling(c)
    } else if v == 1 {
        100 * c as u32
    } else if v == 5 && c <= 2 {
        50 * c as u32
    } else if c >= 3 {
        let d = doubling(c);
        assert(100 * v * d <= 4800) by (nonlinear_arith)
            requires
                v <= 6,
                d <= 8,
        ;
        100 * v as u32 * d
    } else {
        0
    }
}

/// How many faces show on exactly `c` dice, given the count of each face.
fn faces_with(counts: &[u8; 6], c: u8, Ghost(s): Ghost<Seq<Die>>) -> (r: u8)
    requires
        forall|j: int| 0 <= j < 6 ==> counts[j] as nat == count(s, j + 1),
    ensures
        r == faces_with_count(s, c as nat, 6),
{
    let mut n: u8 = 0;
    for i in 0..6
        invariant
            forall|j: int| 0 <= j < 6 ==> counts[j] as nat == count(s, j + 1),
            n == faces_with_count(s, c as nat, i as int),
            n <= i,
    {
        if counts[i] == c {
            n = n + 1;
        }
    }
    n
}

/// `s` without its first die equal to `d`, if it has one.
pub open spec fn remove_first(s: Seq<Die>, d: Die) -> Seq<Die>
    decreases s.len(),
{
    if s.len() == 0 {
        s
    } else if s[0] == d {
        s.drop_first()
    } else {
        seq![s[0]] + remove_first(s.drop_first(), d)
    }
}

/// `work` after one matching die has been taken out for each die of `mine`,
/// in the order of `mine`.
pub open spec fn subtract(work: Seq<Die>, mine: Seq<Die>) -> Seq<Die>
    decreases mine.len(),
{
    if mine.len() == 0 {
        work
    } else {
        subtract(remove_first(work, mine[0]), mine.drop_first())
    }
}

/// `s` without its wildcards, in order.
pub open spec fn without_wildcards(s: Seq<Die>) -> Seq<Die>
    decreases s.len(),
{
    if s.len() == 0 {
        s
    } else if s.last() == Die::Any {
        without_wildcards(s.drop_last())
    } else {
        without_wildcards(s.drop_last()).push(s.last())
    }
}

/// The dice of `other` that no die of `mine` matches, wildcards left out.
pub open spec fn diff_of(mine: Seq<Die>, other: Seq<Die>) -> Seq<Die> {
    without_wildcards(subtract(other, mine))
}

/// Taking out the die at `j`, the first one equal to `d`, is `remove_first`.
proof fn lemma_remove_at_first(s: Seq<Die>, d: Die, j: int)
    requires
        0 <= j < s.len(),
        s[j] == d,
        forall|k: int| 0 <= k < j ==> s[k] != d,
    ensures
        remove_first(s, d) == s.remove(j),
    decreases j,
{
    if j > 0 {
        lemma_remove_at_first(s.drop_first(), d, j - 1);
        assert(seq![s[0]] + s.drop_first().remove(j - 1) =~= s.remove(j));
    } else {
        assert(s.drop_first() =~= s.remove(0));
    }
}

/// Where no die equals `d`, `remove_first` takes nothing out.
proof fn lemma_remove_absent(s: Seq<Die>, d: Die)
    requires
        forall|k: int| 0 <= k < s.len() ==> s[k] != d,
    ensures
        remove_first(s, d) == s,
    decreases s.len(),
{
    if s.len() > 0 {
        lemma_remove_absent(s.drop_first(), d);
        assert(seq![s[0]] + s.drop_first() =~= s);
    }
}

/// The faces that tokens name, read in order: the first token that names no
/// face decides the error.
pub open spec fn dice_of_tokens(t: Seq<String>) -> Result<Seq<Die>, DieConstructionError>
    decreases t.len(),
{
    if t.len() == 0 {
        Ok(Seq::empty())
    } else {
        match dice_of_tokens(t.drop_last()) {
            Err(e) => Err(e),
            Ok(ds) => match die_of_text(encode_utf8(t.last()@)) {
                Ok(d) => Ok(ds.push(d)),
                Err(e) => Err(e),
            },
        }
    }
}

/// The hand that tokens write: six tokens, each naming a face.
pub open spec fn hand_of_tokens(t: Seq<String>) -> Result<Seq<Die>, RollConstructionError> {
    if t.len() != DICE_COUNT {
        Err(RollConstructionError::WrongDieCount)
    } else {
        match dice_of_tokens(t) {
            Ok(ds) => Ok(ds),
            Err(e) => Err(RollConstructionError::InvalidDie(e)),
        }
    }
}

/// An error in the first `k` tokens is the error of all of them.
proof fn lemma_first_error_stays(t: Seq<String>, k: int)
    requires
        0 <= k <= t.len(),
        dice_of_tokens(t.subrange(0, k)) is Err,
    ensures
        dice_of_tokens(t) == dice_of_tokens(t.subrange(0, k)),
    decreases t.len() - k,
{
    if k < t.len() {
        assert(t.subrange(0, k + 1).drop_last() =~= t.subrange(0, k));
        lemma_first_error_stays(t, k + 1);
    } else {
        assert(t.subrange(0, k) =~= t);
    }
}

proof fn lemma_remove_first_multiset(s: Seq<Die>, d: Die)
    ensures
        remove_first(s, d).to_multiset() =~= s.to_multiset().remove(d),
    decreases s.len(),
{
    if s.len() == 0 {
        assert(s.to_multiset() =~= Multiset::empty());
    } else {
        assert(s =~= seq![s[0]] + s.drop_first());
        vstd::seq_lib::lemma_multiset_commutative(seq![s[0]], s.drop_first());
        assert(seq![s[0]] =~= Seq::<Die>::empty().push(s[0]));
        assert(Seq::<Die>::empty().to_multiset() =~= Multiset::empty());
        if s[0] != d {
            lemma_remove_first_multiset(s.drop_first(), d);
            vstd::seq_lib::lemma_multiset_commutative(seq![s[0]], remove_first(s.drop_first(), d));
        }
    }
}

proof fn lemma_subtract_multiset(work: Seq<Die>, mine: Seq<Die>)
    ensures
        subtract(work, mine).to_multiset() =~= work.to_multiset().sub(mine.to_multiset()),
    decreases mine.len(),
{
    if mine.len() == 0 {
        assert(mine.to_multiset() =~= Multiset::empty());
    } else {
        lemma_remove_first_multiset(work, mine[0]);
        lemma_subtract_multiset(remove_first(work, mine[0]), mine.drop_first());
        assert(mine =~= seq![mine[0]] + mine.drop_first());
        vstd::seq_lib::lemma_multiset_commutative(seq![mine[0]], mine.drop_first());
        assert(seq![mine[0]] =~= Seq::<Die>::empty().push(mine[0]));
        assert(Seq::<Die>::empty().to_multiset() =~= Multiset::empty());
    }
}

proof fn lemma_without_wildcards_multiset(s: Seq<Die>)
    ensures
        forall|f: Die|
            #[trigger] without_wildcards(s).to_multiset().count(f) == if f == Die::Any {
                0
            } else {
                s.to_multiset().count(f)
            },
    decreases s.len(),
{
    if s.len() == 0 {
        assert(s.to_multiset() =~= Multiset::empty());
    } else {
        let init = s.drop_last();
        lemma_without_wildcards_multiset(init);
        assert(s =~= init.push(s.last()));
        init.to_multiset_ensures();
        without_wildcards(init).to_multiset_ensures();
    }
}

/// The difference holds, of each face, as many dice as `other` shows more
/// than `mine`, and never a wildcard.
pub proof fn lemma_diff_counts(mine: Roll, other: Roll)
    ensures
        forall|f: Die|
            #[trigger] diff_of(mine@, other@).to_multiset().count(f) == if f == Die::Any {
                0
            } else if other@.to_multiset().count(f) >= mine@.to_multiset().count(f) {
                (other@.to_multiset().count(f) - mine@.to_multiset().count(f)) as nat
            } else {
                0
            },
{
    lemma_subtract_multiset(other@, mine@);
    lemma_without_wildcards_multiset(subtract(other@, mine@));
}

/// A hand's difference with itself is empty.
pub proof fn lemma_diff_same_hand(r: Roll)
    ensures
        diff_of(r@, r@) == Seq::<Die>::empty(),
{
    let d = diff_of(r@, r@);
    lemma_diff_counts(r, r);
    assert(d.to_multiset() =~= Multiset::empty());
    d.to_multiset_ensures();
    assert(d =~= Seq::<Die>::empty());
}

proof fn lemma_same_counts_same_tallies(a: Seq<Die>, b: Seq<Die>, v: int)
    requires
        a.to_multiset() == b.to_multiset(),
    ensures
        points_upto(a, v) == points_upto(b, v),
        forall|c: nat| #[trigger] faces_with_count(a, c, v) == faces_with_count(b, c, v),
    decreases v,
{
    if v > 0 {
        lemma_same_counts_same_tallies(a, b, v - 1);
        assert(count(a, v) == count(b, v));
        assert forall|c: nat| #[trigger] faces_with_count(a, c, v) == faces_with_count(b, c, v) by {
            assert(faces_with_count(a, c, v - 1) == faces_with_count(b, c, v - 1));
        }
    }
}

/// Score and reroll eligibility depend on which faces a hand shows and how
/// often, not on their order: two hands with the same dice, and so one hand
/// evaluated twice, get the same results.
pub proof fn lemma_evaluation_ignores_order(a: Roll, b: Roll)
    requires
        a@.to_multiset() == b@.to_multiset(),
    ensures
        score_of(a@) == score_of(b@),
        reroll_of(a@) == reroll_of(b@),
{
    lemma_same_counts_same_tallies(a@, b@, 6);
    assert forall|v: int| #[trigger] count(a@, v) == count(b@, v) by {}
    if is_straight(a@) {
        assert forall|v: int| 1 <= v <= 6 implies count(b@, v) == 1 by {
            assert(count(a@, v) == 1);
        }
    }
    if is_straight(b@) {
        assert forall|v: int| 1 <= v <= 6 implies count(a@, v) == 1 by {
            assert(count(b@, v) == 1);
        }
    }
    a@.to_multiset_ensures();
    b@.to_multiset_ensures();
    assert forall|v: int| is_run_with_scorers(a@, v) == is_run_with_scorers(b@, v) by {}
}

/// How many wildcards `s` holds.
pub open spec fn wildcards(s: Seq<Die>) -> nat {
    s.to_multiset().count(Die::Any)
}

/// How many dice of `mine` go to rolling again to reach `target`: those
/// that match a face of `target` stay, the others (one for each wildcard and
/// one for each face still missing) roll again.
pub open spec fn rerolled_dice(mine: Seq<Die>, target: Seq<Die>) -> nat {
    wildcards(target) + diff_of(mine, target).len()
}

proof fn lemma_remove_first_len(s: Seq<Die>, d: Die)
    ensures
        remove_first(s, d).len() <= s.len(),
    decreases s.len(),
{
    if s.len() > 0 && s[0] != d {
        lemma_remove_first_len(s.drop_first(), d);
    }
}

proof fn lemma_subtract_len(work: Seq<Die>, mine: Seq<Die>)
    ensures
        subtract(work, mine).len() <= work.len(),
    decreases mine.len(),
{
    if mine.len() > 0 {
        lemma_remove_first_len(work, mine[0]);
        lemma_subtract_len(remove_first(work, mine[0]), mine.drop_first());
    }
}

proof fn lemma_without_wildcards_len(s: Seq<Die>)
    ensures
        without_wildcards(s).len() <= s.len(),
    decreases s.len(),
{
    if s.len() > 0 {
        lemma_without_wildcards_len(s.drop_last());
    }
}

impl Roll {
    /// The hand holding the first six dice of `ds`.
    pub closed spec fn new_spec(ds: Seq<Die>) -> Roll {
        Roll { dice: [ds[0], ds[1], ds[2], ds[3], ds[4], ds[5]] }
    }

    /// A hand built from six dice holds them in order.
    pub proof fn lemma_new_spec(ds: Seq<Die>)
        requires
            ds.len() == DICE_COUNT,
        ensures
            Roll::new_spec(ds)@ == ds,
    {
        assert(Roll::new_spec(ds)@ =~= ds);
    }

    /// A hand is the one built from its own dice.
    pub proof fn lemma_rebuilt(&self)
        ensures
            *self == Roll::new_spec(self@),
    {
        assert(self.dice =~= Roll::new_spec(self@).dice);
    }

    /// Constructs a new roll containing the given set of dice.
    pub fn new(dice: [Die; 6]) -> (r: Roll)
        ensures
            r@ == dice@,
    {
        Roll { dice }
    }

    /// The dice, in order.
    pub fn dice(&self) -> (r: [Die; 6])
        ensures
            r@ == self@,
    {
        self.dice
    }

    /// A hand always holds six dice.
    pub proof fn lemma_six_dice(&self)
        ensures
            self@.len() == DICE_COUNT,
    {
    }

    /// Calculates the score of the roll.
    pub fn score(&self) -> (r: u32)
        ensures
            r == score_of(self@),
    {
        let counts = self.die_counts();
        let ghost s = self@;
        if counts[0] == 1 && counts[1] == 1 && counts[2] == 1 && counts[3] == 1 && counts[4] == 1
            && counts[5] == 1 {
            return 2000;
        }
        proof {
            assert(!is_straight(s)) by {
                if is_straight(s) {
                    assert(count(s, 1) == 1 && count(s, 2) == 1 && count(s, 3) == 1);
                    assert(count(s, 4) == 1 && count(s, 5) == 1 && count(s, 6) == 1);
                }
            }
        }
        if faces_with(&counts, 2, Ghost(s)) == 3 {
            return 1500;
        }
        let mut total: u32 = 0;
        for i in 0..6
            invariant
                forall|j: int| 0 <= j < 6 ==> counts[j] as nat == count(s, j + 1),
                forall|j: int| 0 <= j < 6 ==> counts[j] <= 6,
                total == points_upto(s, i as int),
                total <= 8000 * i,
        {
            total = total + points((i + 1) as u8, counts[i]);
        }
        total
    }

    /// Determines whether or not the player can roll again with this hand.
    pub fn can_reroll(&self) -> (r: bool)
        ensures
            r == reroll_of(self@),
    {
        let counts = self.die_counts();
        let ghost s = self@;
        if counts[0] == 1 && counts[1] == 1 && counts[2] == 1 && counts[3] == 1 && counts[4] == 1
            && counts[5] == 1 {
            return true;
        }
        proof {
            assert(!is_straight(s)) by {
                if is_straight(s) {
                    assert(count(s, 1) == 1 && count(s, 2) == 1 && count(s, 3) == 1);
                    assert(count(s, 4) == 1 && count(s, 5) == 1 && count(s, 6) == 1);
                }
            }
        }
        if faces_with(&counts, 2, Ghost(s)) == 3 || faces_with(&counts, 3, Ghost(s)) == 2 {
            return true;
        }
        let scorers: u8 = counts[0] + counts[4];
        if counts[1] >= 3 && counts[1] + scorers == 6 {
            assert(is_regular(2) && is_run_with_scorers(s, 2));
            return true;
        }
        if counts[2] >= 3 && counts[2] + scorers == 6 {
            assert(is_regular(3) && is_run_with_scorers(s, 3));
            return true;
        }
        if counts[3] >= 3 && counts[3] + scorers == 6 {
            assert(is_regular(4) && is_run_with_scorers(s, 4));
            return true;
        }
        if counts[5] >= 3 && counts[5] + scorers == 6 {
            assert(is_regular(6) && is_run_with_scorers(s, 6));
            return true;
        }
        false
    }

    /// Computes the difference between this roll and another: the dice of
    /// `other` that no die of this roll matches one for one, in the order of
    /// `other`, wildcards left out.
    pub fn diff(&self, other: &Roll) -> (r: Vec<Die>)
        ensures
            r@ == diff_of(self@, other@),
    {
        let ghost mine = self@;
        let mut difference: Vec<Die> = Vec::new();
        for k in 0..6
            invariant
                other@.len() == 6,
                difference@ == other@.subrange(0, k as int),
        {
            difference.push(other.dice[k]);
            proof {
                assert(other@.subrange(0, k + 1) =~= other@.subrange(0, k as int).push(other@[k as int]));
            }
        }
        proof {
            assert(difference@ =~= other@);
            assert(mine.subrange(0, 6) =~= mine);
        }
        for i in 0..6
            invariant
                mine == self@,
                mine.len() == 6,
                subtract(difference@, mine.subrange(i as int, 6)) == subtract(other@, mine),
        {
            let die = self.dice[i];
            let mut j: usize = 0;
            while j < difference.len() && difference[j] != die
                invariant
                    j <= difference.len(),
                    forall|k: int| 0 <= k < j ==> difference@[k] != die,
                decreases difference.len() - j,
            {
                j = j + 1;
            }
            proof {
                let rest = mine.subrange(i as int, 6);
                assert(rest[0] == die);
                assert(rest.drop_first() =~= mine.subrange(i + 1, 6));
                if j < difference.len() {
                    lemma_remove_at_first(difference@, die, j as int);
                } else {
                    lemma_remove_absent(difference@, die);
                }
            }
            if j < difference.len() {
                difference.remove(j);
            }
        }
        proof {
            assert(mine.subrange(6, 6) =~= Seq::<Die>::empty());
        }
        let mut result: Vec<Die> = Vec::new();
        let ghost rest = difference@;
        for k in 0..difference.len()
            invariant
                rest == difference@,
                result@ == without_wildcards(rest.subrange(0, k as int)),
        {
            proof {
                assert(rest.subrange(0, k + 1).drop_last() =~= rest.subrange(0, k as int));
            }
            if difference[k] != Die::Any {
                result.push(difference[k]);
            }
        }
        proof {
            assert(rest.subrange(0, rest.len() as int) =~= rest);
        }
        result
    }

    /// Builds a hand from six tokens, each the decimal number of a face.
    pub fn from_tokens(tokens: &[String]) -> (r: Result<Roll, RollConstructionError>)
        ensures
            match r {
                Ok(roll) => hand_of_tokens(tokens@) == Ok::<Seq<Die>, RollConstructionError>(roll@),
                Err(e) => hand_of_tokens(tokens@) == Err::<Seq<Die>, RollConstructionError>(e),
            },
    {
        if tokens.len() != DICE_COUNT {
            return Err(RollConstructionError::WrongDieCount);
        }
        let ghost t = tokens@;
        let mut dice: [Die; 6] = [Die::One; 6];
        proof {
            assert(t.subrange(0, 0) =~= Seq::<String>::empty());
            assert(dice@.subrange(0, 0) =~= Seq::<Die>::empty());
        }
        for i in 0..6
            invariant
                t == tokens@,
                t.len() == 6,
                dice_of_tokens(t.subrange(0, i as int)) == Ok::<Seq<Die>, DieConstructionError>(
                    dice@.subrange(0, i as int),
                ),
        {
            proof {
                assert(t.subrange(0, i + 1).drop_last() =~= t.subrange(0, i as int));
            }
            match Die::parse(tokens[i].as_str()) {
                Ok(d) => {
                    let ghost before = dice@;
                    dice[i] = d;
                    proof {
                        assert(dice@.subrange(0, i + 1) =~= before.subrange(0, i as int).push(d));
                    }
                },
                Err(e) => {
                    proof {
                        lemma_first_error_stays(t, i + 1);
                    }
                    return Err(RollConstructionError::InvalidDie(e));
                },
            }
        }
        proof {
            assert(t.subrange(0, 6) =~= t);
            assert(dice@.subrange(0, 6) =~= dice@);
        }
        Ok(Roll { dice })
    }

    /// The chances of turning this roll into `target` by rolling again every
    /// die that does not match one of its faces: each face that the
    /// difference holds must come up on one of those dice.
    pub fn chances_to(&self, target: &Roll) -> (r: Fraction)
        ensures
            r.denominator == pow(6, rerolled_dice(self@, target@)),
            r.numerator == outcomes_from(
                rerolled_dice(self@, target@),
                diff_of(self@, target@).len() as int,
            ),
    {
        let missing = self.diff(target);
        let ghost t = target@;
        let mut any: usize = 0;
        proof {
            assert(t.subrange(0, 0) =~= Seq::<Die>::empty());
            assert(t.subrange(0, 0).to_multiset() =~= Multiset::empty());
        }
        for i in 0..6
            invariant
                t == target@,
                t.len() == 6,
                any == wildcards(t.subrange(0, i as int)),
                any <= i,
        {
            proof {
                assert(t.subrange(0, i + 1) =~= t.subrange(0, i as int).push(t[i as int]));
            }
            if target.dice[i] == Die::Any {
                any = any + 1;
            }
        }
        proof {
            assert(t.subrange(0, 6) =~= t);
            lemma_subtract_len(t, self@);
            lemma_without_wildcards_len(subtract(t, self@));
        }
        let rerolled = any + missing.len();
        chances(missing.as_slice(), rerolled as u8)
    }

    /// How many dice show each face: slot `v - 1` for the face `v`.
    fn die_counts(&self) -> (r: [u8; 6])
        ensures
            forall|j: int| 0 <= j < 6 ==> r[j] as nat == count(self@, j + 1),
            forall|j: int| 0 <= j < 6 ==> r[j] <= 6,
    {
        let mut counts: [u8; 6] = [0u8; 6];
        let ghost s = self@;
        proof {
            assert(s.subrange(0, 0) =~= Seq::<Die>::empty());
            assert(s.subrange(0, 0).to_multiset() =~= Multiset::empty());
        }
        for i in 0..6
            invariant
                s == self@,
                s.len() == 6,
                forall|j: int| 0 <= j < 6 ==> counts[j] as nat == count(s.subrange(0, i as int), j + 1),
                forall|j: int| 0 <= j < 6 ==> counts[j] <= i,
        {
            proof {
                assert(s.subrange(0, i + 1) =~= s.subrange(0, i as int).push(s[i as int]));
                s.subrange(0, i as int).to_multiset_ensures();
            }
            match self.dice[i] {
                Die::One => counts[0] = counts[0] + 1,
                Die::Two => counts[1] = counts[1] + 1,
                Die::Three => counts[2] = counts[2] + 1,
                Die::Four => counts[3] = counts[3] + 1,
                Die::Five => counts[4] = counts[4] + 1,
                Die::Six => counts[5] = counts[5] + 1,
                Die::Any => {},
            }
        }
        proof {
            assert(s.subrange(0, 6) =~= s);
        }
        counts
    }
}

impl TryFrom<String> for Die {
    type Error = DieConstructionError;

    fn try_from(value: String) -> (r: Result<Die, DieConstructionError>) {
        Die::parse(value.as_str())
    }
}

impl vstd::std_specs::convert::TryFromSpecImpl<String> for Die {
    open spec fn obeys_try_from_spec() -> bool {
        true
    }

    open spec fn try_from_spec(value: String) -> Result<Die, DieConstructionError> {
        die_of_text(encode_utf8(value@))
    }
}

impl<'a> TryFrom<&'a [String]> for Roll {
    type Error = RollConstructionError;

    fn try_from(tokens: &'a [String]) -> (r: Result<Roll, RollConstructionError>) {
        let r = Roll::from_tokens(tokens);
        proof {
            if let Ok(roll) = r {
                roll.lemma_rebuilt();
            }
        }
        r
    }
}

impl<'a> vstd::std_specs::convert::TryFromSpecImpl<&'a [String]> for Roll {
    open spec fn obeys_try_from_spec() -> bool {
        true
    }

    open spec fn try_from_spec(tokens: &'a [String]) -> Result<Roll, RollConstructionError> {
        match hand_of_tokens(tokens@) {
            Ok(ds) => Ok(Roll::new_spec(ds)),
            Err(e) => Err(e),
        }
    }
}

} // verus!

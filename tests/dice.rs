use farkle::dice::{Die, DieConstructionError, Roll, RollConstructionError};

const RUN: [Die; 6] = [Die::One, Die::Two, Die::Three, Die::Four, Die::Five, Die::Six];
const THREE_PAIRS: [Die; 6] = [Die::One, Die::Two, Die::One, Die::Two, Die::Five, Die::Five];

fn tokens(words: &[&str]) -> Vec<String> {
    words.iter().map(|w| w.to_string()).collect()
}

#[test]
fn score_run() {
    let roll = Roll::new(RUN);
    assert_eq!(roll.score(), 2000);
}

#[test]
fn score_three_pairs() {
    let roll = Roll::new(THREE_PAIRS);
    assert_eq!(roll.score(), 1500);
}

#[test]
fn score_all_ones() {
    let roll = Roll::new([Die::One, Die::One, Die::One, Die::One, Die::One, Die::One]);
    assert_eq!(roll.score(), 8000);
}

#[test]
fn score_three_threes() {
    let roll = Roll::new([Die::Three, Die::Two, Die::Three, Die::Three, Die::Two, Die::Four]);
    assert_eq!(roll.score(), 300);
}

#[test]
fn score_three_fours_and_one() {
    let roll = Roll::new([Die::Four, Die::Two, Die::Four, Die::One, Die::Two, Die::Four]);
    assert_eq!(roll.score(), 500);
}

#[test]
fn score_three_twos_and_five() {
    let roll = Roll::new([Die::Two, Die::Two, Die::Three, Die::Five, Die::Six, Die::Two]);
    assert_eq!(roll.score(), 250);
}

#[test]
fn score_doubling_per_extra_die() {
    let four_sixes = Roll::new([Die::Six, Die::Six, Die::Six, Die::Six, Die::Two, Die::Three]);
    assert_eq!(four_sixes.score(), 1200);
    let five_fives = Roll::new([Die::Five, Die::Five, Die::Five, Die::Five, Die::Five, Die::Two]);
    assert_eq!(five_fives.score(), 2000);
    let four_ones = Roll::new([Die::One, Die::One, Die::One, Die::One, Die::Five, Die::Five]);
    assert_eq!(four_ones.score(), 2100);
}

#[test]
fn score_nothing() {
    let roll = Roll::new([Die::Two, Die::Two, Die::Three, Die::Four, Die::Six, Die::Six]);
    assert_eq!(roll.score(), 0);
}

#[test]
fn score_ignores_wildcards() {
    let roll = Roll::new([Die::One, Die::Any, Die::Any, Die::Any, Die::Five, Die::Any]);
    assert_eq!(roll.score(), 150);
}

#[test]
fn score_and_reroll_repeatable_and_order_free() {
    let a = Roll::new([Die::Two, Die::Two, Die::Two, Die::One, Die::One, Die::Five]);
    let b = Roll::new([Die::Five, Die::One, Die::Two, Die::One, Die::Two, Die::Two]);
    assert_eq!(a.score(), a.score());
    assert_eq!(a.can_reroll(), a.can_reroll());
    assert_eq!(a.score(), b.score());
    assert_eq!(a.can_reroll(), b.can_reroll());
}

#[test]
fn reroll_run() {
    let roll = Roll::new(RUN);
    assert!(roll.can_reroll());
}

#[test]
fn cant_reroll_almost_run() {
    let roll = Roll::new([Die::One, Die::Two, Die::Two, Die::Four, Die::Five, Die::Six]);
    assert!(!roll.can_reroll());
}

#[test]
fn reroll_three_pair() {
    let roll = Roll::new(THREE_PAIRS);
    assert!(roll.can_reroll());
}

#[test]
fn reroll_five_of_a_kind_with_one() {
    let roll = Roll::new([Die::One, Die::Two, Die::Two, Die::Two, Die::Two, Die::Two]);
    assert!(roll.can_reroll());
}

#[test]
fn reroll_four_of_a_kind_with_one_and_five() {
    let roll = Roll::new([Die::One, Die::Two, Die::Two, Die::Five, Die::Two, Die::Two]);
    assert!(roll.can_reroll());
}

#[test]
fn reroll_two_triplets() {
    let roll = Roll::new([Die::Two, Die::Two, Die::Two, Die::Six, Die::Six, Die::Six]);
    assert!(roll.can_reroll());
}

#[test]
fn reroll_three_of_a_kind_with_two_ones_and_five() {
    let roll = Roll::new([Die::Two, Die::Two, Die::Two, Die::One, Die::One, Die::Five]);
    assert!(roll.can_reroll());
}

#[test]
fn cant_reroll_three_of_a_kind_with_two_ones_and_regular() {
    let roll = Roll::new([Die::Two, Die::Two, Die::Two, Die::One, Die::One, Die::Six]);
    assert!(!roll.can_reroll());
}

#[test]
fn reroll_six_of_a_kind() {
    let roll = Roll::new([Die::Four, Die::Four, Die::Four, Die::Four, Die::Four, Die::Four]);
    assert!(roll.can_reroll());
}

#[test]
fn cant_reroll_ones_and_fives_only() {
    let roll = Roll::new([Die::One, Die::One, Die::One, Die::One, Die::Five, Die::Five]);
    assert!(!roll.can_reroll());
}

#[test]
fn compute_difference() {
    assert_eq!(
        Roll::new([Die::One, Die::One, Die::One, Die::One, Die::One, Die::One]).diff(&Roll::new([
            Die::One,
            Die::Two,
            Die::One,
            Die::Two,
            Die::One,
            Die::One,
        ])),
        vec![Die::Two, Die::Two],
    );
    assert_eq!(
        Roll::new([Die::One, Die::One, Die::One, Die::One, Die::One, Die::One]).diff(&Roll::new([
            Die::One,
            Die::Two,
            Die::Three,
            Die::Four,
            Die::Five,
            Die::Six,
        ])),
        vec![Die::Two, Die::Three, Die::Four, Die::Five, Die::Six],
    );
    assert_eq!(
        Roll::new([Die::One, Die::One, Die::Two, Die::Three, Die::Four, Die::Five]).diff(&Roll::new([
            Die::One,
            Die::One,
            Die::One,
            Die::Any,
            Die::Any,
            Die::Any,
        ])),
        vec![Die::One],
    );
}

#[test]
fn difference_with_same_hand_is_empty() {
    let roll = Roll::new([Die::Three, Die::One, Die::Three, Die::Six, Die::Two, Die::Two]);
    assert_eq!(roll.diff(&roll), Vec::<Die>::new());
}

#[test]
fn difference_drops_wildcards_anywhere() {
    let mine = Roll::new([Die::Two, Die::Two, Die::Three, Die::Four, Die::Six, Die::Six]);
    let target = Roll::new([Die::Any, Die::Five, Die::Any, Die::Five, Die::Two, Die::Any]);
    assert_eq!(mine.diff(&target), vec![Die::Five, Die::Five]);
}

#[test]
fn die_from_integer() {
    assert_eq!(Die::try_from(1u8), Ok(Die::One));
    assert_eq!(Die::try_from(6u8), Ok(Die::Six));
    assert_eq!(Die::try_from(0u8), Err(DieConstructionError::OutOfRange));
    assert_eq!(Die::try_from(7u8), Err(DieConstructionError::OutOfRange));
    assert_eq!(Die::try_from(255u8), Err(DieConstructionError::OutOfRange));
}

#[test]
fn die_from_text() {
    assert_eq!(Die::try_from("3".to_string()), Ok(Die::Three));
    assert_eq!(Die::parse("+5"), Ok(Die::Five));
    assert_eq!(Die::parse("004"), Ok(Die::Four));
    assert_eq!(Die::parse("0"), Err(DieConstructionError::OutOfRange));
    assert_eq!(Die::parse("7"), Err(DieConstructionError::OutOfRange));
    assert_eq!(Die::parse("-1"), Err(DieConstructionError::OutOfRange));
    assert_eq!(Die::parse("300"), Err(DieConstructionError::OutOfRange));
    assert_eq!(Die::parse("99999999999999999999999"), Err(DieConstructionError::OutOfRange));
    assert_eq!(Die::parse("abc"), Err(DieConstructionError::NonDigit));
    assert_eq!(Die::parse(""), Err(DieConstructionError::NonDigit));
    assert_eq!(Die::parse("-"), Err(DieConstructionError::NonDigit));
    assert_eq!(Die::parse(" 3"), Err(DieConstructionError::NonDigit));
    assert_eq!(Die::parse("3x"), Err(DieConstructionError::NonDigit));
}

#[test]
fn roll_from_tokens() {
    let roll = Roll::from_tokens(&tokens(&["1", "2", "3", "4", "5", "6"])).unwrap();
    assert_eq!(roll.dice(), RUN);
    let again = Roll::try_from(&tokens(&["1", "2", "3", "4", "5", "6"])[..]).unwrap();
    assert_eq!(again.score(), 2000);
}

#[test]
fn roll_from_wrong_token_count() {
    let short = Roll::from_tokens(&tokens(&["1", "2", "3", "4", "5"]));
    assert_eq!(short.err(), Some(RollConstructionError::WrongDieCount));
    let long = Roll::from_tokens(&tokens(&["1", "2", "3", "4", "5", "6", "1"]));
    assert_eq!(long.err(), Some(RollConstructionError::WrongDieCount));
}

#[test]
fn roll_from_invalid_token() {
    let bad = Roll::from_tokens(&tokens(&["1", "x", "9", "4", "5", "6"]));
    assert_eq!(bad.err(), Some(RollConstructionError::InvalidDie(DieConstructionError::NonDigit)));
    let out = Roll::from_tokens(&tokens(&["1", "2", "9", "4", "5", "x"]));
    assert_eq!(out.err(), Some(RollConstructionError::InvalidDie(DieConstructionError::OutOfRange)));
}

#[test]
fn chances_to_complete_target() {
    let current = Roll::new([Die::One, Die::One, Die::Two, Die::Three, Die::Four, Die::Five]);
    let target = Roll::new([Die::One, Die::One, Die::One, Die::Any, Die::Any, Die::Any]);
    let c = current.chances_to(&target);
    assert_eq!(c.numerator, 671);
    assert_eq!(c.denominator, 1296);
}

#[test]
fn chances_to_reached_target() {
    let current = Roll::new([Die::One, Die::One, Die::One, Die::Three, Die::Four, Die::Five]);
    let target = Roll::new([Die::One, Die::One, Die::One, Die::Any, Die::Any, Die::Any]);
    let c = current.chances_to(&target);
    assert_eq!(c.numerator, c.denominator);
    assert_eq!(c.denominator, 216);
}

#[test]
fn error_messages() {
    assert_eq!(DieConstructionError::OutOfRange.message(), "Face value out of range (1 - 6).");
    assert_eq!(DieConstructionError::NonDigit.message(), "Die value not a digit.");
}

#[test]
fn die_pips() {
    let shown: Vec<u8> = RUN.iter().map(|d| d.pips()).collect();
    assert_eq!(shown, vec![1, 2, 3, 4, 5, 6]);
    assert_eq!(Die::Any.pips(), 7);
}

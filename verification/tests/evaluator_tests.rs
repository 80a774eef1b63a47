use std::str::FromStr;

use checkmate::evaluator::{evaluate, score_position, CHECKMATE_SCORE, CHECK_SCORE};
use checkmate::rules::{Position, Side};
use checkmate::score::Score;
use chess::Board;

fn position(fen: &str) -> Position {
    Position::new(Board::from_str(fen).expect("a valid position")).expect("a playable position")
}

fn parts(score: Score) -> (i64, i64) {
    (score.numerator(), score.denominator())
}

#[test]
fn checkmate_scores_three() {
    assert_eq!(CHECKMATE_SCORE, 3);
    assert_eq!(parts(score_position(true, true, 10, 20, true)), (3, 1));
    assert_eq!(parts(score_position(true, true, 10, 20, false)), (3, 1));
    assert_eq!(parts(score_position(true, false, 0, 0, false)), (3, 1));
}

#[test]
fn check_scores_two() {
    assert_eq!(CHECK_SCORE, 2);
    assert_eq!(parts(score_position(false, true, 10, 20, true)), (2, 1));
    assert_eq!(parts(score_position(false, true, 10, 20, false)), (2, 1));
}

#[test]
fn quiet_position_scores_the_material_ratio() {
    assert_eq!(parts(score_position(false, false, 10, 20, true)), (10, 20));
    assert_eq!(parts(score_position(false, false, 21, 21, true)), (21, 21));
}

#[test]
fn sign_is_changed_for_the_side_not_to_move() {
    assert_eq!(parts(score_position(false, false, 10, 20, false)), (-10, 20));
}

#[test]
fn missing_opponent_material_saturates() {
    assert_eq!(parts(score_position(false, false, 10, 0, true)), (4294967296, 1));
    assert_eq!(parts(score_position(false, false, 10, 0, false)), (-4294967296, 1));
    assert_eq!(parts(score_position(false, false, 0, 0, true)), (4294967296, 1));
}

#[test]
fn initial_position_is_even_for_the_side_to_move() {
    let start = Position::new(Board::default()).unwrap();
    let white = evaluate(&start, Side::White);
    assert_eq!(parts(white), (21, 21));
    assert!(white.equals(&Score::whole(1)));
    let black = evaluate(&start, Side::Black);
    assert_eq!(parts(black), (-21, 21));
    assert!(black.equals(&Score::whole(-1)));
}

#[test]
fn balanced_position_is_sign_symmetric() {
    let fens = [
        "rnbqkbnr/pppppppp/8/8/8/8/PPPPPPPP/RNBQKBNR w KQkq - 0 1",
        "rnbqkbnr/pppppppp/8/8/4P3/8/PPPP1PPP/RNBQKBNR b KQkq - 0 1",
        "4k3/8/8/8/8/8/8/4K3 w - - 0 1",
        "r3k3/8/8/8/8/8/8/4K2R b - - 0 1",
    ];
    for fen in fens.iter() {
        let pos = position(fen);
        assert_eq!(pos.material(Side::White), pos.material(Side::Black));
        let white = evaluate(&pos, Side::White);
        let black = evaluate(&pos, Side::Black);
        assert!(white.equals(&black.negated()));
        assert_eq!(parts(white), parts(black.negated()));
    }
}

#[test]
fn unbalanced_position_gives_reciprocal_scores_of_opposite_sign() {
    let pos = position("k7/8/8/8/8/8/8/KQR5 w - - 0 1");
    let white = evaluate(&pos, Side::White);
    let black = evaluate(&pos, Side::Black);
    assert_eq!(parts(white), (12, 5));
    assert_eq!(parts(black), (-5, 12));
    assert!(!white.equals(&black.negated()));
    assert_eq!(
        white.numerator() * black.numerator(),
        -(white.denominator() * black.denominator())
    );
}

#[test]
fn evaluation_follows_the_side_to_move() {
    let pos = position("k7/8/8/8/8/8/8/KQR5 b - - 0 1");
    assert_eq!(parts(evaluate(&pos, Side::White)), (-12, 5));
    assert_eq!(parts(evaluate(&pos, Side::Black)), (5, 12));
}

#[test]
fn checkmate_is_three_for_both_sides() {
    let pos = position("rnb1kbnr/pppp1ppp/8/4p3/6Pq/5P2/PPPPP2P/RNBQKBNR w KQkq - 1 3");
    assert_eq!(parts(evaluate(&pos, Side::White)), (3, 1));
    assert_eq!(parts(evaluate(&pos, Side::Black)), (3, 1));
}

#[test]
fn check_is_two_for_both_sides() {
    let pos = position("8/8/8/8/8/5k2/8/4r2K w - - 0 1");
    assert_eq!(parts(evaluate(&pos, Side::White)), (2, 1));
    assert_eq!(parts(evaluate(&pos, Side::Black)), (2, 1));
}

#[test]
fn stalemate_scores_the_material_ratio() {
    let pos = position("7k/5Q2/6K1/8/8/8/8/8 b - - 0 1");
    assert_eq!(parts(evaluate(&pos, Side::Black)), (5, 9));
    assert_eq!(parts(evaluate(&pos, Side::White)), (-9, 5));
}

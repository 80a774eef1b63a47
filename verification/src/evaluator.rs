//! The static evaluator: what a position is worth to one side.

use vstd::prelude::*;
use crate::rules::{
    in_check,
    is_checkmate,
    lemma_material_bounded,
    material_of,
    side_to_move_of,
    Position,
    Side,
    SQUARES,
};
use crate::score::{Fraction, Score};

verus! {

/// The score of a checkmate, whichever side is mated.
pub const CHECKMATE_SCORE: i32 = 3;

/// The score of a position in which the side to move is in check.
pub const CHECK_SCORE: i32 = 2;

/// The score of a position from what the rules engine reports of it: 3 for
/// a checkmate and 2 for a check, whichever side suffers it; else the
/// material of the side asked for (`own`) over that of its opponent
/// (`other`), saturated where the opponent has none, with the sign changed
/// where the side asked for is not the one to move (`to_move`).
pub open spec fn score_of(
    mate: bool,
    check: bool,
    own: nat,
    other: nat,
    to_move: bool,
) -> Fraction {
    if mate {
        Fraction::whole(CHECKMATE_SCORE as int)
    } else if check {
        Fraction::whole(CHECK_SCORE as int)
    } else if to_move {
        Fraction::ratio(own, other)
    } else {
        Fraction::ratio(own, other).negated()
    }
}

/// What `position` is worth to `side`.
pub open spec fn evaluation(position: Position, side: Side) -> Fraction {
    score_of(
        is_checkmate(position),
        in_check(position),
        material_of(position, side),
        material_of(position, side.opposite()),
        side_to_move_of(position) == side,
    )
}

/// The score of a position from what the rules engine reports of it.
pub fn score_position(mate: bool, check: bool, own: u32, other: u32, to_move: bool) -> (score:
    Score)
    ensures
        score@ == score_of(mate, check, own as nat, other as nat, to_move),
{
    if mate {
        Score::whole(CHECKMATE_SCORE)
    } else if check {
        Score::whole(CHECK_SCORE)
    } else {
        let quotient = Score::ratio(own, other);
        if to_move {
            quotient
        } else {
            quotient.negated()
        }
    }
}

/// What `position` is worth to `side`.
pub fn evaluate(position: &Position, side: Side) -> (score: Score)
    ensures
        score@ == evaluation(*position, side),
{
    let mate = position.is_checkmate();
    let check = position.in_check();
    let own = position.material(side);
    let other = position.material(side.opposite());
    let to_move = position.side_to_move() == side;
    score_position(mate, check, own, other, to_move)
}

/// Every evaluation is a fraction that a score holds.
pub proof fn lemma_evaluation_fits(position: Position, side: Side)
    ensures
        evaluation(position, side).fits(),
{
    lemma_material_bounded(position, side, SQUARES as nat);
    lemma_material_bounded(position, side.opposite(), SQUARES as nat);
}

/// Two positions of which the rules engine reports the same get the same
/// score: the score goes by checkmate, check, the material of the two sides
/// and the side to move, and by nothing else.
pub proof fn law_equal_reports_give_equal_scores(first: Position, second: Position, side: Side)
    requires
        is_checkmate(first) == is_checkmate(second),
        in_check(first) == in_check(second),
        material_of(first, side) == material_of(second, side),
        material_of(first, side.opposite()) == material_of(second, side.opposite()),
        (side_to_move_of(first) == side) == (side_to_move_of(second) == side),
    ensures
        evaluation(first, side) == evaluation(second, side),
{
}

/// Outside check and checkmate, and where both sides have material, the
/// scores of a position for the two sides are of opposite sign and
/// reciprocal size: their product is -1.
pub proof fn law_sides_are_reciprocal(position: Position, side: Side)
    requires
        !is_checkmate(position),
        !in_check(position),
        material_of(position, side) > 0,
        material_of(position, side.opposite()) > 0,
    ensures
        ({
            let mine = evaluation(position, side);
            let theirs = evaluation(position, side.opposite());
            mine.num * theirs.num == -(mine.den * theirs.den)
        }),
{
    let own = material_of(position, side) as int;
    let other = material_of(position, side.opposite()) as int;
    assert(side.opposite().opposite() == side);
    assert(own * (-other) == -(other * own)) by (nonlinear_arith);
    assert((-own) * other == -(other * own)) by (nonlinear_arith);
}

/// Outside check and checkmate, and where both sides have material, the
/// score of a position for one side is the score for the other with the sign
/// changed exactly where the two sides have the same material.
pub proof fn law_sign_symmetry(position: Position, side: Side)
    requires
        !is_checkmate(position),
        !in_check(position),
        material_of(position, side) > 0,
        material_of(position, side.opposite()) > 0,
    ensures
        evaluation(position, side).same(evaluation(position, side.opposite()).negated())
            <==> material_of(position, side) == material_of(position, side.opposite()),
        material_of(position, side) == material_of(position, side.opposite())
            ==> evaluation(position, side) == evaluation(position, side.opposite()).negated(),
{
    let own = material_of(position, side) as int;
    let other = material_of(position, side.opposite()) as int;
    assert(side.opposite().opposite() == side);
    assert(own * own == other * other <==> own == other) by (nonlinear_arith)
        requires
            own > 0,
            other > 0,
    ;
    assert((-own) * own == -(own * own)) by (nonlinear_arith);
    assert((-other) * other == -(other * other)) by (nonlinear_arith);
}

} // verus!

//! The boundary to the rules engine: sides, men, moves and positions, and
//! what the engine reports about a position.
//!
//! The engine's board is carried opaquely inside `Position`. What the engine
//! answers about a position is a function of the position alone; each answer
//! has a name below, an uninterpreted function. The private functions marked
//! `external_body` make the calls, and their contracts are believed, not
//! proved: they say that a call returns what the name stands for, and the few
//! facts about the answers that the library relies on.

use vstd::prelude::*;
use chess::{Board, BoardStatus, ChessMove, Color, MoveGen, Piece, ALL_SQUARES};

verus! {

/// The number of squares of the board.
pub const SQUARES: u8 = 64;

/// The most men of one side that a position may hold.
pub const MEN_PER_SIDE: u8 = 16;

/// One of the two players.
#[derive(Clone, Copy, Debug, PartialEq, Eq, Structural)]
pub enum Side {
    White,
    Black,
}

impl Side {
    /// The other player.
    pub open spec fn spec_opposite(self) -> Side {
        match self {
            Side::White => Side::Black,
            Side::Black => Side::White,
        }
    }

    /// The other player.
    #[verifier::when_used_as_spec(spec_opposite)]
    pub fn opposite(self) -> (other: Side)
        ensures
            other == self.spec_opposite(),
    {
        match self {
            Side::White => Side::Black,
            Side::Black => Side::White,
        }
    }

    /// The place of the side in the order of sides: White comes before Black.
    pub open spec fn spec_index(self) -> nat {
        match self {
            Side::White => 0,
            Side::Black => 1,
        }
    }

    /// The place of the side in the order of sides: White comes before Black.
    pub fn index(self) -> (place: u8)
        ensures
            place == self.spec_index(),
    {
        match self {
            Side::White => 0,
            Side::Black => 1,
        }
    }
}

/// The kind of a man.
#[derive(Clone, Copy, Debug, PartialEq, Eq, Structural)]
pub enum PieceKind {
    Pawn,
    Knight,
    Bishop,
    Rook,
    Queen,
    King,
}

impl PieceKind {
    /// What a man of this kind counts for in a side's material: the number
    /// by which the rules engine orders the kinds, from 0 for a pawn to 5 for
    /// the king.
    pub open spec fn worth(self) -> nat {
        match self {
            PieceKind::Pawn => 0,
            PieceKind::Knight => 1,
            PieceKind::Bishop => 2,
            PieceKind::Rook => 3,
            PieceKind::Queen => 4,
            PieceKind::King => 5,
        }
    }

    /// What a man of this kind counts for in a side's material.
    pub fn weight(self) -> (w: u32)
        ensures
            w == self.worth(),
    {
        match self {
            PieceKind::Pawn => 0,
            PieceKind::Knight => 1,
            PieceKind::Bishop => 2,
            PieceKind::Rook => 3,
            PieceKind::Queen => 4,
            PieceKind::King => 5,
        }
    }
}

/// A transition between two positions: the square left, the square reached
/// and, for a pawn that reaches the last rank, the kind it turns into.
/// Squares are numbered from 0 (a1) along the ranks to 63 (h8).
#[derive(Clone, Copy, Debug, PartialEq, Eq, Structural)]
pub struct Move {
    pub from: u8,
    pub to: u8,
    pub promotion: Option<PieceKind>,
}

/// Whether the game goes on from a position, and how it ended if not.
#[derive(Clone, Copy, Debug, PartialEq, Eq, Structural)]
pub enum Status {
    Ongoing,
    Stalemate,
    Checkmate,
}

/// `chess::Board`, the rules engine's board with the side to move, the
/// castling rights and the square of a capture in passing. Nothing inside it
/// is visible here.
#[verifier::external_type_specification]
#[verifier::external_body]
pub struct ExBoard(Board);

/// A board state together with the side to move.
pub struct Position {
    board: Board,
}

/// What `Board::is_sane` answers for `position`: whether it passes the rules
/// engine's own test of a board, which asks for one king a side, no two men
/// on a square, the side that has moved not in check, and castling rights
/// and the square of a capture in passing in keeping with the men.
pub uninterp spec fn sound(position: Position) -> bool;

/// What `Board::color_on` answers for `square` of `position`: the side whose
/// man stands there, if any does.
pub uninterp spec fn color_on(position: Position, square: u8) -> Option<Side>;

/// What `Board::piece_on` answers for `square` of `position`: the kind of
/// the man there, if any stands there.
pub uninterp spec fn piece_on(position: Position, square: u8) -> Option<PieceKind>;

/// What `Board::side_to_move` answers for `position`: the side that moves
/// next.
pub uninterp spec fn side_to_move_of(position: Position) -> Side;

/// What `Board::checkers` answers for `position`: the squares, one bit
/// each, from which a man gives check to the side to move.
pub uninterp spec fn check_givers(position: Position) -> u64;

/// What `MoveGen::new_legal` yields for `position`: its legal moves, in the
/// order in which the rules engine generates them.
pub uninterp spec fn legal_moves_of(position: Position) -> Seq<Move>;

/// What `Board::make_move_new` returns for `position` and `mv`: the position
/// that the move leads to.
pub uninterp spec fn position_after(position: Position, mv: Move) -> Position;

/// The number of squares below `limit` on which `side` has a man.
pub open spec fn men_below(position: Position, side: Side, limit: nat) -> nat
    decreases limit,
{
    if limit == 0 {
        0
    } else {
        let rest = men_below(position, side, (limit - 1) as nat);
        if color_on(position, (limit - 1) as u8) == Some(side) {
            rest + 1
        } else {
            rest
        }
    }
}

/// The number of men that `side` has in `position`.
pub open spec fn men(position: Position, side: Side) -> nat {
    men_below(position, side, SQUARES as nat)
}

/// What the man on `square` adds to the material of `side`.
pub open spec fn worth_on(position: Position, side: Side, square: u8) -> nat {
    if color_on(position, square) == Some(side) {
        match piece_on(position, square) {
            Some(kind) => kind.worth(),
            None => 0,
        }
    } else {
        0
    }
}

/// The material of `side` on the squares below `limit`.
pub open spec fn material_below(position: Position, side: Side, limit: nat) -> nat
    decreases limit,
{
    if limit == 0 {
        0
    } else {
        material_below(position, side, (limit - 1) as nat) + worth_on(
            position,
            side,
            (limit - 1) as u8,
        )
    }
}

/// The material of `side` in `position`: the sum of the worth of its men.
pub open spec fn material_of(position: Position, side: Side) -> nat {
    material_below(position, side, SQUARES as nat)
}

/// The material on the squares below `limit` is at most 5 for each square,
/// the worth of a king.
pub proof fn lemma_material_bounded(position: Position, side: Side, limit: nat)
    ensures
        material_below(position, side, limit) <= 5 * limit,
    decreases limit,
{
    if limit > 0 {
        lemma_material_bounded(position, side, (limit - 1) as nat);
    }
}

/// Whether the side to move in `position` is in check.
pub open spec fn in_check(position: Position) -> bool {
    check_givers(position) != 0
}

/// The status of `position`: the game goes on while a legal move is left;
/// with none left it is checkmate if the side to move is in check, and
/// stalemate if not.
pub open spec fn status_of(position: Position) -> Status {
    if legal_moves_of(position).len() > 0 {
        Status::Ongoing
    } else if in_check(position) {
        Status::Checkmate
    } else {
        Status::Stalemate
    }
}

/// Whether the side to move in `position` is checkmated.
pub open spec fn is_checkmate(position: Position) -> bool {
    status_of(position) == Status::Checkmate
}

/// Whether `position` is one that the library works on: its board is sound,
/// and neither side has more men than a game of chess can give it.
pub open spec fn is_playable(position: Position) -> bool {
    &&& sound(position)
    &&& men(position, Side::White) <= MEN_PER_SIDE
    &&& men(position, Side::Black) <= MEN_PER_SIDE
}

/// Whether `mv` is a reply in `position`: a legal move that leads to a
/// playable position. The rules engine yields a few moves that do not.
pub open spec fn is_reply(position: Position, mv: Move) -> bool {
    legal_moves_of(position).contains(mv) && is_playable(position_after(position, mv))
}

/// Whether `position` has a reply.
pub open spec fn has_reply(position: Position) -> bool {
    exists|mv: Move| is_reply(position, mv)
}

/// `Board::is_sane`: whether the board passes the rules engine's own test.
#[verifier::external_body]
fn board_is_sane(board: &Board) -> (sane: bool)
    ensures
        sane == sound(Position::holding(*board)),
{
    board.is_sane()
}

/// `Board::color_on` at the square numbered `square`: the side of the man
/// standing there, or `None` on an empty square.
#[verifier::external_body]
fn board_color_on(board: &Board, square: u8) -> (side: Option<Side>)
    requires
        square < SQUARES,
    ensures
        side == color_on(Position::holding(*board), square),
{
    match board.color_on(ALL_SQUARES[square as usize]) {
        Some(Color::White) => Some(Side::White),
        Some(Color::Black) => Some(Side::Black),
        None => None,
    }
}

/// `Board::piece_on` at the square numbered `square`: the kind of the man
/// standing there, or `None` on an empty square.
#[verifier::external_body]
fn board_piece_on(board: &Board, square: u8) -> (kind: Option<PieceKind>)
    requires
        square < SQUARES,
    ensures
        kind == piece_on(Position::holding(*board), square),
{
    match board.piece_on(ALL_SQUARES[square as usize]) {
        Some(Piece::Pawn) => Some(PieceKind::Pawn),
        Some(Piece::Knight) => Some(PieceKind::Knight),
        Some(Piece::Bishop) => Some(PieceKind::Bishop),
        Some(Piece::Rook) => Some(PieceKind::Rook),
        Some(Piece::Queen) => Some(PieceKind::Queen),
        Some(Piece::King) => Some(PieceKind::King),
        None => None,
    }
}

/// `Board::side_to_move`: the side that moves next.
#[verifier::external_body]
fn board_side_to_move(board: &Board) -> (side: Side)
    ensures
        side == side_to_move_of(Position::holding(*board)),
{
    match board.side_to_move() {
        Color::White => Side::White,
        Color::Black => Side::Black,
    }
}

/// `Board::checkers`: the bitboard of the men that give check to the side to
/// move, handed out as its 64 bits.
#[verifier::external_body]
fn board_check_givers(board: &Board) -> (bits: u64)
    ensures
        bits == check_givers(Position::holding(*board)),
{
    board.checkers().0
}

/// `Board::status`: `Ongoing` while `MoveGen::new_legal` yields a move; with
/// none, `Checkmate` where the checkers bitboard is not empty and `Stalemate`
/// where it is. What the generator asks of the board is said at
/// `board_legal_moves`.
#[verifier::external_body]
fn board_status(board: &Board) -> (status: Status)
    requires
        is_playable(Position::holding(*board)),
    ensures
        status == status_of(Position::holding(*board)),
{
    match board.status() {
        BoardStatus::Ongoing => Status::Ongoing,
        BoardStatus::Stalemate => Status::Stalemate,
        BoardStatus::Checkmate => Status::Checkmate,
    }
}

/// `MoveGen::new_legal`, run to its end: every legal move, each with the
/// numbers of its two squares, which are below 64. The generator looks up
/// the king of the side to move, so the board must be sound; and it keeps
/// one list entry for each man that can move and up to two more for captures
/// in passing, in a list of 18, so the side to move may have at most 16 men.
#[verifier::external_body]
fn board_legal_moves(board: &Board) -> (moves: Vec<Move>)
    requires
        is_playable(Position::holding(*board)),
    ensures
        moves@ == legal_moves_of(Position::holding(*board)),
        forall|i: int|
            0 <= i < moves@.len() ==> (#[trigger] moves@[i]).from < SQUARES && moves@[i].to
                < SQUARES,
{
    MoveGen::new_legal(board).map(
        |m| Move {
            from: m.get_source().to_int(),
            to: m.get_dest().to_int(),
            promotion: match m.get_promotion() {
                Some(Piece::Pawn) => Some(PieceKind::Pawn),
                Some(Piece::Knight) => Some(PieceKind::Knight),
                Some(Piece::Bishop) => Some(PieceKind::Bishop),
                Some(Piece::Rook) => Some(PieceKind::Rook),
                Some(Piece::Queen) => Some(PieceKind::Queen),
                Some(Piece::King) => Some(PieceKind::King),
                None => None,
            },
        },
    ).collect()
}

/// `Board::make_move_new` with a move that `MoveGen::new_legal` yields for the
/// board: the board after the move, in which the other side is to move.
/// Nothing is claimed of the men on it: the generator can yield a capture in
/// passing onto an occupied square, and the board after such a move does not
/// pass the rules engine's own test.
#[verifier::external_body]
fn board_after(board: &Board, mv: Move) -> (next: Board)
    requires
        mv.from < SQUARES,
        mv.to < SQUARES,
        is_playable(Position::holding(*board)),
        legal_moves_of(Position::holding(*board)).contains(mv),
    ensures
        Position::holding(next) == position_after(Position::holding(*board), mv),
        side_to_move_of(Position::holding(next)) == side_to_move_of(
            Position::holding(*board),
        ).opposite(),
{
    let promotion = match mv.promotion {
        Some(PieceKind::Pawn) => Some(Piece::Pawn),
        Some(PieceKind::Knight) => Some(Piece::Knight),
        Some(PieceKind::Bishop) => Some(Piece::Bishop),
        Some(PieceKind::Rook) => Some(Piece::Rook),
        Some(PieceKind::Queen) => Some(Piece::Queen),
        Some(PieceKind::King) => Some(Piece::King),
        None => None,
    };
    let from = ALL_SQUARES[mv.from as usize];
    board.make_move_new(ChessMove::new(from, ALL_SQUARES[mv.to as usize], promotion))
}

impl Position {
    /// The position that holds `board`.
    pub closed spec fn holding(board: Board) -> Position {
        Position { board }
    }

    /// Every position is playable.
    #[verifier::type_invariant]
    pub open spec fn playable(self) -> bool {
        is_playable(self)
    }

    /// The number of men of `side` on `board`.
    fn count_men(board: &Board, side: Side) -> (count: u8)
        ensures
            count == men(Position::holding(*board), side),
    {
        let mut count: u8 = 0;
        let mut square: u8 = 0;
        while square < SQUARES
            invariant
                square <= SQUARES,
                count <= square,
                count == men_below(Position::holding(*board), side, square as nat),
            decreases SQUARES - square,
        {
            let owner = board_color_on(board, square);
            if owner == Some(side) {
                count = count + 1;
            }
            square = square + 1;
        }
        count
    }

    /// The position on `board`, or `None` where the board is not sound or a
    /// side has more than 16 men on it.
    pub fn new(board: Board) -> (position: Option<Position>)
        ensures
            position is Some <==> is_playable(Position::holding(board)),
            position is Some ==> position.unwrap() == Position::holding(board),
    {
        let sane = board_is_sane(&board);
        let white = Position::count_men(&board, Side::White);
        let black = Position::count_men(&board, Side::Black);
        if sane && white <= MEN_PER_SIDE && black <= MEN_PER_SIDE {
            Some(Position { board })
        } else {
            None
        }
    }

    /// The side that moves next.
    pub fn side_to_move(&self) -> (side: Side)
        ensures
            side == side_to_move_of(*self),
    {
        board_side_to_move(&self.board)
    }

    /// Whether the side to move is in check.
    pub fn in_check(&self) -> (check: bool)
        ensures
            check == in_check(*self),
    {
        board_check_givers(&self.board) != 0
    }

    /// Whether the game goes on from here, and how it ended if not.
    pub fn status(&self) -> (status: Status)
        ensures
            status == status_of(*self),
    {
        proof {
            use_type_invariant(self);
        }
        board_status(&self.board)
    }

    /// Whether the side to move is checkmated.
    pub fn is_checkmate(&self) -> (mate: bool)
        ensures
            mate == is_checkmate(*self),
    {
        self.status() == Status::Checkmate
    }

    /// The legal moves, in the order in which the rules engine generates
    /// them. The squares of each are below 64.
    pub fn legal_moves(&self) -> (moves: Vec<Move>)
        ensures
            moves@ == legal_moves_of(*self),
            forall|i: int|
                0 <= i < moves@.len() ==> (#[trigger] moves@[i]).from < SQUARES && moves@[i].to
                    < SQUARES,
    {
        proof {
            use_type_invariant(self);
        }
        board_legal_moves(&self.board)
    }

    /// The position after the legal move `mv`, in which the other side is to
    /// move; `None` where that position is not playable.
    pub(crate) fn after_legal(&self, mv: Move) -> (next: Option<Position>)
        requires
            mv.from < SQUARES,
            mv.to < SQUARES,
            legal_moves_of(*self).contains(mv),
        ensures
            next is Some <==> is_playable(position_after(*self, mv)),
            next is Some ==> next.unwrap() == position_after(*self, mv),
            side_to_move_of(position_after(*self, mv)) == side_to_move_of(*self).opposite(),
    {
        proof {
            use_type_invariant(self);
        }
        Position::new(board_after(&self.board, mv))
    }

    /// The position after `mv`; `None` where `mv` is no reply here: where it
    /// is not legal, or leads to a position that is not playable.
    pub fn apply(&self, mv: Move) -> (next: Option<Position>)
        ensures
            next is Some <==> is_reply(*self, mv),
            next is Some ==> next.unwrap() == position_after(*self, mv),
    {
        let moves = self.legal_moves();
        let mut i: usize = 0;
        while i < moves.len()
            invariant
                i <= moves.len(),
                moves@ == legal_moves_of(*self),
                forall|j: int| 0 <= j < i ==> moves@[j] != mv,
                forall|j: int|
                    0 <= j < moves@.len() ==> (#[trigger] moves@[j]).from < SQUARES && moves@[j].to
                        < SQUARES,
            decreases moves.len() - i,
        {
            if moves[i] == mv {
                return self.after_legal(mv);
            }
            i = i + 1;
        }
        None
    }

    /// What the man on `square` adds to the material of `side`.
    fn weight_on(&self, side: Side, square: u8) -> (w: u32)
        requires
            square < SQUARES,
        ensures
            w == worth_on(*self, side, square),
            w <= 5,
    {
        if board_color_on(&self.board, square) == Some(side) {
            match board_piece_on(&self.board, square) {
                Some(kind) => kind.weight(),
                None => 0,
            }
        } else {
            0
        }
    }

    /// The material of `side`: the sum of the worth of its men.
    pub fn material(&self, side: Side) -> (total: u32)
        ensures
            total == material_of(*self, side),
    {
        let mut total: u32 = 0;
        let mut square: u8 = 0;
        while square < SQUARES
            invariant
                square <= SQUARES,
                total <= 5 * square,
                total == material_below(*self, side, square as nat),
            decreases SQUARES - square,
        {
            let w = self.weight_on(side, square);
            total = total + w;
            square = square + 1;
        }
        total
    }
}

} // verus!

use vstd::prelude::*;
use chess_engine::{Board, Color, Evaluate, Move, Piece, Position};
use crate::codec::{NEWLINE, has_no_newline};

verus! {

#[verifier::external_type_specification]
#[verifier::external_body]
pub struct ExBoard(Board);

#[verifier::external_type_specification]
#[verifier::external_body]
pub struct ExMove(Move);

/// One of the two players.
#[derive(Clone, Copy, Debug, PartialEq, Eq, Structural)]
pub enum Side {
    White,
    Black,
}

#[derive(Clone, Copy, Debug, PartialEq, Eq, Structural)]
pub enum PieceKind {
    King,
    Queen,
    Rook,
    Bishop,
    Knight,
    Pawn,
}

/// A piece standing on a square, with the material value the engine gives it.
#[derive(Clone, Copy, Debug, PartialEq, Eq, Structural)]
pub struct PieceOn {
    pub side: Side,
    pub kind: PieceKind,
    pub value: u32,
}

/// The legal moves of the side to move, in the engine's order.
pub uninterp spec fn legal_moves_of(b: Board) -> Seq<Move>;

/// The position after a move, with the other side to move.
pub uninterp spec fn after_move(b: Board, m: Move) -> Board;

/// Whether the side to move is checkmated.
pub uninterp spec fn checkmated(b: Board) -> bool;

/// Whether the game is drawn: no legal move without check, or too little
/// material on both sides.
pub uninterp spec fn stalemated(b: Board) -> bool;

/// The side to move.
pub uninterp spec fn turn_of(b: Board) -> Side;

/// The piece on a square (rows and columns counted from 0, White's first
/// rank being row 0).
pub uninterp spec fn content_of(b: Board, row: int, col: int) -> Option<PieceOn>;

/// The engine's complete textual rendering of a position.
pub uninterp spec fn rendering(b: Board) -> Seq<u8>;

/// Relies on `chess_engine::Board::default`: the standard starting position.
#[verifier::external_body]
pub(crate) fn starting_board() -> Board {
    Board::default()
}

/// Relies on `chess_engine::Evaluate::get_legal_moves` for `Board`. The engine's
/// `is_checkmate` and `is_stalemate` both hold where this list is empty and the
/// side to move is, or is not, in check: an empty list means the game is over.
#[verifier::external_body]
fn legal_moves(b: &Board) -> (r: Vec<Move>)
    ensures
        r@ == legal_moves_of(*b),
        r@.len() == 0 ==> checkmated(*b) || stalemated(*b),
{
    b.get_legal_moves()
}

/// Relies on `chess_engine::Evaluate::apply_eval_move` for `Board`: plays the move
/// and passes the turn.
#[verifier::external_body]
fn apply_move(b: &Board, m: &Move) -> (r: Board)
    ensures
        r == after_move(*b, *m),
{
    b.apply_eval_move(*m)
}

/// Relies on `chess_engine::Board::is_checkmate`.
#[verifier::external_body]
fn is_checkmate(b: &Board) -> (r: bool)
    ensures
        r == checkmated(*b),
{
    b.is_checkmate()
}

/// Relies on `chess_engine::Board::is_stalemate`.
#[verifier::external_body]
fn is_stalemate(b: &Board) -> (r: bool)
    ensures
        r == stalemated(*b),
{
    b.is_stalemate()
}

/// Relies on `chess_engine::Board::get_turn_color`.
#[verifier::external_body]
fn turn(b: &Board) -> (r: Side)
    ensures
        r == turn_of(*b),
{
    match b.get_turn_color() {
        Color::White => Side::White,
        Color::Black => Side::Black,
    }
}

/// Relies on `chess_engine::Board::get_piece`, which answers `None` off the
/// board, and on `chess_engine::Piece::get_material_value`, whose largest value
/// is the king's 99999.
#[verifier::external_body]
fn piece_at(b: &Board, row: i32, col: i32) -> (r: Option<PieceOn>)
    ensures
        r == content_of(*b, row as int, col as int),
        r matches Some(p) ==> p.value <= 99999,
{
    b.get_piece(Position::new(row, col)).map(|p| PieceOn {
        side: match p.get_color() {
            Color::White => Side::White,
            Color::Black => Side::Black,
        },
        kind: match p {
            Piece::King(..) => PieceKind::King,
            Piece::Queen(..) => PieceKind::Queen,
            Piece::Rook(..) => PieceKind::Rook,
            Piece::Bishop(..) => PieceKind::Bishop,
            Piece::Knight(..) => PieceKind::Knight,
            Piece::Pawn(..) => PieceKind::Pawn,
        },
        value: p.get_material_value() as u32,
    })
}

/// Relies on the `Debug` rendering of `chess_engine::Board`, which lists every
/// field of the position: squares, en-passant target, castling rights and turn.
#[verifier::external_body]
fn render(b: &Board) -> (r: Vec<u8>)
    ensures
        r@ == rendering(*b),
{
    format!("{:?}", b).into_bytes()
}

/// Whether the game is over in this position.
pub open spec fn terminated(b: Board) -> bool {
    checkmated(b) || stalemated(b)
}

/// The positions reachable in one legal move, in the engine's move order.
pub open spec fn successors_of(b: Board) -> Seq<Board> {
    legal_moves_of(b).map_values(|m: Move| after_move(b, m))
}

/// The points a piece counts for in the material heuristic: the engine's
/// material value, except that kings, always on the board, count for nothing.
pub open spec fn points(p: PieceOn) -> nat {
    if p.kind == PieceKind::King {
        0
    } else {
        p.value as nat
    }
}

/// The points of `side` on the first `n` squares, square `i` being on row
/// `i / 8` and column `i % 8`.
pub open spec fn material_on(b: Board, side: Side, n: nat) -> nat
    decreases n,
{
    if n == 0 {
        0
    } else {
        let i = (n - 1) as nat;
        let here = match content_of(b, (i / 8) as int, (i % 8) as int) {
            Some(p) => if p.side == side {
                points(p)
            } else {
                0
            },
            None => 0,
        };
        material_on(b, side, i) + here
    }
}

/// The material point total of `side`.
pub open spec fn material(b: Board, side: Side) -> nat {
    material_on(b, side, 64)
}

/// A byte of a position key: `/` becomes `|` so that a key can name a file,
/// and a newline becomes a space so that a key fits on one line.
pub open spec fn key_byte(c: u8) -> u8 {
    if c == 47 {
        124
    } else if c == NEWLINE {
        32
    } else {
        c
    }
}

/// The key under which a position's experience is kept.
pub open spec fn key_of(b: Board) -> Seq<u8> {
    rendering(b).map_values(|c: u8| key_byte(c))
}

/// The points a piece counts for.
pub fn piece_points(p: PieceOn) -> (r: u32)
    ensures
        r == points(p),
{
    match p.kind {
        PieceKind::King => 0,
        _ => p.value,
    }
}

/// The material point totals of White and Black.
pub fn material_totals(b: &Board) -> (r: (u32, u32))
    ensures
        r.0 == material(*b, Side::White),
        r.1 == material(*b, Side::Black),
{
    let mut white: u32 = 0;
    let mut black: u32 = 0;
    let mut i: u32 = 0;
    while i < 64
        invariant
            i <= 64,
            white == material_on(*b, Side::White, i as nat),
            black == material_on(*b, Side::Black, i as nat),
            white <= 99999 * i,
            black <= 99999 * i,
        decreases 64 - i,
    {
        let row: i32 = (i / 8) as i32;
        let col: i32 = (i % 8) as i32;
        match piece_at(b, row, col) {
            Some(p) => {
                let v = piece_points(p);
                match p.side {
                    Side::White => {
                        white = white + v;
                    },
                    Side::Black => {
                        black = black + v;
                    },
                }
            },
            None => {},
        }
        i = i + 1;
    }
    (white, black)
}

/// The positions reachable in one legal move, in the engine's move order.
/// Where the game is not over there is at least one.
pub fn successors(b: &Board) -> (r: Vec<Board>)
    ensures
        r@ == successors_of(*b),
        !terminated(*b) ==> r@.len() > 0,
{
    let moves = legal_moves(b);
    let mut r: Vec<Board> = Vec::new();
    let mut i: usize = 0;
    while i < moves.len()
        invariant
            i <= moves@.len(),
            moves@ == legal_moves_of(*b),
            r@ == moves@.take(i as int).map_values(|m: Move| after_move(*b, m)),
        decreases moves@.len() - i,
    {
        let next = apply_move(b, &moves[i]);
        r.push(next);
        i = i + 1;
        assert(r@ =~= moves@.take(i as int).map_values(|m: Move| after_move(*b, m)));
    }
    assert(moves@.take(i as int) =~= moves@);
    r
}

/// Whether the game is over: checkmate or stalemate.
pub fn is_over(b: &Board) -> (r: bool)
    ensures
        r == terminated(*b),
{
    is_checkmate(b) || is_stalemate(b)
}

/// Whether the side to move is checkmated.
pub fn is_mate(b: &Board) -> (r: bool)
    ensures
        r == checkmated(*b),
{
    is_checkmate(b)
}

/// The side to move.
pub fn side_to_move(b: &Board) -> (r: Side)
    ensures
        r == turn_of(*b),
{
    turn(b)
}

/// The key of a position: the engine's rendering of it, with `/` written
/// as `|` and newlines as spaces.
pub fn hash_gamestate(state: &Board) -> (r: Vec<u8>)
    ensures
        r@ == key_of(*state),
        has_no_newline(r@),
{
    let text = render(state);
    let mut r: Vec<u8> = Vec::new();
    let mut i: usize = 0;
    while i < text.len()
        invariant
            i <= text@.len(),
            text@ == rendering(*state),
            r@ == text@.take(i as int).map_values(|c: u8| key_byte(c)),
        decreases text@.len() - i,
    {
        let c = text[i];
        let k: u8 = if c == 47 {
            124
        } else if c == NEWLINE {
            32
        } else {
            c
        };
        r.push(k);
        i = i + 1;
        assert(r@ =~= text@.take(i as int).map_values(|c: u8| key_byte(c)));
    }
    assert(text@.take(i as int) =~= text@);
    assert(has_no_newline(r@)) by {
        assert forall|j: int| 0 <= j < r@.len() implies #[trigger] r@[j] != NEWLINE by {
            assert(r@[j] == key_byte(text@[j]));
        }
    }
    r
}

} // verus!

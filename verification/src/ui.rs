use vstd::prelude::*;
use crate::board::{Board, Piece, sq_index, on_board, first_occupant};
use crate::moves::{Move, ActivePiece, fully_legal, executed, from_sq, in_check};
use crate::movegen::{legal_moves, generate_legal_moves, is_checkmate, is_stalemate};
use crate::notation::{push_char, ascii};

verus! {

/// ASCII upper-case letters become lower case; every other character stays.
pub open spec fn lower(c: char) -> char {
    if 'A' <= c <= 'Z' { ((c as int) + 32) as char } else { c }
}

fn to_lower(c: char) -> (r: char)
    ensures
        r == lower(c),
{
    if c >= 'A' && c <= 'Z' {
        let b = c as u8;
        assert(b == c as int);
        (b + 32) as char
    } else {
        c
    }
}

/// `(rank, file)` of a square written as a file letter (either case) and a
/// rank digit, such as "e2"; `None` for anything else.
pub open spec fn parse_square_spec(s: Seq<char>) -> Option<(usize, usize)> {
    if s.len() != 2 {
        None
    } else {
        let f = lower(s[0]);
        let r = s[1];
        if 'a' <= f <= 'h' && '1' <= r <= '8' {
            Some((((r as int) - 49) as usize, ((f as int) - 97) as usize))
        } else {
            None
        }
    }
}

/// A robust helper to translate strings like "e2" into (Rank, File) tuples.
pub fn parse_square(square: &str) -> (r: Option<(usize, usize)>)
    ensures
        r == parse_square_spec(square@),
        r matches Some(sq) ==> on_board(sq),
{
    if square.unicode_len() != 2 {
        return None;
    }
    let file_char = to_lower(square.get_char(0));
    let rank_char = square.get_char(1);
    if !(file_char >= 'a' && file_char <= 'h') || !(rank_char >= '1' && rank_char <= '8') {
        return None;
    }
    let file = (file_char as u8 - 97u8) as usize;
    let rank = (rank_char as u8 - 49u8) as usize;
    Some((rank, file))
}

/// The piece a promotion answer names ("q", "r", "b" or "n", either case) in
/// the mover's colour.
pub open spec fn promotion_from_text_spec(s: Seq<char>, is_white: bool) -> Option<Piece> {
    if s.len() != 1 {
        None
    } else {
        let c = lower(s[0]);
        if c == 'q' {
            Some(if is_white { Piece::WhiteQueen } else { Piece::BlackQueen })
        } else if c == 'r' {
            Some(if is_white { Piece::WhiteRook } else { Piece::BlackRook })
        } else if c == 'b' {
            Some(if is_white { Piece::WhiteBishop } else { Piece::BlackBishop })
        } else if c == 'n' {
            Some(if is_white { Piece::WhiteKnight } else { Piece::BlackKnight })
        } else {
            None
        }
    }
}

/// Reads a promotion answer (already trimmed).
pub fn promotion_from_text(choice: &str, is_white: bool) -> (r: Option<Piece>)
    ensures
        r == promotion_from_text_spec(choice@, is_white),
{
    if choice.unicode_len() != 1 {
        return None;
    }
    let c = to_lower(choice.get_char(0));
    if c == 'q' {
        Some(if is_white { Piece::WhiteQueen } else { Piece::BlackQueen })
    } else if c == 'r' {
        Some(if is_white { Piece::WhiteRook } else { Piece::BlackRook })
    } else if c == 'b' {
        Some(if is_white { Piece::WhiteBishop } else { Piece::BlackBishop })
    } else if c == 'n' {
        Some(if is_white { Piece::WhiteKnight } else { Piece::BlackKnight })
    } else {
        None
    }
}


/// Reads two squares from the user and turns them into moves on a board.
pub struct MoveListener {
    pub original_square: (usize, usize),
    pub new_square: (usize, usize),
    /// true for white, false for black
    pub current_player: bool,
}

/// The kind of the first piece of the given colour on a square.
pub open spec fn own_piece_on(bb: Seq<u64>, sq: (usize, usize), white: bool) -> Option<Piece> {
    match (if white { first_occupant(bb, 0, 6, sq_index(sq)) } else { first_occupant(bb, 6, 12, sq_index(sq)) }) {
        Some(i) => Piece::from_id(i),
        None => None,
    }
}

/// A pawn reaching the last rank must be promoted.
pub open spec fn is_promotion(pt: Piece, to: (usize, usize)) -> bool {
    (pt == Piece::WhitePawn && to.0 == 7) || (pt == Piece::BlackPawn && to.0 == 0)
}

/// What became of a move the user entered.
#[derive(Copy, Clone, PartialEq, Eq, Debug, Structural)]
pub enum TurnOutcome {
    /// No piece of the player on the original square.
    NoPiece,
    /// The piece belongs to the other side.
    NotYourTurn,
    /// The move is not legal.
    Illegal,
    /// The move was made and the turn passed.
    Executed,
}

/// Whether the side to move can go on.
#[derive(Copy, Clone, PartialEq, Eq, Debug, Structural)]
pub enum GameStatus {
    Ongoing,
    Checkmate,
    Stalemate,
}

impl MoveListener {
    pub fn new() -> (r: Self)
        ensures
            r.original_square == (0usize, 0usize),
            r.new_square == (0usize, 0usize),
            r.current_player,
    {
        MoveListener { original_square: (0, 0), new_square: (0, 0), current_player: true }
    }

    /// The kind standing on the original square, if it is the current player's.
    fn moving_piece(&self, board: &Board) -> (r: Option<Piece>)
        requires
            sq_index(self.original_square) < 64,
        ensures
            r == own_piece_on(board@.bb, self.original_square, self.current_player),
    {
        match board.get_piece_at((self.original_square.0, self.original_square.1), self.current_player) {
            Some(piece) => Piece::from_usize(piece),
            None => None,
        }
    }

    /// The entered move needs a promotion piece: the current player's pawn
    /// stands on the original square and reaches the last rank.
    pub fn promotion_required(&self, board: &Board) -> (r: bool)
        requires
            sq_index(self.original_square) < 64,
        ensures
            r == (own_piece_on(board@.bb, self.original_square, self.current_player) matches Some(p)
                && is_promotion(p, self.new_square)),
    {
        match self.moving_piece(board) {
            Some(piece_type) => match piece_type {
                Piece::WhitePawn => self.new_square.0 == 7,
                Piece::BlackPawn => self.new_square.0 == 0,
                _ => false,
            },
            None => false,
        }
    }

    /// The move from the original to the new square by the current player's
    /// piece, `None` if there is none. A promotion uses `promotion_choice`;
    /// any other move has no promotion piece.
    pub fn convert_to_move(&self, board: &Board, promotion_choice: Option<Piece>) -> (r: Option<Move>)
        requires
            sq_index(self.original_square) < 64,
        ensures
            match own_piece_on(board@.bb, self.original_square, self.current_player) {
                Some(p) => r == Some(
                    Move {
                        piece: ActivePiece {
                            piece_type: p,
                            from_rank: self.original_square.0,
                            from_file: self.original_square.1,
                        },
                        to: self.new_square,
                        promotion: if is_promotion(p, self.new_square) { promotion_choice } else { None },
                    },
                ),
                None => r is None,
            },
    {
        let piece_type = match self.moving_piece(board) {
            Some(piece) => piece,
            None => return None,
        };
        let active_piece = ActivePiece {
            piece_type,
            from_rank: self.original_square.0,
            from_file: self.original_square.1,
        };
        // A promotion piece is required exactly when a pawn reaches the back rank.
        let is_promotion = match piece_type {
            Piece::WhitePawn => self.new_square.0 == 7,
            Piece::BlackPawn => self.new_square.0 == 0,
            _ => false,
        };
        let promotion = if is_promotion { promotion_choice } else { None };
        Some(Move { piece: active_piece, to: self.new_square, promotion })
    }

    /// Plays an entered move: refused when there is none, when it moves the
    /// other side's piece, or when it is not fully legal; otherwise made, and
    /// the turn passes.
    pub fn play_move(&mut self, board: &mut Board, mv: Option<Move>) -> (r: TurnOutcome)
        requires
            mv matches Some(m) ==> on_board(from_sq(m)),
        ensures
            match mv {
                None => r == TurnOutcome::NoPiece,
                Some(m) => if m.piece.piece_type.white() != old(self).current_player {
                    r == TurnOutcome::NotYourTurn
                } else if fully_legal(old(board)@, m) {
                    r == TurnOutcome::Executed
                } else {
                    r == TurnOutcome::Illegal
                },
            },
            r == TurnOutcome::Executed ==> final(board)@ == executed(old(board)@, mv.unwrap())
                && final(self).current_player == !old(self).current_player,
            r != TurnOutcome::Executed ==> *final(board) == *old(board) && final(self).current_player
                == old(self).current_player,
            final(self).original_square == old(self).original_square,
            final(self).new_square == old(self).new_square,
    {
        match mv {
            Some(mv) => {
                if mv.piece.piece_type.is_white() != self.current_player {
                    return TurnOutcome::NotYourTurn;
                }
                if mv.is_legal(board) {
                    proof { crate::moves::lemma_legal_in_range(board@, mv); }
                    mv.execute_move(board);
                    self.current_player = !self.current_player;
                    TurnOutcome::Executed
                } else {
                    TurnOutcome::Illegal
                }
            },
            None => TurnOutcome::NoPiece,
        }
    }

    /// Checkmate or stalemate of the player to move, if either.
    pub fn game_status(&self, board: &Board) -> (r: GameStatus)
        ensures
            r == (if in_check(board@, self.current_player) && legal_moves(board@, self.current_player).len() == 0 {
                GameStatus::Checkmate
            } else if !in_check(board@, self.current_player) && legal_moves(board@, self.current_player).len() == 0 {
                GameStatus::Stalemate
            } else {
                GameStatus::Ongoing
            }),
    {
        if is_checkmate(board, self.current_player) {
            GameStatus::Checkmate
        } else if is_stalemate(board, self.current_player) {
            GameStatus::Stalemate
        } else {
            GameStatus::Ongoing
        }
    }
}

/// The byte of a character's code (its low eight bits).
pub open spec fn byte_of(c: char) -> int {
    (c as int) % 256
}

/// Coordinate from a character: its byte minus `base`, or 0 below `base`.
pub open spec fn coord_of(c: char, base: int) -> int {
    if byte_of(c) >= base { byte_of(c) - base } else { 0 }
}

fn coord(c: char, base: u8) -> (r: usize)
    ensures
        r == coord_of(c, base as int),
{
    let code = c as u32;
    let b: u8 = #[verifier::truncate] (code as u8);
    assert(b == code % 256) by (bit_vector)
        requires b == #[verifier::truncate] (code as u8);
    b.saturating_sub(base) as usize
}

/// The move has the given origin and destination squares.
pub open spec fn joins(m: Move, fr: int, ff: int, tr: int, tf: int) -> bool {
    m.piece.from_file == ff && m.piece.from_rank == fr && m.to.1 == tf && m.to.0 == tr
}

/// A promotion letter names the piece kind: `q`, `r`, `b` or `n` (either
/// case) for queen, rook, bishop or knight of either colour. Any other
/// character names no kind and so excludes none.
pub open spec fn names_kind(c: char, p: Piece) -> bool {
    let l = lower(c);
    if l == 'q' {
        p == Piece::WhiteQueen || p == Piece::BlackQueen
    } else if l == 'r' {
        p == Piece::WhiteRook || p == Piece::BlackRook
    } else if l == 'b' {
        p == Piece::WhiteBishop || p == Piece::BlackBishop
    } else if l == 'n' {
        p == Piece::WhiteKnight || p == Piece::BlackKnight
    } else {
        true
    }
}

/// The move agrees with the promotion letter sent with it, if any: a
/// promoting move must promote to the kind the letter names.
pub open spec fn gui_accepts(m: Move, letter: Option<char>) -> bool {
    match (m.promotion, letter) {
        (Some(p), Some(c)) => names_kind(c, p),
        _ => true,
    }
}

/// The fifth character of the text, the promotion letter, when there is one.
pub open spec fn promotion_letter(s: Seq<char>) -> Option<char> {
    if s.len() >= 5 { Some(s[4]) } else { None }
}

fn accepts_letter(m: &Move, letter: Option<char>) -> (r: bool)
    ensures
        r == gui_accepts(*m, letter),
{
    match (m.promotion, letter) {
        (Some(p), Some(c)) => {
            let l = to_lower(c);
            if l == 'q' {
                matches!(p, Piece::WhiteQueen | Piece::BlackQueen)
            } else if l == 'r' {
                matches!(p, Piece::WhiteRook | Piece::BlackRook)
            } else if l == 'b' {
                matches!(p, Piece::WhiteBishop | Piece::BlackBishop)
            } else if l == 'n' {
                matches!(p, Piece::WhiteKnight | Piece::BlackKnight)
            } else {
                true
            }
        },
        _ => true,
    }
}

/// Turns text like "e2e4" or "a7a8n" into the first legal move of the side to
/// move between those squares that agrees with the promotion letter, if one
/// is sent.
pub fn parse_gui_move(move_str: &str, board: &Board, is_white: bool) -> (r: Option<Move>)
    ensures
        move_str@.len() < 4 ==> r is None,
        move_str@.len() >= 4 ==> {
            let s = move_str@;
            let ff = coord_of(s[0], 97);
            let fr = coord_of(s[1], 49);
            let tf = coord_of(s[2], 97);
            let tr = coord_of(s[3], 49);
            let pl = promotion_letter(s);
            let ms = legal_moves(board@, is_white);
            match r {
                Some(m) => exists|i: int| 0 <= i < ms.len() && ms[i] == m && joins(m, fr, ff, tr, tf)
                    && gui_accepts(m, pl)
                    && forall|j: int| 0 <= j < i ==> !(joins(#[trigger] ms[j], fr, ff, tr, tf) && gui_accepts(ms[j], pl)),
                None => forall|i: int| 0 <= i < ms.len() ==> !(joins(#[trigger] ms[i], fr, ff, tr, tf) && gui_accepts(ms[i], pl)),
            }
        },
{
    let len = move_str.unicode_len();
    if len < 4 {
        return None;
    }
    let from_file = coord(move_str.get_char(0), 97);
    let from_rank = coord(move_str.get_char(1), 49);
    let to_file = coord(move_str.get_char(2), 97);
    let to_rank = coord(move_str.get_char(3), 49);
    let letter = if len >= 5 { Some(move_str.get_char(4)) } else { None };
    let legal_moves = generate_legal_moves(board, is_white);
    let mut i: usize = 0;
    while i < legal_moves.len()
        invariant
            i <= legal_moves@.len(),
            move_str@.len() >= 4,
            from_file == coord_of(move_str@[0], 97),
            from_rank == coord_of(move_str@[1], 49),
            to_file == coord_of(move_str@[2], 97),
            to_rank == coord_of(move_str@[3], 49),
            letter == promotion_letter(move_str@),
            legal_moves@ == crate::movegen::legal_moves(board@, is_white),
            forall|j: int| 0 <= j < i ==> !(joins(#[trigger] legal_moves@[j], from_rank as int, from_file as int, to_rank as int, to_file as int)
                && gui_accepts(legal_moves@[j], letter)),
        decreases legal_moves@.len() - i,
    {
        let mv = legal_moves[i];
        if mv.piece.from_file == from_file && mv.piece.from_rank == from_rank && mv.to.1 == to_file
            && mv.to.0 == to_rank && accepts_letter(&mv, letter) {
            assert(legal_moves@[i as int] == mv);
            return Some(mv);
        }
        i += 1;
    }
    None
}

/// What the game loop does after a turn.
#[derive(Copy, Clone, PartialEq, Eq, Debug, Structural)]
pub enum LoopStep {
    /// A move was made; the other side is to move.
    Played,
    /// The human's text named no legal move: wait for another.
    AwaitAgain,
    /// The engine's side has no move: the game is over.
    GameOver,
}

/// One turn of the game in which the human plays white against the engine.
/// The chosen move (the human's parsed move on white's turn, the engine's
/// answer on black's) is made and the turn passes. Without one, white is
/// asked again, while black having no move ends the game.
pub fn game_turn(board: &mut Board, white_turn: &mut bool, chosen: Option<Move>) -> (r: LoopStep)
    requires
        chosen matches Some(m) ==> crate::movegen::playable(m),
    ensures
        match chosen {
            Some(m) => r == LoopStep::Played && final(board)@ == executed(old(board)@, m)
                && *final(white_turn) == !*old(white_turn),
            None => r == (if *old(white_turn) { LoopStep::AwaitAgain } else { LoopStep::GameOver })
                && *final(board) == *old(board) && *final(white_turn) == *old(white_turn),
        },
{
    match chosen {
        Some(m) => {
            proof { crate::movegen::lemma_playable(board@, m); }
            board.make_move(&m);
            *white_turn = !*white_turn;
            LoopStep::Played
        },
        None => if *white_turn { LoopStep::AwaitAgain } else { LoopStep::GameOver },
    }
}

/// A move as the viewer expects it: origin file letter and rank number, then
/// destination file letter and rank number, such as "e7e5".
pub open spec fn move_text_spec(mv: Move) -> Seq<char> {
    seq![
        ascii(97 + mv.piece.from_file),
        ascii(49 + mv.piece.from_rank),
        ascii(97 + mv.to.1),
        ascii(49 + mv.to.0),
    ]
}

pub fn move_text(mv: &Move) -> (r: String)
    requires
        on_board(from_sq(*mv)),
        on_board(mv.to),
    ensures
        r@ == move_text_spec(*mv),
{
    let mut s = String::new();
    push_char(&mut s, (97u8 + mv.piece.from_file as u8) as char);
    push_char(&mut s, (49u8 + mv.piece.from_rank as u8) as char);
    push_char(&mut s, (97u8 + mv.to.1 as u8) as char);
    push_char(&mut s, (49u8 + mv.to.0 as u8) as char);
    s
}


/// Reading back the name of a board square gives the square.
pub proof fn lemma_parse_algebraic(rank: usize, file: usize)
    requires
        on_board((rank, file)),
    ensures
        parse_square_spec(crate::notation::algebraic(rank as int, file as int)) == Some((rank, file)),
{
    let s = crate::notation::algebraic(rank as int, file as int);
    assert(s[0] == ascii(97 + file as int));
    assert('a' <= s[0] <= 'h');
    assert(lower(s[0]) == s[0]);
}

/// A side is never both checkmated and stalemated.
pub proof fn lemma_mate_or_stalemate(b: crate::board::BoardView, white: bool)
    ensures
        !((in_check(b, white) && legal_moves(b, white).len() == 0) && (!in_check(b, white) && legal_moves(b, white).len() == 0)),
{
}

} // verus!

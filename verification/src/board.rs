use vstd::prelude::*;
use crate::bits::{has_bit, lemma_mask_test, lemma_has_bit_ext, lemma_clear_bit, lemma_set_bit};
use crate::moves::{
    Move, executed, move_in_range, is_ep_capture, ep_capture_rank, landing_piece, is_castle_move,
    castle_rook_files, from_sq, abs_isize, square_mask, legal_shape, clear_squares, color_occ, castle_legal,
};
use std::ops::Range;

verus! {

// Starting placement of each piece kind, one bit per square (a1 = bit 0, h8 = bit 63).
pub const INITIAL_WHITE_PAWNS_MASK: u64 = 0x0000_0000_0000_FF00;
pub const INITIAL_WHITE_ROOKS_MASK: u64 = 0x0000_0000_0000_0081;
pub const INITIAL_WHITE_KNIGHTS_MASK: u64 = 0x0000_0000_0000_0042;
pub const INITIAL_WHITE_BISHOPS_MASK: u64 = 0x0000_0000_0000_0024;
pub const INITIAL_WHITE_QUEENS_MASK: u64 = 0x0000_0000_0000_0008;
pub const INITIAL_WHITE_KING_MASK: u64 = 0x0000_0000_0000_0010;
pub const INITIAL_BLACK_PAWNS_MASK: u64 = 0x00FF_0000_0000_0000;
pub const INITIAL_BLACK_ROOKS_MASK: u64 = 0x8100_0000_0000_0000;
pub const INITIAL_BLACK_KNIGHTS_MASK: u64 = 0x4200_0000_0000_0000;
pub const INITIAL_BLACK_BISHOPS_MASK: u64 = 0x2400_0000_0000_0000;
pub const INITIAL_BLACK_QUEENS_MASK: u64 = 0x0800_0000_0000_0000;
pub const INITIAL_BLACK_KING_MASK: u64 = 0x1000_0000_0000_0000;

/// The twelve piece kinds; white kinds come first, then the black ones, in the
/// order pawn, knight, bishop, rook, queen, king.
#[derive(Copy, Clone, PartialEq, Eq, Debug, Structural)]
pub enum Piece {
    WhitePawn,
    WhiteKnight,
    WhiteBishop,
    WhiteRook,
    WhiteQueen,
    WhiteKing,
    BlackPawn,
    BlackKnight,
    BlackBishop,
    BlackRook,
    BlackQueen,
    BlackKing,
}

impl Piece {
    /// The position of the piece kind in the board's array of bitboards.
    pub open spec fn id(self) -> int {
        match self {
            Piece::WhitePawn => 0,
            Piece::WhiteKnight => 1,
            Piece::WhiteBishop => 2,
            Piece::WhiteRook => 3,
            Piece::WhiteQueen => 4,
            Piece::WhiteKing => 5,
            Piece::BlackPawn => 6,
            Piece::BlackKnight => 7,
            Piece::BlackBishop => 8,
            Piece::BlackRook => 9,
            Piece::BlackQueen => 10,
            Piece::BlackKing => 11,
        }
    }

    /// The piece kind at position `i` of the board's array of bitboards.
    pub open spec fn from_id(i: int) -> Option<Piece> {
        if i == 0 {
            Some(Piece::WhitePawn)
        } else if i == 1 {
            Some(Piece::WhiteKnight)
        } else if i == 2 {
            Some(Piece::WhiteBishop)
        } else if i == 3 {
            Some(Piece::WhiteRook)
        } else if i == 4 {
            Some(Piece::WhiteQueen)
        } else if i == 5 {
            Some(Piece::WhiteKing)
        } else if i == 6 {
            Some(Piece::BlackPawn)
        } else if i == 7 {
            Some(Piece::BlackKnight)
        } else if i == 8 {
            Some(Piece::BlackBishop)
        } else if i == 9 {
            Some(Piece::BlackRook)
        } else if i == 10 {
            Some(Piece::BlackQueen)
        } else if i == 11 {
            Some(Piece::BlackKing)
        } else {
            None
        }
    }

    pub open spec fn white(self) -> bool {
        self.id() < 6
    }

    pub open spec fn is_pawn(self) -> bool {
        self == Piece::WhitePawn || self == Piece::BlackPawn
    }

    pub open spec fn is_king(self) -> bool {
        self == Piece::WhiteKing || self == Piece::BlackKing
    }

    pub proof fn lemma_id(self)
        ensures
            0 <= self.id() < 12,
            Piece::from_id(self.id()) == Some(self),
    {
    }

    pub proof fn lemma_from_id(i: int)
        requires
            0 <= i < 12,
        ensures
            Piece::from_id(i) is Some,
            Piece::from_id(i).unwrap().id() == i,
    {
    }

    /// The position of the piece kind in the board's array of bitboards.
    pub fn as_index(&self) -> (r: usize)
        ensures
            r == self.id(),
    {
        match self {
            Piece::WhitePawn => 0,
            Piece::WhiteKnight => 1,
            Piece::WhiteBishop => 2,
            Piece::WhiteRook => 3,
            Piece::WhiteQueen => 4,
            Piece::WhiteKing => 5,
            Piece::BlackPawn => 6,
            Piece::BlackKnight => 7,
            Piece::BlackBishop => 8,
            Piece::BlackRook => 9,
            Piece::BlackQueen => 10,
            Piece::BlackKing => 11,
        }
    }

    /// The six kinds of one colour, pawn first and king last.
    pub fn all_of_color(white: bool) -> (r: [Piece; 6])
        ensures
            forall|i: int| 0 <= i < 6 ==> #[trigger] r[i].id() == if white { i } else { i + 6 },
    {
        if white {
            [
                Piece::WhitePawn,
                Piece::WhiteKnight,
                Piece::WhiteBishop,
                Piece::WhiteRook,
                Piece::WhiteQueen,
                Piece::WhiteKing,
            ]
        } else {
            [
                Piece::BlackPawn,
                Piece::BlackKnight,
                Piece::BlackBishop,
                Piece::BlackRook,
                Piece::BlackQueen,
                Piece::BlackKing,
            ]
        }
    }

    pub fn is_white(&self) -> (r: bool)
        ensures
            r == self.white(),
    {
        self.as_index() < 6
    }

    /// Bitboard positions of the opposing colour's kinds.
    pub fn enemy_indices(&self) -> (r: Range<usize>)
        ensures
            r.start == (if self.white() { 6usize } else { 0usize }),
            r.end == (if self.white() { 12usize } else { 6usize }),
    {
        if self.is_white() {
            6..12
        } else {
            0..6
        }
    }

    /// Bitboard positions of this colour's kinds.
    pub fn friendly_indices(&self) -> (r: Range<usize>)
        ensures
            r.start == (if self.white() { 0usize } else { 6usize }),
            r.end == (if self.white() { 6usize } else { 12usize }),
    {
        if self.is_white() {
            0..6
        } else {
            6..12
        }
    }

    /// The kind stored at bitboard position `value`, or `None` past the last one.
    pub fn from_usize(value: usize) -> (r: Option<Piece>)
        ensures
            r == Piece::from_id(value as int),
            r is Some <==> value < 12,
            r matches Some(p) ==> p.id() == value,
    {
        match value {
            0 => Some(Piece::WhitePawn),
            1 => Some(Piece::WhiteKnight),
            2 => Some(Piece::WhiteBishop),
            3 => Some(Piece::WhiteRook),
            4 => Some(Piece::WhiteQueen),
            5 => Some(Piece::WhiteKing),
            6 => Some(Piece::BlackPawn),
            7 => Some(Piece::BlackKnight),
            8 => Some(Piece::BlackBishop),
            9 => Some(Piece::BlackRook),
            10 => Some(Piece::BlackQueen),
            11 => Some(Piece::BlackKing),
            _ => None,
        }
    }
}

#[derive(Copy, Clone, PartialEq, Eq, Debug, Structural)]
pub struct CastlingRights {
    pub white_kingside: bool,
    pub white_queenside: bool,
    pub black_kingside: bool,
    pub black_queenside: bool,
}

/// A position: one bitboard per piece kind, the square a pawn may be captured
/// on en passant, and the remaining castling rights. Squares are `(rank, file)`
/// with rank and file in `0..8`; square `(r, f)` is bit `8 * r + f`.
#[derive(Copy, Clone)]
pub struct Board {
    pub bitboards: [u64; 12],
    pub en_passant_target: Option<(usize, usize)>,
    pub castling_rights: CastlingRights,
}

/// The mathematical content of a `Board`.
pub struct BoardView {
    pub bb: Seq<u64>,
    pub ep: Option<(usize, usize)>,
    pub rights: CastlingRights,
}

impl View for Board {
    type V = BoardView;

    open spec fn view(&self) -> BoardView {
        BoardView { bb: self.bitboards@, ep: self.en_passant_target, rights: self.castling_rights }
    }
}

/// What `make_move` saves so that `unmake_move` can restore the position.
pub struct UndoInfo {
    pub captured_piece: Option<Piece>,
    pub previous_castling_rights: CastlingRights,
    pub previous_en_passant_target: Option<(usize, usize)>,
    pub captured_square: Option<(usize, usize)>,
}

impl UndoInfo {
    pub fn new(
        captured_piece: Option<Piece>,
        previous_castling_rights: CastlingRights,
        previous_en_passant_target: Option<(usize, usize)>,
        captured_square: Option<(usize, usize)>,
    ) -> (r: Self)
        ensures
            r.captured_piece == captured_piece,
            r.previous_castling_rights == previous_castling_rights,
            r.previous_en_passant_target == previous_en_passant_target,
            r.captured_square == captured_square,
    {
        UndoInfo {
            captured_piece,
            previous_castling_rights,
            previous_en_passant_target,
            captured_square,
        }
    }
}

/// Square `(rank, file)` as a bit position.
pub open spec fn sq_index(sq: (usize, usize)) -> int {
    sq.0 * 8 + sq.1
}

pub open spec fn on_board(sq: (usize, usize)) -> bool {
    sq.0 < 8 && sq.1 < 8
}

/// Union of the white bitboards.
pub open spec fn white_occ(bb: Seq<u64>) -> u64 {
    bb[0] | bb[1] | bb[2] | bb[3] | bb[4] | bb[5]
}

/// Union of the black bitboards.
pub open spec fn black_occ(bb: Seq<u64>) -> u64 {
    bb[6] | bb[7] | bb[8] | bb[9] | bb[10] | bb[11]
}

/// Union of all twelve bitboards.
pub open spec fn all_occ(bb: Seq<u64>) -> u64 {
    bb[0] | bb[1] | bb[2] | bb[3] | bb[4] | bb[5] | bb[6] | bb[7] | bb[8] | bb[9] | bb[10] | bb[11]
}

/// Some bitboard at a position in `lo..hi` holds square `sq`.
pub open spec fn occupied_in(bb: Seq<u64>, lo: int, hi: int, sq: int) -> bool {
    exists|i: int| lo <= i < hi && #[trigger] has_bit(bb[i], sq)
}

pub proof fn lemma_occ(bb: Seq<u64>, sq: int)
    requires
        bb.len() == 12,
        0 <= sq < 64,
    ensures
        has_bit(white_occ(bb), sq) <==> occupied_in(bb, 0, 6, sq),
        has_bit(black_occ(bb), sq) <==> occupied_in(bb, 6, 12, sq),
        has_bit(all_occ(bb), sq) <==> occupied_in(bb, 0, 12, sq),
        all_occ(bb) == white_occ(bb) | black_occ(bb),
{
    let j = sq as u64;
    let (b0, b1, b2, b3, b4, b5) = (bb[0], bb[1], bb[2], bb[3], bb[4], bb[5]);
    let (b6, b7, b8, b9, b10, b11) = (bb[6], bb[7], bb[8], bb[9], bb[10], bb[11]);
    assert(((b0 | b1 | b2 | b3 | b4 | b5) >> j) & 1u64 == 1u64 <==> ((b0 >> j) & 1u64 == 1u64
        || (b1 >> j) & 1u64 == 1u64 || (b2 >> j) & 1u64 == 1u64 || (b3 >> j) & 1u64 == 1u64
        || (b4 >> j) & 1u64 == 1u64 || (b5 >> j) & 1u64 == 1u64)) by (bit_vector);
    assert(((b6 | b7 | b8 | b9 | b10 | b11) >> j) & 1u64 == 1u64 <==> ((b6 >> j) & 1u64 == 1u64
        || (b7 >> j) & 1u64 == 1u64 || (b8 >> j) & 1u64 == 1u64 || (b9 >> j) & 1u64 == 1u64
        || (b10 >> j) & 1u64 == 1u64 || (b11 >> j) & 1u64 == 1u64)) by (bit_vector);
    assert(b0 | b1 | b2 | b3 | b4 | b5 | b6 | b7 | b8 | b9 | b10 | b11 == (b0 | b1 | b2 | b3 | b4
        | b5) | (b6 | b7 | b8 | b9 | b10 | b11)) by (bit_vector);
    assert(((b0 | b1 | b2 | b3 | b4 | b5) | (b6 | b7 | b8 | b9 | b10 | b11)) >> j & 1u64 == 1u64
        <==> (((b0 | b1 | b2 | b3 | b4 | b5) >> j) & 1u64 == 1u64 || ((b6 | b7 | b8 | b9 | b10
        | b11) >> j) & 1u64 == 1u64)) by (bit_vector);
    if occupied_in(bb, 0, 6, sq) {
        let i = choose|i: int| 0 <= i < 6 && #[trigger] has_bit(bb[i], sq);
        assert(has_bit(bb[i], sq));
    }
    if occupied_in(bb, 6, 12, sq) {
        let i = choose|i: int| 6 <= i < 12 && #[trigger] has_bit(bb[i], sq);
        assert(has_bit(bb[i], sq));
    }
    if has_bit(white_occ(bb), sq) {
        if has_bit(bb[0], sq) {} else if has_bit(bb[1], sq) {} else if has_bit(bb[2], sq) {}
        else if has_bit(bb[3], sq) {} else if has_bit(bb[4], sq) {} else { assert(has_bit(bb[5], sq)); }
    }
    if has_bit(black_occ(bb), sq) {
        if has_bit(bb[6], sq) {} else if has_bit(bb[7], sq) {} else if has_bit(bb[8], sq) {}
        else if has_bit(bb[9], sq) {} else if has_bit(bb[10], sq) {} else { assert(has_bit(bb[11], sq)); }
    }
}


/// The first bitboard position in `lo..hi` that holds square `sq`, if any.
pub open spec fn first_occupant(bb: Seq<u64>, lo: int, hi: int, sq: int) -> Option<int> {
    if occupied_in(bb, lo, hi, sq) {
        Some(choose|i: int| lo <= i < hi && has_bit(bb[i], sq) && forall|j: int| lo <= j < i ==> !#[trigger] has_bit(bb[j], sq))
    } else {
        None
    }
}

pub proof fn lemma_first_occupant(bb: Seq<u64>, lo: int, hi: int, sq: int, i: int)
    requires
        lo <= i < hi,
        has_bit(bb[i], sq),
        forall|j: int| lo <= j < i ==> !#[trigger] has_bit(bb[j], sq),
    ensures
        first_occupant(bb, lo, hi, sq) == Some(i),
{
    assert(occupied_in(bb, lo, hi, sq));
    let k = choose|k: int| lo <= k < hi && has_bit(bb[k], sq) && forall|j: int| lo <= j < k ==> !#[trigger] has_bit(bb[j], sq);
    assert(lo <= k < hi && has_bit(bb[k], sq) && forall|j: int| lo <= j < k ==> !#[trigger] has_bit(bb[j], sq));
    if k < i {
        assert(!has_bit(bb[k], sq));
    }
    if i < k {
        assert(!has_bit(bb[i], sq));
    }
}

impl Board {
    /// The bitboard of one piece kind.
    pub fn bitboard(&self, piece: Piece) -> (r: u64)
        ensures
            r == self.bitboards[piece.id()],
    {
        self.bitboards[piece.as_index()]
    }

    /// Replaces the bitboard of one piece kind.
    pub fn set_bitboard(&mut self, piece: Piece, value: u64)
        ensures
            final(self).bitboards@ == old(self).bitboards@.update(piece.id(), value),
            final(self).en_passant_target == old(self).en_passant_target,
            final(self).castling_rights == old(self).castling_rights,
    {
        self.bitboards[piece.as_index()] = value;
    }

    pub fn get_black_indices() -> (r: Range<usize>)
        ensures
            r.start == 5usize,
            r.end == 11usize,
    {
        5..11
    }

    pub fn get_white_indices() -> (r: Range<usize>)
        ensures
            r.start == 0usize,
            r.end == 5usize,
    {
        0..5
    }

    /// The standard starting position, with every castling right and no en
    /// passant square.
    pub fn new() -> (board: Self)
        ensures
            board.bitboards@ == seq![
                INITIAL_WHITE_PAWNS_MASK,
                INITIAL_WHITE_KNIGHTS_MASK,
                INITIAL_WHITE_BISHOPS_MASK,
                INITIAL_WHITE_ROOKS_MASK,
                INITIAL_WHITE_QUEENS_MASK,
                INITIAL_WHITE_KING_MASK,
                INITIAL_BLACK_PAWNS_MASK,
                INITIAL_BLACK_KNIGHTS_MASK,
                INITIAL_BLACK_BISHOPS_MASK,
                INITIAL_BLACK_ROOKS_MASK,
                INITIAL_BLACK_QUEENS_MASK,
                INITIAL_BLACK_KING_MASK,
            ],
            board.en_passant_target is None,
            board.castling_rights == (CastlingRights {
                white_kingside: true,
                white_queenside: true,
                black_kingside: true,
                black_queenside: true,
            }),
    {
        let mut board = Board {
            bitboards: [0; 12],
            en_passant_target: None,
            castling_rights: CastlingRights {
                white_kingside: true,
                white_queenside: true,
                black_kingside: true,
                black_queenside: true,
            },
        };
        board.set_bitboard(Piece::WhitePawn, INITIAL_WHITE_PAWNS_MASK);
        board.set_bitboard(Piece::WhiteKnight, INITIAL_WHITE_KNIGHTS_MASK);
        board.set_bitboard(Piece::WhiteBishop, INITIAL_WHITE_BISHOPS_MASK);
        board.set_bitboard(Piece::WhiteRook, INITIAL_WHITE_ROOKS_MASK);
        board.set_bitboard(Piece::WhiteQueen, INITIAL_WHITE_QUEENS_MASK);
        board.set_bitboard(Piece::WhiteKing, INITIAL_WHITE_KING_MASK);
        board.set_bitboard(Piece::BlackPawn, INITIAL_BLACK_PAWNS_MASK);
        board.set_bitboard(Piece::BlackKnight, INITIAL_BLACK_KNIGHTS_MASK);
        board.set_bitboard(Piece::BlackBishop, INITIAL_BLACK_BISHOPS_MASK);
        board.set_bitboard(Piece::BlackRook, INITIAL_BLACK_ROOKS_MASK);
        board.set_bitboard(Piece::BlackQueen, INITIAL_BLACK_QUEENS_MASK);
        board.set_bitboard(Piece::BlackKing, INITIAL_BLACK_KING_MASK);
        assert(board.bitboards@ =~= seq![
            INITIAL_WHITE_PAWNS_MASK,
            INITIAL_WHITE_KNIGHTS_MASK,
            INITIAL_WHITE_BISHOPS_MASK,
            INITIAL_WHITE_ROOKS_MASK,
            INITIAL_WHITE_QUEENS_MASK,
            INITIAL_WHITE_KING_MASK,
            INITIAL_BLACK_PAWNS_MASK,
            INITIAL_BLACK_KNIGHTS_MASK,
            INITIAL_BLACK_BISHOPS_MASK,
            INITIAL_BLACK_ROOKS_MASK,
            INITIAL_BLACK_QUEENS_MASK,
            INITIAL_BLACK_KING_MASK,
        ]);
        board
    }

    /// Every occupied square.
    pub fn get_occupancy_mask(&self) -> (r: u64)
        ensures
            r == all_occ(self.bitboards@),
    {
        self.bitboards[0] | self.bitboards[1] | self.bitboards[2] | self.bitboards[3]
            | self.bitboards[4] | self.bitboards[5] | self.bitboards[6] | self.bitboards[7]
            | self.bitboards[8] | self.bitboards[9] | self.bitboards[10] | self.bitboards[11]
    }

    /// Every square holding a white piece.
    pub fn get_white_occupancy_mask(&self) -> (r: u64)
        ensures
            r == white_occ(self.bitboards@),
    {
        self.bitboards[0] | self.bitboards[1] | self.bitboards[2] | self.bitboards[3]
            | self.bitboards[4] | self.bitboards[5]
    }

    /// Every square holding a black piece.
    pub fn get_black_occupancy_mask(&self) -> (r: u64)
        ensures
            r == black_occ(self.bitboards@),
    {
        self.bitboards[6] | self.bitboards[7] | self.bitboards[8] | self.bitboards[9]
            | self.bitboards[10] | self.bitboards[11]
    }

    /// The bitboard position of the first piece of the given colour (white
    /// first in `0..6`, black in `6..12`) standing on `square`.
    pub fn get_piece_at(&self, square: (usize, usize), current_player: bool) -> (r: Option<usize>)
        requires
            sq_index(square) < 64,
        ensures
            match (if current_player {
                first_occupant(self.bitboards@, 0, 6, sq_index(square))
            } else {
                first_occupant(self.bitboards@, 6, 12, sq_index(square))
            }) {
                Some(i) => r == Some(i as usize),
                None => r is None,
            },
    {
        let square_index = square.0 * 8 + square.1;
        let square_mask = 1u64 << square_index as u64;
        let (start, end): (usize, usize) = if current_player { (0, 6) } else { (6, 12) };
        let mut piece: usize = start;
        while piece < end
            invariant
                start <= piece <= end,
                end <= 12,
                square_index == sq_index(square),
                square_index < 64,
                square_mask == 1u64 << square_index as u64,
                start == (if current_player { 0usize } else { 6usize }),
                end == (if current_player { 6usize } else { 12usize }),
                forall|j: int| start <= j < piece ==> !#[trigger] has_bit(self.bitboards@[j], square_index as int),
            decreases end - piece,
        {
            proof { lemma_mask_test(self.bitboards[piece as int], square_index as u64); }
            if self.bitboards[piece] & square_mask != 0 {
                proof { lemma_first_occupant(self.bitboards@, start as int, end as int, square_index as int, piece as int); }
                return Some(piece);
            }
            piece += 1;
        }
        None
    }

    /// The kind of the first piece (in bitboard order) standing on `square`.
    pub fn get_any_piece_at(&self, square: (usize, usize)) -> (r: Option<Piece>)
        requires
            sq_index(square) < 64,
        ensures
            r == (match first_occupant(self.bitboards@, 0, 12, sq_index(square)) {
                Some(i) => Piece::from_id(i),
                None => None,
            }),
            r matches Some(p) ==> has_bit(self.bitboards@[p.id()], sq_index(square)),
    {
        let square_index = square.0 * 8 + square.1;
        let square_mask = 1u64 << square_index as u64;
        let mut piece_val: usize = 0;
        while piece_val < 12
            invariant
                piece_val <= 12,
                square_index == sq_index(square),
                square_index < 64,
                square_mask == 1u64 << square_index as u64,
                forall|j: int| 0 <= j < piece_val ==> !#[trigger] has_bit(self.bitboards@[j], square_index as int),
            decreases 12 - piece_val,
        {
            proof { lemma_mask_test(self.bitboards[piece_val as int], square_index as u64); }
            if self.bitboards[piece_val] & square_mask != 0 {
                proof { lemma_first_occupant(self.bitboards@, 0, 12, square_index as int, piece_val as int); }
                return Piece::from_usize(piece_val);
            }
            piece_val += 1;
        }
        None
    }
}


/// The kind of the first piece (in bitboard order) on square index `sq`.
pub open spec fn piece_on(bb: Seq<u64>, sq: int) -> Option<Piece> {
    match first_occupant(bb, 0, 12, sq) {
        Some(i) => Piece::from_id(i),
        None => None,
    }
}

/// Where `make_move` looks for the captured piece: behind the destination for
/// an en passant capture, on the destination otherwise.
pub open spec fn capture_square(b: BoardView, mv: Move) -> (usize, usize) {
    if is_ep_capture(b, mv) {
        (ep_capture_rank(mv) as usize, mv.to.1)
    } else {
        mv.to
    }
}

/// What `make_move` hands back for `mv` on `b`.
pub open spec fn undo_record(b: BoardView, mv: Move) -> UndoInfo {
    let sq = capture_square(b, mv);
    let captured = piece_on(b.bb, sq_index(sq));
    UndoInfo {
        captured_piece: captured,
        previous_castling_rights: b.rights,
        previous_en_passant_target: b.ep,
        captured_square: if captured is Some { Some(sq) } else { None },
    }
}

/// The position `unmake_move` produces: the landing kind leaves the
/// destination, the mover returns to its square, the recorded captured piece
/// returns to its square, a castling rook jumps back, and en passant square
/// and castling rights are taken from the record.
pub open spec fn unexecuted(b: BoardView, mv: Move, undo: UndoInfo) -> BoardView {
    let pt = mv.piece.piece_type;
    let land = landing_piece(mv);
    let to_m = 1u64 << (sq_index(mv.to) as u64);
    let from_m = 1u64 << (sq_index(from_sq(mv)) as u64);
    let bb1 = b.bb.update(land.id(), b.bb[land.id()] & !to_m);
    let bb2 = bb1.update(pt.id(), bb1[pt.id()] | from_m);
    let bb3 = match (undo.captured_piece, undo.captured_square) {
        (Some(p), Some(sq)) => bb2.update(p.id(), bb2[p.id()] | (1u64 << (sq_index(sq) as u64))),
        _ => bb2,
    };
    let bb4 = if is_castle_move(mv) {
        let rook = if pt.white() { Piece::WhiteRook } else { Piece::BlackRook };
        let files = castle_rook_files(mv);
        let rank = mv.piece.from_rank as int;
        let r1 = bb3.update(rook.id(), bb3[rook.id()] & !(1u64 << ((rank * 8 + files.1) as u64)));
        r1.update(rook.id(), r1[rook.id()] | (1u64 << ((rank * 8 + files.0) as u64)))
    } else {
        bb3
    };
    BoardView {
        bb: bb4,
        ep: undo.previous_en_passant_target,
        rights: undo.previous_castling_rights,
    }
}

/// The record can be replayed: its captured square, if any, is on the board.
pub open spec fn undo_in_range(undo: UndoInfo) -> bool {
    match (undo.captured_piece, undo.captured_square) {
        (Some(_), Some(sq)) => sq_index(sq) < 64,
        _ => true,
    }
}

impl Board {
    /// Executes `mv` and returns what `unmake_move` needs to take it back.
    pub fn make_move(&mut self, mv: &Move) -> (undo: UndoInfo)
        requires
            move_in_range(old(self)@, *mv),
        ensures
            final(self)@ == executed(old(self)@, *mv),
            undo == undo_record(old(self)@, *mv),
    {
        let ghost b0 = self@;
        // Detect en passant the same way execute_move does: a pawn moving
        // diagonally onto a square that's empty *before* the move happens.
        let target = self.get_any_piece_at(mv.to);
        proof { crate::board::lemma_occ(self.bitboards@, sq_index(mv.to)); }
        let is_en_passant = matches!(mv.piece.piece_type, Piece::WhitePawn | Piece::BlackPawn)
            && mv.piece.from_file != mv.to.1 && target.is_none();
        assert(is_en_passant == is_ep_capture(b0, *mv));
        let (captured_piece, captured_square) = if is_en_passant {
            let is_white = mv.piece.piece_type.is_white();
            let captured_rank = if is_white { mv.to.0 - 1 } else { mv.to.0 + 1 };
            let square = (captured_rank, mv.to.1);
            (self.get_any_piece_at(square), Some(square))
        } else {
            (target, Some(mv.to))
        };
        let undo = UndoInfo {
            captured_piece,
            captured_square: if captured_piece.is_some() { captured_square } else { None },
            previous_castling_rights: self.castling_rights.clone(),
            previous_en_passant_target: self.en_passant_target,
        };
        mv.execute_move(self);
        undo
    }

    /// Reverses exactly the move `make_move` just applied, using the
    /// snapshot it handed back. Must be called with the *same* `mv` and
    /// the `UndoInfo` `make_move` returned for it, in that order.
    pub fn unmake_move(&mut self, mv: &Move, undo: UndoInfo)
        requires
            sq_index(from_sq(*mv)) < 64,
            sq_index(mv.to) < 64,
            undo_in_range(undo),
        ensures
            final(self)@ == unexecuted(old(self)@, *mv, undo),
    {
        let ghost b0 = self@;
        // Whatever is actually sitting on `to` right now might be a promoted
        // piece, not the original mover -- clear the right one.
        let landing_piece = match mv.promotion {
            Some(p) => p,
            None => mv.piece.piece_type,
        };
        let to_mask = square_mask(mv.to.0, mv.to.1);
        let from_mask = square_mask(mv.piece.from_rank, mv.piece.from_file);
        let v = self.bitboard(landing_piece) & !to_mask;
        self.set_bitboard(landing_piece, v);
        let v = self.bitboard(mv.piece.piece_type) | from_mask;
        self.set_bitboard(mv.piece.piece_type, v);
        // Restore whatever was captured, on whichever square it actually
        // came from (matters for en passant, where that's not `to`).
        if let (Some(piece), Some(square)) = (undo.captured_piece, undo.captured_square) {
            let mask = square_mask(square.0, square.1);
            let v = self.bitboard(piece) | mask;
            self.set_bitboard(piece, v);
        }
        // Undo castling: move the rook back too.
        if matches!(mv.piece.piece_type, Piece::WhiteKing | Piece::BlackKing) && abs_isize(
            mv.piece.from_file as isize - mv.to.1 as isize,
        ) == 2 {
            let is_white = mv.piece.piece_type.is_white();
            let rank = mv.piece.from_rank;
            let kingside = mv.to.1 == 6;
            let rook_piece = if is_white { Piece::WhiteRook } else { Piece::BlackRook };
            let (rook_from, rook_to): (usize, usize) = if kingside { (7, 5) } else { (0, 3) };
            let v1 = self.bitboard(rook_piece) & !square_mask(rank, rook_to);
            self.set_bitboard(rook_piece, v1);
            let v2 = self.bitboard(rook_piece) | square_mask(rank, rook_from);
            self.set_bitboard(rook_piece, v2);
        }
        // Restore state that can't be derived from the move alone.
        self.castling_rights = undo.previous_castling_rights;
        self.en_passant_target = undo.previous_en_passant_target;
        assert(self.bitboards@ =~= unexecuted(b0, *mv, undo).bb);
    }
}


/// No square holds two pieces.
pub open spec fn pieces_disjoint(bb: Seq<u64>) -> bool {
    &&& bb.len() == 12
    &&& forall|i: int, j: int, s: int|
        0 <= i < 12 && 0 <= j < 12 && i != j && #[trigger] has_bit(bb[i], s) ==> !#[trigger] has_bit(bb[j], s)
}

/// On a board where no square holds two pieces, the piece found on a square
/// is the one that stands there.
pub proof fn lemma_piece_on(bb: Seq<u64>, sq: int)
    requires
        pieces_disjoint(bb),
    ensures
        forall|i: int| 0 <= i < 12 && #[trigger] has_bit(bb[i], sq) ==> piece_on(bb, sq) == Piece::from_id(i),
        !occupied_in(bb, 0, 12, sq) ==> piece_on(bb, sq) is None,
        piece_on(bb, sq) matches Some(p) ==> has_bit(bb[p.id()], sq),
{
    if occupied_in(bb, 0, 12, sq) {
        let k = choose|k: int| 0 <= k < 12 && has_bit(bb[k], sq) && forall|j: int| 0 <= j < k ==> !#[trigger] has_bit(bb[j], sq);
        Piece::lemma_from_id(k);
    }
    assert forall|i: int| 0 <= i < 12 && #[trigger] has_bit(bb[i], sq) implies piece_on(bb, sq) == Piece::from_id(i) by {
        assert forall|j: int| 0 <= j < i implies !#[trigger] has_bit(bb[j], sq) by {
            assert(i != j);
        }
        lemma_first_occupant(bb, 0, 12, sq, i);
    }
}

/// What taking back a move relies on, as read off the rules.
spec fn undo_facts(b: BoardView, mv: Move) -> bool {
    let pt = mv.piece.piece_type;
    let white = pt.white();
    let from = sq_index(from_sq(mv));
    let to = sq_index(mv.to);
    let rank = mv.piece.from_rank as int;
    let rook = if white { Piece::WhiteRook } else { Piece::BlackRook };
    let files = castle_rook_files(mv);
    &&& pieces_disjoint(b.bb)
    &&& on_board(from_sq(mv))
    &&& on_board(mv.to)
    &&& from != to
    &&& has_bit(b.bb[pt.id()], from)
    &&& !has_bit(color_occ(b.bb, white), to)
    &&& is_ep_capture(b, mv) ==> 0 <= ep_capture_rank(mv) < 8 && mv.to.1 != mv.piece.from_file
        && ep_capture_rank(mv) != mv.to.0
    &&& is_castle_move(mv) ==> mv.to.0 == mv.piece.from_rank && mv.piece.from_file == 4 && (mv.to.1
        == 6 || mv.to.1 == 2) && has_bit(b.bb[rook.id()], rank * 8 + files.0) && !has_bit(
        all_occ(b.bb),
        rank * 8 + files.1,
    ) && !has_bit(all_occ(b.bb), to)
}

proof fn lemma_undo_facts(b: BoardView, mv: Move)
    requires
        pieces_disjoint(b.bb),
        on_board(from_sq(mv)),
        has_bit(b.bb[mv.piece.piece_type.id()], sq_index(from_sq(mv))),
        legal_shape(b, mv),
    ensures
        undo_facts(b, mv),
        move_in_range(b, mv),
{
    crate::moves::lemma_legal_in_range(b, mv);
    if is_castle_move(mv) {
        assert(castle_legal(b, mv));
    }
}

/// Square `s` of bitboard `i` after the move, from the board before it.
spec fn exec_bit(b: BoardView, mv: Move, i: int, s: int) -> bool {
    let pt = mv.piece.piece_type;
    let white = pt.white();
    let from = sq_index(from_sq(mv));
    let to = sq_index(mv.to);
    let c = sq_index(capture_square(b, mv));
    let land = landing_piece(mv);
    let enemy = if white { 6 <= i < 12 } else { 0 <= i < 6 };
    let rook = if white { Piece::WhiteRook } else { Piece::BlackRook };
    let files = castle_rook_files(mv);
    let rank = mv.piece.from_rank as int;
    let capp = if white { Piece::BlackPawn } else { Piece::WhitePawn };
    let h1 = has_bit(b.bb[i], s) && !(i == pt.id() && s == from);
    let h2 = if is_ep_capture(b, mv) {
        h1 && !(i == capp.id() && s == c)
    } else {
        h1 && !(enemy && s == to)
    };
    let h3 = h2 || (i == land.id() && s == to);
    if is_castle_move(mv) {
        (h3 && !(i == rook.id() && s == rank * 8 + files.0)) || (i == rook.id() && s == rank * 8 + files.1)
    } else {
        h3
    }
}

#[verifier::rlimit(40)]
proof fn lemma_exec_bit(b: BoardView, mv: Move, i: int, s: int)
    requires
        undo_facts(b, mv),
        0 <= i < 12,
        0 <= s < 64,
    ensures
        has_bit(executed(b, mv).bb[i], s) == exec_bit(b, mv, i, s),
{
    broadcast use lemma_clear_bit, lemma_set_bit;
    let pt = mv.piece.piece_type;
    let white = pt.white();
    let from = sq_index(from_sq(mv));
    let to = sq_index(mv.to);
    let c = sq_index(capture_square(b, mv));
    let ep = is_ep_capture(b, mv);
    let castle = is_castle_move(mv);
    let land = landing_piece(mv);
    let enemy = if white { 6 <= i < 12 } else { 0 <= i < 6 };
    let rook = if white { Piece::WhiteRook } else { Piece::BlackRook };
    let files = castle_rook_files(mv);
    let rank = mv.piece.from_rank as int;
    let rf = rank * 8 + files.0;
    let rt = rank * 8 + files.1;
    let capp = if white { Piece::BlackPawn } else { Piece::WhitePawn };
    pt.lemma_id();
    land.lemma_id();
    rook.lemma_id();
    capp.lemma_id();
    let from_m = 1u64 << (from as u64);
    let to_m = 1u64 << (to as u64);
    let bb1 = b.bb.update(pt.id(), b.bb[pt.id()] & !from_m);
    let h1 = has_bit(b.bb[i], s) && !(i == pt.id() && s == from);
    assert(has_bit(bb1[i], s) == h1);
    let h2 = if ep {
        h1 && !(i == capp.id() && s == c)
    } else {
        h1 && !(enemy && s == to)
    };
    let e = executed(b, mv);
    let h3 = h2 || (i == land.id() && s == to);
    let h4 = if castle {
        (h3 && !(i == rook.id() && s == rf)) || (i == rook.id() && s == rt)
    } else {
        h3
    };
    if ep {
        assert(c == ep_capture_rank(mv) * 8 + mv.to.1);
        let cap_m = 1u64 << ((ep_capture_rank(mv) * 8 + mv.to.1) as u64);
        let bb2 = bb1.update(capp.id(), bb1[capp.id()] & !cap_m);
        assert(has_bit(bb2[i], s) == h2);
        let bb3 = bb2.update(land.id(), bb2[land.id()] | to_m);
        assert(has_bit(bb3[i], s) == h3);
        assert(!castle);
        assert(e.bb == bb3);
    } else {
        let lo: int = if white { 6 } else { 0 };
        let bb2 = clear_squares(bb1, lo, lo + 6, to_m);
        assert(has_bit(bb2[i], s) == h2);
        let bb3 = bb2.update(land.id(), bb2[land.id()] | to_m);
        assert(has_bit(bb3[i], s) == h3);
        if castle {
            let r1 = bb3.update(rook.id(), bb3[rook.id()] & !(1u64 << (rf as u64)));
            let r2 = r1.update(rook.id(), r1[rook.id()] | (1u64 << (rt as u64)));
            assert(has_bit(r2[i], s) == h4);
            assert(e.bb == r2);
        } else {
            assert(e.bb == bb3);
        }
    }
    assert(has_bit(e.bb[i], s) == h4);
}

/// Square `s` of bitboard `i` after the move and its taking back.
#[verifier::rlimit(60)]
proof fn lemma_make_unmake_at(b: BoardView, mv: Move, i: int, s: int)
    requires
        undo_facts(b, mv),
        0 <= i < 12,
        0 <= s < 64,
    ensures
        has_bit(unexecuted(executed(b, mv), mv, undo_record(b, mv)).bb[i], s) == has_bit(b.bb[i], s),
{
    broadcast use lemma_clear_bit, lemma_set_bit;
    let pt = mv.piece.piece_type;
    let white = pt.white();
    let from = sq_index(from_sq(mv));
    let to = sq_index(mv.to);
    let csq = capture_square(b, mv);
    let c = sq_index(csq);
    let undo = undo_record(b, mv);
    let cp = undo.captured_piece;
    let castle = is_castle_move(mv);
    let land = landing_piece(mv);
    let rook = if white { Piece::WhiteRook } else { Piece::BlackRook };
    let files = castle_rook_files(mv);
    let rank = mv.piece.from_rank as int;
    let rf = rank * 8 + files.0;
    let rt = rank * 8 + files.1;
    lemma_piece_on(b.bb, c);
    lemma_occ(b.bb, to);
    lemma_occ(b.bb, c);
    pt.lemma_id();
    land.lemma_id();
    rook.lemma_id();
    let e = executed(b, mv);
    lemma_exec_bit(b, mv, i, s);
    let h4 = exec_bit(b, mv, i, s);
    let g1 = h4 && !(i == land.id() && s == to);
    let g2 = g1 || (i == pt.id() && s == from);
    let g3 = match cp {
        Some(p) => g2 || (i == p.id() && s == c),
        None => g2,
    };
    let g4 = if castle {
        (g3 && !(i == rook.id() && s == rt)) || (i == rook.id() && s == rf)
    } else {
        g3
    };
    let f = unexecuted(e, mv, undo);
    assert(has_bit(f.bb[i], s) == g4);
    Piece::lemma_from_id(i);
    if has_bit(b.bb[i], c) {
        assert(cp == Piece::from_id(i));
    }
    if s == from {
        assert(g4 == has_bit(b.bb[i], s));
    } else if s == to {
        assert(g4 == has_bit(b.bb[i], s));
    } else if s == c {
        assert(g4 == has_bit(b.bb[i], s));
    } else if castle && (s == rf || s == rt) {
        lemma_occ(b.bb, rt);
        if s == rf && i != rook.id() {
            assert(has_bit(b.bb[rook.id()], rf));
            assert(!has_bit(b.bb[i], rf));
        }
        assert(g4 == has_bit(b.bb[i], s));
    } else {
        assert(g4 == has_bit(b.bb[i], s));
    }
}

/// Taking back a move restores the position: on a board where no square holds
/// two pieces, for a move of a piece that stands on its origin and that obeys
/// the rules of `legal_shape`, `unmake_move` after `make_move` (with the record
/// it returned) gives back the board it started from.
pub proof fn lemma_make_unmake(b: BoardView, mv: Move)
    requires
        pieces_disjoint(b.bb),
        on_board(from_sq(mv)),
        has_bit(b.bb[mv.piece.piece_type.id()], sq_index(from_sq(mv))),
        legal_shape(b, mv),
    ensures
        move_in_range(b, mv),
        undo_in_range(undo_record(b, mv)),
        unexecuted(executed(b, mv), mv, undo_record(b, mv)) == b,
{
    lemma_undo_facts(b, mv);
    let f = unexecuted(executed(b, mv), mv, undo_record(b, mv));
    assert forall|i: int| 0 <= i < 12 implies f.bb[i] == b.bb[i] by {
        assert forall|s: int| 0 <= s < 64 implies has_bit(f.bb[i], s) == has_bit(b.bb[i], s) by {
            lemma_make_unmake_at(b, mv, i, s);
        }
        lemma_has_bit_ext(f.bb[i], b.bb[i]);
    }
    assert(f.bb =~= b.bb);
}


#[verifier::rlimit(40)]
proof fn lemma_execute_disjoint_at(b: BoardView, mv: Move, i: int, j: int, s: int)
    requires
        undo_facts(b, mv),
        0 <= i < 12,
        0 <= j < 12,
        i != j,
        0 <= s < 64,
    ensures
        !(has_bit(executed(b, mv).bb[i], s) && has_bit(executed(b, mv).bb[j], s)),
{
    lemma_exec_bit(b, mv, i, s);
    lemma_exec_bit(b, mv, j, s);
    let pt = mv.piece.piece_type;
    let white = pt.white();
    let from = sq_index(from_sq(mv));
    let to = sq_index(mv.to);
    let c = sq_index(capture_square(b, mv));
    let rook = if white { Piece::WhiteRook } else { Piece::BlackRook };
    let files = castle_rook_files(mv);
    let rank = mv.piece.from_rank as int;
    let rf = rank * 8 + files.0;
    let rt = rank * 8 + files.1;
    pt.lemma_id();
    rook.lemma_id();
    lemma_occ(b.bb, to);
    lemma_occ(b.bb, s);
    if is_castle_move(mv) {
        lemma_occ(b.bb, rt);
    }
    if s == from {
        assert(!has_bit(b.bb[i], s) || i == pt.id());
        assert(!has_bit(b.bb[j], s) || j == pt.id());
    } else if is_castle_move(mv) && s == rf {
        assert(!has_bit(b.bb[i], s) || i == rook.id());
        assert(!has_bit(b.bb[j], s) || j == rook.id());
    }
    assert(!(exec_bit(b, mv, i, s) && exec_bit(b, mv, j, s)));
}

/// Making a move of a piece that stands on its origin and obeys the rules of
/// `legal_shape` keeps every square holding at most one piece.
pub proof fn lemma_execute_disjoint(b: BoardView, mv: Move)
    requires
        pieces_disjoint(b.bb),
        on_board(from_sq(mv)),
        has_bit(b.bb[mv.piece.piece_type.id()], sq_index(from_sq(mv))),
        legal_shape(b, mv),
    ensures
        pieces_disjoint(executed(b, mv).bb),
{
    lemma_undo_facts(b, mv);
    let e = executed(b, mv);
    assert(e.bb.len() == 12);
    assert forall|i: int, j: int, s: int|
        0 <= i < 12 && 0 <= j < 12 && i != j && #[trigger] has_bit(e.bb[i], s) implies !#[trigger] has_bit(e.bb[j], s) by {
        if 0 <= s < 64 {
            lemma_execute_disjoint_at(b, mv, i, j, s);
        }
    }
}


/// The squares of each kind in the starting position.
spec fn initial_square(i: int, s: int) -> bool {
    if i == 0 { 8 <= s < 16 }
    else if i == 1 { s == 1 || s == 6 }
    else if i == 2 { s == 2 || s == 5 }
    else if i == 3 { s == 0 || s == 7 }
    else if i == 4 { s == 3 }
    else if i == 5 { s == 4 }
    else if i == 6 { 48 <= s < 56 }
    else if i == 7 { s == 57 || s == 62 }
    else if i == 8 { s == 58 || s == 61 }
    else if i == 9 { s == 56 || s == 63 }
    else if i == 10 { s == 59 }
    else if i == 11 { s == 60 }
    else { false }
}

/// The starting position has at most one piece on every square.
pub proof fn lemma_new_disjoint()
    ensures
        pieces_disjoint(seq![
            INITIAL_WHITE_PAWNS_MASK,
            INITIAL_WHITE_KNIGHTS_MASK,
            INITIAL_WHITE_BISHOPS_MASK,
            INITIAL_WHITE_ROOKS_MASK,
            INITIAL_WHITE_QUEENS_MASK,
            INITIAL_WHITE_KING_MASK,
            INITIAL_BLACK_PAWNS_MASK,
            INITIAL_BLACK_KNIGHTS_MASK,
            INITIAL_BLACK_BISHOPS_MASK,
            INITIAL_BLACK_ROOKS_MASK,
            INITIAL_BLACK_QUEENS_MASK,
            INITIAL_BLACK_KING_MASK,
        ]),
{
    let bb = seq![
        INITIAL_WHITE_PAWNS_MASK,
        INITIAL_WHITE_KNIGHTS_MASK,
        INITIAL_WHITE_BISHOPS_MASK,
        INITIAL_WHITE_ROOKS_MASK,
        INITIAL_WHITE_QUEENS_MASK,
        INITIAL_WHITE_KING_MASK,
        INITIAL_BLACK_PAWNS_MASK,
        INITIAL_BLACK_KNIGHTS_MASK,
        INITIAL_BLACK_BISHOPS_MASK,
        INITIAL_BLACK_ROOKS_MASK,
        INITIAL_BLACK_QUEENS_MASK,
        INITIAL_BLACK_KING_MASK,
    ];
    assert(forall|j: u64| j < 64 ==> ((0x0000_0000_0000_FF00u64 >> j) & 1u64 == 1u64 <==> (8 <= j < 16))) by (bit_vector);
    assert(forall|j: u64| j < 64 ==> ((0x0000_0000_0000_0042u64 >> j) & 1u64 == 1u64 <==> (j == 1 || j == 6))) by (bit_vector);
    assert(forall|j: u64| j < 64 ==> ((0x0000_0000_0000_0024u64 >> j) & 1u64 == 1u64 <==> (j == 2 || j == 5))) by (bit_vector);
    assert(forall|j: u64| j < 64 ==> ((0x0000_0000_0000_0081u64 >> j) & 1u64 == 1u64 <==> (j == 0 || j == 7))) by (bit_vector);
    assert(forall|j: u64| j < 64 ==> ((0x0000_0000_0000_0008u64 >> j) & 1u64 == 1u64 <==> (j == 3))) by (bit_vector);
    assert(forall|j: u64| j < 64 ==> ((0x0000_0000_0000_0010u64 >> j) & 1u64 == 1u64 <==> (j == 4))) by (bit_vector);
    assert(forall|j: u64| j < 64 ==> ((0x00FF_0000_0000_0000u64 >> j) & 1u64 == 1u64 <==> (48 <= j < 56))) by (bit_vector);
    assert(forall|j: u64| j < 64 ==> ((0x4200_0000_0000_0000u64 >> j) & 1u64 == 1u64 <==> (j == 57 || j == 62))) by (bit_vector);
    assert(forall|j: u64| j < 64 ==> ((0x2400_0000_0000_0000u64 >> j) & 1u64 == 1u64 <==> (j == 58 || j == 61))) by (bit_vector);
    assert(forall|j: u64| j < 64 ==> ((0x8100_0000_0000_0000u64 >> j) & 1u64 == 1u64 <==> (j == 56 || j == 63))) by (bit_vector);
    assert(forall|j: u64| j < 64 ==> ((0x0800_0000_0000_0000u64 >> j) & 1u64 == 1u64 <==> (j == 59))) by (bit_vector);
    assert(forall|j: u64| j < 64 ==> ((0x1000_0000_0000_0000u64 >> j) & 1u64 == 1u64 <==> (j == 60))) by (bit_vector);
    assert forall|i: int, s: int| 0 <= i < 12 && 0 <= s < 64 implies #[trigger] has_bit(bb[i], s) == initial_square(i, s) by {
        let j = s as u64;
        if i == 0 {} else if i == 1 {} else if i == 2 {} else if i == 3 {} else if i == 4 {} else if i == 5 {}
        else if i == 6 {} else if i == 7 {} else if i == 8 {} else if i == 9 {} else if i == 10 {} else {}
    }
    assert forall|i: int, k: int, s: int|
        0 <= i < 12 && 0 <= k < 12 && i != k && #[trigger] has_bit(bb[i], s) implies !#[trigger] has_bit(bb[k], s) by {
        assert(has_bit(bb[i], s) == initial_square(i, s));
        assert(has_bit(bb[k], s) == initial_square(k, s));
    }
}

} // verus!

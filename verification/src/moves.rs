use vstd::prelude::*;
use crate::bits::{has_bit, lemma_mask_test, lemma_pop_lowest, lemma_square_bit, lemma_bit_ops};
use crate::board::{
    Board, BoardView, CastlingRights, Piece, sq_index, on_board, white_occ, black_occ, all_occ,
    occupied_in, lemma_occ, pieces_disjoint,
};

verus! {

/// A piece kind standing on a square, about to move.
#[derive(Copy, Clone, PartialEq, Eq, Debug, Structural)]
pub struct ActivePiece {
    pub piece_type: Piece,
    pub from_rank: usize,
    pub from_file: usize,
}

/// A move: the piece and where it comes from, the destination `(rank, file)`,
/// and, for a pawn reaching the last rank, the kind it becomes.
#[derive(Copy, Clone, PartialEq, Eq, Debug)]
pub struct Move {
    pub piece: ActivePiece,
    pub to: (usize, usize),
    /// Only used for pawn moves landing on the back rank. Must be Some(Q/R/B/N)
    /// if and only if the move is actually a promotion.
    pub promotion: Option<Piece>,
}

// ---------------------------------------------------------------------------
// The rules, stated over the board's mathematical content.
// ---------------------------------------------------------------------------

pub open spec fn iabs(x: int) -> int {
    if x < 0 { -x } else { x }
}

pub open spec fn sgn(x: int) -> int {
    if x > 0 { 1 } else if x < 0 { -1 } else { 0 }
}

/// Home rank of a colour: where its king and rooks start.
pub open spec fn home_rank(white: bool) -> int {
    if white { 0 } else { 7 }
}

pub open spec fn from_sq(mv: Move) -> (usize, usize) {
    (mv.piece.from_rank, mv.piece.from_file)
}

pub open spec fn rank_diff(mv: Move) -> int {
    iabs(mv.piece.from_rank - mv.to.0)
}

pub open spec fn file_diff(mv: Move) -> int {
    iabs(mv.piece.from_file - mv.to.1)
}

pub open spec fn mover_white(mv: Move) -> bool {
    mv.piece.piece_type.white()
}

/// The squares occupied by one colour.
pub open spec fn color_occ(bb: Seq<u64>, white: bool) -> u64 {
    if white { white_occ(bb) } else { black_occ(bb) }
}

/// Coordinate reached after `k` steps from `start` in direction `d` (-1, 0 or 1).
pub open spec fn ray_coord(start: int, d: int, k: int) -> int {
    if d > 0 { start + k } else if d < 0 { start - k } else { start }
}

/// Number of single steps from the origin to the destination along a line.
pub open spec fn line_len(mv: Move) -> int {
    if rank_diff(mv) >= file_diff(mv) { rank_diff(mv) } else { file_diff(mv) }
}

/// The `k`-th square on the way from the origin towards the destination.
pub open spec fn path_square(mv: Move, k: int) -> int {
    ray_coord(mv.piece.from_rank as int, sgn(mv.to.0 - mv.piece.from_rank), k) * 8
        + ray_coord(mv.piece.from_file as int, sgn(mv.to.1 - mv.piece.from_file), k)
}

/// Origin and destination lie on one rank, file or diagonal, and differ.
pub open spec fn is_line(mv: Move) -> bool {
    (rank_diff(mv) == 0 || file_diff(mv) == 0 || rank_diff(mv) == file_diff(mv))
        && (rank_diff(mv) != 0 || file_diff(mv) != 0)
}

/// Every square strictly between origin and destination is empty.
pub open spec fn path_clear(b: BoardView, mv: Move) -> bool {
    forall|k: int| 1 <= k < line_len(mv) ==> !#[trigger] has_bit(all_occ(b.bb), path_square(mv, k))
}

/// A promotion piece is given exactly when the pawn reaches `back_rank`, and
/// it is a queen, rook, bishop or knight of the pawn's colour.
pub open spec fn promotion_ok(mv: Move, back_rank: int) -> bool {
    match mv.promotion {
        Some(p) => mv.to.0 == back_rank && p.white() == mover_white(mv) && !p.is_pawn()
            && !p.is_king(),
        None => mv.to.0 != back_rank,
    }
}

/// White pawn: one step forward onto an empty square, two steps from the
/// starting rank over two empty squares, or one step diagonally onto a black
/// piece or onto the en passant square.
pub open spec fn white_pawn_ok(b: BoardView, mv: Move) -> bool {
    let fr = mv.piece.from_rank as int;
    let ff = mv.piece.from_file as int;
    let rd = mv.to.0 - fr;
    let fd = mv.to.1 - ff;
    let occ = all_occ(b.bb);
    let dest_empty = !has_bit(occ, sq_index(mv.to));
    let first = has_bit(b.bb[Piece::WhitePawn.id()], sq_index(from_sq(mv))) && fr == 1;
    if fd == 0 {
        if rd == 1 {
            dest_empty
        } else if rd == 2 && first {
            dest_empty && !has_bit(occ, (fr + 1) * 8 + ff)
        } else {
            false
        }
    } else if rd == 1 && iabs(fd) == 1 {
        has_bit(black_occ(b.bb), sq_index(mv.to)) || b.ep == Some(mv.to)
    } else {
        false
    }
}

/// The black pawn's rules, moving towards rank 0.
pub open spec fn black_pawn_ok(b: BoardView, mv: Move) -> bool {
    let fr = mv.piece.from_rank as int;
    let ff = mv.piece.from_file as int;
    let rd = mv.to.0 - fr;
    let fd = mv.to.1 - ff;
    let occ = all_occ(b.bb);
    let dest_empty = !has_bit(occ, sq_index(mv.to));
    let first = has_bit(b.bb[Piece::BlackPawn.id()], sq_index(from_sq(mv))) && fr == 6;
    if fd == 0 {
        if rd == -1 {
            dest_empty
        } else if rd == -2 && first {
            dest_empty && !has_bit(occ, (fr - 1) * 8 + ff)
        } else {
            false
        }
    } else if rd == -1 && iabs(fd) == 1 {
        has_bit(white_occ(b.bb), sq_index(mv.to)) || b.ep == Some(mv.to)
    } else {
        false
    }
}

/// The move a piece of kind `p` on square `s` would make to reach `sq`.
pub open spec fn attack_move(p: Piece, s: int, sq: (usize, usize)) -> Move {
    Move {
        piece: ActivePiece { piece_type: p, from_rank: (s / 8) as usize, from_file: (s % 8) as usize },
        to: sq,
        promotion: None,
    }
}

/// The geometric and occupancy rules of a move, castling included, but not
/// whether it leaves the mover's own king in check. Only a pawn reaching the
/// last rank names a promotion piece.
pub open spec fn legal_shape(b: BoardView, mv: Move) -> bool {
    if !on_board(mv.to) {
        false
    } else if has_bit(color_occ(b.bb, mover_white(mv)), sq_index(mv.to)) {
        false
    } else if !mv.piece.piece_type.is_pawn() && mv.promotion is Some {
        false
    } else {
        let rd = rank_diff(mv);
        let fd = file_diff(mv);
        let fr = mv.piece.from_rank;
        let ff = mv.piece.from_file;
        match mv.piece.piece_type {
            Piece::WhitePawn => white_pawn_ok(b, mv) && promotion_ok(mv, 7),
            Piece::BlackPawn => black_pawn_ok(b, mv) && promotion_ok(mv, 0),
            Piece::WhiteKnight | Piece::BlackKnight => (rd == 2 && fd == 1) || (rd == 1 && fd == 2),
            Piece::WhiteBishop | Piece::BlackBishop => rd == fd && rd != 0 && path_clear(b, mv),
            Piece::WhiteRook | Piece::BlackRook => ((fr == mv.to.0) != (ff == mv.to.1)) && path_clear(b, mv),
            Piece::WhiteQueen | Piece::BlackQueen => (fr == mv.to.0 || ff == mv.to.1 || rd == fd)
                && (rd != 0 || fd != 0) && path_clear(b, mv),
            Piece::WhiteKing | Piece::BlackKing => if fd == 2 && rd == 0 {
                castle_legal(b, mv)
            } else {
                rd <= 1 && fd <= 1 && (rd != 0 || fd != 0)
            },
        }
    }
}

/// Castling: king on its home square moving two files towards a rook; the
/// right not revoked, the rook in its corner, the squares between empty, and
/// the king not in check on its start, passing or landing square.
pub open spec fn castle_legal(b: BoardView, mv: Move) -> bool {
    let white = mover_white(mv);
    let rank = home_rank(white);
    if mv.piece.from_rank != rank || mv.piece.from_file != 4 {
        false
    } else if mv.to.1 != 6 && mv.to.1 != 2 {
        false
    } else {
        let kingside = mv.to.1 == 6;
        let allowed = if white {
            if kingside { b.rights.white_kingside } else { b.rights.white_queenside }
        } else {
            if kingside { b.rights.black_kingside } else { b.rights.black_queenside }
        };
        let rook = if white { Piece::WhiteRook } else { Piece::BlackRook };
        let rook_file = if kingside { 7int } else { 0int };
        let occ = all_occ(b.bb);
        let r = rank as usize;
        &&& allowed
        &&& has_bit(b.bb[rook.id()], rank * 8 + rook_file)
        &&& if kingside {
            !has_bit(occ, rank * 8 + 5) && !has_bit(occ, rank * 8 + 6)
        } else {
            !has_bit(occ, rank * 8 + 1) && !has_bit(occ, rank * 8 + 2) && !has_bit(occ, rank * 8 + 3)
        }
        &&& !attacked(b, (r, 4), !white)
        &&& !attacked(b, (r, if kingside { 5usize } else { 3usize }), !white)
        &&& !attacked(b, (r, if kingside { 6usize } else { 2usize }), !white)
    }
}

/// The piece of `mv` attacks the destination: a pawn its two forward
/// diagonal squares, whatever stands there; a king the squares next to it;
/// knights, bishops, rooks and queens the squares they could move to. A
/// square holding a piece of the attacker's own colour is not attacked.
pub open spec fn attack_shape(b: BoardView, mv: Move) -> bool {
    if !on_board(mv.to) {
        false
    } else if has_bit(color_occ(b.bb, mover_white(mv)), sq_index(mv.to)) {
        false
    } else {
        let rd = rank_diff(mv);
        let fd = file_diff(mv);
        let fr = mv.piece.from_rank;
        let ff = mv.piece.from_file;
        match mv.piece.piece_type {
            Piece::WhitePawn => mv.to.0 == fr + 1 && fd == 1,
            Piece::BlackPawn => mv.to.0 + 1 == fr && fd == 1,
            Piece::WhiteKnight | Piece::BlackKnight => (rd == 2 && fd == 1) || (rd == 1 && fd == 2),
            Piece::WhiteBishop | Piece::BlackBishop => rd == fd && rd != 0 && path_clear(b, mv),
            Piece::WhiteRook | Piece::BlackRook => ((fr == mv.to.0) != (ff == mv.to.1)) && path_clear(b, mv),
            Piece::WhiteQueen | Piece::BlackQueen => (fr == mv.to.0 || ff == mv.to.1 || rd == fd)
                && (rd != 0 || fd != 0) && path_clear(b, mv),
            Piece::WhiteKing | Piece::BlackKing => rd <= 1 && fd <= 1 && (rd != 0 || fd != 0),
        }
    }
}

/// Some piece of the given colour attacks `sq`.
pub open spec fn attacked(b: BoardView, sq: (usize, usize), by_white: bool) -> bool {
    exists|p: Piece, s: int|
        p.white() == by_white && 0 <= s < 64 && #[trigger] has_bit(b.bb[p.id()], s)
            && attack_shape(b, #[trigger] attack_move(p, s, sq))
}



// ---------------------------------------------------------------------------
// Executing a move.
// ---------------------------------------------------------------------------

/// A pawn moving diagonally onto an empty square: it captures en passant.
pub open spec fn is_ep_capture(b: BoardView, mv: Move) -> bool {
    mv.piece.piece_type.is_pawn() && mv.piece.from_file != mv.to.1 && !has_bit(
        all_occ(b.bb),
        sq_index(mv.to),
    )
}

/// The rank of the pawn taken en passant: just behind the destination.
pub open spec fn ep_capture_rank(mv: Move) -> int {
    if mover_white(mv) { mv.to.0 - 1 } else { mv.to.0 + 1 }
}

/// The inputs on which executing the move stays on the board: both squares on
/// the board, and an en passant capture has a square behind its destination.
pub open spec fn move_in_range(b: BoardView, mv: Move) -> bool {
    &&& on_board(from_sq(mv))
    &&& on_board(mv.to)
    &&& is_ep_capture(b, mv) ==> 0 <= ep_capture_rank(mv) < 8
}

/// Removes `mask` from the bitboards at positions `lo..hi`.
pub open spec fn clear_squares(bb: Seq<u64>, lo: int, hi: int, mask: u64) -> Seq<u64> {
    Seq::new(bb.len(), |i: int| if lo <= i < hi { bb[i] & !mask } else { bb[i] })
}

/// A king moving two files: the rook jumps over it.
pub open spec fn is_castle_move(mv: Move) -> bool {
    mv.piece.piece_type.is_king() && file_diff(mv) == 2
}

/// Files the rook leaves and reaches when castling.
pub open spec fn castle_rook_files(mv: Move) -> (int, int) {
    if mv.to.1 == 6 { (7, 5) } else { (0, 3) }
}

/// The kind that stands on the destination after the move.
pub open spec fn landing_piece(mv: Move) -> Piece {
    match mv.promotion {
        Some(p) => p,
        None => mv.piece.piece_type,
    }
}

pub open spec fn touches(mv: Move, sq: (usize, usize)) -> bool {
    from_sq(mv) == sq || mv.to == sq
}

/// A king move revokes both rights of its colour; a move from or to a corner
/// revokes the right of the rook that starts there.
pub open spec fn rights_after(r: CastlingRights, mv: Move) -> CastlingRights {
    let king_w = mv.piece.piece_type == Piece::WhiteKing;
    let king_b = mv.piece.piece_type == Piece::BlackKing;
    CastlingRights {
        white_kingside: r.white_kingside && !king_w && !touches(mv, (0, 7)),
        white_queenside: r.white_queenside && !king_w && !touches(mv, (0, 0)),
        black_kingside: r.black_kingside && !king_b && !touches(mv, (7, 7)),
        black_queenside: r.black_queenside && !king_b && !touches(mv, (7, 0)),
    }
}

/// After a two-square pawn move, the square it passed over; otherwise none.
pub open spec fn ep_after(mv: Move) -> Option<(usize, usize)> {
    if mv.piece.piece_type.is_pawn() && rank_diff(mv) == 2 {
        Some((((mv.to.0 + mv.piece.from_rank) / 2) as usize, mv.to.1))
    } else {
        None
    }
}

/// The position after the move: the mover leaves its square, whatever it
/// captures leaves the board, the landing kind appears on the destination, a
/// castling rook jumps, and en passant square and castling rights are renewed.
pub open spec fn executed(b: BoardView, mv: Move) -> BoardView {
    let pt = mv.piece.piece_type;
    let white = pt.white();
    let from_m = 1u64 << (sq_index(from_sq(mv)) as u64);
    let to_m = 1u64 << (sq_index(mv.to) as u64);
    let bb1 = b.bb.update(pt.id(), b.bb[pt.id()] & !from_m);
    let bb2 = if is_ep_capture(b, mv) {
        let cap = if white { Piece::BlackPawn } else { Piece::WhitePawn };
        let cap_m = 1u64 << ((ep_capture_rank(mv) * 8 + mv.to.1) as u64);
        bb1.update(cap.id(), bb1[cap.id()] & !cap_m)
    } else {
        let lo: int = if white { 6 } else { 0 };
        clear_squares(bb1, lo, lo + 6, to_m)
    };
    let land = landing_piece(mv);
    let bb3 = bb2.update(land.id(), bb2[land.id()] | to_m);
    let bb4 = if is_castle_move(mv) {
        let rook = if white { Piece::WhiteRook } else { Piece::BlackRook };
        let files = castle_rook_files(mv);
        let rank = mv.piece.from_rank as int;
        let r1 = bb3.update(rook.id(), bb3[rook.id()] & !(1u64 << ((rank * 8 + files.0) as u64)));
        r1.update(rook.id(), r1[rook.id()] | (1u64 << ((rank * 8 + files.1) as u64)))
    } else {
        bb3
    };
    BoardView { bb: bb4, ep: ep_after(mv), rights: rights_after(b.rights, mv) }
}

/// The square of the lowest king of a colour.
pub open spec fn king_square(kbb: u64) -> (usize, usize) {
    let t = kbb.trailing_zeros() as int;
    ((t / 8) as usize, (t % 8) as usize)
}

/// The king of this colour (the lowest one, if several) is attacked; a side
/// without a king is never in check.
pub open spec fn in_check(b: BoardView, white: bool) -> bool {
    let king = if white { Piece::WhiteKing } else { Piece::BlackKing };
    let kbb = b.bb[king.id()];
    kbb != 0 && attacked(b, king_square(kbb), !white)
}

/// Fully legal: the rules of `legal_shape`, and the mover's king is not in
/// check afterwards.
pub open spec fn fully_legal(b: BoardView, mv: Move) -> bool {
    legal_shape(b, mv) && !in_check(executed(b, mv), mover_white(mv))
}

/// A move that passes the rules can be executed without leaving the board.
pub proof fn lemma_legal_in_range(b: BoardView, mv: Move)
    requires
        on_board(from_sq(mv)),
        legal_shape(b, mv),
    ensures
        move_in_range(b, mv),
{
}

/// `|x|` for a machine integer that is not the minimum.
pub(crate) fn abs_isize(x: isize) -> (r: isize)
    requires
        x > isize::MIN,
    ensures
        r == iabs(x as int),
{
    if x < 0 { -x } else { x }
}

/// The sign of `x`: -1, 0 or 1.
fn sign_isize(x: isize) -> (r: isize)
    ensures
        r == sgn(x as int),
{
    if x > 0 { 1 } else if x < 0 { -1 } else { 0 }
}

/// Bit mask of a board square given by rank and file.
pub(crate) fn square_mask(rank: usize, file: usize) -> (r: u64)
    requires
        rank * 8 + file < 64,
    ensures
        r == 1u64 << ((rank * 8 + file) as u64),
        forall|s: int| #[trigger] has_bit(r, s) <==> s == rank * 8 + file,
{
    let idx = (rank * 8 + file) as u64;
    proof {
        lemma_square_bit(idx);
        assert forall|s: int| #[trigger] has_bit(1u64 << idx, s) <==> s == rank * 8 + file by {
            if 0 <= s < 64 {
                assert(((1u64 << idx) >> (s as u64)) & 1u64 == 1u64 <==> s as u64 == idx);
            }
        }
    }
    1u64 << idx
}

impl Move {
    pub fn new(piece: ActivePiece, to: (usize, usize)) -> (r: Self)
        ensures
            r == (Move { piece, to, promotion: None }),
    {
        Move { piece, to, promotion: None }
    }

    /// Construct a pawn promotion move. `promote_to` should be a queen, rook,
    /// bishop, or knight of the correct color.
    pub fn new_promotion(piece: ActivePiece, to: (usize, usize), promote_to: Piece) -> (r: Self)
        ensures
            r == (Move { piece, to, promotion: Some(promote_to) }),
    {
        Move { piece, to, promotion: Some(promote_to) }
    }

    /// A promotion piece must be given exactly when the pawn reaches `back_rank`,
    /// and it must be a same-colored queen/rook/bishop/knight.
    fn promotion_is_valid(&self, back_rank: usize) -> (r: bool)
        ensures
            r == promotion_ok(*self, back_rank as int),
    {
        let reaches_back_rank = self.to.0 == back_rank;
        match self.promotion {
            Some(p) => {
                reaches_back_rank && p.is_white() == self.piece.piece_type.is_white() && matches!(
                    p,
                    Piece::WhiteQueen | Piece::WhiteRook | Piece::WhiteBishop | Piece::WhiteKnight
                        | Piece::BlackQueen | Piece::BlackRook | Piece::BlackBishop
                        | Piece::BlackKnight
                )
            },
            None => !reaches_back_rank,
        }
    }

    fn path_is_clear(&self, board: &Board) -> (r: bool)
        requires
            on_board(from_sq(*self)),
            on_board(self.to),
            is_line(*self),
        ensures
            r == path_clear(board@, *self),
    {
        let tr = self.to.0 as isize;
        let tf = self.to.1 as isize;
        let fr = self.piece.from_rank as isize;
        let ff = self.piece.from_file as isize;
        let dr = sign_isize(tr - fr);
        let df = sign_isize(tf - ff);
        let occupied = board.get_white_occupancy_mask() | board.get_black_occupancy_mask();
        proof { lemma_occ(board.bitboards@, 0); }
        let ghost n = line_len(*self);
        let mut r = fr + dr;
        let mut f = ff + df;
        let ghost mut k: int = 1;
        while !(r == tr && f == tf)
            invariant
                1 <= k <= n,
                n == line_len(*self),
                is_line(*self),
                on_board(from_sq(*self)),
                on_board(self.to),
                tr == self.to.0,
                tf == self.to.1,
                fr == self.piece.from_rank,
                ff == self.piece.from_file,
                dr == sgn(tr - fr),
                df == sgn(tf - ff),
                r == ray_coord(fr as int, dr as int, k),
                f == ray_coord(ff as int, df as int, k),
                occupied == all_occ(board.bitboards@),
                forall|j: int| 1 <= j < k ==> !#[trigger] has_bit(all_occ(board.bitboards@), path_square(*self, j)),
            decreases n - k,
        {
            assert(k < n);
            assert(0 <= r < 8 && 0 <= f < 8);
            let sq_mask = square_mask(r as usize, f as usize);
            proof { lemma_mask_test(occupied, (r * 8 + f) as u64); }
            if occupied & sq_mask != 0 {
                assert(has_bit(all_occ(board@.bb), path_square(*self, k)));
                assert(!path_clear(board@, *self));
                return false;
            }
            r = r + dr;
            f = f + df;
            proof { k = k + 1; }
        }
        assert(k == n);
        true
    }

    fn white_pawn_legal(&self, board: &Board) -> (r: bool)
        requires
            on_board(from_sq(*self)),
            on_board(self.to),
        ensures
            r == white_pawn_ok(board@, *self),
    {
        let from_rank = self.piece.from_rank as isize;
        let from_file = self.piece.from_file as isize;
        let mask = square_mask(self.piece.from_rank, self.piece.from_file);
        proof { lemma_mask_test(board.bitboards[0], sq_index(from_sq(*self)) as u64); }
        let pawns = board.bitboard(Piece::WhitePawn);
        let is_first_move = (mask & pawns) != 0 && self.piece.from_rank == 1;
        assert(mask & pawns == pawns & mask) by (bit_vector);
        let rank_difference = self.to.0 as isize - from_rank;
        let file_difference = self.to.1 as isize - from_file;
        let occupied = board.get_white_occupancy_mask() | board.get_black_occupancy_mask();
        proof { lemma_occ(board.bitboards@, 0); }
        let dest_mask = square_mask(self.to.0, self.to.1);
        proof { lemma_mask_test(occupied, sq_index(self.to) as u64); }
        let dest_empty = occupied & dest_mask == 0;
        if file_difference == 0 {
            if rank_difference == 1 {
                return dest_empty;
            }
            if rank_difference == 2 && is_first_move {
                let mid_mask = square_mask(self.piece.from_rank + 1, self.piece.from_file);
                proof { lemma_mask_test(occupied, ((self.piece.from_rank + 1) * 8 + self.piece.from_file) as u64); }
                return dest_empty && occupied & mid_mask == 0;
            }
            return false;
        }
        if rank_difference == 1 && abs_isize(file_difference) == 1 {
            let black_occ = board.get_black_occupancy_mask();
            proof { lemma_mask_test(black_occ, sq_index(self.to) as u64); }
            if black_occ & dest_mask != 0 {
                return true;  // ordinary diagonal capture
            }
            // en passant: destination is empty, but it matches the target
            // square set by the opponent's last (two-square) pawn move
            return match board.en_passant_target {
                Some(t) => t.0 == self.to.0 && t.1 == self.to.1,
                None => false,
            };
        }
        false
    }

    fn black_pawn_legal(&self, board: &Board) -> (r: bool)
        requires
            on_board(from_sq(*self)),
            on_board(self.to),
        ensures
            r == black_pawn_ok(board@, *self),
    {
        let from_rank = self.piece.from_rank as isize;
        let from_file = self.piece.from_file as isize;
        let mask = square_mask(self.piece.from_rank, self.piece.from_file);
        proof { lemma_mask_test(board.bitboards[6], sq_index(from_sq(*self)) as u64); }
        let pawns = board.bitboard(Piece::BlackPawn);
        let is_first_move = (mask & pawns) != 0 && self.piece.from_rank == 6;
        assert(mask & pawns == pawns & mask) by (bit_vector);
        let rank_difference = self.to.0 as isize - from_rank;
        let file_difference = self.to.1 as isize - from_file;
        let occupied = board.get_white_occupancy_mask() | board.get_black_occupancy_mask();
        proof { lemma_occ(board.bitboards@, 0); }
        let dest_mask = square_mask(self.to.0, self.to.1);
        proof { lemma_mask_test(occupied, sq_index(self.to) as u64); }
        let dest_empty = occupied & dest_mask == 0;
        if file_difference == 0 {
            if rank_difference == -1 {
                return dest_empty;
            }
            if rank_difference == -2 && is_first_move {
                let mid_mask = square_mask(self.piece.from_rank - 1, self.piece.from_file);
                proof { lemma_mask_test(occupied, ((self.piece.from_rank - 1) * 8 + self.piece.from_file) as u64); }
                return dest_empty && occupied & mid_mask == 0;
            }
            return false;
        }
        if rank_difference == -1 && abs_isize(file_difference) == 1 {
            let white_occ = board.get_white_occupancy_mask();
            proof { lemma_mask_test(white_occ, sq_index(self.to) as u64); }
            if white_occ & dest_mask != 0 {
                return true;
            }
            return match board.en_passant_target {
                Some(t) => t.0 == self.to.0 && t.1 == self.to.1,
                None => false,
            };
        }
        false
    }
}


impl Move {
    /// Geometry, occupancy, path blocking and castling rules; it does not look
    /// at whether the mover's own king is left in check (see `is_legal`).
    pub fn check_legality(&self, board: &Board) -> (r: bool)
        requires
            on_board(from_sq(*self)),
        ensures
            r == legal_shape(board@, *self),
    {
        if self.to.0 > 7 || self.to.1 > 7 {
            return false;
        }
        let friendly_occupied = if self.piece.piece_type.is_white() {
            board.get_white_occupancy_mask()
        } else {
            board.get_black_occupancy_mask()
        };
        let mask_for_checking = square_mask(self.to.0, self.to.1);
        proof { lemma_mask_test(friendly_occupied, sq_index(self.to) as u64); }
        if friendly_occupied & mask_for_checking != 0 {
            return false;
        }
        // Only a pawn reaching the last rank names a promotion piece.
        if !matches!(self.piece.piece_type, Piece::WhitePawn | Piece::BlackPawn) && self.promotion.is_some() {
            return false;
        }
        let rank_diff = abs_isize(self.piece.from_rank as isize - self.to.0 as isize);
        let file_diff = abs_isize(self.piece.from_file as isize - self.to.1 as isize);
        match self.piece.piece_type {
            Piece::WhitePawn => self.white_pawn_legal(board) && self.promotion_is_valid(7),
            Piece::BlackPawn => self.black_pawn_legal(board) && self.promotion_is_valid(0),
            Piece::WhiteKnight | Piece::BlackKnight => {
                (rank_diff == 2 && file_diff == 1) || (rank_diff == 1 && file_diff == 2)
            },
            Piece::WhiteBishop | Piece::BlackBishop => {
                rank_diff == file_diff && rank_diff != 0 && self.path_is_clear(board)
            },
            Piece::WhiteRook | Piece::BlackRook => {
                (self.piece.from_rank == self.to.0) != (self.piece.from_file == self.to.1)
                    && self.path_is_clear(board)
            },
            Piece::WhiteQueen | Piece::BlackQueen => {
                let straight = self.piece.from_rank == self.to.0 || self.piece.from_file == self.to.1;
                let diagonal = rank_diff == file_diff;
                (straight || diagonal) && (rank_diff != 0 || file_diff != 0) && self.path_is_clear(board)
            },
            Piece::WhiteKing | Piece::BlackKing => {
                if file_diff == 2 && rank_diff == 0 {
                    self.castle_is_legal(board)
                } else {
                    rank_diff <= 1 && file_diff <= 1 && (rank_diff != 0 || file_diff != 0)
                }
            },
        }
    }

    /// Castling legality: correct starting squares, rights not yet revoked,
    /// rook present, squares between empty, and the king is not in check,
    /// does not pass through check, and does not land in check.
    fn castle_is_legal(&self, board: &Board) -> (r: bool)
        requires
            on_board(from_sq(*self)),
            on_board(self.to),
        ensures
            r == castle_legal(board@, *self),
    {
        let is_white = self.piece.piece_type.is_white();
        let rank: usize = if is_white { 0 } else { 7 };
        if self.piece.from_rank != rank || self.piece.from_file != 4 {
            return false;
        }
        let kingside = self.to.1 == 6;
        let queenside = self.to.1 == 2;
        if !kingside && !queenside {
            return false;
        }
        let rights = &board.castling_rights;
        let allowed = match (is_white, kingside) {
            (true, true) => rights.white_kingside,
            (true, false) => rights.white_queenside,
            (false, true) => rights.black_kingside,
            (false, false) => rights.black_queenside,
        };
        if !allowed {
            return false;
        }
        let rook_file: usize = if kingside { 7 } else { 0 };
        let rook_piece = if is_white { Piece::WhiteRook } else { Piece::BlackRook };
        let rook_bb = board.bitboard(rook_piece);
        proof { lemma_mask_test(rook_bb, (rank * 8 + rook_file) as u64); }
        if rook_bb & square_mask(rank, rook_file) == 0 {
            return false;  // rook has moved or been captured
        }
        let occupied = board.get_white_occupancy_mask() | board.get_black_occupancy_mask();
        proof { lemma_occ(board.bitboards@, 0); }
        if kingside {
            proof {
                lemma_mask_test(occupied, (rank * 8 + 5) as u64);
                lemma_mask_test(occupied, (rank * 8 + 6) as u64);
            }
            if occupied & square_mask(rank, 5) != 0 || occupied & square_mask(rank, 6) != 0 {
                return false;
            }
        } else {
            proof {
                lemma_mask_test(occupied, (rank * 8 + 1) as u64);
                lemma_mask_test(occupied, (rank * 8 + 2) as u64);
                lemma_mask_test(occupied, (rank * 8 + 3) as u64);
            }
            if occupied & square_mask(rank, 1) != 0 || occupied & square_mask(rank, 2) != 0
                || occupied & square_mask(rank, 3) != 0 {
                return false;
            }
        }
        // King can't start in, pass through, or land on an attacked square.
        let pass_file: usize = if kingside { 5 } else { 3 };
        let land_file: usize = if kingside { 6 } else { 2 };
        if Self::square_attacked(board, (rank, 4), !is_white) {
            return false;
        }
        if Self::square_attacked(board, (rank, pass_file), !is_white) {
            return false;
        }
        if Self::square_attacked(board, (rank, land_file), !is_white) {
            return false;
        }
        true
    }

    /// Whether the piece attacks the destination: a pawn its forward
    /// diagonals, a king its neighbours, other pieces the squares they could
    /// move to; never a square holding a piece of its own colour.
    fn attacks(&self, board: &Board) -> (r: bool)
        requires
            on_board(from_sq(*self)),
        ensures
            r == attack_shape(board@, *self),
    {
        if self.to.0 > 7 || self.to.1 > 7 {
            return false;
        }
        let friendly_occupied = if self.piece.piece_type.is_white() {
            board.get_white_occupancy_mask()
        } else {
            board.get_black_occupancy_mask()
        };
        let mask_for_checking = square_mask(self.to.0, self.to.1);
        proof { lemma_mask_test(friendly_occupied, sq_index(self.to) as u64); }
        if friendly_occupied & mask_for_checking != 0 {
            return false;
        }
        let rank_diff = abs_isize(self.piece.from_rank as isize - self.to.0 as isize);
        let file_diff = abs_isize(self.piece.from_file as isize - self.to.1 as isize);
        match self.piece.piece_type {
            Piece::WhitePawn => self.to.0 == self.piece.from_rank + 1 && file_diff == 1,
            Piece::BlackPawn => self.to.0 + 1 == self.piece.from_rank && file_diff == 1,
            Piece::WhiteKnight | Piece::BlackKnight => {
                (rank_diff == 2 && file_diff == 1) || (rank_diff == 1 && file_diff == 2)
            },
            Piece::WhiteBishop | Piece::BlackBishop => {
                rank_diff == file_diff && rank_diff != 0 && self.path_is_clear(board)
            },
            Piece::WhiteRook | Piece::BlackRook => {
                (self.piece.from_rank == self.to.0) != (self.piece.from_file == self.to.1)
                    && self.path_is_clear(board)
            },
            Piece::WhiteQueen | Piece::BlackQueen => {
                let straight = self.piece.from_rank == self.to.0 || self.piece.from_file == self.to.1;
                let diagonal = rank_diff == file_diff;
                (straight || diagonal) && (rank_diff != 0 || file_diff != 0) && self.path_is_clear(board)
            },
            Piece::WhiteKing | Piece::BlackKing => {
                rank_diff <= 1 && file_diff <= 1 && (rank_diff != 0 || file_diff != 0)
            },
        }
    }

    /// True if `square` is attacked by any piece of the given color.
    pub fn square_attacked(board: &Board, square: (usize, usize), by_white: bool) -> (r: bool)
        ensures
            r == attacked(board@, square, by_white),
    {
        let pieces = Piece::all_of_color(by_white);
        let base: usize = if by_white { 0 } else { 6 };
        let mut k: usize = 0;
        while k < 6
            invariant
                k <= 6,
                base == (if by_white { 0usize } else { 6usize }),
                forall|i: int| 0 <= i < 6 ==> #[trigger] pieces[i].id() == base + i,
                forall|p: Piece, s: int|
                    p.white() == by_white && p.id() < base + k && 0 <= s < 64 && #[trigger] has_bit(
                        board@.bb[p.id()],
                        s,
                    ) ==> !attack_shape(board@, #[trigger] attack_move(p, s, square)),
            decreases 6 - k,
        {
            let piece = pieces[k];
            assert(piece.id() == base + k);
            let orig = board.bitboard(piece);
            let mut bb: u64 = orig;
            while bb != 0
                invariant
                    k < 6,
                    piece.id() == base + k,
                    piece.white() == by_white,
                    orig == board@.bb[piece.id()],
                    forall|s: int| #[trigger] has_bit(bb, s) ==> has_bit(orig, s),
                    forall|s: int|
                        #[trigger] has_bit(orig, s) && !has_bit(bb, s) ==> !attack_shape(
                            board@,
                            attack_move(piece, s, square),
                        ),
                decreases bb,
            {
                proof { lemma_pop_lowest(bb); }
                let sq = bb.trailing_zeros() as usize;
                bb &= bb - 1;
                let attacker = ActivePiece { piece_type: piece, from_rank: sq / 8, from_file: sq % 8 };
                let attacking_move = Move::new(attacker, square);
                assert(attacking_move == attack_move(piece, sq as int, square));
                if attacking_move.attacks(board) {
                    assert(has_bit(board@.bb[piece.id()], sq as int));
                    assert(attacked(board@, square, by_white));
                    return true;
                }
            }
            assert forall|s: int| 0 <= s < 64 && #[trigger] has_bit(board@.bb[piece.id()], s) implies !attack_shape(
                board@,
                attack_move(piece, s, square),
            ) by {
                let j = s as u64;
                assert((0u64 >> j) & 1u64 == 0u64) by (bit_vector);
                assert(!has_bit(bb, s));
            }
            k += 1;
        }
        assert(!attacked(board@, square, by_white)) by {
            assert forall|p: Piece, s: int|
                p.white() == by_white && 0 <= s < 64 && #[trigger] has_bit(board@.bb[p.id()], s)
                implies !attack_shape(board@, #[trigger] attack_move(p, s, square)) by {
                assert(p.id() < base + 6);
            }
        }
        false
    }
}


/// Clearing bit `from` of one bitboard leaves square `to` of the board's
/// occupancy unchanged when the squares differ.
proof fn lemma_clear_keeps_other(bb: Seq<u64>, i: int, from: int, to: int)
    requires
        bb.len() == 12,
        0 <= i < 12,
        0 <= from < 64,
        0 <= to < 64,
        from != to,
    ensures
        has_bit(all_occ(bb.update(i, bb[i] & !(1u64 << (from as u64)))), to) == has_bit(all_occ(bb), to),
{
    let bb1 = bb.update(i, bb[i] & !(1u64 << (from as u64)));
    lemma_occ(bb, to);
    lemma_occ(bb1, to);
    lemma_bit_ops(bb[i], 1u64 << (from as u64));
    lemma_square_bit(from as u64);
    assert(has_bit(bb1[i], to) == has_bit(bb[i], to));
    if occupied_in(bb, 0, 12, to) {
        let k = choose|k: int| 0 <= k < 12 && #[trigger] has_bit(bb[k], to);
        assert(has_bit(bb1[k], to));
    }
    if occupied_in(bb1, 0, 12, to) {
        let k = choose|k: int| 0 <= k < 12 && #[trigger] has_bit(bb1[k], to);
        assert(has_bit(bb[k], to));
    }
}

impl Move {
    pub fn execute_move(&self, board: &mut Board)
        requires
            move_in_range(old(board)@, *self),
        ensures
            final(board)@ == executed(old(board)@, *self),
    {
        let ghost b0 = board@;
        let pt = self.piece.piece_type;
        let curr_position_mask = square_mask(self.piece.from_rank, self.piece.from_file);
        let new_position_mask = square_mask(self.to.0, self.to.1);
        let is_white = pt.is_white();
        let cleared = board.bitboard(pt) & !curr_position_mask;
        board.set_bitboard(pt, cleared);
        let ghost bb1 = board.bitboards@;
        assert(bb1 == b0.bb.update(pt.id(), b0.bb[pt.id()] & !(1u64 << (sq_index(from_sq(*self)) as u64))));
        // En passant: the captured pawn sits behind the destination square,
        // not on it -- detect this as "diagonal pawn move onto an empty square".
        let occupied = board.get_white_occupancy_mask() | board.get_black_occupancy_mask();
        proof {
            lemma_occ(bb1, sq_index(self.to));
            lemma_mask_test(occupied, sq_index(self.to) as u64);
        }
        let is_en_passant = matches!(pt, Piece::WhitePawn | Piece::BlackPawn)
            && self.piece.from_file != self.to.1 && occupied & new_position_mask == 0;
        proof {
            if pt.is_pawn() && self.piece.from_file != self.to.1 {
                lemma_clear_keeps_other(b0.bb, pt.id(), sq_index(from_sq(*self)), sq_index(self.to));
            }
        }
        assert(is_en_passant == is_ep_capture(b0, *self));
        if is_en_passant {
            let captured_rank = if is_white { self.to.0 - 1 } else { self.to.0 + 1 };
            let captured_mask = square_mask(captured_rank, self.to.1);
            let captured_piece = if is_white { Piece::BlackPawn } else { Piece::WhitePawn };
            let v = board.bitboard(captured_piece) & !captured_mask;
            board.set_bitboard(captured_piece, v);
        } else {
            let range = pt.enemy_indices();
            let mut i = range.start;
            while i < range.end
                invariant
                    range.start <= i <= range.end,
                    range.end == range.start + 6,
                    range.end <= 12,
                    range.start == (if is_white { 6usize } else { 0usize }),
                    board.bitboards@.len() == 12,
                    forall|j: int| 0 <= j < 12 ==> #[trigger] board.bitboards@[j] == (if range.start <= j < i {
                        bb1[j] & !new_position_mask
                    } else {
                        bb1[j]
                    }),
                    board.en_passant_target == b0.ep,
                    board.castling_rights == b0.rights,
                decreases range.end - i,
            {
                board.bitboards[i] = board.bitboards[i] & !new_position_mask;
                i += 1;
            }
            assert(board.bitboards@ =~= clear_squares(bb1, range.start as int, range.start + 6, new_position_mask));
        }
        // Promotion: the piece that lands is the chosen piece, not the pawn.
        let landing = match self.promotion {
            Some(p) => p,
            None => pt,
        };
        let v = board.bitboard(landing) | new_position_mask;
        board.set_bitboard(landing, v);
        // Castling: also relocate the rook to the other side of the king.
        if matches!(pt, Piece::WhiteKing | Piece::BlackKing) && abs_isize(
            self.piece.from_file as isize - self.to.1 as isize,
        ) == 2 {
            let rank = self.piece.from_rank;
            let kingside = self.to.1 == 6;
            let rook_piece = if is_white { Piece::WhiteRook } else { Piece::BlackRook };
            let (rook_from, rook_to): (usize, usize) = if kingside { (7, 5) } else { (0, 3) };
            let v1 = board.bitboard(rook_piece) & !square_mask(rank, rook_from);
            board.set_bitboard(rook_piece, v1);
            let v2 = board.bitboard(rook_piece) | square_mask(rank, rook_to);
            board.set_bitboard(rook_piece, v2);
        }
        // Set (or clear) the en passant target for the *next* move.
        board.en_passant_target = if matches!(pt, Piece::WhitePawn | Piece::BlackPawn) && abs_isize(
            self.to.0 as isize - self.piece.from_rank as isize,
        ) == 2 {
            Some(((self.to.0 + self.piece.from_rank) / 2, self.to.1))
        } else {
            None
        };
        Self::update_castling_rights(board, self);
        assert(board.bitboards@ =~= executed(b0, *self).bb);
    }

    /// Revoke castling rights when a king moves, or when a rook moves away
    /// from or is captured on its home corner.
    fn update_castling_rights(board: &mut Board, mv: &Move)
        ensures
            final(board).castling_rights == rights_after(old(board).castling_rights, *mv),
            final(board).bitboards == old(board).bitboards,
            final(board).en_passant_target == old(board).en_passant_target,
    {
        if matches!(mv.piece.piece_type, Piece::WhiteKing | Piece::BlackKing) {
            if mv.piece.piece_type.is_white() {
                board.castling_rights.white_kingside = false;
                board.castling_rights.white_queenside = false;
            } else {
                board.castling_rights.black_kingside = false;
                board.castling_rights.black_queenside = false;
            }
        }
        revoke_for_square(&mut board.castling_rights, (mv.piece.from_rank, mv.piece.from_file));
        revoke_for_square(&mut board.castling_rights, mv.to);
    }

    /// Full legality: geometry/occupancy/path-blocking/castling-rules, *and*
    /// the move must not leave the mover's own king in check.
    pub fn is_legal(&self, board: &Board) -> (r: bool)
        requires
            on_board(from_sq(*self)),
        ensures
            r == fully_legal(board@, *self),
    {
        if !self.check_legality(board) {
            return false;
        }
        proof { lemma_legal_in_range(board@, *self); }
        let mut hypothetical = board.clone();
        self.execute_move(&mut hypothetical);
        !Self::king_in_check(&hypothetical, self.piece.piece_type.is_white())
    }

    pub fn king_in_check(board: &Board, is_white: bool) -> (r: bool)
        ensures
            r == in_check(board@, is_white),
    {
        let king_piece = if is_white { Piece::WhiteKing } else { Piece::BlackKing };
        let king_bb = board.bitboard(king_piece);
        if king_bb == 0 {
            return false;
        }
        proof { lemma_pop_lowest(king_bb); }
        let king_square = king_bb.trailing_zeros() as usize;
        Self::square_attacked(board, (king_square / 8, king_square % 8), !is_white)
    }

    /// Executes the move when it is fully legal; reports whether it did.
    pub fn check_and_execute(&self, board: &mut Board) -> (r: bool)
        requires
            on_board(from_sq(*self)),
        ensures
            r == fully_legal(old(board)@, *self),
            r ==> final(board)@ == executed(old(board)@, *self),
            !r ==> *final(board) == *old(board),
    {
        if self.is_legal(board) {
            proof { lemma_legal_in_range(board@, *self); }
            self.execute_move(board);
            true
        } else {
            false
        }
    }
}

/// Revokes the right of the rook whose corner is `square`.
fn revoke_for_square(rights: &mut CastlingRights, square: (usize, usize))
    ensures
        final(rights).white_kingside == (old(rights).white_kingside && square != (0usize, 7usize)),
        final(rights).white_queenside == (old(rights).white_queenside && square != (0usize, 0usize)),
        final(rights).black_kingside == (old(rights).black_kingside && square != (7usize, 7usize)),
        final(rights).black_queenside == (old(rights).black_queenside && square != (7usize, 0usize)),
{
    match square {
        (0, 7) => rights.white_kingside = false,
        (0, 0) => rights.white_queenside = false,
        (7, 7) => rights.black_kingside = false,
        (7, 0) => rights.black_queenside = false,
        _ => {},
    }
}

// ---------------------------------------------------------------------------
// Laws of the rules: castling, knight attacks, the castling rook.
// ---------------------------------------------------------------------------

/// Castling of a colour depends on that colour's own rights only: changing
/// the other colour's rights changes neither the rules nor full legality of a
/// king move.
pub proof fn lemma_castling_own_rights(b: BoardView, b2: BoardView, mv: Move)
    requires
        b2.bb == b.bb,
        b2.ep == b.ep,
        mv.piece.piece_type == Piece::WhiteKing || mv.piece.piece_type == Piece::BlackKing,
        mv.piece.piece_type == Piece::WhiteKing ==> b2.rights.white_kingside == b.rights.white_kingside
            && b2.rights.white_queenside == b.rights.white_queenside,
        mv.piece.piece_type == Piece::BlackKing ==> b2.rights.black_kingside == b.rights.black_kingside
            && b2.rights.black_queenside == b.rights.black_queenside,
    ensures
        legal_shape(b2, mv) == legal_shape(b, mv),
{
    lemma_attacked_reads_pieces(b, b2);
}

/// Whether a square is attacked depends on where the pieces stand only.
proof fn lemma_attacked_reads_pieces(b: BoardView, b2: BoardView)
    requires
        b2.bb == b.bb,
    ensures
        forall|sq: (usize, usize), w: bool| attacked(b2, sq, w) == #[trigger] attacked(b, sq, w),
{
    assert forall|m: Move| #[trigger] attack_shape(b2, m) == attack_shape(b, m) by {
        assert(path_clear(b2, m) == path_clear(b, m));
    }
}

/// The king's move two files towards a rook of its colour's home rank.
pub open spec fn castling_move(white: bool, kingside: bool) -> Move {
    let rank: usize = if white { 0 } else { 7 };
    Move {
        piece: ActivePiece { piece_type: if white { Piece::WhiteKing } else { Piece::BlackKing }, from_rank: rank, from_file: 4 },
        to: (rank, if kingside { 6usize } else { 2usize }),
        promotion: None,
    }
}

/// A side may castle when its own right for that side is kept, its rook stands
/// in the corner, the squares between king and rook are empty, and the king's
/// start, passing and landing squares are not attacked.
pub proof fn lemma_castling_allowed(b: BoardView, white: bool, kingside: bool)
    requires
        b.bb.len() == 12,
        white && kingside ==> b.rights.white_kingside,
        white && !kingside ==> b.rights.white_queenside,
        !white && kingside ==> b.rights.black_kingside,
        !white && !kingside ==> b.rights.black_queenside,
        has_bit(b.bb[if white { Piece::WhiteRook.id() } else { Piece::BlackRook.id() }],
            (if white { 0int } else { 56int }) + (if kingside { 7int } else { 0int })),
        kingside ==> !has_bit(all_occ(b.bb), (if white { 0int } else { 56int }) + 5)
            && !has_bit(all_occ(b.bb), (if white { 0int } else { 56int }) + 6),
        !kingside ==> !has_bit(all_occ(b.bb), (if white { 0int } else { 56int }) + 1)
            && !has_bit(all_occ(b.bb), (if white { 0int } else { 56int }) + 2)
            && !has_bit(all_occ(b.bb), (if white { 0int } else { 56int }) + 3),
        !attacked(b, (if white { 0usize } else { 7usize }, 4usize), !white),
        !attacked(b, (if white { 0usize } else { 7usize }, if kingside { 5usize } else { 3usize }), !white),
        !attacked(b, (if white { 0usize } else { 7usize }, if kingside { 6usize } else { 2usize }), !white),
    ensures
        legal_shape(b, castling_move(white, kingside)),
{
    let mv = castling_move(white, kingside);
    let land = sq_index(mv.to);
    lemma_occ(b.bb, land);
    lemma_bit_ops(white_occ(b.bb), black_occ(b.bb));
    assert(has_bit(all_occ(b.bb), land) == (has_bit(white_occ(b.bb), land) || has_bit(black_occ(b.bb), land)));
}

/// Knights: one rank and two files, or two ranks and one file, apart.
pub open spec fn knight_step(fr: int, ff: int, tr: int, tf: int) -> bool {
    let dr = tr - fr;
    let df = tf - ff;
    ((dr == 1 || dr == -1) && (df == 2 || df == -2)) || ((dr == 2 || dr == -2) && (df == 1 || df == -1))
}

/// A knight attacks, and may move to, exactly the squares a knight's step
/// away that are on the board and not held by its own colour.
pub proof fn lemma_knight_reach(b: BoardView, mv: Move)
    requires
        mv.piece.piece_type == Piece::WhiteKnight || mv.piece.piece_type == Piece::BlackKnight,
        mv.promotion is None,
    ensures
        attack_shape(b, mv) <==> on_board(mv.to)
            && knight_step(mv.piece.from_rank as int, mv.piece.from_file as int, mv.to.0 as int, mv.to.1 as int)
            && !has_bit(if mv.piece.piece_type == Piece::WhiteKnight { white_occ(b.bb) } else { black_occ(b.bb) },
                mv.to.0 * 8 + mv.to.1),
        legal_shape(b, mv) <==> attack_shape(b, mv),
{
}

/// An enemy knight a knight's step from the king gives check.
pub proof fn lemma_knight_check(b: BoardView, white: bool, s: int)
    requires
        pieces_disjoint(b.bb),
        b.bb[if white { Piece::WhiteKing.id() } else { Piece::BlackKing.id() }] != 0,
        0 <= s < 64,
        has_bit(b.bb[if white { Piece::BlackKnight.id() } else { Piece::WhiteKnight.id() }], s),
        knight_step(s / 8, s % 8,
            king_square(b.bb[if white { Piece::WhiteKing.id() } else { Piece::BlackKing.id() }]).0 as int,
            king_square(b.bb[if white { Piece::WhiteKing.id() } else { Piece::BlackKing.id() }]).1 as int),
    ensures
        in_check(b, white),
{
    let king = if white { Piece::WhiteKing } else { Piece::BlackKing };
    let knight = if white { Piece::BlackKnight } else { Piece::WhiteKnight };
    let kbb = b.bb[king.id()];
    lemma_pop_lowest(kbb);
    let sq = king_square(kbb);
    let t = kbb.trailing_zeros() as int;
    assert(sq_index(sq) == t);
    lemma_occ(b.bb, t);
    assert(has_bit(b.bb[king.id()], t));
    assert(!has_bit(color_occ(b.bb, !white), t)) by {
        if has_bit(color_occ(b.bb, !white), t) {
            let i = choose|i: int| (if white { 6int } else { 0int }) <= i < (if white { 12int } else { 6int }) && #[trigger] has_bit(b.bb[i], t);
            assert(i != king.id());
        }
    }
    let m = attack_move(knight, s, sq);
    lemma_knight_reach(b, m);
    assert(attack_shape(b, m));
    assert(knight.white() == !white);
    assert(has_bit(b.bb[knight.id()], s) && attack_shape(b, attack_move(knight, s, sq)));
}

/// When the king castles, the rook jumps from its corner to the square the
/// king passed over, and the king lands two files from its start.
pub proof fn lemma_castling_moves_rook(b: BoardView, mv: Move)
    requires
        b.bb.len() == 12,
        mv.piece.piece_type == Piece::WhiteKing || mv.piece.piece_type == Piece::BlackKing,
        mv.piece.from_rank < 8,
        mv.piece.from_file == 4,
        mv.to.0 == mv.piece.from_rank,
        mv.to.1 == 6 || mv.to.1 == 2,
        mv.promotion is None,
    ensures
        ({
            let rook = if mv.piece.piece_type == Piece::WhiteKing { Piece::WhiteRook } else { Piece::BlackRook };
            let rank = mv.piece.from_rank as int;
            let after = executed(b, mv).bb;
            &&& has_bit(after[rook.id()], rank * 8 + (4 + mv.to.1) / 2)
            &&& !has_bit(after[rook.id()], rank * 8 + (if mv.to.1 == 6 { 7int } else { 0int }))
            &&& has_bit(after[mv.piece.piece_type.id()], rank * 8 + mv.to.1)
            &&& !has_bit(after[mv.piece.piece_type.id()], rank * 8 + 4)
        }),
{
    let rook = if mv.piece.piece_type == Piece::WhiteKing { Piece::WhiteRook } else { Piece::BlackRook };
    let rank = mv.piece.from_rank as int;
    let after = executed(b, mv).bb;
    let mid: u64 = (rank * 8 + (4 + mv.to.1) / 2) as u64;
    let corner: u64 = (rank * 8 + (if mv.to.1 == 6 { 7int } else { 0int })) as u64;
    let from: u64 = (rank * 8 + 4) as u64;
    let to: u64 = (rank * 8 + mv.to.1) as u64;
    assert(is_castle_move(mv));
    assert(!is_ep_capture(b, mv));
    let pt = mv.piece.piece_type;
    let white = pt.white();
    let bb1 = b.bb.update(pt.id(), b.bb[pt.id()] & !(1u64 << from));
    let lo: int = if white { 6 } else { 0 };
    let bb2 = clear_squares(bb1, lo, lo + 6, 1u64 << to);
    let bb3 = bb2.update(pt.id(), bb2[pt.id()] | (1u64 << to));
    assert(castle_rook_files(mv).1 == (4 + mv.to.1) / 2);
    assert(rank * 8 + castle_rook_files(mv).0 == corner);
    let r1v = bb3[rook.id()] & !(1u64 << corner);
    assert(after[rook.id()] == r1v | (1u64 << mid));
    assert(after[pt.id()] == bb3[pt.id()]);
    assert(bb2[pt.id()] == bb1[pt.id()]);
    let x = b.bb[pt.id()];
    assert(after[pt.id()] == (x & !(1u64 << from)) | (1u64 << to));
    assert(mid < 64 && corner < 64 && from < 64 && to < 64 && mid != corner && from != to);
    let y = bb3[rook.id()];
    assert(((r1v | (1u64 << mid)) >> mid) & 1u64 == 1u64) by (bit_vector)
        requires mid < 64, r1v == y & !(1u64 << corner);
    assert(((r1v | (1u64 << mid)) >> corner) & 1u64 != 1u64) by (bit_vector)
        requires mid < 64, corner < 64, mid != corner, r1v == y & !(1u64 << corner);
    let k = (x & !(1u64 << from)) | (1u64 << to);
    assert((k >> to) & 1u64 == 1u64) by (bit_vector)
        requires to < 64, k == (x & !(1u64 << from)) | (1u64 << to);
    assert((k >> from) & 1u64 != 1u64) by (bit_vector)
        requires to < 64, from < 64, to != from, k == (x & !(1u64 << from)) | (1u64 << to);
}

/// Castling is allowed only as the rules say: a king's two-file move along
/// its rank that passes the rules starts on its home square, lands on the g
/// or c file, and needs its own colour's right for that side, the rook in the
/// corner, empty squares in between and no attack on the king's start,
/// passing and landing squares.
pub proof fn lemma_castling_needs(b: BoardView, mv: Move)
    requires
        mv.piece.piece_type == Piece::WhiteKing || mv.piece.piece_type == Piece::BlackKing,
        mv.to.0 == mv.piece.from_rank,
        mv.to.1 == mv.piece.from_file + 2 || mv.to.1 + 2 == mv.piece.from_file,
        legal_shape(b, mv),
    ensures
        ({
            let white = mv.piece.piece_type == Piece::WhiteKing;
            let rank: int = if white { 0 } else { 7 };
            let kingside = mv.to.1 == 6;
            let rook = if white { Piece::WhiteRook } else { Piece::BlackRook };
            &&& mv.piece.from_rank == rank && mv.piece.from_file == 4
            &&& mv.to.1 == 6 || mv.to.1 == 2
            &&& kingside ==> (if white { b.rights.white_kingside } else { b.rights.black_kingside })
            &&& !kingside ==> (if white { b.rights.white_queenside } else { b.rights.black_queenside })
            &&& has_bit(b.bb[rook.id()], rank * 8 + if kingside { 7int } else { 0int })
            &&& kingside ==> !has_bit(all_occ(b.bb), rank * 8 + 5) && !has_bit(all_occ(b.bb), rank * 8 + 6)
            &&& !kingside ==> !has_bit(all_occ(b.bb), rank * 8 + 1) && !has_bit(all_occ(b.bb), rank * 8 + 2)
                && !has_bit(all_occ(b.bb), rank * 8 + 3)
            &&& !attacked(b, (rank as usize, 4usize), !white)
            &&& !attacked(b, (rank as usize, if kingside { 5usize } else { 3usize }), !white)
            &&& !attacked(b, (rank as usize, if kingside { 6usize } else { 2usize }), !white)
        }),
{
}

/// Pawns attack the two squares diagonally ahead of them (up the board for
/// white, down for black) that are on the board and not held by their own
/// colour, whatever stands there; kings attack the neighbouring squares not
/// held by their own colour.
pub proof fn lemma_pawn_king_attacks(b: BoardView, mv: Move)
    requires
        mv.piece.piece_type == Piece::WhitePawn || mv.piece.piece_type == Piece::BlackPawn
            || mv.piece.piece_type == Piece::WhiteKing || mv.piece.piece_type == Piece::BlackKing,
    ensures
        ({
            let white = mv.piece.piece_type.white();
            let dr = mv.to.0 - mv.piece.from_rank;
            let df = mv.to.1 - mv.piece.from_file;
            let free = on_board(mv.to) && !has_bit(if white { white_occ(b.bb) } else { black_occ(b.bb) },
                mv.to.0 * 8 + mv.to.1);
            &&& mv.piece.piece_type.is_pawn() ==> (attack_shape(b, mv) <==> free
                && dr == (if white { 1int } else { -1int }) && (df == 1 || df == -1))
            &&& mv.piece.piece_type.is_king() ==> (attack_shape(b, mv) <==> free
                && -1 <= dr <= 1 && -1 <= df <= 1 && (dr != 0 || df != 0))
        }),
{
}

/// Bishops, rooks and queens attack exactly the squares they may move to.
pub proof fn lemma_slider_attacks(b: BoardView, mv: Move)
    requires
        !mv.piece.piece_type.is_pawn(),
        !mv.piece.piece_type.is_king(),
        mv.promotion is None,
    ensures
        attack_shape(b, mv) == legal_shape(b, mv),
{
}

/// Castling rights are only ever lost: a king move loses both of its colour's
/// rights, a move from or onto a rook's corner loses the right of that rook,
/// and any other right is kept.
pub proof fn lemma_rights_after_move(b: BoardView, mv: Move)
    ensures
        ({
            let r = executed(b, mv).rights;
            let from = (mv.piece.from_rank, mv.piece.from_file);
            &&& r.white_kingside == (b.rights.white_kingside && mv.piece.piece_type != Piece::WhiteKing
                && from != (0usize, 7usize) && mv.to != (0usize, 7usize))
            &&& r.white_queenside == (b.rights.white_queenside && mv.piece.piece_type != Piece::WhiteKing
                && from != (0usize, 0usize) && mv.to != (0usize, 0usize))
            &&& r.black_kingside == (b.rights.black_kingside && mv.piece.piece_type != Piece::BlackKing
                && from != (7usize, 7usize) && mv.to != (7usize, 7usize))
            &&& r.black_queenside == (b.rights.black_queenside && mv.piece.piece_type != Piece::BlackKing
                && from != (7usize, 0usize) && mv.to != (7usize, 0usize))
        }),
{
}

} // verus!

use vstd::prelude::*;
use crate::bits::{has_bit, lemma_mask_test, lemma_pop_lowest, lemma_bit_ops};
use crate::board::{Board, BoardView, Piece, sq_index, on_board, white_occ, black_occ, all_occ, lemma_occ};
use crate::moves::{
    Move, ActivePiece, fully_legal, from_sq, home_rank, ray_coord, square_mask, in_check, move_in_range, legal_shape,
    color_occ, path_clear, path_square, line_len, rank_diff, file_diff, sgn, mover_white, is_line, white_pawn_ok,
    black_pawn_ok, castle_legal,
};

verus! {

// ---------------------------------------------------------------------------
// Move generation
//
// Candidate destinations are produced directly from each piece's movement
// pattern (knight offsets, sliding rays stopped at the first blocker, the
// pawn's small fixed set of destinations); each candidate is then run
// through `is_legal`.
// ---------------------------------------------------------------------------

pub open spec fn knight_offsets_spec() -> Seq<(isize, isize)> {
    seq![(1isize, 2isize), (1isize, -2isize), (-1isize, 2isize), (-1isize, -2isize), (2isize, 1isize), (2isize, -1isize), (-2isize, 1isize), (-2isize, -1isize)]
}

pub open spec fn king_offsets_spec() -> Seq<(isize, isize)> {
    seq![(-1isize, -1isize), (-1isize, 0isize), (-1isize, 1isize), (0isize, -1isize), (0isize, 1isize), (1isize, -1isize), (1isize, 0isize), (1isize, 1isize)]
}

pub open spec fn bishop_directions_spec() -> Seq<(isize, isize)> {
    seq![(1isize, 1isize), (1isize, -1isize), (-1isize, 1isize), (-1isize, -1isize)]
}

pub open spec fn rook_directions_spec() -> Seq<(isize, isize)> {
    seq![(1isize, 0isize), (-1isize, 0isize), (0isize, 1isize), (0isize, -1isize)]
}

fn knight_offsets() -> (r: [(isize, isize); 8])
    ensures
        r@ == knight_offsets_spec(),
{
    let r = [(1, 2), (1, -2), (-1, 2), (-1, -2), (2, 1), (2, -1), (-2, 1), (-2, -1)];
    assert(r@ =~= knight_offsets_spec());
    r
}

fn king_offsets() -> (r: [(isize, isize); 8])
    ensures
        r@ == king_offsets_spec(),
{
    let r = [(-1, -1), (-1, 0), (-1, 1), (0, -1), (0, 1), (1, -1), (1, 0), (1, 1)];
    assert(r@ =~= king_offsets_spec());
    r
}

fn bishop_directions() -> (r: [(isize, isize); 4])
    ensures
        r@ == bishop_directions_spec(),
{
    let r = [(1, 1), (1, -1), (-1, 1), (-1, -1)];
    assert(r@ =~= bishop_directions_spec());
    r
}

fn rook_directions() -> (r: [(isize, isize); 4])
    ensures
        r@ == rook_directions_spec(),
{
    let r = [(1, 0), (-1, 0), (0, 1), (0, -1)];
    assert(r@ =~= rook_directions_spec());
    r
}

pub open spec fn in_range8(x: int) -> bool {
    0 <= x <= 7
}

/// Fixed-offset destinations, in the order of the offsets: those on the board
/// and not occupied by a friendly piece.
pub open spec fn offset_dests(offs: Seq<(isize, isize)>, fr: int, ff: int, friendly: u64) -> Seq<(usize, usize)>
    decreases offs.len(),
{
    if offs.len() == 0 {
        seq![]
    } else {
        let prev = offset_dests(offs.drop_last(), fr, ff, friendly);
        let r = fr + offs.last().0;
        let f = ff + offs.last().1;
        if in_range8(r) && in_range8(f) && !has_bit(friendly, r * 8 + f) {
            prev.push((r as usize, f as usize))
        } else {
            prev
        }
    }
}

/// The squares a slider reaches from `(fr, ff)` in direction `(dr, df)`,
/// starting at step `k`: it stops before a friendly piece and on an enemy one.
pub open spec fn ray_from(fr: int, ff: int, dr: int, df: int, friendly: u64, occupied: u64, k: int) -> Seq<(usize, usize)>
    decreases 8 - k,
{
    let r = ray_coord(fr, dr, k);
    let f = ray_coord(ff, df, k);
    if !(1 <= k < 8) || !in_range8(r) || !in_range8(f) {
        seq![]
    } else if has_bit(friendly, r * 8 + f) {
        seq![]
    } else if has_bit(occupied, r * 8 + f) {
        seq![(r as usize, f as usize)]
    } else {
        seq![(r as usize, f as usize)] + ray_from(fr, ff, dr, df, friendly, occupied, k + 1)
    }
}

/// The rays of several directions, one after the other.
pub open spec fn ray_dests(dirs: Seq<(isize, isize)>, fr: int, ff: int, friendly: u64, occupied: u64) -> Seq<(usize, usize)>
    decreases dirs.len(),
{
    if dirs.len() == 0 {
        seq![]
    } else {
        ray_dests(dirs.drop_last(), fr, ff, friendly, occupied) + ray_from(
            fr,
            ff,
            dirs.last().0 as int,
            dirs.last().1 as int,
            friendly,
            occupied,
            1,
        )
    }
}

/// A pawn's candidate destination on a diagonal: on the board and holding an
/// enemy piece or being the en passant square.
pub open spec fn pawn_capture_dest(b: BoardView, fr: int, ff: int, white: bool, df: int) -> Seq<(usize, usize)> {
    let r = fr + (if white { 1int } else { -1int });
    let f = ff + df;
    let enemy = if white { black_occ(b.bb) } else { white_occ(b.bb) };
    if in_range8(r) && in_range8(f) && (has_bit(enemy, r * 8 + f) || b.ep == Some((r as usize, f as usize))) {
        seq![(r as usize, f as usize)]
    } else {
        seq![]
    }
}

/// A pawn's candidates: one step forward onto an empty square, then two steps
/// from the starting rank if both squares are empty, then the two diagonals.
pub open spec fn pawn_dests(b: BoardView, fr: int, ff: int, white: bool, occupied: u64) -> Seq<(usize, usize)> {
    let dir: int = if white { 1 } else { -1 };
    let start: int = if white { 1 } else { 6 };
    let one = fr + dir;
    let two = fr + 2 * dir;
    let forward = if in_range8(one) && !has_bit(occupied, one * 8 + ff) {
        if fr == start && in_range8(two) && !has_bit(occupied, two * 8 + ff) {
            seq![(one as usize, ff as usize), (two as usize, ff as usize)]
        } else {
            seq![(one as usize, ff as usize)]
        }
    } else {
        seq![]
    };
    forward + pawn_capture_dest(b, fr, ff, white, -1) + pawn_capture_dest(b, fr, ff, white, 1)
}

/// All candidate destinations for one piece.
pub open spec fn pseudo_dests(b: BoardView, pt: Piece, fr: int, ff: int) -> Seq<(usize, usize)> {
    let white = pt.white();
    let friendly = if white { white_occ(b.bb) } else { black_occ(b.bb) };
    let enemy = if white { black_occ(b.bb) } else { white_occ(b.bb) };
    let occupied = friendly | enemy;
    match pt {
        Piece::WhiteKnight | Piece::BlackKnight => offset_dests(knight_offsets_spec(), fr, ff, friendly),
        Piece::WhiteKing | Piece::BlackKing => {
            let d = offset_dests(king_offsets_spec(), fr, ff, friendly);
            if fr == home_rank(white) && ff == 4 {
                d.push((fr as usize, 6usize)).push((fr as usize, 2usize))
            } else {
                d
            }
        },
        Piece::WhiteBishop | Piece::BlackBishop => ray_dests(bishop_directions_spec(), fr, ff, friendly, occupied),
        Piece::WhiteRook | Piece::BlackRook => ray_dests(rook_directions_spec(), fr, ff, friendly, occupied),
        Piece::WhiteQueen | Piece::BlackQueen => ray_dests(bishop_directions_spec(), fr, ff, friendly, occupied)
            + ray_dests(rook_directions_spec(), fr, ff, friendly, occupied),
        Piece::WhitePawn => pawn_dests(b, fr, ff, true, occupied),
        Piece::BlackPawn => pawn_dests(b, fr, ff, false, occupied),
    }
}


fn self_home_rank(is_white: bool) -> (r: usize)
    ensures
        r == home_rank(is_white),
{
    if is_white { 0 } else { 7 }
}

/// Fixed-offset pieces (knight, king): try each offset once, keep it if it's
/// on the board and not occupied by a friendly piece.
fn offset_destinations(offsets: &[(isize, isize)], from_rank: usize, from_file: usize, friendly: u64) -> (dests: Vec<(usize, usize)>)
    requires
        from_rank < 8,
        from_file < 8,
        forall|i: int| 0 <= i < offsets@.len() ==> -8 <= #[trigger] offsets@[i].0 <= 8 && -8 <= offsets@[i].1 <= 8,
    ensures
        dests@ == offset_dests(offsets@, from_rank as int, from_file as int, friendly),
{
    let mut dests = Vec::with_capacity(offsets.len());
    let mut i: usize = 0;
    while i < offsets.len()
        invariant
            i <= offsets@.len(),
            from_rank < 8,
            from_file < 8,
            forall|i: int| 0 <= i < offsets@.len() ==> -8 <= #[trigger] offsets@[i].0 <= 8 && -8 <= offsets@[i].1 <= 8,
            dests@ == offset_dests(offsets@.subrange(0, i as int), from_rank as int, from_file as int, friendly),
        decreases offsets@.len() - i,
    {
        let (dr, df) = offsets[i];
        assert(offsets@.subrange(0, i + 1).drop_last() =~= offsets@.subrange(0, i as int));
        let r = from_rank as isize + dr;
        let f = from_file as isize + df;
        if !(0 <= r && r <= 7) || !(0 <= f && f <= 7) {
            i += 1;
            continue;
        }
        let (r, f) = (r as usize, f as usize);
        let mask = square_mask(r, f);
        proof { lemma_mask_test(friendly, (r * 8 + f) as u64); }
        if friendly & mask == 0 {
            dests.push((r, f));
        }
        i += 1;
    }
    assert(offsets@.subrange(0, offsets@.len() as int) =~= offsets@);
    dests
}

/// One direction of a slider, walked a square at a time.
fn ray_walk(from_rank: usize, from_file: usize, dr: isize, df: isize, friendly: u64, occupied: u64, dests: &mut Vec<(usize, usize)>)
    requires
        from_rank < 8,
        from_file < 8,
        -1 <= dr <= 1,
        -1 <= df <= 1,
        dr != 0 || df != 0,
    ensures
        final(dests)@ == old(dests)@ + ray_from(from_rank as int, from_file as int, dr as int, df as int, friendly, occupied, 1),
{
    let ghost start = dests@;
    let mut r = from_rank as isize + dr;
    let mut f = from_file as isize + df;
    let ghost mut k: int = 1;
    while (0 <= r && r <= 7) && (0 <= f && f <= 7)
        invariant_except_break
            1 <= k < 8 || !(in_range8(r as int) && in_range8(f as int)),
            start + ray_from(from_rank as int, from_file as int, dr as int, df as int, friendly, occupied, 1)
                == dests@ + ray_from(from_rank as int, from_file as int, dr as int, df as int, friendly, occupied, k),
        invariant
            from_rank < 8,
            from_file < 8,
            -1 <= dr <= 1,
            -1 <= df <= 1,
            dr != 0 || df != 0,
            k >= 1,
            r == ray_coord(from_rank as int, dr as int, k),
            f == ray_coord(from_file as int, df as int, k),
        ensures
            final(dests)@ == start + ray_from(from_rank as int, from_file as int, dr as int, df as int, friendly, occupied, 1),
        decreases 8 - k,
    {
        let (ru, fu) = (r as usize, f as usize);
        let mask = square_mask(ru, fu);
        proof {
            lemma_mask_test(friendly, (ru * 8 + fu) as u64);
            lemma_mask_test(occupied, (ru * 8 + fu) as u64);
        }
        if friendly & mask != 0 {
            assert(dests@ =~= start + ray_from(from_rank as int, from_file as int, dr as int, df as int, friendly, occupied, 1));
            break;  // blocked by our own piece, and can't land on it
        }
        dests.push((ru, fu));
        if occupied & mask != 0 {
            assert(dests@ =~= start + ray_from(from_rank as int, from_file as int, dr as int, df as int, friendly, occupied, 1));
            break;  // captured an enemy piece here, ray stops
        }
        r += dr;
        f += df;
        proof {
            k = k + 1;
        }
        assert(start + ray_from(from_rank as int, from_file as int, dr as int, df as int, friendly, occupied, 1)
            =~= dests@ + ray_from(from_rank as int, from_file as int, dr as int, df as int, friendly, occupied, k));
    }
    assert(dests@ =~= start + ray_from(from_rank as int, from_file as int, dr as int, df as int, friendly, occupied, 1));
}

/// Sliding pieces (bishop, rook, queen): walk each direction one square at a
/// time, stopping at the edge of the board, a friendly piece (excluded), or
/// an enemy piece (included, since that's a capture, then stop).
fn ray_destinations(directions: &[(isize, isize)], from_rank: usize, from_file: usize, friendly: u64, occupied: u64) -> (dests: Vec<(usize, usize)>)
    requires
        from_rank < 8,
        from_file < 8,
        forall|i: int| 0 <= i < directions@.len() ==> -1 <= #[trigger] directions@[i].0 <= 1 && -1 <= directions@[i].1 <= 1
            && (directions@[i].0 != 0 || directions@[i].1 != 0),
    ensures
        dests@ == ray_dests(directions@, from_rank as int, from_file as int, friendly, occupied),
{
    let mut dests = Vec::new();
    let mut i: usize = 0;
    while i < directions.len()
        invariant
            i <= directions@.len(),
            from_rank < 8,
            from_file < 8,
            forall|i: int| 0 <= i < directions@.len() ==> -1 <= #[trigger] directions@[i].0 <= 1 && -1 <= directions@[i].1 <= 1
                && (directions@[i].0 != 0 || directions@[i].1 != 0),
            dests@ == ray_dests(directions@.subrange(0, i as int), from_rank as int, from_file as int, friendly, occupied),
        decreases directions@.len() - i,
    {
        let (dr, df) = directions[i];
        assert(directions@.subrange(0, i + 1).drop_last() =~= directions@.subrange(0, i as int));
        ray_walk(from_rank, from_file, dr, df, friendly, occupied, &mut dests);
        i += 1;
    }
    assert(directions@.subrange(0, directions@.len() as int) =~= directions@);
    dests
}


/// Pawns have a small fixed set of possible destinations: one step forward,
/// two steps forward from the start rank, and two diagonal captures
/// (including en passant).
fn pawn_destinations(board: &Board, from_rank: usize, from_file: usize, is_white: bool, occupied: u64) -> (dests: Vec<(usize, usize)>)
    requires
        from_rank < 8,
        from_file < 8,
    ensures
        dests@ == pawn_dests(board@, from_rank as int, from_file as int, is_white, occupied),
{
    let mut dests = Vec::with_capacity(4);
    let dir: isize = if is_white { 1 } else { -1 };
    let start_rank: usize = if is_white { 1 } else { 6 };
    let one_step = from_rank as isize + dir;
    if 0 <= one_step && one_step <= 7 {
        let one_step = one_step as usize;
        proof { lemma_mask_test(occupied, (one_step * 8 + from_file) as u64); }
        if occupied & square_mask(one_step, from_file) == 0 {
            dests.push((one_step, from_file));
            if from_rank == start_rank {
                let two_step = from_rank as isize + 2 * dir;
                if 0 <= two_step && two_step <= 7 {
                    let two_step = two_step as usize;
                    proof { lemma_mask_test(occupied, (two_step * 8 + from_file) as u64); }
                    if occupied & square_mask(two_step, from_file) == 0 {
                        dests.push((two_step, from_file));
                    }
                }
            }
        }
    }
    let ghost forward = dests@;
    let enemy = if is_white {
        board.get_black_occupancy_mask()
    } else {
        board.get_white_occupancy_mask()
    };
    let dfs: [isize; 2] = [-1, 1];
    let mut k: usize = 0;
    while k < 2
        invariant
            k <= 2,
            from_rank < 8,
            from_file < 8,
            dfs@ == seq![-1isize, 1isize],
            dir == (if is_white { 1isize } else { -1isize }),
            enemy == (if is_white { black_occ(board@.bb) } else { white_occ(board@.bb) }),
            dests@ == (if k == 0 {
                forward
            } else if k == 1 {
                forward + pawn_capture_dest(board@, from_rank as int, from_file as int, is_white, -1)
            } else {
                forward + pawn_capture_dest(board@, from_rank as int, from_file as int, is_white, -1)
                    + pawn_capture_dest(board@, from_rank as int, from_file as int, is_white, 1)
            }),
        decreases 2 - k,
    {
        let df = dfs[k];
        let ghost before = dests@;
        let r = from_rank as isize + dir;
        let f = from_file as isize + df;
        if 0 <= r && r <= 7 && 0 <= f && f <= 7 {
            let (r, f) = (r as usize, f as usize);
            proof { lemma_mask_test(enemy, (r * 8 + f) as u64); }
            let on_target = match board.en_passant_target {
                Some(t) => t.0 == r && t.1 == f,
                None => false,
            };
            if enemy & square_mask(r, f) != 0 || on_target {
                dests.push((r, f));
            }
        }
        assert(dests@ =~= before + pawn_capture_dest(board@, from_rank as int, from_file as int, is_white, df as int));
        k += 1;
    }
    assert(dests@ =~= pawn_dests(board@, from_rank as int, from_file as int, is_white, occupied));
    dests
}

/// All pseudo-legal destination squares for one piece, ignoring whether the
/// resulting position leaves the mover's own king in check (that's `is_legal`'s
/// job, applied afterward).
fn pseudo_legal_destinations(board: &Board, piece_type: Piece, from_rank: usize, from_file: usize) -> (dests: Vec<(usize, usize)>)
    requires
        from_rank < 8,
        from_file < 8,
    ensures
        dests@ == pseudo_dests(board@, piece_type, from_rank as int, from_file as int),
{
    let is_white = piece_type.is_white();
    let friendly = if is_white {
        board.get_white_occupancy_mask()
    } else {
        board.get_black_occupancy_mask()
    };
    let enemy = if is_white {
        board.get_black_occupancy_mask()
    } else {
        board.get_white_occupancy_mask()
    };
    let occupied = friendly | enemy;
    match piece_type {
        Piece::WhiteKnight | Piece::BlackKnight => {
            let offs = knight_offsets();
            offset_destinations(&offs, from_rank, from_file, friendly)
        },
        Piece::WhiteKing | Piece::BlackKing => {
            let offs = king_offsets();
            let mut dests = offset_destinations(&offs, from_rank, from_file, friendly);
            // Candidate castling squares -- castle_is_legal (called via
            // is_legal) does the real validation.
            if from_rank == self_home_rank(is_white) && from_file == 4 {
                dests.push((from_rank, 6));
                dests.push((from_rank, 2));
            }
            dests
        },
        Piece::WhiteBishop | Piece::BlackBishop => {
            let dirs = bishop_directions();
            ray_destinations(&dirs, from_rank, from_file, friendly, occupied)
        },
        Piece::WhiteRook | Piece::BlackRook => {
            let dirs = rook_directions();
            ray_destinations(&dirs, from_rank, from_file, friendly, occupied)
        },
        Piece::WhiteQueen | Piece::BlackQueen => {
            let bdirs = bishop_directions();
            let rdirs = rook_directions();
            let mut dests = ray_destinations(&bdirs, from_rank, from_file, friendly, occupied);
            let mut more = ray_destinations(&rdirs, from_rank, from_file, friendly, occupied);
            dests.append(&mut more);
            dests
        },
        Piece::WhitePawn => pawn_destinations(board, from_rank, from_file, true, occupied),
        Piece::BlackPawn => pawn_destinations(board, from_rank, from_file, false, occupied),
    }
}

pub open spec fn promotion_choices_spec(white: bool) -> Seq<Piece> {
    if white {
        seq![Piece::WhiteQueen, Piece::WhiteRook, Piece::WhiteBishop, Piece::WhiteKnight]
    } else {
        seq![Piece::BlackQueen, Piece::BlackRook, Piece::BlackBishop, Piece::BlackKnight]
    }
}

fn promotion_choices(is_white: bool) -> (r: [Piece; 4])
    ensures
        r@ == promotion_choices_spec(is_white),
{
    let r = if is_white {
        [Piece::WhiteQueen, Piece::WhiteRook, Piece::WhiteBishop, Piece::WhiteKnight]
    } else {
        [Piece::BlackQueen, Piece::BlackRook, Piece::BlackBishop, Piece::BlackKnight]
    };
    assert(r@ =~= promotion_choices_spec(is_white));
    r
}


/// The fully legal moves among a list of candidates, in order.
pub open spec fn legal_filter(b: BoardView, mvs: Seq<Move>) -> Seq<Move>
    decreases mvs.len(),
{
    if mvs.len() == 0 {
        seq![]
    } else {
        let prev = legal_filter(b, mvs.drop_last());
        if fully_legal(b, mvs.last()) { prev.push(mvs.last()) } else { prev }
    }
}

/// The candidate moves of one piece to one destination: a pawn reaching the
/// last rank becomes, in turn, queen, rook, bishop and knight.
pub open spec fn candidates_to(pt: Piece, fr: int, ff: int, to: (usize, usize)) -> Seq<Move> {
    let ap = ActivePiece { piece_type: pt, from_rank: fr as usize, from_file: ff as usize };
    if (pt == Piece::WhitePawn && to.0 == 7) || (pt == Piece::BlackPawn && to.0 == 0) {
        promotion_choices_spec(pt.white()).map_values(|p: Piece| Move { piece: ap, to, promotion: Some(p) })
    } else {
        seq![Move { piece: ap, to, promotion: None }]
    }
}

/// The legal moves of one piece towards a list of destinations.
pub open spec fn moves_to_dests(b: BoardView, pt: Piece, fr: int, ff: int, dests: Seq<(usize, usize)>) -> Seq<Move>
    decreases dests.len(),
{
    if dests.len() == 0 {
        seq![]
    } else {
        moves_to_dests(b, pt, fr, ff, dests.drop_last()) + legal_filter(b, candidates_to(pt, fr, ff, dests.last()))
    }
}

/// The fully legal moves of a piece of kind `pt` on `(fr, ff)`, in the order
/// of its candidate destinations.
pub open spec fn piece_moves(b: BoardView, pt: Piece, fr: int, ff: int) -> Seq<Move> {
    moves_to_dests(b, pt, fr, ff, pseudo_dests(b, pt, fr, ff))
}

/// All fully-legal moves for one piece (pins, check, castling rules, and
/// promotion all correctly enforced via `is_legal`).
pub fn legal_moves_for_piece(board: &Board, piece_type: Piece, from_rank: usize, from_file: usize) -> (moves: Vec<Move>)
    requires
        from_rank < 8,
        from_file < 8,
    ensures
        moves@ == piece_moves(board@, piece_type, from_rank as int, from_file as int),
{
    let mut moves = Vec::new();
    let dests = pseudo_legal_destinations(board, piece_type, from_rank, from_file);
    let ghost fr = from_rank as int;
    let ghost ff = from_file as int;
    let mut i: usize = 0;
    while i < dests.len()
        invariant
            i <= dests@.len(),
            from_rank < 8,
            from_file < 8,
            fr == from_rank,
            ff == from_file,
            moves@ == moves_to_dests(board@, piece_type, fr, ff, dests@.subrange(0, i as int)),
        decreases dests@.len() - i,
    {
        let to = dests[i];
        assert(dests@.subrange(0, i + 1).drop_last() =~= dests@.subrange(0, i as int));
        let ghost before = moves@;
        let reaches_back_rank = match (piece_type, to.0) {
            (Piece::WhitePawn, 7) | (Piece::BlackPawn, 0) => true,
            _ => false,
        };
        let ghost cands = candidates_to(piece_type, fr, ff, to);
        if reaches_back_rank {
            let choices = promotion_choices(piece_type.is_white());
            let mut k: usize = 0;
            while k < 4
                invariant
                    k <= 4,
                    from_rank < 8,
                    from_file < 8,
                    cands.len() == 4,
                    choices@ == promotion_choices_spec(piece_type.white()),
                    cands == candidates_to(piece_type, fr, ff, to),
                    reaches_back_rank,
                    fr == from_rank,
                    ff == from_file,
                    moves@ == before + legal_filter(board@, cands.subrange(0, k as int)),
                decreases 4 - k,
            {
                let promo = choices[k];
                let mv = Move::new_promotion(ActivePiece { piece_type, from_rank, from_file }, to, promo);
                assert(cands.subrange(0, k + 1).drop_last() =~= cands.subrange(0, k as int));
                assert(cands[k as int] == mv);
                if mv.is_legal(board) {
                    moves.push(mv);
                }
                assert(moves@ =~= before + legal_filter(board@, cands.subrange(0, k + 1)));
                k += 1;
            }
            assert(cands.subrange(0, 4) =~= cands);
        } else {
            let mv = Move::new(ActivePiece { piece_type, from_rank, from_file }, to);
            assert(!((piece_type == Piece::WhitePawn && to.0 == 7) || (piece_type == Piece::BlackPawn && to.0 == 0)));
            assert(cands =~= seq![mv]);
            assert(cands.drop_last() =~= seq![]);
            assert(legal_filter(board@, cands.drop_last()) =~= seq![]);
            assert(cands.last() == mv);
            if mv.is_legal(board) {
                moves.push(mv);
            }
            assert(moves@ =~= before + legal_filter(board@, cands));
        }
        i += 1;
    }
    assert(dests@.subrange(0, dests@.len() as int) =~= dests@);
    moves
}

/// The legal moves of the pieces of kind `pt` on the squares `0..k` of
/// `bits`, by ascending square.
pub open spec fn squares_moves(b: BoardView, pt: Piece, bits: u64, k: int) -> Seq<Move>
    decreases k,
{
    if k <= 0 {
        seq![]
    } else {
        squares_moves(b, pt, bits, k - 1) + if has_bit(bits, k - 1) {
            piece_moves(b, pt, (k - 1) / 8, (k - 1) % 8)
        } else {
            seq![]
        }
    }
}

/// The `i`-th kind of a colour (pawn, knight, bishop, rook, queen, king).
pub open spec fn kind_of(white: bool, i: int) -> Piece {
    Piece::from_id(if white { i } else { i + 6 }).unwrap()
}

/// The legal moves of the first `n` kinds of a colour.
pub open spec fn kinds_moves(b: BoardView, white: bool, n: int) -> Seq<Move>
    decreases n,
{
    if n <= 0 {
        seq![]
    } else {
        kinds_moves(b, white, n - 1) + squares_moves(b, kind_of(white, n - 1), b.bb[kind_of(white, n - 1).id()], 64)
    }
}

/// Every fully legal move of a colour: kind by kind (pawn first, king last),
/// square by square (a1 first, h8 last), in the order of each piece's
/// candidate destinations.
pub open spec fn legal_moves(b: BoardView, white: bool) -> Seq<Move> {
    kinds_moves(b, white, 6)
}

proof fn lemma_squares_moves_skip(b: BoardView, pt: Piece, bits: u64, lo: int, hi: int)
    requires
        0 <= lo <= hi,
        forall|s: int| lo <= s < hi ==> !#[trigger] has_bit(bits, s),
    ensures
        squares_moves(b, pt, bits, hi) == squares_moves(b, pt, bits, lo),
    decreases hi - lo,
{
    if hi > lo {
        lemma_squares_moves_skip(b, pt, bits, lo, hi - 1);
        assert(!has_bit(bits, hi - 1));
        assert(squares_moves(b, pt, bits, hi) =~= squares_moves(b, pt, bits, hi - 1));
    }
}

/// Every fully-legal move for every piece belonging to `is_white`.
pub fn generate_legal_moves(board: &Board, is_white: bool) -> (moves: Vec<Move>)
    ensures
        moves@ == legal_moves(board@, is_white),
{
    let mut moves = Vec::new();
    let kinds = Piece::all_of_color(is_white);
    let mut k: usize = 0;
    while k < 6
        invariant
            k <= 6,
            forall|i: int| 0 <= i < 6 ==> #[trigger] kinds[i].id() == if is_white { i } else { i + 6 },
            moves@ == kinds_moves(board@, is_white, k as int),
        decreases 6 - k,
    {
        let piece_type = kinds[k];
        proof {
            piece_type.lemma_id();
            assert(kind_of(is_white, k as int) == piece_type);
        }
        let ghost before = moves@;
        let orig = board.bitboard(piece_type);
        let mut bb: u64 = orig;
        let ghost mut t: int = 0;
        while bb != 0
            invariant
                0 <= t <= 64,
                forall|s: int| #[trigger] has_bit(bb, s) <==> (has_bit(orig, s) && s >= t),
                moves@ == before + squares_moves(board@, piece_type, orig, t),
            decreases bb,
        {
            proof { lemma_pop_lowest(bb); }
            let ghost bb0 = bb;
            let sq = bb.trailing_zeros() as usize;
            bb &= bb - 1;  // pop lowest set bit, advance to the next piece of this type
            proof {
                assert forall|s: int| t <= s < sq implies !#[trigger] has_bit(orig, s) by {
                    assert(!has_bit(bb0, s));
                }
                assert(has_bit(orig, sq as int));
                assert(sq >= t);
                assert forall|s: int| #[trigger] has_bit(bb, s) <==> (has_bit(orig, s) && s >= sq + 1) by {
                    if has_bit(orig, s) && t <= s < sq {
                        assert(!has_bit(bb0, s));
                    }
                }
            }
            let mut found = legal_moves_for_piece(board, piece_type, sq / 8, sq % 8);
            moves.append(&mut found);
            proof {
                lemma_squares_moves_skip(board@, piece_type, orig, t, sq as int);
                t = sq + 1;
            }
            assert(moves@ =~= before + squares_moves(board@, piece_type, orig, t));
        }
        proof {
            assert forall|s: int| t <= s < 64 implies !#[trigger] has_bit(orig, s) by {
                let j = s as u64;
                assert((0u64 >> j) & 1u64 == 0u64) by (bit_vector);
                assert(!has_bit(bb, s));
            }
            lemma_squares_moves_skip(board@, piece_type, orig, t, 64);
        }
        k += 1;
    }
    moves
}

/// True if `is_white` has no legal moves and is currently in check (loss).
pub fn is_checkmate(board: &Board, is_white: bool) -> (r: bool)
    ensures
        r == (in_check(board@, is_white) && legal_moves(board@, is_white).len() == 0),
{
    crate::moves::Move::king_in_check(board, is_white) && generate_legal_moves(board, is_white).len() == 0
}

/// True if `is_white` has no legal moves but is not in check (draw).
pub fn is_stalemate(board: &Board, is_white: bool) -> (r: bool)
    ensures
        r == (!in_check(board@, is_white) && legal_moves(board@, is_white).len() == 0),
{
    !crate::moves::Move::king_in_check(board, is_white) && generate_legal_moves(board, is_white).len() == 0
}


/// A move of a piece of kind `pt` standing on `(fr, ff)` that is fully legal.
pub open spec fn sound_move(b: BoardView, m: Move, pt: Piece, fr: int, ff: int) -> bool {
    &&& fully_legal(b, m)
    &&& m.piece.piece_type == pt
    &&& m.piece.from_rank == fr
    &&& m.piece.from_file == ff
}

proof fn lemma_legal_filter_sound(b: BoardView, mvs: Seq<Move>, pt: Piece, fr: int, ff: int)
    requires
        forall|i: int| 0 <= i < mvs.len() ==> (#[trigger] mvs[i]).piece.piece_type == pt
            && mvs[i].piece.from_rank == fr && mvs[i].piece.from_file == ff,
    ensures
        forall|i: int| 0 <= i < legal_filter(b, mvs).len() ==> sound_move(b, #[trigger] legal_filter(b, mvs)[i], pt, fr, ff),
    decreases mvs.len(),
{
    if mvs.len() > 0 {
        lemma_legal_filter_sound(b, mvs.drop_last(), pt, fr, ff);
        assert(mvs.drop_last().len() == mvs.len() - 1);
        assert forall|i: int| 0 <= i < mvs.drop_last().len() implies (#[trigger] mvs.drop_last()[i]).piece.piece_type == pt
            && mvs.drop_last()[i].piece.from_rank == fr && mvs.drop_last()[i].piece.from_file == ff by {
            assert(mvs.drop_last()[i] == mvs[i]);
        }
        assert(mvs.last() == mvs[mvs.len() - 1]);
        let prev = legal_filter(b, mvs.drop_last());
        if fully_legal(b, mvs.last()) {
            assert forall|i: int| 0 <= i < prev.push(mvs.last()).len() implies sound_move(b, #[trigger] prev.push(mvs.last())[i], pt, fr, ff) by {
                if i < prev.len() {
                    assert(prev.push(mvs.last())[i] == prev[i]);
                }
            }
        }
    }
}

proof fn lemma_moves_to_dests_sound(b: BoardView, pt: Piece, fr: int, ff: int, dests: Seq<(usize, usize)>)
    requires
        0 <= fr < 8,
        0 <= ff < 8,
    ensures
        forall|i: int| 0 <= i < moves_to_dests(b, pt, fr, ff, dests).len() ==> sound_move(
            b,
            #[trigger] moves_to_dests(b, pt, fr, ff, dests)[i],
            pt,
            fr,
            ff,
        ),
    decreases dests.len(),
{
    if dests.len() > 0 {
        lemma_moves_to_dests_sound(b, pt, fr, ff, dests.drop_last());
        let c = candidates_to(pt, fr, ff, dests.last());
        assert forall|i: int| 0 <= i < c.len() implies (#[trigger] c[i]).piece.piece_type == pt && c[i].piece.from_rank
            == fr && c[i].piece.from_file == ff by {}
        lemma_legal_filter_sound(b, c, pt, fr, ff);
        let prev = moves_to_dests(b, pt, fr, ff, dests.drop_last());
        let last = legal_filter(b, c);
        assert forall|i: int| 0 <= i < (prev + last).len() implies sound_move(b, #[trigger] (prev + last)[i], pt, fr, ff) by {
            if i < prev.len() {
                assert((prev + last)[i] == prev[i]);
            } else {
                assert((prev + last)[i] == last[i - prev.len()]);
            }
        }
    }
}

/// A fully legal move of a piece of the given colour that stands on its
/// origin square.
pub open spec fn sound_for(b: BoardView, m: Move, white: bool) -> bool {
    &&& fully_legal(b, m)
    &&& m.piece.piece_type.white() == white
    &&& on_board(from_sq(m))
    &&& has_bit(b.bb[m.piece.piece_type.id()], sq_index(from_sq(m)))
}

proof fn lemma_squares_moves_sound(b: BoardView, pt: Piece, k: int)
    requires
        k <= 64,
    ensures
        forall|i: int| 0 <= i < squares_moves(b, pt, b.bb[pt.id()], k).len() ==> sound_for(
            b,
            #[trigger] squares_moves(b, pt, b.bb[pt.id()], k)[i],
            pt.white(),
        ),
    decreases k,
{
    if k > 0 {
        lemma_squares_moves_sound(b, pt, k - 1);
        let prev = squares_moves(b, pt, b.bb[pt.id()], k - 1);
        let s = k - 1;
        if has_bit(b.bb[pt.id()], s) {
            let last = piece_moves(b, pt, s / 8, s % 8);
            lemma_moves_to_dests_sound(b, pt, s / 8, s % 8, pseudo_dests(b, pt, s / 8, s % 8));
            assert forall|i: int| 0 <= i < (prev + last).len() implies sound_for(b, #[trigger] (prev + last)[i], pt.white()) by {
                if i < prev.len() {
                    assert((prev + last)[i] == prev[i]);
                } else {
                    assert((prev + last)[i] == last[i - prev.len()]);
                    assert(sound_move(b, last[i - prev.len()], pt, s / 8, s % 8));
                    assert(sq_index(from_sq(last[i - prev.len()])) == s);
                }
            }
        } else {
            assert(squares_moves(b, pt, b.bb[pt.id()], k) =~= prev);
        }
    }
}

proof fn lemma_kinds_moves_sound(b: BoardView, white: bool, n: int)
    requires
        n <= 6,
    ensures
        forall|i: int| 0 <= i < kinds_moves(b, white, n).len() ==> sound_for(b, #[trigger] kinds_moves(b, white, n)[i], white),
    decreases n,
{
    if n > 0 {
        lemma_kinds_moves_sound(b, white, n - 1);
        let pt = kind_of(white, n - 1);
        lemma_squares_moves_sound(b, pt, 64);
        let prev = kinds_moves(b, white, n - 1);
        let last = squares_moves(b, pt, b.bb[pt.id()], 64);
        assert forall|i: int| 0 <= i < (prev + last).len() implies sound_for(b, #[trigger] (prev + last)[i], white) by {
            if i < prev.len() {
                assert((prev + last)[i] == prev[i]);
            } else {
                assert((prev + last)[i] == last[i - prev.len()]);
            }
        }
    }
}

/// Every generated move is fully legal, is made by a piece of the side to
/// move, and starts from a square where such a piece stands.
pub proof fn lemma_generated_moves_sound(b: BoardView, white: bool)
    ensures
        forall|i: int| 0 <= i < legal_moves(b, white).len() ==> sound_for(b, #[trigger] legal_moves(b, white)[i], white),
{
    lemma_kinds_moves_sound(b, white, 6);
}


/// A move whose squares are on the board and whose pawn, if any, moves
/// forward from a rank it can leave: it can be made and taken back on any
/// board.
pub open spec fn playable(mv: Move) -> bool {
    &&& on_board(from_sq(mv))
    &&& on_board(mv.to)
    &&& mv.piece.piece_type.is_pawn() ==> (if mv.piece.piece_type.white() { mv.to.0 >= 1 } else { mv.to.0 <= 6 })
}

pub proof fn lemma_playable(b: BoardView, mv: Move)
    requires
        playable(mv),
    ensures
        move_in_range(b, mv),
        crate::board::undo_in_range(crate::board::undo_record(b, mv)),
{
}

pub proof fn lemma_sound_playable(b: BoardView, mv: Move, white: bool)
    requires
        sound_for(b, mv, white),
    ensures
        playable(mv),
{
}

/// Every generated move is playable.
pub proof fn lemma_generated_playable(b: BoardView, white: bool)
    ensures
        forall|i: int| 0 <= i < legal_moves(b, white).len() ==> playable(#[trigger] legal_moves(b, white)[i]),
{
    lemma_generated_moves_sound(b, white);
    assert forall|i: int| 0 <= i < legal_moves(b, white).len() implies playable(#[trigger] legal_moves(b, white)[i]) by {
        lemma_sound_playable(b, legal_moves(b, white)[i], white);
    }
}


// ---------------------------------------------------------------------------
// Completeness: every fully legal move is generated.
// ---------------------------------------------------------------------------

proof fn lemma_legal_filter_contains(b: BoardView, mvs: Seq<Move>, m: Move)
    requires
        mvs.contains(m),
        fully_legal(b, m),
    ensures
        legal_filter(b, mvs).contains(m),
    decreases mvs.len(),
{
    let k = choose|k: int| 0 <= k < mvs.len() && mvs[k] == m;
    let prev = legal_filter(b, mvs.drop_last());
    if k == mvs.len() - 1 {
        assert(mvs.last() == m);
        assert(prev.push(m)[prev.len() as int] == m);
    } else {
        assert(mvs.drop_last()[k] == m);
        lemma_legal_filter_contains(b, mvs.drop_last(), m);
        let j = choose|j: int| 0 <= j < prev.len() && prev[j] == m;
        if fully_legal(b, mvs.last()) {
            assert(prev.push(mvs.last())[j] == m);
        }
    }
}

proof fn lemma_moves_to_dests_contains(b: BoardView, pt: Piece, fr: int, ff: int, dests: Seq<(usize, usize)>, m: Move)
    requires
        dests.contains(m.to),
        legal_filter(b, candidates_to(pt, fr, ff, m.to)).contains(m),
    ensures
        moves_to_dests(b, pt, fr, ff, dests).contains(m),
    decreases dests.len(),
{
    let k = choose|k: int| 0 <= k < dests.len() && dests[k] == m.to;
    let prev = moves_to_dests(b, pt, fr, ff, dests.drop_last());
    let last = legal_filter(b, candidates_to(pt, fr, ff, dests.last()));
    if k == dests.len() - 1 {
        assert(dests.last() == m.to);
        let j = choose|j: int| 0 <= j < last.len() && last[j] == m;
        assert((prev + last)[prev.len() + j] == m);
    } else {
        assert(dests.drop_last()[k] == m.to);
        lemma_moves_to_dests_contains(b, pt, fr, ff, dests.drop_last(), m);
        let j = choose|j: int| 0 <= j < prev.len() && prev[j] == m;
        assert((prev + last)[j] == m);
    }
}

proof fn lemma_squares_moves_contains(b: BoardView, pt: Piece, bits: u64, k: int, s: int, m: Move)
    requires
        0 <= s < k,
        has_bit(bits, s),
        piece_moves(b, pt, s / 8, s % 8).contains(m),
    ensures
        squares_moves(b, pt, bits, k).contains(m),
    decreases k,
{
    let prev = squares_moves(b, pt, bits, k - 1);
    let last = if has_bit(bits, k - 1) { piece_moves(b, pt, (k - 1) / 8, (k - 1) % 8) } else { seq![] };
    if s == k - 1 {
        let j = choose|j: int| 0 <= j < last.len() && last[j] == m;
        assert((prev + last)[prev.len() + j] == m);
    } else {
        lemma_squares_moves_contains(b, pt, bits, k - 1, s, m);
        let j = choose|j: int| 0 <= j < prev.len() && prev[j] == m;
        assert((prev + last)[j] == m);
    }
}

proof fn lemma_kinds_moves_contains(b: BoardView, white: bool, n: int, idx: int, m: Move)
    requires
        0 <= idx < n,
        squares_moves(b, kind_of(white, idx), b.bb[kind_of(white, idx).id()], 64).contains(m),
    ensures
        kinds_moves(b, white, n).contains(m),
    decreases n,
{
    let prev = kinds_moves(b, white, n - 1);
    let last = squares_moves(b, kind_of(white, n - 1), b.bb[kind_of(white, n - 1).id()], 64);
    if idx == n - 1 {
        let j = choose|j: int| 0 <= j < last.len() && last[j] == m;
        assert((prev + last)[prev.len() + j] == m);
    } else {
        lemma_kinds_moves_contains(b, white, n - 1, idx, m);
        let j = choose|j: int| 0 <= j < prev.len() && prev[j] == m;
        assert((prev + last)[j] == m);
    }
}

/// A legal move is among the candidates for its destination: a pawn reaching
/// the last rank names one of the four promotion kinds of its colour, any
/// other move names none.
proof fn lemma_in_candidates(b: BoardView, m: Move)
    requires
        legal_shape(b, m),
    ensures
        candidates_to(m.piece.piece_type, m.piece.from_rank as int, m.piece.from_file as int, m.to).contains(m),
{
    let pt = m.piece.piece_type;
    let c = candidates_to(pt, m.piece.from_rank as int, m.piece.from_file as int, m.to);
    let ap = ActivePiece { piece_type: pt, from_rank: m.piece.from_rank, from_file: m.piece.from_file };
    assert(ap == m.piece);
    if (pt == Piece::WhitePawn && m.to.0 == 7) || (pt == Piece::BlackPawn && m.to.0 == 0) {
        let p = m.promotion.unwrap();
        let choices = promotion_choices_spec(pt.white());
        let k: int = if p == Piece::WhiteQueen || p == Piece::BlackQueen { 0 }
            else if p == Piece::WhiteRook || p == Piece::BlackRook { 1 }
            else if p == Piece::WhiteBishop || p == Piece::BlackBishop { 2 }
            else { 3 };
        assert(choices[k] == p);
        assert(c[k] == m);
    } else {
        assert(c[0] == m);
    }
}


proof fn lemma_offset_dests_contains(offs: Seq<(isize, isize)>, fr: int, ff: int, friendly: u64, k: int)
    requires
        0 <= k < offs.len(),
        in_range8(fr + offs[k].0),
        in_range8(ff + offs[k].1),
        !has_bit(friendly, (fr + offs[k].0) * 8 + ff + offs[k].1),
    ensures
        offset_dests(offs, fr, ff, friendly).contains((((fr + offs[k].0) as usize), ((ff + offs[k].1) as usize))),
    decreases offs.len(),
{
    let target = (((fr + offs[k].0) as usize), ((ff + offs[k].1) as usize));
    let prev = offset_dests(offs.drop_last(), fr, ff, friendly);
    if k == offs.len() - 1 {
        assert(offs.last() == offs[k]);
        assert(prev.push(target)[prev.len() as int] == target);
    } else {
        assert(offs.drop_last()[k] == offs[k]);
        lemma_offset_dests_contains(offs.drop_last(), fr, ff, friendly, k);
        let j = choose|j: int| 0 <= j < prev.len() && prev[j] == target;
        let r = fr + offs.last().0;
        let f = ff + offs.last().1;
        if in_range8(r) && in_range8(f) && !has_bit(friendly, r * 8 + f) {
            assert(prev.push((r as usize, f as usize))[j] == target);
        }
    }
}

/// A slider reaches the `n`-th square of a ray when the squares before it are
/// empty and the `n`-th is not its own.
proof fn lemma_ray_from_contains(fr: int, ff: int, dr: int, df: int, friendly: u64, occupied: u64, k: int, n: int)
    requires
        1 <= k <= n < 8,
        forall|j: int| k <= j <= n ==> in_range8(#[trigger] ray_coord(fr, dr, j)) && in_range8(ray_coord(ff, df, j)),
        forall|j: int| k <= j < n ==> !has_bit(occupied, #[trigger] ray_coord(fr, dr, j) * 8 + ray_coord(ff, df, j)),
        forall|j: int| k <= j < n ==> !has_bit(friendly, #[trigger] ray_coord(fr, dr, j) * 8 + ray_coord(ff, df, j)),
        !has_bit(friendly, ray_coord(fr, dr, n) * 8 + ray_coord(ff, df, n)),
    ensures
        ray_from(fr, ff, dr, df, friendly, occupied, k).contains(((ray_coord(fr, dr, n) as usize), (ray_coord(ff, df, n) as usize))),
    decreases n - k,
{
    let r = ray_coord(fr, dr, k);
    let f = ray_coord(ff, df, k);
    let target = ((ray_coord(fr, dr, n) as usize), (ray_coord(ff, df, n) as usize));
    assert(in_range8(r) && in_range8(f));
    if k == n {
        if has_bit(occupied, r * 8 + f) {
            assert(seq![(r as usize, f as usize)][0] == target);
        } else {
            let rest = ray_from(fr, ff, dr, df, friendly, occupied, k + 1);
            assert((seq![(r as usize, f as usize)] + rest)[0] == target);
        }
    } else {
        assert(!has_bit(occupied, r * 8 + f));
        assert(!has_bit(friendly, r * 8 + f));
        lemma_ray_from_contains(fr, ff, dr, df, friendly, occupied, k + 1, n);
        let rest = ray_from(fr, ff, dr, df, friendly, occupied, k + 1);
        let j = choose|j: int| 0 <= j < rest.len() && rest[j] == target;
        assert((seq![(r as usize, f as usize)] + rest)[j + 1] == target);
    }
}

proof fn lemma_ray_dests_contains(dirs: Seq<(isize, isize)>, idx: int, fr: int, ff: int, friendly: u64, occupied: u64, p: (usize, usize))
    requires
        0 <= idx < dirs.len(),
        ray_from(fr, ff, dirs[idx].0 as int, dirs[idx].1 as int, friendly, occupied, 1).contains(p),
    ensures
        ray_dests(dirs, fr, ff, friendly, occupied).contains(p),
    decreases dirs.len(),
{
    let prev = ray_dests(dirs.drop_last(), fr, ff, friendly, occupied);
    let last = ray_from(fr, ff, dirs.last().0 as int, dirs.last().1 as int, friendly, occupied, 1);
    if idx == dirs.len() - 1 {
        assert(dirs.last() == dirs[idx]);
        let j = choose|j: int| 0 <= j < last.len() && last[j] == p;
        assert((prev + last)[prev.len() + j] == p);
    } else {
        assert(dirs.drop_last()[idx] == dirs[idx]);
        lemma_ray_dests_contains(dirs.drop_last(), idx, fr, ff, friendly, occupied, p);
        let j = choose|j: int| 0 <= j < prev.len() && prev[j] == p;
        assert((prev + last)[j] == p);
    }
}

/// The occupancy a piece's generator uses is the board's occupancy.
proof fn lemma_side_occ(bb: Seq<u64>, white: bool, s: int)
    requires
        bb.len() == 12,
        0 <= s < 64,
    ensures
        has_bit((if white { white_occ(bb) } else { black_occ(bb) }) | (if white { black_occ(bb) } else { white_occ(bb) }), s)
            == has_bit(all_occ(bb), s),
        has_bit(if white { white_occ(bb) } else { black_occ(bb) }, s) ==> has_bit(all_occ(bb), s),
{
    lemma_occ(bb, s);
    lemma_bit_ops(white_occ(bb), black_occ(bb));
    lemma_bit_ops(black_occ(bb), white_occ(bb));
    let j = s as u64;
    assert(has_bit(white_occ(bb) | black_occ(bb), s) == ((white_occ(bb) >> j) & 1u64 == 1u64 || (black_occ(bb) >> j) & 1u64 == 1u64));
    assert(has_bit(black_occ(bb) | white_occ(bb), s) == ((black_occ(bb) >> j) & 1u64 == 1u64 || (white_occ(bb) >> j) & 1u64 == 1u64));
}


proof fn lemma_offset_dest(b: BoardView, m: Move, offs: Seq<(isize, isize)>, k: int)
    requires
        b.bb.len() == 12,
        on_board(from_sq(m)),
        on_board(m.to),
        0 <= k < offs.len(),
        offs[k].0 == m.to.0 - m.piece.from_rank,
        offs[k].1 == m.to.1 - m.piece.from_file,
        !has_bit(color_occ(b.bb, mover_white(m)), sq_index(m.to)),
    ensures
        offset_dests(offs, m.piece.from_rank as int, m.piece.from_file as int, color_occ(b.bb, mover_white(m))).contains(m.to),
{
    lemma_offset_dests_contains(offs, m.piece.from_rank as int, m.piece.from_file as int, color_occ(b.bb, mover_white(m)), k);
}

proof fn lemma_slider_dest(b: BoardView, m: Move, dirs: Seq<(isize, isize)>, idx: int)
    requires
        b.bb.len() == 12,
        on_board(from_sq(m)),
        on_board(m.to),
        is_line(m),
        path_clear(b, m),
        0 <= idx < dirs.len(),
        dirs[idx].0 == sgn(m.to.0 - m.piece.from_rank),
        dirs[idx].1 == sgn(m.to.1 - m.piece.from_file),
        !has_bit(color_occ(b.bb, mover_white(m)), sq_index(m.to)),
    ensures
        ({
            let white = mover_white(m);
            let friendly = if white { white_occ(b.bb) } else { black_occ(b.bb) };
            let enemy = if white { black_occ(b.bb) } else { white_occ(b.bb) };
            ray_dests(dirs, m.piece.from_rank as int, m.piece.from_file as int, friendly, friendly | enemy).contains(m.to)
        }),
{
    let white = mover_white(m);
    let friendly = if white { white_occ(b.bb) } else { black_occ(b.bb) };
    let enemy = if white { black_occ(b.bb) } else { white_occ(b.bb) };
    let occupied = friendly | enemy;
    let fr = m.piece.from_rank as int;
    let ff = m.piece.from_file as int;
    let dr = dirs[idx].0 as int;
    let df = dirs[idx].1 as int;
    let n = line_len(m);
    assert(1 <= n < 8);
    assert forall|j: int| 1 <= j <= n implies in_range8(#[trigger] ray_coord(fr, dr, j)) && in_range8(ray_coord(ff, df, j)) by {}
    assert forall|j: int| 1 <= j < n implies !has_bit(occupied, #[trigger] ray_coord(fr, dr, j) * 8 + ray_coord(ff, df, j)) by {
        assert(path_square(m, j) == ray_coord(fr, dr, j) * 8 + ray_coord(ff, df, j));
        assert(!has_bit(all_occ(b.bb), path_square(m, j)));
        lemma_side_occ(b.bb, white, path_square(m, j));
    }
    assert forall|j: int| 1 <= j < n implies !has_bit(friendly, #[trigger] ray_coord(fr, dr, j) * 8 + ray_coord(ff, df, j)) by {
        assert(path_square(m, j) == ray_coord(fr, dr, j) * 8 + ray_coord(ff, df, j));
        assert(!has_bit(all_occ(b.bb), path_square(m, j)));
        lemma_side_occ(b.bb, white, path_square(m, j));
    }
    assert(ray_coord(fr, dr, n) == m.to.0 && ray_coord(ff, df, n) == m.to.1);
    lemma_ray_from_contains(fr, ff, dr, df, friendly, occupied, 1, n);
    lemma_ray_dests_contains(dirs, idx, fr, ff, friendly, occupied, m.to);
}

proof fn bishop_index(dr: int, df: int) -> (k: int)
    requires
        dr == 1 || dr == -1,
        df == 1 || df == -1,
    ensures
        0 <= k < 4,
        bishop_directions_spec()[k].0 == dr,
        bishop_directions_spec()[k].1 == df,
{
    if dr == 1 && df == 1 { 0 } else if dr == 1 { 1 } else if df == 1 { 2 } else { 3 }
}

proof fn rook_index(dr: int, df: int) -> (k: int)
    requires
        (dr == 0) != (df == 0),
        -1 <= dr <= 1,
        -1 <= df <= 1,
    ensures
        0 <= k < 4,
        rook_directions_spec()[k].0 == dr,
        rook_directions_spec()[k].1 == df,
{
    if dr == 1 { 0 } else if dr == -1 { 1 } else if df == 1 { 2 } else { 3 }
}

proof fn knight_index(dr: int, df: int) -> (k: int)
    requires
        (crate::moves::iabs(dr) == 2 && crate::moves::iabs(df) == 1) || (crate::moves::iabs(dr) == 1 && crate::moves::iabs(df) == 2),
    ensures
        0 <= k < 8,
        knight_offsets_spec()[k].0 == dr,
        knight_offsets_spec()[k].1 == df,
{
    if dr == 1 && df == 2 { 0 } else if dr == 1 && df == -2 { 1 } else if dr == -1 && df == 2 { 2 }
    else if dr == -1 && df == -2 { 3 } else if dr == 2 && df == 1 { 4 } else if dr == 2 && df == -1 { 5 }
    else if dr == -2 && df == 1 { 6 } else { 7 }
}

proof fn king_index(dr: int, df: int) -> (k: int)
    requires
        -1 <= dr <= 1,
        -1 <= df <= 1,
        dr != 0 || df != 0,
    ensures
        0 <= k < 8,
        king_offsets_spec()[k].0 == dr,
        king_offsets_spec()[k].1 == df,
{
    if dr == -1 { 1 + df } else if dr == 0 { if df == -1 { 3 } else { 4 } } else { 6 + df }
}

/// The destination of a move obeying the rules is among its piece's
/// candidate destinations.
proof fn lemma_dest_in_pseudo(b: BoardView, m: Move)
    requires
        b.bb.len() == 12,
        on_board(from_sq(m)),
        legal_shape(b, m),
    ensures
        pseudo_dests(b, m.piece.piece_type, m.piece.from_rank as int, m.piece.from_file as int).contains(m.to),
{
    let pt = m.piece.piece_type;
    let white = pt.white();
    let fr = m.piece.from_rank as int;
    let ff = m.piece.from_file as int;
    let dr = m.to.0 - fr;
    let df = m.to.1 - ff;
    let friendly = if white { white_occ(b.bb) } else { black_occ(b.bb) };
    let enemy = if white { black_occ(b.bb) } else { white_occ(b.bb) };
    let occupied = friendly | enemy;
    assert(on_board(m.to));
    match pt {
        Piece::WhiteKnight | Piece::BlackKnight => {
            lemma_knight_dest(b, m);
            assert(pseudo_dests(b, pt, fr, ff).contains(m.to));
        },
        Piece::WhiteKing | Piece::BlackKing => {
            if file_diff(m) == 2 && rank_diff(m) == 0 {
                assert(castle_legal(b, m));
                let d = offset_dests(king_offsets_spec(), fr, ff, friendly);
                let dd = d.push((fr as usize, 6usize)).push((fr as usize, 2usize));
                if m.to.1 == 6 {
                    assert(dd[d.len() as int] == m.to);
                } else {
                    assert(dd[d.len() as int + 1] == m.to);
                }
                assert(pseudo_dests(b, pt, fr, ff).contains(m.to));
            } else {
                let k = king_index(dr, df);
                lemma_offset_dest(b, m, king_offsets_spec(), k);
                let d = offset_dests(king_offsets_spec(), fr, ff, friendly);
                assert(d.contains(m.to));
                let j = choose|j: int| 0 <= j < d.len() && d[j] == m.to;
                let dd = d.push((fr as usize, 6usize)).push((fr as usize, 2usize));
                assert(dd[j] == m.to);
                assert(pseudo_dests(b, pt, fr, ff).contains(m.to));
            }
        },
        Piece::WhiteBishop | Piece::BlackBishop => {
            let k = bishop_index(sgn(dr), sgn(df));
            lemma_slider_dest(b, m, bishop_directions_spec(), k);
            assert(pseudo_dests(b, pt, fr, ff).contains(m.to));
        },
        Piece::WhiteRook | Piece::BlackRook => {
            let k = rook_index(sgn(dr), sgn(df));
            lemma_slider_dest(b, m, rook_directions_spec(), k);
            assert(pseudo_dests(b, pt, fr, ff).contains(m.to));
        },
        Piece::WhiteQueen | Piece::BlackQueen => {
            let bd = ray_dests(bishop_directions_spec(), fr, ff, friendly, occupied);
            let rd = ray_dests(rook_directions_spec(), fr, ff, friendly, occupied);
            if rank_diff(m) == file_diff(m) {
                let k = bishop_index(sgn(dr), sgn(df));
                lemma_slider_dest(b, m, bishop_directions_spec(), k);
                let j = choose|j: int| 0 <= j < bd.len() && bd[j] == m.to;
                assert((bd + rd)[j] == m.to);
            } else {
                let k = rook_index(sgn(dr), sgn(df));
                lemma_slider_dest(b, m, rook_directions_spec(), k);
                let j = choose|j: int| 0 <= j < rd.len() && rd[j] == m.to;
                assert((bd + rd)[bd.len() + j] == m.to);
            }
        },
        Piece::WhitePawn => {
            lemma_pawn_dest(b, m, true);
            assert(pseudo_dests(b, pt, fr, ff).contains(m.to));
        },
        Piece::BlackPawn => {
            lemma_pawn_dest(b, m, false);
            assert(pseudo_dests(b, pt, fr, ff).contains(m.to));
        },
    }
}

proof fn lemma_pawn_dest(b: BoardView, m: Move, white: bool)
    requires
        b.bb.len() == 12,
        on_board(from_sq(m)),
        on_board(m.to),
        white ==> white_pawn_ok(b, m),
        !white ==> black_pawn_ok(b, m),
        m.piece.piece_type == (if white { Piece::WhitePawn } else { Piece::BlackPawn }),
    ensures
        ({
            let friendly = if white { white_occ(b.bb) } else { black_occ(b.bb) };
            let enemy = if white { black_occ(b.bb) } else { white_occ(b.bb) };
            pawn_dests(b, m.piece.from_rank as int, m.piece.from_file as int, white, friendly | enemy).contains(m.to)
        }),
{
    let fr = m.piece.from_rank as int;
    let ff = m.piece.from_file as int;
    let friendly = if white { white_occ(b.bb) } else { black_occ(b.bb) };
    let enemy = if white { black_occ(b.bb) } else { white_occ(b.bb) };
    let occupied = friendly | enemy;
    let dir: int = if white { 1 } else { -1 };
    let one = fr + dir;
    let two = fr + 2 * dir;
    lemma_side_occ(b.bb, white, sq_index(m.to));
    if 0 <= one < 8 {
        lemma_side_occ(b.bb, white, one * 8 + ff);
    }
    let df = m.to.1 - ff;
    let forward = if in_range8(one) && !has_bit(occupied, one * 8 + ff) {
        if fr == (if white { 1int } else { 6int }) && in_range8(two) && !has_bit(occupied, two * 8 + ff) {
            seq![(one as usize, ff as usize), (two as usize, ff as usize)]
        } else {
            seq![(one as usize, ff as usize)]
        }
    } else {
        seq![]
    };
    let cl = pawn_capture_dest(b, fr, ff, white, -1);
    let cr = pawn_capture_dest(b, fr, ff, white, 1);
    let all = forward + cl + cr;
    assert(all == pawn_dests(b, fr, ff, white, occupied));
    if df == 0 {
        if m.to.0 == one {
            assert(forward[0] == m.to);
            assert(all[0] == m.to);
        } else {
            assert(m.to.0 == two);
            assert(forward[1] == m.to);
            assert(all[1] == m.to);
        }
    } else if df == -1 {
        assert(cl[0] == m.to);
        assert(all[forward.len() as int] == m.to);
    } else {
        assert(cr[0] == m.to);
        assert(all[(forward.len() + cl.len()) as int] == m.to);
    }
}


proof fn lemma_knight_dest(b: BoardView, m: Move)
    requires
        b.bb.len() == 12,
        on_board(from_sq(m)),
        legal_shape(b, m),
        m.piece.piece_type == Piece::WhiteKnight || m.piece.piece_type == Piece::BlackKnight,
    ensures
        pseudo_dests(b, m.piece.piece_type, m.piece.from_rank as int, m.piece.from_file as int).contains(m.to),
{
    let fr = m.piece.from_rank as int;
    let ff = m.piece.from_file as int;
    let dr = m.to.0 - fr;
    let df = m.to.1 - ff;
    assert((rank_diff(m) == 2 && file_diff(m) == 1) || (rank_diff(m) == 1 && file_diff(m) == 2));
    let k = knight_index(dr, df);
    lemma_offset_dest(b, m, knight_offsets_spec(), k);
}


/// Every fully legal move is generated: a move of a piece of the side to move
/// that stands on its origin square and is fully legal is among `legal_moves`.
pub proof fn lemma_generated_moves_complete(b: BoardView, white: bool, m: Move)
    requires
        b.bb.len() == 12,
        on_board(from_sq(m)),
        m.piece.piece_type.white() == white,
        has_bit(b.bb[m.piece.piece_type.id()], sq_index(from_sq(m))),
        fully_legal(b, m),
    ensures
        legal_moves(b, white).contains(m),
{
    let pt = m.piece.piece_type;
    let fr = m.piece.from_rank as int;
    let ff = m.piece.from_file as int;
    let s = sq_index(from_sq(m));
    lemma_dest_in_pseudo(b, m);
    lemma_in_candidates(b, m);
    lemma_legal_filter_contains(b, candidates_to(pt, fr, ff, m.to), m);
    lemma_moves_to_dests_contains(b, pt, fr, ff, pseudo_dests(b, pt, fr, ff), m);
    assert(s / 8 == fr && s % 8 == ff);
    lemma_squares_moves_contains(b, pt, b.bb[pt.id()], 64, s, m);
    pt.lemma_id();
    let idx = if white { pt.id() } else { pt.id() - 6 };
    assert(kind_of(white, idx) == pt);
    lemma_kinds_moves_contains(b, white, 6, idx, m);
}

} // verus!

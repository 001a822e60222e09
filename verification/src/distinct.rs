use vstd::prelude::*;
use crate::board::{BoardView, Piece};
use crate::moves::{ray_coord, sgn, home_rank, Move, ActivePiece};
use crate::movegen::{
    in_range8, offset_dests, ray_from, ray_dests, pawn_dests, pawn_capture_dest, pseudo_dests, knight_offsets_spec,
    king_offsets_spec, bishop_directions_spec, rook_directions_spec, candidates_to, legal_filter, moves_to_dests,
    piece_moves, squares_moves, kinds_moves, kind_of, legal_moves, promotion_choices_spec,
};

verus! {

// ---------------------------------------------------------------------------
// The generated lists name each move once: destinations of one piece are
// distinct, its candidates to one destination differ in the promotion piece,
// and moves of different squares or kinds differ in their origin or kind.
// ---------------------------------------------------------------------------

proof fn lemma_concat_distinct<A>(a: Seq<A>, b: Seq<A>)
    requires
        a.no_duplicates(),
        b.no_duplicates(),
        forall|i: int, j: int| 0 <= i < a.len() && 0 <= j < b.len() ==> a[i] != b[j],
    ensures
        (a + b).no_duplicates(),
{
    let c = a + b;
    assert forall|i: int, j: int| 0 <= i < c.len() && 0 <= j < c.len() && i != j implies c[i] != c[j] by {
        if i < a.len() && j < a.len() {
            assert(c[i] == a[i] && c[j] == a[j]);
        } else if i < a.len() {
            assert(c[i] == a[i] && c[j] == b[j - a.len()]);
        } else if j < a.len() {
            assert(c[j] == a[j] && c[i] == b[i - a.len()]);
        } else {
            assert(c[i] == b[i - a.len()] && c[j] == b[j - a.len()]);
        }
    }
}

/// `x` is the origin moved by one of the offsets, on the board.
pub open spec fn from_offset(offs: Seq<(isize, isize)>, fr: int, ff: int, x: (usize, usize)) -> bool {
    exists|k: int| #![trigger offs[k]]
        0 <= k < offs.len() && in_range8(fr + offs[k].0) && in_range8(ff + offs[k].1)
            && x == ((fr + offs[k].0) as usize, (ff + offs[k].1) as usize)
}

/// Destinations of fixed offsets: each is the origin plus one of the offsets,
/// on the board, and none comes twice when no offset does.
proof fn lemma_offset_dests_shape(offs: Seq<(isize, isize)>, fr: int, ff: int, friendly: u64)
    requires
        offs.no_duplicates(),
    ensures
        offset_dests(offs, fr, ff, friendly).no_duplicates(),
        forall|i: int| 0 <= i < offset_dests(offs, fr, ff, friendly).len()
            ==> from_offset(offs, fr, ff, #[trigger] offset_dests(offs, fr, ff, friendly)[i]),
    decreases offs.len(),
{
    if offs.len() > 0 {
        let d = offs.drop_last();
        assert(d.no_duplicates());
        lemma_offset_dests_shape(d, fr, ff, friendly);
        let prev = offset_dests(d, fr, ff, friendly);
        let res = offset_dests(offs, fr, ff, friendly);
        let r = fr + offs.last().0;
        let f = ff + offs.last().1;
        assert forall|i: int| 0 <= i < prev.len() implies from_offset(offs, fr, ff, #[trigger] prev[i]) by {
            assert(from_offset(d, fr, ff, prev[i]));
            let k = choose|k: int| #![trigger d[k]] 0 <= k < d.len() && in_range8(fr + d[k].0) && in_range8(ff + d[k].1)
                && prev[i] == ((fr + d[k].0) as usize, (ff + d[k].1) as usize);
            assert(d[k] == offs[k]);
        }
        if in_range8(r) && in_range8(f) && !crate::bits::has_bit(friendly, r * 8 + f) {
            let x = (r as usize, f as usize);
            assert(res == prev.push(x));
            let n = offs.len() - 1;
            assert(offs.last() == offs[n]);
            assert(from_offset(offs, fr, ff, x));
            assert forall|i: int| 0 <= i < prev.len() implies prev[i] != x by {
                assert(from_offset(d, fr, ff, prev[i]));
                let k = choose|k: int| #![trigger d[k]] 0 <= k < d.len() && in_range8(fr + d[k].0) && in_range8(ff + d[k].1)
                    && prev[i] == ((fr + d[k].0) as usize, (ff + d[k].1) as usize);
                assert(d[k] == offs[k]);
                if prev[i] == x {
                    assert(offs[k].0 == offs[n].0);
                    assert(offs[k].1 == offs[n].1);
                    assert(offs[k] == offs[n]);
                }
            }
            assert forall|i: int| 0 <= i < res.len() implies from_offset(offs, fr, ff, #[trigger] res[i]) by {
                if i < prev.len() {
                    assert(res[i] == prev[i]);
                } else {
                    assert(res[i] == x);
                }
            }
        }
    }
}

pub open spec fn abs_int(x: int) -> int {
    if x < 0 { -x } else { x }
}

/// Steps from the origin to `x`, moving like a king.
pub open spec fn steps(fr: int, ff: int, x: (usize, usize)) -> int {
    let a = abs_int(x.0 as int - fr);
    let c = abs_int(x.1 as int - ff);
    if a >= c { a } else { c }
}

/// `x` lies on the board in direction `(dr, df)` from the origin, at least
/// `k` steps away.
pub open spec fn on_ray(fr: int, ff: int, dr: int, df: int, k: int, x: (usize, usize)) -> bool {
    &&& x.0 < 8
    &&& x.1 < 8
    &&& sgn(x.0 as int - fr) == dr
    &&& sgn(x.1 as int - ff) == df
    &&& steps(fr, ff, x) >= k
}

pub open spec fn unit_dir(d: (isize, isize)) -> bool {
    -1 <= d.0 <= 1 && -1 <= d.1 <= 1 && (d.0 != 0 || d.1 != 0)
}

proof fn lemma_ray_from_shape(fr: int, ff: int, dr: int, df: int, friendly: u64, occupied: u64, k: int)
    requires
        1 <= k,
        -1 <= dr <= 1,
        -1 <= df <= 1,
        dr != 0 || df != 0,
    ensures
        ray_from(fr, ff, dr, df, friendly, occupied, k).no_duplicates(),
        forall|i: int| 0 <= i < ray_from(fr, ff, dr, df, friendly, occupied, k).len()
            ==> on_ray(fr, ff, dr, df, k, #[trigger] ray_from(fr, ff, dr, df, friendly, occupied, k)[i]),
    decreases 8 - k,
{
    let r = ray_coord(fr, dr, k);
    let f = ray_coord(ff, df, k);
    let res = ray_from(fr, ff, dr, df, friendly, occupied, k);
    if !(1 <= k < 8) || !in_range8(r) || !in_range8(f) {
    } else {
        let x = (r as usize, f as usize);
        assert(x.0 as int == r && x.1 as int == f);
        assert(steps(fr, ff, x) == k);
        assert(on_ray(fr, ff, dr, df, k, x));
        if crate::bits::has_bit(friendly, r * 8 + f) {
        } else if crate::bits::has_bit(occupied, r * 8 + f) {
            assert(res == seq![x]);
        } else {
            lemma_ray_from_shape(fr, ff, dr, df, friendly, occupied, k + 1);
            let rest = ray_from(fr, ff, dr, df, friendly, occupied, k + 1);
            assert(res == seq![x] + rest);
            assert forall|i: int| 0 <= i < rest.len() implies seq![x][0] != rest[i] by {
                assert(on_ray(fr, ff, dr, df, k + 1, rest[i]));
            }
            lemma_concat_distinct(seq![x], rest);
            assert forall|i: int| 0 <= i < res.len() implies on_ray(fr, ff, dr, df, k, #[trigger] res[i]) by {
                if i > 0 {
                    assert(res[i] == rest[i - 1]);
                    assert(on_ray(fr, ff, dr, df, k + 1, rest[i - 1]));
                }
            }
        }
    }
}

/// `x` lies on the board in one of the directions, away from the origin.
pub open spec fn along(dirs: Seq<(isize, isize)>, fr: int, ff: int, x: (usize, usize)) -> bool {
    exists|k: int| #![trigger dirs[k]]
        0 <= k < dirs.len() && on_ray(fr, ff, dirs[k].0 as int, dirs[k].1 as int, 1, x)
}

proof fn lemma_ray_dests_shape(dirs: Seq<(isize, isize)>, fr: int, ff: int, friendly: u64, occupied: u64)
    requires
        dirs.no_duplicates(),
        forall|k: int| 0 <= k < dirs.len() ==> unit_dir(#[trigger] dirs[k]),
    ensures
        ray_dests(dirs, fr, ff, friendly, occupied).no_duplicates(),
        forall|i: int| 0 <= i < ray_dests(dirs, fr, ff, friendly, occupied).len()
            ==> along(dirs, fr, ff, #[trigger] ray_dests(dirs, fr, ff, friendly, occupied)[i]),
    decreases dirs.len(),
{
    if dirs.len() > 0 {
        let d = dirs.drop_last();
        let n = dirs.len() - 1;
        assert(d.no_duplicates());
        assert forall|k: int| 0 <= k < d.len() implies unit_dir(#[trigger] d[k]) by {
            assert(d[k] == dirs[k]);
        }
        lemma_ray_dests_shape(d, fr, ff, friendly, occupied);
        let prev = ray_dests(d, fr, ff, friendly, occupied);
        assert(dirs.last() == dirs[n]);
        assert(unit_dir(dirs[n]));
        let dr = dirs[n].0 as int;
        let df = dirs[n].1 as int;
        lemma_ray_from_shape(fr, ff, dr, df, friendly, occupied, 1);
        let last = ray_from(fr, ff, dr, df, friendly, occupied, 1);
        let res = ray_dests(dirs, fr, ff, friendly, occupied);
        assert(res == prev + last);
        assert forall|i: int, j: int| 0 <= i < prev.len() && 0 <= j < last.len() implies prev[i] != last[j] by {
            assert(along(d, fr, ff, prev[i]));
            let k = choose|k: int| #![trigger d[k]]
                0 <= k < d.len() && on_ray(fr, ff, d[k].0 as int, d[k].1 as int, 1, prev[i]);
            assert(d[k] == dirs[k]);
            assert(on_ray(fr, ff, dr, df, 1, last[j]));
            if prev[i] == last[j] {
                assert(dirs[k].0 == dirs[n].0 && dirs[k].1 == dirs[n].1);
                assert(dirs[k] == dirs[n]);
            }
        }
        lemma_concat_distinct(prev, last);
        assert forall|i: int| 0 <= i < res.len() implies along(dirs, fr, ff, #[trigger] res[i]) by {
            if i < prev.len() {
                assert(res[i] == prev[i]);
                assert(along(d, fr, ff, prev[i]));
                let k = choose|k: int| #![trigger d[k]]
                    0 <= k < d.len() && on_ray(fr, ff, d[k].0 as int, d[k].1 as int, 1, prev[i]);
                assert(d[k] == dirs[k]);
            } else {
                assert(res[i] == last[i - prev.len()]);
                assert(on_ray(fr, ff, dr, df, 1, last[i - prev.len()]));
            }
        }
    }
}

proof fn lemma_pawn_dests_distinct(b: BoardView, fr: int, ff: int, white: bool, occupied: u64)
    requires
        0 <= fr < 8,
        0 <= ff < 8,
    ensures
        pawn_dests(b, fr, ff, white, occupied).no_duplicates(),
{
    let dir: int = if white { 1 } else { -1 };
    let start: int = if white { 1 } else { 6 };
    let one = fr + dir;
    let two = fr + 2 * dir;
    let forward = if in_range8(one) && !crate::bits::has_bit(occupied, one * 8 + ff) {
        if fr == start && in_range8(two) && !crate::bits::has_bit(occupied, two * 8 + ff) {
            seq![(one as usize, ff as usize), (two as usize, ff as usize)]
        } else {
            seq![(one as usize, ff as usize)]
        }
    } else {
        seq![]
    };
    let left = pawn_capture_dest(b, fr, ff, white, -1);
    let right = pawn_capture_dest(b, fr, ff, white, 1);
    assert(pawn_dests(b, fr, ff, white, occupied) == forward + left + right);
    assert forall|i: int| 0 <= i < forward.len() implies #[trigger] forward[i].1 == ff as usize by {}
    assert forall|i: int| 0 <= i < left.len() implies #[trigger] left[i].1 as int == ff - 1 by {}
    assert forall|i: int| 0 <= i < right.len() implies #[trigger] right[i].1 as int == ff + 1 by {}
    assert(forward.no_duplicates());
    lemma_concat_distinct(forward, left);
    assert forall|i: int, j: int| 0 <= i < (forward + left).len() && 0 <= j < right.len()
        implies (forward + left)[i] != right[j] by {
        if i < forward.len() {
            assert((forward + left)[i] == forward[i]);
        } else {
            assert((forward + left)[i] == left[i - forward.len()]);
        }
    }
    lemma_concat_distinct(forward + left, right);
}

/// No square is a candidate destination twice for the same piece.
pub proof fn lemma_pseudo_dests_distinct(b: BoardView, pt: Piece, fr: int, ff: int)
    requires
        0 <= fr < 8,
        0 <= ff < 8,
    ensures
        pseudo_dests(b, pt, fr, ff).no_duplicates(),
{
    let white = pt.white();
    let friendly = if white { crate::board::white_occ(b.bb) } else { crate::board::black_occ(b.bb) };
    let enemy = if white { crate::board::black_occ(b.bb) } else { crate::board::white_occ(b.bb) };
    let occupied = friendly | enemy;
    let kn = knight_offsets_spec();
    let kg = king_offsets_spec();
    let bd = bishop_directions_spec();
    let rd = rook_directions_spec();
    assert(kn.no_duplicates());
    assert(kg.no_duplicates());
    assert(bd.no_duplicates());
    assert(rd.no_duplicates());
    assert forall|k: int| 0 <= k < bd.len() implies unit_dir(#[trigger] bd[k]) by {}
    assert forall|k: int| 0 <= k < rd.len() implies unit_dir(#[trigger] rd[k]) by {}
    match pt {
        Piece::WhiteKnight | Piece::BlackKnight => {
            lemma_offset_dests_shape(kn, fr, ff, friendly);
        },
        Piece::WhiteKing | Piece::BlackKing => {
            lemma_offset_dests_shape(kg, fr, ff, friendly);
            let d = offset_dests(kg, fr, ff, friendly);
            if fr == home_rank(white) && ff == 4 {
                let e = (fr as usize, 6usize);
                let w = (fr as usize, 2usize);
                assert forall|i: int| 0 <= i < d.len() implies #[trigger] d[i] != e && d[i] != w by {
                    assert(from_offset(kg, fr, ff, d[i]));
                    let k = choose|k: int| #![trigger kg[k]] 0 <= k < kg.len() && in_range8(fr + kg[k].0)
                        && in_range8(ff + kg[k].1) && d[i] == ((fr + kg[k].0) as usize, (ff + kg[k].1) as usize);
                    assert(-1 <= kg[k].1 <= 1);
                }
                lemma_concat_distinct(d, seq![e, w]);
                assert(d.push(e).push(w) == d + seq![e, w]);
            }
        },
        Piece::WhiteBishop | Piece::BlackBishop => {
            lemma_ray_dests_shape(bd, fr, ff, friendly, occupied);
        },
        Piece::WhiteRook | Piece::BlackRook => {
            lemma_ray_dests_shape(rd, fr, ff, friendly, occupied);
        },
        Piece::WhiteQueen | Piece::BlackQueen => {
            lemma_ray_dests_shape(bd, fr, ff, friendly, occupied);
            lemma_ray_dests_shape(rd, fr, ff, friendly, occupied);
            let x = ray_dests(bd, fr, ff, friendly, occupied);
            let y = ray_dests(rd, fr, ff, friendly, occupied);
            assert forall|i: int, j: int| 0 <= i < x.len() && 0 <= j < y.len() implies x[i] != y[j] by {
                assert(along(bd, fr, ff, x[i]));
                assert(along(rd, fr, ff, y[j]));
                let k = choose|k: int| #![trigger bd[k]]
                    0 <= k < bd.len() && on_ray(fr, ff, bd[k].0 as int, bd[k].1 as int, 1, x[i]);
                let l = choose|l: int| #![trigger rd[l]]
                    0 <= l < rd.len() && on_ray(fr, ff, rd[l].0 as int, rd[l].1 as int, 1, y[j]);
                assert(bd[k].0 != 0 && bd[k].1 != 0);
                assert(rd[l].0 == 0 || rd[l].1 == 0);
            }
            lemma_concat_distinct(x, y);
        },
        Piece::WhitePawn => {
            lemma_pawn_dests_distinct(b, fr, ff, true, occupied);
        },
        Piece::BlackPawn => {
            lemma_pawn_dests_distinct(b, fr, ff, false, occupied);
        },
    }
}

proof fn lemma_candidates_distinct(pt: Piece, fr: int, ff: int, to: (usize, usize))
    ensures
        candidates_to(pt, fr, ff, to).no_duplicates(),
        forall|i: int| 0 <= i < candidates_to(pt, fr, ff, to).len() ==> (#[trigger] candidates_to(pt, fr, ff, to)[i]).to == to
            && candidates_to(pt, fr, ff, to)[i].piece == (ActivePiece { piece_type: pt, from_rank: fr as usize, from_file: ff as usize }),
{
    let c = candidates_to(pt, fr, ff, to);
    let ch = promotion_choices_spec(pt.white());
    assert(ch.no_duplicates());
    assert forall|i: int, j: int| 0 <= i < c.len() && 0 <= j < c.len() && i != j implies c[i] != c[j] by {
        if (pt == Piece::WhitePawn && to.0 == 7) || (pt == Piece::BlackPawn && to.0 == 0) {
            assert(c[i].promotion == Some(ch[i]));
            assert(c[j].promotion == Some(ch[j]));
        }
    }
}

proof fn lemma_legal_filter_distinct(b: BoardView, mvs: Seq<Move>)
    ensures
        forall|i: int| 0 <= i < legal_filter(b, mvs).len() ==> mvs.contains(#[trigger] legal_filter(b, mvs)[i]),
        mvs.no_duplicates() ==> legal_filter(b, mvs).no_duplicates(),
    decreases mvs.len(),
{
    if mvs.len() > 0 {
        let d = mvs.drop_last();
        lemma_legal_filter_distinct(b, d);
        let prev = legal_filter(b, d);
        let res = legal_filter(b, mvs);
        assert forall|i: int| 0 <= i < prev.len() implies mvs.contains(#[trigger] prev[i]) by {
            assert(d.contains(prev[i]));
            let j = choose|j: int| 0 <= j < d.len() && d[j] == prev[i];
            assert(mvs[j] == prev[i]);
        }
        if crate::moves::fully_legal(b, mvs.last()) {
            assert(res == prev.push(mvs.last()));
            assert(mvs.contains(mvs[mvs.len() - 1]));
            assert forall|i: int| 0 <= i < res.len() implies mvs.contains(#[trigger] res[i]) by {
                if i < prev.len() { assert(res[i] == prev[i]); }
            }
            if mvs.no_duplicates() {
                assert(d.no_duplicates());
                assert forall|i: int| 0 <= i < prev.len() implies prev[i] != mvs.last() by {
                    assert(d.contains(prev[i]));
                    let j = choose|j: int| 0 <= j < d.len() && d[j] == prev[i];
                    assert(mvs[j] == d[j]);
                }
                lemma_concat_distinct(prev, seq![mvs.last()]);
                assert(prev.push(mvs.last()) == prev + seq![mvs.last()]);
            }
        } else {
            if mvs.no_duplicates() {
                assert(d.no_duplicates());
            }
        }
    }
}

proof fn lemma_moves_to_dests_distinct(b: BoardView, pt: Piece, fr: int, ff: int, dests: Seq<(usize, usize)>)
    requires
        dests.no_duplicates(),
    ensures
        moves_to_dests(b, pt, fr, ff, dests).no_duplicates(),
        forall|i: int| 0 <= i < moves_to_dests(b, pt, fr, ff, dests).len() ==> dests.contains((#[trigger] moves_to_dests(b, pt, fr, ff, dests)[i]).to)
            && moves_to_dests(b, pt, fr, ff, dests)[i].piece == (ActivePiece { piece_type: pt, from_rank: fr as usize, from_file: ff as usize }),
    decreases dests.len(),
{
    if dests.len() > 0 {
        let d = dests.drop_last();
        let n = dests.len() - 1;
        assert(d.no_duplicates());
        lemma_moves_to_dests_distinct(b, pt, fr, ff, d);
        let prev = moves_to_dests(b, pt, fr, ff, d);
        let cands = candidates_to(pt, fr, ff, dests.last());
        lemma_candidates_distinct(pt, fr, ff, dests.last());
        lemma_legal_filter_distinct(b, cands);
        let last = legal_filter(b, cands);
        let res = moves_to_dests(b, pt, fr, ff, dests);
        assert(res == prev + last);
        assert(dests.last() == dests[n]);
        assert forall|j: int| 0 <= j < last.len() implies (#[trigger] last[j]).to == dests[n]
            && last[j].piece == (ActivePiece { piece_type: pt, from_rank: fr as usize, from_file: ff as usize }) by {
            assert(cands.contains(last[j]));
        }
        assert forall|i: int, j: int| 0 <= i < prev.len() && 0 <= j < last.len() implies prev[i] != last[j] by {
            assert(d.contains(prev[i].to));
            let k = choose|k: int| 0 <= k < d.len() && d[k] == prev[i].to;
            assert(dests[k] == d[k]);
        }
        lemma_concat_distinct(prev, last);
        assert forall|i: int| 0 <= i < res.len() implies dests.contains((#[trigger] res[i]).to)
            && res[i].piece == (ActivePiece { piece_type: pt, from_rank: fr as usize, from_file: ff as usize }) by {
            if i < prev.len() {
                assert(res[i] == prev[i]);
                assert(d.contains(prev[i].to));
                let k = choose|k: int| 0 <= k < d.len() && d[k] == prev[i].to;
                assert(dests[k] == d[k]);
            } else {
                assert(res[i] == last[i - prev.len()]);
            }
        }
    }
}

proof fn lemma_squares_moves_distinct(b: BoardView, pt: Piece, bits: u64, k: int)
    requires
        k <= 64,
    ensures
        squares_moves(b, pt, bits, k).no_duplicates(),
        forall|i: int| 0 <= i < squares_moves(b, pt, bits, k).len() ==> {
            let m = #[trigger] squares_moves(b, pt, bits, k)[i];
            m.piece.piece_type == pt && m.piece.from_rank < 8 && m.piece.from_file < 8
                && m.piece.from_rank * 8 + m.piece.from_file < k
        },
    decreases k,
{
    if k > 0 {
        lemma_squares_moves_distinct(b, pt, bits, k - 1);
        let prev = squares_moves(b, pt, bits, k - 1);
        let res = squares_moves(b, pt, bits, k);
        if crate::bits::has_bit(bits, k - 1) {
            let fr = (k - 1) / 8;
            let ff = (k - 1) % 8;
            lemma_pseudo_dests_distinct(b, pt, fr, ff);
            lemma_moves_to_dests_distinct(b, pt, fr, ff, pseudo_dests(b, pt, fr, ff));
            let last = piece_moves(b, pt, fr, ff);
            assert(res == prev + last);
            assert forall|i: int, j: int| 0 <= i < prev.len() && 0 <= j < last.len() implies prev[i] != last[j] by {
                assert(last[j].piece.from_rank == fr as usize);
            }
            lemma_concat_distinct(prev, last);
            assert forall|i: int| 0 <= i < res.len() implies {
                let m = #[trigger] res[i];
                m.piece.piece_type == pt && m.piece.from_rank < 8 && m.piece.from_file < 8
                    && m.piece.from_rank * 8 + m.piece.from_file < k
            } by {
                if i < prev.len() {
                    assert(res[i] == prev[i]);
                } else {
                    assert(res[i] == last[i - prev.len()]);
                }
            }
        } else {
            assert(res == prev + seq![]);
            assert(res =~= prev);
        }
    }
}

proof fn lemma_kinds_moves_distinct(b: BoardView, white: bool, n: int)
    requires
        0 <= n <= 6,
    ensures
        kinds_moves(b, white, n).no_duplicates(),
        forall|i: int| 0 <= i < kinds_moves(b, white, n).len() ==> exists|j: int| #![trigger kind_of(white, j)]
            0 <= j < n && (#[trigger] kinds_moves(b, white, n)[i]).piece.piece_type == kind_of(white, j),
    decreases n,
{
    if n > 0 {
        lemma_kinds_moves_distinct(b, white, n - 1);
        let prev = kinds_moves(b, white, n - 1);
        let pt = kind_of(white, n - 1);
        lemma_squares_moves_distinct(b, pt, b.bb[pt.id()], 64);
        let last = squares_moves(b, pt, b.bb[pt.id()], 64);
        let res = kinds_moves(b, white, n);
        assert(res == prev + last);
        assert forall|i: int, j: int| 0 <= i < prev.len() && 0 <= j < last.len() implies prev[i] != last[j] by {
            let q = choose|q: int| #![trigger kind_of(white, q)] 0 <= q < n - 1 && prev[i].piece.piece_type == kind_of(white, q);
            assert(kind_of(white, q).id() == if white { q } else { q + 6 });
            assert(pt.id() == if white { n - 1 } else { n + 5 });
        }
        lemma_concat_distinct(prev, last);
        assert forall|i: int| 0 <= i < res.len() implies exists|j: int| #![trigger kind_of(white, j)]
            0 <= j < n && (#[trigger] res[i]).piece.piece_type == kind_of(white, j) by {
            if i < prev.len() {
                assert(res[i] == prev[i]);
                let q = choose|q: int| #![trigger kind_of(white, q)] 0 <= q < n - 1 && prev[i].piece.piece_type == kind_of(white, q);
                assert(kind_of(white, q) == kind_of(white, q));
            } else {
                assert(res[i] == last[i - prev.len()]);
                assert(kind_of(white, n - 1) == pt);
            }
        }
    }
}

/// Move generation names each legal move once.
pub proof fn lemma_legal_moves_distinct(b: BoardView, white: bool)
    ensures
        legal_moves(b, white).no_duplicates(),
{
    lemma_kinds_moves_distinct(b, white, 6);
}

} // verus!

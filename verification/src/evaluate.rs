use vstd::prelude::*;
use crate::bits::{has_bit, lemma_mask_test, lemma_pop_lowest};
use crate::board::{
    Board, BoardView, Piece, sq_index, on_board, piece_on, lemma_first_occupant,
    undo_record, unexecuted, pieces_disjoint, lemma_make_unmake, lemma_execute_disjoint,
};
use crate::moves::{Move, executed, in_check, square_mask, fully_legal};
use crate::movegen::{
    generate_legal_moves, is_checkmate, is_stalemate, legal_moves, kind_of, playable, lemma_generated_playable,
    sound_for, lemma_generated_moves_sound,
};

verus! {

/// Material value of a piece kind, in pawns.
pub open spec fn value_spec(p: Piece) -> int {
    match p {
        Piece::WhitePawn | Piece::BlackPawn => 1,
        Piece::WhiteKnight | Piece::BlackKnight => 3,
        Piece::WhiteBishop | Piece::BlackBishop => 3,
        Piece::WhiteRook | Piece::BlackRook => 5,
        Piece::WhiteQueen | Piece::BlackQueen => 9,
        Piece::WhiteKing | Piece::BlackKing => 20000,
    }
}

fn piece_value(p: Piece) -> (r: i64)
    ensures
        r == value_spec(p),
{
    match p {
        Piece::WhitePawn | Piece::BlackPawn => 1,
        Piece::WhiteKnight | Piece::BlackKnight => 3,
        Piece::WhiteBishop | Piece::BlackBishop => 3,
        Piece::WhiteRook | Piece::BlackRook => 5,
        Piece::WhiteQueen | Piece::BlackQueen => 9,
        Piece::WhiteKing | Piece::BlackKing => 20000,
    }
}

pub open spec fn pawn_table_spec() -> Seq<i64> {
    seq![
        0i64, 0i64, 0i64, 0i64, 0i64, 0i64, 0i64, 0i64,
        5i64, 10i64, 10i64, -15i64, -15i64, 10i64, 10i64, 5i64,
        5i64, -5i64, -10i64, 5i64, 5i64, -10i64, -5i64, 5i64,
        0i64, 0i64, 0i64, 20i64, 20i64, 0i64, 0i64, 0i64,
        5i64, 5i64, 10i64, 25i64, 25i64, 10i64, 5i64, 5i64,
        10i64, 15i64, 20i64, 30i64, 30i64, 20i64, 15i64, 10i64,
        50i64, 50i64, 50i64, 50i64, 50i64, 50i64, 50i64, 50i64,
        0i64, 0i64, 0i64, 0i64, 0i64, 0i64, 0i64, 0i64,
    ]
}

fn pawn_table() -> (r: [i64; 64])
    ensures
        r@ == pawn_table_spec(),
{
    let r = [
        0i64, 0i64, 0i64, 0i64, 0i64, 0i64, 0i64, 0i64,
        5i64, 10i64, 10i64, -15i64, -15i64, 10i64, 10i64, 5i64,
        5i64, -5i64, -10i64, 5i64, 5i64, -10i64, -5i64, 5i64,
        0i64, 0i64, 0i64, 20i64, 20i64, 0i64, 0i64, 0i64,
        5i64, 5i64, 10i64, 25i64, 25i64, 10i64, 5i64, 5i64,
        10i64, 15i64, 20i64, 30i64, 30i64, 20i64, 15i64, 10i64,
        50i64, 50i64, 50i64, 50i64, 50i64, 50i64, 50i64, 50i64,
        0i64, 0i64, 0i64, 0i64, 0i64, 0i64, 0i64, 0i64,
    ];
    assert(r@ =~= pawn_table_spec());
    r
}

pub open spec fn knight_table_spec() -> Seq<i64> {
    seq![
        -50i64, -40i64, -30i64, -30i64, -30i64, -30i64, -40i64, -50i64,
        -40i64, -20i64, 0i64, 5i64, 5i64, 0i64, -20i64, -40i64,
        -30i64, 5i64, 15i64, 20i64, 20i64, 15i64, 5i64, -30i64,
        -30i64, 0i64, 20i64, 25i64, 25i64, 20i64, 0i64, -30i64,
        -30i64, 5i64, 20i64, 25i64, 25i64, 20i64, 5i64, -30i64,
        -30i64, 0i64, 15i64, 20i64, 20i64, 15i64, 0i64, -30i64,
        -40i64, -20i64, 0i64, 0i64, 0i64, 0i64, -20i64, -40i64,
        -50i64, -40i64, -30i64, -30i64, -30i64, -30i64, -40i64, -50i64,
    ]
}

fn knight_table() -> (r: [i64; 64])
    ensures
        r@ == knight_table_spec(),
{
    let r = [
        -50i64, -40i64, -30i64, -30i64, -30i64, -30i64, -40i64, -50i64,
        -40i64, -20i64, 0i64, 5i64, 5i64, 0i64, -20i64, -40i64,
        -30i64, 5i64, 15i64, 20i64, 20i64, 15i64, 5i64, -30i64,
        -30i64, 0i64, 20i64, 25i64, 25i64, 20i64, 0i64, -30i64,
        -30i64, 5i64, 20i64, 25i64, 25i64, 20i64, 5i64, -30i64,
        -30i64, 0i64, 15i64, 20i64, 20i64, 15i64, 0i64, -30i64,
        -40i64, -20i64, 0i64, 0i64, 0i64, 0i64, -20i64, -40i64,
        -50i64, -40i64, -30i64, -30i64, -30i64, -30i64, -40i64, -50i64,
    ];
    assert(r@ =~= knight_table_spec());
    r
}

pub open spec fn bishop_table_spec() -> Seq<i64> {
    seq![
        -20i64, -10i64, -10i64, -10i64, -10i64, -10i64, -10i64, -20i64,
        -10i64, 5i64, 0i64, 0i64, 0i64, 0i64, 5i64, -10i64,
        -10i64, 10i64, 10i64, 10i64, 10i64, 10i64, 10i64, -10i64,
        -10i64, 0i64, 10i64, 15i64, 15i64, 10i64, 0i64, -10i64,
        -10i64, 5i64, 5i64, 15i64, 15i64, 5i64, 5i64, -10i64,
        -10i64, 0i64, 5i64, 10i64, 10i64, 5i64, 0i64, -10i64,
        -10i64, 0i64, 0i64, 0i64, 0i64, 0i64, 0i64, -10i64,
        -20i64, -10i64, -10i64, -10i64, -10i64, -10i64, -10i64, -20i64,
    ]
}

fn bishop_table() -> (r: [i64; 64])
    ensures
        r@ == bishop_table_spec(),
{
    let r = [
        -20i64, -10i64, -10i64, -10i64, -10i64, -10i64, -10i64, -20i64,
        -10i64, 5i64, 0i64, 0i64, 0i64, 0i64, 5i64, -10i64,
        -10i64, 10i64, 10i64, 10i64, 10i64, 10i64, 10i64, -10i64,
        -10i64, 0i64, 10i64, 15i64, 15i64, 10i64, 0i64, -10i64,
        -10i64, 5i64, 5i64, 15i64, 15i64, 5i64, 5i64, -10i64,
        -10i64, 0i64, 5i64, 10i64, 10i64, 5i64, 0i64, -10i64,
        -10i64, 0i64, 0i64, 0i64, 0i64, 0i64, 0i64, -10i64,
        -20i64, -10i64, -10i64, -10i64, -10i64, -10i64, -10i64, -20i64,
    ];
    assert(r@ =~= bishop_table_spec());
    r
}

pub open spec fn rook_table_spec() -> Seq<i64> {
    seq![
        0i64, 0i64, 5i64, 10i64, 10i64, 5i64, 0i64, 0i64,
        -5i64, 0i64, 0i64, 0i64, 0i64, 0i64, 0i64, -5i64,
        -5i64, 0i64, 0i64, 0i64, 0i64, 0i64, 0i64, -5i64,
        -5i64, 0i64, 0i64, 0i64, 0i64, 0i64, 0i64, -5i64,
        -5i64, 0i64, 0i64, 0i64, 0i64, 0i64, 0i64, -5i64,
        -5i64, 0i64, 0i64, 0i64, 0i64, 0i64, 0i64, -5i64,
        5i64, 10i64, 10i64, 10i64, 10i64, 10i64, 10i64, 5i64,
        0i64, 0i64, 0i64, 0i64, 0i64, 0i64, 0i64, 0i64,
    ]
}

fn rook_table() -> (r: [i64; 64])
    ensures
        r@ == rook_table_spec(),
{
    let r = [
        0i64, 0i64, 5i64, 10i64, 10i64, 5i64, 0i64, 0i64,
        -5i64, 0i64, 0i64, 0i64, 0i64, 0i64, 0i64, -5i64,
        -5i64, 0i64, 0i64, 0i64, 0i64, 0i64, 0i64, -5i64,
        -5i64, 0i64, 0i64, 0i64, 0i64, 0i64, 0i64, -5i64,
        -5i64, 0i64, 0i64, 0i64, 0i64, 0i64, 0i64, -5i64,
        -5i64, 0i64, 0i64, 0i64, 0i64, 0i64, 0i64, -5i64,
        5i64, 10i64, 10i64, 10i64, 10i64, 10i64, 10i64, 5i64,
        0i64, 0i64, 0i64, 0i64, 0i64, 0i64, 0i64, 0i64,
    ];
    assert(r@ =~= rook_table_spec());
    r
}

pub open spec fn queen_table_spec() -> Seq<i64> {
    seq![
        -20i64, -10i64, -10i64, -5i64, -5i64, -10i64, -10i64, -20i64,
        -10i64, 0i64, 5i64, 0i64, 0i64, 0i64, 0i64, -10i64,
        -10i64, 5i64, 5i64, 5i64, 5i64, 5i64, 0i64, -10i64,
        0i64, 0i64, 5i64, 5i64, 5i64, 5i64, 0i64, -5i64,
        -5i64, 0i64, 5i64, 5i64, 5i64, 5i64, 0i64, -5i64,
        -10i64, 0i64, 5i64, 5i64, 5i64, 5i64, 0i64, -10i64,
        -10i64, 0i64, 0i64, 0i64, 0i64, 0i64, 0i64, -10i64,
        -20i64, -10i64, -10i64, -5i64, -5i64, -10i64, -10i64, -20i64,
    ]
}

fn queen_table() -> (r: [i64; 64])
    ensures
        r@ == queen_table_spec(),
{
    let r = [
        -20i64, -10i64, -10i64, -5i64, -5i64, -10i64, -10i64, -20i64,
        -10i64, 0i64, 5i64, 0i64, 0i64, 0i64, 0i64, -10i64,
        -10i64, 5i64, 5i64, 5i64, 5i64, 5i64, 0i64, -10i64,
        0i64, 0i64, 5i64, 5i64, 5i64, 5i64, 0i64, -5i64,
        -5i64, 0i64, 5i64, 5i64, 5i64, 5i64, 0i64, -5i64,
        -10i64, 0i64, 5i64, 5i64, 5i64, 5i64, 0i64, -10i64,
        -10i64, 0i64, 0i64, 0i64, 0i64, 0i64, 0i64, -10i64,
        -20i64, -10i64, -10i64, -5i64, -5i64, -10i64, -10i64, -20i64,
    ];
    assert(r@ =~= queen_table_spec());
    r
}

pub open spec fn king_table_spec() -> Seq<i64> {
    seq![
        20i64, 30i64, 10i64, 0i64, 0i64, 10i64, 30i64, 20i64,
        20i64, 20i64, 0i64, 0i64, 0i64, 0i64, 20i64, 20i64,
        -10i64, -20i64, -20i64, -20i64, -20i64, -20i64, -20i64, -10i64,
        -20i64, -30i64, -30i64, -40i64, -40i64, -30i64, -30i64, -20i64,
        -30i64, -40i64, -40i64, -50i64, -50i64, -40i64, -40i64, -30i64,
        -30i64, -40i64, -40i64, -50i64, -50i64, -40i64, -40i64, -30i64,
        -30i64, -40i64, -40i64, -50i64, -50i64, -40i64, -40i64, -30i64,
        -30i64, -40i64, -40i64, -50i64, -50i64, -40i64, -40i64, -30i64,
    ]
}

fn king_table() -> (r: [i64; 64])
    ensures
        r@ == king_table_spec(),
{
    let r = [
        20i64, 30i64, 10i64, 0i64, 0i64, 10i64, 30i64, 20i64,
        20i64, 20i64, 0i64, 0i64, 0i64, 0i64, 20i64, 20i64,
        -10i64, -20i64, -20i64, -20i64, -20i64, -20i64, -20i64, -10i64,
        -20i64, -30i64, -30i64, -40i64, -40i64, -30i64, -30i64, -20i64,
        -30i64, -40i64, -40i64, -50i64, -50i64, -40i64, -40i64, -30i64,
        -30i64, -40i64, -40i64, -50i64, -50i64, -40i64, -40i64, -30i64,
        -30i64, -40i64, -40i64, -50i64, -50i64, -40i64, -40i64, -30i64,
        -30i64, -40i64, -40i64, -50i64, -50i64, -40i64, -40i64, -30i64,
    ];
    assert(r@ =~= king_table_spec());
    r
}

/// The piece-square table of a kind (the same for both colours, seen from
/// white's side).
pub open spec fn table_spec(p: Piece) -> Seq<i64> {
    match p {
        Piece::WhitePawn | Piece::BlackPawn => pawn_table_spec(),
        Piece::WhiteKnight | Piece::BlackKnight => knight_table_spec(),
        Piece::WhiteBishop | Piece::BlackBishop => bishop_table_spec(),
        Piece::WhiteRook | Piece::BlackRook => rook_table_spec(),
        Piece::WhiteQueen | Piece::BlackQueen => queen_table_spec(),
        Piece::WhiteKing | Piece::BlackKing => king_table_spec(),
    }
}

proof fn lemma_table_bounds(p: Piece)
    ensures
        table_spec(p).len() == 64,
        forall|i: int| 0 <= i < 64 ==> -50 <= #[trigger] table_spec(p)[i] <= 50,
{
    let t = table_spec(p);
    assert forall|i: int| 0 <= i < 64 implies -50 <= #[trigger] t[i] <= 50 by {
        if i < 8 {} else if i < 16 {} else if i < 24 {} else if i < 32 {}
        else if i < 40 {} else if i < 48 {} else if i < 56 {} else {}
    }
}

fn piece_square_table(piece_type: Piece) -> (r: [i64; 64])
    ensures
        r@ == table_spec(piece_type),
{
    match piece_type {
        Piece::WhitePawn | Piece::BlackPawn => pawn_table(),
        Piece::WhiteKnight | Piece::BlackKnight => knight_table(),
        Piece::WhiteBishop | Piece::BlackBishop => bishop_table(),
        Piece::WhiteRook | Piece::BlackRook => rook_table(),
        Piece::WhiteQueen | Piece::BlackQueen => queen_table(),
        Piece::WhiteKing | Piece::BlackKing => king_table(),
    }
}

/// The square seen from the other side: same file, rank `7 - rank`.
pub open spec fn mirror_spec(s: int) -> int {
    (7 - s / 8) * 8 + s % 8
}

fn mirror_square(square: usize) -> (r: usize)
    requires
        square < 64,
    ensures
        r == mirror_spec(square as int),
{
    assert(square ^ 56 == (7 - square / 8) * 8 + square % 8) by (bit_vector)
        requires square < 64;
    square ^ 56
}

/// The first piece, white kinds first, standing on `square`.
pub(crate) fn piece_at(board: &Board, square: (usize, usize)) -> (r: Option<Piece>)
    requires
        sq_index(square) < 64,
    ensures
        r == piece_on(board@.bb, sq_index(square)),
        r matches Some(p) ==> has_bit(board@.bb[p.id()], sq_index(square)),
{
    let mask = square_mask(square.0, square.1);
    let whites = Piece::all_of_color(true);
    let blacks = Piece::all_of_color(false);
    let mut k: usize = 0;
    while k < 12
        invariant
            k <= 12,
            mask == 1u64 << (sq_index(square) as u64),
            sq_index(square) < 64,
            forall|i: int| 0 <= i < 6 ==> #[trigger] whites[i].id() == i,
            forall|i: int| 0 <= i < 6 ==> #[trigger] blacks[i].id() == i + 6,
            forall|j: int| 0 <= j < k ==> !#[trigger] has_bit(board@.bb[j], sq_index(square)),
        decreases 12 - k,
    {
        let p = if k < 6 { whites[k] } else { blacks[k - 6] };
        assert(p.id() == k);
        proof { lemma_mask_test(board@.bb[k as int], sq_index(square) as u64); }
        if board.bitboard(p) & mask != 0 {
            proof {
                lemma_first_occupant(board@.bb, 0, 12, sq_index(square), k as int);
                p.lemma_id();
            }
            return Some(p);
        }
        k += 1;
    }
    None
}

/// The number of set bits among squares `0..k`.
pub open spec fn bits_upto(x: u64, k: int) -> nat
    decreases k,
{
    if k <= 0 {
        0
    } else {
        bits_upto(x, k - 1) + if has_bit(x, k - 1) { 1nat } else { 0nat }
    }
}

/// The number of set bits.
pub open spec fn pop_count(x: u64) -> nat {
    bits_upto(x, 64)
}

proof fn lemma_bits_upto_bound(x: u64, k: int)
    requires
        0 <= k,
    ensures
        bits_upto(x, k) <= k,
    decreases k,
{
    if k > 0 {
        lemma_bits_upto_bound(x, k - 1);
    }
}

proof fn lemma_pop_count_bound(x: u64)
    ensures
        pop_count(x) <= 64,
{
    lemma_bits_upto_bound(x, 64);
}

fn count_ones(x: u64) -> (r: u32)
    ensures
        r == pop_count(x),
{
    let mut count: u32 = 0;
    let mut k: u64 = 0;
    while k < 64
        invariant
            k <= 64,
            count == bits_upto(x, k as int),
            count <= k,
        decreases 64 - k,
    {
        if (x >> k) & 1u64 == 1u64 {
            count += 1;
        }
        k += 1;
    }
    count
}

/// Material of the first `n` kinds of a colour: value times number of pieces.
pub open spec fn material_upto(bb: Seq<u64>, white: bool, n: int) -> int
    decreases n,
{
    if n <= 0 {
        0
    } else {
        let p = kind_of(white, n - 1);
        material_upto(bb, white, n - 1) + value_spec(p) * pop_count(bb[p.id()])
    }
}

pub open spec fn material(bb: Seq<u64>, white: bool) -> int {
    material_upto(bb, white, 6)
}

/// Table values of the squares `0..k` of `bits`; black reads the table from
/// the mirrored square.
pub open spec fn table_sum(table: Seq<i64>, bits: u64, white: bool, k: int) -> int
    decreases k,
{
    if k <= 0 {
        0
    } else {
        let s = k - 1;
        table_sum(table, bits, white, k - 1) + if has_bit(bits, s) {
            table[if white { s } else { mirror_spec(s) }] as int
        } else {
            0
        }
    }
}

/// Positional score of the first `n` kinds of a colour.
pub open spec fn positional_upto(bb: Seq<u64>, white: bool, n: int) -> int
    decreases n,
{
    if n <= 0 {
        0
    } else {
        let p = kind_of(white, n - 1);
        positional_upto(bb, white, n - 1) + table_sum(table_spec(p), bb[p.id()], white, 64)
    }
}

pub open spec fn positional(bb: Seq<u64>, white: bool) -> int {
    positional_upto(bb, white, 6)
}

/// Static evaluation from white's point of view: material difference in
/// centipawns plus positional difference.
pub open spec fn static_eval(b: BoardView) -> int {
    (material(b.bb, true) - material(b.bb, false)) * 100 + (positional(b.bb, true) - positional(b.bb, false))
}

proof fn lemma_material_bounds(bb: Seq<u64>, white: bool, n: int)
    requires
        0 <= n <= 6,
    ensures
        0 <= material_upto(bb, white, n) <= n * 64 * 20000,
    decreases n,
{
    if n > 0 {
        lemma_material_bounds(bb, white, n - 1);
        let p = kind_of(white, n - 1);
        lemma_pop_count_bound(bb[p.id()]);
        assert(value_spec(p) * pop_count(bb[p.id()]) <= 20000 * 64) by (nonlinear_arith)
            requires value_spec(p) <= 20000, pop_count(bb[p.id()]) <= 64, value_spec(p) >= 0;
        assert(value_spec(p) * pop_count(bb[p.id()]) >= 0) by (nonlinear_arith)
            requires value_spec(p) >= 0;
    }
}

proof fn lemma_table_sum_bounds(table: Seq<i64>, bits: u64, white: bool, k: int)
    requires
        0 <= k <= 64,
        table.len() == 64,
        forall|i: int| 0 <= i < 64 ==> -50 <= #[trigger] table[i] <= 50,
    ensures
        -50 * k <= table_sum(table, bits, white, k) <= 50 * k,
    decreases k,
{
    if k > 0 {
        lemma_table_sum_bounds(table, bits, white, k - 1);
        let s = k - 1;
        if !white {
            assert(0 <= mirror_spec(s) < 64);
        }
    }
}

proof fn lemma_positional_bounds(bb: Seq<u64>, white: bool, n: int)
    requires
        0 <= n <= 6,
    ensures
        -3200 * n <= positional_upto(bb, white, n) <= 3200 * n,
    decreases n,
{
    if n > 0 {
        lemma_positional_bounds(bb, white, n - 1);
        let p = kind_of(white, n - 1);
        lemma_table_bounds(p);
        lemma_table_sum_bounds(table_spec(p), bb[p.id()], white, 64);
    }
}

pub proof fn lemma_static_eval_bounds(b: BoardView)
    ensures
        -1_000_000_000 <= static_eval(b) <= 1_000_000_000,
{
    lemma_material_bounds(b.bb, true, 6);
    lemma_material_bounds(b.bb, false, 6);
    let d = material(b.bb, true) - material(b.bb, false);
    assert(-768_000_000 <= d * 100 <= 768_000_000) by (nonlinear_arith)
        requires -7_680_000 <= d <= 7_680_000;
    lemma_positional_bounds(b.bb, true, 6);
    lemma_positional_bounds(b.bb, false, 6);
}


/// Score of a move for ordering the search: promotions by the new piece's
/// value, captures by victim value (most valuable victim, least valuable
/// attacker), a diagonal pawn move onto an empty square as a pawn capture.
pub open spec fn move_score_spec(b: BoardView, mv: Move) -> int {
    let promo = match mv.promotion {
        Some(p) => value_spec(p) * 100,
        None => 0,
    };
    let capture = match piece_on(b.bb, sq_index(mv.to)) {
        Some(victim) => value_spec(victim) * 100 - value_spec(mv.piece.piece_type),
        None => if mv.piece.piece_type.is_pawn() && mv.piece.from_file != mv.to.1 {
            value_spec(Piece::WhitePawn) * 100 - value_spec(Piece::WhitePawn)
        } else {
            0
        },
    };
    promo + capture
}

/// Inserts `m` after every element whose score is at least its own.
pub open spec fn insert_desc(b: BoardView, sorted: Seq<Move>, m: Move) -> Seq<Move>
    decreases sorted.len(),
{
    if sorted.len() == 0 {
        seq![m]
    } else if move_score_spec(b, sorted.last()) >= move_score_spec(b, m) {
        sorted.push(m)
    } else {
        insert_desc(b, sorted.drop_last(), m).push(sorted.last())
    }
}

/// The moves ordered by decreasing score; moves of equal score keep their
/// order (a stable sort).
pub open spec fn sort_desc(b: BoardView, s: Seq<Move>) -> Seq<Move>
    decreases s.len(),
{
    if s.len() == 0 {
        seq![]
    } else {
        insert_desc(b, sort_desc(b, s.drop_last()), s.last())
    }
}

/// The legal moves in the order the search visits them.
pub open spec fn ordered_moves(b: BoardView, white: bool) -> Seq<Move> {
    sort_desc(b, legal_moves(b, white))
}

pub struct Evaluator {
    pub max_depth: u32,
}

impl Evaluator {
    pub fn new(max_depth: u32) -> (r: Self)
        ensures
            r.max_depth == max_depth,
    {
        Evaluator { max_depth }
    }

    pub fn material_count(&self, board: &Board, is_white: bool) -> (r: i64)
        ensures
            r == material(board@.bb, is_white),
    {
        let kinds = Piece::all_of_color(is_white);
        let mut total: i64 = 0;
        let mut k: usize = 0;
        while k < 6
            invariant
                k <= 6,
                forall|i: int| 0 <= i < 6 ==> #[trigger] kinds[i].id() == if is_white { i } else { i + 6 },
                total == material_upto(board@.bb, is_white, k as int),
            decreases 6 - k,
        {
            let piece = kinds[k];
            proof {
                piece.lemma_id();
                assert(kind_of(is_white, k as int) == piece);
                lemma_material_bounds(board@.bb, is_white, k + 1);
                lemma_pop_count_bound(board@.bb[piece.id()]);
            }
            let piece_value = piece_value(piece);
            let piece_count = count_ones(board.bitboard(piece)) as i64;
            assert(piece_value * piece_count <= 20000 * 64) by (nonlinear_arith)
                requires piece_value <= 20000, piece_count <= 64, piece_value >= 0, piece_count >= 0;
            assert(piece_value * piece_count >= 0) by (nonlinear_arith)
                requires piece_value >= 0, piece_count >= 0;
            total += piece_value * piece_count;
            k += 1;
        }
        total
    }

    pub fn positional_score(&self, board: &Board, is_white: bool) -> (r: i64)
        ensures
            r == positional(board@.bb, is_white),
    {
        let kinds = Piece::all_of_color(is_white);
        let mut total: i64 = 0;
        let mut k: usize = 0;
        while k < 6
            invariant
                k <= 6,
                forall|i: int| 0 <= i < 6 ==> #[trigger] kinds[i].id() == if is_white { i } else { i + 6 },
                total == positional_upto(board@.bb, is_white, k as int),
                -3200 * k <= total <= 3200 * k,
            decreases 6 - k,
        {
            let piece = kinds[k];
            proof {
                piece.lemma_id();
                assert(kind_of(is_white, k as int) == piece);
                lemma_table_bounds(piece);
            }
            let table = piece_square_table(piece);
            let orig = board.bitboard(piece);
            let mut bb: u64 = orig;
            let ghost base = total;
            let ghost mut t: int = 0;
            while bb != 0
                invariant
                    0 <= t <= 64,
                    k < 6,
                    forall|s: int| #[trigger] has_bit(bb, s) <==> (has_bit(orig, s) && s >= t),
                    table@ == table_spec(piece),
                    table@.len() == 64,
                    forall|i: int| 0 <= i < 64 ==> -50 <= #[trigger] table@[i] <= 50,
                    total == base + table_sum(table@, orig, is_white, t),
                    -3200 * k <= base <= 3200 * k,
                    -50 * t <= table_sum(table@, orig, is_white, t) <= 50 * t,
                decreases bb,
            {
                proof { lemma_pop_lowest(bb); }
                let ghost bb0 = bb;
                let sq = bb.trailing_zeros() as usize;
                bb &= bb - 1;
                proof {
                    assert forall|s: int| t <= s < sq implies !#[trigger] has_bit(orig, s) by {
                        assert(!has_bit(bb0, s));
                    }
                    assert(has_bit(orig, sq as int));
                    assert forall|s: int| #[trigger] has_bit(bb, s) <==> (has_bit(orig, s) && s >= sq + 1) by {
                        if has_bit(orig, s) && t <= s < sq {
                            assert(!has_bit(bb0, s));
                        }
                    }
                    lemma_table_sum_skip(table@, orig, is_white, t, sq as int);
                    lemma_table_sum_bounds(table@, orig, is_white, sq + 1);
                }
                let index = if is_white { sq } else { mirror_square(sq) };
                total += table[index];
                proof { t = sq + 1; }
            }
            proof {
                assert forall|s: int| t <= s < 64 implies !#[trigger] has_bit(orig, s) by {
                    let j = s as u64;
                    assert((0u64 >> j) & 1u64 == 0u64) by (bit_vector);
                    assert(!has_bit(bb, s));
                }
                lemma_table_sum_skip(table@, orig, is_white, t, 64);
                lemma_table_sum_bounds(table@, orig, is_white, 64);
            }
            k += 1;
        }
        total
    }

    pub fn static_evaluation(&self, board: &Board) -> (r: i64)
        ensures
            r == static_eval(board@),
    {
        proof {
            lemma_material_bounds(board@.bb, true, 6);
            lemma_material_bounds(board@.bb, false, 6);
            lemma_positional_bounds(board@.bb, true, 6);
            lemma_positional_bounds(board@.bb, false, 6);
        }
        let material = self.material_count(board, true) - self.material_count(board, false);
        let positional = self.positional_score(board, true) - self.positional_score(board, false);
        assert(-768_000_000 <= material * 100 <= 768_000_000) by (nonlinear_arith)
            requires -7_680_000 <= material <= 7_680_000;
        material * 100 + positional
    }

    fn move_score(&self, mv: &Move, board: &Board) -> (r: i64)
        requires
            on_board(mv.to),
        ensures
            r == move_score_spec(board@, *mv),
    {
        let mut score: i64 = 0;
        if let Some(promo) = mv.promotion {
            score += piece_value(promo) * 100;
        }
        if let Some(victim) = piece_at(board, mv.to) {
            let attacker_value = piece_value(mv.piece.piece_type);
            let victim_value = piece_value(victim);
            score += victim_value * 100 - attacker_value;
        } else if matches!(mv.piece.piece_type, Piece::WhitePawn | Piece::BlackPawn)
            && mv.piece.from_file != mv.to.1 {
            let pawn_value = piece_value(Piece::WhitePawn);
            score += pawn_value * 100 - pawn_value;
        }
        score
    }
}

proof fn lemma_table_sum_skip(table: Seq<i64>, bits: u64, white: bool, lo: int, hi: int)
    requires
        0 <= lo <= hi,
        forall|s: int| lo <= s < hi ==> !#[trigger] has_bit(bits, s),
    ensures
        table_sum(table, bits, white, hi) == table_sum(table, bits, white, lo),
    decreases hi - lo,
{
    if hi > lo {
        lemma_table_sum_skip(table, bits, white, lo, hi - 1);
        assert(!has_bit(bits, hi - 1));
    }
}


/// Inserting after the last element whose score is at least `m`'s.
proof fn lemma_insert_desc_at(b: BoardView, sorted: Seq<Move>, m: Move, p: int)
    requires
        0 <= p <= sorted.len(),
        forall|i: int| p <= i < sorted.len() ==> move_score_spec(b, #[trigger] sorted[i]) < move_score_spec(b, m),
        p == 0 || move_score_spec(b, sorted[p - 1]) >= move_score_spec(b, m),
    ensures
        insert_desc(b, sorted, m) == sorted.insert(p, m),
    decreases sorted.len() - p,
{
    if sorted.len() == 0 {
        assert(sorted.insert(p, m) =~= seq![m]);
    } else if p == sorted.len() {
        assert(sorted.last() == sorted[p - 1]);
        assert(sorted.insert(p, m) =~= sorted.push(m));
    } else {
        let d = sorted.drop_last();
        assert(sorted.last() == sorted[sorted.len() - 1]);
        assert forall|i: int| p <= i < d.len() implies move_score_spec(b, #[trigger] d[i]) < move_score_spec(b, m) by {
            assert(d[i] == sorted[i]);
        }
        if p > 0 {
            assert(d[p - 1] == sorted[p - 1]);
        }
        lemma_insert_desc_at(b, d, m, p);
        assert(sorted.insert(p, m) =~= d.insert(p, m).push(sorted.last()));
    }
}

/// Whatever holds of every input move holds of every sorted move, and the
/// sort keeps the number of moves.
pub proof fn lemma_sort_desc_elems(b: BoardView, s: Seq<Move>, pred: spec_fn(Move) -> bool)
    requires
        forall|i: int| 0 <= i < s.len() ==> pred(#[trigger] s[i]),
    ensures
        sort_desc(b, s).len() == s.len(),
        forall|i: int| 0 <= i < sort_desc(b, s).len() ==> pred(#[trigger] sort_desc(b, s)[i]),
    decreases s.len(),
{
    if s.len() > 0 {
        let d = s.drop_last();
        assert forall|i: int| 0 <= i < d.len() implies pred(#[trigger] d[i]) by {
            assert(d[i] == s[i]);
        }
        lemma_sort_desc_elems(b, d, pred);
        assert(pred(s.last())) by {
            assert(s.last() == s[s.len() - 1]);
        }
        lemma_insert_desc_elems(b, sort_desc(b, d), s.last(), pred);
    }
}

proof fn lemma_insert_desc_elems(b: BoardView, sorted: Seq<Move>, m: Move, pred: spec_fn(Move) -> bool)
    requires
        forall|i: int| 0 <= i < sorted.len() ==> pred(#[trigger] sorted[i]),
        pred(m),
    ensures
        insert_desc(b, sorted, m).len() == sorted.len() + 1,
        forall|i: int| 0 <= i < insert_desc(b, sorted, m).len() ==> pred(#[trigger] insert_desc(b, sorted, m)[i]),
    decreases sorted.len(),
{
    if sorted.len() > 0 {
        let d = sorted.drop_last();
        assert forall|i: int| 0 <= i < d.len() implies pred(#[trigger] d[i]) by {
            assert(d[i] == sorted[i]);
        }
        assert(pred(sorted.last())) by {
            assert(sorted.last() == sorted[sorted.len() - 1]);
        }
        if move_score_spec(b, sorted.last()) < move_score_spec(b, m) {
            lemma_insert_desc_elems(b, d, m, pred);
            let r = insert_desc(b, d, m);
            assert forall|i: int| 0 <= i < r.push(sorted.last()).len() implies pred(#[trigger] r.push(sorted.last())[i]) by {
                if i < r.len() {
                    assert(r.push(sorted.last())[i] == r[i]);
                }
            }
        } else {
            assert forall|i: int| 0 <= i < sorted.push(m).len() implies pred(#[trigger] sorted.push(m)[i]) by {
                if i < sorted.len() {
                    assert(sorted.push(m)[i] == sorted[i]);
                }
            }
        }
    }
}

impl Evaluator {
    /// Orders moves by decreasing `move_score`, keeping the order of moves
    /// with equal scores (a stable insertion sort).
    fn sort_by_score(&self, moves: &Vec<Move>, board: &Board) -> (sorted: Vec<Move>)
        requires
            forall|i: int| 0 <= i < moves@.len() ==> on_board(#[trigger] moves@[i].to),
        ensures
            sorted@ == sort_desc(board@, moves@),
    {
        let mut sorted: Vec<Move> = Vec::new();
        let mut scores: Vec<i64> = Vec::new();
        let mut j: usize = 0;
        while j < moves.len()
            invariant
                j <= moves@.len(),
                forall|i: int| 0 <= i < moves@.len() ==> on_board(#[trigger] moves@[i].to),
                sorted@ == sort_desc(board@, moves@.subrange(0, j as int)),
                scores@.len() == sorted@.len(),
                forall|i: int| 0 <= i < scores@.len() ==> #[trigger] scores@[i] == move_score_spec(board@, sorted@[i]),
            decreases moves@.len() - j,
        {
            let m = moves[j];
            let s = self.move_score(&m, board);
            assert(moves@.subrange(0, j + 1).drop_last() =~= moves@.subrange(0, j as int));
            assert(moves@.subrange(0, j + 1).last() == m);
            let mut p = sorted.len();
            while p > 0 && scores[p - 1] < s
                invariant
                    p <= sorted@.len(),
                    scores@.len() == sorted@.len(),
                    forall|i: int| 0 <= i < scores@.len() ==> #[trigger] scores@[i] == move_score_spec(board@, sorted@[i]),
                    forall|i: int| p <= i < sorted@.len() ==> move_score_spec(board@, #[trigger] sorted@[i]) < s,
                    s == move_score_spec(board@, m),
                decreases p,
            {
                p -= 1;
            }
            proof {
                if p > 0 {
                    assert(scores@[p - 1] == move_score_spec(board@, sorted@[p - 1]));
                }
                lemma_insert_desc_at(board@, sorted@, m, p as int);
            }
            let ghost old_scores = scores@;
            let ghost old_sorted = sorted@;
            sorted.insert(p, m);
            scores.insert(p, s);
            assert forall|i: int| 0 <= i < scores@.len() implies #[trigger] scores@[i] == move_score_spec(board@, sorted@[i]) by {
                if i < p {
                    assert(scores@[i] == old_scores[i] && sorted@[i] == old_sorted[i]);
                } else if i == p {
                } else {
                    assert(scores@[i] == old_scores[i - 1] && sorted@[i] == old_sorted[i - 1]);
                }
            }
            j += 1;
        }
        assert(moves@.subrange(0, moves@.len() as int) =~= moves@);
        sorted
    }
}


/// Score of a side with no legal move that is in check, found `depth` plies
/// from the search horizon: the sooner the mate, the better for the winner.
pub open spec fn mate_score(white: bool, depth: nat) -> int {
    if white { i64::MIN + 1000 + depth } else { i64::MAX - 1000 - depth }
}

pub open spec fn max_int(a: int, b: int) -> int {
    if a >= b { a } else { b }
}

pub open spec fn min_int(a: int, b: int) -> int {
    if a <= b { a } else { b }
}

/// Alpha-beta search to `depth` plies: white maximises, black minimises, the
/// window `(alpha, beta)` cuts off branches that cannot change the result.
/// Returns the score and the board as the search leaves it (each move is made
/// and taken back in turn).
pub open spec fn search(b: BoardView, depth: nat, white: bool, alpha: int, beta: int) -> (int, BoardView)
    decreases depth, 1int, 0int,
{
    if depth == 0 {
        (static_eval(b), b)
    } else {
        let moves = ordered_moves(b, white);
        if moves.len() == 0 {
            (if in_check(b, white) { mate_score(white, depth) } else { 0 }, b)
        } else {
            search_loop(b, moves, 0, depth, white, alpha, beta, if white { i64::MIN as int } else { i64::MAX as int })
        }
    }
}

/// The search over the moves `i..` of a node, with the best score so far.
pub open spec fn search_loop(b: BoardView, moves: Seq<Move>, i: int, depth: nat, white: bool, alpha: int, beta: int, best: int) -> (int, BoardView)
    decreases depth, 0int, moves.len() - i,
{
    if i < 0 || i >= moves.len() || depth == 0 {
        (best, b)
    } else {
        let mv = moves[i];
        let child = search(executed(b, mv), (depth - 1) as nat, !white, alpha, beta);
        let b2 = unexecuted(child.1, mv, undo_record(b, mv));
        if white {
            let best2 = max_int(best, child.0);
            let alpha2 = max_int(alpha, best2);
            if beta <= alpha2 {
                (best2, b2)
            } else {
                search_loop(b2, moves, i + 1, depth, white, alpha2, beta, best2)
            }
        } else {
            let best2 = min_int(best, child.0);
            let beta2 = min_int(beta, best2);
            if beta2 <= alpha {
                (best2, b2)
            } else {
                search_loop(b2, moves, i + 1, depth, white, alpha, beta2, best2)
            }
        }
    }
}

/// The loop of `best_move` over the root moves `i..`: every move is searched
/// with the current window, and the first strictly better score wins.
pub open spec fn best_loop(
    b: BoardView,
    moves: Seq<Move>,
    i: int,
    child_depth: nat,
    white: bool,
    alpha: int,
    beta: int,
    best_score: int,
    best: Option<Move>,
) -> (Option<Move>, BoardView)
    decreases moves.len() - i,
{
    if i < 0 || i >= moves.len() {
        (best, b)
    } else {
        let mv = moves[i];
        let child = search(executed(b, mv), child_depth, !white, alpha, beta);
        let b2 = unexecuted(child.1, mv, undo_record(b, mv));
        let better = if white { child.0 > best_score } else { child.0 < best_score };
        let bs2 = if better { child.0 } else { best_score };
        let best2 = if better { Some(mv) } else { best };
        let alpha2 = if white { max_int(alpha, bs2) } else { alpha };
        let beta2 = if white { beta } else { min_int(beta, bs2) };
        best_loop(b2, moves, i + 1, child_depth, white, alpha2, beta2, bs2, best2)
    }
}

/// What `best_move` returns, and the board it leaves.
pub open spec fn best_move_result(b: BoardView, max_depth: nat, white: bool) -> (Option<Move>, BoardView) {
    best_loop(
        b,
        ordered_moves(b, white),
        0,
        if max_depth > 0 { (max_depth - 1) as nat } else { 0 },
        white,
        i64::MIN as int,
        i64::MAX as int,
        if white { i64::MIN as int } else { i64::MAX as int },
        None,
    )
}

proof fn lemma_ordered_playable(b: BoardView, white: bool)
    ensures
        forall|i: int| 0 <= i < ordered_moves(b, white).len() ==> playable(#[trigger] ordered_moves(b, white)[i]),
        ordered_moves(b, white).len() == legal_moves(b, white).len(),
{
    lemma_generated_playable(b, white);
    lemma_sort_desc_elems(b, legal_moves(b, white), |m: Move| playable(m));
}

impl Evaluator {
    /// The moves of a side in search order.
    fn ordered(&self, board: &Board, is_white: bool) -> (moves: Vec<Move>)
        ensures
            moves@ == ordered_moves(board@, is_white),
    {
        let moves = generate_legal_moves(board, is_white);
        proof { lemma_generated_playable(board@, is_white); }
        self.sort_by_score(&moves, board)
    }

    fn minimax(&self, board: &mut Board, depth: u32, is_white: bool, alpha: i64, beta: i64) -> (r: i64)
        ensures
            r == search(old(board)@, depth as nat, is_white, alpha as int, beta as int).0,
            final(board)@ == search(old(board)@, depth as nat, is_white, alpha as int, beta as int).1,
        decreases depth,
    {
        if depth == 0 {
            return self.static_evaluation(board);
        }
        let ghost b0 = board@;
        let moves = self.ordered(board, is_white);
        proof { lemma_ordered_playable(board@, is_white); }
        if moves.len() == 0 {
            if is_checkmate(board, is_white) {
                return if is_white {
                    i64::MIN + 1000 + depth as i64
                } else {
                    i64::MAX - 1000 - depth as i64
                };
            }
            if is_stalemate(board, is_white) {
                return 0;
            }
        }
        let mut alpha = alpha;
        let mut beta = beta;
        let ghost total = search(b0, depth as nat, is_white, alpha as int, beta as int);
        let mut best: i64 = if is_white { i64::MIN } else { i64::MAX };
        let mut i: usize = 0;
        while i < moves.len()
            invariant_except_break
                total == search_loop(board@, moves@, i as int, depth as nat, is_white, alpha as int, beta as int, best as int),
            invariant
                i <= moves@.len(),
                depth > 0,
                moves@.len() > 0,
                forall|k: int| 0 <= k < moves@.len() ==> playable(#[trigger] moves@[k]),
            ensures
                total == (best as int, board@),
            decreases moves@.len() - i,
        {
            let mv = moves[i];
            proof {
                assert(playable(moves@[i as int]));
                crate::movegen::lemma_playable(board@, mv);
            }
            let undo = board.make_move(&mv);
            let score = self.minimax(board, depth - 1, !is_white, alpha, beta);
            board.unmake_move(&mv, undo);
            if is_white {
                best = if score > best { score } else { best };
                alpha = if best > alpha { best } else { alpha };
            } else {
                best = if score < best { score } else { best };
                beta = if best < beta { best } else { beta };
            }
            if beta <= alpha {
                break;
            }
            i += 1;
        }
        best
    }

    pub fn evaluate_position(&self, board: &mut Board, is_white: bool) -> (r: i64)
        ensures
            r == search(old(board)@, self.max_depth as nat, is_white, i64::MIN as int, i64::MAX as int).0,
            final(board)@ == search(old(board)@, self.max_depth as nat, is_white, i64::MIN as int, i64::MAX as int).1,
    {
        let alpha = i64::MIN;
        let beta = i64::MAX;
        self.minimax(board, self.max_depth, is_white, alpha, beta)
    }

    pub fn best_move(&self, board: &mut Board, is_white: bool) -> (r: Option<Move>)
        ensures
            r == best_move_result(old(board)@, self.max_depth as nat, is_white).0,
            final(board)@ == best_move_result(old(board)@, self.max_depth as nat, is_white).1,
    {
        let ghost total = best_move_result(board@, self.max_depth as nat, is_white);
        let moves = self.ordered(board, is_white);
        proof { lemma_ordered_playable(board@, is_white); }
        let child_depth = self.max_depth.saturating_sub(1);
        let mut best_score: i64 = if is_white { i64::MIN } else { i64::MAX };
        let mut best: Option<Move> = None;
        let mut alpha = i64::MIN;
        let mut beta = i64::MAX;
        let mut i: usize = 0;
        while i < moves.len()
            invariant
                i <= moves@.len(),
                child_depth == (if self.max_depth > 0 { (self.max_depth - 1) as nat } else { 0 }),
                forall|k: int| 0 <= k < moves@.len() ==> playable(#[trigger] moves@[k]),
                total == best_loop(board@, moves@, i as int, child_depth as nat, is_white, alpha as int, beta as int, best_score as int, best),
            decreases moves@.len() - i,
        {
            let mv = moves[i];
            proof {
                assert(playable(moves@[i as int]));
                crate::movegen::lemma_playable(board@, mv);
            }
            let undo = board.make_move(&mv);
            let score = self.minimax(board, child_depth, !is_white, alpha, beta);
            board.unmake_move(&mv, undo);
            let better = if is_white { score > best_score } else { score < best_score };
            if better {
                best_score = score;
                best = Some(mv);
            }
            if is_white {
                alpha = if best_score > alpha { best_score } else { alpha };
            } else {
                beta = if best_score < beta { best_score } else { beta };
            }
            i += 1;
        }
        best
    }
}


/// Every move the search visits is fully legal and made by a piece of the
/// side to move standing on its origin.
pub proof fn lemma_ordered_sound(b: BoardView, white: bool)
    ensures
        forall|i: int| 0 <= i < ordered_moves(b, white).len() ==> sound_for(b, #[trigger] ordered_moves(b, white)[i], white),
        ordered_moves(b, white).len() == legal_moves(b, white).len(),
{
    lemma_generated_moves_sound(b, white);
    lemma_sort_desc_elems(b, legal_moves(b, white), |m: Move| sound_for(b, m, white));
}

/// The search leaves the board as it found it: on a board where no square
/// holds two pieces, every move it makes it takes back.
pub proof fn lemma_search_restores(b: BoardView, depth: nat, white: bool, alpha: int, beta: int)
    requires
        pieces_disjoint(b.bb),
    ensures
        search(b, depth, white, alpha, beta).1 == b,
    decreases depth, 1int, 0int,
{
    if depth > 0 {
        let moves = ordered_moves(b, white);
        if moves.len() > 0 {
            lemma_ordered_sound(b, white);
            lemma_search_loop_restores(b, moves, 0, depth, white, alpha, beta, if white { i64::MIN as int } else { i64::MAX as int });
        }
    }
}

proof fn lemma_search_loop_restores(b: BoardView, moves: Seq<Move>, i: int, depth: nat, white: bool, alpha: int, beta: int, best: int)
    requires
        pieces_disjoint(b.bb),
        forall|k: int| 0 <= k < moves.len() ==> sound_for(b, #[trigger] moves[k], white),
    ensures
        search_loop(b, moves, i, depth, white, alpha, beta, best).1 == b,
    decreases depth, 0int, moves.len() - i,
{
    if 0 <= i < moves.len() && depth > 0 {
        let mv = moves[i];
        assert(sound_for(b, mv, white));
        lemma_execute_disjoint(b, mv);
        lemma_make_unmake(b, mv);
        lemma_search_restores(executed(b, mv), (depth - 1) as nat, !white, alpha, beta);
        let child = search(executed(b, mv), (depth - 1) as nat, !white, alpha, beta);
        assert(unexecuted(child.1, mv, undo_record(b, mv)) == b);
        if white {
            let best2 = max_int(best, child.0);
            let alpha2 = max_int(alpha, best2);
            if !(beta <= alpha2) {
                lemma_search_loop_restores(b, moves, i + 1, depth, white, alpha2, beta, best2);
            }
        } else {
            let best2 = min_int(best, child.0);
            let beta2 = min_int(beta, best2);
            if !(beta2 <= alpha) {
                lemma_search_loop_restores(b, moves, i + 1, depth, white, alpha, beta2, best2);
            }
        }
    }
}


/// Scores of the search lie strictly between the extreme values of `i64`.
pub proof fn lemma_search_bounds(b: BoardView, depth: nat, white: bool, alpha: int, beta: int)
    requires
        depth <= u32::MAX,
    ensures
        i64::MIN < search(b, depth, white, alpha, beta).0 < i64::MAX,
    decreases depth, 1int, 0int,
{
    if depth == 0 {
        lemma_static_eval_bounds(b);
    } else {
        let moves = ordered_moves(b, white);
        if moves.len() > 0 {
            lemma_search_loop_bounds(b, moves, 0, depth, white, alpha, beta, if white { i64::MIN as int } else { i64::MAX as int });
        }
    }
}

proof fn lemma_search_loop_bounds(b: BoardView, moves: Seq<Move>, i: int, depth: nat, white: bool, alpha: int, beta: int, best: int)
    requires
        0 <= i < moves.len(),
        0 < depth <= u32::MAX,
        best == (if white { i64::MIN as int } else { i64::MAX as int }) || i64::MIN < best < i64::MAX,
    ensures
        i64::MIN < search_loop(b, moves, i, depth, white, alpha, beta, best).0 < i64::MAX,
    decreases depth, 0int, moves.len() - i,
{
    let mv = moves[i];
    lemma_search_bounds(executed(b, mv), (depth - 1) as nat, !white, alpha, beta);
    let child = search(executed(b, mv), (depth - 1) as nat, !white, alpha, beta);
    let b2 = unexecuted(child.1, mv, undo_record(b, mv));
    if white {
        let best2 = max_int(best, child.0);
        let alpha2 = max_int(alpha, best2);
        if !(beta <= alpha2) {
            if i + 1 < moves.len() {
                lemma_search_loop_bounds(b2, moves, i + 1, depth, white, alpha2, beta, best2);
            } else {
                assert(search_loop(b2, moves, i + 1, depth, white, alpha2, beta, best2).0 == best2);
            }
        }
    } else {
        let best2 = min_int(best, child.0);
        let beta2 = min_int(beta, best2);
        if !(beta2 <= alpha) {
            if i + 1 < moves.len() {
                lemma_search_loop_bounds(b2, moves, i + 1, depth, white, alpha, beta2, best2);
            } else {
                assert(search_loop(b2, moves, i + 1, depth, white, alpha, beta2, best2).0 == best2);
            }
        }
    }
}

proof fn lemma_best_loop(
    b: BoardView,
    moves: Seq<Move>,
    i: int,
    child_depth: nat,
    white: bool,
    alpha: int,
    beta: int,
    best_score: int,
    best: Option<Move>,
)
    requires
        0 <= i <= moves.len(),
        child_depth <= u32::MAX,
        best is None ==> best_score == (if white { i64::MIN as int } else { i64::MAX as int }),
        best matches Some(m) ==> moves.contains(m),
    ensures
        best_loop(b, moves, i, child_depth, white, alpha, beta, best_score, best).0 is Some <==> (best is Some || i < moves.len()),
        best_loop(b, moves, i, child_depth, white, alpha, beta, best_score, best).0 matches Some(m) ==> moves.contains(m),
    decreases moves.len() - i,
{
    if i < moves.len() {
        let mv = moves[i];
        lemma_search_bounds(executed(b, mv), child_depth, !white, alpha, beta);
        let child = search(executed(b, mv), child_depth, !white, alpha, beta);
        let b2 = unexecuted(child.1, mv, undo_record(b, mv));
        let better = if white { child.0 > best_score } else { child.0 < best_score };
        let bs2 = if better { child.0 } else { best_score };
        let best2 = if better { Some(mv) } else { best };
        let alpha2 = if white { max_int(alpha, bs2) } else { alpha };
        let beta2 = if white { beta } else { min_int(beta, bs2) };
        assert(moves[i] == mv);
        lemma_best_loop(b2, moves, i + 1, child_depth, white, alpha2, beta2, bs2, best2);
    }
}

proof fn lemma_best_loop_restores(
    b: BoardView,
    moves: Seq<Move>,
    i: int,
    child_depth: nat,
    white: bool,
    alpha: int,
    beta: int,
    best_score: int,
    best: Option<Move>,
)
    requires
        pieces_disjoint(b.bb),
        forall|k: int| 0 <= k < moves.len() ==> sound_for(b, #[trigger] moves[k], white),
    ensures
        best_loop(b, moves, i, child_depth, white, alpha, beta, best_score, best).1 == b,
    decreases moves.len() - i,
{
    if 0 <= i < moves.len() {
        let mv = moves[i];
        assert(sound_for(b, mv, white));
        lemma_execute_disjoint(b, mv);
        lemma_make_unmake(b, mv);
        lemma_search_restores(executed(b, mv), child_depth, !white, alpha, beta);
        let child = search(executed(b, mv), child_depth, !white, alpha, beta);
        let better = if white { child.0 > best_score } else { child.0 < best_score };
        let bs2 = if better { child.0 } else { best_score };
        let best2 = if better { Some(mv) } else { best };
        let alpha2 = if white { max_int(alpha, bs2) } else { alpha };
        let beta2 = if white { beta } else { min_int(beta, bs2) };
        lemma_best_loop_restores(b, moves, i + 1, child_depth, white, alpha2, beta2, bs2, best2);
    }
}

/// The engine answers with a move exactly when the side to move has a legal
/// move, and the move it answers is one of them; on a board where no square
/// holds two pieces it leaves the board as it found it.
pub proof fn lemma_best_move(b: BoardView, max_depth: nat, white: bool)
    requires
        max_depth <= u32::MAX,
    ensures
        best_move_result(b, max_depth, white).0 is Some <==> legal_moves(b, white).len() > 0,
        best_move_result(b, max_depth, white).0 matches Some(m) ==> legal_moves(b, white).contains(m)
            && fully_legal(b, m) && m.piece.piece_type.white() == white,
        pieces_disjoint(b.bb) ==> best_move_result(b, max_depth, white).1 == b,
{
    let moves = ordered_moves(b, white);
    let cd: nat = if max_depth > 0 { (max_depth - 1) as nat } else { 0 };
    let init = if white { i64::MIN as int } else { i64::MAX as int };
    lemma_ordered_sound(b, white);
    lemma_best_loop(b, moves, 0, cd, white, i64::MIN as int, i64::MAX as int, init, None);
    let lm = legal_moves(b, white);
    assert forall|k: int| 0 <= k < lm.len() implies (|m: Move| lm.contains(m))(#[trigger] lm[k]) by {
        assert(lm.contains(lm[k]));
    }
    lemma_sort_desc_elems(b, lm, |m: Move| lm.contains(m));
    if let Some(m) = best_move_result(b, max_depth, white).0 {
        let k = choose|k: int| 0 <= k < moves.len() && moves[k] == m;
        assert(lm.contains(moves[k]));
        assert(sound_for(b, moves[k], white));
    }
    if pieces_disjoint(b.bb) {
        lemma_best_loop_restores(b, moves, 0, cd, white, i64::MIN as int, i64::MAX as int, init, None);
    }
}


/// Mirroring a square twice gives it back.
pub proof fn lemma_mirror_involution(s: int)
    requires
        0 <= s < 64,
    ensures
        0 <= mirror_spec(s) < 64,
        mirror_spec(mirror_spec(s)) == s,
{
}

/// Sum of `f` over the squares `0..k`.
pub open spec fn square_sum(f: spec_fn(int) -> int, k: int) -> int
    decreases k,
{
    if k <= 0 { 0 } else { square_sum(f, k - 1) + f(k - 1) }
}

proof fn lemma_square_sum_congruent(f: spec_fn(int) -> int, g: spec_fn(int) -> int, k: int)
    requires
        forall|s: int| 0 <= s < k ==> #[trigger] f(s) == g(s),
    ensures
        square_sum(f, k) == square_sum(g, k),
    decreases k,
{
    if k > 0 {
        lemma_square_sum_congruent(f, g, k - 1);
    }
}

/// Summing over the board in mirrored order gives the same total.
proof fn lemma_square_sum_mirror(f: spec_fn(int) -> int)
    ensures
        square_sum(f, 64) == square_sum(|s: int| f(mirror_spec(s)), 64),
{
    reveal_with_fuel(square_sum, 65);
    let g = |s: int| f(mirror_spec(s));
    assert(square_sum(g, 64) == square_sum(f, 64));
}

proof fn lemma_bits_upto_sum(x: u64, k: int)
    ensures
        bits_upto(x, k) == square_sum(|s: int| if has_bit(x, s) { 1int } else { 0int }, k),
    decreases k,
{
    if k > 0 {
        lemma_bits_upto_sum(x, k - 1);
    }
}

proof fn lemma_table_sum_sum(table: Seq<i64>, bits: u64, white: bool, k: int)
    ensures
        table_sum(table, bits, white, k) == square_sum(
            |s: int| if has_bit(bits, s) { table[if white { s } else { mirror_spec(s) }] as int } else { 0int },
            k,
        ),
    decreases k,
{
    if k > 0 {
        lemma_table_sum_sum(table, bits, white, k - 1);
    }
}

/// `y` holds the squares of `x` seen from the other side.
pub open spec fn flipped(y: u64, x: u64) -> bool {
    forall|s: int| 0 <= s < 64 ==> #[trigger] has_bit(y, s) == has_bit(x, mirror_spec(s))
}

proof fn lemma_flipped_counts(y: u64, x: u64, table: Seq<i64>, white: bool)
    requires
        flipped(y, x),
    ensures
        pop_count(y) == pop_count(x),
        table_sum(table, y, white, 64) == table_sum(table, x, !white, 64),
{
    let cy = |s: int| if has_bit(y, s) { 1int } else { 0int };
    let cx = |s: int| if has_bit(x, s) { 1int } else { 0int };
    lemma_bits_upto_sum(y, 64);
    lemma_bits_upto_sum(x, 64);
    lemma_square_sum_mirror(cx);
    assert forall|s: int| 0 <= s < 64 implies #[trigger] cy(s) == (|t: int| cx(mirror_spec(t)))(s) by {
        assert(has_bit(y, s) == has_bit(x, mirror_spec(s)));
    }
    lemma_square_sum_congruent(cy, |t: int| cx(mirror_spec(t)), 64);

    let ty = |s: int| if has_bit(y, s) { table[if white { s } else { mirror_spec(s) }] as int } else { 0int };
    let tx = |s: int| if has_bit(x, s) { table[if !white { s } else { mirror_spec(s) }] as int } else { 0int };
    lemma_table_sum_sum(table, y, white, 64);
    lemma_table_sum_sum(table, x, !white, 64);
    lemma_square_sum_mirror(tx);
    assert forall|s: int| 0 <= s < 64 implies #[trigger] ty(s) == (|t: int| tx(mirror_spec(t)))(s) by {
        assert(has_bit(y, s) == has_bit(x, mirror_spec(s)));
        lemma_mirror_involution(s);
    }
    lemma_square_sum_congruent(ty, |t: int| tx(mirror_spec(t)), 64);
}

/// The board with colours swapped and ranks mirrored: each kind of `b2` stands
/// where the same kind of the other colour stands in `b`, seen from the other side.
pub open spec fn colour_swapped(b2: BoardView, b: BoardView) -> bool {
    &&& b.bb.len() == 12
    &&& b2.bb.len() == 12
    &&& forall|i: int| 0 <= i < 12 ==> flipped(#[trigger] b2.bb[i], b.bb[(i + 6) % 12])
}

proof fn lemma_swapped_sums(b2: BoardView, b: BoardView, white: bool, n: int)
    requires
        colour_swapped(b2, b),
        0 <= n <= 6,
    ensures
        material_upto(b2.bb, white, n) == material_upto(b.bb, !white, n),
        positional_upto(b2.bb, white, n) == positional_upto(b.bb, !white, n),
    decreases n,
{
    if n > 0 {
        lemma_swapped_sums(b2, b, white, n - 1);
        let p = kind_of(white, n - 1);
        let q = kind_of(!white, n - 1);
        assert(p.id() == if white { n - 1 } else { n + 5 });
        assert(q.id() == if white { n + 5 } else { n - 1 });
        assert((p.id() + 6) % 12 == q.id());
        assert(value_spec(p) == value_spec(q));
        assert(table_spec(p) == table_spec(q));
        assert(flipped(b2.bb[p.id()], b.bb[q.id()]));
        lemma_flipped_counts(b2.bb[p.id()], b.bb[q.id()], table_spec(p), white);
    }
}

/// Swapping the colours and mirroring the ranks negates the static evaluation.
pub proof fn lemma_static_eval_colour_swap(b2: BoardView, b: BoardView)
    requires
        colour_swapped(b2, b),
    ensures
        static_eval(b2) == -static_eval(b),
{
    lemma_swapped_sums(b2, b, true, 6);
    lemma_swapped_sums(b2, b, false, 6);
}


// ---------------------------------------------------------------------------
// The value the search computes: plain minimax.
// ---------------------------------------------------------------------------

/// Minimax value to `depth` plies: white takes the best child for white,
/// black the best for black; a side without moves is mated or stalemated.
pub open spec fn minimax_value(b: BoardView, depth: nat, white: bool) -> int
    decreases depth, 1int, 0int,
{
    if depth == 0 {
        static_eval(b)
    } else {
        let moves = ordered_moves(b, white);
        if moves.len() == 0 {
            if in_check(b, white) { mate_score(white, depth) } else { 0 }
        } else {
            prefix_best(b, moves, moves.len() as int, depth, white)
        }
    }
}

/// Best child value among the moves `0..i`: the largest for white, the
/// smallest for black, starting from the extreme value of `i64`.
pub open spec fn prefix_best(b: BoardView, moves: Seq<Move>, i: int, depth: nat, white: bool) -> int
    decreases depth, 0int, i,
{
    if i <= 0 || depth == 0 || i > moves.len() {
        if white { i64::MIN as int } else { i64::MAX as int }
    } else {
        let prev = prefix_best(b, moves, i - 1, depth, white);
        let c = minimax_value(executed(b, moves[i - 1]), (depth - 1) as nat, !white);
        if white { max_int(prev, c) } else { min_int(prev, c) }
    }
}

proof fn lemma_prefix_best_mono(b: BoardView, moves: Seq<Move>, i: int, j: int, depth: nat, white: bool)
    requires
        0 <= i <= j <= moves.len(),
        depth > 0,
    ensures
        white ==> prefix_best(b, moves, i, depth, white) <= prefix_best(b, moves, j, depth, white),
        !white ==> prefix_best(b, moves, i, depth, white) >= prefix_best(b, moves, j, depth, white),
    decreases j - i,
{
    if i < j {
        lemma_prefix_best_mono(b, moves, i, j - 1, depth, white);
    }
}

/// The search's verdict against the window: exact inside it, an upper bound
/// below it, a lower bound above it; and, failing soft, a score at or below
/// `alpha` bounds the value from above, one at or above `beta` from below.
pub open spec fn window_ok(r: int, v: int, alpha: int, beta: int) -> bool {
    &&& (alpha < v < beta ==> r == v)
    &&& (v <= alpha ==> r <= alpha)
    &&& (v >= beta ==> r >= beta)
    &&& (r <= alpha ==> v <= r)
    &&& (r >= beta ==> v >= r)
}

/// Alpha-beta is exact inside its window: on a board where no square holds
/// two pieces, the search's score equals the minimax value when that value
/// lies strictly inside `(alpha, beta)`; otherwise it is on the same side of
/// the window as the value, and bounds the value from that side.
pub proof fn lemma_alphabeta(b: BoardView, depth: nat, white: bool, alpha: int, beta: int)
    requires
        pieces_disjoint(b.bb),
        depth <= u32::MAX,
        i64::MIN <= alpha < beta <= i64::MAX,
    ensures
        window_ok(search(b, depth, white, alpha, beta).0, minimax_value(b, depth, white), alpha, beta),
    decreases depth, 1int, 0int,
{
    if depth > 0 {
        let moves = ordered_moves(b, white);
        if moves.len() > 0 {
            lemma_ordered_sound(b, white);
            let init = if white { i64::MIN as int } else { i64::MAX as int };
            lemma_alphabeta_loop(b, moves, 0, depth, white, alpha, beta, alpha, beta, init);
        }
    }
}

proof fn lemma_alphabeta_loop(
    b: BoardView,
    moves: Seq<Move>,
    i: int,
    depth: nat,
    white: bool,
    alpha0: int,
    beta0: int,
    alpha: int,
    beta: int,
    best: int,
)
    requires
        pieces_disjoint(b.bb),
        forall|k: int| 0 <= k < moves.len() ==> sound_for(b, #[trigger] moves[k], white),
        0 <= i <= moves.len(),
        0 < depth <= u32::MAX,
        i64::MIN <= alpha0 < beta0 <= i64::MAX,
        white ==> alpha == max_int(alpha0, best) && beta == beta0,
        !white ==> beta == min_int(beta0, best) && alpha == alpha0,
        white ==> (prefix_best(b, moves, i, depth, white) > alpha0 ==> best == prefix_best(b, moves, i, depth, white)),
        white ==> (prefix_best(b, moves, i, depth, white) <= alpha0 ==> best <= alpha0),
        white ==> prefix_best(b, moves, i, depth, white) < beta0,
        !white ==> (prefix_best(b, moves, i, depth, white) < beta0 ==> best == prefix_best(b, moves, i, depth, white)),
        !white ==> (prefix_best(b, moves, i, depth, white) >= beta0 ==> best >= beta0),
        !white ==> prefix_best(b, moves, i, depth, white) > alpha0,
        white ==> prefix_best(b, moves, i, depth, white) <= best,
        !white ==> prefix_best(b, moves, i, depth, white) >= best,
    ensures
        window_ok(
            search_loop(b, moves, i, depth, white, alpha, beta, best).0,
            prefix_best(b, moves, moves.len() as int, depth, white),
            alpha0,
            beta0,
        ),
    decreases depth, 0int, moves.len() - i,
{
    let m = prefix_best(b, moves, i, depth, white);
    if i == moves.len() {
    } else {
        let mv = moves[i];
        assert(sound_for(b, mv, white));
        lemma_execute_disjoint(b, mv);
        lemma_make_unmake(b, mv);
        let child_b = executed(b, mv);
        lemma_search_restores(child_b, (depth - 1) as nat, !white, alpha, beta);
        lemma_alphabeta(child_b, (depth - 1) as nat, !white, alpha, beta);
        let child = search(child_b, (depth - 1) as nat, !white, alpha, beta);
        let c = minimax_value(child_b, (depth - 1) as nat, !white);
        assert(unexecuted(child.1, mv, undo_record(b, mv)) == b);
        assert(prefix_best(b, moves, i + 1, depth, white) == if white { max_int(m, c) } else { min_int(m, c) });
        lemma_prefix_best_mono(b, moves, i + 1, moves.len() as int, depth, white);
        if white {
            let best2 = max_int(best, child.0);
            let alpha2 = max_int(alpha, best2);
            if !(beta <= alpha2) {
                lemma_alphabeta_loop(b, moves, i + 1, depth, white, alpha0, beta0, alpha2, beta, best2);
            }
        } else {
            let best2 = min_int(best, child.0);
            let beta2 = min_int(beta, best2);
            if !(beta2 <= alpha) {
                lemma_alphabeta_loop(b, moves, i + 1, depth, white, alpha0, beta0, alpha, beta2, best2);
            }
        }
    }
}


proof fn lemma_best_loop_optimal(
    b: BoardView,
    moves: Seq<Move>,
    i: int,
    cd: nat,
    white: bool,
    alpha: int,
    beta: int,
    best_score: int,
    best: Option<Move>,
)
    requires
        pieces_disjoint(b.bb),
        forall|k: int| 0 <= k < moves.len() ==> sound_for(b, #[trigger] moves[k], white),
        0 <= i <= moves.len(),
        cd < u32::MAX,
        white ==> alpha == best_score && beta == i64::MAX,
        !white ==> beta == best_score && alpha == i64::MIN,
        best_score == prefix_best(b, moves, i, cd + 1, white),
        best matches Some(m) ==> minimax_value(executed(b, m), cd, !white) == best_score,
    ensures
        best_loop(b, moves, i, cd, white, alpha, beta, best_score, best).0 matches Some(m)
            ==> minimax_value(executed(b, m), cd, !white) == prefix_best(b, moves, moves.len() as int, cd + 1, white),
    decreases moves.len() - i,
{
    if i < moves.len() {
        let mv = moves[i];
        assert(sound_for(b, mv, white));
        lemma_execute_disjoint(b, mv);
        lemma_make_unmake(b, mv);
        let child_b = executed(b, mv);
        lemma_minimax_bounds(child_b, cd, !white);
        if i >= 1 {
            lemma_prefix_best_bounds(b, moves, i, cd + 1, white);
        }
        lemma_search_restores(child_b, cd, !white, alpha, beta);
        lemma_alphabeta(child_b, cd, !white, alpha, beta);
        let child = search(child_b, cd, !white, alpha, beta);
        assert(unexecuted(child.1, mv, undo_record(b, mv)) == b);
        let c = minimax_value(child_b, cd, !white);
        assert(prefix_best(b, moves, i + 1, cd + 1, white) == if white { max_int(best_score, c) } else { min_int(best_score, c) });
        let better = if white { child.0 > best_score } else { child.0 < best_score };
        let bs2 = if better { child.0 } else { best_score };
        let best2 = if better { Some(mv) } else { best };
        let alpha2 = if white { max_int(alpha, bs2) } else { alpha };
        let beta2 = if white { beta } else { min_int(beta, bs2) };
        lemma_best_loop_optimal(b, moves, i + 1, cd, white, alpha2, beta2, bs2, best2);
    }
}

/// The engine picks a best move: on a board where no square holds two pieces,
/// the minimax value after the move it returns is the minimax value of the
/// position one ply deeper, that is the best any legal move gives.
pub proof fn lemma_best_move_optimal(b: BoardView, max_depth: nat, white: bool)
    requires
        pieces_disjoint(b.bb),
        max_depth <= u32::MAX,
    ensures
        ({
            let cd: nat = if max_depth > 0 { (max_depth - 1) as nat } else { 0 };
            best_move_result(b, max_depth, white).0 matches Some(m)
                ==> minimax_value(executed(b, m), cd, !white) == minimax_value(b, cd + 1, white)
                && forall|k: int| 0 <= k < legal_moves(b, white).len() ==> (if white {
                    minimax_value(executed(b, #[trigger] legal_moves(b, white)[k]), cd, !white) <= minimax_value(executed(b, m), cd, !white)
                } else {
                    minimax_value(executed(b, legal_moves(b, white)[k]), cd, !white) >= minimax_value(executed(b, m), cd, !white)
                })
        }),
{
    let moves = ordered_moves(b, white);
    let cd: nat = if max_depth > 0 { (max_depth - 1) as nat } else { 0 };
    let init = if white { i64::MIN as int } else { i64::MAX as int };
    lemma_ordered_sound(b, white);
    lemma_best_loop_optimal(b, moves, 0, cd, white, i64::MIN as int, i64::MAX as int, init, None);
    let lm = legal_moves(b, white);
    if let Some(m) = best_move_result(b, max_depth, white).0 {
        lemma_best_loop(b, moves, 0, cd, white, i64::MIN as int, i64::MAX as int, init, None);
        assert(moves.len() > 0);
        assert forall|k: int| 0 <= k < lm.len() implies (if white {
            minimax_value(executed(b, #[trigger] lm[k]), cd, !white) <= minimax_value(executed(b, m), cd, !white)
        } else {
            minimax_value(executed(b, lm[k]), cd, !white) >= minimax_value(executed(b, m), cd, !white)
        }) by {
            broadcast use vstd::seq_lib::group_to_multiset_ensures;
            lemma_sort_desc(b, lm);
            assert(lm.contains(lm[k]));
            assert(lm.to_multiset().count(lm[k]) > 0);
            assert(moves.contains(lm[k]));
            let j = choose|j: int| 0 <= j < moves.len() && moves[j] == lm[k];
            lemma_prefix_best_mono(b, moves, j + 1, moves.len() as int, cd + 1, white);
        }
    }
}

/// A checkmated side has lost: with no legal move and its king in check, the
/// side to move scores below every static evaluation if it is white and above
/// every static evaluation if it is black, both for the minimax value and for
/// what the search returns with any window, at any depth of one ply or more.
pub proof fn lemma_mated_side_loses(b: BoardView, depth: nat, white: bool, alpha: int, beta: int, other: BoardView)
    requires
        1 <= depth <= u32::MAX,
        in_check(b, white),
        legal_moves(b, white).len() == 0,
    ensures
        white ==> minimax_value(b, depth, white) < -1_000_000_000,
        !white ==> minimax_value(b, depth, white) > 1_000_000_000,
        search(b, depth, white, alpha, beta).0 == minimax_value(b, depth, white),
        white ==> minimax_value(b, depth, white) < static_eval(other),
        !white ==> minimax_value(b, depth, white) > static_eval(other),
{
    lemma_ordered_sound(b, white);
    lemma_static_eval_bounds(other);
}

/// Minimax values lie strictly between the extreme values of `i64`.
pub proof fn lemma_minimax_bounds(b: BoardView, depth: nat, white: bool)
    requires
        depth <= u32::MAX,
    ensures
        i64::MIN < minimax_value(b, depth, white) < i64::MAX,
    decreases depth, 1int, 0int,
{
    if depth == 0 {
        lemma_static_eval_bounds(b);
    } else {
        let moves = ordered_moves(b, white);
        if moves.len() > 0 {
            lemma_prefix_best_bounds(b, moves, moves.len() as int, depth, white);
        }
    }
}

proof fn lemma_prefix_best_bounds(b: BoardView, moves: Seq<Move>, i: int, depth: nat, white: bool)
    requires
        1 <= i <= moves.len(),
        0 < depth <= u32::MAX,
    ensures
        i64::MIN < prefix_best(b, moves, i, depth, white) < i64::MAX,
    decreases depth, 0int, i,
{
    lemma_minimax_bounds(executed(b, moves[i - 1]), (depth - 1) as nat, !white);
    if i > 1 {
        lemma_prefix_best_bounds(b, moves, i - 1, depth, white);
    } else {
        assert(prefix_best(b, moves, 0, depth, white) == if white { i64::MIN as int } else { i64::MAX as int });
    }
}

/// `evaluate_position` computes the minimax value: with the full window, on
/// a board where no square holds two pieces, the alpha-beta score is exactly
/// the minimax value, and the board is left as it was.
pub proof fn lemma_evaluate_is_minimax(b: BoardView, depth: nat, white: bool)
    requires
        pieces_disjoint(b.bb),
        depth <= u32::MAX,
    ensures
        search(b, depth, white, i64::MIN as int, i64::MAX as int).0 == minimax_value(b, depth, white),
        search(b, depth, white, i64::MIN as int, i64::MAX as int).1 == b,
{
    lemma_minimax_bounds(b, depth, white);
    lemma_alphabeta(b, depth, white, i64::MIN as int, i64::MAX as int);
    lemma_search_restores(b, depth, white, i64::MIN as int, i64::MAX as int);
}


/// Moves in order of non-increasing score.
pub open spec fn desc_sorted(b: BoardView, s: Seq<Move>) -> bool {
    forall|i: int, j: int| 0 <= i < j < s.len() ==> move_score_spec(b, #[trigger] s[i]) >= move_score_spec(b, #[trigger] s[j])
}

proof fn lemma_insert_desc_sorted(b: BoardView, sorted: Seq<Move>, m: Move)
    requires
        desc_sorted(b, sorted),
    ensures
        desc_sorted(b, insert_desc(b, sorted, m)),
        insert_desc(b, sorted, m).to_multiset() == sorted.to_multiset().insert(m),
    decreases sorted.len(),
{
    broadcast use vstd::seq_lib::group_to_multiset_ensures;
    if sorted.len() == 0 {
        assert(seq![m] =~= Seq::<Move>::empty().push(m));
    } else {
        let last = sorted.last();
        let d = sorted.drop_last();
        assert(sorted =~= d.push(last));
        if move_score_spec(b, last) >= move_score_spec(b, m) {
            let r = sorted.push(m);
            assert forall|i: int, j: int| 0 <= i < j < r.len() implies move_score_spec(b, #[trigger] r[i]) >= move_score_spec(b, #[trigger] r[j]) by {
                if j == r.len() - 1 {
                    assert(r[i] == sorted[i]);
                    if i < sorted.len() - 1 {
                        assert(move_score_spec(b, sorted[i]) >= move_score_spec(b, sorted[sorted.len() - 1]));
                    }
                } else {
                    assert(r[i] == sorted[i] && r[j] == sorted[j]);
                }
            }
        } else {
            assert forall|i: int, j: int| 0 <= i < j < d.len() implies move_score_spec(b, #[trigger] d[i]) >= move_score_spec(b, #[trigger] d[j]) by {
                assert(d[i] == sorted[i] && d[j] == sorted[j]);
            }
            lemma_insert_desc_sorted(b, d, m);
            let inner = insert_desc(b, d, m);
            let pred = |x: Move| move_score_spec(b, x) >= move_score_spec(b, last);
            assert forall|k: int| 0 <= k < d.len() implies pred(#[trigger] d[k]) by {
                assert(d[k] == sorted[k]);
                assert(move_score_spec(b, sorted[k]) >= move_score_spec(b, sorted[sorted.len() - 1]));
            }
            lemma_insert_desc_elems(b, d, m, pred);
            let r = inner.push(last);
            assert forall|i: int, j: int| 0 <= i < j < r.len() implies move_score_spec(b, #[trigger] r[i]) >= move_score_spec(b, #[trigger] r[j]) by {
                if j == r.len() - 1 {
                    assert(r[i] == inner[i]);
                    assert(pred(inner[i]));
                } else {
                    assert(r[i] == inner[i] && r[j] == inner[j]);
                }
            }
            assert(r.to_multiset() == inner.to_multiset().insert(last));
            assert(inner.to_multiset() == d.to_multiset().insert(m));
            assert(sorted.to_multiset() == d.to_multiset().insert(last));
            assert(r.to_multiset() =~= sorted.to_multiset().insert(m));
        }
    }
}

/// The search order is a rearrangement of the moves by non-increasing score
/// (and, by construction, keeps the order of moves with equal scores).
pub proof fn lemma_sort_desc(b: BoardView, s: Seq<Move>)
    ensures
        desc_sorted(b, sort_desc(b, s)),
        sort_desc(b, s).to_multiset() == s.to_multiset(),
    decreases s.len(),
{
    broadcast use vstd::seq_lib::group_to_multiset_ensures;
    if s.len() > 0 {
        lemma_sort_desc(b, s.drop_last());
        lemma_insert_desc_sorted(b, sort_desc(b, s.drop_last()), s.last());
        assert(s =~= s.drop_last().push(s.last()));
    } else {
        assert(sort_desc(b, s).to_multiset() =~= s.to_multiset());
    }
}

} // verus!

use lib::board::{Board, CastlingRights, Piece};
use lib::evaluate::Evaluator;
use lib::movegen::generate_legal_moves;
use lib::moves::{ActivePiece, Move};

fn empty_board() -> Board {
    Board {
        bitboards: [0; 12],
        en_passant_target: None,
        castling_rights: CastlingRights {
            white_kingside: false,
            white_queenside: false,
            black_kingside: false,
            black_queenside: false,
        },
    }
}

fn put(board: &mut Board, piece: Piece, rank: usize, file: usize) {
    board.bitboards[piece.as_index()] |= 1u64 << (rank * 8 + file);
}

fn mv(piece: Piece, from: (usize, usize), to: (usize, usize)) -> Move {
    Move::new(ActivePiece { piece_type: piece, from_rank: from.0, from_file: from.1 }, to)
}

#[test]
fn evaluator_keeps_depth() {
    assert_eq!(Evaluator::new(4).max_depth, 4);
}

#[test]
fn material_of_the_starting_position() {
    let e = Evaluator::new(1);
    let b = Board::new();
    // 8 pawns, 2 knights, 2 bishops, 2 rooks, a queen and the king
    assert_eq!(e.material_count(&b, true), 8 + 6 + 6 + 10 + 9 + 20000);
    assert_eq!(e.material_count(&b, false), 20039);
}

#[test]
fn starting_position_is_balanced() {
    let e = Evaluator::new(1);
    let b = Board::new();
    let w = e.positional_score(&b, true);
    assert_eq!(w, e.positional_score(&b, false));
    // pawns 5+10+10-15-15+10+10+5, knights -40-40, bishops -10-10, rooks 0, queen -5, king 0
    assert_eq!(w, 20 - 80 - 20 - 5);
    assert_eq!(e.static_evaluation(&b), 0);
}

#[test]
fn positional_score_mirrors_black() {
    let e = Evaluator::new(1);
    let mut b = empty_board();
    put(&mut b, Piece::WhitePawn, 6, 0); // a7 for white: 50
    put(&mut b, Piece::BlackPawn, 1, 0); // a2 for black, mirrored to a7: 50
    assert_eq!(e.positional_score(&b, true), 50);
    assert_eq!(e.positional_score(&b, false), 50);
    assert_eq!(e.static_evaluation(&b), 0);
}

#[test]
fn material_counts_every_piece() {
    let e = Evaluator::new(1);
    let mut b = empty_board();
    put(&mut b, Piece::WhiteQueen, 0, 0);
    put(&mut b, Piece::WhiteQueen, 7, 7);
    put(&mut b, Piece::WhiteQueen, 3, 4);
    assert_eq!(e.material_count(&b, true), 27);
    assert_eq!(e.material_count(&b, false), 0);
    // (27 - 0) * 100 + queen table a1 (-20) + h8 (-20) + e4 (5)
    assert_eq!(e.static_evaluation(&b), 2700 - 20 - 20 + 5);
}

#[test]
fn depth_one_search_of_the_opening() {
    let e = Evaluator::new(1);
    let mut b = Board::new();
    let before = b.bitboards;
    let v = e.evaluate_position(&mut b, true);
    assert_eq!(b.bitboards, before);
    // the best reply-free white move by static evaluation
    let mut best = i64::MIN;
    for m in generate_legal_moves(&Board::new(), true) {
        let mut c = Board::new();
        m.execute_move(&mut c);
        best = best.max(e.static_evaluation(&c));
    }
    assert_eq!(v, best);
}

#[test]
fn engine_takes_a_hanging_queen() {
    let e = Evaluator::new(2);
    let mut b = empty_board();
    put(&mut b, Piece::WhiteKing, 0, 0);
    put(&mut b, Piece::WhiteRook, 3, 0);
    put(&mut b, Piece::BlackQueen, 3, 7);
    put(&mut b, Piece::BlackKing, 7, 6);
    let before = b.bitboards;
    let m = e.best_move(&mut b, true);
    assert_eq!(b.bitboards, before);
    assert_eq!(m, Some(mv(Piece::WhiteRook, (3, 0), (3, 7))));
}

#[test]
fn engine_finds_mate_in_one() {
    let e = Evaluator::new(2);
    let mut b = empty_board();
    put(&mut b, Piece::WhiteKing, 5, 6);
    put(&mut b, Piece::WhiteRook, 0, 0);
    put(&mut b, Piece::BlackKing, 7, 7);
    let m = e.best_move(&mut b, true).unwrap();
    assert_eq!(m, mv(Piece::WhiteRook, (0, 0), (7, 0)));
    let mut after = b;
    m.execute_move(&mut after);
    assert!(lib::movegen::is_checkmate(&after, false));
    // a mated side gets the mate score at the node
    assert_eq!(Evaluator::new(1).evaluate_position(&mut after, false), i64::MAX - 1000 - 1);
}

#[test]
fn no_move_when_mated() {
    let e = Evaluator::new(2);
    let mut b = empty_board();
    put(&mut b, Piece::WhiteKing, 5, 6);
    put(&mut b, Piece::WhiteRook, 7, 0);
    put(&mut b, Piece::BlackKing, 7, 7);
    assert_eq!(e.best_move(&mut b, false), None);
    assert_eq!(Evaluator::new(3).evaluate_position(&mut b, false), i64::MAX - 1000 - 3);
}

#[test]
fn stalemate_scores_zero() {
    let mut b = empty_board();
    put(&mut b, Piece::BlackKing, 7, 7);
    put(&mut b, Piece::WhiteQueen, 5, 6);
    put(&mut b, Piece::WhiteKing, 0, 0);
    assert_eq!(Evaluator::new(2).evaluate_position(&mut b, false), 0);
}

#[test]
fn swapping_colours_negates_the_evaluation() {
    let e = Evaluator::new(1);
    assert_eq!(e.static_evaluation(&Board::new()), 0);
    let mut b = empty_board();
    put(&mut b, Piece::WhiteKing, 0, 6);
    put(&mut b, Piece::WhiteKnight, 2, 5);
    put(&mut b, Piece::WhitePawn, 4, 4);
    put(&mut b, Piece::WhitePawn, 1, 0);
    put(&mut b, Piece::BlackKing, 7, 4);
    put(&mut b, Piece::BlackBishop, 5, 2);
    let v = e.static_evaluation(&b);
    assert_ne!(v, 0);
    let mut b2 = empty_board();
    for i in 0..12 {
        b2.bitboards[i] = b.bitboards[(i + 6) % 12].swap_bytes();
    }
    assert_eq!(e.static_evaluation(&b2), -v);
}

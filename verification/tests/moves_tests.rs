use lib::board::{Board, CastlingRights, Piece};
use lib::moves::{ActivePiece, Move};

fn empty_board() -> Board {
    Board {
        bitboards: [0; 12],
        en_passant_target: None,
        castling_rights: CastlingRights {
            white_kingside: false,
            white_queenside: false,
            black_kingside: false,
            black_queenside: false,
        },
    }
}

fn put(board: &mut Board, piece: Piece, rank: usize, file: usize) {
    board.bitboards[piece.as_index()] |= 1u64 << (rank * 8 + file);
}

fn mv(piece: Piece, from: (usize, usize), to: (usize, usize)) -> Move {
    Move::new(ActivePiece { piece_type: piece, from_rank: from.0, from_file: from.1 }, to)
}

#[test]
fn constructors() {
    let ap = ActivePiece { piece_type: Piece::WhitePawn, from_rank: 6, from_file: 0 };
    let m = Move::new(ap, (7, 0));
    assert_eq!(m.promotion, None);
    assert_eq!(m.to, (7, 0));
    let p = Move::new_promotion(ap, (7, 0), Piece::WhiteKnight);
    assert_eq!(p.promotion, Some(Piece::WhiteKnight));
}

#[test]
fn opening_pawn_and_knight_moves() {
    let b = Board::new();
    assert!(mv(Piece::WhitePawn, (1, 4), (2, 4)).check_legality(&b));
    assert!(mv(Piece::WhitePawn, (1, 4), (3, 4)).check_legality(&b));
    assert!(!mv(Piece::WhitePawn, (1, 4), (4, 4)).check_legality(&b));
    assert!(!mv(Piece::WhitePawn, (1, 4), (2, 5)).check_legality(&b));
    assert!(mv(Piece::BlackPawn, (6, 3), (4, 3)).check_legality(&b));
    assert!(mv(Piece::WhiteKnight, (0, 6), (2, 5)).check_legality(&b));
    assert!(!mv(Piece::WhiteKnight, (0, 6), (1, 4)).check_legality(&b));
    // blocked sliders and off-board destinations
    assert!(!mv(Piece::WhiteBishop, (0, 2), (2, 4)).check_legality(&b));
    assert!(!mv(Piece::WhiteRook, (0, 0), (3, 0)).check_legality(&b));
    assert!(!mv(Piece::WhiteKnight, (0, 6), (8, 5)).check_legality(&b));
}

#[test]
fn sliders_on_open_board() {
    let mut b = empty_board();
    put(&mut b, Piece::WhiteQueen, 3, 3);
    put(&mut b, Piece::BlackPawn, 3, 6);
    assert!(mv(Piece::WhiteQueen, (3, 3), (3, 6)).check_legality(&b));
    assert!(!mv(Piece::WhiteQueen, (3, 3), (3, 7)).check_legality(&b));
    assert!(mv(Piece::WhiteQueen, (3, 3), (7, 7)).check_legality(&b));
    assert!(!mv(Piece::WhiteQueen, (3, 3), (5, 4)).check_legality(&b));
    assert!(!mv(Piece::WhiteQueen, (3, 3), (3, 3)).check_legality(&b));
}

#[test]
fn promotion_must_be_named() {
    let mut b = empty_board();
    put(&mut b, Piece::WhitePawn, 6, 0);
    let ap = ActivePiece { piece_type: Piece::WhitePawn, from_rank: 6, from_file: 0 };
    assert!(!Move::new(ap, (7, 0)).check_legality(&b));
    assert!(Move::new_promotion(ap, (7, 0), Piece::WhiteQueen).check_legality(&b));
    assert!(!Move::new_promotion(ap, (7, 0), Piece::BlackQueen).check_legality(&b));
    assert!(!Move::new_promotion(ap, (7, 0), Piece::WhiteKing).check_legality(&b));
}

#[test]
fn castling_rules() {
    let mut b = empty_board();
    b.castling_rights.white_kingside = true;
    b.castling_rights.white_queenside = true;
    put(&mut b, Piece::WhiteKing, 0, 4);
    put(&mut b, Piece::WhiteRook, 0, 7);
    put(&mut b, Piece::WhiteRook, 0, 0);
    put(&mut b, Piece::BlackKing, 7, 4);
    assert!(mv(Piece::WhiteKing, (0, 4), (0, 6)).check_legality(&b));
    assert!(mv(Piece::WhiteKing, (0, 4), (0, 2)).check_legality(&b));
    // a black rook eyeing f1 forbids castling kingside only
    put(&mut b, Piece::BlackRook, 5, 5);
    assert!(!mv(Piece::WhiteKing, (0, 4), (0, 6)).check_legality(&b));
    assert!(mv(Piece::WhiteKing, (0, 4), (0, 2)).check_legality(&b));
    b.castling_rights.white_queenside = false;
    assert!(!mv(Piece::WhiteKing, (0, 4), (0, 2)).check_legality(&b));
}

#[test]
fn attacks_and_check() {
    let mut b = empty_board();
    put(&mut b, Piece::WhiteKing, 0, 4);
    put(&mut b, Piece::BlackKing, 7, 4);
    put(&mut b, Piece::BlackRook, 5, 4);
    assert!(Move::square_attacked(&b, (0, 4), false));
    assert!(!Move::square_attacked(&b, (0, 3), false));
    assert!(Move::king_in_check(&b, true));
    assert!(!Move::king_in_check(&b, false));
    // a king that steps along the file stays in check: illegal
    assert!(mv(Piece::WhiteKing, (0, 4), (1, 4)).check_legality(&b));
    assert!(!mv(Piece::WhiteKing, (0, 4), (1, 4)).is_legal(&b));
    assert!(mv(Piece::WhiteKing, (0, 4), (1, 3)).is_legal(&b));
    // no king, no check
    let empty = empty_board();
    assert!(!Move::king_in_check(&empty, true));
}

#[test]
fn pinned_piece_cannot_move() {
    let mut b = empty_board();
    put(&mut b, Piece::WhiteKing, 0, 4);
    put(&mut b, Piece::WhiteBishop, 1, 4);
    put(&mut b, Piece::BlackRook, 7, 4);
    put(&mut b, Piece::BlackKing, 7, 0);
    let m = mv(Piece::WhiteBishop, (1, 4), (2, 5));
    assert!(m.check_legality(&b));
    assert!(!m.is_legal(&b));
}

#[test]
fn execute_updates_rights_and_en_passant() {
    let mut b = Board::new();
    mv(Piece::WhitePawn, (1, 4), (3, 4)).execute_move(&mut b);
    assert_eq!(b.en_passant_target, Some((2, 4)));
    mv(Piece::BlackKnight, (7, 6), (5, 5)).execute_move(&mut b);
    assert_eq!(b.en_passant_target, None);
    mv(Piece::WhiteKing, (0, 4), (1, 4)).execute_move(&mut b);
    assert!(!b.castling_rights.white_kingside && !b.castling_rights.white_queenside);
    assert!(b.castling_rights.black_kingside && b.castling_rights.black_queenside);
    mv(Piece::BlackRook, (7, 7), (7, 6)).execute_move(&mut b);
    assert!(!b.castling_rights.black_kingside && b.castling_rights.black_queenside);
}

#[test]
fn check_and_execute_only_legal() {
    let mut b = Board::new();
    let before = b.bitboards;
    assert!(!mv(Piece::WhitePawn, (1, 4), (4, 4)).check_and_execute(&mut b));
    assert_eq!(b.bitboards, before);
    assert!(mv(Piece::WhitePawn, (1, 4), (3, 4)).check_and_execute(&mut b));
    assert_eq!(b.bitboard(Piece::WhitePawn), (0xFF00 & !(1u64 << 12)) | (1 << 28));
}

#[test]
fn pawns_attack_their_forward_diagonals() {
    let mut b = empty_board();
    put(&mut b, Piece::WhiteKing, 0, 4);
    put(&mut b, Piece::BlackKing, 7, 4);
    put(&mut b, Piece::WhitePawn, 1, 4);
    // the empty d3 and f3 are attacked, the square ahead is not
    assert!(Move::square_attacked(&b, (2, 3), true));
    assert!(Move::square_attacked(&b, (2, 5), true));
    assert!(!Move::square_attacked(&b, (2, 4), true));
    assert!(!Move::square_attacked(&b, (0, 1), true));
    // a black pawn on d2 checks the king on e1, though it could only
    // capture there by promoting
    let mut c = empty_board();
    put(&mut c, Piece::WhiteKing, 0, 4);
    put(&mut c, Piece::BlackPawn, 1, 3);
    put(&mut c, Piece::BlackKing, 7, 4);
    assert!(Move::king_in_check(&c, true));
    assert!(Move::square_attacked(&c, (0, 2), false));
    // kings attack the squares around them
    assert!(Move::square_attacked(&c, (6, 3), false));
    assert!(!Move::square_attacked(&c, (5, 4), false));
}

#[test]
fn no_castling_through_pawn_attack() {
    let mut b = empty_board();
    b.castling_rights.white_kingside = true;
    put(&mut b, Piece::WhiteKing, 0, 4);
    put(&mut b, Piece::WhiteRook, 0, 7);
    put(&mut b, Piece::BlackKing, 7, 4);
    assert!(mv(Piece::WhiteKing, (0, 4), (0, 6)).check_legality(&b));
    // a black pawn on g2 attacks f1
    put(&mut b, Piece::BlackPawn, 1, 6);
    assert!(!mv(Piece::WhiteKing, (0, 4), (0, 6)).check_legality(&b));
}

#[test]
fn promotion_piece_only_on_pawn_moves() {
    let b = Board::new();
    let ap = ActivePiece { piece_type: Piece::WhiteKnight, from_rank: 0, from_file: 1 };
    assert!(Move::new(ap, (2, 2)).check_legality(&b));
    assert!(!Move::new_promotion(ap, (2, 2), Piece::WhiteQueen).check_legality(&b));
    assert!(!Move::new_promotion(ap, (2, 2), Piece::WhiteQueen).is_legal(&b));
}

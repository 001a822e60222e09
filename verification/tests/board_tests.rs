use lib::board::{Board, CastlingRights, Piece, UndoInfo};
use lib::moves::{ActivePiece, Move};

fn empty_board() -> Board {
    Board {
        bitboards: [0; 12],
        en_passant_target: None,
        castling_rights: CastlingRights {
            white_kingside: false,
            white_queenside: false,
            black_kingside: false,
            black_queenside: false,
        },
    }
}

fn put(board: &mut Board, piece: Piece, rank: usize, file: usize) {
    board.bitboards[piece.as_index()] |= 1u64 << (rank * 8 + file);
}

fn mv(piece: Piece, from: (usize, usize), to: (usize, usize)) -> Move {
    Move::new(ActivePiece { piece_type: piece, from_rank: from.0, from_file: from.1 }, to)
}

#[test]
fn piece_colours_and_indices() {
    let whites = Piece::all_of_color(true);
    let blacks = Piece::all_of_color(false);
    for (i, p) in whites.iter().enumerate() {
        assert_eq!(p.as_index(), i);
        assert!(p.is_white());
        assert_eq!(p.enemy_indices(), 6..12);
        assert_eq!(p.friendly_indices(), 0..6);
    }
    for (i, p) in blacks.iter().enumerate() {
        assert_eq!(p.as_index(), i + 6);
        assert!(!p.is_white());
        assert_eq!(p.enemy_indices(), 0..6);
        assert_eq!(p.friendly_indices(), 6..12);
    }
    assert_eq!(Board::get_white_indices(), 0..5);
    assert_eq!(Board::get_black_indices(), 5..11);
}

#[test]
fn from_usize_round_trip() {
    for i in 0..12 {
        assert_eq!(Piece::from_usize(i).map(|p| p.as_index()), Some(i));
    }
    assert_eq!(Piece::from_usize(12), None);
    assert_eq!(Piece::from_usize(5), Some(Piece::WhiteKing));
    assert_eq!(Piece::from_usize(11), Some(Piece::BlackKing));
}

#[test]
fn new_board_layout() {
    let b = Board::new();
    assert_eq!(b.bitboard(Piece::WhitePawn), 0xFF00);
    assert_eq!(b.bitboard(Piece::BlackKing), 0x1000_0000_0000_0000);
    assert_eq!(b.get_white_occupancy_mask(), 0xFFFF);
    assert_eq!(b.get_black_occupancy_mask(), 0xFFFF_0000_0000_0000);
    assert_eq!(b.get_occupancy_mask(), 0xFFFF_0000_0000_FFFF);
    assert_eq!(b.en_passant_target, None);
    assert!(b.castling_rights.white_kingside && b.castling_rights.black_queenside);
}

#[test]
fn piece_lookup() {
    let b = Board::new();
    assert_eq!(b.get_piece_at((1, 4), true), Some(0));
    assert_eq!(b.get_piece_at((1, 4), false), None);
    assert_eq!(b.get_piece_at((6, 4), false), Some(6));
    assert_eq!(b.get_piece_at((3, 3), true), None);
    assert_eq!(b.get_any_piece_at((0, 4)), Some(Piece::WhiteKing));
    assert_eq!(b.get_any_piece_at((7, 3)), Some(Piece::BlackQueen));
    assert_eq!(b.get_any_piece_at((4, 4)), None);
}

#[test]
fn undo_info_new_keeps_fields() {
    let rights = Board::new().castling_rights;
    let u = UndoInfo::new(Some(Piece::BlackPawn), rights, Some((5, 3)), Some((4, 3)));
    assert_eq!(u.captured_piece, Some(Piece::BlackPawn));
    assert_eq!(u.previous_castling_rights, rights);
    assert_eq!(u.previous_en_passant_target, Some((5, 3)));
    assert_eq!(u.captured_square, Some((4, 3)));
}

fn same_board(a: &Board, b: &Board) -> bool {
    a.bitboards == b.bitboards
        && a.en_passant_target == b.en_passant_target
        && a.castling_rights == b.castling_rights
}

#[test]
fn make_unmake_quiet_move() {
    let mut b = Board::new();
    let before = b;
    let m = mv(Piece::WhitePawn, (1, 4), (3, 4));
    let undo = b.make_move(&m);
    assert_eq!(b.bitboard(Piece::WhitePawn), 0xFF00 & !(1 << 12) | (1 << 28));
    assert_eq!(b.en_passant_target, Some((2, 4)));
    assert_eq!(undo.captured_piece, None);
    assert_eq!(undo.captured_square, None);
    b.unmake_move(&m, undo);
    assert!(same_board(&b, &before));
}

#[test]
fn make_unmake_capture() {
    let mut b = empty_board();
    put(&mut b, Piece::WhiteKing, 0, 4);
    put(&mut b, Piece::BlackKing, 7, 4);
    put(&mut b, Piece::WhiteRook, 3, 0);
    put(&mut b, Piece::BlackKnight, 3, 6);
    let before = b;
    let m = mv(Piece::WhiteRook, (3, 0), (3, 6));
    let undo = b.make_move(&m);
    assert_eq!(undo.captured_piece, Some(Piece::BlackKnight));
    assert_eq!(undo.captured_square, Some((3, 6)));
    assert_eq!(b.bitboard(Piece::BlackKnight), 0);
    assert_eq!(b.bitboard(Piece::WhiteRook), 1 << 30);
    b.unmake_move(&m, undo);
    assert!(same_board(&b, &before));
}

#[test]
fn make_unmake_en_passant() {
    let mut b = empty_board();
    put(&mut b, Piece::WhiteKing, 0, 4);
    put(&mut b, Piece::BlackKing, 7, 4);
    put(&mut b, Piece::WhitePawn, 4, 4);
    put(&mut b, Piece::BlackPawn, 4, 3);
    b.en_passant_target = Some((5, 3));
    let before = b;
    let m = mv(Piece::WhitePawn, (4, 4), (5, 3));
    let undo = b.make_move(&m);
    assert_eq!(undo.captured_piece, Some(Piece::BlackPawn));
    assert_eq!(undo.captured_square, Some((4, 3)));
    assert_eq!(b.bitboard(Piece::BlackPawn), 0);
    assert_eq!(b.bitboard(Piece::WhitePawn), 1 << 43);
    assert_eq!(b.en_passant_target, None);
    b.unmake_move(&m, undo);
    assert!(same_board(&b, &before));
}

#[test]
fn make_unmake_castling_and_promotion() {
    let mut b = empty_board();
    b.castling_rights.white_kingside = true;
    b.castling_rights.white_queenside = true;
    put(&mut b, Piece::WhiteKing, 0, 4);
    put(&mut b, Piece::WhiteRook, 0, 7);
    put(&mut b, Piece::WhiteRook, 0, 0);
    put(&mut b, Piece::BlackKing, 7, 0);
    put(&mut b, Piece::WhitePawn, 6, 6);
    let before = b;
    let castle = mv(Piece::WhiteKing, (0, 4), (0, 6));
    let undo = b.make_move(&castle);
    assert_eq!(b.bitboard(Piece::WhiteKing), 1 << 6);
    assert_eq!(b.bitboard(Piece::WhiteRook), (1 << 5) | 1);
    assert!(!b.castling_rights.white_kingside && !b.castling_rights.white_queenside);
    b.unmake_move(&castle, undo);
    assert!(same_board(&b, &before));

    let promo = Move::new_promotion(
        ActivePiece { piece_type: Piece::WhitePawn, from_rank: 6, from_file: 6 },
        (7, 6),
        Piece::WhiteQueen,
    );
    let undo = b.make_move(&promo);
    assert_eq!(b.bitboard(Piece::WhitePawn), 0);
    assert_eq!(b.bitboard(Piece::WhiteQueen), 1 << 62);
    b.unmake_move(&promo, undo);
    assert!(same_board(&b, &before));
}

#[test]
fn set_bitboard_replaces_one_kind() {
    let mut b = Board::new();
    b.set_bitboard(Piece::WhiteQueen, 0);
    assert_eq!(b.bitboard(Piece::WhiteQueen), 0);
    assert_eq!(b.bitboard(Piece::WhiteKing), 0x10);
}

use lib::board::{Board, CastlingRights, Piece};
use lib::movegen::{generate_legal_moves, is_checkmate, is_stalemate, legal_moves_for_piece};
use lib::moves::{ActivePiece, Move};

fn empty_board() -> Board {
    Board {
        bitboards: [0; 12],
        en_passant_target: None,
        castling_rights: CastlingRights {
            white_kingside: false,
            white_queenside: false,
            black_kingside: false,
            black_queenside: false,
        },
    }
}

fn put(board: &mut Board, piece: Piece, rank: usize, file: usize) {
    board.bitboards[piece.as_index()] |= 1u64 << (rank * 8 + file);
}

fn mv(piece: Piece, from: (usize, usize), to: (usize, usize)) -> Move {
    Move::new(ActivePiece { piece_type: piece, from_rank: from.0, from_file: from.1 }, to)
}

#[test]
fn twenty_opening_moves_each() {
    let b = Board::new();
    let w = generate_legal_moves(&b, true);
    let bl = generate_legal_moves(&b, false);
    assert_eq!(w.len(), 20);
    assert_eq!(bl.len(), 20);
    // pawns first, a-file first
    assert_eq!(w[0], mv(Piece::WhitePawn, (1, 0), (2, 0)));
    assert_eq!(w[1], mv(Piece::WhitePawn, (1, 0), (3, 0)));
    assert!(w.iter().all(|m| m.is_legal(&b)));
}

#[test]
fn knight_moves_in_offset_order() {
    let b = Board::new();
    let ms = legal_moves_for_piece(&b, Piece::WhiteKnight, 0, 6);
    assert_eq!(ms, vec![mv(Piece::WhiteKnight, (0, 6), (2, 7)), mv(Piece::WhiteKnight, (0, 6), (2, 5))]);
}

#[test]
fn promotions_are_generated_in_order() {
    let mut b = empty_board();
    put(&mut b, Piece::WhitePawn, 6, 0);
    put(&mut b, Piece::WhiteKing, 0, 4);
    put(&mut b, Piece::BlackKing, 7, 7);
    let ms = legal_moves_for_piece(&b, Piece::WhitePawn, 6, 0);
    let promos: Vec<Option<Piece>> = ms.iter().map(|m| m.promotion).collect();
    assert_eq!(
        promos,
        vec![Some(Piece::WhiteQueen), Some(Piece::WhiteRook), Some(Piece::WhiteBishop), Some(Piece::WhiteKnight)]
    );
}

#[test]
fn en_passant_and_castling_are_generated() {
    let mut b = empty_board();
    b.castling_rights.white_kingside = true;
    put(&mut b, Piece::WhiteKing, 0, 4);
    put(&mut b, Piece::WhiteRook, 0, 7);
    put(&mut b, Piece::BlackKing, 7, 4);
    put(&mut b, Piece::WhitePawn, 4, 4);
    put(&mut b, Piece::BlackPawn, 4, 3);
    b.en_passant_target = Some((5, 3));
    let ms = generate_legal_moves(&b, true);
    assert!(ms.contains(&mv(Piece::WhitePawn, (4, 4), (5, 3))));
    assert!(ms.contains(&mv(Piece::WhiteKing, (0, 4), (0, 6))));
    assert!(!ms.contains(&mv(Piece::WhiteKing, (0, 4), (0, 2))));
}

#[test]
fn fools_mate_is_checkmate() {
    let mut b = Board::new();
    mv(Piece::WhitePawn, (1, 5), (2, 5)).execute_move(&mut b);
    mv(Piece::BlackPawn, (6, 4), (4, 4)).execute_move(&mut b);
    mv(Piece::WhitePawn, (1, 6), (3, 6)).execute_move(&mut b);
    mv(Piece::BlackQueen, (7, 3), (3, 7)).execute_move(&mut b);
    assert!(is_checkmate(&b, true));
    assert!(!is_stalemate(&b, true));
    assert!(generate_legal_moves(&b, true).is_empty());
    assert!(!is_checkmate(&b, false));
}

#[test]
fn cornered_king_is_stalemated() {
    let mut b = empty_board();
    put(&mut b, Piece::BlackKing, 7, 7);
    put(&mut b, Piece::WhiteQueen, 5, 6);
    put(&mut b, Piece::WhiteKing, 0, 0);
    assert!(is_stalemate(&b, false));
    assert!(!is_checkmate(&b, false));
    assert!(!is_stalemate(&b, true));
}

#[test]
fn generated_moves_are_named_once() {
    let mut b = empty_board();
    put(&mut b, Piece::WhiteKing, 0, 4);
    put(&mut b, Piece::WhiteRook, 0, 7);
    put(&mut b, Piece::WhiteQueen, 3, 3);
    put(&mut b, Piece::WhitePawn, 6, 1);
    put(&mut b, Piece::BlackKing, 7, 7);
    put(&mut b, Piece::BlackKnight, 7, 0);
    b.castling_rights.white_kingside = true;
    for board in [Board::new(), b] {
        for white in [true, false] {
            let moves = generate_legal_moves(&board, white);
            for i in 0..moves.len() {
                for j in 0..i {
                    assert_ne!(moves[i], moves[j]);
                }
            }
        }
    }
    // the pawn on b7 may take the knight or advance, each with four promotions
    let promos = generate_legal_moves(&b, true).iter().filter(|m| m.promotion.is_some()).count();
    assert_eq!(promos, 8);
}

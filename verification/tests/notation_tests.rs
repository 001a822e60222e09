use lib::board::{Board, Piece};
use lib::moves::{ActivePiece, Move};
use lib::notation::{board_diagram, board_to_fen, piece_char, square_to_algebraic};

fn mv(piece: Piece, from: (usize, usize), to: (usize, usize)) -> Move {
    Move::new(ActivePiece { piece_type: piece, from_rank: from.0, from_file: from.1 }, to)
}

#[test]
fn fen_of_the_starting_position() {
    let b = Board::new();
    assert_eq!(board_to_fen(&b, true), "rnbqkbnr/pppppppp/8/8/8/8/PPPPPPPP/RNBQKBNR w KQkq - 0 1");
    assert_eq!(board_to_fen(&b, false), "rnbqkbnr/pppppppp/8/8/8/8/PPPPPPPP/RNBQKBNR b KQkq - 0 1");
}

#[test]
fn fen_after_moves() {
    let mut b = Board::new();
    mv(Piece::WhitePawn, (1, 4), (3, 4)).execute_move(&mut b);
    assert_eq!(board_to_fen(&b, false), "rnbqkbnr/pppppppp/8/8/4P3/8/PPPP1PPP/RNBQKBNR b KQkq e3 0 1");
    mv(Piece::WhiteKing, (0, 4), (1, 4)).execute_move(&mut b);
    mv(Piece::BlackRook, (7, 0), (5, 0)).execute_move(&mut b);
    assert_eq!(board_to_fen(&b, true), "1nbqkbnr/pppppppp/r7/8/4P3/8/PPPPKPPP/RNBQ1BNR w k - 0 1");
    b.castling_rights.black_kingside = false;
    assert_eq!(board_to_fen(&b, true), "1nbqkbnr/pppppppp/r7/8/4P3/8/PPPPKPPP/RNBQ1BNR w - - 0 1");
}

#[test]
fn algebraic_squares() {
    assert_eq!(square_to_algebraic(2, 4), "e3");
    assert_eq!(square_to_algebraic(0, 0), "a1");
    assert_eq!(square_to_algebraic(7, 7), "h8");
}

#[test]
fn piece_letters() {
    assert_eq!(piece_char(Piece::WhiteKnight), 'N');
    assert_eq!(piece_char(Piece::BlackKing), 'k');
    assert_eq!(piece_char(Piece::BlackPawn), 'p');
}

#[test]
fn diagram_of_the_starting_position() {
    let d = board_diagram(&Board::new());
    let lines: Vec<&str> = d.lines().collect();
    assert_eq!(lines.len(), 8);
    assert_eq!(lines[0], "r n b q k b n r ");
    assert_eq!(lines[1], "p p p p p p p p ");
    assert_eq!(lines[4], ". . . . . . . . ");
    assert_eq!(lines[7], "R N B Q K B N R ");
    assert!(d.ends_with('\n'));
}

#[test]
fn square_names_read_back() {
    for rank in 0..8 {
        for file in 0..8 {
            let name = square_to_algebraic(rank, file);
            assert_eq!(lib::ui::parse_square(&name), Some((rank, file)));
        }
    }
}

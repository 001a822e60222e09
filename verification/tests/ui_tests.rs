use lib::board::{Board, Piece};
use lib::moves::{ActivePiece, Move};
use lib::ui::{
    game_turn, move_text, parse_gui_move, parse_square, promotion_from_text, GameStatus, LoopStep, MoveListener,
    TurnOutcome,
};

fn mv(piece: Piece, from: (usize, usize), to: (usize, usize)) -> Move {
    Move::new(ActivePiece { piece_type: piece, from_rank: from.0, from_file: from.1 }, to)
}

#[test]
fn squares_from_text() {
    assert_eq!(parse_square("e2"), Some((1, 4)));
    assert_eq!(parse_square("E2"), Some((1, 4)));
    assert_eq!(parse_square("h8"), Some((7, 7)));
    assert_eq!(parse_square("a1"), Some((0, 0)));
    assert_eq!(parse_square("i2"), None);
    assert_eq!(parse_square("e9"), None);
    assert_eq!(parse_square("e"), None);
    assert_eq!(parse_square("e22"), None);
}

#[test]
fn promotion_answers() {
    assert_eq!(promotion_from_text("q", true), Some(Piece::WhiteQueen));
    assert_eq!(promotion_from_text("N", false), Some(Piece::BlackKnight));
    assert_eq!(promotion_from_text("r", false), Some(Piece::BlackRook));
    assert_eq!(promotion_from_text("b", true), Some(Piece::WhiteBishop));
    assert_eq!(promotion_from_text("k", true), None);
    assert_eq!(promotion_from_text("qq", true), None);
}

#[test]
fn gui_moves() {
    let b = Board::new();
    assert_eq!(parse_gui_move("e2e4", &b, true), Some(mv(Piece::WhitePawn, (1, 4), (3, 4))));
    assert_eq!(parse_gui_move("g1f3q", &b, true), Some(mv(Piece::WhiteKnight, (0, 6), (2, 5))));
    assert_eq!(parse_gui_move("e2e5", &b, true), None);
    assert_eq!(parse_gui_move("e7e5", &b, true), None);
    assert_eq!(parse_gui_move("e7e5", &b, false), Some(mv(Piece::BlackPawn, (6, 4), (4, 4))));
    assert_eq!(parse_gui_move("e2", &b, true), None);
}

#[test]
fn engine_move_text() {
    assert_eq!(move_text(&mv(Piece::BlackPawn, (6, 4), (4, 4))), "e7e5");
    assert_eq!(move_text(&mv(Piece::WhiteKnight, (0, 6), (2, 5))), "g1f3");
}

#[test]
fn listener_turns() {
    let mut b = Board::new();
    let mut l = MoveListener::new();
    assert_eq!(l.original_square, (0, 0));
    assert!(l.current_player);
    l.original_square = (1, 4);
    l.new_square = (3, 4);
    assert!(!l.promotion_required(&b));
    let m = l.convert_to_move(&b, None);
    assert_eq!(m, Some(mv(Piece::WhitePawn, (1, 4), (3, 4))));
    assert_eq!(l.play_move(&mut b, m), TurnOutcome::Executed);
    assert!(!l.current_player);
    assert_eq!(l.game_status(&b), GameStatus::Ongoing);
    // white to move is over: the same pawn again is not black's
    l.original_square = (3, 4);
    l.new_square = (4, 4);
    assert_eq!(l.convert_to_move(&b, None), None);
    assert_eq!(l.play_move(&mut b, None), TurnOutcome::NoPiece);
    assert_eq!(l.play_move(&mut b, Some(mv(Piece::WhitePawn, (3, 4), (4, 4)))), TurnOutcome::NotYourTurn);
    assert_eq!(l.play_move(&mut b, Some(mv(Piece::BlackPawn, (6, 4), (3, 4)))), TurnOutcome::Illegal);
    assert!(!l.current_player);
}

#[test]
fn listener_promotion() {
    let mut b = Board::new();
    // clear a7 and a8 and put a white pawn on a7
    b.bitboards[Piece::BlackPawn.as_index()] &= !(1u64 << 48);
    b.bitboards[Piece::BlackRook.as_index()] &= !(1u64 << 56);
    b.bitboards[Piece::WhitePawn.as_index()] |= 1u64 << 48;
    let mut l = MoveListener::new();
    l.original_square = (6, 0);
    l.new_square = (7, 0);
    assert!(l.promotion_required(&b));
    let m = l.convert_to_move(&b, Some(Piece::WhiteQueen)).unwrap();
    assert_eq!(m.promotion, Some(Piece::WhiteQueen));
    assert_eq!(l.play_move(&mut b, Some(m)), TurnOutcome::Executed);
    assert_eq!(b.bitboards[Piece::WhiteQueen.as_index()], (1u64 << 3) | (1u64 << 56));
}

#[test]
fn listener_sees_mate() {
    let mut b = Board::new();
    mv(Piece::WhitePawn, (1, 5), (2, 5)).execute_move(&mut b);
    mv(Piece::BlackPawn, (6, 4), (4, 4)).execute_move(&mut b);
    mv(Piece::WhitePawn, (1, 6), (3, 6)).execute_move(&mut b);
    mv(Piece::BlackQueen, (7, 3), (3, 7)).execute_move(&mut b);
    let l = MoveListener::new();
    assert_eq!(l.game_status(&b), GameStatus::Checkmate);
}

#[test]
fn gui_promotion_letter_picks_piece() {
    let mut b = Board::new();
    b.bitboards = [1 << 48, 0, 0, 0, 0, 0x10, 0, 0, 0, 0, 0, 1 << 62];
    let n = parse_gui_move("a7a8n", &b, true).unwrap();
    assert_eq!(n.to, (7, 0));
    assert_eq!(n.promotion, Some(Piece::WhiteKnight));
    let r = parse_gui_move("a7a8R", &b, true).unwrap();
    assert_eq!(r.promotion, Some(Piece::WhiteRook));
    let q = parse_gui_move("a7a8", &b, true).unwrap();
    assert_eq!(q.promotion, Some(Piece::WhiteQueen));
    let x = parse_gui_move("a7a8x", &b, true).unwrap();
    assert_eq!(x.promotion, Some(Piece::WhiteQueen));
    assert_eq!(parse_gui_move("a7a8b", &b, true).unwrap().promotion, Some(Piece::WhiteBishop));
}

#[test]
fn game_turns_alternate() {
    let mut b = Board::new();
    let mut white = true;
    let m = parse_gui_move("e2e4", &b, true);
    assert_eq!(game_turn(&mut b, &mut white, m), LoopStep::Played);
    assert!(!white);
    assert_eq!(b.bitboards[Piece::WhitePawn.as_index()] & (1u64 << 28), 1u64 << 28);
    let before = b.bitboards;
    assert_eq!(game_turn(&mut b, &mut white, None), LoopStep::GameOver);
    assert!(!white);
    assert_eq!(b.bitboards, before);
    white = true;
    assert_eq!(game_turn(&mut b, &mut white, None), LoopStep::AwaitAgain);
    assert!(white);
}

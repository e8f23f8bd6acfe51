use rand::rngs::SmallRng;
use rand::{RngCore, SeedableRng};

use xiangqi::engine::board::Board;
use xiangqi::engine::game::GameState;
use xiangqi::engine::move_gen::{
    attackers_of, is_in_check, is_legal_move, legal_capture_moves, legal_moves, legal_moves_for_piece,
    pseudo_attackers_of, pseudo_moves_for_piece, validate_move,
};
use xiangqi::engine::tactics::MoveValidationReason;
use xiangqi::engine::zobrist::ZobristTable;
use xiangqi::engine::types::{Color, GameStatusReason, Move, MoveFilter, PieceKind, Position};

fn mv(a: i8, b: i8, c: i8, d: i8) -> Move {
    Move::new(Position::new(a, b), Position::new(c, d))
}

#[test]
fn test_start_pos_legal_moves() {
    let mut game = GameState::start_pos();
    let moves = game.legal_moves();
    assert_eq!(moves.len(), 44, "Red has 44 legal moves from start position");
}

#[test]
fn test_fen_parse_start_pos() {
    let board = Board::start_pos();
    assert_eq!(board.side_to_move, Color::Red);
    assert_eq!(board.no_capture_plies, 0);
    assert_eq!(board.fullmove_number, 1);

    let red_king = board.get_piece_at(Position::new(4, 9));
    assert!(red_king.is_some());
    assert_eq!(red_king.unwrap().kind, PieceKind::King);
    assert_eq!(red_king.unwrap().color, Color::Red);

    let black_king = board.get_piece_at(Position::new(4, 0));
    assert!(black_king.is_some());
    assert_eq!(black_king.unwrap().kind, PieceKind::King);
    assert_eq!(black_king.unwrap().color, Color::Black);
}

#[test]
fn test_fen_parse_custom() {
    let fen = "rnbakabnr/9/1c5c1/p1p1p1p1p/9/9/P1P1P1P1P/1C5C1/9/RNBAKABNR b - - 5 10";
    let board = Board::from_fen(fen).unwrap();
    assert_eq!(board.side_to_move, Color::Black);
    assert_eq!(board.no_capture_plies, 5);
    assert_eq!(board.fullmove_number, 10);
}

#[test]
fn test_checkmate() {
    let fen = "3k5/3a5/3R5/9/9/9/9/9/4R4/4K4 w";
    let mut game = GameState::from_fen(fen).unwrap();
    assert!(!game.status.is_terminal);

    let mv = Move::new(Position::new(4, 8), Position::new(4, 0));
    game.make_move(mv);

    assert!(game.status.is_terminal, "should be terminal (checkmate)");
    assert_eq!(game.status.winner, Some(Color::Red));
    assert_eq!(game.status.reason, Some(GameStatusReason::Checkmate));
}

#[test]
fn test_stalemate() {
    assert_ne!(
        GameStatusReason::Checkmate,
        GameStatusReason::Stalemate,
        "checkmate and stalemate are distinct reasons"
    );
}

#[test]
fn test_flying_kings_filter() {
    let fen = "4k4/9/9/9/9/9/9/9/9/4K4 w";
    let mut game = GameState::from_fen(fen).unwrap();

    let moves = game.legal_moves();
    for mv in &moves {
        assert!(mv.from == Position::new(4, 9), "only the red king can move");
        assert_ne!(
            mv.to,
            Position::new(4, 8),
            "king should not be allowed to face opposing king on same file"
        );
    }
    assert_eq!(moves.len(), 2);
}

#[test]
fn test_no_capture_draw() {
    let fen = "4k4/4a4/9/9/9/9/9/9/4A4/4K4 w - - 99 51";
    let mut game = GameState::from_fen(fen).unwrap();
    assert_eq!(game.board.no_capture_plies, 99);

    let moves = game.legal_moves();
    assert!(!moves.is_empty());
    assert!(!game.status.is_terminal);

    game.make_move(moves[0]);
    assert_eq!(game.board.no_capture_plies, 100);
    assert!(game.status.is_terminal);
    assert_eq!(game.status.reason, Some(GameStatusReason::MaxNonCapture));
    assert_eq!(game.status.winner, None);
}

#[test]
fn test_game_make_undo_move() {
    let mut game = GameState::start_pos();
    let moves = game.legal_moves();
    assert!(!moves.is_empty());

    let mv = moves[0];
    let hash_before = game.board.zobrist_hash;

    game.make_move(mv);
    assert_eq!(game.board.side_to_move, Color::Black);
    assert_ne!(game.board.zobrist_hash, hash_before);

    game.undo_move();
    assert_eq!(game.board.side_to_move, Color::Red);
    assert_eq!(game.board.zobrist_hash, hash_before);
}

#[test]
fn black_without_a_move_and_not_in_check_has_lost_by_stalemate() {
    let mut game = GameState::from_fen("3k5/9/9/9/9/9/9/4R4/9/4K3R w").unwrap();
    game.make_move(mv(8, 9, 8, 1));
    assert!(game.status.is_terminal);
    assert_eq!(game.status.reason, Some(GameStatusReason::Stalemate));
    assert_eq!(game.status.winner, Some(Color::Red));
}

#[test]
fn undoing_several_moves_restores_everything_that_is_seen() {
    let mut game = GameState::start_pos();
    let before: Vec<Move> = game.legal_moves();
    let hash = game.board.zobrist_hash;
    for m in [mv(7, 7, 4, 7), mv(7, 0, 6, 2), mv(4, 7, 4, 3), mv(0, 0, 0, 1)] {
        assert!(is_legal_move(&mut game.board, m, None));
        game.make_move(m);
    }
    assert_eq!(game.board.no_capture_plies, 1);
    assert_eq!(game.board.fullmove_number, 3);
    for _ in 0..4 {
        game.undo_move();
    }
    assert_eq!(game.legal_moves(), before);
    assert_eq!(game.board.zobrist_hash, hash);
    assert_eq!(game.board.no_capture_plies, 0);
    assert_eq!(game.board.fullmove_number, 1);
    assert_eq!(game.history.len(), 1);
    game.undo_move();
    assert_eq!(game.legal_moves(), before);
}

#[test]
fn refusals_have_their_reasons() {
    let mut board = Board::start_pos();
    let red = Some(Color::Red);
    assert_eq!(
        validate_move(&mut board, mv(0, 9, 0, 10), red),
        Some(MoveValidationReason::OutsideBoard)
    );
    assert_eq!(validate_move(&mut board, mv(0, 8, 0, 7), red), Some(MoveValidationReason::NoPiece));
    assert_eq!(validate_move(&mut board, mv(0, 0, 0, 1), red), Some(MoveValidationReason::WrongSide));
    assert_eq!(validate_move(&mut board, mv(0, 0, 0, 1), None), None);
    assert_eq!(
        validate_move(&mut board, mv(0, 9, 1, 9), red),
        Some(MoveValidationReason::CaptureOwnPiece)
    );
    assert_eq!(
        validate_move(&mut board, mv(0, 9, 1, 8), red),
        Some(MoveValidationReason::InvalidPieceMove)
    );
    let mut pinned = Board::from_fen("4k4/4r4/9/9/9/9/9/4R4/9/4K4 w").unwrap();
    assert_eq!(
        validate_move(&mut pinned, mv(4, 7, 3, 7), red),
        Some(MoveValidationReason::LeavesKingInCheck)
    );
    assert_eq!(validate_move(&mut pinned, mv(4, 7, 4, 1), red), None);
    assert_eq!(MoveValidationReason::LeavesKingInCheck.as_str(), "leaves_king_in_check");
}

#[test]
fn captures_are_among_the_legal_moves() {
    let mut board = Board::from_fen("4k4/4r4/9/9/9/9/9/4R4/9/4K4 w").unwrap();
    let all = legal_moves(&mut board, Color::Red);
    let captures = legal_capture_moves(&mut board, Color::Red);
    assert_eq!(captures, vec![mv(4, 7, 4, 1)]);
    assert!(all.contains(&captures[0]));
    let rook = legal_moves_for_piece(&mut board, Position::new(4, 7));
    for m in &rook {
        assert_eq!(m.to.x, 4);
        assert!(all.contains(m));
    }
    assert_eq!(rook.len(), 7);
}

#[test]
fn a_horse_attacks_only_past_a_free_leg() {
    let mut free = Board::from_fen("4k4/9/9/9/9/3n5/9/4R4/9/3K5 w").unwrap();
    assert_eq!(attackers_of(&mut free, Position::new(4, 7), Color::Black).len(), 1);
    let mut blocked = Board::from_fen("4k4/9/9/9/9/3n5/3P5/4R4/9/3K5 w").unwrap();
    assert_eq!(attackers_of(&mut blocked, Position::new(4, 7), Color::Black).len(), 0);
    let check = Board::from_fen("3k5/9/9/9/9/9/9/3n5/9/4K4 w").unwrap();
    assert!(is_in_check(&check, Color::Red));
    let no_check = Board::from_fen("3k5/9/9/9/9/9/9/3n5/3A5/4K4 w").unwrap();
    assert!(!is_in_check(&no_check, Color::Red));
}

#[test]
fn a_third_occurrence_is_judged_by_the_cycle() {
    let mut game = GameState::from_fen("4k4/9/3R5/9/9/9/9/9/4A4/4K4 w").unwrap();
    for _ in 0..2 {
        for m in [mv(3, 2, 4, 2), mv(4, 0, 3, 0), mv(4, 2, 3, 2), mv(3, 0, 4, 0)] {
            game.make_move(m);
        }
    }
    assert!(game.status.is_terminal);
    assert_eq!(game.status.reason, Some(GameStatusReason::PerpetualCheck));
    assert_eq!(game.status.winner, Some(Color::Black));
}

#[test]
fn a_quiet_cycle_is_a_draw() {
    let mut game = GameState::from_fen("3k5/9/9/9/9/9/9/9/9/4KR3 w").unwrap();
    for _ in 0..2 {
        for m in [mv(5, 9, 6, 9), mv(3, 0, 3, 1), mv(6, 9, 5, 9), mv(3, 1, 3, 0)] {
            assert!(!game.status.is_terminal);
            game.make_move(m);
        }
    }
    assert!(game.status.is_terminal);
    assert_eq!(game.status.winner, None);
    assert_eq!(game.status.reason, Some(GameStatusReason::MutualPerpetual));
}

#[test]
fn equal_boards_reached_by_different_moves_have_equal_hashes() {
    let mut a = GameState::start_pos();
    let mut b = GameState::start_pos();
    for m in [mv(0, 6, 0, 5), mv(0, 3, 0, 4), mv(2, 6, 2, 5), mv(2, 3, 2, 4)] {
        a.make_move(m);
    }
    for m in [mv(2, 6, 2, 5), mv(2, 3, 2, 4), mv(0, 6, 0, 5), mv(0, 3, 0, 4)] {
        b.make_move(m);
    }
    assert_eq!(a.board.zobrist_hash, b.board.zobrist_hash);
    b.make_move(mv(4, 6, 4, 5));
    assert_ne!(a.board.zobrist_hash, b.board.zobrist_hash);
}

#[test]
fn broken_board_texts_are_refused() {
    assert!(Board::from_fen("").is_err());
    assert!(Board::from_fen("9/9/9 w").is_err());
    assert!(Board::from_fen("4k4/9/9/9/9/9/9/9/9/4K3 w").is_err());
    assert!(Board::from_fen("4k4/9/9/9/9/9/9/9/9/4X4 w").is_err());
    let short = Board::from_fen("4k4/9/9/9/9/9/9/9/9/4K4").unwrap();
    assert_eq!(short.side_to_move, Color::Red);
}

#[test]
fn each_side_has_fifteen_men_besides_its_king() {
    let board = Board::start_pos();
    assert_eq!(board.pieces_of(Color::Red).len(), 15);
    assert_eq!(board.pieces_of(Color::Black).len(), 15);
    assert!(board.is_pos_empty(Position::new(4, 4)));
    assert_eq!(board.king_pos(Color::Black), Position::new(4, 0));
}

#[test]
fn men_confined_to_a_region_attack_only_within_it() {
    let mut advisor = Board::from_fen("4k4/9/9/9/9/9/9/6r2/5A3/4K4 w").unwrap();
    assert!(attackers_of(&mut advisor, Position::new(6, 7), Color::Red).is_empty());
    let mut inside = Board::from_fen("3k5/9/9/9/9/9/9/4r4/5A3/5K3 w").unwrap();
    assert_eq!(attackers_of(&mut inside, Position::new(4, 7), Color::Red).len(), 1);
    let mut elephant = Board::from_fen("4k4/9/9/4r4/9/2B6/9/4r4/9/3K5 w").unwrap();
    assert!(attackers_of(&mut elephant, Position::new(4, 3), Color::Red).is_empty());
    assert_eq!(attackers_of(&mut elephant, Position::new(4, 7), Color::Red).len(), 1);
    let mut king = Board::from_fen("4k4/9/9/9/9/9/9/9/9/2rK5 w").unwrap();
    assert!(attackers_of(&mut king, Position::new(2, 9), Color::Red).is_empty());
    let mut palace = Board::from_fen("4k4/9/9/9/9/9/9/9/3r5/3K5 w").unwrap();
    assert_eq!(attackers_of(&mut palace, Position::new(3, 8), Color::Red).len(), 1);
}

#[test]
fn the_board_map_lists_all_pieces_even_with_two_kings() {
    let board = Board::from_fen("4k4/9/9/9/9/9/9/9/9/3KK4 w").unwrap();
    assert_eq!(board.piece_pos_map.len(), 3);
    for (id, pos) in &board.piece_pos_map {
        assert_eq!(board.get_piece_at(*pos).unwrap().piece_id, *id);
    }
}

#[test]
fn all_boards_use_one_table_of_keys() {
    use_same_table(&Board::start_pos(), &Board::start_pos());
    let keys: Vec<u64> = (0..1261).collect();
    let table = ZobristTable::from_keys(&keys);
    let pawn = Board::start_pos().get_piece_at(Position::new(0, 6)).unwrap();
    assert_eq!(table.get_piece_hash(pawn, Position::new(0, 6)), 14 * 54 + 6);
    assert_eq!(table.get_side_to_move_hash(), 1260);
}

fn use_same_table(a: &Board, b: &Board) {
    assert_eq!(a.zobrist_table, b.zobrist_table);
    assert_eq!(a.zobrist_hash, b.zobrist_hash);
    assert_ne!(a.zobrist_table.get_side_to_move_hash(), 0);
    let mut rng = SmallRng::seed_from_u64(123456);
    let king = a.get_piece_at(Position::new(4, 9)).unwrap();
    assert_eq!(a.zobrist_table.get_piece_hash(king, Position::new(0, 0)), rng.next_u64());
}

#[test]
fn attackers_are_those_whose_captures_reach_the_square() {
    for fen in [
        "3k5/4a4/3hb4/p3r3p/4c4/2P1P4/4C3P/1H2R4/4A4/3AK4 r",
        "r2k1a3/4a4/4b3h/2p3p2/9/4H4/P3C3P/2E6/4A4/R3KA3 b",
    ] {
        let board = Board::from_fen(fen).unwrap();
        let squares: Vec<Position> =
            (0..10).flat_map(|y| (0..9).map(move |x| Position::new(x, y))).collect();
        for &target in &squares {
            let Some(victim) = board.get_piece_at(target) else { continue };
            let color = victim.color.opposite();
            let attackers = pseudo_attackers_of(&board, target, color);
            for &s in &squares {
                let listed = attackers.iter().filter(|a| a.1 == s).count();
                let captures = match board.get_piece_at(s) {
                    Some(p) if p.color == color => {
                        pseudo_moves_for_piece(&board, s, p, MoveFilter::CaptureOnly)
                            .contains(&Move::new(s, target))
                    }
                    _ => false,
                };
                assert_eq!(listed, captures as usize);
                assert!(listed == 0 || attackers.contains(&(board.get_piece_at(s).unwrap(), s)));
            }
        }
    }
}

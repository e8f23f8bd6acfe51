use std::collections::BTreeSet;

use xiangqi::kernel::constants::ACTION_SPACE_SIZE;
use xiangqi::kernel::game::GameState;
use xiangqi::kernel::position::Position;
use xiangqi::kernel::setup::MoveValidationReason;
use xiangqi::kernel::types::{
    action_id_to_move, move_to_action_id, Color, GameStatusReason, Move, Piece, PieceKind,
};

#[test]
fn starting_position_round_trips_and_has_expected_moves() {
    let pos = Position::starting();
    assert_eq!(
        pos.to_fen(),
        "rheakaehr/9/1c5c1/p1p1p1p1p/9/9/P1P1P1P1P/1C5C1/9/RHEAKAEHR r"
    );
    assert_eq!(pos.legal_moves().len(), 44);
    let mask = pos.legal_move_mask();
    assert_eq!(mask.iter().filter(|&&b| b).count(), 44);
    assert_eq!(mask.len(), ACTION_SPACE_SIZE);
}

#[test]
fn action_id_round_trip() {
    let mv = Move::new(1, 9, 2, 7);
    assert_eq!(action_id_to_move(move_to_action_id(mv)), mv);
}

#[test]
fn make_move_returns_new_position() {
    let pos = Position::starting();
    let next = pos.make_move(Move::new(1, 9, 2, 7));

    assert!(pos.piece_at(2, 7).is_none());
    let moved = next.piece_at(2, 7).expect("piece moved to (2,7)");
    assert_eq!(moved.color, Color::Red);
    assert_eq!(moved.kind, PieceKind::Horse);
    assert!(next.piece_at(1, 9).is_none());
    assert_eq!(next.side_to_move, Color::Black);
}

#[test]
fn horse_leg_blocks_move() {
    let pos = Position::from_fen("4k4/9/9/9/9/9/4P4/4H4/9/4K4 r").unwrap();
    assert!(!pos.legal_moves().contains(&Move::new(4, 7, 5, 5)));
    assert!(pos.legal_moves().contains(&Move::new(4, 7, 6, 8)));
}

#[test]
fn elephant_cannot_cross_or_jump_eye() {
    let blocked_eye = Position::from_fen("4k4/9/9/9/9/9/9/9/3P5/2E1K4 r").unwrap();
    let river_edge = Position::from_fen("4k4/9/9/9/9/2E6/9/9/9/4K4 r").unwrap();
    assert!(!blocked_eye.legal_moves().contains(&Move::new(2, 9, 4, 7)));
    assert!(!river_edge.legal_moves().contains(&Move::new(2, 5, 4, 3)));
}

#[test]
fn advisor_stays_inside_palace() {
    let pos = Position::from_fen("4k4/9/9/9/9/9/9/9/3A5/4K4 r").unwrap();
    assert!(pos.legal_moves().contains(&Move::new(3, 8, 4, 7)));
    assert!(!pos.legal_moves().contains(&Move::new(3, 8, 2, 7)));
}

#[test]
fn pawn_moves_sideways_only_after_crossing_river() {
    let before = Position::from_fen("k8/9/9/9/9/9/4P4/9/9/4K4 r").unwrap();
    let after = Position::from_fen("k8/9/9/9/4P4/9/9/9/9/4K4 r").unwrap();

    let before_targets: BTreeSet<(i32, i32)> = before
        .legal_moves()
        .into_iter()
        .filter(|m| m.source() == (4, 6))
        .map(|m| m.target())
        .collect();
    let before_expected: BTreeSet<(i32, i32)> = [(4, 5)].into_iter().collect();
    assert_eq!(before_targets, before_expected);

    let after_targets: BTreeSet<(i32, i32)> = after
        .legal_moves()
        .into_iter()
        .filter(|m| m.source() == (4, 4))
        .map(|m| m.target())
        .collect();
    let after_expected: BTreeSet<(i32, i32)> = [(4, 3), (3, 4), (5, 4)].into_iter().collect();
    assert_eq!(after_targets, after_expected);
}

#[test]
fn cannon_needs_exactly_one_screen_to_capture() {
    let pos = Position::from_fen("4k4/9/9/9/4p4/9/4P4/9/4C4/4K4 r").unwrap();
    assert!(pos.legal_moves().contains(&Move::new(4, 8, 4, 4)));
    assert!(!pos.legal_moves().contains(&Move::new(4, 8, 4, 0)));
}

#[test]
fn flying_general_blocks_exposing_own_king() {
    let pos = Position::from_fen("4k4/9/4R4/9/9/9/9/9/9/4K4 r").unwrap();
    assert!(!pos.is_in_check(Color::Red));
    assert!(!pos.legal_moves().contains(&Move::new(4, 2, 3, 2)));
    assert!(pos.legal_moves().contains(&Move::new(4, 2, 4, 1)));
}

#[test]
fn checkmate_status() {
    let pos = Position::from_fen("3k5/4R4/3R5/9/9/9/9/9/9/4K4 b").unwrap();
    let status = pos.status();
    assert!(status.is_terminal);
    assert_eq!(status.reason, Some(GameStatusReason::Checkmate));
    assert_eq!(status.winner, Some(Color::Red));
}

#[test]
fn repetition_key_ignores_counters() {
    let first = Position::from_fen("4k4/9/9/9/9/9/9/9/9/4K4 r - - 0 1").unwrap();
    let later = Position::from_fen("4k4/9/9/9/9/9/9/9/9/4K4 r - - 8 20").unwrap();
    assert_eq!(first.repetition_key(), later.repetition_key());
}

#[test]
fn piece_indexes_follow_moves() {
    let pos = Position::starting();
    let moving_id = pos.piece_at(1, 9).expect("horse at (1,9)").piece_id;

    let next = pos.make_move(Move::new(1, 9, 2, 7));
    let moved = next.piece_at(2, 7).expect("horse at (2,7)");
    assert!(next.piece_at(1, 9).is_none());
    assert_eq!(moved.piece_id, moving_id);
    assert_eq!(next.piece_positions[&moving_id], (2, 7));
    assert_eq!(next.king_square(Color::Red), Some((4, 9)));
}

fn play_cycle(start_fen: &str, cycle: &[Move]) -> GameState {
    let mut game = GameState::from_position(Position::from_fen(start_fen).unwrap());
    for _ in 0..2 {
        for &mv in cycle {
            game = game.make_move(mv);
        }
    }
    game
}

#[test]
fn detects_perpetual_check() {
    let game = play_cycle(
        "4k4/9/3R5/9/9/9/9/9/4A4/4K4 r",
        &[
            Move::new(3, 2, 4, 2),
            Move::new(4, 0, 3, 0),
            Move::new(4, 2, 3, 2),
            Move::new(3, 0, 4, 0),
        ],
    );
    let status = game.status();
    assert!(status.is_terminal);
    assert_eq!(status.reason, Some(GameStatusReason::PerpetualCheck));
    assert_eq!(status.winner, Some(Color::Black));
}

#[test]
fn detects_perpetual_chase() {
    let game = play_cycle(
        "k3h3h/9/9/9/4R4/9/9/9/9/1K7 r",
        &[
            Move::new(4, 4, 4, 5),
            Move::new(8, 0, 7, 2),
            Move::new(4, 5, 4, 4),
            Move::new(7, 2, 8, 0),
        ],
    );
    let status = game.status();
    assert!(status.is_terminal);
    assert_eq!(status.reason, Some(GameStatusReason::PerpetualChase));
    assert_eq!(status.winner, Some(Color::Black));
}

#[test]
fn detects_mutual_perpetual() {
    let game = play_cycle(
        "k3h4/8r/9/9/4R4/9/9/9/9/1K6H r",
        &[
            Move::new(4, 4, 4, 5),
            Move::new(8, 1, 8, 2),
            Move::new(4, 5, 4, 4),
            Move::new(8, 2, 8, 1),
        ],
    );
    let status = game.status();
    assert!(status.is_terminal);
    assert_eq!(status.reason, Some(GameStatusReason::MutualPerpetual));
    assert_eq!(status.winner, None);
}

#[test]
fn bench_legal_moves() {
    let positions = vec![
        Position::starting(),
        Position::from_fen("2eak4/4a4/4e3c/p3C1p1p/4p4/2P1R4/P3P1P1P/2H1E1H2/4A4/2EAK4 r").unwrap(),
        Position::from_fen("4k4/9/9/9/9/9/4r4/9/4A4/3AK4 r").unwrap(),
    ];
    for pos in &positions {
        for _ in 0..5 {
            assert!(!std::hint::black_box(pos.legal_moves()).is_empty());
        }
    }

    let mut state = GameState::from_position(Position::starting());
    let mut ply = 0u32;
    let sim_moves = 60;
    while ply < sim_moves {
        let moves = state.position.legal_moves();
        if moves.is_empty() {
            break;
        }
        state = state.make_move(moves[0]);
        ply += 1;
    }
    assert!(ply > 0);
}

#[test]
fn refused_moves_have_reasons() {
    let pos = Position::starting();
    assert_eq!(
        pos.validation_reason(Move::new(0, 9, 0, 10), None),
        Some(MoveValidationReason::OutsideBoard)
    );
    assert_eq!(
        pos.validation_reason(Move::new(0, 8, 0, 7), None),
        Some(MoveValidationReason::NoPiece)
    );
    assert_eq!(
        pos.validation_reason(Move::new(0, 9, 1, 9), None),
        Some(MoveValidationReason::CaptureOwnPiece)
    );
    assert_eq!(
        pos.validation_reason(Move::new(0, 0, 0, 1), Some(Color::Red)),
        Some(MoveValidationReason::WrongSide)
    );
    assert_eq!(
        pos.validation_reason(Move::new(0, 9, 2, 8), None),
        Some(MoveValidationReason::InvalidPieceMove)
    );
    assert!(pos.is_legal_move(Move::new(0, 9, 0, 8), None));
}

#[test]
fn broken_position_texts_are_refused_with_messages() {
    assert!(Position::from_fen("").is_err());
    assert!(Position::from_fen("9/9 r").is_err());
    assert!(Position::from_fen("4k4/9/9/9/9/9/9/9/9/4K4 x").is_err());
    assert!(Position::from_fen("4k4/9/9/9/9/9/9/9/9/4K3 r").is_err());
    assert!(Position::from_fen("4k4/9/9/9/9/9/9/9/9/4Z4 r").is_err());
    assert!(Color::from_fen_side("r").is_ok());
    assert!(Piece::from_fen(1, 'h').is_ok());
    assert!(Piece::from_fen(1, 'z').is_err());
}

#[test]
fn a_position_reads_back_from_its_text() {
    let text = "2eak4/4a4/4e3c/p3C1p1p/4p4/2P1R4/P3P1P1P/2H1E1H2/4A4/2EAK4 b";
    let pos = Position::from_fen(text).unwrap();
    assert_eq!(pos.to_fen(), text);
    let again = Position::from_fen(&pos.to_fen()).unwrap();
    assert_eq!(again.legal_moves(), pos.legal_moves());
}

#[test]
fn a_hundred_quiet_plies_draw() {
    let game = GameState::from_position(
        Position::from_fen("4k4/4a4/9/9/9/9/9/9/4A4/4K4 r - - 99 51").unwrap(),
    );
    assert!(!game.status().is_terminal);
    let game = game.make_move(game.position.legal_moves()[0]);
    assert_eq!(game.position.no_capture_plies, 100);
    assert!(game.status().is_terminal);
    assert_eq!(game.status().reason, Some(GameStatusReason::FiftyMove));
    assert_eq!(game.status().winner, None);
}

#[test]
fn no_move_and_no_check_is_stalemate() {
    let pos = Position::from_fen("3k5/8R/9/9/9/9/9/4R4/9/4K4 b").unwrap();
    let status = pos.status();
    assert_eq!(status.reason, Some(GameStatusReason::Stalemate));
    assert_eq!(status.winner, Some(Color::Red));
}

#[test]
fn a_position_read_from_text_is_read_back_whole() {
    let loose = Position::from_fen("4k4/9/11c41c/9/9/9/9/9/4A4/4K4 b").unwrap();
    let kept = "4k4/9/2c5c/9/9/9/9/9/4A4/4K4 b";
    assert_eq!(loose.to_fen(), kept);
    let again = Position::from_fen(kept).unwrap();
    assert_eq!(again.to_fen(), kept);
    assert_eq!(again, loose);
    assert_eq!(again.king_square(Color::Red), Some((4, 9)));
    assert_eq!(again.king_square(Color::Black), Some((4, 0)));
}

#[test]
fn the_mask_holds_as_many_actions_as_there_are_moves() {
    for fen in [
        "4k4/9/9/9/9/9/4P4/4H4/9/4K4 r",
        "3k5/9/9/9/9/9/9/4r4/9/3RK4 b",
        "4k4/9/9/9/9/9/9/9/3A5/4K4 r",
    ] {
        let pos = Position::from_fen(fen).unwrap();
        let moves = pos.legal_moves();
        let mask = pos.legal_move_mask();
        assert_eq!(mask.iter().filter(|&&b| b).count(), moves.len());
        for id in 0..ACTION_SPACE_SIZE {
            assert_eq!(mask[id], moves.contains(&action_id_to_move(id)));
        }
    }
}

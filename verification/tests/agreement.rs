use std::collections::BTreeSet;

use xiangqi::engine::game::GameState as MutableGame;
use xiangqi::engine::types as mutable;
use xiangqi::kernel::game::GameState;
use xiangqi::kernel::position::Position;
use xiangqi::kernel::types::{Color, GameStatusReason, Move, PieceKind};

fn moves_of(game: &mut MutableGame) -> BTreeSet<(i32, i32, i32, i32)> {
    game.legal_moves()
        .into_iter()
        .map(|m| (m.from.x as i32, m.from.y as i32, m.to.x as i32, m.to.y as i32))
        .collect()
}

fn moves_in(state: &GameState) -> BTreeSet<(i32, i32, i32, i32)> {
    state.position.legal_moves().into_iter().map(|m| (m.sx, m.sy, m.tx, m.ty)).collect()
}

#[test]
fn both_boards_allow_the_same_moves_throughout_a_game() {
    let mut mutable_game = MutableGame::start_pos();
    let mut state = GameState::from_position(Position::starting());
    let mut seed = 12345u64;
    for _ in 0..80 {
        let here = moves_in(&state);
        assert_eq!(moves_of(&mut mutable_game), here);
        assert_eq!(mutable_game.status.is_terminal, state.status().is_terminal);
        assert_eq!(mutable_game.status.winner, state.status().winner);
        if here.is_empty() || state.status().is_terminal {
            break;
        }
        seed = seed.wrapping_mul(6364136223846793005).wrapping_add(1442695040888963407);
        let &(a, b, c, d) = here.iter().nth((seed >> 33) as usize % here.len()).unwrap();
        state = state.make_move(Move::new(a, b, c, d));
        mutable_game.make_move(mutable::Move::new(
            mutable::Position::new(a as i8, b as i8),
            mutable::Position::new(c as i8, d as i8),
        ));
        for color in [Color::Red, Color::Black] {
            let (x, y) = state.position.king_square(color).unwrap();
            assert!((3..=5).contains(&x));
            assert!(if color == Color::Red { y >= 7 } else { y <= 2 });
        }
    }
}

#[test]
fn every_legal_move_leaves_its_king_safe() {
    let pos = Position::from_fen("4k4/4r4/9/9/9/9/9/4R4/9/4K4 r").unwrap();
    for mv in pos.legal_moves() {
        assert!(!pos.make_move(mv).is_in_check(Color::Red));
    }
    assert!(pos.make_move(Move::new(4, 7, 4, 1)).is_in_check(Color::Black));
}

#[test]
fn the_verdict_on_a_cycle_does_not_depend_on_the_colour() {
    let mirrored = |m: Move| Move::new(m.sx, 9 - m.sy, m.tx, 9 - m.ty);
    let cycle = [
        Move::new(3, 2, 4, 2),
        Move::new(4, 0, 3, 0),
        Move::new(4, 2, 3, 2),
        Move::new(3, 0, 4, 0),
    ];
    let mut red = GameState::from_position(
        Position::from_fen("4k4/9/3R5/9/9/9/9/9/4A4/4K4 r").unwrap(),
    );
    let mut black = GameState::from_position(
        Position::from_fen("4k4/4a4/9/9/9/9/9/3r5/9/4K4 b").unwrap(),
    );
    for _ in 0..2 {
        for m in cycle {
            red = red.make_move(m);
            black = black.make_move(mirrored(m));
        }
    }
    assert_eq!(red.status().reason, Some(GameStatusReason::PerpetualCheck));
    assert_eq!(black.status().reason, Some(GameStatusReason::PerpetualCheck));
    assert_eq!(red.status().winner, Some(Color::Black));
    assert_eq!(black.status().winner, Some(Color::Red));
}

#[test]
fn pieces_keep_their_identity() {
    let start = Position::starting();
    let mut state = GameState::from_position(Position::starting());
    for m in [Move::new(7, 7, 4, 7), Move::new(7, 0, 6, 2), Move::new(4, 7, 4, 3)] {
        state = state.make_move(m);
    }
    let cannon = state.position.piece_at(4, 3).unwrap();
    assert_eq!(cannon.kind, PieceKind::Cannon);
    assert_eq!(cannon.piece_id, start.piece_at(7, 7).unwrap().piece_id);
    let taken = start.piece_at(4, 3).unwrap().piece_id;
    assert!(!state.position.piece_positions.contains_key(&taken));
    assert_eq!(state.position.piece_positions.len(), 31);
}

#[test]
fn equal_keys_mean_equal_boards_and_sides() {
    let a = Position::from_fen("4k4/9/9/9/9/9/9/9/9/4K4 r").unwrap();
    let b = Position::from_fen("4k4/9/9/9/9/9/9/9/9/4K4 b").unwrap();
    let c = Position::from_fen("4k4/9/9/9/9/9/9/9/9/3K5 r").unwrap();
    assert_ne!(a.repetition_key(), b.repetition_key());
    assert_ne!(a.repetition_key(), c.repetition_key());
}

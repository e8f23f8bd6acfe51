use xiangqi::kernel::constants::INPUT_CHANNELS;
use xiangqi::kernel::encode::{
    canonical_move, canonical_square, encode, from_canonical_action, legal_mask, to_canonical_action,
};
use xiangqi::kernel::game::GameState;
use xiangqi::kernel::position::Position;
use xiangqi::kernel::selfplay::quantize_state;
use xiangqi::kernel::types::{move_to_action_id, Color, Move};

const PLANE_SIZE: usize = 10 * 9;
const PLANES_PER_FRAME: usize = 14;

fn tensor(state: &GameState) -> Vec<f32> {
    encode(state).into_iter().map(|h| h as f32 / 100.0).collect()
}

#[test]
fn encode_has_expected_shape() {
    let state = GameState::from_position(Position::starting());
    assert_eq!(encode(&state).len(), INPUT_CHANNELS * PLANE_SIZE);
}

#[test]
fn starting_frame0_has_one_cell_per_piece() {
    let state = GameState::from_position(Position::starting());
    let tensor = tensor(&state);
    let frame0_sum: f32 = tensor[..PLANES_PER_FRAME * PLANE_SIZE].iter().sum();
    assert_eq!(frame0_sum as i32, 32);
}

#[test]
fn starting_kings_on_expected_planes() {
    let state = GameState::from_position(Position::starting());
    let tensor = tensor(&state);
    assert_eq!(tensor[9 * 9 + 4], 1.0);
    assert_eq!(tensor[7 * PLANE_SIZE + 4], 1.0);
}

#[test]
fn canonical_action_round_trips_both_perspectives() {
    let pos = Position::starting();
    for mv in pos.legal_moves() {
        for perspective in [Color::Red, Color::Black] {
            let action = to_canonical_action(mv, perspective);
            assert_eq!(from_canonical_action(action, perspective), mv);
        }
    }
}

#[test]
fn red_perspective_action_equals_raw_action_id() {
    let pos = Position::starting();
    for mv in pos.legal_moves() {
        assert_eq!(to_canonical_action(mv, Color::Red), move_to_action_id(mv));
    }
}

#[test]
fn quantize_binary_and_ratio() {
    assert_eq!(quantize_state(&[100, 0]), vec![255, 0]);
    assert_eq!(quantize_state(&[50]), vec![128]);
}

#[test]
fn black_sees_the_board_turned_round() {
    let (x, y) = canonical_square(1, 2, Color::Black);
    assert_eq!(canonical_square(x, y, Color::Black), (1, 2));
    assert_eq!(canonical_square(1, 2, Color::Red), (1, 2));
    assert_eq!(y, 7);
    let mv = Move::new(0, 9, 0, 8);
    assert_eq!(canonical_move(canonical_move(mv, Color::Black), Color::Black), mv);
}

#[test]
fn the_mask_marks_the_legal_moves() {
    let pos = Position::starting();
    let mask = legal_mask(&pos);
    assert_eq!(mask.iter().filter(|&&b| b).count(), 44);
    for mv in pos.legal_moves() {
        assert!(mask[to_canonical_action(mv, Color::Red)]);
    }
}

#[test]
fn the_quiet_plies_fill_the_last_plane() {
    let mut state = GameState::from_position(Position::starting());
    for mv in [Move::new(1, 9, 2, 7), Move::new(1, 0, 2, 2), Move::new(2, 7, 1, 9)] {
        state = state.make_move(mv);
    }
    let cells = encode(&state);
    assert!(cells[98 * PLANE_SIZE..].iter().all(|&h| h == 3));
}

#[test]
fn the_mask_of_black_is_turned_round() {
    let pos = Position::starting().make_move(Move::new(1, 9, 2, 7));
    let moves = pos.legal_moves();
    let mask = legal_mask(&pos);
    assert_eq!(mask.iter().filter(|&&b| b).count(), moves.len());
    for id in 0..mask.len() {
        assert_eq!(mask[id], moves.contains(&from_canonical_action(id, Color::Black)));
    }
    assert!(mask[move_to_action_id(Move::new(1, 9, 2, 7))]);
}

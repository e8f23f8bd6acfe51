use xiangqi::engine::constants::{
    ACTION_SPACE_SIZE, BOARD_HEIGHT, BOARD_WIDTH, N_HISTORY, PLANES_PER_FRAME,
};
use xiangqi::engine::encode::{
    action_id_to_move, encode_state, move_to_action_id, PIECES_SIZE, STATE_F32_SIZE,
};
use xiangqi::engine::game::GameState;
use xiangqi::engine::types::{Color, Move, Position};

#[test]
fn test_action_id_roundtrip_red() {
    let from = Position::new(4, 9);
    let to = Position::new(4, 8);
    let mv = Move::new(from, to);

    let aid = move_to_action_id(mv, Color::Red);
    let decoded = action_id_to_move(aid, Color::Red);

    assert_eq!(decoded.from, mv.from);
    assert_eq!(decoded.to, mv.to);
}

#[test]
fn test_action_id_roundtrip_black() {
    let from = Position::new(4, 0);
    let to = Position::new(4, 1);
    let mv = Move::new(from, to);

    let aid = move_to_action_id(mv, Color::Black);
    let decoded = action_id_to_move(aid, Color::Black);

    assert_eq!(decoded.from, mv.from);
    assert_eq!(decoded.to, mv.to);
}

#[test]
fn test_action_id_roundtrip_all_legal_moves() {
    let mut game = GameState::start_pos();
    let side = game.board.side_to_move;
    let moves = game.legal_moves();

    for mv in &moves {
        let aid = move_to_action_id(*mv, side);
        assert!(aid >= 0 && (aid as usize) < ACTION_SPACE_SIZE);
        let decoded = action_id_to_move(aid, side);
        assert_eq!(decoded.from, mv.from, "from mismatch for {:?}", mv);
        assert_eq!(decoded.to, mv.to, "to mismatch for {:?}", mv);
    }
}

#[test]
fn test_action_id_black_flip() {
    let from = Position::new(4, 0);
    let to = Position::new(4, 1);
    let mv = Move::new(from, to);

    let aid_red = move_to_action_id(mv, Color::Red);
    let aid_black = move_to_action_id(mv, Color::Black);
    assert_ne!(aid_red, aid_black, "same physical move should differ by side");
}

#[test]
fn test_encode_start_pos() {
    let game = GameState::start_pos();
    let encoded = encode_state(&game);

    assert_eq!(encoded.pieces.len(), PIECES_SIZE);
    assert_eq!(encoded.no_capture_plies, 0);

    let tensor: Vec<f32> = encoded.to_hundredths().iter().map(|&h| h as f32 / 100.0).collect();
    assert_eq!(tensor.len(), STATE_F32_SIZE);

    let ch98_start = 98 * (BOARD_HEIGHT as usize * BOARD_WIDTH as usize);
    for i in ch98_start..tensor.len() {
        assert_eq!(tensor[i], 0.0, "channel 98 should be 0 at start");
    }

    let has_pieces = encoded.pieces.iter().any(|&b| b != 0);
    assert!(has_pieces, "start position should have piece data");
}

#[test]
fn test_encode_state_has_pieces_in_latest_frame() {
    let game = GameState::start_pos();
    let encoded = encode_state(&game);

    let hw = BOARD_HEIGHT as usize * BOARD_WIDTH as usize;
    let frame_start = (N_HISTORY - 1) * (PLANES_PER_FRAME / 2) * hw;
    let frame_end = N_HISTORY * (PLANES_PER_FRAME / 2) * hw;

    let has_active_pieces = encoded.pieces[frame_start..frame_end].iter().any(|&b| b != 0);
    assert!(has_active_pieces, "latest frame should have active pieces");
}

#[test]
fn test_history_padding() {
    let mut game = GameState::start_pos();
    let moves = game.legal_moves();
    game.make_move(moves[0]);

    let encoded = encode_state(&game);

    let hw = BOARD_HEIGHT as usize * BOARD_WIDTH as usize;
    let piece_kinds = PLANES_PER_FRAME / 2;
    let empty_frames = N_HISTORY - 2;
    let empty_end = empty_frames * piece_kinds * hw;
    for &b in &encoded.pieces[..empty_end] {
        assert_eq!(b, 0, "early padded frames should be all zeros");
    }
}

#[test]
fn action_numbers_count_squares_as_seen() {
    let mv = Move::new(Position::new(4, 9), Position::new(4, 8));
    assert_eq!(move_to_action_id(mv, Color::Red), (9 * 9 + 4) * 90 + 8 * 9 + 4);
    let mirrored = Move::new(Position::new(4, 0), Position::new(4, 1));
    assert_eq!(move_to_action_id(mirrored, Color::Black), (9 * 9 + 4) * 90 + 8 * 9 + 4);
}

#[test]
fn the_latest_frame_shows_each_man_once() {
    let mut game = GameState::start_pos();
    game.make_move(Move::new(Position::new(7, 7), Position::new(4, 7)));
    let encoded = encode_state(&game);
    let own: u32 = encoded.pieces[42 * 90..49 * 90].iter().map(|&b| b as u32).sum();
    let other: u32 = encoded.pieces[91 * 90..98 * 90].iter().map(|&b| b as u32).sum();
    assert_eq!((own, other), (16, 16));
    let red_cannons = &encoded.pieces[(91 + 5) * 90..(91 + 6) * 90];
    let seen: usize = red_cannons.iter().filter(|&&b| b == 1).count();
    assert_eq!(seen, 2);
    assert_eq!(encoded.no_capture_plies, 1);
    assert_eq!(encoded.to_hundredths()[8820], 1);
}

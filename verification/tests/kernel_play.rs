use xiangqi::kernel::config::{
    apply_overrides, DataGenConfig, MctsConfig, NetworkConfig, Overrides, RunConfig, StopConditions,
    TrainConfig,
};
use xiangqi::kernel::play::{
    board_to_view, color_name, most_visited, move_text, piece_name, terminal_text, view_to_board,
    AiResult, PlayGui,
};
use xiangqi::kernel::run_config;
use xiangqi::kernel::types::{Color, GameStatus, GameStatusReason, Move, Piece, PieceKind};

fn no_overrides() -> Overrides {
    Overrides {
        workers: None,
        games_per_worker: None,
        n_simulations: None,
        eval_batch_size: None,
        inference_timeout_ms: None,
        total_samples: None,
        shard_games: None,
        device: None,
    }
}

fn settings() -> RunConfig {
    RunConfig {
        profile: "local".to_string(),
        device: "cpu".to_string(),
        total_samples: 2000,
        network: NetworkConfig {
            hidden_channels: 1,
            residual_blocks: 2,
            policy_head_channels: 3,
            value_head_channels: 4,
            value_fc_hidden: 5,
        },
        mcts: MctsConfig {
            n_simulations: 50,
            c_puct: 1.5f64.to_bits(),
            dirichlet_alpha: 0.3f64.to_bits(),
            dirichlet_epsilon: 0.25f64.to_bits(),
            temperature_moves: 20,
        },
        train: TrainConfig {
            batch_size: 1,
            learning_rate: 0,
            weight_decay: 0,
            grad_clip_norm: 0,
            buffer_capacity: 2,
            min_buffer_size: 3,
            target_reuse: 0,
            steps_per_iteration: 4,
            weight_sync_interval: 5,
        },
        datagen: DataGenConfig {
            samples_dir: "s".to_string(),
            model_dir: "m".to_string(),
            num_workers: 2,
            games_per_worker: 1,
            eval_batch_size: 8,
            inference_timeout_ms: 2.0f64.to_bits(),
            shard_games: 4,
            max_pending_shards: 6,
            model_export_interval: 7,
            keep_recent_models: 8,
            checkpoint_every: 9,
            keep_checkpoints: 10,
        },
    }
}

#[test]
fn given_options_replace_settings_and_others_stay() {
    let mut rc = settings();
    apply_overrides(&mut rc, &no_overrides());
    assert_eq!((rc.datagen.num_workers, rc.mcts.n_simulations), (2, 50));
    let given = Overrides {
        workers: Some(9),
        games_per_worker: Some(3),
        n_simulations: Some(7),
        eval_batch_size: Some(256),
        inference_timeout_ms: Some(1.0f64.to_bits()),
        total_samples: Some(11),
        shard_games: Some(12),
        device: Some("cuda".to_string()),
    };
    apply_overrides(&mut rc, &given);
    assert_eq!(rc.datagen.num_workers, 9);
    assert_eq!(rc.datagen.games_per_worker, 3);
    assert_eq!(rc.mcts.n_simulations, 7);
    assert_eq!(rc.datagen.eval_batch_size, 256);
    assert_eq!(f64::from_bits(rc.datagen.inference_timeout_ms), 1.0);
    assert_eq!(rc.total_samples, 11);
    assert_eq!(rc.datagen.shard_games, 12);
    assert_eq!(rc.device, "cuda");
    assert_eq!(rc.datagen.max_pending_shards, 6);
    assert_eq!(rc.profile, "local");
}

#[test]
fn a_run_stops_at_its_deadline_or_after_enough_games() {
    let never = StopConditions::from_cli(None, None, 5);
    assert!(!never.should_stop(u64::MAX, i64::MAX));
    let timed = StopConditions::from_cli(Some(2), None, 1000);
    assert!(!timed.should_stop(2999, 100));
    assert!(timed.should_stop(3000, 0));
    let counted = StopConditions::from_cli(None, Some(3), 0);
    assert!(!counted.should_stop(9, 2));
    assert!(counted.should_stop(9, 3));
    let largest = StopConditions::from_cli(None, Some(i64::MAX as u64), 0);
    assert_eq!(largest.max_games, Some(i64::MAX));
    let endless = StopConditions::from_cli(None, Some(u64::MAX), 0);
    assert_eq!(endless.max_games, Some(i64::MAX));
    assert!(!endless.should_stop(9, 1_000_000));
}

#[test]
fn settings_must_repeat_the_constants_of_the_rules() {
    let good = run_config::RunConfig {
        board: run_config::BoardConfig {
            width: 9,
            height: 10,
            square_count: 90,
            action_space_size: 8100,
        },
        rules: run_config::RulesConfig { max_total_plies: 300, no_capture_draw_plies: 100 },
        encoding: run_config::EncodingConfig {
            n_history: 7,
            planes_per_frame: 14,
            input_channels: 99,
        },
    };
    assert!(good.verify_constants().is_ok());
    let mut wide = good;
    wide.board.width = 8;
    assert_eq!(
        wide.verify_constants().unwrap_err(),
        "run-config 常量 board.width=8 与 engine const=9 不一致，请重新导出 run-config 或对齐两侧"
    );
    let mut long = good;
    long.rules.max_total_plies = 400;
    assert_eq!(
        long.verify_constants().unwrap_err(),
        "run-config 常量 rules.max_total_plies=400 与 engine const=300 不一致，请重新导出 run-config 或对齐两侧"
    );
    let mut deep = good;
    deep.encoding.input_channels = 98;
    assert!(deep.verify_constants().unwrap_err().contains("encoding.input_channels=98"));
}

#[test]
fn names_and_texts() {
    let king = Piece { piece_id: 1, color: Color::Red, kind: PieceKind::King };
    assert_eq!(piece_name(king), "帅");
    let pawn = Piece { piece_id: 2, color: Color::Black, kind: PieceKind::Pawn };
    assert_eq!(piece_name(pawn), "卒");
    assert_eq!(color_name(Color::Red), "红");
    assert_eq!(move_text(Move::new(1, 9, 2, 7)), "(1,9) -> (2,7)");
    let lost = GameStatus::terminal(GameStatusReason::Checkmate, Some(Color::Black));
    assert_eq!(terminal_text(lost, Color::Red), "终局：黑胜。");
    assert_eq!(terminal_text(lost, Color::Black), "终局：你赢了。");
    let drawn = GameStatus::terminal(GameStatusReason::FiftyMove, None);
    assert_eq!(terminal_text(drawn, Color::Red), "终局：和棋。");
}

#[test]
fn the_view_turns_the_board_for_black() {
    assert_eq!(board_to_view(1, 2, true), (1, 2));
    assert_eq!(board_to_view(1, 2, false), (7, 7));
    assert_eq!(view_to_board(7, 7, false), Some((1, 2)));
    assert_eq!(view_to_board(9, 0, true), None);
    assert_eq!(view_to_board(0, -1, false), None);
}

#[test]
fn the_last_of_equal_counts_is_most_visited() {
    let a = Move::new(0, 0, 0, 1);
    let b = Move::new(0, 1, 0, 2);
    assert_eq!(most_visited(&vec![(a, 2), (b, 2)]), Some((b, 2)));
    assert_eq!(most_visited(&vec![]), None);
}

#[test]
fn a_click_selects_and_a_second_one_moves() {
    let mut gui = PlayGui::new(10, "cpu".to_string());
    assert_eq!(gui.status, "你执红先行。");
    assert!(!gui.handle_square_click(4, 4));
    assert_eq!(gui.status, "请选择自己的棋子。");
    assert!(!gui.handle_square_click(1, 9));
    assert_eq!(gui.selected, Some((1, 9)));
    assert_eq!(gui.status, "已选择 红 马");
    let mut targets = gui.legal_targets.clone();
    targets.sort();
    assert_eq!(targets, vec![(0, 7), (2, 7)]);
    assert!(gui.handle_square_click(2, 7), "the search is to start");
    assert!(gui.ai_thinking);
    assert_eq!(gui.status, "AI 思考中：10 sims，device=cpu ...");
    assert!(!gui.handle_square_click(0, 9), "no moves while the search thinks");
    gui.poll_ai(AiResult {
        mv: Some(Move::new(1, 0, 2, 2)),
        model_version: Some(7),
        visits: 5,
        error: None,
    });
    assert!(!gui.ai_thinking);
    assert_eq!(gui.status, "AI: (1,0) -> (2,2)，访问 5，模型 v7。");
    assert_eq!(gui.last_ai_move, Some(Move::new(1, 0, 2, 2)));
    assert_eq!(gui.state.position.side_to_move, Color::Red);
}

#[test]
fn a_bad_answer_changes_no_position() {
    let mut gui = PlayGui::new(10, "cpu".to_string());
    assert!(gui.reset(Color::Black));
    let fen = gui.state.position.to_fen();
    gui.poll_ai(AiResult {
        mv: Some(Move::new(0, 0, 5, 5)),
        model_version: None,
        visits: 0,
        error: None,
    });
    assert_eq!(gui.status, "AI 返回非法走法：(0,0) -> (5,5)");
    assert!(gui.maybe_start_ai());
    gui.poll_ai(AiResult {
        mv: None,
        model_version: None,
        visits: 0,
        error: Some("x".to_string()),
    });
    assert_eq!(gui.status, "AI 出错：x");
    assert!(gui.maybe_start_ai());
    gui.poll_ai(AiResult { mv: None, model_version: None, visits: 0, error: None });
    assert_eq!(gui.status, "AI 无合法走法。");
    assert_eq!(gui.state.position.to_fen(), fen);
}

use std::collections::HashSet;

use rand::rngs::StdRng;
use rand::{Rng, SeedableRng};

use xiangqi::kernel::arena::{
    attempt_seed, generate, play_one, replay, run_match, tally_game, MatchTally, Outcome,
};
use xiangqi::kernel::game::GameState;
use xiangqi::kernel::infer::{
    choose_model, make_eval_input, scatter_results, uniform_reply, Batch, InferRequest, ModelChoice,
    UniformBatch, UniformEvaluator,
};
use xiangqi::kernel::mcts::{Mcts, MctsConfig, StepResult};
use xiangqi::kernel::pipeline::{should_finish, Worker};
use xiangqi::kernel::position::Position;
use xiangqi::kernel::selfplay::{choose_move, count_total, play_game, select_move};
use xiangqi::kernel::tree::Node;
use xiangqi::kernel::types::{Color, Move};

fn select(node: &Node) -> usize {
    let total: u32 = node.edges.iter().map(|e| e.n).sum();
    let explore = 1.5 * ((1 + total) as f64).sqrt();
    let mut best_index = 0usize;
    let mut best_score = f64::NEG_INFINITY;
    for (i, edge) in node.edges.iter().enumerate() {
        let q = if edge.n > 0 { f64::from_bits(edge.w) / edge.n as f64 } else { 0.0 };
        let score = q + explore * f64::from_bits(edge.prior) / (1.0 + edge.n as f64);
        if score > best_score {
            best_score = score;
            best_index = i;
        }
    }
    best_index
}

fn charge(w: u64, _sign: i32, unit: u64) -> u64 {
    (f64::from_bits(w) - f64::from_bits(unit)).to_bits()
}

fn credit(w: u64, sign: i32, unit: u64) -> u64 {
    (f64::from_bits(w) + sign as f64 * f64::from_bits(unit)).to_bits()
}

fn credit_back(w: u64, sign: i32, unit: u64) -> u64 {
    (f64::from_bits(w) + 1.0 + sign as f64 * f64::from_bits(unit)).to_bits()
}

fn share(n: usize) -> u64 {
    (1.0 / n as f64).to_bits()
}

fn uniform(state: &GameState) -> (Vec<(Move, u64)>, u64) {
    let moves = state.position.legal_moves();
    let n = moves.len();
    (moves.into_iter().map(|m| (m, share(n))).collect(), 0)
}

fn same_priors(node: &Node) -> Vec<u64> {
    node.edges.iter().map(|e| e.prior).collect()
}

fn ratio(n: u32, d: u32) -> u32 {
    (n as f32 / d as f32).to_bits()
}

fn config(n_simulations: u32) -> MctsConfig {
    MctsConfig { n_simulations, collect_batch_size: 1 }
}

fn search(mcts: &mut Mcts, state: GameState) -> Vec<(Move, u32)> {
    mcts.run(state, &select, &charge, &credit_back, &uniform, false, &same_priors)
}

fn start() -> GameState {
    GameState::from_position(Position::starting())
}

#[test]
fn visit_counts_sum_to_simulations() {
    let mut mcts = Mcts::new(config(64));
    let counts = search(&mut mcts, start());
    let total: u32 = counts.iter().map(|(_, n)| *n).sum();
    assert_eq!(total, 64);
}

#[test]
fn returns_one_entry_per_legal_move_and_all_legal() {
    let state = start();
    let legal = state.position.legal_moves();
    let mut mcts = Mcts::new(config(32));
    let counts = search(&mut mcts, state);

    assert_eq!(counts.len(), legal.len());
    for (mv, _) in &counts {
        assert!(legal.contains(mv));
    }
}

#[test]
fn terminal_root_returns_empty() {
    let state =
        GameState::from_position(Position::from_fen("3k5/4R4/3R5/9/9/9/9/9/9/4K4 b").unwrap());
    let mut mcts = Mcts::new(config(16));
    assert!(search(&mut mcts, state).is_empty());
}

fn openings(num: usize, plies: u32, temperature: f64, sims: u32, seed: u64) -> Vec<Vec<Move>> {
    let sample = |counts: &Vec<(Move, u32)>, attempt: u64, ply: u32| -> usize {
        let mut rng = StdRng::seed_from_u64(attempt_seed(seed, attempt));
        let mut draw = rng.gen::<f64>();
        for _ in 0..ply {
            draw = rng.gen::<f64>();
        }
        let weights: Vec<f64> =
            counts.iter().map(|(_, n)| (*n as f64).powf(1.0 / temperature)).collect();
        let total: f64 = weights.iter().sum();
        let mut r = draw * total;
        for (i, w) in weights.iter().enumerate() {
            r -= w;
            if r <= 0.0 {
                return i;
            }
        }
        counts.len() - 1
    };
    generate(
        num,
        plies,
        config(sims),
        &select,
        &charge,
        &credit_back,
        &uniform,
        &same_priors,
        &sample,
    )
}

#[test]
fn openings_are_deterministic_and_unique() {
    let a = openings(5, 4, 1.2, 8, 42);
    let b = openings(5, 4, 1.2, 8, 42);
    assert_eq!(a, b, "the same seed gives the same openings");
    assert!(a.len() == 5, "five openings are made");

    let mut seen = HashSet::new();
    for line in &a {
        assert!(seen.insert(line.clone()), "openings differ");
    }
}

fn self_match(openings: &Vec<Vec<Move>>) -> MatchTally {
    run_match(
        openings,
        config(8),
        40,
        &select,
        &charge,
        &credit_back,
        &uniform,
        &uniform,
        &same_priors,
    )
    .unwrap()
}

#[test]
fn uniform_self_match_is_symmetric_and_reproducible() {
    let openings = openings(4, 4, 1.2, 8, 7);

    let r1 = self_match(&openings);
    assert_eq!(r1.wins_a, r1.losses_a);
    let score_a = (r1.wins_a as f64 + 0.5 * r1.draws as f64) / r1.games as f64;
    assert!((score_a - 0.5).abs() < 1e-9);
    assert_eq!(r1.games, openings.len() as u32 * 2);

    let r2 = self_match(&openings);
    assert_eq!(
        (r1.wins_a, r1.draws, r1.losses_a),
        (r2.wins_a, r2.draws, r2.losses_a),
        "a second run gives the same result"
    );
}

#[test]
fn attempts_have_seeds_of_their_own() {
    assert_eq!(attempt_seed(42, 0), 42);
    assert_eq!(attempt_seed(0, 1), 0x9e37_79b9_7f4a_7c15);
    assert_eq!(attempt_seed(7, 3), 7 ^ 3u64.wrapping_mul(0x9e37_79b9_7f4a_7c15));
}

#[test]
fn an_unplayable_opening_is_refused() {
    assert!(replay(&vec![Move::new(0, 0, 5, 5)]).is_none());
    let line = vec![Move::new(1, 9, 2, 7)];
    assert_eq!(replay(&line).unwrap().history.len(), 1);
    let outcome = play_one(
        &vec![Move::new(0, 0, 5, 5)],
        config(2),
        10,
        &select,
        &charge,
        &credit_back,
        &uniform,
        &uniform,
        &same_priors,
    );
    assert!(outcome.is_none());
}

#[test]
fn wins_are_counted_for_the_side_that_played() {
    let zero = MatchTally { games: 0, wins_a: 0, draws: 0, losses_a: 0 };
    let t = tally_game(zero, Outcome::RedWin, true);
    let t = tally_game(t, Outcome::RedWin, false);
    let t = tally_game(t, Outcome::BlackWin, false);
    let t = tally_game(t, Outcome::Draw, true);
    assert_eq!((t.games, t.wins_a, t.draws, t.losses_a), (4, 2, 1, 1));
}

#[test]
fn a_wider_wave_makes_as_many_simulations() {
    let mut mcts = Mcts::new(MctsConfig { n_simulations: 50, collect_batch_size: 8 });
    let counts = search(&mut mcts, start());
    assert_eq!(count_total(&counts), 50);
    assert_eq!(mcts.simulations_done(), 50);
}

#[test]
fn the_tree_below_a_move_is_kept() {
    let mut mcts = Mcts::new(config(200));
    let state = start();
    let counts = search(&mut mcts, state.clone());
    let &(mv, n) = counts.iter().max_by_key(|(_, n)| *n).unwrap();
    assert!(n > 1);
    mcts.advance(mv);
    let kept: u32 = mcts.visit_counts().iter().map(|(_, n)| *n).sum();
    assert_eq!(kept, n - 1);
    let next = search(&mut mcts, state.make_move(mv));
    assert_eq!(count_total(&next), n - 1 + 200);
    mcts.reset();
    assert!(mcts.visit_counts().is_empty());
}

#[test]
fn steps_wait_for_evaluations() {
    let mut mcts = Mcts::new(config(3));
    let state = start();
    assert!(mcts.init_root(state));
    let (priors, _) = uniform(mcts.root_state());
    mcts.feed_root_eval(priors);
    for _ in 0..3 {
        let reply = match mcts.step(&select, &credit, false, &same_priors) {
            StepResult::NeedEval { state } => Some(uniform(state)),
            StepResult::Done => None,
        };
        if let Some((priors, value)) = reply {
            mcts.feed_eval(priors, value, &credit);
        }
    }
    assert_eq!(mcts.simulations_done(), 3);
    assert_eq!(count_total(&mcts.visit_counts()), 3);
}

#[test]
fn moves_are_drawn_by_counts_at_first_and_then_the_best() {
    let a = Move::new(0, 0, 0, 1);
    let b = Move::new(1, 0, 1, 1);
    let counts = vec![(a, 3), (b, 5)];
    assert_eq!(choose_move(&counts, 0, 10, 2), a);
    assert_eq!(choose_move(&counts, 0, 10, 3), b);
    assert_eq!(choose_move(&counts, 0, 10, 7), b);
    assert_eq!(choose_move(&counts, 10, 10, 0), b);
    let mut rng = StdRng::seed_from_u64(5);
    let mut seen = HashSet::new();
    for _ in 0..100 {
        seen.insert(select_move(&counts, 0, 10, &mut rng));
    }
    assert_eq!(seen.len(), 2, "both moves are drawn");
    assert_eq!(select_move(&counts, 10, 10, &mut rng), b);
}

#[test]
fn a_game_against_itself_gives_samples() {
    let mut mcts = Mcts::new(config(4));
    let mut rng = StdRng::seed_from_u64(9);
    let samples = play_game(
        &mut mcts,
        &select,
        &charge,
        &credit_back,
        &uniform,
        false,
        &same_priors,
        &ratio,
        10,
        30,
        &mut rng,
    );
    assert!(!samples.is_empty() && samples.len() <= 30);
    for s in &samples {
        assert_eq!(s.state.len(), 8910);
        let sum: f32 = s.pi_val.iter().map(|&v| f32::from_bits(v)).sum();
        assert!((sum - 1.0).abs() < 1e-4);
    }
}

#[test]
fn even_priors_are_given_to_all_moves() {
    let state = start();
    let (priors, value) = UniformEvaluator.evaluate(&state, &share);
    assert_eq!(priors.len(), 44);
    assert_eq!(value, 0);
    assert!(priors.iter().all(|&(_, p)| f64::from_bits(p) == 1.0 / 44.0));
    let (none, _) = uniform_reply(&Vec::new(), &share);
    assert!(none.is_empty());
}

#[test]
fn every_request_of_a_batch_is_answered() {
    let state = start();
    let mut batch: Batch<char, &str> = Batch::new();
    batch.extend_infer_msg(InferRequest::One { input: make_eval_input(&state), reply: 'a' });
    batch.extend_infer_msg(InferRequest::WorkerBatch {
        inputs: vec![make_eval_input(&state), make_eval_input(&state)],
        replies: "b",
    });
    assert!(batch.wants_more(4, true));
    assert!(!batch.wants_more(4, false));
    assert!(!batch.wants_more(3, true));
    let replies = UniformBatch.evaluate_batch(&batch.inputs, &share);
    assert_eq!(replies.len(), 3);
    let (ones, groups) = scatter_results(replies, batch.ones, batch.batches);
    assert_eq!(ones.len(), 1);
    assert_eq!(ones[0].0, 'a');
    assert_eq!(groups.len(), 1);
    assert_eq!(groups[0].0, "b");
    assert_eq!(groups[0].1.len(), 2);
}

#[test]
fn without_a_model_evaluation_is_uniform() {
    match choose_model(None, None) {
        ModelChoice::Uniform(v) => assert_eq!(v, 0),
        _ => panic!("no model"),
    }
    match choose_model(Some(3), Some((4, "m.pt".to_string()))) {
        ModelChoice::Load(v, p) => assert_eq!((v, p.as_str()), (4, "m.pt")),
        _ => panic!("a model"),
    }
}

#[test]
fn a_worker_fills_shards_with_whole_games() {
    let mut worker = Worker::new(2, config(2));
    let mut rng = StdRng::seed_from_u64(3);
    let mut shards = Vec::new();
    for _ in 0..200 {
        let inputs = worker.collect_wave(
            4,
            12,
            &mut rng,
            &select,
            &credit,
            false,
            &same_priors,
            &ratio,
        );
        assert_eq!(inputs.len(), 2);
        let replies = UniformBatch.evaluate_batch(&inputs, &share);
        worker.feed_wave(replies, &credit);
        if let Some(shard) = worker.take_shard(2, 1, 7).unwrap() {
            shards.push(shard);
        }
    }
    assert!(!shards.is_empty());
    assert_eq!(shards[0].0, "shard_000001_w07_000000.st");
    assert!(worker.out.games >= 2);
}

#[test]
fn production_ends_at_the_target_or_on_demand() {
    assert!(should_finish(10, 10, false));
    assert!(!should_finish(9, 10, false));
    assert!(should_finish(0, 10, true));
}

#[test]
fn a_lost_king_is_found_by_search() {
    let state = GameState::from_position(
        Position::from_fen("3k5/9/3R5/9/9/9/9/9/4R4/4K4 r").unwrap(),
    );
    assert_eq!(state.position.side_to_move, Color::Red);
    let mut mcts = Mcts::new(config(400));
    let counts = search(&mut mcts, state.clone());
    let &(mv, _) = counts.iter().max_by_key(|(_, n)| *n).unwrap();
    assert!(state.make_move(mv).status().is_terminal);
}

#[test]
fn an_opening_past_a_repetition_is_played_on() {
    let cycle = [
        Move::new(0, 9, 0, 8),
        Move::new(0, 0, 0, 1),
        Move::new(0, 8, 0, 9),
        Move::new(0, 1, 0, 0),
    ];
    let mut opening: Vec<Move> = Vec::new();
    for _ in 0..3 {
        opening.extend(cycle);
    }
    assert!(replay(&opening[..8].to_vec()).unwrap().status().is_terminal);
    opening.push(Move::new(1, 9, 2, 7));
    let state = replay(&opening).unwrap();
    assert_eq!(state.history.len(), 13);
    let outcome = play_one(
        &opening,
        config(2),
        20,
        &select,
        &charge,
        &credit_back,
        &uniform,
        &uniform,
        &same_priors,
    );
    assert!(outcome.is_some());
}

#[test]
fn only_the_player_to_move_is_asked() {
    let silent = |_: &GameState| -> (Vec<(Move, u64)>, u64) { panic!("not to move") };
    let opening = vec![Move::new(1, 9, 2, 7)];
    let outcome = play_one(
        &opening,
        config(2),
        2,
        &select,
        &charge,
        &credit_back,
        &silent,
        &uniform,
        &same_priors,
    );
    assert_eq!(outcome, Some(Outcome::Draw));
}

#[test]
fn later_plies_compare_counts_of_any_size() {
    let mut rng = StdRng::seed_from_u64(5);
    let (a, b, c) = (Move::new(0, 6, 0, 5), Move::new(2, 6, 2, 5), Move::new(4, 6, 4, 5));
    let counts = vec![(a, u32::MAX - 1), (b, u32::MAX), (c, u32::MAX)];
    assert_eq!(select_move(&counts, 10, 10, &mut rng), b);
    assert_eq!(select_move(&counts, 300, 0, &mut rng), b);
}

#[test]
fn a_search_needs_room_for_the_plies_left_only() {
    let mut late = Position::starting();
    late.fullmove_number = u32::MAX - 301;
    let state = GameState::from_position(late);
    assert_eq!(make_eval_input(&state).moves.len(), 44);
    let counts = search(&mut Mcts::new(config(40)), state);
    assert_eq!(counts.len(), 44);
    assert_eq!(counts.iter().map(|(_, n)| n).sum::<u32>(), 40);

    let mut drawn = Position::starting();
    drawn.no_capture_plies = u32::MAX - 1;
    assert!(search(&mut Mcts::new(config(8)), GameState::from_position(drawn)).is_empty());
}

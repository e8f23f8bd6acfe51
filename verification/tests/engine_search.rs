use xiangqi::engine::constants::ACTION_SPACE_SIZE;
use xiangqi::engine::data::{MINUS_ONE, ONE};
use xiangqi::engine::drive::Driver;
use xiangqi::engine::encode::move_to_action_id;
use xiangqi::engine::game::GameState;
use xiangqi::engine::mcts::{Descent, Edge, Mcts, Node};
use xiangqi::engine::selfplay::{play_one_game, SelfPlay};
use xiangqi::engine::types::{Color, Move, Position};

fn select(node: &Node) -> usize {
    let total: u32 = node.edges.iter().map(|e: &Edge| e.visit_count).sum();
    let sqrt_total = ((1 + total) as f32).sqrt();
    let mut best_idx = 0;
    let mut best_score = f32::NEG_INFINITY;
    for (i, edge) in node.edges.iter().enumerate() {
        let q = if edge.visit_count > 0 {
            f32::from_bits(edge.total_value) / edge.visit_count as f32
        } else {
            0.0
        };
        let u = 1.5 * f32::from_bits(edge.prior) * sqrt_total / (1.0 + edge.visit_count as f32);
        if q + u > best_score {
            best_score = q + u;
            best_idx = i;
        }
    }
    best_idx
}

fn credit(total: u32, sign: i32, unit: u32) -> u32 {
    (f32::from_bits(total) + sign as f32 * f32::from_bits(unit)).to_bits()
}

fn uniform(_game: &GameState, moves: &Vec<Move>) -> (Vec<u32>, u32) {
    let p = if moves.is_empty() { 0.0 } else { 1.0 / moves.len() as f32 };
    (vec![p.to_bits(); moves.len()], 0)
}

fn same_priors(node: &Node) -> Vec<u32> {
    node.edges.iter().map(|e| e.prior).collect()
}

fn ratio(n: u32, d: u32) -> u32 {
    (n as f32 / d as f32).to_bits()
}

fn run(mcts: &mut Mcts) -> Vec<(Move, u32)> {
    mcts.run(&select, &credit, &uniform, false, &same_priors)
}

#[test]
fn test_mcts_visits_increase() {
    let mut mcts = Mcts::new(GameState::start_pos(), 32);
    let visit_counts = run(&mut mcts);

    assert!(!visit_counts.is_empty());
    let total_visits: u32 = visit_counts.iter().map(|(_, c)| *c).sum();
    assert_eq!(total_visits, 32, "total visits should equal num_simulations");
}

#[test]
fn test_mcts_policy_target_legal_only() {
    let mut mcts = Mcts::new(GameState::start_pos(), 32);
    run(&mut mcts);

    let policy: Vec<(u16, f32)> = mcts
        .policy_target(&ratio)
        .into_iter()
        .map(|(aid, p)| (aid, f32::from_bits(p)))
        .collect();
    assert!(!policy.is_empty());

    let prob_sum: f32 = policy.iter().map(|(_, p)| *p).sum();
    assert!(
        (prob_sum - 1.0).abs() < 1e-3,
        "policy probabilities should sum to 1.0, got {prob_sum}"
    );

    for &(aid, prob) in &policy {
        assert!((aid as usize) < ACTION_SPACE_SIZE, "action_id out of range");
        assert!(prob >= 0.0 && prob <= 1.0, "invalid probability {prob}");
    }
}

#[test]
fn test_mcts_best_move() {
    let mut mcts = Mcts::new(GameState::start_pos(), 32);
    let visit_counts = run(&mut mcts);

    let best = Mcts::best_move(&visit_counts);
    let max_visits = visit_counts.iter().map(|(_, c)| *c).max().unwrap();
    let best_visits = visit_counts.iter().find(|(m, _)| *m == best).unwrap().1;
    assert_eq!(best_visits, max_visits);
}

#[test]
fn test_mcts_advance_reuse() {
    let mut mcts = Mcts::new(GameState::start_pos(), 32);
    let visit_counts = run(&mut mcts);
    let best = Mcts::best_move(&visit_counts);

    mcts.advance(best);

    assert_eq!(
        mcts.game().board.side_to_move,
        Color::Black,
        "should be black's turn after red moves"
    );

    let visit_counts2 = run(&mut mcts);
    assert!(!visit_counts2.is_empty());
    let total2: u32 = visit_counts2.iter().map(|(_, c)| *c).sum();
    assert_eq!(total2, 32);
}

#[test]
fn test_full_game_terminates() {
    let mut mcts = Mcts::new(GameState::start_pos(), 8);
    let mut plies = 0;
    let noise = |node: &Node| -> Vec<u32> {
        node.edges
            .iter()
            .enumerate()
            .map(|(i, e)| (0.75 * f32::from_bits(e.prior) + if i % 3 == 0 { 0.01 } else { 0.0 }).to_bits())
            .collect()
    };

    while !mcts.game().status.is_terminal && plies < 400 {
        let visit_counts = mcts.run(&select, &credit, &uniform, true, &noise);
        if visit_counts.is_empty() {
            break;
        }
        let best = Mcts::best_move(&visit_counts);
        mcts.advance(best);
        plies += 1;
    }

    assert!(
        mcts.game().status.is_terminal || plies >= 300,
        "game should terminate within MAX_TOTAL_PLIES (300) or by other rule, plies={plies}"
    );
}

#[test]
fn search_leaves_the_game_as_it_was() {
    let mut mcts = Mcts::new(GameState::start_pos(), 100);
    let hash = mcts.game().board.zobrist_hash;
    let counts = run(&mut mcts);
    assert_eq!(mcts.game().board.zobrist_hash, hash);
    assert_eq!(mcts.game().history.len(), 1);
    assert_eq!(counts.len(), 44);
    assert_eq!(mcts.total_visits(), 100);
    assert!(mcts.has_room());
}

#[test]
fn a_win_in_one_is_found() {
    let game = GameState::from_fen("3k5/3a5/3R5/9/9/9/9/9/4R4/4K4 w").unwrap();
    let mut mcts = Mcts::new(game, 300);
    let counts = run(&mut mcts);
    mcts.advance(Mcts::best_move(&counts));
    assert!(mcts.game().status.is_terminal);
    assert_eq!(mcts.game().status.winner, Some(Color::Red));
    assert!(mcts.run(&select, &credit, &uniform, false, &same_priors).is_empty());
}

#[test]
fn a_walk_stops_for_evaluation_and_is_credited() {
    let mut mcts = Mcts::new(GameState::start_pos(), 1);
    assert!(mcts.needs_root());
    let moves = mcts.legal_moves();
    mcts.create_root(vec![ONE; moves.len()]);
    assert!(!mcts.needs_root());
    let pick = |_: &Node| 3usize;
    assert_eq!(mcts.descend(&pick), Descent::NeedEval);
    assert_eq!(mcts.game().board.side_to_move, Color::Black);
    let replies = mcts.legal_moves();
    mcts.expand(vec![ONE; replies.len()]);
    mcts.backup(1, 0.5f32.to_bits(), &credit);
    assert_eq!(mcts.game().board.side_to_move, Color::Red);
    let counts = mcts.visit_counts();
    assert_eq!(counts[3], (moves[3], 1));
    assert_eq!(mcts.total_visits(), 1);
    assert_eq!(
        mcts.policy_target(&ratio),
        vec![(move_to_action_id(moves[3], Color::Red) as u16, ONE)]
    );
    mcts.advance(moves[3]);
    assert!(!mcts.needs_root());
    mcts.advance(replies[0]);
    assert!(mcts.needs_root());
}

#[test]
fn the_last_of_equally_visited_moves_is_best() {
    let a = Move::new(Position::new(0, 0), Position::new(0, 1));
    let b = Move::new(Position::new(0, 1), Position::new(0, 2));
    assert_eq!(Mcts::best_move(&vec![(a, 2), (b, 2)]), b);
    assert_eq!(Mcts::best_move(&vec![(a, 3), (b, 2)]), a);
}

#[test]
fn a_played_game_gives_samples_with_its_result() {
    let sample = |counts: &Vec<(Move, u32)>, warm: bool| -> usize {
        if warm {
            counts.len() / 2
        } else {
            0
        }
    };
    let samples = play_one_game(
        2,
        6,
        &select,
        &credit,
        &uniform,
        false,
        &same_priors,
        &ratio,
        &sample,
    );
    assert!(!samples.is_empty() && samples.len() <= 300);
    for (i, s) in samples.iter().enumerate() {
        assert!(!s.policy.is_empty());
        let expected = if samples[0].value == 0 {
            0
        } else if i % 2 == 0 {
            samples[0].value
        } else if samples[0].value == ONE {
            MINUS_ONE
        } else {
            ONE
        };
        assert_eq!(s.value, expected);
    }
}

#[test]
fn the_first_moves_are_explored() {
    let mut game = SelfPlay::new(1, 2);
    let mut seen = Vec::new();
    for _ in 0..4 {
        seen.push(game.is_exploring());
        game.mcts.run(&select, &credit, &uniform, false, &same_priors);
        game.play(0, &ratio);
        assert!(!game.is_over());
    }
    assert_eq!(seen, vec![true, true, false, false]);
}

#[test]
fn a_driven_game_asks_for_evaluations_until_it_is_over() {
    let sample = |counts: &Vec<(Move, u32)>, warm: bool| -> usize {
        if warm {
            counts.len() / 2
        } else {
            0
        }
    };
    let mut game = Driver::new(2, 6);
    let mut asked = 0;
    while game.go_on(&select, &credit, false, &same_priors, &ratio, &sample) {
        let (_, moves) = game.question();
        assert!(!moves.is_empty());
        let p = 1.0 / moves.len() as f32;
        game.feed(vec![p.to_bits(); moves.len()], 0, &credit);
        asked += 1;
    }
    let driven = game.game.finish();
    let played = play_one_game(
        2,
        6,
        &select,
        &credit,
        &uniform,
        false,
        &same_priors,
        &ratio,
        &sample,
    );
    assert!(asked >= driven.len());
    assert_eq!(driven.len(), played.len());
    for (a, b) in driven.iter().zip(&played) {
        assert_eq!(a.policy, b.policy);
        assert_eq!(a.value, b.value);
    }
}

#[test]
fn a_game_with_full_counters_is_searched_for_one_ply() {
    let board = "rheakaehr/9/1c5c1/p1p1p1p1p/9/9/P1P1P1P1P/1C5C1/9/RHEAKAEHR";
    for fen in [
        format!("{board} r - - 0 2147483648"),
        format!("{board} b - - 0 2147483647"),
        format!("{board} r - - 4294967293 1"),
    ] {
        let mut mcts = Mcts::new(GameState::from_fen(&fen).unwrap(), 60);
        let counts = run(&mut mcts);
        assert_eq!(counts.iter().map(|(_, n)| n).sum::<u32>(), 60);
    }
}

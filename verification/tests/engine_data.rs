use xiangqi::engine::data::{
    encode_shard, finalize_samples, PendingSample, ShardWriter, TrainingSample, MAGIC,
};
use xiangqi::engine::encode::{EncodedState, PIECES_SIZE};
use xiangqi::engine::infer::{split_responses, stack_states, EvalServer, ShapeFault};
use xiangqi::engine::selfplay::Collector;
use xiangqi::engine::types::Color;

fn make_sample(value: f32, no_capture_plies: u8) -> TrainingSample {
    TrainingSample {
        state: EncodedState { pieces: [0u8; PIECES_SIZE], no_capture_plies },
        policy: vec![(10, 0.6f32.to_bits()), (42, 0.3f32.to_bits()), (99, 0.1f32.to_bits())],
        value: value.to_bits(),
    }
}

#[test]
fn test_shard_write_read() {
    let samples = vec![make_sample(1.0, 0), make_sample(-1.0, 50), make_sample(0.0, 100)];
    let bytes = encode_shard(&samples);

    let magic = u32::from_le_bytes(bytes[0..4].try_into().unwrap());
    assert_eq!(magic, MAGIC, "CXSG magic number");

    let count = u32::from_le_bytes(bytes[4..8].try_into().unwrap());
    assert_eq!(count, 3);

    let mut offset = 8;
    for (i, s) in samples.iter().enumerate() {
        assert_eq!(&bytes[offset..offset + PIECES_SIZE], &s.state.pieces[..]);
        offset += PIECES_SIZE;

        assert_eq!(bytes[offset], s.state.no_capture_plies, "sample {i}");
        offset += 1;

        let pc = u16::from_le_bytes(bytes[offset..offset + 2].try_into().unwrap());
        assert_eq!(pc as usize, s.policy.len());
        offset += 2;

        for (j, &(id, _)) in s.policy.iter().enumerate() {
            let read_id = u16::from_le_bytes(bytes[offset..offset + 2].try_into().unwrap());
            assert_eq!(read_id, id, "sample {i} policy id {j}");
            offset += 2;
        }

        for (j, &(_, prob)) in s.policy.iter().enumerate() {
            let read_prob = f32::from_le_bytes(bytes[offset..offset + 4].try_into().unwrap());
            assert!(
                (read_prob - f32::from_bits(prob)).abs() < 1e-6,
                "sample {i} policy prob {j}"
            );
            offset += 4;
        }

        let read_val = f32::from_le_bytes(bytes[offset..offset + 4].try_into().unwrap());
        assert!((read_val - f32::from_bits(s.value)).abs() < 1e-6, "sample {i} value");
        offset += 4;
    }

    assert_eq!(offset, bytes.len(), "all bytes consumed");
}

#[test]
fn test_shard_writer_flush() {
    let mut writer = ShardWriter::new(2);

    let samples = vec![make_sample(1.0, 0), make_sample(-1.0, 10), make_sample(0.0, 20)];
    assert!(writer.has_room(samples.len()));
    let shards = writer.add_game_samples(samples);

    assert_eq!(writer.total_samples(), 2);
    assert_eq!(shards.len(), 1);
    assert_eq!(shards[0].name, "shard_000000.bin");
    assert_eq!(
        shards[0].bytes,
        encode_shard(&vec![make_sample(1.0, 0), make_sample(-1.0, 10)])
    );

    let last = writer.flush().unwrap();
    assert_eq!(writer.total_samples(), 3);
    assert_eq!(last.name, "shard_000001.bin");
    assert_eq!(last.bytes, encode_shard(&vec![make_sample(0.0, 20)]));
    assert!(writer.flush().is_none());
}

fn pending(side_to_move: Color) -> PendingSample {
    PendingSample {
        state: EncodedState { pieces: [0; PIECES_SIZE], no_capture_plies: 0 },
        policy: vec![(0, 1.0f32.to_bits())],
        side_to_move,
    }
}

#[test]
fn test_finalize_samples_red_wins() {
    let pending = vec![pending(Color::Red), pending(Color::Black)];
    let samples = finalize_samples(pending, Some(Color::Red));
    assert_eq!(f32::from_bits(samples[0].value), 1.0, "red sample should be +1 on red win");
    assert_eq!(f32::from_bits(samples[1].value), -1.0, "black sample should be -1 on red win");
}

#[test]
fn test_finalize_samples_draw() {
    let pending = vec![pending(Color::Red), pending(Color::Black)];
    let samples = finalize_samples(pending, None);
    assert_eq!(f32::from_bits(samples[0].value), 0.0, "draw, value 0");
    assert_eq!(f32::from_bits(samples[1].value), 0.0, "draw, value 0");
}

#[test]
fn a_large_game_fills_several_shards_and_loses_no_sample() {
    let mut writer = ShardWriter::new(2);
    let samples: Vec<TrainingSample> = (0..5).map(|i| make_sample(0.0, i)).collect();
    let shards = writer.add_game_samples(samples);
    assert_eq!(shards.len(), 2);
    assert_eq!(shards[1].name, "shard_000001.bin");
    assert_eq!(
        shards[1].bytes,
        encode_shard(&vec![make_sample(0.0, 2), make_sample(0.0, 3)])
    );
    let rest = writer.flush().unwrap();
    assert_eq!(rest.bytes, encode_shard(&vec![make_sample(0.0, 4)]));
    assert_eq!(writer.total_samples(), 5);
}

#[test]
fn collection_ends_when_enough_samples_are_in_shards() {
    let mut collector = Collector::new(3, 3);
    assert!(collector.has_room(2));
    assert!(collector.add_game(vec![make_sample(1.0, 0), make_sample(-1.0, 1)]).is_empty());
    assert!(!collector.is_done());
    assert!(!collector.wants_report());
    let shards = collector.add_game(vec![make_sample(1.0, 2), make_sample(-1.0, 3)]);
    assert_eq!(shards.len(), 1);
    assert!(collector.is_done());
    assert_eq!(collector.games_completed(), 2);
    assert_eq!(collector.total_game_samples(), 4);
    assert_eq!(collector.total_samples(), 3);
    assert_eq!(collector.finish().unwrap().name, "shard_000001.bin");
    assert_eq!(collector.total_samples(), 4);
    for _ in 0..98 {
        collector.add_game(Vec::new());
    }
    assert!(collector.wants_report());
}

#[test]
fn answers_are_split_into_rows() {
    let policy: Vec<f32> = (0..16200).map(|i| i as f32).collect();
    let value = vec![0.25f32, -0.5];
    let all = split_responses(&[2, 8100], &policy, &[2, 1], &value, 2).unwrap();
    assert_eq!(all.len(), 2);
    assert_eq!(all[1].value, -0.5);
    assert_eq!(all[1].policy_logits[0], 8100.0);
    assert_eq!(all[1].policy_logits.len(), 8100);
    assert_eq!(
        split_responses(&[2, 8099], &policy, &[2, 1], &value, 2).unwrap_err(),
        ShapeFault::Policy
    );
    assert_eq!(
        split_responses(&[2, 8100], &policy, &[2], &value, 2).unwrap_err(),
        ShapeFault::Value
    );
}

#[test]
fn states_are_stacked_in_order() {
    let flat = stack_states(&vec![vec![1.0f32; 8910], vec![2.0f32; 8910]]);
    assert_eq!(flat.len(), 17820);
    assert_eq!((flat[0], flat[8909], flat[8910]), (1.0, 1.0, 2.0));
}

#[test]
fn a_server_reports_every_ten_thousand_evaluations_and_reloads_new_generations() {
    let mut server = EvalServer::new(64, 7);
    assert!(server.wants_more(63));
    assert!(!server.wants_more(64));
    assert_eq!(server.count_batch(9990), None);
    assert_eq!(server.count_batch(9), None);
    assert_eq!(server.count_batch(3), Some(10002));
    assert_eq!(server.recent_evals, 0);
    assert_eq!(server.total_evals, 10002);
    assert!(!server.wants_reload(7));
    assert!(server.wants_reload(6));
    server.reloaded(6);
    assert!(!server.wants_reload(6));
}

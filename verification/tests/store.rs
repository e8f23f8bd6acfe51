use safetensors::SafeTensors;

use xiangqi::bytes::{f32_le_bytes, i32_le_bytes};
use xiangqi::kernel::constants::{BOARD_HEIGHT, BOARD_WIDTH, INPUT_CHANNELS};
use xiangqi::kernel::selfplay::Sample;
use xiangqi::store::{
    fits_in_shard, list_versions, must_wait, parse_model_version, pending_count, resolve_models,
    serialize_shard, shard_name, wants_reload, LocalModelStore,
};

const STATE_PER_SAMPLE: usize = 8910;

fn names(list: &[&str]) -> Vec<String> {
    list.iter().map(|s| s.to_string()).collect()
}

fn two_samples() -> Vec<Sample> {
    let s0 = Sample {
        state: vec![0u8; STATE_PER_SAMPLE],
        pi_idx: vec![3, 7, 11],
        pi_val: vec![0.5f32.to_bits(), 0.3f32.to_bits(), 0.2f32.to_bits()],
        z: 1.0f32.to_bits(),
    };
    let mut state1 = vec![0u8; STATE_PER_SAMPLE];
    state1[0] = 255;
    let s1 = Sample {
        state: state1,
        pi_idx: vec![42],
        pi_val: vec![1.0f32.to_bits()],
        z: (-1.0f32).to_bits(),
    };
    vec![s0, s1]
}

#[test]
fn shard_roundtrip() {
    let bytes = serialize_shard(&two_samples()).unwrap();
    let st = SafeTensors::deserialize(&bytes).unwrap();

    let pi_ptr = st.tensor("pi_ptr").unwrap();
    assert_eq!(pi_ptr.shape(), &[3]);
    let z = st.tensor("z").unwrap();
    assert_eq!(z.shape(), &[2]);
    let state = st.tensor("state").unwrap();
    assert_eq!(state.shape(), &[2, INPUT_CHANNELS, BOARD_HEIGHT, BOARD_WIDTH]);
    let pi_idx = st.tensor("pi_idx").unwrap();
    assert_eq!(pi_idx.shape(), &[4]);
}

#[test]
fn a_shard_holds_the_numbers_of_its_samples() {
    let samples = two_samples();
    assert!(fits_in_shard(&samples));
    let bytes = serialize_shard(&samples).unwrap();
    let st = SafeTensors::deserialize(&bytes).unwrap();
    assert_eq!(st.tensor("pi_ptr").unwrap().data(), i32_le_bytes(&[0, 3, 4]).as_slice());
    assert_eq!(st.tensor("pi_idx").unwrap().data(), i32_le_bytes(&[3, 7, 11, 42]).as_slice());
    assert_eq!(
        st.tensor("z").unwrap().data(),
        f32_le_bytes(&[1.0f32.to_bits(), (-1.0f32).to_bits()]).as_slice()
    );
    assert_eq!(st.tensor("pi_val").unwrap().data().len(), 16);
    assert_eq!(st.tensor("state").unwrap().data()[STATE_PER_SAMPLE], 255);
}

#[test]
fn broken_samples_are_refused() {
    let mut short = two_samples();
    short[1].state.pop();
    assert!(serialize_shard(&short).is_err());
    let mut uneven = two_samples();
    uneven[0].pi_val.pop();
    assert!(serialize_shard(&uneven).is_err());
}

#[test]
fn local_store_atomic_and_count() {
    assert_eq!(pending_count(&names(&[])), 0);
    assert_eq!(pending_count(&names(&["shard_000000_w00_000000.st"])), 1);
    assert_eq!(
        pending_count(&names(&["shard_000000_w00_000000.st", "shard_000000_w00_000001.st.tmp"])),
        1
    );
}

#[test]
fn model_store_lists_versions_and_resolves_path() {
    let store = LocalModelStore::new("models".to_string());
    assert_eq!(list_versions(&names(&[])), Vec::<i64>::new());
    assert_eq!(
        list_versions(&names(&[
            "model_000040.pt",
            "model_000100.pt",
            "model_000020.pt",
            "latest.json",
            "model_bad.pt",
            "model_000050.pt.tmp",
        ])),
        vec![20, 40, 100]
    );
    assert!(store.path_for(100).ends_with("model_000100.pt"));
}

#[test]
fn shard_names_tell_model_worker_and_number() {
    assert_eq!(shard_name(12, 3, 45), "shard_000012_w03_000045.st");
    assert_eq!(pending_count(&vec![shard_name(12, 3, 45)]), 1);
}

#[test]
fn model_names_give_their_versions() {
    assert_eq!(parse_model_version("model_000007.pt"), Some(7));
    assert_eq!(parse_model_version("model_7.pt"), Some(7));
    assert_eq!(parse_model_version("model_.pt"), None);
    assert_eq!(parse_model_version("model_-7.pt"), None);
    assert_eq!(parse_model_version("model_99999999999999999999.pt"), None);
}

#[test]
fn a_changed_version_is_loaded() {
    assert!(wants_reload(Some(3), 2));
    assert!(!wants_reload(Some(2), 2));
    assert!(!wants_reload(None, 2));
}

#[test]
fn two_models_are_found_for_a_match() {
    let store = LocalModelStore::new("m".to_string());
    let latest = resolve_models(&None, &None, None, None, &store, &vec![10, 20, 30]);
    let (a, b) = latest.unwrap();
    assert_ne!(a, b);
    let given = resolve_models(
        &Some("x.pt".to_string()),
        &Some("y.pt".to_string()),
        None,
        None,
        &store,
        &vec![],
    );
    assert_eq!(given, Ok(("x.pt".to_string(), "y.pt".to_string())));
    assert!(resolve_models(&None, &None, None, None, &store, &vec![10]).is_err());
}

#[test]
fn little_endian_bytes_come_lowest_first() {
    assert_eq!(i32_le_bytes(&[-2]), vec![254, 255, 255, 255]);
    assert_eq!(f32_le_bytes(&[0x0102_0304]), vec![4, 3, 2, 1]);
}

#[test]
fn writing_waits_while_too_many_shards_are_unread() {
    assert!(must_wait(4, 3));
    assert!(!must_wait(3, 3));
}

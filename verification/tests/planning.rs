use keryx_pom::gpu::{launch, mined_nonce, winner, words4, PomGpuMiner, Resident};
use keryx_pom::index::WeightIndex;
use keryx_pom::possession::nonce_wins;
use keryx_pom::split::{block_tensor_names, cache_step, causal_mask, device_index, head_device, head_tensor, kv_repeats, last_position, needs_mask, plan_model, CacheStep, Field, Key, Metadata, PlanError, DEFAULT_ROPE_BASE_BITS, EMBEDDING_TENSOR, MAX_SEQ_LEN, OUTPUT_NORM_TENSOR};

fn resident(sizes: &[usize]) -> Vec<Resident> {
    sizes.iter().enumerate().map(|(i, s)| Resident { size: *s, base: 1000 + i as u64 }).collect()
}

#[test]
fn gather_index_skips_tensors_without_chunks() {
    let m = PomGpuMiner::load(&resident(&[70, 31, 32, 0, 100])).unwrap();
    assert_eq!(m.bases, [1000, 1002, 1004]);
    assert_eq!(m.prefix, [0, 2, 3, 6]);
    assert_eq!(m.n_chunks(), 6);
    assert_eq!(m.tensor_count(), 3);
    assert!(PomGpuMiner::load(&resident(&[31, 0])).is_none());
    assert!(PomGpuMiner::load(&Vec::new()).is_none());
}

#[test]
fn card_and_host_have_the_same_chunks() {
    let sizes = [33usize, 5, 64, 96];
    let tensors: Vec<Vec<u8>> = sizes.iter().map(|s| vec![1u8; *s]).collect();
    let host = WeightIndex::from_tensors(&tensors).unwrap();
    assert_eq!(PomGpuMiner::load(&resident(&sizes)).unwrap().n_chunks(), host.n_chunks);
}

#[test]
fn launch_is_exact() {
    let mut pph = [0u8; 32];
    pph[0] = 1;
    pph[31] = 2;
    assert_eq!(words4(&pph), [1, 0, 0, 2 << 56]);
    let l = launch(&pph, &[0xff; 32], 1000);
    assert_eq!(l.pre_pow_hash, [1, 0, 0, 2 << 56]);
    assert_eq!(l.target, [u64::MAX; 4]);
    assert_eq!((l.walk_steps, l.grid, l.block, l.no_winner), (256, 4, 256, u64::MAX));
    assert_eq!(launch(&pph, &pph, 0).grid, 0);
    assert_eq!(launch(&pph, &pph, 256).grid, 1);
    assert_eq!(launch(&pph, &pph, 257).grid, 2);
    assert!(!PomGpuMiner::has_chunk(31));
    assert!(PomGpuMiner::has_chunk(32));
}

#[test]
fn answers_of_the_card_are_told_apart() {
    assert_eq!(winner(7, 0, 10, false), Some(7));
    assert_eq!(winner(u64::MAX, 0, 10, false), None);
    assert_eq!(winner(u64::MAX, 0, 10, true), None);
    assert_eq!(winner(u64::MAX, u64::MAX - 3, 3, true), None);
    assert_eq!(winner(u64::MAX, u64::MAX - 3, 4, false), None);
    assert_eq!(winner(u64::MAX, u64::MAX - 3, 4, true), Some(u64::MAX));
}

#[test]
fn the_largest_nonce_can_win() {
    let idx = WeightIndex::from_tensors(&vec![(0..=255u8).collect()]).unwrap();
    let pph = [5u8; 32];
    let ask = |target: &[u8; 32], batch: u64, answer: u64| mined_nonce(&idx, &pph, 1, target, u64::MAX - 1, batch, answer);
    assert!(nonce_wins(&idx, &pph, 1, &[0xff; 32], 256, u64::MAX));
    assert!(!nonce_wins(&idx, &pph, 1, &[0; 32], 256, u64::MAX));
    assert_eq!(ask(&[0xff; 32], 2, u64::MAX), Some(u64::MAX));
    assert_eq!(ask(&[0xff; 32], 1, u64::MAX), None);
    assert_eq!(ask(&[0; 32], 2, u64::MAX), None);
    assert_eq!(ask(&[0; 32], 2, u64::MAX - 1), Some(u64::MAX - 1));
}

fn dense() -> Metadata {
    Metadata {
        expert_count: Field::Missing,
        head_count: Field::Value(40),
        head_count_kv: Field::Value(8),
        block_count: Field::Value(64),
        embedding_length: Field::Value(5120),
        rms_epsilon: Field::Value(1e-5f32.to_bits()),
        rope_freq_base: Field::Value(1e6f32.to_bits()),
    }
}

#[test]
fn plan_follows_the_metadata() {
    let p = plan_model(&dense(), 3).unwrap();
    assert_eq!((p.head_count, p.head_count_kv, p.block_count, p.embedding_length), (40, 8, 64, 5120));
    assert_eq!((p.head_dim, p.n_devices), (128, 3));
    assert_eq!(f32::from_bits(p.rms_norm_eps_bits), 1e-5);
    assert_eq!(f32::from_bits(p.rope_freq_base_bits), 1e6);
    assert_eq!(kv_repeats(p.head_count, p.head_count_kv), 5);
}

#[test]
fn rope_base_has_a_default() {
    assert_eq!(f32::from_bits(DEFAULT_ROPE_BASE_BITS), 10000.0);
    for field in [Field::Missing, Field::WrongType] {
        let meta = Metadata { rope_freq_base: field, ..dense() };
        assert_eq!(plan_model(&meta, 1).unwrap().rope_freq_base_bits, DEFAULT_ROPE_BASE_BITS);
    }
}

#[test]
fn first_problem_is_reported() {
    let meta = Metadata { expert_count: Field::Value(2), head_count: Field::Missing, ..dense() };
    assert_eq!(plan_model(&meta, 0).unwrap_err(), PlanError::NoDevices);
    assert_eq!(plan_model(&meta, 1).unwrap_err(), PlanError::MixtureOfExperts);
    for experts in [Field::Value(1), Field::Value(0), Field::WrongType] {
        let meta = Metadata { expert_count: experts, ..meta };
        assert_eq!(plan_model(&meta, 1).unwrap_err(), PlanError::Missing(Key::HeadCount));
    }
    let meta = Metadata { head_count: Field::WrongType, head_count_kv: Field::Missing, ..dense() };
    assert_eq!(plan_model(&meta, 1).unwrap_err(), PlanError::WrongType(Key::HeadCount));
    let meta = Metadata { head_count_kv: Field::Missing, block_count: Field::Missing, ..dense() };
    assert_eq!(plan_model(&meta, 1).unwrap_err(), PlanError::Missing(Key::HeadCountKv));
    let meta = Metadata { block_count: Field::WrongType, embedding_length: Field::Missing, ..dense() };
    assert_eq!(plan_model(&meta, 1).unwrap_err(), PlanError::WrongType(Key::BlockCount));
    let meta = Metadata { embedding_length: Field::Missing, rms_epsilon: Field::Missing, ..dense() };
    assert_eq!(plan_model(&meta, 1).unwrap_err(), PlanError::Missing(Key::EmbeddingLength));
    let meta = Metadata { rms_epsilon: Field::Missing, ..dense() };
    assert_eq!(plan_model(&meta, 1).unwrap_err(), PlanError::Missing(Key::RmsEpsilon));
}

#[test]
fn keys_have_names() {
    assert_eq!(Key::HeadCount.name(), "qwen2.attention.head_count");
    assert_eq!(Key::HeadCountKv.name(), "qwen2.attention.head_count_kv");
    assert_eq!(Key::BlockCount.name(), "qwen2.block_count");
    assert_eq!(Key::EmbeddingLength.name(), "qwen2.embedding_length");
    assert_eq!(Key::RmsEpsilon.name(), "qwen2.attention.layer_norm_rms_epsilon");
}

#[test]
fn blocks_are_split_evenly() {
    let devices: Vec<usize> = (0..10).map(|l| device_index(l, 3, 10)).collect();
    assert_eq!(devices, [0, 0, 0, 0, 1, 1, 1, 2, 2, 2]);
    let devices: Vec<usize> = (0..2).map(|l| device_index(l, 5, 2)).collect();
    assert_eq!(devices, [0, 2]);
    for (blocks, n) in [(64usize, 3usize), (7, 7), (5, 8), (61, 4)] {
        let mut held = vec![0usize; n];
        for l in 0..blocks {
            held[device_index(l, n, blocks)] += 1;
        }
        for h in held {
            assert!(h == blocks / n || h == blocks / n + 1);
        }
    }
}

#[test]
fn tensors_are_named_by_block() {
    let names = block_tensor_names(12);
    assert_eq!(
        names,
        [
            "blk.12.attn_q.weight",
            "blk.12.attn_k.weight",
            "blk.12.attn_v.weight",
            "blk.12.attn_q.bias",
            "blk.12.attn_k.bias",
            "blk.12.attn_v.bias",
            "blk.12.attn_output.weight",
            "blk.12.ffn_gate.weight",
            "blk.12.ffn_down.weight",
            "blk.12.ffn_up.weight",
            "blk.12.attn_norm.weight",
            "blk.12.ffn_norm.weight",
        ]
    );
    let mut all: Vec<String> = (0..20).flat_map(block_tensor_names).collect();
    all.sort();
    all.dedup();
    assert_eq!(all.len(), 240);
}

#[test]
fn head_lives_on_the_last_device() {
    assert_eq!(head_tensor(true), "output.weight");
    assert_eq!(head_tensor(false), "token_embd.weight");
    assert_eq!(EMBEDDING_TENSOR, "token_embd.weight");
    assert_eq!(OUTPUT_NORM_TENSOR, "output_norm.weight");
    assert_eq!(head_device(1), 0);
    assert_eq!(head_device(4), 3);
}

#[test]
fn mask_hides_later_positions() {
    assert_eq!(causal_mask(3), [0, 1, 1, 0, 0, 1, 0, 0, 0]);
    assert!(causal_mask(0).is_empty());
    assert!(!needs_mask(1));
    assert!(needs_mask(0));
    assert!(needs_mask(2));
    assert_eq!(last_position(5), 4);
    assert_eq!(MAX_SEQ_LEN, 4096);
}

#[test]
fn cache_starts_afresh_at_the_front() {
    assert_eq!(cache_step(false, 0), CacheStep::Replace);
    assert_eq!(cache_step(false, 5), CacheStep::Replace);
    assert_eq!(cache_step(true, 0), CacheStep::Replace);
    assert_eq!(cache_step(true, 5), CacheStep::Append);
}

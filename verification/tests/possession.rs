use keryx_pom::hash::blake;
use keryx_pom::index::WeightIndex;
use keryx_pom::merkle::merkle_root;
use keryx_pom::mix::{mix64, pom_block_seed, words_to_bytes, CHUNK_WORDS};
use keryx_pom::possession::{build_proof, mine_pom, verify_proof, PomProof};

fn synth_chunk(off: u64) -> [u64; CHUNK_WORDS] {
    let mut c = [0u64; CHUNK_WORDS];
    for (j, w) in c.iter_mut().enumerate() {
        *w = mix64(off.wrapping_mul(CHUNK_WORDS as u64) + j as u64 + 1);
    }
    c
}

fn synth_index(n: u64) -> WeightIndex {
    let mut data = Vec::new();
    for o in 0..n {
        data.extend_from_slice(&words_to_bytes(&synth_chunk(o)));
    }
    WeightIndex::from_tensors(&vec![data]).unwrap()
}

#[test]
fn weight_index_root_matches_standalone() {
    let n = 1000u64;
    let idx = synth_index(n);
    let leaves: Vec<[u8; 32]> = (0..n).map(|o| blake(&words_to_bytes(&synth_chunk(o)))).collect();
    assert_eq!(idx.r_t, merkle_root(&leaves));
}

#[test]
fn build_then_self_verify() {
    let (k, t) = (256u32, 32usize);
    let idx = synth_index(4096);
    let pph = blake(b"pph");
    let nonce = 0xabc;
    let seed = pom_block_seed(&pph, 111, nonce);

    let proof = build_proof(2, &pph, nonce, seed, idx.n_chunks, k, t, |o| idx.read_chunk(o), |o| idx.merkle_path(o));
    assert!(verify_proof(&pph, nonce, seed, &proof, idx.n_chunks, k, t, &idx.r_t, &[0xff; 32]));
    let bytes = proof.to_bytes().unwrap();
    let back: PomProof = PomProof::from_bytes(&bytes).unwrap();
    assert!(verify_proof(&pph, nonce, seed, &back, idx.n_chunks, k, t, &idx.r_t, &[0xff; 32]));
    assert_eq!(back.tier, 2);
}

#[test]
fn wrong_target_or_root_fails() {
    let (k, t) = (256u32, 32usize);
    let idx = synth_index(4096);
    let pph = blake(b"pph2");
    let nonce = 7;
    let seed = pom_block_seed(&pph, 1, nonce);
    let proof = build_proof(0, &pph, nonce, seed, idx.n_chunks, k, t, |o| idx.read_chunk(o), |o| idx.merkle_path(o));
    assert!(!verify_proof(&pph, nonce, seed, &proof, idx.n_chunks, k, t, &idx.r_t, &[0u8; 32]), "zero target must fail");
    assert!(!verify_proof(&pph, nonce, seed, &proof, idx.n_chunks, k, t, &blake(b"wrong"), &[0xff; 32]), "wrong R_T must fail");
}

#[test]
fn cpu_mine_finds_nonce_and_proof_verifies() {
    let (k, t) = (128u32, 32usize);
    let idx = synth_index(4096);
    let pph = blake(b"mine-pph");
    let ts = 555;
    let mut target = [0xffu8; 32];
    target[31] = 0x10;
    let (nonce, proof) = mine_pom(&idx, 1, &pph, ts, &target, k, t, 0, 100_000).expect("mine a nonce");
    let seed = pom_block_seed(&pph, ts, nonce);
    assert!(verify_proof(&pph, nonce, seed, &proof, idx.n_chunks, k, t, &idx.r_t, &target));
    assert_eq!(proof.tier, 1);
}

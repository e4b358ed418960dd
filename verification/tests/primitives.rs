use keryx_pom::hash::blake;
use keryx_pom::index::{active_index, canonical_order, set_index, BuildError, WeightIndex, WeightIndexBuilder};
use keryx_pom::merkle::{hash_pair, merkle_proof, merkle_root, verify_merkle};
use keryx_pom::mix::{chunk_to_words, le_leq, mix64, pom_block_seed, pom_pow_value, pph_words, seed_state, transition, words_to_bytes};
use keryx_pom::possession::{build_proof, challenges, mine_pom, trace_leaf, verify_any_proof, verify_proof, walk_final, POM_ACTIVATION_DAA, POM_OPENINGS, POM_WALK_STEPS};

fn block(start: u8) -> [u8; 32] {
    let mut b = [0u8; 32];
    for (i, x) in b.iter_mut().enumerate() {
        *x = start.wrapping_add(i as u8);
    }
    b
}

fn hex32(s: &str) -> [u8; 32] {
    hex::decode(s).unwrap().try_into().unwrap()
}

#[test]
fn digests_are_blake3() {
    assert_eq!(blake(b""), hex32("af1349b9f5f9a1a6a0404dea36dcc9499bcb25c9adc112b7cc9a93cae41f3262"));
    assert_eq!(blake(b"abc"), hex32("6437b3ac38465133ffb63b75273a8db548c558465d79db03fd359c6cd5bd9d85"));
}

#[test]
fn mixing_is_exact() {
    assert_eq!(mix64(0), 0);
    assert_eq!(mix64(1), 0x5692161d100b05e5);
    assert_eq!(mix64(0x123456789abcdef0), 0x9629f58e8ec5b906);
    assert_eq!(seed_state(5), 0x319d9eafe8bb7e46);
    assert_eq!(transition(10, &[1, 2, 3, 4]), 0x255c6046f62fbe29);
}

#[test]
fn seed_and_pow_value_are_exact() {
    let pph = block(0);
    assert_eq!(pom_block_seed(&pph, 1234, 9), 0x6bf76c0790e93feb);
    assert_eq!(
        pom_pow_value(77, &pph),
        hex32("a64c7bc754fa901c942cf90dfe23ddf0ced40c996e4e8595786be2a4ee6f1102")
    );
}

#[test]
fn nonces_give_distinct_seeds() {
    let pph = block(3);
    let mut seeds: Vec<u64> = (0..1000).map(|n| pom_block_seed(&pph, 5, n)).collect();
    seeds.sort();
    seeds.dedup();
    assert_eq!(seeds.len(), 1000);
    assert_ne!(pom_pow_value(1, &pph), pom_pow_value(2, &pph));
    let mut seeds: Vec<u64> = (0..1000).map(|t| pom_block_seed(&pph, t, 5)).collect();
    seeds.sort();
    seeds.dedup();
    assert_eq!(seeds.len(), 1000);
}

#[test]
fn words_and_bytes_turn_into_each_other() {
    let b = block(200);
    let w = chunk_to_words(&b);
    assert_eq!(w[0], u64::from_le_bytes(b[0..8].try_into().unwrap()));
    assert_eq!(w[3], u64::from_le_bytes(b[24..32].try_into().unwrap()));
    assert_eq!(words_to_bytes(&w), b);
    assert_eq!(pph_words(&b), w);
}

#[test]
fn targets_are_compared_from_the_top() {
    let mut low = [0xffu8; 32];
    low[31] = 1;
    let mut high = [0u8; 32];
    high[31] = 2;
    assert!(le_leq(&low, &high));
    assert!(!le_leq(&high, &low));
    assert!(le_leq(&low, &low));
}

#[test]
fn odd_nodes_pair_with_themselves() {
    let leaves = [block(1), block(2), block(3)];
    let left = hash_pair(&leaves[0], &leaves[1]);
    let right = hash_pair(&leaves[2], &leaves[2]);
    let mut joined = Vec::new();
    joined.extend_from_slice(&leaves[0]);
    joined.extend_from_slice(&leaves[1]);
    assert_eq!(left, blake(&joined));
    let root = merkle_root(&leaves);
    assert_eq!(root, hash_pair(&left, &right));
    assert_eq!(merkle_proof(&leaves, 2), vec![leaves[2], left]);
    for i in 0..3usize {
        let path = merkle_proof(&leaves, i);
        assert!(verify_merkle(leaves[i], i as u64, &path, &root));
        assert!(!verify_merkle(block(9), i as u64, &path, &root));
    }
    assert_eq!(merkle_root(&leaves[..1]), leaves[0]);
    assert!(merkle_proof(&leaves[..1], 0).is_empty());
}

#[test]
fn names_are_ordered_by_bytes() {
    let names: Vec<String> = ["blk.10.a", "output", "blk.2.a", "Blk", "blk.1", "\u{e9}"].iter().map(|s| s.to_string()).collect();
    let mut expected = names.clone();
    expected.sort();
    assert_eq!(canonical_order(names.clone()), expected);
    let mut reversed = names;
    reversed.reverse();
    assert_eq!(canonical_order(reversed), expected);
    assert!(canonical_order(Vec::new()).is_empty());
}

#[test]
fn leftover_bytes_of_a_tensor_are_dropped() {
    let mut first = block(1).to_vec();
    first.extend_from_slice(&[9, 9, 9]);
    let second = vec![7u8; 31];
    let third = block(2).to_vec();
    let idx = WeightIndex::from_tensors(&vec![first, second, third]).unwrap();
    assert_eq!(idx.n_chunks, 2);
    assert_eq!(idx.read_chunk(0), chunk_to_words(&block(1)));
    assert_eq!(idx.read_chunk(1), chunk_to_words(&block(2)));
    assert_eq!(idx.r_t, hash_pair(&blake(&block(1)), &blake(&block(2))));
    assert_eq!(idx.merkle_path(1), vec![blake(&block(1))]);
}

#[test]
fn a_model_without_chunks_has_no_index() {
    assert!(WeightIndex::from_tensors(&vec![vec![1u8; 31], Vec::new()]).is_none());
    assert!(WeightIndexBuilder::new().build().is_none());
}

#[test]
fn builder_and_list_give_one_index() {
    let tensors = vec![block(1).to_vec(), [block(4), block(5)].concat()];
    let mut builder = WeightIndexBuilder::new();
    for t in &tensors {
        builder.push_tensor(t);
    }
    let built = builder.build().unwrap();
    let listed = WeightIndex::from_tensors(&tensors).unwrap();
    assert_eq!(built.r_t, listed.r_t);
    assert_eq!(built.n_chunks, 3);
    for off in 0..3u64 {
        let path = built.merkle_path(off);
        assert_eq!(path, listed.merkle_path(off));
        let leaf = blake(&words_to_bytes(&built.read_chunk(off)));
        assert!(verify_merkle(leaf, off, &path, &built.r_t));
    }
}

#[test]
fn the_first_installed_index_stays() {
    let mut slot = None;
    assert!(active_index(&slot).is_none());
    set_index(&mut slot, WeightIndex::from_tensors(&vec![vec![1u8; 32]]).unwrap(), 3);
    set_index(&mut slot, WeightIndex::from_tensors(&vec![vec![2u8; 64]]).unwrap(), 4);
    let (index, tier) = active_index(&slot).unwrap();
    assert_eq!(*tier, 3);
    assert_eq!(index.n_chunks, 1);
}

#[test]
fn walk_follows_the_chunks() {
    let idx = WeightIndex::from_tensors(&vec![[block(1), block(2), block(3)].concat()]).unwrap();
    let mut s: u64 = 41;
    for _ in 0..10 {
        s = transition(s, &idx.read_chunk(s % 3));
    }
    assert_eq!(walk_final(41, 3, 10, |o| idx.read_chunk(o)), s);
    assert_eq!(walk_final(41, 3, 0, |o| idx.read_chunk(o)), 41);
    let middle = walk_final(41, 3, 4, |o| idx.read_chunk(o));
    assert_eq!(walk_final(middle, 3, 6, |o| idx.read_chunk(o)), s);
}

#[test]
fn challenges_are_drawn_from_the_header() {
    let (pph, root, pow) = (block(1), block(2), block(3));
    let steps = challenges(&pph, 5, &root, &pow, 4, 100);
    let mut header = Vec::new();
    header.extend_from_slice(&pph);
    header.extend_from_slice(&5u64.to_le_bytes());
    header.extend_from_slice(&root);
    header.extend_from_slice(&pow);
    let seed = blake(&header);
    let expected: Vec<u32> = (0..4u64)
        .map(|j| {
            let mut input = seed.to_vec();
            input.extend_from_slice(&j.to_le_bytes());
            let d = blake(&input);
            (u64::from_le_bytes(d[0..8].try_into().unwrap()) % 100) as u32
        })
        .collect();
    assert_eq!(steps, expected);
    assert_ne!(steps, challenges(&pph, 6, &root, &pow, 4, 100));
    assert_eq!(trace_leaf(1), blake(&[1, 0, 0, 0, 0, 0, 0, 0]));
}

#[test]
fn tampered_proofs_are_refused() {
    let data: Vec<u8> = (0..64u64).flat_map(|o| words_to_bytes(&[o, o + 1, o * o, 7])).collect();
    let idx = WeightIndex::from_tensors(&vec![data]).unwrap();
    let (k, t) = (POM_WALK_STEPS, POM_OPENINGS);
    let pph = block(8);
    let seed = pom_block_seed(&pph, 1, 2);
    let make = || build_proof(1, &pph, 2, seed, idx.n_chunks, k, t, |o| idx.read_chunk(o), |o| idx.merkle_path(o));
    let check = |p: &keryx_pom::possession::PomProof, s: u64| verify_proof(&pph, 2, s, p, idx.n_chunks, k, t, &idx.r_t, &[0xff; 32]);
    assert!(check(&make(), seed));
    assert!(!check(&make(), seed ^ 1));
    let mut p = make();
    p.openings[3].chunk[0] ^= 1;
    assert!(!check(&p, seed));
    let mut p = make();
    p.openings[3].state_before ^= 1;
    assert!(!check(&p, seed));
    let mut p = make();
    p.final_state ^= 1;
    assert!(!check(&p, seed));
    let mut p = make();
    p.pow_value[0] ^= 1;
    assert!(!check(&p, seed));
    let mut p = make();
    p.openings.pop();
    assert!(!check(&p, seed));
    let mut p = make();
    p.openings[0].weight_path.push([0; 32]);
    assert!(!check(&p, seed));
    let mut p = make();
    p.openings[0].weight_path.pop();
    assert!(!check(&p, seed));
}

#[test]
fn mining_gives_the_first_nonce_that_wins() {
    let data: Vec<u8> = (0..64u64).flat_map(|o| words_to_bytes(&[o * 3, o, 5, 7])).collect();
    let idx = WeightIndex::from_tensors(&vec![data]).unwrap();
    let pph = block(50);
    let mut target = [0xffu8; 32];
    target[31] = 0x08;
    let (nonce, proof) = mine_pom(&idx, 2, &pph, 3, &target, 16, 4, 10, 5000).unwrap();
    for n in 10..nonce {
        let s = walk_final(pom_block_seed(&pph, 3, n), idx.n_chunks, 16, |o| idx.read_chunk(o));
        assert!(!le_leq(&pom_pow_value(s, &pph), &target));
    }
    assert!(le_leq(&proof.pow_value, &target));
    assert!(mine_pom(&idx, 2, &pph, 3, &[0u8; 32], 16, 4, 0, 200).is_none());
    assert!(mine_pom(&idx, 2, &pph, 3, &target, 16, 4, nonce, 0).is_none());
}

#[test]
fn protocol_numbers() {
    assert_eq!(POM_WALK_STEPS, 256);
    assert_eq!(POM_OPENINGS, 32);
    assert_eq!(POM_ACTIVATION_DAA, 1000);
}

#[test]
fn undecidable_proofs_are_told_apart() {
    let data: Vec<u8> = (0..8u64).flat_map(|o| words_to_bytes(&[o, 2, 3, 4])).collect();
    let idx = WeightIndex::from_tensors(&vec![data]).unwrap();
    let pph = block(8);
    let ask = |p: &keryx_pom::possession::PomProof, n: u64, k: u32, t: usize| {
        verify_any_proof(&pph, 2, 5, p, n, k, t, &idx.r_t, &[0xff; 32])
    };
    let make = |k: u32, t: usize| {
        build_proof(1, &pph, 2, 5, idx.n_chunks, k, t, |o| idx.read_chunk(o), |o| idx.merkle_path(o))
    };
    let proof = make(16, 2);
    assert_eq!(ask(&proof, idx.n_chunks, 16, 2), Some(true));
    assert_eq!(ask(&proof, idx.n_chunks, 16, 3), Some(false));
    assert_eq!(ask(&proof, 0, 16, 2), None);
    let mut elsewhere = proof.clone();
    elsewhere.openings[0].state_before ^= 1;
    assert_eq!(ask(&elsewhere, 0, 16, 2), Some(false));
    let mut still = make(0, 0);
    assert_eq!(ask(&still, 0, 0, 0), Some(true));
    still.openings.push(proof.openings[0].clone());
    assert_eq!(ask(&still, idx.n_chunks, 0, 1), None);
    still.pow_value[0] ^= 1;
    assert_eq!(ask(&still, idx.n_chunks, 0, 1), Some(false));
}

#[test]
fn model_files_are_read_in_canonical_order() {
    let names: Vec<String> = ["c", "a", "b"].iter().map(|s| s.to_string()).collect();
    let order = std::cell::RefCell::new(Vec::new());
    let read = |name: &String| {
        order.borrow_mut().push(name.clone());
        Some(match name.as_str() {
            "a" => block(1).to_vec(),
            "b" => vec![1, 2, 3],
            _ => block(9).to_vec(),
        })
    };
    let idx = WeightIndex::build_from_gguf(names.clone(), read).ok().unwrap();
    assert_eq!(*order.borrow(), ["a", "b", "c"]);
    assert_eq!(idx.n_chunks, 2);
    assert_eq!(idx.r_t, hash_pair(&blake(&block(1)), &blake(&block(9))));
    let gap = |name: &String| if name == "b" { None } else { Some(block(1).to_vec()) };
    assert_eq!(WeightIndex::build_from_gguf(names.clone(), gap).err(), Some(BuildError::Unreadable(1)));
    let small = |_: &String| Some(vec![0u8; 31]);
    assert_eq!(WeightIndex::build_from_gguf(names, small).err(), Some(BuildError::NoChunks));
}

#[test]
fn proofs_over_any_reader_are_accepted() {
    let chunk = |o: u64| [o, o + 1, o ^ 9, 3];
    let leaves: Vec<[u8; 32]> = (0..5).map(|o| blake(&words_to_bytes(&chunk(o)))).collect();
    let pph = block(7);
    let proof = build_proof(0, &pph, 1, 2, 5, 20, 6, chunk, |o| merkle_proof(&leaves, o as usize));
    let check = |target: &[u8; 32]| verify_proof(&pph, 1, 2, &proof, 5, 20, 6, &merkle_root(&leaves), target);
    assert!(check(&[0xff; 32]));
    assert!(check(&proof.pow_value));
    assert!(!check(&[0; 32]));
}

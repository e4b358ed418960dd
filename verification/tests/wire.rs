use keryx_pom::possession::{PomOpening, PomProof};

type OpeningTuple = (u64, [u8; 32], Vec<[u8; 32]>, Vec<[u8; 32]>, Vec<[u8; 32]>);
type ProofTuple = (u8, [u8; 32], [u8; 32], u64, Vec<[u8; 32]>, Vec<[u8; 32]>, Vec<OpeningTuple>);

fn opening(n: u8) -> PomOpening {
    PomOpening {
        state_before: 0x0102030405060708 + n as u64,
        chunk: [n; 32],
        weight_path: vec![[n + 1; 32]; 2],
        trace_path_before: vec![[n + 2; 32]],
        trace_path_after: Vec::new(),
    }
}

fn sample() -> PomProof {
    PomProof {
        tier: 9,
        trace_root: [1; 32],
        pow_value: [2; 32],
        final_state: 77,
        initial_trace_path: vec![[3; 32], [4; 32]],
        final_trace_path: vec![[5; 32]],
        openings: vec![opening(10), opening(20)],
    }
}

fn tuple(p: &PomProof) -> ProofTuple {
    (
        p.tier,
        p.trace_root,
        p.pow_value,
        p.final_state,
        p.initial_trace_path.clone(),
        p.final_trace_path.clone(),
        p.openings
            .iter()
            .map(|o| {
                (o.state_before, o.chunk, o.weight_path.clone(), o.trace_path_before.clone(), o.trace_path_after.clone())
            })
            .collect(),
    )
}

#[test]
fn wire_form_is_that_of_borsh() {
    let p = sample();
    let bytes = p.to_bytes().unwrap();
    assert_eq!(bytes, borsh::to_vec(&tuple(&p)).unwrap());
    assert_eq!(bytes[0], 9);
    assert_eq!(&bytes[65..73], &77u64.to_le_bytes());
    assert_eq!(&bytes[73..77], &[2, 0, 0, 0]);
}

#[test]
fn wire_form_is_read_back() {
    let p = sample();
    let back = PomProof::from_bytes(&borsh::to_vec(&tuple(&p)).unwrap()).unwrap();
    assert_eq!(tuple(&back), tuple(&p));
    let decoded: ProofTuple = borsh::from_slice(&p.to_bytes().unwrap()).unwrap();
    assert_eq!(decoded, tuple(&p));
}

#[test]
fn cut_or_extended_wire_forms_are_refused() {
    let bytes = sample().to_bytes().unwrap();
    for n in 0..bytes.len() {
        assert!(PomProof::from_bytes(&bytes[..n]).is_none());
    }
    let mut longer = bytes.clone();
    longer.push(0);
    assert!(PomProof::from_bytes(&longer).is_none());
    assert!(borsh::from_slice::<ProofTuple>(&longer).is_err());
}

#[test]
fn a_count_beyond_the_data_is_refused() {
    let mut bytes = sample().to_bytes().unwrap();
    bytes[73] = 0xff;
    bytes[76] = 0xff;
    assert!(PomProof::from_bytes(&bytes).is_none());
}

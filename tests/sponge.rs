use poseidon2_m31::field::BaseField;
use poseidon2_m31::poseidon2::{poseidon2_permutation, N_STATE, RATE};
use poseidon2_m31::sponge::{hash, hash_messages, Poseidon2Sponge};

fn felts(vals: &[u32]) -> Vec<BaseField> {
    vals.iter().map(|&v| BaseField::from_u32_unchecked(v)).collect()
}

#[test]
fn test_basic_hash() {
    let input = felts(&[1, 2, 3]);
    let hash = hash(&input);
    assert_ne!(hash, BaseField::from_u32_unchecked(0));
}

#[test]
fn test_sponge_absorb() {
    let mut sponge = Poseidon2Sponge::new();
    sponge.absorb(BaseField::from_u32_unchecked(42));
    let hash = sponge.finalize();
    assert_ne!(hash, BaseField::from_u32_unchecked(0));
}

#[test]
fn test_deterministic() {
    let input = felts(&[1, 2, 3]);
    let hash1 = hash(&input);
    let hash2 = hash(&input);
    assert_eq!(hash1, hash2);
}

#[test]
fn test_different_inputs_different_hashes() {
    let input1 = felts(&[1]);
    let input2 = felts(&[2]);
    let hash1 = hash(&input1);
    let hash2 = hash(&input2);
    assert_ne!(hash1, hash2);
}

#[test]
fn test_vertical_chaining() {
    let messages: Vec<[BaseField; RATE]> = vec![
        std::array::from_fn(|i| BaseField::from_u32_unchecked(i as u32)),
        std::array::from_fn(|i| BaseField::from_u32_unchecked((i + 8) as u32)),
    ];
    let outputs = hash_messages(&messages);
    assert_eq!(outputs.len(), 2);
    assert_ne!(outputs[0][0], BaseField::from_u32_unchecked(0));
    assert_ne!(outputs[1][0], BaseField::from_u32_unchecked(0));
}

#[test]
fn known_vector_single_message() {
    let message: [BaseField; RATE] = std::array::from_fn(|i| BaseField::from_u32_unchecked(i as u32));
    let outputs = hash_messages(&[message]);
    assert_eq!(outputs[0][0].value(), 334078718);
    // One full block through the sponge gives the same first element.
    assert_eq!(hash(&message).value(), 334078718);
}

#[test]
fn padding_matches_explicit_zeros() {
    let input = felts(&[1, 2, 3]);
    let mut sponge = Poseidon2Sponge::new();
    sponge.absorb_many(&input);
    sponge.absorb_many(&felts(&[0, 0, 0, 0, 0]));
    let explicit = sponge.finalize_full_state();
    let mut padded = Poseidon2Sponge::new();
    padded.absorb_many(&input);
    let implicit = padded.finalize_full_state();
    assert_eq!(explicit, implicit);
    assert_eq!(hash(&input), explicit[0]);
}

#[test]
fn one_at_a_time_equals_batched() {
    let input = felts(&[5, 6, 7, 8, 9, 10, 11, 12, 13, 14, 15]);
    let mut single = Poseidon2Sponge::new();
    for &e in &input {
        single.absorb(e);
    }
    let mut split = Poseidon2Sponge::new();
    split.absorb_many(&input[..4]);
    split.absorb_many(&input[4..9]);
    split.absorb_many(&input[9..]);
    let mut batched = Poseidon2Sponge::default();
    batched.absorb_many(&input);
    let a = single.finalize_full_state();
    assert_eq!(a, split.finalize_full_state());
    assert_eq!(a, batched.finalize_full_state());
}

#[test]
fn empty_input_hashes_to_zero_state() {
    // No block is absorbed, so the zero state is left as it is.
    assert_eq!(hash(&[]).value(), 0);
    assert_eq!(Poseidon2Sponge::new().finalize_full_state(), [BaseField::zero(); N_STATE]);
}

#[test]
fn full_block_is_not_permuted_again() {
    let input = felts(&[0, 1, 2, 3, 4, 5, 6, 7]);
    let mut state = [BaseField::zero(); N_STATE];
    state[..RATE].copy_from_slice(&input);
    poseidon2_permutation(&mut state);
    let mut sponge = Poseidon2Sponge::new();
    sponge.absorb_many(&input);
    assert_eq!(sponge.finalize_full_state(), state);
}

#[test]
fn finalize_views_agree() {
    let input = felts(&[1, 2, 3, 4, 5, 6, 7, 8, 9, 10]);
    let mut a = Poseidon2Sponge::new();
    a.absorb_many(&input);
    let b = a.clone();
    let c = a.clone();
    let full = a.finalize_full_state();
    let rate = b.finalize_full_rate();
    assert_eq!(rate[..], full[..RATE]);
    assert_eq!(c.finalize(), full[0]);
}

#[test]
fn sponge_hash_values() {
    assert_eq!(hash(&felts(&[1, 2, 3])).value(), 1153568401);
    assert_eq!(hash(&felts(&[1])).value(), 904604465);
    assert_eq!(hash(&felts(&[2])).value(), 486354210);
}

#[test]
fn chaining_follows_previous_output() {
    let m0: [BaseField; RATE] = std::array::from_fn(|i| BaseField::from_u32_unchecked(i as u32));
    let m1: [BaseField; RATE] =
        std::array::from_fn(|i| BaseField::from_u32_unchecked((i + 8) as u32));
    let outputs = hash_messages(&[m0, m1]);

    let mut first = [BaseField::zero(); N_STATE];
    first[..RATE].copy_from_slice(&m0);
    poseidon2_permutation(&mut first);
    assert_eq!(outputs[0], first);

    let mut second = first;
    for i in 0..RATE {
        second[i] = first[i].add(m1[i]);
    }
    poseidon2_permutation(&mut second);
    assert_eq!(outputs[1], second);
    assert_eq!(outputs[1][0].value(), 264559720);
    assert!(hash_messages(&[]).is_empty());
}

use poseidon2_m31::field::{BaseField, P};
use poseidon2_m31::poseidon2::{
    apply_external_round_matrix, apply_internal_round_matrix, apply_m4, poseidon2_permutation,
    pow5, N_STATE,
};

fn felts<const N: usize>(vals: [u32; N]) -> [BaseField; N] {
    vals.map(BaseField::from_u32_unchecked)
}

fn values<const N: usize>(xs: [BaseField; N]) -> [u32; N] {
    xs.map(|x| x.value())
}

#[test]
fn test_pow5() {
    let x = BaseField::from_u32_unchecked(3);
    let result = pow5(x);
    assert_eq!(result, BaseField::from_u32_unchecked(243));
}

#[test]
fn test_m4_matrix() {
    let input = felts([1, 2, 3, 4]);
    let output = apply_m4(input);
    assert_eq!(output.len(), 4);
}

#[test]
fn test_permutation() {
    let mut state: [BaseField; N_STATE] =
        std::array::from_fn(|i| BaseField::from_u32_unchecked(i as u32));
    poseidon2_permutation(&mut state);
    assert_ne!(state[0], BaseField::from_u32_unchecked(0));
}

#[test]
fn pow5_reduces_modulo_p() {
    // (P - 1)^5 = (-1)^5 = P - 1; 2^31 = 1, so (2^7)^5 = 2^35 = 2^4.
    assert_eq!(pow5(BaseField::from_u32_unchecked(P - 1)).value(), P - 1);
    assert_eq!(pow5(BaseField::from_u32_unchecked(128)).value(), 16);
    assert_eq!(pow5(BaseField::zero()).value(), 0);
}

#[test]
fn field_add_and_mul_wrap() {
    let a = BaseField::from_u32_unchecked(P - 1);
    let b = BaseField::from_u32_unchecked(5);
    assert_eq!(a.add(b).value(), 4);
    assert_eq!(a.mul(a).value(), 1);
    assert_eq!(b.mul(BaseField::from_u32_unchecked(7)).value(), 35);
    assert_eq!(b.add(b).value(), 10);
}

#[test]
fn m4_matrix_values() {
    assert_eq!(values(apply_m4(felts([1, 2, 3, 4]))), [34, 23, 50, 39]);
    assert_eq!(values(apply_m4(felts([1, 0, 0, 0]))), [5, 4, 1, 1]);
}

#[test]
fn external_matrix_values() {
    let mut state: [BaseField; N_STATE] =
        std::array::from_fn(|i| BaseField::from_u32_unchecked(i as u32));
    apply_external_round_matrix(&mut state);
    assert_eq!(
        values(state),
        [474, 343, 554, 423, 538, 391, 618, 471, 602, 439, 682, 519, 666, 487, 746, 567]
    );
}

#[test]
fn internal_matrix_values() {
    let mut state: [BaseField; N_STATE] =
        std::array::from_fn(|i| BaseField::from_u32_unchecked(i as u32));
    apply_internal_round_matrix(&mut state);
    assert_eq!(
        values(state),
        [
            120, 124, 136, 168, 248, 440, 888, 1912, 4216, 9336, 20600, 45176, 98424, 213112,
            458872, 983160
        ]
    );
}

#[test]
fn permutation_known_vector() {
    let mut state: [BaseField; N_STATE] = std::array::from_fn(|i| {
        BaseField::from_u32_unchecked(if i < 8 { i as u32 } else { 0 })
    });
    poseidon2_permutation(&mut state);
    assert_eq!(state[0].value(), 334078718);
}

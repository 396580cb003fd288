//! The Poseidon2 permutation on a state of sixteen field elements.

use crate::field::{
    fadd, lemma_fadd_mod, lemma_fadd_of, lemma_fmul_mod, lemma_fmul_of, vals, BaseField, P,
};
use vstd::arithmetic::power2::{lemma2_to64, lemma_pow2_strictly_increases, lemma_pow2_unfold, pow2};
use vstd::prelude::*;

verus! {

/// Number of elements in the state.
pub const N_STATE: usize = 16;

/// Number of elements in the rate segment.
pub const RATE: usize = 8;

/// Number of elements in the capacity segment.
pub const CAPACITY: usize = 8;

/// Number of partial rounds.
pub const N_PARTIAL_ROUNDS: usize = 14;

/// Number of full rounds before, and again after, the partial rounds.
pub const N_HALF_FULL_ROUNDS: usize = 4;

/// Total number of full rounds.
pub const FULL_ROUNDS: usize = 8;

/// The round constant of the full rounds, the same at every round and
/// position.
pub const EXTERNAL_ROUND_CONST: u32 = 1234;

/// The round constant of the partial rounds, the same at every round.
pub const INTERNAL_ROUND_CONST: u32 = 1234;

/// The fifth power of `x` in the field.
pub open spec fn pow5_spec(x: int) -> int {
    (x * x * x * x * x) % (P as int)
}

/// The 4x4 matrix of the external rounds applied to `x`, rows
/// `[5 7 1 3]`, `[4 6 1 1]`, `[1 3 5 7]`, `[1 1 4 6]`.
pub open spec fn m4_spec(x: Seq<int>) -> Seq<int> {
    let p = P as int;
    seq![
        (5 * x[0] + 7 * x[1] + x[2] + 3 * x[3]) % p,
        (4 * x[0] + 6 * x[1] + x[2] + x[3]) % p,
        (x[0] + 3 * x[1] + 5 * x[2] + 7 * x[3]) % p,
        (x[0] + x[1] + 4 * x[2] + 6 * x[3]) % p,
    ]
}

/// Applies the S-box `x -> x^5`, as `(x^2)^2 * x`.
pub fn pow5(x: BaseField) -> (r: BaseField)
    ensures
        r@ == pow5_spec(x@),
{
    let x2 = x.mul(x);
    let x4 = x2.mul(x2);
    let r = x4.mul(x);
    proof {
        let v = x@;
        assert((v * v) * (v * v) == v * v * v * v) by (nonlinear_arith);
        lemma_fmul_of(v * v, v * v, x2@, x2@);
        lemma_fmul_mod(v * v * v * v, v);
    }
    r
}

/// Applies the 4x4 matrix of the external rounds, with doublings written
/// as additions.
pub fn apply_m4(x: [BaseField; 4]) -> (r: [BaseField; 4])
    ensures
        vals(r) == m4_spec(vals(x)),
{
    let ghost (a, b, c, d) = (x[0]@, x[1]@, x[2]@, x[3]@);
    let t0 = x[0].add(x[1]);
    let t02 = t0.add(t0);
    let t1 = x[2].add(x[3]);
    let t12 = t1.add(t1);
    let x11 = x[1].add(x[1]);
    let t2 = x11.add(t1);
    let x33 = x[3].add(x[3]);
    let t3 = x33.add(t0);
    let t124 = t12.add(t12);
    let t4 = t124.add(t3);
    let t024 = t02.add(t02);
    let t5 = t024.add(t2);
    let t6 = t3.add(t5);
    let t7 = t2.add(t4);
    proof {
        lemma_fadd_of(a + b, a + b, t0@, t0@);
        lemma_fadd_of(c + d, c + d, t1@, t1@);
        lemma_fadd_of(2 * b, c + d, x11@, t1@);
        lemma_fadd_of(2 * d, a + b, x33@, t0@);
        lemma_fadd_of(2 * c + 2 * d, 2 * c + 2 * d, t12@, t12@);
        lemma_fadd_of(4 * c + 4 * d, a + b + 2 * d, t124@, t3@);
        lemma_fadd_of(2 * a + 2 * b, 2 * a + 2 * b, t02@, t02@);
        lemma_fadd_of(4 * a + 4 * b, 2 * b + c + d, t024@, t2@);
        lemma_fadd_of(a + b + 2 * d, 4 * a + 6 * b + c + d, t3@, t5@);
        lemma_fadd_of(2 * b + c + d, a + b + 4 * c + 6 * d, t2@, t4@);
    }
    let r = [t6, t5, t7, t4];
    assert(vals(r) =~= m4_spec(vals(x)));
    r
}

/// The state after the 4x4 matrix is applied to each group of four
/// consecutive elements.
pub open spec fn m4_layer(s: Seq<int>) -> Seq<int> {
    Seq::new(16, |p: int| m4_spec(s.subrange(p - p % 4, p - p % 4 + 4))[p % 4])
}

/// The sum of the four elements at positions `j`, `j + 4`, `j + 8`, `j + 12`.
pub open spec fn column_sum(y: Seq<int>, j: int) -> int {
    y[j] + y[j + 4] + y[j + 8] + y[j + 12]
}

/// The external round matrix `circ(2 M4, M4, M4, M4)` applied to `s`: each
/// group of four goes through the 4x4 matrix, then each element gains the
/// sum of its column.
pub open spec fn external_matrix_spec(s: Seq<int>) -> Seq<int> {
    let y = m4_layer(s);
    Seq::new(16, |p: int| (y[p] + column_sum(y, p % 4)) % (P as int))
}

/// Applies the external round matrix in place.
pub fn apply_external_round_matrix(state: &mut [BaseField; N_STATE])
    ensures
        vals(*final(state)) == external_matrix_spec(vals(*old(state))),
{
    let ghost s0 = vals(*state);
    let ghost y = m4_layer(s0);
    let mut i: usize = 0;
    while i < 4
        invariant
            0 <= i <= 4,
            s0 == vals(*old(state)),
            y == m4_layer(s0),
            forall|k: int, c: int|
                0 <= k < 4 && 0 <= c < 4 ==> #[trigger] vals(*state)[4 * k + c] == if k < i {
                    y[4 * k + c]
                } else {
                    s0[4 * k + c]
                },
        decreases 4 - i,
    {
        let g = [state[4 * i], state[4 * i + 1], state[4 * i + 2], state[4 * i + 3]];
        let ghost before = vals(*state);
        proof {
            assert(vals(g) =~= s0.subrange(4 * i, 4 * i + 4)) by {
                assert forall|c: int| 0 <= c < 4 implies vals(g)[c] == s0[4 * i + c] by {
                    assert(before[4 * i + c] == s0[4 * i + c]);
                }
            }
        }
        let r = apply_m4(g);
        state[4 * i] = r[0];
        state[4 * i + 1] = r[1];
        state[4 * i + 2] = r[2];
        state[4 * i + 3] = r[3];
        proof {
            assert forall|k: int, c: int| 0 <= k < 4 && 0 <= c < 4 implies #[trigger] vals(*state)[4 * k + c]
                == if k < i + 1 {
                y[4 * k + c]
            } else {
                s0[4 * k + c]
            } by {
                let p = 4 * k + c;
                assert(p % 4 == c);
                assert(p - p % 4 == 4 * k);
                if k != i {
                    assert(vals(*state)[p] == before[p]);
                }
            }
        }
        i = i + 1;
    }
    let mut j: usize = 0;
    while j < 4
        invariant
            0 <= j <= 4,
            s0 == vals(*old(state)),
            y == m4_layer(s0),
            forall|k: int, c: int|
                0 <= k < 4 && 0 <= c < 4 ==> #[trigger] vals(*state)[4 * k + c] == if c < j {
                    (y[4 * k + c] + column_sum(y, c)) % (P as int)
                } else {
                    y[4 * k + c]
                },
        decreases 4 - j,
    {
        let ghost before = vals(*state);
        proof {
            assert(before[j as int] == y[j as int]) by { assert(before[4 * 0 + j] == y[4 * 0 + j]); }
            assert(before[j + 4] == y[j + 4]) by { assert(before[4 * 1 + j] == y[4 * 1 + j]); }
            assert(before[j + 8] == y[j + 8]) by { assert(before[4 * 2 + j] == y[4 * 2 + j]); }
            assert(before[j + 12] == y[j + 12]) by { assert(before[4 * 3 + j] == y[4 * 3 + j]); }
        }
        let s01 = state[j].add(state[j + 4]);
        let s012 = s01.add(state[j + 8]);
        let s = s012.add(state[j + 12]);
        proof {
            let (a, b, c, d) = (y[j as int], y[j + 4], y[j + 8], y[j + 12]);
            lemma_fadd_of(a + b, c, s01@, c % (P as int));
            lemma_fadd_mod(a + b, c);
            lemma_fadd_mod(a + b + c, d);
            assert(s@ == column_sum(y, j as int) % (P as int));
        }
        state[j] = state[j].add(s);
        state[j + 4] = state[j + 4].add(s);
        state[j + 8] = state[j + 8].add(s);
        state[j + 12] = state[j + 12].add(s);
        proof {
            let cs = column_sum(y, j as int);
            assert forall|k: int, c: int| 0 <= k < 4 && 0 <= c < 4 implies #[trigger] vals(*state)[4 * k + c]
                == if c < j + 1 {
                (y[4 * k + c] + column_sum(y, c)) % (P as int)
            } else {
                y[4 * k + c]
            } by {
                let p = 4 * k + c;
                if c == j {
                    assert(before[p] == y[p]);
                    lemma_fadd_mod(y[p], cs);
                } else {
                    assert(vals(*state)[p] == before[p]);
                }
            }
        }
        j = j + 1;
    }
    proof {
        assert forall|p: int| 0 <= p < 16 implies vals(*state)[p] == external_matrix_spec(s0)[p] by {
            let k = p / 4;
            let c = p % 4;
            assert(p == 4 * k + c);
            assert(vals(*state)[4 * k + c] == (y[4 * k + c] + column_sum(y, c)) % (P as int));
        }
        assert(vals(*state) =~= external_matrix_spec(s0));
    }
}

/// The sum of all elements of `s`.
pub open spec fn seq_sum(s: Seq<int>) -> int
    decreases s.len(),
{
    if s.len() == 0 {
        0
    } else {
        seq_sum(s.drop_last()) + s.last()
    }
}

/// The internal round matrix applied to `s`: element `i` becomes
/// `s[i] * 2^(i + 1)` plus the sum of all elements.
pub open spec fn internal_matrix_spec(s: Seq<int>) -> Seq<int> {
    Seq::new(16, |i: int| (s[i] * pow2((i + 1) as nat) + seq_sum(s)) % (P as int))
}

/// Applies the internal round matrix in place.
pub fn apply_internal_round_matrix(state: &mut [BaseField; N_STATE])
    ensures
        vals(*final(state)) == internal_matrix_spec(vals(*old(state))),
{
    let ghost s0 = vals(*state);
    let mut sum = BaseField::zero();
    let mut i: usize = 0;
    proof {
        assert(s0.take(0) =~= Seq::<int>::empty());
    }
    while i < N_STATE
        invariant
            0 <= i <= N_STATE,
            s0 == vals(*state),
            sum@ == seq_sum(s0.take(i as int)) % (P as int),
        decreases N_STATE - i,
    {
        sum = sum.add(state[i]);
        proof {
            assert(s0.take(i + 1).drop_last() =~= s0.take(i as int));
            lemma_fadd_mod(seq_sum(s0.take(i as int)), s0[i as int]);
        }
        i = i + 1;
    }
    proof {
        assert(s0.take(16) =~= s0);
        lemma2_to64();
    }
    let mut factor: u32 = 2;
    let mut i: usize = 0;
    while i < N_STATE
        invariant
            0 <= i <= N_STATE,
            s0 == vals(*old(state)),
            sum@ == seq_sum(s0) % (P as int),
            factor as int == pow2((i + 1) as nat),
            forall|k: int| 0 <= k < 16 ==> #[trigger] vals(*state)[k] == if k < i {
                internal_matrix_spec(s0)[k]
            } else {
                s0[k]
            },
        decreases N_STATE - i,
    {
        proof {
            lemma2_to64();
            if i + 1 < 16 {
                lemma_pow2_strictly_increases((i + 1) as nat, 16);
            }
            lemma_pow2_unfold((i + 2) as nat);
        }
        let ghost before = vals(*state);
        let m = BaseField::from_u32_unchecked(factor);
        let prod = state[i].mul(m);
        let next = prod.add(sum);
        proof {
            let x = s0[i as int];
            assert(before[i as int] == x);
            lemma_fadd_of(x * factor, seq_sum(s0), prod@, sum@);
        }
        state[i] = next;
        proof {
            assert forall|k: int| 0 <= k < 16 implies #[trigger] vals(*state)[k] == if k < i + 1 {
                internal_matrix_spec(s0)[k]
            } else {
                s0[k]
            } by {
                if k != i {
                    assert(vals(*state)[k] == before[k]);
                }
            }
        }
        factor = factor * 2;
        i = i + 1;
    }
    assert(vals(*state) =~= internal_matrix_spec(s0));
}

/// `c` added to every element of `s`.
pub open spec fn add_const_all(s: Seq<int>, c: int) -> Seq<int> {
    Seq::new(16, |i: int| fadd(s[i], c))
}

/// The S-box applied to every element of `s`.
pub open spec fn sbox_all(s: Seq<int>) -> Seq<int> {
    Seq::new(16, |i: int| pow5_spec(s[i]))
}

/// One full round: constants, external matrix, S-box on every element.
pub open spec fn full_round(s: Seq<int>) -> Seq<int> {
    sbox_all(external_matrix_spec(add_const_all(s, EXTERNAL_ROUND_CONST as int)))
}

/// One partial round: a constant added to element 0, internal matrix,
/// S-box on element 0.
pub open spec fn partial_round(s: Seq<int>) -> Seq<int> {
    let t = internal_matrix_spec(s.update(0, fadd(s[0], INTERNAL_ROUND_CONST as int)));
    t.update(0, pow5_spec(t[0]))
}

/// `n` full rounds applied to `s`.
pub open spec fn full_rounds(s: Seq<int>, n: nat) -> Seq<int>
    decreases n,
{
    if n == 0 {
        s
    } else {
        full_round(full_rounds(s, (n - 1) as nat))
    }
}

/// `n` partial rounds applied to `s`.
pub open spec fn partial_rounds(s: Seq<int>, n: nat) -> Seq<int>
    decreases n,
{
    if n == 0 {
        s
    } else {
        partial_round(partial_rounds(s, (n - 1) as nat))
    }
}

#[verifier::opaque]
/// The Poseidon2 permutation: four full rounds, fourteen partial rounds,
/// four full rounds.
pub open spec fn permutation_spec(s: Seq<int>) -> Seq<int> {
    full_rounds(
        partial_rounds(full_rounds(s, N_HALF_FULL_ROUNDS as nat), N_PARTIAL_ROUNDS as nat),
        N_HALF_FULL_ROUNDS as nat,
    )
}

/// The permutation yields sixteen elements.
pub proof fn lemma_permutation_len(s: Seq<int>)
    ensures
        permutation_spec(s).len() == 16,
{
    reveal(permutation_spec);
}

/// Applies one full round in place.
fn apply_full_round(state: &mut [BaseField; N_STATE])
    ensures
        vals(*final(state)) == full_round(vals(*old(state))),
{
    let ghost s0 = vals(*state);
    let c = BaseField::from_u32_unchecked(EXTERNAL_ROUND_CONST);
    let mut i: usize = 0;
    while i < N_STATE
        invariant
            0 <= i <= N_STATE,
            s0 == vals(*old(state)),
            c@ == EXTERNAL_ROUND_CONST as int,
            forall|k: int| 0 <= k < 16 ==> #[trigger] vals(*state)[k] == if k < i {
                add_const_all(s0, c@)[k]
            } else {
                s0[k]
            },
        decreases N_STATE - i,
    {
        let ghost before = vals(*state);
        state[i] = state[i].add(c);
        proof {
            assert forall|k: int| 0 <= k < 16 implies #[trigger] vals(*state)[k] == if k < i + 1 {
                add_const_all(s0, c@)[k]
            } else {
                s0[k]
            } by {
                if k != i {
                    assert(vals(*state)[k] == before[k]);
                } else {
                    assert(before[k] == s0[k]);
                }
            }
        }
        i = i + 1;
    }
    assert(vals(*state) =~= add_const_all(s0, c@));
    apply_external_round_matrix(state);
    let ghost s1 = vals(*state);
    let mut i: usize = 0;
    while i < N_STATE
        invariant
            0 <= i <= N_STATE,
            s1.len() == 16,
            forall|k: int| 0 <= k < 16 ==> #[trigger] vals(*state)[k] == if k < i {
                sbox_all(s1)[k]
            } else {
                s1[k]
            },
        decreases N_STATE - i,
    {
        let ghost before = vals(*state);
        state[i] = pow5(state[i]);
        proof {
            assert forall|k: int| 0 <= k < 16 implies #[trigger] vals(*state)[k] == if k < i + 1 {
                sbox_all(s1)[k]
            } else {
                s1[k]
            } by {
                if k != i {
                    assert(vals(*state)[k] == before[k]);
                } else {
                    assert(before[k] == s1[k]);
                }
            }
        }
        i = i + 1;
    }
    assert(vals(*state) =~= sbox_all(s1));
}

/// Applies one partial round in place.
fn apply_partial_round(state: &mut [BaseField; N_STATE])
    ensures
        vals(*final(state)) == partial_round(vals(*old(state))),
{
    let ghost s0 = vals(*state);
    state[0] = state[0].add(BaseField::from_u32_unchecked(INTERNAL_ROUND_CONST));
    assert(vals(*state) =~= s0.update(0, fadd(s0[0], INTERNAL_ROUND_CONST as int)));
    apply_internal_round_matrix(state);
    let ghost t = vals(*state);
    state[0] = pow5(state[0]);
    assert(vals(*state) =~= t.update(0, pow5_spec(t[0])));
}

/// Applies the Poseidon2 permutation to `state` in place.
pub fn poseidon2_permutation(state: &mut [BaseField; N_STATE])
    ensures
        vals(*final(state)) == permutation_spec(vals(*old(state))),
{
    let ghost s0 = vals(*state);
    let mut round: usize = 0;
    while round < N_HALF_FULL_ROUNDS
        invariant
            0 <= round <= N_HALF_FULL_ROUNDS,
            s0 == vals(*old(state)),
            vals(*state) == full_rounds(s0, round as nat),
        decreases N_HALF_FULL_ROUNDS - round,
    {
        apply_full_round(state);
        round = round + 1;
    }
    let ghost s1 = vals(*state);
    let mut round: usize = 0;
    while round < N_PARTIAL_ROUNDS
        invariant
            0 <= round <= N_PARTIAL_ROUNDS,
            s0 == vals(*old(state)),
            s1 == full_rounds(s0, N_HALF_FULL_ROUNDS as nat),
            vals(*state) == partial_rounds(s1, round as nat),
        decreases N_PARTIAL_ROUNDS - round,
    {
        apply_partial_round(state);
        round = round + 1;
    }
    let ghost s2 = vals(*state);
    let mut round: usize = 0;
    while round < N_HALF_FULL_ROUNDS
        invariant
            0 <= round <= N_HALF_FULL_ROUNDS,
            s0 == vals(*old(state)),
            s2 == partial_rounds(s1, N_PARTIAL_ROUNDS as nat),
            s1 == full_rounds(s0, N_HALF_FULL_ROUNDS as nat),
            vals(*state) == full_rounds(s2, round as nat),
        decreases N_HALF_FULL_ROUNDS - round,
    {
        apply_full_round(state);
        round = round + 1;
    }
    proof {
        reveal(permutation_spec);
    }
}

} // verus!

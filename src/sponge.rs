//! The sponge construction over the Poseidon2 permutation, and chained
//! hashing of fixed-size messages.

use crate::field::{fadd, vals, BaseField};
use crate::poseidon2::{lemma_permutation_len, permutation_spec, poseidon2_permutation, N_STATE, RATE};
use vstd::prelude::*;

verus! {

/// What a sponge holds: its sixteen-element state and the elements that
/// wait for a full block.
pub struct SpongeModel {
    pub state: Seq<int>,
    pub buffer: Seq<int>,
}

/// The all-zero state.
pub open spec fn zero_state() -> Seq<int> {
    Seq::new(16, |i: int| 0)
}

/// `n` zero elements.
pub open spec fn zeros(n: nat) -> Seq<int> {
    Seq::new(n, |i: int| 0)
}

/// A fresh sponge: zero state, empty buffer.
pub open spec fn initial_model() -> SpongeModel {
    SpongeModel { state: zero_state(), buffer: Seq::empty() }
}

/// The state after a block of eight is added into the rate segment and the
/// result permuted.
pub open spec fn absorb_block(state: Seq<int>, block: Seq<int>) -> Seq<int> {
    permutation_spec(
        Seq::new(16, |i: int| if i < 8 { fadd(state[i], block[i]) } else { state[i] }),
    )
}

/// The sponge after absorbing `e`: the buffer grows by `e`, and once it
/// holds eight elements it is absorbed as a block and emptied.
pub open spec fn absorb_spec(m: SpongeModel, e: int) -> SpongeModel {
    let b = m.buffer.push(e);
    if b.len() == 8 {
        SpongeModel { state: absorb_block(m.state, b), buffer: Seq::empty() }
    } else {
        SpongeModel { state: m.state, buffer: b }
    }
}

/// The sponge after absorbing each element of `xs` in order.
pub open spec fn absorb_all(m: SpongeModel, xs: Seq<int>) -> SpongeModel
    decreases xs.len(),
{
    if xs.len() == 0 {
        m
    } else {
        absorb_spec(absorb_all(m, xs.drop_last()), xs.last())
    }
}

/// The state once the sponge is finalized: a non-empty buffer is padded
/// with zeros to eight elements and absorbed; an empty one leaves the state.
pub open spec fn final_state(m: SpongeModel) -> Seq<int> {
    if m.buffer.len() == 0 {
        m.state
    } else {
        absorb_block(m.state, m.buffer + zeros((8 - m.buffer.len()) as nat))
    }
}

/// The hash of `xs`: the first state element once a fresh sponge has
/// absorbed `xs` and been finalized.
pub open spec fn hash_spec(xs: Seq<int>) -> int {
    final_state(absorb_all(initial_model(), xs))[0]
}

/// A sponge's model is well formed: sixteen state elements and fewer than
/// eight waiting.
pub open spec fn model_wf(m: SpongeModel) -> bool {
    m.state.len() == 16 && m.buffer.len() < 8
}

/// The representatives of a slice of elements, in order.
pub open spec fn slice_vals(s: Seq<BaseField>) -> Seq<int> {
    s.map_values(|e: BaseField| e@)
}

/// Poseidon2 sponge hasher: absorbs elements in blocks of eight and pads
/// the last block with zeros.
#[derive(Clone)]
pub struct Poseidon2Sponge {
    state: [BaseField; N_STATE],
    buffer: Vec<BaseField>,
}

impl View for Poseidon2Sponge {
    type V = SpongeModel;

    closed spec fn view(&self) -> SpongeModel {
        SpongeModel { state: vals(self.state), buffer: slice_vals(self.buffer@) }
    }
}

impl Poseidon2Sponge {
    /// Fewer than eight elements wait in the buffer.
    pub open spec fn wf(&self) -> bool {
        model_wf(self@)
    }

    /// Creates a sponge with zero state and an empty buffer.
    pub fn new() -> (r: Poseidon2Sponge)
        ensures
            r@ == initial_model(),
            r.wf(),
    {
        let z = BaseField::zero();
        let r = Poseidon2Sponge { state: [z; N_STATE], buffer: Vec::new() };
        assert(r@.state =~= zero_state());
        assert(r@.buffer =~= Seq::<int>::empty());
        r
    }
    /// Adds the eight buffered elements into the rate segment, permutes
    /// the state and empties the buffer.
    fn process_block(&mut self)
        requires
            old(self)@.buffer.len() == 8,
        ensures
            final(self)@ == (SpongeModel {
                state: absorb_block(old(self)@.state, old(self)@.buffer),
                buffer: Seq::empty(),
            }),
    {
        let ghost s0 = self@.state;
        let ghost b = self@.buffer;
        let ghost mixed = Seq::new(16, |i: int| if i < 8 { fadd(s0[i], b[i]) } else { s0[i] });
        let mut i: usize = 0;
        while i < RATE
            invariant
                0 <= i <= RATE,
                s0 == old(self)@.state,
                b == old(self)@.buffer,
                self.buffer@ == old(self).buffer@,
                b.len() == 8,
                mixed == Seq::new(16, |i: int| if i < 8 { fadd(s0[i], b[i]) } else { s0[i] }),
                forall|k: int| 0 <= k < 16 ==> #[trigger] vals(self.state)[k] == if k < i {
                    mixed[k]
                } else {
                    s0[k]
                },
            decreases RATE - i,
        {
            let ghost before = vals(self.state);
            let e = self.buffer[i];
            self.state[i] = self.state[i].add(e);
            proof {
                assert(b[i as int] == e@);
                assert forall|k: int| 0 <= k < 16 implies #[trigger] vals(self.state)[k] == if k < i + 1 {
                    mixed[k]
                } else {
                    s0[k]
                } by {
                    if k != i {
                        assert(vals(self.state)[k] == before[k]);
                    } else {
                        assert(before[k] == s0[k]);
                    }
                }
            }
            i = i + 1;
        }
        assert(vals(self.state) =~= mixed);
        poseidon2_permutation(&mut self.state);
        self.buffer.clear();
        assert(self@.buffer =~= Seq::<int>::empty());
    }

    /// Absorbs one element; a full buffer is absorbed as a block.
    pub fn absorb(&mut self, element: BaseField)
        requires
            old(self).wf(),
        ensures
            final(self).wf(),
            final(self)@ == absorb_spec(old(self)@, element@),
    {
        self.buffer.push(element);
        assert(self@.buffer =~= old(self)@.buffer.push(element@));
        if self.buffer.len() == RATE {
            self.process_block();
        }
    }

    /// Absorbs the elements in order, as repeated calls of `absorb` would.
    pub fn absorb_many(&mut self, elements: &[BaseField])
        requires
            old(self).wf(),
        ensures
            final(self).wf(),
            final(self)@ == absorb_all(old(self)@, slice_vals(elements@)),
    {
        let ghost xs = slice_vals(elements@);
        let mut i: usize = 0;
        proof {
            assert(xs.take(0) =~= Seq::<int>::empty());
        }
        while i < elements.len()
            invariant
                0 <= i <= elements.len(),
                xs == slice_vals(elements@),
                self.wf(),
                self@ == absorb_all(old(self)@, xs.take(i as int)),
            decreases elements.len() - i,
        {
            self.absorb(elements[i]);
            proof {
                assert(xs.take(i + 1).drop_last() =~= xs.take(i as int));
            }
            i = i + 1;
        }
        assert(xs.take(elements.len() as int) =~= xs);
    }

    /// Pads a non-empty buffer with zeros to a full block and absorbs it.
    fn pad_and_process(&mut self)
        requires
            old(self).wf(),
        ensures
            final(self)@.state == final_state(old(self)@),
            final(self)@.buffer.len() == 0,
    {
        if self.buffer.len() != 0 {
            let ghost b0 = self@.buffer;
            while self.buffer.len() < RATE
                invariant
                    self.buffer.len() <= RATE,
                    self@.state == old(self)@.state,
                    b0 == old(self)@.buffer,
                    self@.buffer == b0 + zeros((self.buffer.len() - b0.len()) as nat),
                    b0.len() <= self.buffer.len(),
                decreases RATE - self.buffer.len(),
            {
                let ghost before = self@.buffer;
                let z = BaseField::zero();
                self.buffer.push(z);
                assert(self@.buffer =~= before.push(0));
                assert(self@.buffer =~= b0 + zeros((self.buffer.len() - b0.len()) as nat));
            }
            self.process_block();
        }
    }

    /// Finalizes the sponge and returns the first state element.
    pub fn finalize(self) -> (r: BaseField)
        requires
            self.wf(),
        ensures
            r@ == final_state(self@)[0],
    {
        let mut s = self;
        s.pad_and_process();
        s.state[0]
    }

    /// Finalizes the sponge and returns the rate segment.
    pub fn finalize_full_rate(self) -> (r: [BaseField; RATE])
        requires
            self.wf(),
        ensures
            vals(r) == final_state(self@).take(8),
    {
        let mut s = self;
        s.pad_and_process();
        let r = [
            s.state[0],
            s.state[1],
            s.state[2],
            s.state[3],
            s.state[4],
            s.state[5],
            s.state[6],
            s.state[7],
        ];
        assert(vals(r) =~= final_state(self@).take(8));
        r
    }

    /// Finalizes the sponge and returns the whole state.
    pub fn finalize_full_state(self) -> (r: [BaseField; N_STATE])
        requires
            self.wf(),
        ensures
            vals(r) == final_state(self@),
    {
        let mut s = self;
        s.pad_and_process();
        s.state
    }
}

impl Default for Poseidon2Sponge {
    fn default() -> (r: Poseidon2Sponge)
        ensures
            r@ == initial_model(),
            r.wf(),
    {
        Poseidon2Sponge::new()
    }
}

/// Hashes a sequence of elements, of any length, to one element.
pub fn hash(elements: &[BaseField]) -> (r: BaseField)
    ensures
        r@ == hash_spec(slice_vals(elements@)),
{
    let mut sponge = Poseidon2Sponge::new();
    sponge.absorb_many(elements);
    sponge.finalize()
}

/// The state that is permuted for the next message: the first message
/// fills the rate segment over a zero capacity; a later one is added into
/// the previous output's rate segment, whose capacity segment it keeps.
pub open spec fn chain_input(prev: Seq<Seq<int>>, m: Seq<int>) -> Seq<int> {
    if prev.len() == 0 {
        Seq::new(16, |i: int| if i < 8 { m[i] } else { 0 })
    } else {
        let o = prev.last();
        Seq::new(16, |i: int| if i < 8 { fadd(o[i], m[i]) } else { o[i] })
    }
}

/// The outputs of chained hashing: one permuted state per message.
pub open spec fn chain_spec(msgs: Seq<Seq<int>>) -> Seq<Seq<int>>
    decreases msgs.len(),
{
    if msgs.len() == 0 {
        Seq::empty()
    } else {
        let prev = chain_spec(msgs.drop_last());
        prev.push(permutation_spec(chain_input(prev, msgs.last())))
    }
}

/// The representatives of each message.
pub open spec fn messages_vals(ms: Seq<[BaseField; RATE]>) -> Seq<Seq<int>> {
    ms.map_values(|m: [BaseField; RATE]| vals(m))
}

/// The representatives of each output state.
pub open spec fn outputs_vals(os: Seq<[BaseField; N_STATE]>) -> Seq<Seq<int>> {
    os.map_values(|o: [BaseField; N_STATE]| vals(o))
}

/// Hashes the messages with chaining: each output is the permuted state
/// built from the message and the previous output.
pub fn hash_messages(messages: &[[BaseField; RATE]]) -> (r: Vec<[BaseField; N_STATE]>)
    ensures
        outputs_vals(r@) == chain_spec(messages_vals(messages@)),
{
    let ghost ms = messages_vals(messages@);
    let mut outputs: Vec<[BaseField; N_STATE]> = Vec::with_capacity(messages.len());
    let mut prev: Option<[BaseField; N_STATE]> = None;
    let mut n: usize = 0;
    proof {
        assert(ms.take(0) =~= Seq::<Seq<int>>::empty());
        assert(outputs_vals(outputs@) =~= Seq::<Seq<int>>::empty());
    }
    while n < messages.len()
        invariant
            0 <= n <= messages.len(),
            ms == messages_vals(messages@),
            outputs_vals(outputs@) == chain_spec(ms.take(n as int)),
            outputs@.len() == n,
            match prev {
                None => n == 0,
                Some(p) => n > 0 && vals(p) == outputs_vals(outputs@).last(),
            },
        decreases messages.len() - n,
    {
        let message = messages[n];
        let ghost prev_outs = outputs_vals(outputs@);
        let ghost mv = vals(message);
        let mut state = [BaseField::zero(); N_STATE];
        let mut i: usize = 0;
        while i < N_STATE
            invariant
                0 <= i <= N_STATE,
                mv == vals(message),
                mv.len() == 8,
                match prev {
                    None => n == 0,
                    Some(p) => n > 0 && vals(p) == prev_outs.last(),
                },
                prev_outs.len() == n,
                forall|k: int| 0 <= k < i ==> #[trigger] vals(state)[k] == chain_input(prev_outs, mv)[k],
            decreases N_STATE - i,
        {
            let ghost before = vals(state);
            let v = match prev {
                Some(p) => if i < RATE {
                    p[i].add(message[i])
                } else {
                    p[i]
                },
                None => if i < RATE {
                    message[i]
                } else {
                    BaseField::zero()
                },
            };
            state[i] = v;
            proof {
                assert forall|k: int| 0 <= k < i + 1 implies #[trigger] vals(state)[k] == chain_input(prev_outs, mv)[k] by {
                    if k != i {
                        assert(vals(state)[k] == before[k]);
                    }
                }
            }
            i = i + 1;
        }
        assert(vals(state) =~= chain_input(prev_outs, mv));
        poseidon2_permutation(&mut state);
        outputs.push(state);
        prev = Some(state);
        proof {
            assert(ms.take(n + 1).drop_last() =~= ms.take(n as int));
            assert(ms.take(n + 1).last() == mv);
            assert(outputs_vals(outputs@) =~= prev_outs.push(vals(state)));
        }
        n = n + 1;
    }
    assert(ms.take(messages.len() as int) =~= ms);
    outputs
}

/// Hashing is a function of the input alone: equal inputs hash equally,
/// whenever and wherever the hash is computed.
pub proof fn lemma_hash_deterministic(x: Seq<int>, y: Seq<int>)
    requires
        x == y,
    ensures
        hash_spec(x) == hash_spec(y),
{
}

/// Absorbing one element as a batch of one is absorbing it alone.
pub proof fn lemma_absorb_single(m: SpongeModel, e: int)
    ensures
        absorb_all(m, seq![e]) == absorb_spec(m, e),
{
    assert(seq![e].drop_last() =~= Seq::<int>::empty());
    assert(absorb_all(m, seq![e].drop_last()) == m);
}

/// However the input is split into batches, absorbing the batches in turn
/// is absorbing the whole input at once.
pub proof fn lemma_absorb_split(m: SpongeModel, a: Seq<int>, b: Seq<int>)
    ensures
        absorb_all(absorb_all(m, a), b) == absorb_all(m, a + b),
    decreases b.len(),
{
    if b.len() == 0 {
        assert(a + b =~= a);
    } else {
        lemma_absorb_split(m, a, b.drop_last());
        assert((a + b).drop_last() =~= a + b.drop_last());
        assert((a + b).last() == b.last());
    }
}

/// While the buffer does not fill up, absorbing only appends to it.
proof fn lemma_absorb_short(m: SpongeModel, xs: Seq<int>)
    requires
        m.buffer.len() + xs.len() < 8,
    ensures
        absorb_all(m, xs) == (SpongeModel { state: m.state, buffer: m.buffer + xs }),
    decreases xs.len(),
{
    if xs.len() == 0 {
        assert(m.buffer + xs =~= m.buffer);
    } else {
        lemma_absorb_short(m, xs.drop_last());
        assert(m.buffer + xs =~= (m.buffer + xs.drop_last()).push(xs.last()));
    }
}

/// Finalizing pads with zeros: for an input shorter than a block, the
/// final state equals the state after the input and enough explicit
/// zeros to fill the block have been absorbed, which leaves nothing
/// buffered; so the hash is its first element.
pub proof fn lemma_padding_consistent(x: Seq<int>)
    requires
        0 < x.len() < 8,
    ensures
        absorb_all(initial_model(), x + zeros((8 - x.len()) as nat)).buffer.len() == 0,
        final_state(absorb_all(initial_model(), x)) == absorb_all(
            initial_model(),
            x + zeros((8 - x.len()) as nat),
        ).state,
        hash_spec(x) == absorb_all(initial_model(), x + zeros((8 - x.len()) as nat)).state[0],
{
    let init = initial_model();
    let k = (8 - x.len()) as nat;
    lemma_absorb_short(init, x);
    assert(init.buffer + x =~= x);
    let m = absorb_all(init, x);
    let z = zeros(k);
    lemma_absorb_split(init, x, z);
    lemma_absorb_short(m, z.drop_last());
    assert(z.drop_last() =~= zeros((k - 1) as nat));
    assert((x + z.drop_last()).push(0) =~= x + z);
}

/// Chained hashing: the first output is the permuted message over a zero
/// capacity; the second is the permuted state whose rate segment is the
/// first output's rate plus the second message and whose capacity segment
/// is the first output's; adding a message leaves earlier outputs alone.
pub proof fn lemma_chaining(m0: Seq<int>, m1: Seq<int>)
    requires
        m0.len() == 8,
        m1.len() == 8,
    ensures
        chain_spec(seq![m0])[0] == permutation_spec(m0 + zeros(8)),
        chain_spec(seq![m0, m1])[0] == chain_spec(seq![m0])[0],
        chain_spec(seq![m0, m1])[1] == permutation_spec(
            Seq::new(8, |i: int| fadd(chain_spec(seq![m0])[0][i], m1[i]))
                + chain_spec(seq![m0])[0].subrange(8, 16),
        ),
{
    assert(seq![m0].drop_last() =~= Seq::<Seq<int>>::empty());
    assert(seq![m0, m1].drop_last() =~= seq![m0]);
    assert(chain_spec(seq![m0].drop_last()) =~= Seq::<Seq<int>>::empty());
    let prev = chain_spec(seq![m0]);
    lemma_permutation_len(chain_input(Seq::empty(), m0));
    assert(chain_input(Seq::empty(), m0) =~= m0 + zeros(8));
    assert(chain_input(prev, m1) =~= Seq::new(8, |i: int| fadd(prev[0][i], m1[i])) + prev[0].subrange(
        8,
        16,
    ));
}

} // verus!

//! State vectors, single qubits, and measurement with collapse.
use vstd::prelude::*;

use crate::algebra::{
    all_close, is_dot, is_weight_sum, lemma_dot_step, lemma_weight_sum_step, map_entries,
    weight_sum,
};
use crate::dims::{
    bit_of, index_bit, is_pow2, is_power_of_two, lemma_div_bound, lemma_flat_bound, lemma_flat_index,
    lemma_two_pow_mono, two_pow,
};
use crate::error::QError;
use crate::matrix::QMatrix;
use crate::ClassicalBit;

verus! {

/// `s` is a possible tensor product of `outer` and `inner`, with `outer` the
/// slower-varying factor: entry `o * inner.len() + i` is a result of
/// `times` on `outer[o]` and `inner[i]`.
pub open spec fn is_tensor<T, M: Fn(T, T) -> T>(
    times: M,
    outer: Seq<T>,
    inner: Seq<T>,
    s: Seq<T>,
) -> bool {
    &&& s.len() == outer.len() * inner.len()
    &&& forall|o: int, i: int|
        0 <= o < outer.len() && 0 <= i < inner.len() ==> times.ensures(
            (outer[o], inner[i]),
            #[trigger] s[o * inner.len() + i],
        )
}

/// `s` is a possible composition of `qubits` into one state: the last qubit
/// is the outermost, slowest-varying factor, so that qubit `k` ends up as
/// bit `k` of the index.
pub open spec fn is_composition<T: Copy, M: Fn(T, T) -> T>(
    times: M,
    qubits: Seq<Qubit<T>>,
    s: Seq<T>,
) -> bool
    decreases qubits.len(),
{
    if qubits.len() <= 1 {
        qubits.len() == 1 && s == qubits[0].amplitudes()
    } else {
        let n = qubits.len() - 1;
        exists|inner: Seq<T>|
            #[trigger] is_tensor(times, qubits[n].amplitudes(), inner, s) && is_composition(
                times,
                qubits.take(n),
                inner,
            )
    }
}

/// The amplitudes of `s` whose index has bit `bit` equal to `on`, in index
/// order.
pub open spec fn bit_group<T>(s: Seq<T>, bit: nat, on: bool) -> Seq<T>
    decreases s.len(),
{
    if s.len() == 0 {
        Seq::empty()
    } else {
        let n = s.len() - 1;
        let prev = bit_group(s.take(n), bit, on);
        if bit_of(n as nat, bit) == on {
            prev.push(s[n])
        } else {
            prev
        }
    }
}

/// `after` is a possible collapse of `before` onto `outcome` of bit `bit`:
/// amplitudes whose index disagrees with the outcome are `zero`, the others
/// are results of `rescale` on their former value and `norm`.
pub open spec fn is_collapse<T, R, S: Fn(T, R) -> T>(
    before: Seq<T>,
    after: Seq<T>,
    bit: nat,
    outcome: ClassicalBit,
    zero: T,
    norm: R,
    rescale: S,
) -> bool {
    &&& after.len() == before.len()
    &&& forall|i: int|
        0 <= i < before.len() ==> if bit_of(i as nat, bit) == (outcome == ClassicalBit::On) {
            rescale.ensures((before[i], norm), #[trigger] after[i])
        } else {
            after[i] == zero
        }
}

/// The weight of the outcome that was kept.
pub open spec fn kept_weight<R>(outcome: ClassicalBit, w_off: R, w_on: R) -> R {
    match outcome {
        ClassicalBit::Off => w_off,
        ClassicalBit::On => w_on,
    }
}

/// The amplitudes of `s` that a collapse onto `outcome` of bit `bit`
/// discards, in index order.
pub open spec fn discarded_group<T>(s: Seq<T>, bit: nat, outcome: ClassicalBit) -> Seq<T> {
    bit_group(s, bit, outcome == ClassicalBit::Off)
}

/// Where every amplitude whose index has bit `bit` equal to `on` is `z`,
/// that bit group holds `z` alone.
proof fn lemma_bit_group_constant<T>(s: Seq<T>, bit: nat, on: bool, z: T)
    requires
        forall|i: int| 0 <= i < s.len() && bit_of(i as nat, bit) == on ==> #[trigger] s[i] == z,
    ensures
        forall|k: int|
            0 <= k < bit_group(s, bit, on).len() ==> #[trigger] bit_group(s, bit, on)[k] == z,
    decreases s.len(),
{
    if s.len() > 0 {
        let n = s.len() - 1;
        let t = s.take(n);
        assert forall|i: int| 0 <= i < t.len() && bit_of(i as nat, bit) == on implies #[trigger] t[i]
            == z by {
            assert(t[i] == s[i]);
        }
        lemma_bit_group_constant(t, bit, on, z);
        let prev = bit_group(t, bit, on);
        let g = bit_group(s, bit, on);
        if bit_of(n as nat, bit) == on {
            assert(g == prev.push(s[n]));
            assert(s[n] == z);
        } else {
            assert(g == prev);
        }
        assert forall|k: int| 0 <= k < g.len() implies #[trigger] g[k] == z by {
            if k < prev.len() {
                assert(g[k] == prev[k]);
            }
        }
    } else {
        assert(bit_group(s, bit, on) =~= Seq::<T>::empty());
    }
}

/// After a collapse onto an outcome, the amplitudes of the other outcome are
/// all `zero`: measuring the same bit again weighs that outcome as a sum of
/// weights of `zero` alone.
pub proof fn lemma_discarded_group_zero<T, R, S: Fn(T, R) -> T>(
    before: Seq<T>,
    after: Seq<T>,
    bit: nat,
    outcome: ClassicalBit,
    zero: T,
    norm: R,
    rescale: S,
)
    requires
        is_collapse(before, after, bit, outcome, zero, norm, rescale),
    ensures
        forall|k: int|
            0 <= k < discarded_group(after, bit, outcome).len() ==> #[trigger] discarded_group(
                after,
                bit,
                outcome,
            )[k] == zero,
{
    let on = outcome == ClassicalBit::Off;
    assert forall|i: int| 0 <= i < after.len() && bit_of(i as nat, bit) == on implies #[trigger] after[i]
        == zero by {
        assert(bit_of(i as nat, bit) != (outcome == ClassicalBit::On));
    }
    lemma_bit_group_constant(after, bit, on, zero);
}

/// `after` and `r` are a possible outcome of measuring bit `bit` of
/// `before`, as [`QState::measure`] does it: the two outcome weights are
/// summed as in [`QState::outcome_weights`], `draw` picks an outcome from
/// them, and either the kept weight is degenerate, the result is
/// `DegenerateMeasurement` and the state is unchanged, or the state is
/// collapsed onto the outcome with the kept weight as `norm`.
pub open spec fn is_measurement<
    T,
    R,
    W: Fn(T) -> R,
    A: Fn(R, R) -> R,
    D: Fn(R, R) -> bool,
    G: Fn(R) -> bool,
    S: Fn(T, R) -> T,
>(
    before: Seq<T>,
    after: Seq<T>,
    bit: nat,
    zero: T,
    weight: W,
    plus: A,
    zero_weight: R,
    draw: D,
    is_degenerate: G,
    rescale: S,
    r: Result<ClassicalBit, QError>,
) -> bool {
    exists|w_off: R, w_on: R|
        #![trigger is_weight_sum(weight, plus, zero_weight, bit_group(before, bit, false), w_off), is_weight_sum(weight, plus, zero_weight, bit_group(before, bit, true), w_on)]
        {
            &&& is_weight_sum(
                weight,
                plus,
                zero_weight,
                bit_group(before, bit, false),
                w_off,
            )
            &&& is_weight_sum(
                weight,
                plus,
                zero_weight,
                bit_group(before, bit, true),
                w_on,
            )
            &&& match r {
                Ok(o) => {
                    &&& draw.ensures((w_off, w_on), o == ClassicalBit::On)
                    &&& is_degenerate.ensures((kept_weight(o, w_off, w_on),), false)
                    &&& is_collapse(
                        before,
                        after,
                        bit,
                        o,
                        zero,
                        kept_weight(o, w_off, w_on),
                        rescale,
                    )
                },
                Err(e) => {
                    &&& e == QError::DegenerateMeasurement
                    &&& after == before
                    &&& exists|on: bool|
                        {
                            &&& #[trigger] draw.ensures((w_off, w_on), on)
                            &&& is_degenerate.ensures(
                                (
                                    if on {
                                        w_on
                                    } else {
                                        w_off
                                    },
                                ),
                                true,
                            )
                        }
                },
            }
        }
}

/// A single qubit: the amplitudes of |0⟩ and |1⟩.
#[derive(Debug, Clone, Copy)]
pub struct Qubit<T> {
    alpha: T,
    beta: T,
}

/// A dense state vector of amplitudes. Bit `k` of an index is the value of
/// qubit `k`, the least significant bit being qubit 0.
#[derive(Debug, Clone)]
pub struct QState<T> {
    state: Vec<T>,
}

impl<T> View for QState<T> {
    type V = Seq<T>;

    closed spec fn view(&self) -> Seq<T> {
        self.state@
    }
}

impl<T: Copy> Qubit<T> {
    /// The amplitudes of |0⟩ and |1⟩, in that order.
    pub closed spec fn amplitudes(&self) -> Seq<T> {
        seq![self.alpha, self.beta]
    }

    /// Builds a qubit, which `is_normalized` must accept; fails with
    /// `UnnormalizedState` where it does not.
    pub fn new<N: Fn(T, T) -> bool>(alpha: T, beta: T, is_normalized: N) -> (r: Result<
        Qubit<T>,
        QError,
    >)
        requires
            is_normalized.requires((alpha, beta)),
        ensures
            r matches Ok(q) ==> q.amplitudes() == seq![alpha, beta] && is_normalized.ensures(
                (alpha, beta),
                true,
            ),
            r matches Err(e) ==> e == QError::UnnormalizedState && is_normalized.ensures(
                (alpha, beta),
                false,
            ),
    {
        if is_normalized(alpha, beta) {
            Ok(Qubit { alpha, beta })
        } else {
            Err(QError::UnnormalizedState)
        }
    }

    /// The basis state of a classical bit: |0⟩ for `Off`, |1⟩ for `On`.
    pub fn from_classical(bit: ClassicalBit, zero: T, one: T) -> (r: Qubit<T>)
        ensures
            r.amplitudes() == (match bit {
                ClassicalBit::Off => seq![one, zero],
                ClassicalBit::On => seq![zero, one],
            }),
    {
        match bit {
            ClassicalBit::Off => Qubit { alpha: one, beta: zero },
            ClassicalBit::On => Qubit { alpha: zero, beta: one },
        }
    }

    /// The amplitude of |0⟩.
    pub fn alpha(&self) -> (r: T)
        ensures
            r == self.amplitudes()[0],
    {
        self.alpha
    }

    /// The amplitude of |1⟩.
    pub fn beta(&self) -> (r: T)
        ensures
            r == self.amplitudes()[1],
    {
        self.beta
    }

    /// The one-qubit state vector `[alpha, beta]`.
    pub fn to_state(&self) -> (r: QState<T>)
        ensures
            r@ == self.amplitudes(),
    {
        let mut v: Vec<T> = Vec::new();
        v.push(self.alpha);
        v.push(self.beta);
        proof {
            assert(v@ =~= self.amplitudes());
        }
        QState { state: v }
    }
}

impl<T: Copy> QState<T> {
    /// Builds a state from its amplitudes. Fails with `InvalidDimension`
    /// unless their number is a power of two, and with `UnnormalizedState`
    /// unless `is_normalized` accepts their total weight: the sum of
    /// `weight` over the amplitudes, from `zero` and in index order.
    pub fn from_data<R: Copy, W: Fn(T) -> R, A: Fn(R, R) -> R, N: Fn(R) -> bool>(
        state: Vec<T>,
        weight: W,
        plus: A,
        zero: R,
        is_normalized: N,
    ) -> (r: Result<QState<T>, QError>)
        requires
            forall|x: T| weight.requires((x,)),
            forall|a: R, b: R| plus.requires((a, b)),
            forall|a: R| is_normalized.requires((a,)),
        ensures
            !is_pow2(state@.len()) ==> r == Err::<QState<T>, QError>(QError::InvalidDimension),
            is_pow2(state@.len()) ==> exists|total: R|
                #[trigger] is_weight_sum(weight, plus, zero, state@, total) && match r {
                    Ok(s) => s@ == state@ && is_normalized.ensures((total,), true),
                    Err(e) => e == QError::UnnormalizedState && is_normalized.ensures(
                        (total,),
                        false,
                    ),
                },
    {
        if !is_power_of_two(state.len()) {
            return Err(QError::InvalidDimension);
        }
        let total = weight_sum(state.as_slice(), weight, plus, zero);
        if is_normalized(total) {
            Ok(QState { state })
        } else {
            Err(QError::UnnormalizedState)
        }
    }

    /// The total weight of the state: the sum of `weight` over the
    /// amplitudes, from `zero` and in index order.
    pub fn total_weight<R: Copy, W: Fn(T) -> R, A: Fn(R, R) -> R>(
        &self,
        weight: W,
        plus: A,
        zero: R,
    ) -> (r: R)
        requires
            forall|x: T| weight.requires((x,)),
            forall|a: R, b: R| plus.requires((a, b)),
        ensures
            is_weight_sum(weight, plus, zero, self@, r),
    {
        weight_sum(self.state.as_slice(), weight, plus, zero)
    }

    /// The amplitudes in index order.
    pub fn data_slice(&self) -> (r: &[T])
        ensures
            r@ == self@,
    {
        self.state.as_slice()
    }

    /// Whether `other` has as many amplitudes as `self` and `close` accepts
    /// each pair at the same index.
    pub fn equals<E: Fn(T, T) -> bool>(&self, other: &QState<T>, close: E) -> (r: bool)
        requires
            forall|x: T, y: T| close.requires((x, y)),
        ensures
            r ==> self@.len() == other@.len() && forall|i: int|
                0 <= i < self@.len() ==> close.ensures((self@[i], other@[i]), true),
            !r ==> self@.len() != other@.len() || exists|i: int|
                0 <= i < self@.len() && close.ensures((self@[i], other@[i]), false),
    {
        all_close(self.state.as_slice(), other.state.as_slice(), close)
    }

    /// The state with every amplitude multiplied by a scalar: each amplitude
    /// replaced by a result of `scale` on it.
    pub fn scale<S: Fn(T) -> T>(&self, scale: S) -> (r: QState<T>)
        requires
            forall|x: T| scale.requires((x,)),
        ensures
            r@.len() == self@.len(),
            forall|i: int| 0 <= i < self@.len() ==> scale.ensures((self@[i],), #[trigger] r@[i]),
    {
        QState { state: map_entries(self.state.as_slice(), scale) }
    }

    /// The tensor product `outer ⊗ self`, with `outer` the slower-varying
    /// factor: amplitude `o * self.len() + i` is `outer[o]·self[i]`.
    pub fn state_tensor<M: Fn(T, T) -> T>(&self, outer: &QState<T>, times: M) -> (r: QState<T>)
        requires
            forall|x: T, y: T| times.requires((x, y)),
            outer@.len() * self@.len() <= usize::MAX,
        ensures
            is_tensor(times, outer@, self@, r@),
    {
        let m = self.state.len();
        let total = outer.state.len() * m;
        let mut out: Vec<T> = Vec::new();
        let mut t: usize = 0;
        while t < total
            invariant
                m == self@.len(),
                total == outer@.len() * m,
                forall|x: T, y: T| times.requires((x, y)),
                0 <= t <= total,
                out@.len() == t,
                forall|u: int|
                    0 <= u < t ==> times.ensures(
                        (outer@[u / m as int], self@[u % m as int]),
                        #[trigger] out@[u],
                    ),
            decreases total - t,
        {
            proof {
                lemma_div_bound(t as int, outer@.len() as int, m as int);
            }
            let v = times(outer.state[t / m], self.state[t % m]);
            out.push(v);
            t = t + 1;
        }
        let r = QState { state: out };
        proof {
            assert forall|o: int, i: int|
                0 <= o < outer@.len() && 0 <= i < self@.len() implies times.ensures(
                (outer@[o], self@[i]),
                #[trigger] r@[o * self@.len() + i],
            ) by {
                lemma_flat_index(o, i, m as int);
                lemma_flat_bound(o, i, outer@.len() as int, m as int);
            }
        }
        r
    }

    /// Applies `gate` as a linear operator: amplitude `row` of the result is
    /// the sum over `c` of `gate[row, c]·self[c]`, summed from `zero` in
    /// order of `c`. The result is `DimensionMismatch` when the side of
    /// `gate` differs from the number of amplitudes.
    pub fn apply<M: Fn(T, T) -> T, A: Fn(T, T) -> T>(
        &self,
        gate: &QMatrix<T>,
        zero: T,
        times: M,
        plus: A,
    ) -> (r: Result<QState<T>, QError>)
        requires
            gate.wf(),
            forall|x: T, y: T| times.requires((x, y)),
            forall|x: T, y: T| plus.requires((x, y)),
        ensures
            r is Ok <==> gate.side() == self@.len(),
            r matches Ok(s) ==> {
                &&& s@.len() == self@.len()
                &&& forall|row: int|
                    0 <= row < s@.len() ==> is_dot(
                        times,
                        plus,
                        zero,
                        gate.row(row),
                        self@,
                        #[trigger] s@[row],
                    )
            },
            r matches Err(e) ==> e == QError::DimensionMismatch,
    {
        let n = gate.dims();
        if n != self.state.len() {
            return Err(QError::DimensionMismatch);
        }
        let data = gate.data_slice();
        let data_len = data.len();
        let mut out: Vec<T> = Vec::new();
        let mut row: usize = 0;
        while row < n
            invariant
                gate.wf(),
                n == gate.side(),
                n == self@.len(),
                data@ == gate.entries(),
                data_len == data@.len(),
                forall|x: T, y: T| times.requires((x, y)),
                forall|x: T, y: T| plus.requires((x, y)),
                0 <= row <= n,
                out@.len() == row,
                forall|u: int|
                    0 <= u < row ==> is_dot(times, plus, zero, gate.row(u), self@, #[trigger] out@[u]),
            decreases n - row,
        {
            let ghost xs = gate.row(row as int);
            let mut sum = zero;
            let mut k: usize = 0;
            while k < n
                invariant
                    gate.wf(),
                    n == gate.side(),
                    n == self@.len(),
                    data@ == gate.entries(),
                    data_len == data@.len(),
                    0 <= row < n,
                    xs == gate.row(row as int),
                    forall|x: T, y: T| times.requires((x, y)),
                    forall|x: T, y: T| plus.requires((x, y)),
                    0 <= k <= n,
                    is_dot(times, plus, zero, xs.take(k as int), self@, sum),
                decreases n - k,
            {
                proof {
                    lemma_flat_bound(row as int, k as int, n as int, n as int);
                }
                let p = times(data[row * n + k], self.state[k]);
                let next = plus(sum, p);
                proof {
                    lemma_dot_step(times, plus, zero, xs, self@, k as int, sum, p, next);
                }
                sum = next;
                k = k + 1;
            }
            proof {
                assert(xs.take(n as int) =~= xs);
            }
            out.push(sum);
            row = row + 1;
        }
        Ok(QState { state: out })
    }

    /// Composes qubits into one state. The list is composed in reverse
    /// order: the last qubit is the outermost factor, so that qubit `k` is
    /// bit `k` of the index. Fails with `EmptyInput` on an empty list.
    pub fn from_qubits<M: Fn(T, T) -> T>(qubits: &[Qubit<T>], times: M) -> (r: Result<
        QState<T>,
        QError,
    >)
        requires
            forall|x: T, y: T| times.requires((x, y)),
            two_pow(qubits@.len()) <= usize::MAX,
        ensures
            r is Ok <==> qubits@.len() > 0,
            r matches Ok(s) ==> s@.len() == two_pow(qubits@.len()) && is_composition(
                times,
                qubits@,
                s@,
            ),
            r matches Err(e) ==> e == QError::EmptyInput,
    {
        let n = qubits.len();
        if n == 0 {
            return Err(QError::EmptyInput);
        }
        let mut acc = qubits[0].to_state();
        proof {
            assert(qubits@.take(1)[0] == qubits@[0]);
            assert(two_pow(0) == 1);
            assert(two_pow(1) == 2);
        }
        let mut k: usize = 1;
        while k < n
            invariant
                n == qubits@.len(),
                1 <= k <= n,
                forall|x: T, y: T| times.requires((x, y)),
                two_pow(n as nat) <= usize::MAX,
                acc@.len() == two_pow(k as nat),
                is_composition(times, qubits@.take(k as int), acc@),
            decreases n - k,
        {
            let q = qubits[k].to_state();
            proof {
                lemma_two_pow_mono((k + 1) as nat, n as nat);
            }
            let next = acc.state_tensor(&q, &times);
            proof {
                let qs = qubits@.take(k + 1);
                assert(qs.take(k as int) =~= qubits@.take(k as int));
                assert(qs[k as int] == qubits@[k as int]);
                assert(is_tensor(times, qs[k as int].amplitudes(), acc@, next@));
            }
            acc = next;
            k = k + 1;
        }
        proof {
            assert(qubits@.take(n as int) =~= qubits@);
        }
        Ok(acc)
    }

    /// The total weight of each outcome of measuring bit `bit`: the sums,
    /// from `zero` and in index order, of `weight` over the amplitudes whose
    /// index has that bit clear (first) and set (second).
    pub fn outcome_weights<R: Copy, W: Fn(T) -> R, A: Fn(R, R) -> R>(
        &self,
        bit: usize,
        weight: W,
        plus: A,
        zero: R,
    ) -> (r: (R, R))
        requires
            forall|x: T| weight.requires((x,)),
            forall|a: R, b: R| plus.requires((a, b)),
        ensures
            is_weight_sum(weight, plus, zero, bit_group(self@, bit as nat, false), r.0),
            is_weight_sum(weight, plus, zero, bit_group(self@, bit as nat, true), r.1),
    {
        let n = self.state.len();
        let mut w_off = zero;
        let mut w_on = zero;
        let mut i: usize = 0;
        proof {
            assert(self@.take(0).len() == 0);
        }
        while i < n
            invariant
                n == self@.len(),
                0 <= i <= n,
                forall|x: T| weight.requires((x,)),
                forall|a: R, b: R| plus.requires((a, b)),
                is_weight_sum(weight, plus, zero, bit_group(self@.take(i as int), bit as nat, false), w_off),
                is_weight_sum(weight, plus, zero, bit_group(self@.take(i as int), bit as nat, true), w_on),
            decreases n - i,
        {
            let x = self.state[i];
            let w = weight(x);
            let on = index_bit(i, bit);
            proof {
                let s = self@.take(i + 1);
                assert(s.take(i as int) =~= self@.take(i as int));
                assert(s[i as int] == x);
            }
            if on {
                let next = plus(w_on, w);
                proof {
                    lemma_weight_sum_step(
                        weight,
                        plus,
                        zero,
                        bit_group(self@.take(i as int), bit as nat, true),
                        x,
                        w_on,
                        w,
                        next,
                    );
                }
                w_on = next;
            } else {
                let next = plus(w_off, w);
                proof {
                    lemma_weight_sum_step(
                        weight,
                        plus,
                        zero,
                        bit_group(self@.take(i as int), bit as nat, false),
                        x,
                        w_off,
                        w,
                        next,
                    );
                }
                w_off = next;
            }
            i = i + 1;
        }
        proof {
            assert(self@.take(n as int) =~= self@);
        }
        (w_off, w_on)
    }

    /// Collapses the state onto `outcome` of bit `bit`: every amplitude
    /// whose index disagrees with the outcome becomes `zero`, and every other
    /// one is replaced by what `rescale` makes of it and `norm`.
    pub fn collapse<R: Copy, S: Fn(T, R) -> T>(
        &mut self,
        bit: usize,
        outcome: ClassicalBit,
        zero: T,
        norm: R,
        rescale: S,
    )
        requires
            forall|x: T| rescale.requires((x, norm)),
        ensures
            is_collapse(old(self)@, final(self)@, bit as nat, outcome, zero, norm, rescale),
    {
        let n = self.state.len();
        let keep_on = match outcome {
            ClassicalBit::On => true,
            ClassicalBit::Off => false,
        };
        let mut i: usize = 0;
        while i < n
            invariant
                n == self@.len(),
                n == old(self)@.len(),
                0 <= i <= n,
                keep_on == (outcome == ClassicalBit::On),
                forall|x: T| rescale.requires((x, norm)),
                forall|j: int| i <= j < n ==> #[trigger] self@[j] == old(self)@[j],
                forall|j: int|
                    0 <= j < i ==> if bit_of(j as nat, bit as nat) == keep_on {
                        rescale.ensures((old(self)@[j], norm), #[trigger] self@[j])
                    } else {
                        self@[j] == zero
                    },
            decreases n - i,
        {
            let v = if index_bit(i, bit) == keep_on {
                rescale(self.state[i], norm)
            } else {
                zero
            };
            self.state[i] = v;
            i = i + 1;
        }
    }

    /// Measures bit `bit` and collapses the state onto the outcome.
    ///
    /// The weight of each outcome is summed as in
    /// [`QState::outcome_weights`]; `draw` picks the outcome from the two
    /// weights (`true` for `On`); if `is_degenerate` finds the kept weight
    /// too small to renormalize against, the state is left as it was and
    /// `DegenerateMeasurement` is returned; otherwise the state is collapsed
    /// as in [`QState::collapse`], with the kept weight as `norm`.
    pub fn measure<
        R: Copy,
        W: Fn(T) -> R,
        A: Fn(R, R) -> R,
        D: Fn(R, R) -> bool,
        G: Fn(R) -> bool,
        S: Fn(T, R) -> T,
    >(
        &mut self,
        bit: usize,
        zero: T,
        weight: W,
        plus: A,
        zero_weight: R,
        draw: D,
        is_degenerate: G,
        rescale: S,
    ) -> (r: Result<ClassicalBit, QError>)
        requires
            forall|x: T| weight.requires((x,)),
            forall|a: R, b: R| plus.requires((a, b)),
            forall|a: R, b: R| draw.requires((a, b)),
            forall|a: R| is_degenerate.requires((a,)),
            forall|x: T, a: R| rescale.requires((x, a)),
        ensures
            is_measurement(
                old(self)@,
                final(self)@,
                bit as nat,
                zero,
                weight,
                plus,
                zero_weight,
                draw,
                is_degenerate,
                rescale,
                r,
            ),
    {
        let (w_off, w_on) = self.outcome_weights(bit, weight, plus, zero_weight);
        let on = draw(w_off, w_on);
        let outcome = if on {
            ClassicalBit::On
        } else {
            ClassicalBit::Off
        };
        let kept = if on {
            w_on
        } else {
            w_off
        };
        if is_degenerate(kept) {
            return Err(QError::DegenerateMeasurement);
        }
        self.collapse(bit, outcome, zero, kept, rescale);
        Ok(outcome)
    }
}

/// A sum of weights of `z` alone is the zero weight, where `z` weighs the
/// zero weight and adding zero weights gives the zero weight.
proof fn lemma_weight_sum_of_constant<T, R, W: Fn(T) -> R, A: Fn(R, R) -> R>(
    weight: W,
    plus: A,
    zero_weight: R,
    xs: Seq<T>,
    z: T,
    r: R,
)
    requires
        forall|k: int| 0 <= k < xs.len() ==> #[trigger] xs[k] == z,
        forall|w: R| #[trigger] weight.ensures((z,), w) ==> w == zero_weight,
        forall|q: R| #[trigger] plus.ensures((zero_weight, zero_weight), q) ==> q == zero_weight,
        is_weight_sum(weight, plus, zero_weight, xs, r),
    ensures
        r == zero_weight,
    decreases xs.len(),
{
    if xs.len() > 0 {
        let n = xs.len() - 1;
        let t = xs.take(n);
        let (acc, w) = choose|acc: R, w: R|
            is_weight_sum(weight, plus, zero_weight, t, acc) && weight.ensures((xs[n],), w)
                && #[trigger] plus.ensures((acc, w), r);
        assert forall|k: int| 0 <= k < t.len() implies #[trigger] t[k] == z by {
            assert(t[k] == xs[k]);
        }
        lemma_weight_sum_of_constant(weight, plus, zero_weight, t, z, acc);
        assert(xs[n] == z);
    }
}

/// Measuring the same bit a second time, with no gate in between, gives
/// the outcome of the first measurement whenever it succeeds: the other
/// outcome weighs the zero weight, which `is_degenerate` refuses. This holds
/// for an arithmetic in which `zero` weighs `zero_weight`, adding two zero
/// weights gives `zero_weight`, and `zero_weight` is degenerate.
pub proof fn lemma_measure_repeats<
    T,
    R,
    W: Fn(T) -> R,
    A: Fn(R, R) -> R,
    D: Fn(R, R) -> bool,
    G: Fn(R) -> bool,
    S: Fn(T, R) -> T,
>(
    s0: Seq<T>,
    s1: Seq<T>,
    s2: Seq<T>,
    bit: nat,
    zero: T,
    weight: W,
    plus: A,
    zero_weight: R,
    draw: D,
    is_degenerate: G,
    rescale: S,
    first: ClassicalBit,
    second: Result<ClassicalBit, QError>,
)
    requires
        is_measurement(
            s0,
            s1,
            bit,
            zero,
            weight,
            plus,
            zero_weight,
            draw,
            is_degenerate,
            rescale,
            Ok(first),
        ),
        is_measurement(s1, s2, bit, zero, weight, plus, zero_weight, draw, is_degenerate, rescale, second),
        forall|w: R| #[trigger] weight.ensures((zero,), w) ==> w == zero_weight,
        forall|q: R| #[trigger] plus.ensures((zero_weight, zero_weight), q) ==> q == zero_weight,
        forall|b: bool| #[trigger] is_degenerate.ensures((zero_weight,), b) ==> b,
    ensures
        second matches Ok(o) ==> o == first,
{
    let (w_off, w_on) = choose|w_off: R, w_on: R|
        #![trigger is_weight_sum(weight, plus, zero_weight, bit_group(s0, bit, false), w_off), is_weight_sum(weight, plus, zero_weight, bit_group(s0, bit, true), w_on)]
        {
            &&& is_weight_sum(weight, plus, zero_weight, bit_group(s0, bit, false), w_off)
            &&& is_weight_sum(weight, plus, zero_weight, bit_group(s0, bit, true), w_on)
            &&& is_degenerate.ensures((kept_weight(first, w_off, w_on),), false)
            &&& is_collapse(s0, s1, bit, first, zero, kept_weight(first, w_off, w_on), rescale)
        };
    lemma_discarded_group_zero(s0, s1, bit, first, zero, kept_weight(first, w_off, w_on), rescale);
    if let Ok(o) = second {
        if o != first {
            let (v_off, v_on) = choose|v_off: R, v_on: R|
                #![trigger is_weight_sum(weight, plus, zero_weight, bit_group(s1, bit, false), v_off), is_weight_sum(weight, plus, zero_weight, bit_group(s1, bit, true), v_on)]
                {
                    &&& is_weight_sum(weight, plus, zero_weight, bit_group(s1, bit, false), v_off)
                    &&& is_weight_sum(weight, plus, zero_weight, bit_group(s1, bit, true), v_on)
                    &&& is_degenerate.ensures((kept_weight(o, v_off, v_on),), false)
                };
            let g = discarded_group(s1, bit, first);
            assert(g == bit_group(s1, bit, o == ClassicalBit::On));
            lemma_weight_sum_of_constant(
                weight,
                plus,
                zero_weight,
                g,
                zero,
                kept_weight(o, v_off, v_on),
            );
            assert(is_degenerate.ensures((zero_weight,), false));
        }
    }
}

} // verus!

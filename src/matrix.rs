//! Dense square matrices, stored row-major and tagged with their side.
use vstd::prelude::*;

use crate::algebra::{all_close, has_units, is_dot, lemma_dot_single, lemma_dot_step, map_entries};
use crate::dims::{
    is_pow2, is_pow2_square, lemma_div_bound, lemma_flat_bound, lemma_flat_index, lemma_square_bound,
    pow2_side,
};
use crate::error::QError;

verus! {

/// A square matrix of amplitudes, such as a quantum gate.
///
/// Entry `(row, col)` is stored at `row * dims + col`. Matrices built with
/// [`QMatrix::from_data`] have a power-of-two side; those built with
/// [`QMatrix::from_vecs`] need only be square.
#[derive(Debug, Clone)]
pub struct QMatrix<T> {
    dims: usize,
    data: Vec<T>,
}

impl<T: Copy> QMatrix<T> {
    /// The side length.
    pub closed spec fn side(&self) -> nat {
        self.dims as nat
    }

    /// The entries in row-major order.
    pub closed spec fn entries(&self) -> Seq<T> {
        self.data@
    }

    /// The buffer holds exactly `side * side` entries.
    pub open spec fn wf(&self) -> bool {
        self.entries().len() == self.side() * self.side()
    }

    /// The entry in row `row` and column `col`.
    pub open spec fn entry(&self, row: int, col: int) -> T {
        self.entries()[row * self.side() + col]
    }

    /// Row `row`, left to right.
    pub open spec fn row(&self, row: int) -> Seq<T> {
        Seq::new(self.side(), |c: int| self.entry(row, c))
    }

    /// Column `col`, top to bottom.
    pub open spec fn col(&self, col: int) -> Seq<T> {
        Seq::new(self.side(), |k: int| self.entry(k, col))
    }

    /// `m` is a possible product `left · self`: entry `(row, col)` is a sum,
    /// as in [`is_dot`], of `left[row, k]·self[k, col]` over `k`.
    pub open spec fn is_product_of<M: Fn(T, T) -> T, A: Fn(T, T) -> T>(
        &self,
        left: QMatrix<T>,
        m: QMatrix<T>,
        zero: T,
        times: M,
        plus: A,
    ) -> bool {
        &&& m.wf()
        &&& m.side() == self.side()
        &&& forall|row: int, col: int|
            0 <= row < m.side() && 0 <= col < m.side() ==> is_dot(
                times,
                plus,
                zero,
                left.row(row),
                self.col(col),
                #[trigger] m.entry(row, col),
            )
    }

    /// The matrix is the identity over `zero` and `one`.
    pub open spec fn is_identity(&self, zero: T, one: T) -> bool {
        &&& self.wf()
        &&& forall|i: int, j: int|
            0 <= i < self.side() && 0 <= j < self.side() ==> #[trigger] self.entry(i, j) == if i
                == j {
                one
            } else {
                zero
            }
    }

    /// The side length.
    pub fn dims(&self) -> (r: usize)
        ensures
            r == self.side(),
    {
        self.dims
    }

    /// The entries in row-major order.
    pub fn data_slice(&self) -> (r: &[T])
        ensures
            r@ == self.entries(),
    {
        self.data.as_slice()
    }

    /// Builds a matrix from its row-major entries. Fails with
    /// `InvalidDimension` unless their number is the square of a power of two.
    pub fn from_data(data: Vec<T>) -> (r: Result<QMatrix<T>, QError>)
        ensures
            r is Ok <==> is_pow2_square(data@.len()),
            r matches Ok(m) ==> m.wf() && is_pow2(m.side()) && m.entries() == data@,
            r matches Err(e) ==> e == QError::InvalidDimension,
    {
        match pow2_side(data.len()) {
            Some(dims) => Ok(QMatrix { dims, data }),
            None => Err(QError::InvalidDimension),
        }
    }

    /// Builds a matrix from its rows. Fails with `InvalidDimension` unless
    /// every row is as long as there are rows. The side need not be a power
    /// of two here, unlike in [`QMatrix::from_data`].
    pub fn from_vecs(data: Vec<Vec<T>>) -> (r: Result<QMatrix<T>, QError>)
        ensures
            r is Ok <==> forall|i: int| 0 <= i < data@.len() ==> (#[trigger] data@[i])@.len() == data@.len(),
            r matches Ok(m) ==> {
                &&& m.wf()
                &&& m.side() == data@.len()
                &&& forall|i: int, j: int|
                    0 <= i < m.side() && 0 <= j < m.side() ==> #[trigger] m.entry(i, j) == data@[i]@[j]
            },
            r matches Err(e) ==> e == QError::InvalidDimension,
    {
        let n = data.len();
        let mut i: usize = 0;
        while i < n
            invariant
                n == data@.len(),
                0 <= i <= n,
                forall|k: int| 0 <= k < i ==> (#[trigger] data@[k])@.len() == n,
            decreases n - i,
        {
            if data[i].len() != n {
                return Err(QError::InvalidDimension);
            }
            i = i + 1;
        }
        let mut flat: Vec<T> = Vec::new();
        let mut row: usize = 0;
        while row < n
            invariant
                n == data@.len(),
                0 <= row <= n,
                forall|k: int| 0 <= k < n ==> (#[trigger] data@[k])@.len() == n,
                flat@.len() == row * n,
                forall|a: int, b: int|
                    0 <= a < row && 0 <= b < n ==> #[trigger] flat@[a * n + b] == data@[a]@[b],
            decreases n - row,
        {
            let mut col: usize = 0;
            proof {
                lemma_flat_index(row as int, 0, n as int);
            }
            while col < n
                invariant
                    n == data@.len(),
                    0 <= row < n,
                    0 <= col <= n,
                    forall|k: int| 0 <= k < n ==> (#[trigger] data@[k])@.len() == n,
                    flat@.len() == row * n + col,
                    row * n + n == (row + 1) * n,
                    forall|a: int, b: int|
                        0 <= a < row && 0 <= b < n ==> #[trigger] flat@[a * n + b] == data@[a]@[b],
                    forall|b: int| 0 <= b < col ==> #[trigger] flat@[row * n + b] == data@[row as int]@[b],
                decreases n - col,
            {
                flat.push(data[row][col]);
                proof {
                    assert forall|a: int, b: int| 0 <= a < row && 0 <= b < n implies #[trigger] flat@[a
                        * n + b] == data@[a]@[b] by {
                        lemma_flat_bound(a, b, row as int, n as int);
                    }
                }
                col = col + 1;
            }
            proof {
                assert forall|a: int, b: int| 0 <= a < row + 1 && 0 <= b < n implies #[trigger] flat@[a
                    * n + b] == data@[a]@[b] by {
                    if a == row {
                        assert(flat@[row * n + b] == data@[row as int]@[b]);
                    }
                }
            }
            row = row + 1;
        }
        let m = QMatrix { dims: n, data: flat };
        assert forall|i: int, j: int| 0 <= i < m.side() && 0 <= j < m.side() implies #[trigger] m.entry(
            i,
            j,
        ) == data@[i]@[j] by {
            assert(m.entry(i, j) == flat@[i * n + j]);
        }
        Ok(m)
    }

    /// Whether `other` has the same side as `self` and `close` accepts each
    /// pair of entries at the same position.
    pub fn equals<E: Fn(T, T) -> bool>(&self, other: &QMatrix<T>, close: E) -> (r: bool)
        requires
            self.wf(),
            other.wf(),
            forall|x: T, y: T| close.requires((x, y)),
        ensures
            r ==> self.side() == other.side() && forall|i: int|
                0 <= i < self.entries().len() ==> close.ensures(
                    (self.entries()[i], other.entries()[i]),
                    true,
                ),
            !r ==> self.side() != other.side() || exists|i: int|
                0 <= i < self.entries().len() && close.ensures(
                    (self.entries()[i], other.entries()[i]),
                    false,
                ),
    {
        if self.dims != other.dims {
            return false;
        }
        all_close(self.data.as_slice(), other.data.as_slice(), close)
    }

    /// The matrix with every entry multiplied by a scalar: each entry
    /// replaced by a result of `scale` on it.
    pub fn scale<S: Fn(T) -> T>(&self, scale: S) -> (r: QMatrix<T>)
        requires
            self.wf(),
            forall|x: T| scale.requires((x,)),
        ensures
            r.wf(),
            r.side() == self.side(),
            forall|i: int|
                0 <= i < self.entries().len() ==> scale.ensures(
                    (self.entries()[i],),
                    #[trigger] r.entries()[i],
                ),
    {
        QMatrix { dims: self.dims, data: map_entries(self.data.as_slice(), scale) }
    }

    /// The product `other · self`: the matrix that acts as `self` followed by
    /// `other`. Entry `(row, col)` is `Σ_k other[row, k]·self[k, col]`, summed
    /// from `zero` in order of `k`. Fails with `DimensionMismatch` unless both
    /// matrices have the same side.
    pub fn mul<M: Fn(T, T) -> T, A: Fn(T, T) -> T>(
        &self,
        other: &QMatrix<T>,
        zero: T,
        times: M,
        plus: A,
    ) -> (r: Result<QMatrix<T>, QError>)
        requires
            self.wf(),
            other.wf(),
            forall|x: T, y: T| times.requires((x, y)),
            forall|x: T, y: T| plus.requires((x, y)),
        ensures
            r is Ok <==> self.side() == other.side(),
            r matches Ok(m) ==> self.is_product_of(*other, m, zero, times, plus),
            r matches Err(e) ==> e == QError::DimensionMismatch,
    {
        if self.dims != other.dims {
            return Err(QError::DimensionMismatch);
        }
        let n = self.dims;
        let total = self.data.len();
        let mut out: Vec<T> = Vec::new();
        let mut t: usize = 0;
        while t < total
            invariant
                self.wf(),
                other.wf(),
                n == self.side(),
                n == other.side(),
                total == n * n,
                forall|x: T, y: T| times.requires((x, y)),
                forall|x: T, y: T| plus.requires((x, y)),
                0 <= t <= total,
                out@.len() == t,
                forall|u: int|
                    0 <= u < t ==> is_dot(
                        times,
                        plus,
                        zero,
                        other.row(u / n as int),
                        self.col(u % n as int),
                        #[trigger] out@[u],
                    ),
            decreases total - t,
        {
            proof {
                lemma_div_bound(t as int, n as int, n as int);
            }
            let row = t / n;
            let col = t % n;
            let ghost xs = other.row(row as int);
            let ghost ys = self.col(col as int);
            let mut sum = zero;
            let mut k: usize = 0;
            while k < n
                invariant
                    self.wf(),
                    other.wf(),
                    n == self.side(),
                    n == other.side(),
                    total == n * n,
                    0 <= row < n,
                    0 <= col < n,
                    xs == other.row(row as int),
                    ys == self.col(col as int),
                    forall|x: T, y: T| times.requires((x, y)),
                    forall|x: T, y: T| plus.requires((x, y)),
                    0 <= k <= n,
                    is_dot(times, plus, zero, xs.take(k as int), ys, sum),
                decreases n - k,
            {
                proof {
                    lemma_flat_bound(row as int, k as int, n as int, n as int);
                    lemma_flat_bound(k as int, col as int, n as int, n as int);
                }
                let p = times(other.data[row * n + k], self.data[k * n + col]);
                let next = plus(sum, p);
                proof {
                    lemma_dot_step(times, plus, zero, xs, ys, k as int, sum, p, next);
                }
                sum = next;
                k = k + 1;
            }
            proof {
                assert(xs.take(n as int) =~= xs);
            }
            out.push(sum);
            t = t + 1;
        }
        let m = QMatrix { dims: n, data: out };
        proof {
            assert forall|row: int, col: int| 0 <= row < m.side() && 0 <= col < m.side() implies is_dot(
                times,
                plus,
                zero,
                other.row(row),
                self.col(col),
                #[trigger] m.entry(row, col),
            ) by {
                lemma_flat_index(row, col, n as int);
                lemma_flat_bound(row, col, n as int, n as int);
                assert(m.entry(row, col) == out@[row * n + col]);
            }
        }
        Ok(m)
    }

    /// The Kronecker product `other ⊗ self`: `other` gives the blocks and
    /// `self` the entries inside each block. Entry
    /// `(ra * s + rb, ca * s + cb)`, with `s` the side of `self`, is
    /// `other[ra, ca]·self[rb, cb]`.
    pub fn kronecker<M: Fn(T, T) -> T>(&self, other: &QMatrix<T>, times: M) -> (r: QMatrix<T>)
        requires
            self.wf(),
            other.wf(),
            forall|x: T, y: T| times.requires((x, y)),
            (other.side() * self.side()) * (other.side() * self.side()) <= usize::MAX,
        ensures
            r.wf(),
            r.side() == other.side() * self.side(),
            forall|ra: int, ca: int, rb: int, cb: int|
                0 <= ra < other.side() && 0 <= ca < other.side() && 0 <= rb < self.side() && 0 <= cb
                    < self.side() ==> times.ensures(
                    (other.entry(ra, ca), self.entry(rb, cb)),
                    #[trigger] r.entry(ra * self.side() + rb, ca * self.side() + cb),
                ),
    {
        let ds = self.dims;
        let dout = other.dims;
        proof {
            lemma_square_bound(dout as int * ds as int, usize::MAX as int);
        }
        let n = dout * ds;
        let total = n * n;
        let self_len = self.data.len();
        let other_len = other.data.len();
        let mut out: Vec<T> = Vec::new();
        let mut t: usize = 0;
        while t < total
            invariant
                self.wf(),
                other.wf(),
                ds == self.side(),
                dout == other.side(),
                n == dout * ds,
                total == n * n,
                self_len == self.data@.len(),
                other_len == other.data@.len(),
                forall|x: T, y: T| times.requires((x, y)),
                0 <= t <= total,
                out@.len() == t,
                forall|u: int|
                    0 <= u < t ==> times.ensures(
                        (
                            other.entry((u / n as int) / ds as int, (u % n as int) / ds as int),
                            self.entry((u / n as int) % ds as int, (u % n as int) % ds as int),
                        ),
                        #[trigger] out@[u],
                    ),
            decreases total - t,
        {
            proof {
                lemma_div_bound(t as int, n as int, n as int);
                lemma_div_bound((t / n) as int, dout as int, ds as int);
                lemma_div_bound((t % n) as int, dout as int, ds as int);
            }
            let orow = t / n;
            let ocol = t % n;
            let ra = orow / ds;
            let rb = orow % ds;
            let ca = ocol / ds;
            let cb = ocol % ds;
            proof {
                lemma_flat_bound(ra as int, ca as int, dout as int, dout as int);
                lemma_flat_bound(rb as int, cb as int, ds as int, ds as int);
            }
            let v = times(other.data[ra * dout + ca], self.data[rb * ds + cb]);
            out.push(v);
            t = t + 1;
        }
        let m = QMatrix { dims: n, data: out };
        proof {
            assert forall|ra: int, ca: int, rb: int, cb: int|
                0 <= ra < other.side() && 0 <= ca < other.side() && 0 <= rb < self.side() && 0 <= cb
                    < self.side() implies times.ensures(
                (other.entry(ra, ca), self.entry(rb, cb)),
                #[trigger] m.entry(ra * self.side() + rb, ca * self.side() + cb),
            ) by {
                let orow = ra * ds + rb;
                let ocol = ca * ds + cb;
                lemma_flat_index(ra, rb, ds as int);
                lemma_flat_index(ca, cb, ds as int);
                lemma_flat_bound(ra, rb, dout as int, ds as int);
                lemma_flat_bound(ca, cb, dout as int, ds as int);
                lemma_flat_index(orow, ocol, n as int);
                lemma_flat_bound(orow, ocol, n as int, n as int);
                assert(m.entry(orow, ocol) == out@[orow * n + ocol]);
            }
        }
        m
    }
}

/// Multiplying by the identity, on either side, gives the matrix back, for
/// an arithmetic in which `one` and `zero` are units as in [`has_units`].
pub proof fn lemma_mul_identity<T: Copy, M: Fn(T, T) -> T, A: Fn(T, T) -> T>(
    a: QMatrix<T>,
    id: QMatrix<T>,
    zero: T,
    one: T,
    times: M,
    plus: A,
    id_then_a: QMatrix<T>,
    a_then_id: QMatrix<T>,
)
    requires
        a.wf(),
        id.is_identity(zero, one),
        id.side() == a.side(),
        has_units(times, plus, zero, one),
        id.is_product_of(a, id_then_a, zero, times, plus),
        a.is_product_of(id, a_then_id, zero, times, plus),
    ensures
        id_then_a.side() == a.side() && a_then_id.side() == a.side(),
        forall|row: int, col: int|
            0 <= row < a.side() && 0 <= col < a.side() ==> #[trigger] id_then_a.entry(row, col)
                == a.entry(row, col) && a_then_id.entry(row, col) == a.entry(row, col),
{
    assert forall|row: int, col: int| 0 <= row < a.side() && 0 <= col < a.side() implies #[trigger] id_then_a.entry(
        row,
        col,
    ) == a.entry(row, col) && a_then_id.entry(row, col) == a.entry(row, col) by {
        let xs = a.row(row);
        let ys = id.col(col);
        assert forall|k: int, p: T| 0 <= k < xs.len() && #[trigger] times.ensures((xs[k], ys[k]), p) implies p
            == (if k == col {
            a.entry(row, col)
        } else {
            zero
        }) by {
            assert(ys[k] == id.entry(k, col));
        }
        lemma_dot_single(times, plus, zero, xs, ys, col, a.entry(row, col), id_then_a.entry(row, col));
        let us = id.row(row);
        let vs = a.col(col);
        assert forall|k: int, p: T| 0 <= k < us.len() && #[trigger] times.ensures((us[k], vs[k]), p) implies p
            == (if k == row {
            a.entry(row, col)
        } else {
            zero
        }) by {
            assert(us[k] == id.entry(row, k));
        }
        lemma_dot_single(times, plus, zero, us, vs, row, a.entry(row, col), a_then_id.entry(row, col));
    }
}

} // verus!

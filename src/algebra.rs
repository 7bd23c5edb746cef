//! What a sum of products, or a sum of weights, may evaluate to when its
//! arithmetic is carried out by caller-supplied closures.
use vstd::prelude::*;

verus! {

/// `r` is a value that `Σ_{k < xs.len()} xs[k]·ys[k]` can take when the sum
/// starts from `zero`, each product `xs[k]·ys[k]` is a result of `times`, each
/// partial sum is a result of `plus`, and the terms are added in order of `k`.
pub open spec fn is_dot<T, M: Fn(T, T) -> T, A: Fn(T, T) -> T>(
    times: M,
    plus: A,
    zero: T,
    xs: Seq<T>,
    ys: Seq<T>,
    r: T,
) -> bool
    decreases xs.len(),
{
    if xs.len() == 0 {
        r == zero
    } else {
        let n = xs.len() - 1;
        exists|acc: T, p: T|
            #![trigger plus.ensures((acc, p), r)]
            is_dot(times, plus, zero, xs.take(n), ys, acc) && times.ensures((xs[n], ys[n]), p)
                && plus.ensures((acc, p), r)
    }
}

/// `r` is a value that `Σ_{k < xs.len()} weight(xs[k])` can take when the sum
/// starts from `zero`, each weight is a result of `weight`, each partial sum
/// is a result of `plus`, and the terms are added in order of `k`.
pub open spec fn is_weight_sum<T, R, W: Fn(T) -> R, A: Fn(R, R) -> R>(
    weight: W,
    plus: A,
    zero: R,
    xs: Seq<T>,
    r: R,
) -> bool
    decreases xs.len(),
{
    if xs.len() == 0 {
        r == zero
    } else {
        let n = xs.len() - 1;
        exists|acc: R, w: R|
            #![trigger plus.ensures((acc, w), r)]
            is_weight_sum(weight, plus, zero, xs.take(n), acc) && weight.ensures((xs[n],), w)
                && plus.ensures((acc, w), r)
    }
}

/// `one` is a unit of `times` on both sides, `zero` absorbs under `times`
/// on both sides, and `zero` is a unit of `plus` on both sides.
pub open spec fn has_units<T, M: Fn(T, T) -> T, A: Fn(T, T) -> T>(
    times: M,
    plus: A,
    zero: T,
    one: T,
) -> bool {
    &&& forall|x: T, p: T| #[trigger] times.ensures((x, one), p) ==> p == x
    &&& forall|x: T, p: T| #[trigger] times.ensures((one, x), p) ==> p == x
    &&& forall|x: T, p: T| #[trigger] times.ensures((x, zero), p) ==> p == zero
    &&& forall|x: T, p: T| #[trigger] times.ensures((zero, x), p) ==> p == zero
    &&& forall|x: T, q: T| #[trigger] plus.ensures((zero, x), q) ==> q == x
    &&& forall|x: T, q: T| #[trigger] plus.ensures((x, zero), q) ==> q == x
}

proof fn lemma_dot_single_prefix<T, M: Fn(T, T) -> T, A: Fn(T, T) -> T>(
    times: M,
    plus: A,
    zero: T,
    xs: Seq<T>,
    ys: Seq<T>,
    j: int,
    v: T,
    len: int,
    r: T,
)
    requires
        0 <= len <= xs.len(),
        forall|k: int, p: T|
            0 <= k < xs.len() && #[trigger] times.ensures((xs[k], ys[k]), p) ==> p == (if k == j {
                v
            } else {
                zero
            }),
        forall|x: T, q: T| #[trigger] plus.ensures((zero, x), q) ==> q == x,
        forall|x: T, q: T| #[trigger] plus.ensures((x, zero), q) ==> q == x,
        is_dot(times, plus, zero, xs.take(len), ys, r),
    ensures
        r == if 0 <= j < len {
            v
        } else {
            zero
        },
    decreases len,
{
    if len > 0 {
        let s = xs.take(len);
        let n = len - 1;
        assert(s.take(n) =~= xs.take(n));
        assert(s[n] == xs[n]);
        let (acc, p) = choose|acc: T, p: T|
            is_dot(times, plus, zero, s.take(n), ys, acc) && times.ensures((s[n], ys[n]), p)
                && #[trigger] plus.ensures((acc, p), r);
        lemma_dot_single_prefix(times, plus, zero, xs, ys, j, v, n, acc);
    }
}

/// A sum of products in which only the product at `j` can be other than
/// `zero`, and that one is `v`, is `v`.
pub(crate) proof fn lemma_dot_single<T, M: Fn(T, T) -> T, A: Fn(T, T) -> T>(
    times: M,
    plus: A,
    zero: T,
    xs: Seq<T>,
    ys: Seq<T>,
    j: int,
    v: T,
    r: T,
)
    requires
        0 <= j < xs.len(),
        forall|k: int, p: T|
            0 <= k < xs.len() && #[trigger] times.ensures((xs[k], ys[k]), p) ==> p == (if k == j {
                v
            } else {
                zero
            }),
        forall|x: T, q: T| #[trigger] plus.ensures((zero, x), q) ==> q == x,
        forall|x: T, q: T| #[trigger] plus.ensures((x, zero), q) ==> q == x,
        is_dot(times, plus, zero, xs, ys, r),
    ensures
        r == v,
{
    assert(xs.take(xs.len() as int) =~= xs);
    lemma_dot_single_prefix(times, plus, zero, xs, ys, j, v, xs.len() as int, r);
}

/// Adding the product of the next pair of terms to a partial sum of
/// products gives a partial sum one term longer.
pub(crate) proof fn lemma_dot_step<T, M: Fn(T, T) -> T, A: Fn(T, T) -> T>(
    times: M,
    plus: A,
    zero: T,
    xs: Seq<T>,
    ys: Seq<T>,
    k: int,
    acc: T,
    p: T,
    r: T,
)
    requires
        0 <= k < xs.len(),
        is_dot(times, plus, zero, xs.take(k), ys, acc),
        times.ensures((xs[k], ys[k]), p),
        plus.ensures((acc, p), r),
    ensures
        is_dot(times, plus, zero, xs.take(k + 1), ys, r),
{
    let s = xs.take(k + 1);
    assert(s.take(k) =~= xs.take(k));
    assert(s[k] == xs[k]);
    assert(s.len() == k + 1);
    assert(is_dot(times, plus, zero, s.take(k), ys, acc) && times.ensures((s[k], ys[k]), p));
}

/// Adding the weight of the next term to a partial sum of weights gives a
/// partial sum one term longer.
pub(crate) proof fn lemma_weight_sum_step<T, R, W: Fn(T) -> R, A: Fn(R, R) -> R>(
    weight: W,
    plus: A,
    zero: R,
    xs: Seq<T>,
    x: T,
    acc: R,
    w: R,
    r: R,
)
    requires
        is_weight_sum(weight, plus, zero, xs, acc),
        weight.ensures((x,), w),
        plus.ensures((acc, w), r),
    ensures
        is_weight_sum(weight, plus, zero, xs.push(x), r),
{
    let s = xs.push(x);
    assert(s.take(xs.len() as int) =~= xs);
    assert(s[xs.len() as int] == x);
    assert(is_weight_sum(weight, plus, zero, s.take(xs.len() as int), acc) && weight.ensures(
        (s[xs.len() as int],),
        w,
    ));
}

/// Whether `a` and `b` have the same length and `close` accepts every pair
/// of entries at the same index.
pub fn all_close<T: Copy, E: Fn(T, T) -> bool>(a: &[T], b: &[T], close: E) -> (r: bool)
    requires
        forall|x: T, y: T| close.requires((x, y)),
    ensures
        r ==> a@.len() == b@.len() && forall|i: int|
            0 <= i < a@.len() ==> close.ensures((a@[i], b@[i]), true),
        !r ==> a@.len() != b@.len() || exists|i: int|
            0 <= i < a@.len() && close.ensures((a@[i], b@[i]), false),
{
    if a.len() != b.len() {
        return false;
    }
    let mut i: usize = 0;
    while i < a.len()
        invariant
            a@.len() == b@.len(),
            0 <= i <= a@.len(),
            forall|x: T, y: T| close.requires((x, y)),
            forall|j: int| 0 <= j < i ==> close.ensures((a@[j], b@[j]), true),
        decreases a@.len() - i,
    {
        if !close(a[i], b[i]) {
            return false;
        }
        i = i + 1;
    }
    true
}

/// The sum of `weight` over the entries of `a`, from `zero` and in order.
pub fn weight_sum<T: Copy, R: Copy, W: Fn(T) -> R, A: Fn(R, R) -> R>(
    a: &[T],
    weight: W,
    plus: A,
    zero: R,
) -> (r: R)
    requires
        forall|x: T| weight.requires((x,)),
        forall|x: R, y: R| plus.requires((x, y)),
    ensures
        is_weight_sum(weight, plus, zero, a@, r),
{
    let mut acc = zero;
    let mut i: usize = 0;
    proof {
        assert(a@.take(0).len() == 0);
    }
    while i < a.len()
        invariant
            0 <= i <= a@.len(),
            forall|x: T| weight.requires((x,)),
            forall|x: R, y: R| plus.requires((x, y)),
            is_weight_sum(weight, plus, zero, a@.take(i as int), acc),
        decreases a@.len() - i,
    {
        let w = weight(a[i]);
        let next = plus(acc, w);
        proof {
            assert(a@.take(i + 1) =~= a@.take(i as int).push(a@[i as int]));
            lemma_weight_sum_step(weight, plus, zero, a@.take(i as int), a@[i as int], acc, w, next);
        }
        acc = next;
        i = i + 1;
    }
    proof {
        assert(a@.take(a@.len() as int) =~= a@);
    }
    acc
}

/// The entries of `a`, each replaced by a result of `f` on it.
pub fn map_entries<T: Copy, F: Fn(T) -> T>(a: &[T], f: F) -> (r: Vec<T>)
    requires
        forall|x: T| f.requires((x,)),
    ensures
        r@.len() == a@.len(),
        forall|i: int| 0 <= i < a@.len() ==> f.ensures((a@[i],), #[trigger] r@[i]),
{
    let mut out: Vec<T> = Vec::new();
    let mut i: usize = 0;
    while i < a.len()
        invariant
            0 <= i <= a@.len(),
            out@.len() == i,
            forall|x: T| f.requires((x,)),
            forall|j: int| 0 <= j < i ==> f.ensures((a@[j],), #[trigger] out@[j]),
        decreases a@.len() - i,
    {
        out.push(f(a[i]));
        i = i + 1;
    }
    out
}

} // verus!

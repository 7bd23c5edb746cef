use vstd::prelude::*;

verus! {

/// `n` is a power of two: one, or an even number whose half is a power of two.
pub open spec fn is_pow2(n: nat) -> bool
    decreases n,
{
    if n <= 1 {
        n == 1
    } else {
        n % 2 == 0 && is_pow2(n / 2)
    }
}

/// Two to the power `k`.
pub open spec fn two_pow(k: nat) -> nat
    decreases k,
{
    if k == 0 {
        1
    } else {
        2 * two_pow((k - 1) as nat)
    }
}

/// Bit `bit` of `i`, counting from the least significant bit.
pub open spec fn bit_of(i: nat, bit: nat) -> bool {
    (i / two_pow(bit)) % 2 == 1
}

/// `n` is the square of some natural number.
pub open spec fn is_square(n: nat) -> bool {
    exists|k: nat| #[trigger] (k * k) == n
}

/// `n` is the square of a power of two.
pub open spec fn is_pow2_square(n: nat) -> bool {
    exists|k: nat| #[trigger] (k * k) == n && is_pow2(k)
}

/// Row-major flat indexing: `r * n + c`, with `c < n`, lies in row `r` and
/// splits back into `r` and `c`.
pub(crate) proof fn lemma_flat_index(r: int, c: int, n: int)
    requires
        0 <= r,
        0 <= c < n,
    ensures
        0 <= r * n,
        r * n <= r * n + c < (r + 1) * n,
        (r + 1) * n == r * n + n,
        (r * n + c) / n == r,
        (r * n + c) % n == c,
{
    vstd::arithmetic::div_mod::lemma_fundamental_div_mod_converse(r * n + c, n, r, c);
    assert((r + 1) * n == r * n + n) by (nonlinear_arith);
    assert(0 <= r * n) by (nonlinear_arith)
        requires
            0 <= r,
            0 <= n,
    ;
}

/// A flat index whose row is below `m` lies below `m * n`.
pub(crate) proof fn lemma_flat_bound(r: int, c: int, m: int, n: int)
    requires
        0 <= r < m,
        0 <= c < n,
    ensures
        0 <= r * n + c < m * n,
{
    lemma_flat_index(r, c, n);
    assert((r + 1) * n <= m * n) by (nonlinear_arith)
        requires
            r + 1 <= m,
            0 <= n,
    ;
}

/// An index below `a * b` has its quotient by `b` below `a`.
pub(crate) proof fn lemma_div_bound(x: int, a: int, b: int)
    requires
        0 <= x < a * b,
        0 < b,
    ensures
        0 <= x / b < a,
        0 <= x % b < b,
{
    vstd::arithmetic::div_mod::lemma_fundamental_div_mod(x, b);
    let q = x / b;
    vstd::arithmetic::div_mod::lemma_div_pos_is_pos(x, b);
    if q >= a {
        assert(b * q >= a * b) by (nonlinear_arith)
            requires
                q >= a,
                b > 0,
        ;
    }
}

/// A product whose square fits below a bound fits below it too.
pub(crate) proof fn lemma_square_bound(n: int, bound: int)
    requires
        0 <= n,
        n * n <= bound,
    ensures
        n <= bound || n == 0,
{
    if n > 0 {
        assert(n <= n * n) by (nonlinear_arith)
            requires
                n > 0,
        ;
    }
}

/// Powers of two grow with the exponent.
pub(crate) proof fn lemma_two_pow_mono(j: nat, k: nat)
    requires
        j <= k,
    ensures
        two_pow(j) <= two_pow(k),
    decreases k - j,
{
    if j < k {
        lemma_two_pow_mono(j, (k - 1) as nat);
    }
}

proof fn lemma_two_pow_pos(k: nat)
    ensures
        two_pow(k) > 0,
    decreases k,
{
    if k > 0 {
        lemma_two_pow_pos((k - 1) as nat);
    }
}

/// Dividing by `2^(k+1)` is dividing by `2^k`, then by two.
proof fn lemma_div_two_pow_step(i: nat, k: nat)
    ensures
        i / two_pow(k + 1) == (i / two_pow(k)) / 2,
{
    lemma_two_pow_pos(k);
    assert(two_pow(k + 1) == two_pow(k) * 2);
    vstd::arithmetic::div_mod::lemma_div_denominator(i as int, two_pow(k) as int, 2);
}

/// Once the quotient by `2^k` is zero, it stays zero for larger powers.
proof fn lemma_div_two_pow_zero(i: nat, k: nat, b: nat)
    requires
        i / two_pow(k) == 0,
        k <= b,
    ensures
        i / two_pow(b) == 0,
    decreases b - k,
{
    if k < b {
        lemma_div_two_pow_step(i, k);
        lemma_div_two_pow_zero(i, k + 1, b);
    }
}

/// Whether bit `bit` of `i` is set.
pub fn index_bit(i: usize, bit: usize) -> (r: bool)
    ensures
        r == bit_of(i as nat, bit as nat),
{
    let mut q: usize = i;
    let mut k: usize = 0;
    proof {
        assert(two_pow(0) == 1);
        assert(i as nat / 1 == i as nat);
    }
    while k < bit && q > 0
        invariant
            k <= bit,
            q as nat == i as nat / two_pow(k as nat),
        decreases bit - k,
    {
        proof {
            lemma_div_two_pow_step(i as nat, k as nat);
        }
        q = q / 2;
        k = k + 1;
    }
    proof {
        if k < bit {
            lemma_div_two_pow_zero(i as nat, k as nat, bit as nat);
        }
    }
    q % 2 == 1
}

/// The integer square root: the largest `k` with `k * k <= num`.
pub fn integer_sqrt(num: usize) -> (k: usize)
    ensures
        k * k <= num,
        num < (k + 1) * (k + 1),
{
    let mut k: usize = 0;
    while k + 1 <= num / (k + 1)
        invariant
            k * k <= num,
            k < usize::MAX,
        decreases num - k,
    {
        proof {
            let n = num as int;
            let k1 = k as int + 1;
            let d = n / k1;
            vstd::arithmetic::div_mod::lemma_fundamental_div_mod(n, k1);
            assert(k1 * d <= n) by (nonlinear_arith)
                requires
                    n == k1 * d + n % k1,
                    0 <= n % k1,
            ;
            assert(k1 * k1 <= n) by (nonlinear_arith)
                requires
                    k1 * d <= n,
                    k1 <= d,
                    k1 > 0,
            ;
            assert(k1 < usize::MAX) by (nonlinear_arith)
                requires
                    k1 * k1 <= n,
                    n <= usize::MAX,
                    k1 > 0,
            ;
        }
        k = k + 1;
    }
    proof {
        let n = num as int;
        let k1 = k as int + 1;
        let d = n / k1;
        vstd::arithmetic::div_mod::lemma_fundamental_div_mod(n, k1);
        assert(n < k1 * k1) by (nonlinear_arith)
            requires
                n == k1 * d + n % k1,
                0 <= n % k1 < k1,
                d < k1,
        ;
    }
    k
}

proof fn lemma_sqrt_unique(k: nat, j: nat, num: nat)
    requires
        k * k <= num,
        num < (k + 1) * (k + 1),
        j * j == num,
    ensures
        j == k,
{
    if j < k {
        assert(j * j < k * k) by (nonlinear_arith)
            requires
                j < k,
        ;
    } else if j > k {
        assert((k + 1) * (k + 1) <= j * j) by (nonlinear_arith)
            requires
                j >= k + 1,
        ;
    }
}

/// Whether `num` is a perfect square.
pub fn is_square_number(num: usize) -> (r: bool)
    ensures
        r == is_square(num as nat),
{
    let k = integer_sqrt(num);
    proof {
        if is_square(num as nat) {
            let j = choose|j: nat| #[trigger] (j * j) == num as nat;
            lemma_sqrt_unique(k as nat, j, num as nat);
        }
        if k * k == num {
            assert(is_square(num as nat)) by {
                assert((k as nat) * (k as nat) == num as nat);
            }
        }
    }
    k * k == num
}

/// Whether `n` is a power of two.
pub fn is_power_of_two(n: usize) -> (r: bool)
    ensures
        r == is_pow2(n as nat),
{
    let mut m: usize = n;
    while m > 1 && m % 2 == 0
        invariant
            is_pow2(m as nat) == is_pow2(n as nat),
        decreases m,
    {
        m = m / 2;
    }
    m == 1
}

/// The side of a square buffer of `len` entries whose side is a power of
/// two, if there is one.
pub fn pow2_side(len: usize) -> (r: Option<usize>)
    ensures
        r is Some <==> is_pow2_square(len as nat),
        r matches Some(d) ==> d * d == len && is_pow2(d as nat),
{
    let k = integer_sqrt(len);
    proof {
        if is_pow2_square(len as nat) {
            let j = choose|j: nat| #[trigger] (j * j) == len as nat && is_pow2(j);
            lemma_sqrt_unique(k as nat, j, len as nat);
        }
        if k * k == len && is_pow2(k as nat) {
            assert(is_pow2_square(len as nat)) by {
                assert((k as nat) * (k as nat) == len as nat);
            }
        }
    }
    if k * k == len && is_power_of_two(k) {
        Some(k)
    } else {
        None
    }
}

} // verus!

use vstd::arithmetic::div_mod::{
    lemma_div_is_ordered, lemma_div_pos_is_pos, lemma_multiply_divide_lt,
};
use vstd::prelude::*;

verus! {

// ---------------------------------------------------------------------------
// Fixed-point inverse document frequency.
//
// The score of a term across the corpus is the base-ten logarithm of
// N / df, held as an integer in units of 1 / IDF_SCALE: the whole decades of
// the ratio contribute IDF_SCALE each, and the position of the ratio inside
// its decade is interpolated linearly. The value is zero exactly on ratios
// of at most one decade position, it never goes negative, and it grows with
// the ratio, which is all the ranking needs from a logarithm.
// ---------------------------------------------------------------------------
/// Number of fixed-point fractional units in 1.0 of IDF.
pub const IDF_SCALE: u64 = 1_000_000;

/// IDF values never exceed this: a corpus size below 10^20 yields at most
/// 19 whole decades plus a fraction below one.
pub const IDF_MAX: u64 = 20_000_000;

pub open spec fn pow10(k: nat) -> int
    decreases k,
{
    if k == 0 {
        1
    } else {
        10 * pow10((k - 1) as nat)
    }
}

/// The number of whole decades in `n / m`: the largest `k` with
/// `m * 10^k <= n`.
pub open spec fn decade(n: int, m: int) -> nat
    decreases n - m,
    when 1 <= m <= n
{
    if 10 * m > n {
        0
    } else {
        1 + decade(n, 10 * m)
    }
}

/// The fixed-point IDF of a corpus of `n` documents for a term occurring in
/// `m` of them; ratios below one (or a senseless `m`) clamp to zero.
pub open spec fn idf_fixed(n: int, m: int) -> int {
    if m < 1 || n < m {
        0
    } else {
        let k = decade(n, m);
        let p = m * pow10(k);
        k * (IDF_SCALE as int) + (n - p) * (IDF_SCALE as int) / (9 * p)
    }
}

pub proof fn lemma_pow10_pos(k: nat)
    ensures
        pow10(k) >= 1,
    decreases k,
{
    if k > 0 {
        lemma_pow10_pos((k - 1) as nat);
    }
}

pub proof fn lemma_pow10_increases(j: nat, k: nat)
    requires
        j <= k,
    ensures
        pow10(j) <= pow10(k),
    decreases k,
{
    if j < k {
        lemma_pow10_increases(j, (k - 1) as nat);
        lemma_pow10_pos((k - 1) as nat);
    }
}

/// The decade of `n / m` brackets `n` between `m * 10^k` and `m * 10^(k+1)`.
pub proof fn lemma_decade_bounds(n: int, m: int)
    requires
        1 <= m <= n,
    ensures
        m * pow10(decade(n, m)) <= n,
        n < 10 * (m * pow10(decade(n, m))),
        m * pow10(decade(n, m)) >= m,
    decreases n - m,
{
    let k = decade(n, m);
    lemma_pow10_pos(k);
    if 10 * m > n {
        assert(m * pow10(0) == m);
    } else {
        lemma_decade_bounds(n, 10 * m);
        let k2 = decade(n, 10 * m);
        assert(k == 1 + k2);
        assert(pow10(k) == 10 * pow10(k2));
        assert(m * (10 * pow10(k2)) == (10 * m) * pow10(k2)) by (nonlinear_arith);
        lemma_pow10_pos(k2);
        assert((10 * m) * pow10(k2) >= 10 * m) by (nonlinear_arith)
            requires
                m >= 1,
                pow10(k2) >= 1,
        ;
    }
}

/// The inverse document frequency is never negative.
pub proof fn lemma_idf_nonneg(n: int, m: int)
    ensures
        idf_fixed(n, m) >= 0,
{
    if 1 <= m <= n {
        let k = decade(n, m);
        let p = m * pow10(k);
        lemma_decade_bounds(n, m);
        lemma_div_pos_is_pos((n - p) * (IDF_SCALE as int), 9 * p);
    }
}

/// For corpora under 10^20 documents the IDF stays under IDF_MAX.
pub proof fn lemma_idf_bound(n: int, m: int)
    requires
        n < pow10(20),
    ensures
        idf_fixed(n, m) < IDF_MAX as int,
{
    if 1 <= m <= n {
        let k = decade(n, m);
        let p = m * pow10(k);
        lemma_decade_bounds(n, m);
        lemma_pow10_pos(k);
        assert(p >= pow10(k)) by (nonlinear_arith)
            requires
                m >= 1,
                pow10(k) >= 1,
                p == m * pow10(k),
        ;
        assert(k <= 19) by {
            if k >= 20 {
                lemma_pow10_increases(20, k);
                assert(pow10(k) >= pow10(20));
                assert(n >= p >= pow10(20));
            }
        }
        let frac = (n - p) * (IDF_SCALE as int) / (9 * p);
        assert((n - p) * (IDF_SCALE as int) < (9 * p) * (IDF_SCALE as int)) by (nonlinear_arith)
            requires
                n - p < 9 * p,
                IDF_SCALE as int > 0,
        ;
        lemma_multiply_divide_lt((n - p) * (IDF_SCALE as int), 9 * p, IDF_SCALE as int);
        assert(frac < IDF_SCALE as int);
        assert(k * (IDF_SCALE as int) <= 19 * (IDF_SCALE as int)) by (nonlinear_arith)
            requires
                0 <= k <= 19,
        ;
    }
}

/// Ten to the twentieth power, enough to dominate any `usize` corpus size.
pub proof fn lemma_pow10_20()
    ensures
        pow10(20) == 100_000_000_000_000_000_000,
{
    reveal_with_fuel(pow10, 21);
}

/// The fixed-point IDF of `n` documents against document frequency `m`,
/// computed with integer arithmetic alone.
pub fn idf_value(n: usize, m: usize) -> (r: u64)
    ensures
        r as int == idf_fixed(n as int, m as int),
        r < IDF_MAX,
{
    proof {
        lemma_pow10_20();
        assert((usize::MAX as int) < pow10(20));
        lemma_idf_bound(n as int, m as int);
        lemma_idf_nonneg(n as int, m as int);
    }
    if m < 1 || n < m {
        return 0;
    }
    let ni = n as u128;
    let mut p: u128 = m as u128;
    let mut k: u64 = 0;
    proof {
        assert(pow10(0) == 1);
        assert(m as int * 1 == m as int);
    }
    while 10 * p <= ni
        invariant
            1 <= m as int <= n as int,
            ni == n as u128,
            ni < pow10(20),
            1 <= p as int <= ni as int,
            p as int == (m as int) * pow10(k as nat),
            decade(n as int, m as int) == k as nat + decade(n as int, p as int),
            k <= 19,
        decreases ni - p,
    {
        proof {
            assert(decade(n as int, p as int) == 1 + decade(n as int, 10 * (p as int)));
            assert(pow10((k + 1) as nat) == 10 * pow10(k as nat));
            assert((m as int) * (10 * pow10(k as nat)) == 10 * ((m as int) * pow10(k as nat)))
                by (nonlinear_arith);
            lemma_pow10_pos(k as nat);
            assert(pow10((k + 1) as nat) <= 10 * (p as int)) by (nonlinear_arith)
                requires
                    m as int >= 1,
                    pow10((k + 1) as nat) >= 1,
                    10 * (p as int) == (m as int) * pow10((k + 1) as nat),
            ;
            assert(k + 1 <= 19) by {
                if k + 1 >= 20 {
                    lemma_pow10_increases(20, (k + 1) as nat);
                    assert(10 * (p as int) >= pow10(20));
                    assert(10 * (p as int) <= ni as int);
                }
            }
        }
        p = 10 * p;
        k = k + 1;
    }
    proof {
        assert(decade(n as int, p as int) == 0);
        assert(decade(n as int, m as int) == k as nat);
        lemma_decade_bounds(n as int, m as int);
    }
    let frac128: u128 = ((ni - p) * (IDF_SCALE as u128)) / (9 * p);
    proof {
        let pi = p as int;
        assert((ni as int - pi) * (IDF_SCALE as int) < (9 * pi) * (IDF_SCALE as int))
            by (nonlinear_arith)
            requires
                ni as int - pi < 9 * pi,
                IDF_SCALE as int > 0,
        ;
        lemma_multiply_divide_lt((ni as int - pi) * (IDF_SCALE as int), 9 * pi, IDF_SCALE as int);
        lemma_div_pos_is_pos((ni as int - pi) * (IDF_SCALE as int), 9 * pi);
    }
    let frac: u64 = frac128 as u64;
    k * IDF_SCALE + frac
}

} // verus!

//! Polynomials as coefficient sequences, lowest degree first.
use crate::field::{fadd, fmul, modulus};
use vstd::arithmetic::power::pow;
use vstd::prelude::*;

verus! {

/// The value of the polynomial with coefficients `c` at `x`, as an integer.
pub open spec fn peval(c: Seq<u64>, x: int) -> int
    decreases c.len(),
{
    if c.len() == 0 {
        0
    } else {
        c[0] + x * peval(c.drop_first(), x)
    }
}

/// The field values of the polynomial `c` at each point of `domain`, in order.
pub open spec fn evals_at(c: Seq<u64>, domain: Seq<u64>) -> Seq<u64> {
    Seq::new(domain.len(), |j: int| (peval(c, domain[j] as int) % modulus()) as u64)
}

/// The coefficient sequence `c` followed by zeros up to length `n`.
pub open spec fn pad_to(c: Seq<u64>, n: nat) -> Seq<u64> {
    if c.len() >= n {
        c
    } else {
        c + Seq::new((n - c.len()) as nat, |j: int| 0u64)
    }
}

/// Splitting the coefficients at `h` splits the value into a low part and a
/// high part scaled by `x^h`.
pub proof fn lemma_peval_split(c: Seq<u64>, x: int, h: nat)
    requires
        h <= c.len(),
    ensures
        peval(c, x) == peval(c.take(h as int), x) + pow(x, h) * peval(c.skip(h as int), x),
    decreases h,
{
    if h == 0 {
        assert(c.take(0) =~= Seq::<u64>::empty());
        assert(c.skip(0) =~= c);
        vstd::arithmetic::power::lemma_pow0(x);
    } else {
        let t = c.drop_first();
        lemma_peval_split(t, x, (h - 1) as nat);
        assert(c.take(h as int).drop_first() =~= t.take(h - 1));
        assert(c.skip(h as int) =~= t.skip(h - 1));
        let lo = peval(t.take(h - 1), x);
        let hi = peval(t.skip(h - 1), x);
        let ph = pow(x, (h - 1) as nat);
        vstd::arithmetic::power::lemma_pow_adds(x, 1, (h - 1) as nat);
        vstd::arithmetic::power::lemma_pow1(x);
        assert(pow(x, h) == x * ph);
        assert(x * (lo + ph * hi) == x * lo + (x * ph) * hi) by (nonlinear_arith);
    }
}

/// Trailing zero coefficients do not change the value.
pub proof fn lemma_peval_zero_tail(c: Seq<u64>, k: nat, x: int)
    ensures
        peval(c + Seq::new(k, |j: int| 0u64), x) == peval(c, x),
    decreases c.len(),
{
    let z = Seq::new(k, |j: int| 0u64);
    if c.len() == 0 {
        assert(c + z =~= z);
        lemma_peval_zeros(k, x);
    } else {
        assert((c + z).drop_first() =~= c.drop_first() + z);
        lemma_peval_zero_tail(c.drop_first(), k, x);
    }
}

/// The zero polynomial, with any number of coefficients, is zero everywhere.
pub proof fn lemma_peval_zeros(k: nat, x: int)
    ensures
        peval(Seq::new(k, |j: int| 0u64), x) == 0,
    decreases k,
{
    if k > 0 {
        assert(Seq::new(k, |j: int| 0u64).drop_first() =~= Seq::new((k - 1) as nat, |j: int| 0u64));
        lemma_peval_zeros((k - 1) as nat, x);
    }
}

/// Evaluates the polynomial with coefficients `coeffs` at `x` (Horner's rule).
pub fn evaluate(coeffs: &[u64], x: u64) -> (r: u64)
    ensures
        r == peval(coeffs@, x as int) % modulus(),
{
    let mut acc: u64 = 0;
    let mut i: usize = coeffs.len();
    proof {
        assert(coeffs@.skip(i as int) =~= Seq::<u64>::empty());
    }
    while i > 0
        invariant
            i <= coeffs@.len(),
            acc == peval(coeffs@.skip(i as int), x as int) % modulus(),
        decreases i,
    {
        i = i - 1;
        let ghost rest = peval(coeffs@.skip(i + 1), x as int);
        proof {
            assert(coeffs@.skip(i as int).drop_first() =~= coeffs@.skip(i + 1));
            vstd::arithmetic::div_mod::lemma_mul_mod_noop_right(x as int, rest, modulus());
            vstd::arithmetic::div_mod::lemma_add_mod_noop_right(
                coeffs@[i as int] as int,
                x * rest,
                modulus(),
            );
            vstd::arithmetic::div_mod::lemma_add_mod_noop(
                coeffs@[i as int] as int,
                (x * (rest % modulus())) % modulus(),
                modulus(),
            );
            vstd::arithmetic::div_mod::lemma_mod_twice(coeffs@[i as int] as int, modulus());
        }
        acc = fadd(coeffs[i], fmul(x, acc));
    }
    proof {
        assert(coeffs@.skip(0) =~= coeffs@);
    }
    acc
}

} // verus!

//! Arithmetic in the prime field of order `MODULUS`.
//!
//! An element is a `u64`; its value is that integer taken modulo `MODULUS`.
//! Every operation returns the canonical representative, below `MODULUS`.
use vstd::arithmetic::div_mod::{lemma_add_mod_noop, lemma_mul_mod_noop};
use vstd::arithmetic::power::{lemma_pow_adds, lemma_pow_mod_noop, lemma_pow_multiplies, pow};
use vstd::prelude::*;

verus! {

/// The field order: 2^64 - 2^32 + 1, a prime.
pub const MODULUS: u64 = 18446744069414584321;

pub open spec fn modulus() -> int {
    MODULUS as int
}

/// Field addition on canonical values.
pub open spec fn fadd_spec(a: int, b: int) -> int {
    (a + b) % modulus()
}

/// Field subtraction on canonical values.
pub open spec fn fsub_spec(a: int, b: int) -> int {
    (a - b) % modulus()
}

/// Field multiplication on canonical values.
pub open spec fn fmul_spec(a: int, b: int) -> int {
    (a * b) % modulus()
}

/// `x` raised to the `e`-th power in the field.
pub open spec fn fpow_spec(x: int, e: nat) -> int {
    pow(x, e) % modulus()
}

/// Sum of two field elements.
pub fn fadd(a: u64, b: u64) -> (r: u64)
    ensures
        r == fadd_spec(a as int, b as int),
        r < MODULUS,
{
    let s: u128 = (a as u128 + b as u128) % (MODULUS as u128);
    s as u64
}

/// Difference of two field elements.
pub fn fsub(a: u64, b: u64) -> (r: u64)
    ensures
        r == fsub_spec(a as int, b as int),
        r < MODULUS,
{
    let am: u64 = a % MODULUS;
    let bm: u64 = b % MODULUS;
    proof {
        lemma_add_mod_noop(a as int, -(b as int), modulus());
        lemma_add_mod_noop(a as int, (modulus() - bm) as int, modulus());
        assert((modulus() - bm) % modulus() == (-(b as int)) % modulus()) by {
            assert(modulus() - bm == -(b as int) + modulus() * (1 + (b as int) / modulus()));
            vstd::arithmetic::div_mod::lemma_mod_multiples_vanish(
                1 + (b as int) / modulus(),
                -(b as int),
                modulus(),
            );
        }
    }
    let s: u128 = (am as u128 + (MODULUS - bm) as u128) % (MODULUS as u128);
    s as u64
}

/// Product of two field elements.
pub fn fmul(a: u64, b: u64) -> (r: u64)
    ensures
        r == fmul_spec(a as int, b as int),
        r < MODULUS,
{
    proof {
        vstd::arithmetic::mul::lemma_mul_upper_bound(
            a as int,
            u64::MAX as int,
            b as int,
            u64::MAX as int,
        );
    }
    let pr: u128 = (a as u128) * (b as u128);
    (pr % (MODULUS as u128)) as u64
}

/// `x` raised to the power `e`, by repeated squaring.
pub fn fpow(x: u64, e: u64) -> (r: u64)
    ensures
        r == fpow_spec(x as int, e as nat),
        r < MODULUS,
{
    let mut acc: u64 = 1;
    let mut base: u64 = x % MODULUS;
    let mut k: u64 = e;
    proof {
        lemma_pow_mod_noop(x as int, e as nat, modulus());
        lemma_mul_mod_noop(1, pow(base as int, e as nat), modulus());
    }
    while k > 0
        invariant
            acc < MODULUS,
            base < MODULUS,
            (acc * pow(base as int, k as nat)) % modulus() == pow(x as int, e as nat) % modulus(),
        decreases k,
    {
        let ghost b = base as int;
        let ghost kk = k as nat;
        let ghost q = (k / 2) as nat;
        proof {
            lemma_pow_multiplies(b, 2, q);
            vstd::arithmetic::power::lemma_square_is_pow2(b);
            lemma_pow_mod_noop(b * b, q, modulus());
            lemma_pow_adds(b, 1, 2 * q);
            vstd::arithmetic::power::lemma_pow1(b);
        }
        let ghost y = pow((b * b) % modulus(), q);
        proof {
            vstd::arithmetic::div_mod::lemma_mul_mod_noop_right(acc * b, y, modulus());
            vstd::arithmetic::div_mod::lemma_mul_mod_noop_right(acc * b, pow(b * b, q), modulus());
            vstd::arithmetic::div_mod::lemma_mul_mod_noop_right(acc as int, y, modulus());
            vstd::arithmetic::div_mod::lemma_mul_mod_noop_right(acc as int, pow(b * b, q), modulus());
            vstd::arithmetic::div_mod::lemma_mul_mod_noop_left(acc * b, y, modulus());
        }
        if k % 2 == 1 {
            proof {
                assert(kk == 1 + 2 * q);
                assert(acc * pow(b, kk) == (acc * b) * pow(b * b, q)) by (nonlinear_arith)
                    requires
                        pow(b, kk) == b * pow(b, 2 * q),
                        pow(b, 2 * q) == pow(b * b, q),
                ;
            }
            acc = fmul(acc, base);
        } else {
            proof {
                assert(kk == 2 * q);
                lemma_pow_adds(b, 0, 2 * q);
                vstd::arithmetic::power::lemma_pow0(b);
            }
        }
        base = fmul(base, base);
        k = k / 2;
    }
    proof {
        vstd::arithmetic::power::lemma_pow0(base as int);
        vstd::arithmetic::div_mod::lemma_small_mod(acc as nat, MODULUS as nat);
    }
    acc
}

/// The candidate inverse of `a`: `a^(MODULUS - 2)`.
pub open spec fn finv_spec(a: int) -> int {
    fpow_spec(a, (MODULUS - 2) as nat)
}

/// `a` times its candidate inverse is one.
pub open spec fn invertible(a: int) -> bool {
    fmul_spec(a, finv_spec(a)) == 1
}

/// The inverse of `a`, or `None` when `a` has none.
pub fn finv(a: u64) -> (r: Option<u64>)
    ensures
        r == if invertible(a as int) {
            Some(finv_spec(a as int) as u64)
        } else {
            None::<u64>
        },
{
    let c = fpow(a, MODULUS - 2);
    if fmul(a, c) == 1 {
        Some(c)
    } else {
        None
    }
}

} // verus!

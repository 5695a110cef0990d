//! What the recursive algorithms compute, stated over polynomial values.
use crate::ecfft::{
    all_wf, butterfly, chain_ok, domain, domain_prime, eval_over, evaluate_over_domain_spec, evens,
    lemma_log2_of_two_pow, odds, two_pow, EcFftError, EcFftPrecomputation,
};
use crate::field::{fadd_spec, fmul_spec, fpow_spec, modulus};
use crate::poly::{evals_at, lemma_peval_split, lemma_peval_zero_tail, pad_to, peval};
use vstd::arithmetic::power::pow;
use vstd::prelude::*;

verus! {

/// The `n` zeros.
pub open spec fn zeros(n: nat) -> Seq<u64> {
    Seq::new(n, |j: int| 0u64)
}

/// Extending the all-zero vector gives the all-zero vector, at every level.
pub proof fn lemma_extend_zeros(pre: EcFftPrecomputation, i: nat)
    requires
        pre.wf(),
        i <= pre.depth(),
    ensures
        pre.extend_spec(zeros(two_pow(i))) == Ok::<Seq<u64>, EcFftError>(zeros(two_pow(i))),
{
    lemma_log2_of_two_pow(i);
    lemma_extend_at_zeros(pre, i);
}

proof fn lemma_extend_at_zeros(pre: EcFftPrecomputation, i: nat)
    requires
        pre.wf(),
        i <= pre.depth(),
    ensures
        pre.extend_at(i, zeros(two_pow(i))) == zeros(two_pow(i)),
    decreases i,
{
    if i > 0 {
        let st = pre.steps@[pre.depth() - i];
        let h = two_pow((i - 1) as nat);
        let e = zeros(two_pow(i));
        lemma_extend_at_zeros(pre, (i - 1) as nat);
        let p0 = Seq::new(h, |j: int| st.inverse_matrices@[j].row0(e[j], e[j + h]));
        let p1 = Seq::new(h, |j: int| st.inverse_matrices@[j].row1(e[j], e[j + h]));
        assert(two_pow(i) == 2 * h);
        assert forall|j: int| 0 <= j < h implies p0[j] == 0 && p1[j] == 0 by {
            assert(e[j] == 0 && e[j + h] == 0);
            let m = st.inverse_matrices@[j];
            assert(fmul_spec(m.m00 as int, 0) == 0);
            assert(fmul_spec(m.m01 as int, 0) == 0);
            assert(fmul_spec(m.m10 as int, 0) == 0);
            assert(fmul_spec(m.m11 as int, 0) == 0);
        }
        assert(p0 =~= zeros(h));
        assert(p1 =~= zeros(h));
        assert forall|j: int| 0 <= j < h implies st.matrices@[j].row0(0, 0) == 0
            && st.matrices@[j].row1(0, 0) == 0 by {
            let m = st.matrices@[j];
            assert(fmul_spec(m.m00 as int, 0) == 0);
            assert(fmul_spec(m.m01 as int, 0) == 0);
            assert(fmul_spec(m.m10 as int, 0) == 0);
            assert(fmul_spec(m.m11 as int, 0) == 0);
        }
        assert(pre.extend_at(i, e) =~= zeros(two_pow(i)));
    }
}

/// At the level of `2^i` points, the values of the polynomial `c` on the
/// primary domain are split by the inverse matrices into the values of two
/// polynomials `c0`, `c1` on the next primary domain, and the matrices map
/// the values of `c0`, `c1` on the next complementary domain back to the
/// values of `c` on this level's complementary domain.
pub open spec fn splits(
    pre: EcFftPrecomputation,
    i: nat,
    c: Seq<u64>,
    c0: Seq<u64>,
    c1: Seq<u64>,
) -> bool {
    let st = pre.steps@[pre.depth() - i];
    let h = two_pow((i - 1) as nat);
    let e = evals_at(c, pre.level_s(i));
    let e2 = evals_at(c, pre.level_s_prime(i));
    let f0 = evals_at(c0, pre.level_s((i - 1) as nat));
    let f1 = evals_at(c1, pre.level_s((i - 1) as nat));
    let g0 = evals_at(c0, pre.level_s_prime((i - 1) as nat));
    let g1 = evals_at(c1, pre.level_s_prime((i - 1) as nat));
    forall|j: int|
        0 <= j < h ==> {
            &&& #[trigger] st.inverse_matrices@[j].row0(e[j], e[j + h]) == f0[j]
            &&& st.inverse_matrices@[j].row1(e[j], e[j + h]) == f1[j]
            &&& st.matrices@[j].row0(g0[j], g1[j]) == e2[j]
            &&& st.matrices@[j].row1(g0[j], g1[j]) == e2[j + h]
        }
}

/// The polynomial `c` has a split at the level of `2^i` points into two
/// polynomials of half as many coefficients.
pub open spec fn has_split(pre: EcFftPrecomputation, i: nat, c: Seq<u64>) -> bool {
    exists|c0: Seq<u64>, c1: Seq<u64>|
        c0.len() == two_pow((i - 1) as nat) && c1.len() == two_pow((i - 1) as nat)
            && #[trigger] splits(pre, i, c, c0, c1)
}

/// Every polynomial of `2^i` coefficients has a split at the level of `2^i`
/// points: the matrices of that level are correct.
pub open spec fn level_sound(pre: EcFftPrecomputation, i: nat) -> bool {
    forall|c: Seq<u64>| c.len() == two_pow(i) ==> #[trigger] has_split(pre, i, c)
}

/// The matrices of every level are correct.
pub open spec fn sound(pre: EcFftPrecomputation) -> bool {
    forall|i: nat| 1 <= i <= pre.depth() ==> #[trigger] level_sound(pre, i)
}

proof fn lemma_peval_single(c: Seq<u64>, x: int)
    requires
        c.len() == 1,
    ensures
        peval(c, x) == c[0],
{
    assert(c.drop_first().len() == 0);
    assert(peval(c.drop_first(), x) == 0);
}

/// With correct matrices, extension is exact: from the values of a polynomial
/// of `2^i` coefficients on the primary domain of the level of `2^i` points,
/// `extend` returns its values on that level's complementary domain.
pub proof fn lemma_extend_interpolates(pre: EcFftPrecomputation, i: nat, c: Seq<u64>)
    requires
        pre.wf(),
        sound(pre),
        i <= pre.depth(),
        c.len() == two_pow(i),
    ensures
        pre.extend_spec(evals_at(c, pre.level_s(i))) == Ok::<Seq<u64>, EcFftError>(
            evals_at(c, pre.level_s_prime(i)),
        ),
{
    lemma_log2_of_two_pow(i);
    lemma_level_s_len(pre, i);
    lemma_extend_at_interpolates(pre, i, c);
}

proof fn lemma_level_s_len(pre: EcFftPrecomputation, i: nat)
    requires
        pre.wf(),
        i <= pre.depth(),
    ensures
        pre.level_s(i).len() == two_pow(i),
        pre.level_s_prime(i).len() == two_pow(i),
{
    if i == 0 {
        assert(two_pow(0) == 1);
    } else {
        let k = pre.depth() - i;
        assert(pre.steps@[k].s@.len() == two_pow((pre.depth() - k) as nat));
    }
}

proof fn lemma_extend_at_interpolates(pre: EcFftPrecomputation, i: nat, c: Seq<u64>)
    requires
        pre.wf(),
        sound(pre),
        i <= pre.depth(),
        c.len() == two_pow(i),
    ensures
        pre.extend_at(i, evals_at(c, pre.level_s(i))) == evals_at(c, pre.level_s_prime(i)),
    decreases i,
{
    lemma_level_s_len(pre, i);
    if i == 0 {
        assert(two_pow(0) == 1);
        lemma_peval_single(c, pre.final_s as int);
        lemma_peval_single(c, pre.final_s_prime as int);
        assert(evals_at(c, pre.level_s(i)) =~= evals_at(c, pre.level_s_prime(i)));
    } else {
        let im = (i - 1) as nat;
        lemma_level_s_len(pre, im);
        assert(level_sound(pre, i));
        assert(has_split(pre, i, c));
        let (c0, c1) = choose|c0: Seq<u64>, c1: Seq<u64>|
            c0.len() == two_pow(im) && c1.len() == two_pow(im) && #[trigger] splits(
                pre,
                i,
                c,
                c0,
                c1,
            );
        let st = pre.steps@[pre.depth() - i];
        let h = two_pow(im);
        assert(two_pow(i) == 2 * h);
        let e = evals_at(c, pre.level_s(i));
        let p0 = Seq::new(h, |j: int| st.inverse_matrices@[j].row0(e[j], e[j + h]));
        let p1 = Seq::new(h, |j: int| st.inverse_matrices@[j].row1(e[j], e[j + h]));
        let e2 = evals_at(c, pre.level_s_prime(i));
        let g0 = evals_at(c0, pre.level_s_prime(im));
        let g1 = evals_at(c1, pre.level_s_prime(im));
        assert forall|j: int| 0 <= j < h implies p0[j] == evals_at(c0, pre.level_s(im))[j]
            && p1[j] == evals_at(c1, pre.level_s(im))[j] && st.matrices@[j].row0(g0[j], g1[j])
            == e2[j] && st.matrices@[j].row1(g0[j], g1[j]) == e2[j + h] by {
            assert(st.inverse_matrices@[j].row0(e[j], e[j + h]) == evals_at(
                c0,
                pre.level_s(im),
            )[j]);
        }
        assert(p0 =~= evals_at(c0, pre.level_s(im)));
        assert(p1 =~= evals_at(c1, pre.level_s(im)));
        lemma_extend_at_interpolates(pre, im, c0);
        lemma_extend_at_interpolates(pre, im, c1);
        let r = pre.extend_at(i, e);
        let q0 = pre.extend_at(im, p0);
        let q1 = pre.extend_at(im, p1);
        assert(q0 == g0);
        assert(q1 == g1);
        assert forall|k: int| 0 <= k < 2 * h implies r[k] == e2[k] by {
            if k < h {
                assert(st.inverse_matrices@[k].row0(e[k], e[k + h]) == evals_at(
                    c0,
                    pre.level_s(im),
                )[k]);
                assert(r[k] == st.matrices@[k].row0(q0[k], q1[k]));
            } else {
                let j = k - h;
                assert(st.inverse_matrices@[j].row0(e[j], e[j + h]) == evals_at(
                    c0,
                    pre.level_s(im),
                )[j]);
                assert(r[k] == st.matrices@[j].row1(q0[j], q1[j]));
            }
        }
        assert(r =~= e2);
    }
}

/// Each precomputation after the first, up to the one without levels, has
/// correct matrices, its domain is the even-indexed points of the domain
/// before it, and it extends to the odd-indexed ones.
pub open spec fn chain_sound(precs: Seq<EcFftPrecomputation>) -> bool {
    forall|u: int|
        0 <= u < precs[0].depth() ==> {
            &&& sound(#[trigger] precs[u + 1])
            &&& domain(precs[u + 1]) == evens(domain(precs[u]))
            &&& domain_prime(precs[u + 1]) == odds(domain(precs[u]))
        }
}

proof fn lemma_butterfly_entry(a: int, b: int, x: int, h: nat)
    requires
        a >= 0,
        b >= 0,
        x >= 0,
    ensures
        fadd_spec(a % modulus(), fmul_spec(fpow_spec(x, h), b % modulus())) == (a + pow(x, h) * b)
            % modulus(),
{
    vstd::arithmetic::div_mod::lemma_mul_mod_noop(pow(x, h), b, modulus());
    vstd::arithmetic::div_mod::lemma_add_mod_noop(a, pow(x, h) * b, modulus());
}

proof fn lemma_peval_nonneg(c: Seq<u64>, x: int)
    requires
        x >= 0,
    ensures
        peval(c, x) >= 0,
    decreases c.len(),
{
    if c.len() > 0 {
        lemma_peval_nonneg(c.drop_first(), x);
        assert(x * peval(c.drop_first(), x) >= 0) by (nonlinear_arith)
            requires
                x >= 0,
                peval(c.drop_first(), x) >= 0,
        ;
    }
}

proof fn lemma_eval_over_naive(c: Seq<u64>, precs: Seq<EcFftPrecomputation>, t: int)
    requires
        all_wf(precs),
        chain_ok(precs),
        chain_sound(precs),
        0 <= t <= precs[0].depth(),
        c.len() == two_pow((precs[0].depth() - t) as nat),
    ensures
        eval_over(c, precs, t) == evals_at(c, domain(precs[t])),
    decreases precs[0].depth() - t,
{
    let d = (precs[0].depth() - t) as nat;
    let pre = precs[t];
    assert(pre.depth() == d);
    assert(pre.wf());
    lemma_level_s_len(pre, d);
    if d == 0 {
        assert(two_pow(0) == 1);
        lemma_peval_single(c, pre.final_s as int);
        assert(eval_over(c, precs, t) =~= evals_at(c, domain(precs[t])));
    } else {
        let s = pre.steps@[0].s@;
        let n = s.len();
        let h = n / 2;
        let next = precs[t + 1];
        assert(next.depth() == d - 1);
        assert(next.wf());
        assert(two_pow(d) == 2 * two_pow((d - 1) as nat));
        let low = c.take(h as int);
        let high = c.skip(h as int);
        lemma_eval_over_naive(low, precs, t + 1);
        lemma_eval_over_naive(high, precs, t + 1);
        assert(sound(precs[t + 1]));
        assert(domain(next) == next.level_s(next.depth()));
        lemma_extend_at_interpolates(next, next.depth(), low);
        lemma_extend_at_interpolates(next, next.depth(), high);
        let lo = eval_over(low, precs, t + 1);
        let hi = eval_over(high, precs, t + 1);
        let lo2 = next.extend_at(next.depth(), lo);
        let hi2 = next.extend_at(next.depth(), hi);
        assert(domain(next) == evens(s));
        assert(domain_prime(next) == odds(s));
        let bf = butterfly(s, lo, hi, lo2, hi2);
        let ev = evals_at(c, s);
        assert forall|k: int| 0 <= k < n implies bf[k] == ev[k] by {
            let x = s[k] as int;
            lemma_peval_split(c, x, h);
            lemma_peval_nonneg(low, x);
            lemma_peval_nonneg(high, x);
            lemma_butterfly_entry(peval(low, x), peval(high, x), x, h);
            if k % 2 == 0 {
                assert(evens(s)[k / 2] == s[k]);
            } else {
                assert(odds(s)[k / 2] == s[k]);
            }
        }
        assert(bf =~= ev);
    }
}

/// Evaluation over a domain agrees with evaluating the polynomial at each
/// point of the domain, for every polynomial with no more coefficients than
/// the domain has points, when the chain of precomputations is sound.
pub proof fn lemma_evaluate_over_domain_is_naive(c: Seq<u64>, precs: Seq<EcFftPrecomputation>)
    requires
        all_wf(precs),
        chain_ok(precs),
        chain_sound(precs),
        c.len() <= two_pow(precs[0].depth()),
    ensures
        evaluate_over_domain_spec(c, precs) == Ok::<Seq<u64>, EcFftError>(
            evals_at(c, domain(precs[0])),
        ),
{
    let n = two_pow(precs[0].depth());
    let cp = pad_to(c, n);
    lemma_eval_over_naive(cp, precs, 0);
    assert forall|x: int| peval(cp, x) == peval(c, x) by {
        if c.len() < n {
            lemma_peval_zero_tail(c, (n - c.len()) as nat, x);
        }
    }
    assert(evals_at(cp, domain(precs[0])) =~= evals_at(c, domain(precs[0])));
}

/// For every later precomputation `precs[u]` of a sound chain, evaluation over
/// the chain from `u` on agrees with evaluating the polynomial at each point
/// of the domain of `precs[u]`, for every polynomial with no more
/// coefficients than that domain has points.
pub proof fn lemma_evaluate_suffix_is_naive(
    c: Seq<u64>,
    precs: Seq<EcFftPrecomputation>,
    u: int,
)
    requires
        all_wf(precs),
        chain_ok(precs),
        chain_sound(precs),
        0 <= u <= precs[0].depth(),
        c.len() <= two_pow((precs[0].depth() - u) as nat),
    ensures
        evaluate_over_domain_spec(c, precs.skip(u)) == Ok::<Seq<u64>, EcFftError>(
            evals_at(c, domain(precs[u])),
        ),
{
    let q = precs.skip(u);
    let d0 = precs[0].depth();
    assert(precs[u].depth() == d0 - u);
    assert(q[0] == precs[u]);
    assert forall|w: int| 0 <= w < q.len() implies (#[trigger] q[w]).wf() by {
        assert(q[w] == precs[u + w]);
    }
    assert forall|w: int| 0 <= w <= q[0].depth() implies (#[trigger] q[w]).depth() == q[0].depth()
        - w by {
        assert(q[w] == precs[u + w]);
    }
    assert forall|w: int| 0 <= w < q[0].depth() implies {
        &&& sound(#[trigger] q[w + 1])
        &&& domain(q[w + 1]) == evens(domain(q[w]))
        &&& domain_prime(q[w + 1]) == odds(domain(q[w]))
    } by {
        assert(q[w] == precs[u + w]);
        assert(q[w + 1] == precs[u + w + 1]);
        assert(sound(precs[(u + w) + 1]));
    }
    lemma_evaluate_over_domain_is_naive(c, q);
}

} // verus!

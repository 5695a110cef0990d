//! Precomputed domain chains, recursive low-degree extension and recursive
//! evaluation over a domain.
use crate::field::{
    fadd, fadd_spec, finv, finv_spec, fmul, fmul_spec, fpow, fpow_spec, fsub, fsub_spec, invertible,
    MODULUS,
};
use crate::poly::pad_to;
use vstd::prelude::*;

verus! {

/// `2^i`.
pub open spec fn two_pow(i: nat) -> nat
    decreases i,
{
    if i == 0 {
        1
    } else {
        2 * two_pow((i - 1) as nat)
    }
}

/// The floor of the base-2 logarithm of `n` (0 for `n <= 1`).
pub open spec fn log2_floor(n: nat) -> nat
    decreases n,
{
    if n <= 1 {
        0
    } else {
        1 + log2_floor(n / 2)
    }
}

/// `n` is `2^i` for some `i`.
pub open spec fn is_power_of_two(n: nat) -> bool {
    n == two_pow(log2_floor(n))
}

/// `2^i` is at least one.
pub proof fn lemma_two_pow_positive(i: nat)
    ensures
        two_pow(i) >= 1,
    decreases i,
{
    if i > 0 {
        lemma_two_pow_positive((i - 1) as nat);
    }
}

/// The logarithm of `2^i` is `i`.
pub proof fn lemma_log2_of_two_pow(i: nat)
    ensures
        log2_floor(two_pow(i)) == i,
        is_power_of_two(two_pow(i)),
    decreases i,
{
    if i > 0 {
        lemma_two_pow_positive((i - 1) as nat);
        lemma_log2_of_two_pow((i - 1) as nat);
        assert(two_pow(i) / 2 == two_pow((i - 1) as nat));
    }
}

/// `i < 2^i`.
pub proof fn lemma_two_pow_exceeds(i: nat)
    ensures
        i < two_pow(i),
    decreases i,
{
    if i > 0 {
        lemma_two_pow_exceeds((i - 1) as nat);
    }
}

/// The errors of the operations of this module.
#[derive(Clone, Copy, Debug, PartialEq, Eq, Structural)]
pub enum EcFftError {
    /// The number of evaluations is not a power of two.
    NotPowerOfTwo,
    /// The number of evaluations exceeds what the precomputation covers.
    TooManyEvaluations,
    /// Too few precomputations were given for the size of the domain.
    TooFewPrecomputations,
    /// Consecutive precomputations do not halve the domain.
    MismatchedPrecomputations,
    /// Fewer maps were given than the domain has levels.
    TooFewIsogenies,
    /// The polynomial has more coefficients than the domain has points.
    DegreeTooLarge,
    /// The domain data yields a singular combination matrix or a pole of a map.
    DegenerateParameters,
}

/// A 2x2 matrix over the field, `[[m00, m01], [m10, m11]]`.
#[derive(Clone, Copy, Debug, PartialEq, Eq, Structural)]
pub struct Matrix {
    pub m00: u64,
    pub m01: u64,
    pub m10: u64,
    pub m11: u64,
}

impl Matrix {
    /// First entry of the product with the column `(x, y)`.
    pub open spec fn row0(self, x: u64, y: u64) -> u64 {
        fadd_spec(fmul_spec(self.m00 as int, x as int), fmul_spec(self.m01 as int, y as int)) as u64
    }

    /// Second entry of the product with the column `(x, y)`.
    pub open spec fn row1(self, x: u64, y: u64) -> u64 {
        fadd_spec(fmul_spec(self.m10 as int, x as int), fmul_spec(self.m11 as int, y as int)) as u64
    }

    /// The determinant.
    pub open spec fn det(self) -> int {
        fsub_spec(fmul_spec(self.m00 as int, self.m11 as int), fmul_spec(self.m01 as int, self.m10 as int))
    }

    /// The inverse, when the determinant is invertible.
    pub open spec fn inverse_spec(self) -> Matrix {
        let d = finv_spec(self.det()) as int;
        Matrix {
            m00: fmul_spec(self.m11 as int, d) as u64,
            m01: fmul_spec(fsub_spec(0, self.m01 as int), d) as u64,
            m10: fmul_spec(fsub_spec(0, self.m10 as int), d) as u64,
            m11: fmul_spec(self.m00 as int, d) as u64,
        }
    }

    /// The inverse matrix, or `None` when the matrix is singular.
    pub fn inverse(&self) -> (r: Option<Matrix>)
        ensures
            r == if invertible(self.det()) {
                Some(self.inverse_spec())
            } else {
                None::<Matrix>
            },
    {
        let det = fsub(fmul(self.m00, self.m11), fmul(self.m01, self.m10));
        match finv(det) {
            None => None,
            Some(d) => Some(
                Matrix {
                    m00: fmul(self.m11, d),
                    m01: fmul(fsub(0, self.m01), d),
                    m10: fmul(fsub(0, self.m10), d),
                    m11: fmul(self.m00, d),
                },
            ),
        }
    }

    /// The product of the matrix with the column `(x, y)`.
    pub fn multiply(&self, x: u64, y: u64) -> (r: (u64, u64))
        ensures
            r.0 == self.row0(x, y),
            r.1 == self.row1(x, y),
    {
        (fadd(fmul(self.m00, x), fmul(self.m01, y)), fadd(fmul(self.m10, x), fmul(self.m11, y)))
    }
}

/// One level of a precomputation: a primary domain `s`, the domain `s_prime`
/// that this level extends to, and the matrices that split evaluations on `s`
/// into two half-size problems and recombine the halves on `s_prime`.
/// Position `j` pairs the points `j` and `j + len/2` of each domain.
pub struct EcFftPrecomputationStep {
    pub s: Vec<u64>,
    pub s_prime: Vec<u64>,
    pub matrices: Vec<Matrix>,
    pub inverse_matrices: Vec<Matrix>,
}

/// The levels of a domain chain, the largest first, and the one-point base
/// case: `final_s` corresponds to `final_s_prime`.
pub struct EcFftPrecomputation {
    pub steps: Vec<EcFftPrecomputationStep>,
    pub final_s: u64,
    pub final_s_prime: u64,
}

impl EcFftPrecomputation {
    /// The number of levels.
    pub open spec fn depth(&self) -> nat {
        self.steps@.len()
    }

    /// Step `k` has domains of `2^(depth - k)` points and half as many
    /// matrices of each kind.
    pub open spec fn wf(&self) -> bool {
        forall|k: int|
            0 <= k < self.depth() ==> {
                let st = #[trigger] self.steps@[k];
                let n = two_pow((self.depth() - k) as nat);
                &&& st.s@.len() == n
                &&& st.s_prime@.len() == n
                &&& st.matrices@.len() == n / 2
                &&& st.inverse_matrices@.len() == n / 2
            }
    }

    /// Whether the levels have the sizes that `wf` asks for.
    pub fn is_well_formed(&self) -> (r: bool)
        ensures
            r == self.wf(),
    {
        let depth = self.steps.len();
        if depth == 0 {
            return true;
        }
        let mut n = self.steps[0].s.len();
        match exact_log2(n) {
            None => {
                proof {
                    lemma_log2_of_two_pow(depth as nat);
                    assert(self.steps@[0].s@.len() == two_pow((self.depth() - 0) as nat) ==> false);
                }
                return false;
            },
            Some(l) => {
                if l != depth {
                    proof {
                        lemma_log2_of_two_pow(depth as nat);
                        assert(self.steps@[0].s@.len() == two_pow((self.depth() - 0) as nat) ==> false);
                    }
                    return false;
                }
            },
        }
        let mut k: usize = 0;
        while k < depth
            invariant
                depth == self.depth(),
                k <= depth,
                k < depth ==> n == two_pow((depth - k) as nat),
                forall|t: int|
                    0 <= t < k ==> {
                        let st = #[trigger] self.steps@[t];
                        let m = two_pow((depth - t) as nat);
                        &&& st.s@.len() == m
                        &&& st.s_prime@.len() == m
                        &&& st.matrices@.len() == m / 2
                        &&& st.inverse_matrices@.len() == m / 2
                    },
            decreases depth - k,
        {
            let st = &self.steps[k];
            if st.s.len() != n || st.s_prime.len() != n || st.matrices.len() != n / 2
                || st.inverse_matrices.len() != n / 2 {
                proof {
                    assert(self.steps@[k as int] == *st);
                }
                return false;
            }
            proof {
                if k + 1 < depth {
                    assert(two_pow((depth - k) as nat) == 2 * two_pow((depth - k - 1) as nat));
                }
            }
            n = n / 2;
            k = k + 1;
        }
        true
    }

    /// The primary domain of the level that holds `2^i` points
    /// (`i <= depth`).
    pub open spec fn level_s(&self, i: nat) -> Seq<u64> {
        if i == 0 {
            seq![self.final_s]
        } else {
            self.steps@[self.depth() - i].s@
        }
    }

    /// The domain that the level of `2^i` points extends to.
    pub open spec fn level_s_prime(&self, i: nat) -> Seq<u64> {
        if i == 0 {
            seq![self.final_s_prime]
        } else {
            self.steps@[self.depth() - i].s_prime@
        }
    }

    /// What `extend` computes on `2^i` evaluations `e`.
    pub open spec fn extend_at(&self, i: nat, e: Seq<u64>) -> Seq<u64>
        decreases i,
    {
        if i == 0 {
            e
        } else {
            let st = self.steps@[self.depth() - i];
            let h = two_pow((i - 1) as nat);
            let p0 = Seq::new(h, |j: int| st.inverse_matrices@[j].row0(e[j], e[j + h]));
            let p1 = Seq::new(h, |j: int| st.inverse_matrices@[j].row1(e[j], e[j + h]));
            let q0 = self.extend_at((i - 1) as nat, p0);
            let q1 = self.extend_at((i - 1) as nat, p1);
            Seq::new(h, |j: int| st.matrices@[j].row0(q0[j], q1[j])) + Seq::new(
                h,
                |j: int| st.matrices@[j].row1(q0[j], q1[j]),
            )
        }
    }

    /// What `extend` returns on the evaluations `e`.
    pub open spec fn extend_spec(&self, e: Seq<u64>) -> Result<Seq<u64>, EcFftError> {
        if !is_power_of_two(e.len()) {
            Err(EcFftError::NotPowerOfTwo)
        } else if log2_floor(e.len()) > self.depth() {
            Err(EcFftError::TooManyEvaluations)
        } else {
            Ok(self.extend_at(log2_floor(e.len()), e))
        }
    }

    /// Low-degree extension: from the values of a polynomial of degree below
    /// `n` on the primary domain of the level of `n` points, the values on
    /// that level's `s_prime`. `n` must be a power of two no larger than
    /// `2^depth`. That the result is those values when the matrices are
    /// correct is `correctness::lemma_extend_interpolates`.
    pub fn extend(&self, evals: &[u64]) -> (r: Result<Vec<u64>, EcFftError>)
        requires
            self.wf(),
        ensures
            match r {
                Ok(v) => self.extend_spec(evals@) == Ok::<Seq<u64>, EcFftError>(v@),
                Err(e) => self.extend_spec(evals@) == Err::<Seq<u64>, EcFftError>(e),
            },
            evals@.len() == 1 ==> r is Ok && r->Ok_0@ == evals@,
    {
        let i = match exact_log2(evals.len()) {
            None => return Err(EcFftError::NotPowerOfTwo),
            Some(i) => i,
        };
        if i > self.steps.len() {
            return Err(EcFftError::TooManyEvaluations);
        }
        Ok(self.extend_level(evals, i))
    }

    /// Extension at the level of `2^i` points.
    fn extend_level(&self, evals: &[u64], i: usize) -> (r: Vec<u64>)
        requires
            self.wf(),
            i <= self.depth(),
            evals@.len() == two_pow(i as nat),
        ensures
            r@ == self.extend_at(i as nat, evals@),
        decreases i,
    {
        if i == 0 {
            let r = sub_values(evals, 0, evals.len());
            proof {
                assert(r@ =~= evals@);
            }
            return r;
        }
        let st = &self.steps[self.steps.len() - i];
        let nn = evals.len() / 2;
        let ghost k = self.depth() - i;
        proof {
            assert(self.steps@[k] == *st);
            assert(two_pow(i as nat) == 2 * two_pow((i - 1) as nat));
            assert(nn == two_pow((i - 1) as nat));
        }
        let mut p0: Vec<u64> = Vec::new();
        let mut p1: Vec<u64> = Vec::new();
        let mut j: usize = 0;
        while j < nn
            invariant
                self.wf(),
                0 <= k < self.depth(),
                self.steps@[k] == *st,
                st.inverse_matrices@.len() == nn,
                evals@.len() == 2 * nn,
                j <= nn,
                p0@.len() == j,
                p1@.len() == j,
                forall|t: int|
                    0 <= t < j ==> p0@[t] == #[trigger] st.inverse_matrices@[t].row0(
                        evals@[t],
                        evals@[t + nn],
                    ),
                forall|t: int|
                    0 <= t < j ==> p1@[t] == #[trigger] st.inverse_matrices@[t].row1(
                        evals@[t],
                        evals@[t + nn],
                    ),
            decreases nn - j,
        {
            let (a, b) = st.inverse_matrices[j].multiply(evals[j], evals[j + nn]);
            p0.push(a);
            p1.push(b);
            j = j + 1;
        }
        let ghost e = evals@;
        let ghost h = two_pow((i - 1) as nat);
        proof {
            assert(p0@ =~= Seq::new(h, |t: int| st.inverse_matrices@[t].row0(e[t], e[t + h])));
            assert(p1@ =~= Seq::new(h, |t: int| st.inverse_matrices@[t].row1(e[t], e[t + h])));
        }
        let q0 = self.extend_level(p0.as_slice(), i - 1);
        let q1 = self.extend_level(p1.as_slice(), i - 1);
        let mut left: Vec<u64> = Vec::new();
        let mut right: Vec<u64> = Vec::new();
        let mut j: usize = 0;
        while j < nn
            invariant
                self.wf(),
                0 <= k < self.depth(),
                self.steps@[k] == *st,
                st.matrices@.len() == nn,
                q0@.len() == nn,
                q1@.len() == nn,
                j <= nn,
                left@.len() == j,
                right@.len() == j,
                forall|t: int|
                    0 <= t < j ==> left@[t] == #[trigger] st.matrices@[t].row0(q0@[t], q1@[t]),
                forall|t: int|
                    0 <= t < j ==> right@[t] == #[trigger] st.matrices@[t].row1(q0@[t], q1@[t]),
            decreases nn - j,
        {
            let (x, y) = st.matrices[j].multiply(q0[j], q1[j]);
            left.push(x);
            right.push(y);
            j = j + 1;
        }
        left.append(&mut right);
        proof {
            assert(left@ =~= self.extend_at(i as nat, evals@));
        }
        left
    }
}

/// A copy of `v[from..to]`.
pub(crate) fn sub_values(v: &[u64], from: usize, to: usize) -> (r: Vec<u64>)
    requires
        from <= to <= v@.len(),
    ensures
        r@ == v@.subrange(from as int, to as int),
{
    let mut r: Vec<u64> = Vec::new();
    let mut j: usize = from;
    while j < to
        invariant
            from <= j <= to <= v@.len(),
            r@ == v@.subrange(from as int, j as int),
        decreases to - j,
    {
        r.push(v[j]);
        j = j + 1;
        proof {
            assert(r@ =~= v@.subrange(from as int, j as int));
        }
    }
    r
}

/// `Some(i)` when `n == 2^i`, `None` when `n` is not a power of two.
pub fn exact_log2(n: usize) -> (r: Option<usize>)
    ensures
        match r {
            Some(i) => is_power_of_two(n as nat) && i == log2_floor(n as nat),
            None => !is_power_of_two(n as nat),
        },
{
    if n == 0 {
        proof {
            lemma_two_pow_positive(log2_floor(0));
        }
        return None;
    }
    let mut m: usize = n;
    let mut i: usize = 0;
    proof {
        assert(two_pow(0) == 1);
    }
    while m > 1 && m % 2 == 0
        invariant
            m >= 1,
            m * two_pow(i as nat) == n,
            is_power_of_two(n as nat) == is_power_of_two(m as nat),
            log2_floor(n as nat) == i + log2_floor(m as nat),
        decreases m,
    {
        proof {
            assert(log2_floor(m as nat) == 1 + log2_floor((m / 2) as nat));
            assert(two_pow(log2_floor(m as nat)) == 2 * two_pow(log2_floor((m / 2) as nat)));
            assert((m / 2) * two_pow((i + 1) as nat) == n) by (nonlinear_arith)
                requires
                    m * two_pow(i as nat) == n,
                    two_pow((i + 1) as nat) == 2 * two_pow(i as nat),
                    m % 2 == 0,
            ;
            lemma_two_pow_positive(i as nat);
            lemma_two_pow_exceeds(i as nat);
            assert(two_pow(i as nat) <= n) by (nonlinear_arith)
                requires
                    m * two_pow(i as nat) == n,
                    m >= 1,
                    two_pow(i as nat) >= 1,
            ;
        }
        m = m / 2;
        i = i + 1;
    }
    if m == 1 {
        Some(i)
    } else {
        proof {
            let l = log2_floor(m as nat);
            assert(l >= 1);
            assert(two_pow(l) == 2 * two_pow((l - 1) as nat));
        }
        None
    }
}

/// The even-indexed points of `s`.
pub open spec fn evens(s: Seq<u64>) -> Seq<u64> {
    Seq::new(s.len() / 2, |j: int| s[2 * j])
}

/// The odd-indexed points of `s`.
pub open spec fn odds(s: Seq<u64>) -> Seq<u64> {
    Seq::new(s.len() / 2, |j: int| s[2 * j + 1])
}

/// The largest domain of `pre`: its outermost primary domain, or the single
/// base point when it has no levels.
pub open spec fn domain(pre: EcFftPrecomputation) -> Seq<u64> {
    pre.level_s(pre.depth())
}

/// The domain that the largest level of `pre` extends to.
pub open spec fn domain_prime(pre: EcFftPrecomputation) -> Seq<u64> {
    pre.level_s_prime(pre.depth())
}

/// Each of the first `depth + 1` precomputations has one level fewer than
/// the one before it.
pub open spec fn chain_ok(precs: Seq<EcFftPrecomputation>) -> bool {
    &&& precs.len() > 0
    &&& precs.len() > precs[0].depth()
    &&& forall|u: int|
        0 <= u <= precs[0].depth() ==> (#[trigger] precs[u]).depth() == precs[0].depth() - u
}

/// Every precomputation is well formed.
pub open spec fn all_wf(precs: Seq<EcFftPrecomputation>) -> bool {
    forall|u: int| 0 <= u < precs.len() ==> (#[trigger] precs[u]).wf()
}

/// The recombination of the half-size results on the domain `s`: even
/// positions from `lo` and `hi`, odd positions from `lo2` and `hi2`, the high
/// part scaled by the point to the power `s.len() / 2`.
pub open spec fn butterfly(
    s: Seq<u64>,
    lo: Seq<u64>,
    hi: Seq<u64>,
    lo2: Seq<u64>,
    hi2: Seq<u64>,
) -> Seq<u64> {
    Seq::new(
        s.len(),
        |k: int|
            if k % 2 == 0 {
                fadd_spec(
                    lo[k / 2] as int,
                    fmul_spec(fpow_spec(s[k] as int, s.len() / 2), hi[k / 2] as int),
                ) as u64
            } else {
                fadd_spec(
                    lo2[k / 2] as int,
                    fmul_spec(fpow_spec(s[k] as int, s.len() / 2), hi2[k / 2] as int),
                ) as u64
            },
    )
}

/// What the evaluation over the domain of `precs[t]` computes on the
/// coefficients `c`, with as many coefficients as the domain has points.
pub open spec fn eval_over(c: Seq<u64>, precs: Seq<EcFftPrecomputation>, t: int) -> Seq<u64>
    decreases precs.len() - t,
{
    if t < 0 || t >= precs.len() {
        Seq::empty()
    } else if precs[t].depth() == 0 {
        seq![c[0] % MODULUS]
    } else {
        let s = precs[t].steps@[0].s@;
        let h = s.len() / 2;
        let lo = eval_over(c.take(h as int), precs, t + 1);
        let hi = eval_over(c.skip(h as int), precs, t + 1);
        let next = precs[t + 1];
        butterfly(s, lo, hi, next.extend_at(next.depth(), lo), next.extend_at(next.depth(), hi))
    }
}

/// What `evaluate_over_domain` returns.
pub open spec fn evaluate_over_domain_spec(c: Seq<u64>, precs: Seq<EcFftPrecomputation>) -> Result<
    Seq<u64>,
    EcFftError,
> {
    if precs.len() == 0 || precs.len() <= precs[0].depth() {
        Err(EcFftError::TooFewPrecomputations)
    } else if !chain_ok(precs) {
        Err(EcFftError::MismatchedPrecomputations)
    } else if c.len() > two_pow(precs[0].depth()) {
        Err(EcFftError::DegreeTooLarge)
    } else {
        Ok(eval_over(pad_to(c, two_pow(precs[0].depth())), precs, 0))
    }
}

/// Evaluates the polynomial with coefficients `poly` (lowest degree first) at
/// every point of the largest domain of `precomputations[0]`. That the result
/// is those values when the chain is sound is
/// `correctness::lemma_evaluate_over_domain_is_naive`.
/// `precomputations[u + 1]` must be built on the even-indexed points of the
/// domain of `precomputations[u]`, one level smaller.
pub fn evaluate_over_domain(poly: &[u64], precomputations: &[EcFftPrecomputation]) -> (r: Result<
    Vec<u64>,
    EcFftError,
>)
    requires
        all_wf(precomputations@),
    ensures
        match r {
            Ok(v) => evaluate_over_domain_spec(poly@, precomputations@) == Ok::<
                Seq<u64>,
                EcFftError,
            >(v@),
            Err(e) => evaluate_over_domain_spec(poly@, precomputations@) == Err::<
                Seq<u64>,
                EcFftError,
            >(e),
        },
{
    if precomputations.len() == 0 || precomputations.len() <= precomputations[0].steps.len() {
        return Err(EcFftError::TooFewPrecomputations);
    }
    let d0 = precomputations[0].steps.len();
    let mut u: usize = 0;
    while u <= d0
        invariant
            d0 == precomputations@[0].depth(),
            d0 < precomputations@.len(),
            u <= d0 + 1,
            forall|w: int|
                0 <= w < u ==> (#[trigger] precomputations@[w]).depth() == d0 - w,
        decreases d0 + 1 - u,
    {
        if precomputations[u].steps.len() != d0 - u {
            return Err(EcFftError::MismatchedPrecomputations);
        }
        u = u + 1;
    }
    proof {
        assert(precomputations@[0].wf());
    }
    let n: usize = if d0 == 0 {
        1
    } else {
        precomputations[0].steps[0].s.len()
    };
    proof {
        assert(two_pow(0) == 1);
        assert(n == two_pow(d0 as nat));
    }
    if poly.len() > n {
        return Err(EcFftError::DegreeTooLarge);
    }
    let mut coeffs = sub_values(poly, 0, poly.len());
    while coeffs.len() < n
        invariant
            poly@.len() <= coeffs@.len() <= n,
            coeffs@ == poly@ + Seq::new((coeffs@.len() - poly@.len()) as nat, |j: int| 0u64),
        decreases n - coeffs@.len(),
    {
        coeffs.push(0);
        proof {
            assert(coeffs@ =~= poly@ + Seq::new((coeffs@.len() - poly@.len()) as nat, |j: int| 0u64));
        }
    }
    proof {
        assert(coeffs@ =~= pad_to(poly@, two_pow(d0 as nat)));
    }
    Ok(evaluate_from(coeffs.as_slice(), precomputations, 0))
}

/// The evaluation over the domain of `precs[t]`, on exactly as many
/// coefficients as that domain has points.
fn evaluate_from(c: &[u64], precs: &[EcFftPrecomputation], t: usize) -> (r: Vec<u64>)
    requires
        all_wf(precs@),
        chain_ok(precs@),
        t <= precs@[0].depth(),
        c@.len() == two_pow((precs@[0].depth() - t) as nat),
    ensures
        r@ == eval_over(c@, precs@, t as int),
        r@.len() == two_pow((precs@[0].depth() - t) as nat),
    decreases precs@.len() - t,
{
    let ghost d = (precs@[0].depth() - t) as nat;
    proof {
        assert(precs@[t as int].depth() == d);
        assert(precs@[t as int].wf());
    }
    if precs[t].steps.len() == 0 {
        proof {
            assert(two_pow(0) == 1);
        }
        return vec![c[0] % MODULUS];
    }
    let s = &precs[t].steps[0].s;
    let n = s.len();
    let h = n / 2;
    proof {
        assert(precs@[t as int + 1].depth() == d - 1);
        assert(precs@[t as int + 1].wf());
        assert(two_pow(d) == 2 * two_pow((d - 1) as nat));
        assert(n == two_pow(d));
        assert(h == two_pow((d - 1) as nat));
        lemma_two_pow_positive((d - 1) as nat);
    }
    let low = sub_values(c, 0, h);
    let high = sub_values(c, h, n);
    proof {
        assert(low@ =~= c@.take(h as int));
        assert(high@ =~= c@.skip(h as int));
    }
    let low_evals = evaluate_from(low.as_slice(), precs, t + 1);
    let high_evals = evaluate_from(high.as_slice(), precs, t + 1);
    let next = &precs[t + 1];
    let low_ext = next.extend_level(low_evals.as_slice(), next.steps.len());
    let high_ext = next.extend_level(high_evals.as_slice(), next.steps.len());
    let e: u64 = h as u64;
    let mut ans: Vec<u64> = Vec::new();
    let ghost bf = butterfly(s@, low_evals@, high_evals@, low_ext@, high_ext@);
    let mut i: usize = 0;
    while i < h
        invariant
            n == s@.len(),
            h == n / 2,
            n == 2 * h,
            e == h,
            low_evals@.len() == h,
            high_evals@.len() == h,
            low_ext@.len() == h,
            high_ext@.len() == h,
            bf == butterfly(s@, low_evals@, high_evals@, low_ext@, high_ext@),
            i <= h,
            ans@.len() == 2 * i,
            forall|k: int| 0 <= k < 2 * i ==> ans@[k] == #[trigger] bf[k],
        decreases h - i,
    {
        let a = fadd(low_evals[i], fmul(fpow(s[2 * i], e), high_evals[i]));
        let b = fadd(low_ext[i], fmul(fpow(s[2 * i + 1], e), high_ext[i]));
        proof {
            assert((2 * i) as int / 2 == i);
            assert((2 * i + 1) as int / 2 == i);
            assert(a == bf[2 * i as int]);
            assert(b == bf[2 * i + 1]);
        }
        ans.push(a);
        ans.push(b);
        i = i + 1;
    }
    proof {
        assert(ans@ =~= bf);
    }
    ans
}

} // verus!

//! Construction of a precomputation from a domain and a chain of degree-2
//! rational maps.
use crate::ecfft::{
    evens, exact_log2, sub_values, is_power_of_two, log2_floor, two_pow, EcFftError, EcFftPrecomputation,
    EcFftPrecomputationStep, Matrix,
};
use crate::field::{finv, finv_spec, fmul, fmul_spec, fpow, fpow_spec, invertible, modulus};
use crate::poly::{evaluate, peval};
use vstd::prelude::*;

verus! {

/// A rational map `x -> numerator(x) / denominator(x)`, each polynomial given
/// by its coefficients, lowest degree first. The maps of a domain chain have
/// degree 2: each sends the two points of a pair to one point.
pub struct Isogeny {
    pub numerator: Vec<u64>,
    pub denominator: Vec<u64>,
}

impl Isogeny {
    /// The value of the numerator at `x`.
    pub open spec fn num_at(&self, x: u64) -> int {
        peval(self.numerator@, x as int) % modulus()
    }

    /// The value of the denominator at `x`.
    pub open spec fn den_at(&self, x: u64) -> int {
        peval(self.denominator@, x as int) % modulus()
    }

    /// The map has no pole at `x`.
    pub open spec fn defined_at(&self, x: u64) -> bool {
        invertible(self.den_at(x))
    }

    /// The value of the map at `x`, where it is defined.
    pub open spec fn eval_spec(&self, x: u64) -> u64 {
        fmul_spec(self.num_at(x), finv_spec(self.den_at(x))) as u64
    }

    /// The value of the map at `x`, or `None` at a pole.
    pub fn eval(&self, x: u64) -> (r: Option<u64>)
        ensures
            r == if self.defined_at(x) {
                Some(self.eval_spec(x))
            } else {
                None::<u64>
            },
    {
        let d = evaluate(self.denominator.as_slice(), x);
        match finv(d) {
            None => None,
            Some(di) => Some(fmul(evaluate(self.numerator.as_slice(), x), di)),
        }
    }
}

/// The matrix of the pair `j` of the domain `pts` (points `j` and
/// `j + len/2`): row `t` is `[v_t, x_t * v_t]` for the point `x_t`, with
/// `v_t` the map's denominator at `x_t` to the power `len/2 - 1`.
pub open spec fn pair_matrix(iso: Isogeny, pts: Seq<u64>, j: int) -> Matrix {
    let h = pts.len() / 2;
    let q = (h - 1) as nat;
    let v0 = fpow_spec(iso.den_at(pts[j]), q);
    let v1 = fpow_spec(iso.den_at(pts[j + h]), q);
    Matrix {
        m00: v0 as u64,
        m01: fmul_spec(pts[j] as int, v0) as u64,
        m10: v1 as u64,
        m11: fmul_spec(pts[j + h] as int, v1) as u64,
    }
}

/// The map is defined on the first half of both domains and every pair
/// matrix of both domains is invertible.
pub open spec fn step_ok(iso: Isogeny, s: Seq<u64>, sp: Seq<u64>) -> bool {
    forall|j: int|
        0 <= j < s.len() / 2 ==> {
            &&& iso.defined_at(#[trigger] s[j])
            &&& iso.defined_at(sp[j])
            &&& invertible(pair_matrix(iso, s, j).det())
            &&& invertible(pair_matrix(iso, sp, j).det())
        }
}

/// The images of the first half of `pts` under the map.
pub open spec fn next_points(iso: Isogeny, pts: Seq<u64>) -> Seq<u64> {
    Seq::new(pts.len() / 2, |j: int| iso.eval_spec(pts[j]))
}

/// The primary and complementary domains of level `k` built from `coset`:
/// level 0 takes the even- and odd-indexed points, each later level the
/// images of the first half of the level before it.
pub open spec fn level_points(coset: Seq<u64>, isos: Seq<Isogeny>, k: nat) -> (Seq<u64>, Seq<u64>)
    decreases k,
{
    if k == 0 {
        (evens(coset), crate::ecfft::odds(coset))
    } else {
        let prev = level_points(coset, isos, (k - 1) as nat);
        (next_points(isos[k - 1], prev.0), next_points(isos[k - 1], prev.1))
    }
}

/// The step that `precompute` builds for level `k`.
pub open spec fn step_built(
    st: EcFftPrecomputationStep,
    coset: Seq<u64>,
    isos: Seq<Isogeny>,
    k: nat,
) -> bool {
    let (s, sp) = level_points(coset, isos, k);
    &&& st.s@ == s
    &&& st.s_prime@ == sp
    &&& st.matrices@ == Seq::new(s.len() / 2, |j: int| pair_matrix(isos[k as int], sp, j))
    &&& st.inverse_matrices@ == Seq::new(
        s.len() / 2,
        |j: int| pair_matrix(isos[k as int], s, j).inverse_spec(),
    )
}

/// `pre` is what `precompute` builds from `coset` and `isos`.
pub open spec fn built_from(pre: EcFftPrecomputation, coset: Seq<u64>, isos: Seq<Isogeny>) -> bool {
    &&& pre.wf()
    &&& pre.depth() == levels_of(coset.len())
    &&& forall|k: int|
        0 <= k < pre.depth() ==> step_built(#[trigger] pre.steps@[k], coset, isos, k as nat)
    &&& pre.final_s == level_points(coset, isos, pre.depth()).0[0]
    &&& pre.final_s_prime == level_points(coset, isos, pre.depth()).1[0]
}

/// `coset` with every second point dropped `u` times.
pub open spec fn subsample(coset: Seq<u64>, u: nat) -> Seq<u64>
    decreases u,
{
    if u == 0 {
        coset
    } else {
        evens(subsample(coset, (u - 1) as nat))
    }
}

/// The number of levels built from a domain of `m` points.
pub open spec fn levels_of(m: nat) -> nat {
    (log2_floor(m) - 1) as nat
}

/// Why `precompute` fails on `coset` and `isos`, if it does.
pub open spec fn precompute_error(coset: Seq<u64>, isos: Seq<Isogeny>) -> Option<EcFftError> {
    if !is_power_of_two(coset.len()) || coset.len() < 2 {
        Some(EcFftError::NotPowerOfTwo)
    } else if isos.len() < levels_of(coset.len()) {
        Some(EcFftError::TooFewIsogenies)
    } else if exists|k: nat|
        k < levels_of(coset.len()) && !#[trigger] step_ok(
            isos[k as int],
            level_points(coset, isos, k).0,
            level_points(coset, isos, k).1,
        ) {
        Some(EcFftError::DegenerateParameters)
    } else {
        None
    }
}

/// The pair matrix of pair `j` of `pts`, whose half length is `h`, or `None`
/// where the map has a pole at one of the two points.
fn pair_matrix_of(iso: &Isogeny, pts: &Vec<u64>, j: usize, h: usize) -> (r: Matrix)
    requires
        h >= 1,
        pts@.len() == 2 * h,
        j < h,
    ensures
        r == pair_matrix(*iso, pts@, j as int),
{
    let q = (h - 1) as u64;
    let n = pts.len();
    assert(j + h < n);
    let v0 = fpow(evaluate(iso.denominator.as_slice(), pts[j]), q);
    let v1 = fpow(evaluate(iso.denominator.as_slice(), pts[j + h]), q);
    Matrix { m00: v0, m01: fmul(pts[j], v0), m10: v1, m11: fmul(pts[j + h], v1) }
}

/// The step of the domains `s` and `s_prime` under `iso`, and the domains of
/// the next level.
fn build_step(iso: &Isogeny, s: Vec<u64>, s_prime: Vec<u64>) -> (r: Result<
    (EcFftPrecomputationStep, Vec<u64>, Vec<u64>),
    EcFftError,
>)
    requires
        s@.len() == s_prime@.len(),
        s@.len() >= 2,
        s@.len() % 2 == 0,
    ensures
        match r {
            Ok((st, ns, nsp)) => {
                &&& step_ok(*iso, s@, s_prime@)
                &&& st.s@ == s@
                &&& st.s_prime@ == s_prime@
                &&& st.matrices@ == Seq::new(s@.len() / 2, |j: int| pair_matrix(*iso, s_prime@, j))
                &&& st.inverse_matrices@ == Seq::new(
                    s@.len() / 2,
                    |j: int| pair_matrix(*iso, s@, j).inverse_spec(),
                )
                &&& ns@ == next_points(*iso, s@)
                &&& nsp@ == next_points(*iso, s_prime@)
            },
            Err(e) => e == EcFftError::DegenerateParameters && !step_ok(*iso, s@, s_prime@),
        },
{
    let h = s.len() / 2;
    let mut matrices: Vec<Matrix> = Vec::new();
    let mut inverse_matrices: Vec<Matrix> = Vec::new();
    let mut ns: Vec<u64> = Vec::new();
    let mut nsp: Vec<u64> = Vec::new();
    let mut j: usize = 0;
    while j < h
        invariant
            h == s@.len() / 2,
            s@.len() == 2 * h,
            s_prime@.len() == 2 * h,
            j <= h,
            matrices@.len() == j,
            inverse_matrices@.len() == j,
            ns@.len() == j,
            nsp@.len() == j,
            forall|t: int|
                0 <= t < j ==> {
                    &&& iso.defined_at(#[trigger] s@[t])
                    &&& iso.defined_at(s_prime@[t])
                    &&& invertible(pair_matrix(*iso, s@, t).det())
                    &&& invertible(pair_matrix(*iso, s_prime@, t).det())
                    &&& matrices@[t] == pair_matrix(*iso, s_prime@, t)
                    &&& inverse_matrices@[t] == pair_matrix(*iso, s@, t).inverse_spec()
                    &&& ns@[t] == iso.eval_spec(s@[t])
                    &&& nsp@[t] == iso.eval_spec(s_prime@[t])
                },
        decreases h - j,
    {
        let a = match iso.eval(s[j]) {
            None => return Err(EcFftError::DegenerateParameters),
            Some(a) => a,
        };
        let b = match iso.eval(s_prime[j]) {
            None => return Err(EcFftError::DegenerateParameters),
            Some(b) => b,
        };
        let m = pair_matrix_of(iso, &s_prime, j, h);
        if m.inverse().is_none() {
            return Err(EcFftError::DegenerateParameters);
        }
        let mi = match pair_matrix_of(iso, &s, j, h).inverse() {
            None => return Err(EcFftError::DegenerateParameters),
            Some(mi) => mi,
        };
        matrices.push(m);
        inverse_matrices.push(mi);
        ns.push(a);
        nsp.push(b);
        j = j + 1;
    }
    proof {
        assert forall|t: int| 0 <= t < h implies matrices@[t] == pair_matrix(*iso, s_prime@, t)
            && nsp@[t] == iso.eval_spec(s_prime@[t]) by {
            assert(iso.defined_at(s@[t]));
        }
        assert(matrices@ =~= Seq::new(s@.len() / 2, |t: int| pair_matrix(*iso, s_prime@, t)));
        assert(inverse_matrices@ =~= Seq::new(
            s@.len() / 2,
            |t: int| pair_matrix(*iso, s@, t).inverse_spec(),
        ));
        assert(ns@ =~= next_points(*iso, s@));
        assert(nsp@ =~= next_points(*iso, s_prime@));
    }
    Ok((EcFftPrecomputationStep { s, s_prime, matrices, inverse_matrices }, ns, nsp))
}

/// Builds the precomputation of the domain `coset` (of `2^a` points, `a >= 1`)
/// with the maps `isogenies[0..a-1]`: level `k` holds the domains of
/// `level_points(coset, isogenies, k)`, its pair matrices on the
/// complementary domain, and the inverses of its pair matrices on the primary
/// domain. Fails on a size that is not a power of two of at least two points,
/// on too few maps, and on a pole or a singular pair matrix.
pub fn precompute(coset: &[u64], isogenies: &[Isogeny]) -> (r: Result<
    EcFftPrecomputation,
    EcFftError,
>)
    ensures
        match r {
            Ok(pre) => precompute_error(coset@, isogenies@) == None::<EcFftError> && built_from(
                pre,
                coset@,
                isogenies@,
            ),
            Err(e) => precompute_error(coset@, isogenies@) == Some(e),
        },
{
    let a = match exact_log2(coset.len()) {
        None => return Err(EcFftError::NotPowerOfTwo),
        Some(a) => a,
    };
    if a == 0 {
        proof {
            assert(two_pow(0) == 1);
        }
        return Err(EcFftError::NotPowerOfTwo);
    }
    let levels = a - 1;
    proof {
        assert(two_pow(a as nat) == 2 * two_pow(levels as nat));
    }
    if isogenies.len() < levels {
        return Err(EcFftError::TooFewIsogenies);
    }
    let ghost c = coset@;
    let ghost isos = isogenies@;
    let (s, sp) = split_even_odd(coset);
    let mut s = s;
    let mut sp = sp;
    proof {
        assert(s@ == level_points(c, isos, 0).0);
    }
    let mut steps: Vec<EcFftPrecomputationStep> = Vec::new();
    let mut k: usize = 0;
    while k < levels
        invariant
            levels == levels_of(c.len()),
            isos.len() >= levels,
            isos == isogenies@,
            k <= levels,
            steps@.len() == k,
            s@ == level_points(c, isos, k as nat).0,
            sp@ == level_points(c, isos, k as nat).1,
            s@.len() == two_pow((levels - k) as nat),
            sp@.len() == two_pow((levels - k) as nat),
            forall|t: int|
                0 <= t < k ==> step_built(#[trigger] steps@[t], c, isos, t as nat),
            forall|t: nat|
                t < k ==> #[trigger] step_ok(
                    isos[t as int],
                    level_points(c, isos, t).0,
                    level_points(c, isos, t).1,
                ),
            is_power_of_two(c.len()),
            c.len() >= 2,
            c == coset@,
        decreases levels - k,
    {
        proof {
            assert(two_pow((levels - k) as nat) == 2 * two_pow((levels - k - 1) as nat));
            crate::ecfft::lemma_two_pow_positive((levels - k - 1) as nat);
        }
        let built = build_step(&isogenies[k], s, sp);
        match built {
            Err(e) => {
                proof {
                    assert(e == EcFftError::DegenerateParameters);
                    assert(!step_ok(
                        isos[k as int],
                        level_points(c, isos, k as nat).0,
                        level_points(c, isos, k as nat).1,
                    ));
                }
                return Err(e);
            },
            Ok((st, ns, nsp)) => {
                steps.push(st);
                s = ns;
                sp = nsp;
            },
        }
        k = k + 1;
    }
    proof {
        assert(two_pow(0) == 1);
    }
    let pre = EcFftPrecomputation { steps, final_s: s[0], final_s_prime: sp[0] };
    proof {
        lemma_built_wf(pre, c, isos, levels as nat);
    }
    Ok(pre)
}

/// The even- and odd-indexed points of `v`, of even length.
fn split_even_odd(v: &[u64]) -> (r: (Vec<u64>, Vec<u64>))
    requires
        v@.len() % 2 == 0,
    ensures
        r.0@ == evens(v@),
        r.1@ == crate::ecfft::odds(v@),
{
    let n = v.len();
    let h = n / 2;
    let mut s: Vec<u64> = Vec::new();
    let mut sp: Vec<u64> = Vec::new();
    let mut j: usize = 0;
    while j < h
        invariant
            v@.len() == 2 * h,
            n == v@.len(),
            j <= h,
            s@.len() == j,
            sp@.len() == j,
            forall|t: int| 0 <= t < j ==> #[trigger] s@[t] == v@[2 * t],
            forall|t: int| 0 <= t < j ==> #[trigger] sp@[t] == v@[2 * t + 1],
        decreases h - j,
    {
        s.push(v[2 * j]);
        sp.push(v[2 * j + 1]);
        j = j + 1;
    }
    proof {
        assert(s@ =~= evens(v@));
        assert(sp@ =~= crate::ecfft::odds(v@));
    }
    (s, sp)
}

/// A precomputation whose steps are those built from a domain of
/// `2^(levels + 1)` points is well formed.
proof fn lemma_built_wf(pre: EcFftPrecomputation, c: Seq<u64>, isos: Seq<Isogeny>, levels: nat)
    requires
        c.len() == two_pow(levels + 1),
        pre.depth() == levels,
        forall|t: int| 0 <= t < levels ==> step_built(#[trigger] pre.steps@[t], c, isos, t as nat),
    ensures
        pre.wf(),
{
    assert forall|t: int| 0 <= t < pre.depth() implies {
        let st = #[trigger] pre.steps@[t];
        let n = two_pow((pre.depth() - t) as nat);
        &&& st.s@.len() == n
        &&& st.s_prime@.len() == n
        &&& st.matrices@.len() == n / 2
        &&& st.inverse_matrices@.len() == n / 2
    } by {
        assert(step_built(pre.steps@[t], c, isos, t as nat));
        lemma_level_points_len(c, isos, t as nat, levels);
    }
}

/// Level `k` of a domain of `2^(levels + 1)` points has `2^(levels - k)`
/// points in each domain.
proof fn lemma_level_points_len(c: Seq<u64>, isos: Seq<Isogeny>, k: nat, levels: nat)
    requires
        k <= levels,
        c.len() == two_pow(levels + 1),
    ensures
        level_points(c, isos, k).0.len() == two_pow((levels - k) as nat),
        level_points(c, isos, k).1.len() == two_pow((levels - k) as nat),
    decreases k,
{
    if k > 0 {
        lemma_level_points_len(c, isos, (k - 1) as nat, levels);
        assert(two_pow((levels - k + 1) as nat) == 2 * two_pow((levels - k) as nat));
    }
}

/// The configuration of a domain chain: the size exponent `log_n`, a base
/// coset of `2^log_n` points, and the maps that link each level of it to the
/// next. The coset must agree with the maps (each pair of a level is sent to
/// one point of the next); this is not checked.
pub struct EcFftParameters {
    pub log_n: usize,
    pub coset: Vec<u64>,
    pub isogenies: Vec<Isogeny>,
}

impl EcFftParameters {
    /// The precomputations of the coset and of its successive even-indexed
    /// subsamplings, down to two points: the sequence that
    /// `evaluate_over_domain` takes. Fails with the error of the first
    /// subsampling whose precomputation fails, or when the coset does not
    /// hold a power of two of at least two points.
    pub fn precompute_chain(&self) -> (r: Result<Vec<EcFftPrecomputation>, EcFftError>)
        ensures
            match r {
                Ok(v) => {
                    &&& crate::ecfft::all_wf(v@)
                    &&& crate::ecfft::chain_ok(v@)
                    &&& v@.len() == log2_floor(self.coset@.len())
                    &&& forall|u: int|
                        0 <= u < v@.len() ==> built_from(
                            #[trigger] v@[u],
                            subsample(self.coset@, u as nat),
                            self.isogenies@,
                        )
                },
                Err(e) => !is_power_of_two(self.coset@.len()) && e == EcFftError::NotPowerOfTwo
                    || self.coset@.len() == 1 && e == EcFftError::NotPowerOfTwo || exists|u: nat|
                    u < log2_floor(self.coset@.len()) && #[trigger] precompute_error(
                        subsample(self.coset@, u),
                        self.isogenies@,
                    ) == Some(e),
            },
    {
        let a = match exact_log2(self.coset.len()) {
            None => return Err(EcFftError::NotPowerOfTwo),
            Some(a) => a,
        };
        if a == 0 {
            proof {
                assert(two_pow(0) == 1);
            }
            return Err(EcFftError::NotPowerOfTwo);
        }
        let ghost c = self.coset@;
        let ghost isos = self.isogenies@;
        let mut cur = sub_values(self.coset.as_slice(), 0, self.coset.len());
        proof {
            assert(cur@ =~= c);
        }
        let mut v: Vec<EcFftPrecomputation> = Vec::new();
        let mut u: usize = 0;
        while u < a
            invariant
                a == log2_floor(c.len()),
                c.len() == two_pow(a as nat),
                c == self.coset@,
                isos == self.isogenies@,
                u <= a,
                v@.len() == u,
                cur@ == subsample(c, u as nat),
                cur@.len() == two_pow((a - u) as nat),
                forall|w: int|
                    0 <= w < u ==> built_from(#[trigger] v@[w], subsample(c, w as nat), isos),
                forall|w: int| 0 <= w < u ==> (#[trigger] v@[w]).depth() == a - 1 - w,
            decreases a - u,
        {
            proof {
                assert(two_pow((a - u) as nat) == 2 * two_pow((a - u - 1) as nat));
                crate::ecfft::lemma_log2_of_two_pow((a - u) as nat);
            }
            let pre = match precompute(cur.as_slice(), self.isogenies.as_slice()) {
                Err(e) => return Err(e),
                Ok(pre) => pre,
            };
            v.push(pre);
            let (next, _) = split_even_odd(cur.as_slice());
            cur = next;
            u = u + 1;
        }
        proof {
            assert forall|w: int| 0 <= w < v@.len() implies (#[trigger] v@[w]).wf() by {
                assert(built_from(v@[w], subsample(c, w as nat), isos));
            }
            assert(v@[0].depth() == a - 1);
        }
        Ok(v)
    }

    /// Builds the precomputation of `coset` with this configuration's maps.
    pub fn precompute(&self, coset: &[u64]) -> (r: Result<EcFftPrecomputation, EcFftError>)
        ensures
            match r {
                Ok(pre) => precompute_error(coset@, self.isogenies@) == None::<EcFftError>
                    && built_from(pre, coset@, self.isogenies@),
                Err(e) => precompute_error(coset@, self.isogenies@) == Some(e),
            },
    {
        precompute(coset, self.isogenies.as_slice())
    }
}

} // verus!

use ark_std::rand::Rng;
use ark_std::test_rng;
use ecfft::{
    evaluate, evaluate_over_domain, exact_log2, fadd, finv, fmul, fpow, fsub, precompute,
    EcFftError, EcFftParameters, EcFftPrecomputation, EcFftPrecomputationStep, Isogeny, Matrix,
    MODULUS,
};

const LOG_N: usize = 10;
const N: usize = 1 << LOG_N;

/// `coset_shift * w^i` for `i < 2^log_n`, `w` of order `2^log_n`.
fn smooth_coset(log_n: usize) -> Vec<u64> {
    let w = fpow(7, (MODULUS - 1) >> log_n);
    let mut x = 7;
    let mut v = Vec::new();
    for _ in 0..(1usize << log_n) {
        v.push(x);
        x = fmul(x, w);
    }
    v
}

fn squaring() -> Isogeny {
    Isogeny { numerator: vec![0, 0, 1], denominator: vec![1] }
}

fn parameters(log_n: usize) -> EcFftParameters {
    EcFftParameters {
        log_n,
        coset: smooth_coset(log_n),
        isogenies: (0..log_n - 1).map(|_| squaring()).collect(),
    }
}

fn random_coeffs<R: Rng>(rng: &mut R, n: usize) -> Vec<u64> {
    (0..n).map(|_| rng.gen::<u64>() % MODULUS).collect()
}

fn evals(coeffs: &[u64], points: &[u64]) -> Vec<u64> {
    points.iter().map(|&x| evaluate(coeffs, x)).collect()
}

fn test_extend_i(i: usize, precomputation: &EcFftPrecomputation) {
    let n = 1 << i;
    let mut rng = test_rng();
    let coeffs = random_coeffs(&mut rng, n);
    let EcFftPrecomputationStep { s, s_prime, .. } = &precomputation.steps[LOG_N - 1 - i];
    let evals_s = evals(&coeffs, s);
    let evals_s_prime = evals(&coeffs, s_prime);
    assert_eq!(Ok(evals_s_prime), precomputation.extend(&evals_s));
}

#[test]
fn test_extend() {
    let params = parameters(LOG_N);
    let precomputation = params.precompute(&params.coset).unwrap();
    for i in 1..LOG_N {
        test_extend_i(i, &precomputation);
    }
}

#[test]
fn test_eval() {
    let params = parameters(LOG_N);
    let mut coset = params.coset.clone();
    let mut precomputations = Vec::new();
    for _ in 0..LOG_N {
        precomputations.push(params.precompute(&coset).unwrap());
        coset = coset.into_iter().step_by(2).collect();
    }
    for i in 0..LOG_N - 1 {
        let mut rng = test_rng();
        let coeffs = random_coeffs(&mut rng, N >> (i + 1));
        let EcFftPrecomputationStep { s, .. } = &precomputations[i].steps[0];
        let expected = evals(&coeffs, s);
        assert_eq!(Ok(expected), evaluate_over_domain(&coeffs, &precomputations[i..]));
    }
}

#[test]
fn extend_of_one_value_is_identity() {
    let params = parameters(4);
    let pre = params.precompute(&params.coset).unwrap();
    assert_eq!(pre.extend(&[12345]), Ok(vec![12345]));
    assert_eq!(pre.extend(&[MODULUS + 3]), Ok(vec![MODULUS + 3]));
}

#[test]
fn extend_of_zeros_is_zeros_at_every_level() {
    let params = parameters(6);
    let pre = params.precompute(&params.coset).unwrap();
    for i in 0..6 {
        let z = vec![0u64; 1 << i];
        assert_eq!(pre.extend(&z), Ok(z.clone()));
    }
}

#[test]
fn extend_rejects_lengths_that_are_not_powers_of_two() {
    let params = parameters(4);
    let pre = params.precompute(&params.coset).unwrap();
    assert_eq!(pre.extend(&[]), Err(EcFftError::NotPowerOfTwo));
    assert_eq!(pre.extend(&[1, 2, 3]), Err(EcFftError::NotPowerOfTwo));
    assert_eq!(pre.extend(&[0; 6]), Err(EcFftError::NotPowerOfTwo));
}

#[test]
fn extend_rejects_lengths_beyond_the_precomputation() {
    let params = parameters(4);
    let pre = params.precompute(&params.coset).unwrap();
    assert_eq!(pre.steps.len(), 3);
    assert!(pre.extend(&[0; 8]).is_ok());
    assert_eq!(pre.extend(&[0; 16]), Err(EcFftError::TooManyEvaluations));
    assert_eq!(pre.extend(&[0; 32]), Err(EcFftError::TooManyEvaluations));
}

#[test]
fn degree_one_polynomial_on_eight_points() {
    let params = parameters(3);
    let pre = params.precompute(&params.coset).unwrap();
    assert_eq!(pre.steps.len(), 2);
    let step = &pre.steps[1];
    assert_eq!(step.s.len(), 2);
    let (a, b) = (5u64, 11u64);
    let p = |x: u64| fadd(a, fmul(b, x));
    let (s0, s1) = (step.s[0], step.s[1]);
    let (t0, t1) = (step.s_prime[0], step.s_prime[1]);
    assert_eq!(pre.extend(&[p(s0), p(s1)]), Ok(vec![p(t0), p(t1)]));
}

#[test]
fn evaluation_matches_naive_evaluation_of_short_polynomials() {
    let params = parameters(5);
    let mut coset = params.coset.clone();
    let mut precomputations = Vec::new();
    for _ in 0..5 {
        precomputations.push(params.precompute(&coset).unwrap());
        coset = coset.into_iter().step_by(2).collect();
    }
    let s = precomputations[0].steps[0].s.clone();
    for coeffs in [vec![], vec![9], vec![1, 2, 3], vec![4; 16]] {
        let expected = evals(&coeffs, &s);
        assert_eq!(evaluate_over_domain(&coeffs, &precomputations), Ok(expected));
    }
    assert_eq!(evaluate_over_domain(&[0; 16], &precomputations), Ok(vec![0; 16]));
}

#[test]
fn evaluation_errors() {
    let params = parameters(4);
    let full = params.precompute(&params.coset).unwrap();
    let half_coset: Vec<u64> = params.coset.iter().step_by(2).copied().collect();
    let half = params.precompute(&half_coset).unwrap();
    assert_eq!(evaluate_over_domain(&[1], &[]), Err(EcFftError::TooFewPrecomputations));
    let precs = vec![full];
    assert_eq!(evaluate_over_domain(&[1], &precs), Err(EcFftError::TooFewPrecomputations));
    let full = params.precompute(&params.coset).unwrap();
    let again = params.precompute(&params.coset).unwrap();
    let extra1 = params.precompute(&params.coset).unwrap();
    let extra2 = params.precompute(&params.coset).unwrap();
    let precs = vec![full, again, extra1, extra2];
    assert_eq!(evaluate_over_domain(&[1], &precs), Err(EcFftError::MismatchedPrecomputations));
    let mut coset = half_coset.clone();
    let mut precs = vec![half];
    for _ in 0..2 {
        coset = coset.into_iter().step_by(2).collect();
        precs.push(params.precompute(&coset).unwrap());
    }
    assert_eq!(evaluate_over_domain(&[1; 5], &precs), Err(EcFftError::DegreeTooLarge));
    assert!(evaluate_over_domain(&[1; 4], &precs).is_ok());
}

#[test]
fn precompute_shapes_and_base_case() {
    let params = parameters(4);
    let pre = params.precompute(&params.coset).unwrap();
    assert_eq!(pre.steps.len(), 3);
    for (k, step) in pre.steps.iter().enumerate() {
        let n = 8 >> k;
        assert_eq!(step.s.len(), n);
        assert_eq!(step.s_prime.len(), n);
        assert_eq!(step.matrices.len(), n / 2);
        assert_eq!(step.inverse_matrices.len(), n / 2);
    }
    let evens: Vec<u64> = params.coset.iter().step_by(2).copied().collect();
    let odds: Vec<u64> = params.coset.iter().skip(1).step_by(2).copied().collect();
    assert_eq!(pre.steps[0].s, evens);
    assert_eq!(pre.steps[0].s_prime, odds);
    let next: Vec<u64> = evens[..4].iter().map(|&x| fmul(x, x)).collect();
    assert_eq!(pre.steps[1].s, next);
    let m = pre.steps[0].matrices[0];
    assert_eq!(m, Matrix { m00: 1, m01: odds[0], m10: 1, m11: odds[4] });
    let last = &pre.steps[2];
    assert_eq!(pre.final_s, fmul(last.s[0], last.s[0]));
    assert_eq!(pre.final_s_prime, fmul(last.s_prime[0], last.s_prime[0]));
}

#[test]
fn precompute_errors() {
    let sq = || vec![squaring(), squaring(), squaring()];
    assert_eq!(precompute(&[1, 2, 3], &sq()).err(), Some(EcFftError::NotPowerOfTwo));
    assert_eq!(precompute(&[1], &sq()).err(), Some(EcFftError::NotPowerOfTwo));
    assert_eq!(precompute(&[], &sq()).err(), Some(EcFftError::NotPowerOfTwo));
    let coset = smooth_coset(4);
    assert_eq!(precompute(&coset, &sq()[..2]).err(), Some(EcFftError::TooFewIsogenies));
    assert!(precompute(&coset, &sq()).is_ok());
    let repeated = vec![3u64; 8];
    assert_eq!(precompute(&repeated, &sq()).err(), Some(EcFftError::DegenerateParameters));
    let pole = Isogeny { numerator: vec![0, 0, 1], denominator: vec![0] };
    let poles = vec![pole];
    assert_eq!(precompute(&smooth_coset(2), &poles).err(), Some(EcFftError::DegenerateParameters));
    let two = precompute(&[4, 9], &[]).unwrap();
    assert_eq!((two.steps.len(), two.final_s, two.final_s_prime), (0, 4, 9));
}

#[test]
fn field_operations() {
    let p = MODULUS;
    assert_eq!(fadd(p - 1, 2), 1);
    assert_eq!(fadd(u64::MAX, u64::MAX), ((2 * (u64::MAX as u128)) % (p as u128)) as u64);
    assert_eq!(fsub(1, 2), p - 1);
    assert_eq!(fsub(10, 3), 7);
    assert_eq!(fmul(p - 1, p - 1), 1);
    assert_eq!(fmul(1 << 32, 1 << 32), (1u64 << 32) - 1);
    assert_eq!(fpow(3, 0), 1);
    assert_eq!(fpow(3, 5), 243);
    assert_eq!(fpow(7, p - 1), 1);
    let inv = finv(3).unwrap();
    assert_eq!(fmul(3, inv), 1);
    assert_eq!(finv(0), None);
    assert_eq!(finv(p), None);
}

#[test]
fn polynomial_evaluation() {
    assert_eq!(evaluate(&[], 5), 0);
    assert_eq!(evaluate(&[1, 2, 3], 2), 17);
    assert_eq!(evaluate(&[MODULUS, 0, 1], 3), 9);
}

#[test]
fn matrix_product_and_inverse() {
    let m = Matrix { m00: 2, m01: 3, m10: 5, m11: 7 };
    assert_eq!(m.multiply(1, 10), (32, 75));
    let inv = m.inverse().unwrap();
    let (x, y) = m.multiply(4, 9);
    assert_eq!(inv.multiply(x, y), (4, 9));
    let singular = Matrix { m00: 2, m01: 4, m10: 1, m11: 2 };
    assert_eq!(singular.inverse(), None);
}

#[test]
fn isogeny_evaluation() {
    let sq = squaring();
    assert_eq!(sq.eval(9), Some(81));
    let half = Isogeny { numerator: vec![0, 0, 1], denominator: vec![2] };
    assert_eq!(half.eval(4), Some(8));
    let pole = Isogeny { numerator: vec![1], denominator: vec![0, 1] };
    assert_eq!(pole.eval(0), None);
}

#[test]
fn exact_logarithm() {
    assert_eq!(exact_log2(0), None);
    assert_eq!(exact_log2(1), Some(0));
    assert_eq!(exact_log2(64), Some(6));
    assert_eq!(exact_log2(96), None);
    assert_eq!(exact_log2(1 << 63), Some(63));
}

#[test]
fn extend_and_evaluate_with_scaled_maps() {
    let log_n = 6;
    let third = Isogeny { numerator: vec![0, 0, 1], denominator: vec![3] };
    let isogenies: Vec<Isogeny> = (0..log_n - 1)
        .map(|_| Isogeny { numerator: third.numerator.clone(), denominator: vec![3] })
        .collect();
    let params = EcFftParameters { log_n, coset: smooth_coset(log_n), isogenies };
    let pre = params.precompute(&params.coset).unwrap();
    let v = fpow(3, 15);
    assert_eq!(pre.steps[0].matrices[0].m00, v);
    let mut rng = test_rng();
    for i in 1..log_n {
        let coeffs = random_coeffs(&mut rng, 1 << i);
        let step = &pre.steps[log_n - 1 - i];
        let got = pre.extend(&evals(&coeffs, &step.s));
        assert_eq!(got, Ok(evals(&coeffs, &step.s_prime)));
    }
    let mut coset = params.coset.clone();
    let mut precs = Vec::new();
    for _ in 0..log_n {
        precs.push(params.precompute(&coset).unwrap());
        coset = coset.into_iter().step_by(2).collect();
    }
    let coeffs = random_coeffs(&mut rng, 32);
    let expected = evals(&coeffs, &precs[0].steps[0].s);
    assert_eq!(evaluate_over_domain(&coeffs, &precs), Ok(expected));
}

#[test]
fn precompute_chain_feeds_evaluation() {
    let params = parameters(7);
    let chain = params.precompute_chain().unwrap();
    assert_eq!(chain.len(), 7);
    for (u, pre) in chain.iter().enumerate() {
        assert_eq!(pre.steps.len(), 6 - u);
    }
    let mut rng = test_rng();
    let coeffs = random_coeffs(&mut rng, 64);
    let expected = evals(&coeffs, &chain[0].steps[0].s);
    assert_eq!(evaluate_over_domain(&coeffs, &chain), Ok(expected));
    let coeffs = random_coeffs(&mut rng, 8);
    let expected = evals(&coeffs, &chain[3].steps[0].s);
    assert_eq!(evaluate_over_domain(&coeffs, &chain[3..]), Ok(expected));
}

#[test]
fn precompute_chain_errors() {
    let mut params = parameters(3);
    params.coset.pop();
    assert_eq!(params.precompute_chain().err(), Some(EcFftError::NotPowerOfTwo));
    params.coset = vec![5];
    assert_eq!(params.precompute_chain().err(), Some(EcFftError::NotPowerOfTwo));
    let mut params = parameters(4);
    params.isogenies.pop();
    assert_eq!(params.precompute_chain().err(), Some(EcFftError::TooFewIsogenies));
    let params = EcFftParameters { log_n: 3, coset: vec![2; 8], isogenies: vec![squaring(), squaring()] };
    assert_eq!(params.precompute_chain().err(), Some(EcFftError::DegenerateParameters));
}

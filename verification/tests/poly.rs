use p3_baby_bear::BabyBear as PF;
use p3_field::extension::BinomialExtensionField;
use p3_field::{BasedVectorSpace, PrimeCharacteristicRing, PrimeField32};
use stark_backend::field::{BabyBear, BabyBearExt4, P};
use stark_backend::poly::{
    eval_eq_mle, eval_mle_evals_at_point, eval_mobius_eq_mle, exp_powers_of_2, horner_eval,
    interpolate_quadratic_at_012, powers, powers_base,
};
use stark_backend::proofs::column_openings_by_rot;
use stark_backend::verification::interpolation::interpolate;

type PE = BinomialExtensionField<PF, 4>;

fn e(x: PE) -> BabyBearExt4 {
    let c: &[PF] = x.as_basis_coefficients_slice();
    let f = |x: PF| BabyBear::new(x.as_canonical_u32());
    BabyBearExt4::new(f(c[0]), f(c[1]), f(c[2]), f(c[3]))
}

fn pe(c: [u32; 4]) -> PE {
    PE::new(c.map(PF::from_u32))
}

fn n(v: usize) -> BabyBearExt4 {
    BabyBearExt4::from_usize(v)
}

fn several() -> Vec<PE> {
    (1..9u32).map(|i| pe([i, i * i, 0x70000000 + i, 3])).collect()
}

#[test]
fn elements_are_reduced() {
    assert_eq!(BabyBear::new(P), BabyBear::zero());
    assert_eq!(BabyBear::new(P + 5), BabyBear::new(5));
    assert!(BabyBear::new(P).is_zero());
    assert!(!BabyBear::one().is_zero());
    assert_eq!(BabyBear::from_usize(P as usize * 3 + 1), BabyBear::one());
    assert_eq!(BabyBear::from_bool(true), BabyBear::one());
    assert_eq!(BabyBear::from_bool(false), BabyBear::zero());
    assert_ne!(n(1), n(2));
}

#[test]
fn horner_evaluates() {
    let c = several();
    let x = pe([5, 0, 9, 1]);
    let expected = c.iter().rev().fold(PE::ZERO, |acc, a| acc * x + *a);
    let coeffs: Vec<_> = c.iter().map(|a| e(*a)).collect();
    assert_eq!(horner_eval(&coeffs, e(x)), e(expected));
    // 1 + 2x + 3x^2 at 10
    assert_eq!(horner_eval(&[n(1), n(2), n(3)], n(10)), n(321));
    assert_eq!(horner_eval(&[], n(10)), n(0));
}

#[test]
fn equality_kernel_tells_points_apart() {
    let (zero, one) = (n(0), n(1));
    assert_eq!(eval_eq_mle(&[zero, one], &[zero, one]), one);
    assert_eq!(eval_eq_mle(&[zero, one], &[one, one]), zero);
    assert_eq!(eval_eq_mle(&[], &[]), one);
    // 1 - 2 - 3 + 2 * 6 is 8, and 1 - 5 - 7 + 2 * 35 is 59
    assert_eq!(eval_eq_mle(&[n(2), n(5)], &[n(3), n(7)]), n(8 * 59));
}

#[test]
fn moebius_kernel_reads_coefficients() {
    // f = 4 + 9 x0 + 25 x1 + 49 x0 x1 on the hypercube
    let coeffs = [4usize, 9, 25, 49];
    let values = [4usize, 13, 29, 87];
    let (u0, u1) = (3usize, 11usize);
    // the sum of the values, each times the kernel
    let p = 0x78000001u64;
    let kernel = |u: u64, b: usize| if b == 0 { (p + 1 - 2 * u) % p } else { u };
    let mut sum = 0u64;
    for (b, v) in values.iter().enumerate() {
        let k = kernel(u0 as u64, b & 1) * kernel(u1 as u64, b >> 1) % p;
        let bits = [n(b & 1), n(b >> 1)];
        assert_eq!(eval_mobius_eq_mle(&[n(u0), n(u1)], &bits), n(k as usize));
        sum = (sum + k * *v as u64) % p;
    }
    let table = coeffs.map(n);
    assert_eq!(eval_mle_evals_at_point(&table, &[n(u0), n(u1)]), n(sum as usize));
}

#[test]
fn multilinear_extension_interpolates() {
    let table = [n(10), n(20), n(30), n(70)];
    for b in 0..4usize {
        assert_eq!(eval_mle_evals_at_point(&table, &[n(b & 1), n(b >> 1)]), table[b]);
    }
    // 10 + 10 x0 + 20 x1 + 30 x0 x1 at (2, 3)
    assert_eq!(eval_mle_evals_at_point(&table, &[n(2), n(3)]), n(10 + 20 + 60 + 180));
    assert_eq!(eval_mle_evals_at_point(&[n(6)], &[]), n(6));
}

#[test]
fn kernels_factor() {
    let x: Vec<_> = several().iter().map(|a| e(*a)).collect();
    let (a, b) = (&x[..4], &x[4..]);
    let product = |f: fn(&[BabyBearExt4], &[BabyBearExt4]) -> BabyBearExt4| {
        let (l, r) = (f(&a[..1], &b[..1]), f(&a[1..], &b[1..]));
        // multiply through a polynomial with the single coefficient l at X
        horner_eval(&[n(0), l], r)
    };
    assert_eq!(eval_eq_mle(a, b), product(eval_eq_mle));
    assert_eq!(eval_mobius_eq_mle(a, b), product(eval_mobius_eq_mle));
}

#[test]
fn quadratics_hit_their_values() {
    let v = several();
    let (e0, e1, e2) = (e(v[0]), e(v[1]), e(v[2]));
    assert_eq!(interpolate_quadratic_at_012(e0, e1, e2, n(0)), e0);
    assert_eq!(interpolate_quadratic_at_012(e0, e1, e2, n(1)), e1);
    assert_eq!(interpolate_quadratic_at_012(e0, e1, e2, n(2)), e2);
    // 1 + x + 3x^2 at 10
    assert_eq!(interpolate_quadratic_at_012(n(1), n(5), n(15), n(10)), n(311));
}

#[test]
fn interpolation_hits_its_values() {
    let evals: Vec<_> = several().iter().map(|a| e(*a)).collect();
    for (i, v) in evals.iter().enumerate() {
        assert_eq!(interpolate(&evals, n(i)), *v);
    }
    // x^3 at 0, 1, 2, 3 and at 10
    assert_eq!(interpolate(&vec![n(0), n(1), n(8), n(27)], n(10)), n(1000));
    assert_eq!(interpolate(&vec![n(4)], n(10)), n(4));
}

#[test]
fn interpolation_gives_polynomials_back() {
    let c: Vec<_> = several().iter().map(|a| e(*a)).collect();
    let x = e(pe([3, 1, 4, 1]));
    let evals: Vec<_> = (0..c.len()).map(|i| horner_eval(&c, n(i))).collect();
    assert_eq!(interpolate(&evals, x), horner_eval(&c, x));
    // one value more than there are coefficients
    let evals: Vec<_> = (0..c.len() + 1).map(|i| horner_eval(&c, n(i))).collect();
    assert_eq!(interpolate(&evals, x), horner_eval(&c, x));
    // one value too few
    assert_ne!(interpolate(&evals[..c.len() - 1].to_vec(), x), horner_eval(&c, x));
}

#[test]
fn powers_and_squares() {
    assert_eq!(powers(n(3), 4), vec![n(1), n(3), n(9), n(27)]);
    assert_eq!(exp_powers_of_2(n(3), 4), vec![n(3), n(9), n(81), n(6561)]);
    let b = BabyBear::new;
    assert_eq!(powers_base(b(2), 3), vec![b(1), b(2), b(4)]);
    let x = pe([1, 2, 3, 4]);
    assert_eq!(exp_powers_of_2(e(x), 3)[2], e(x.exp_u64(4)));
    assert_eq!(powers(e(x), 6)[5], e(x.exp_u64(5)));
}

#[test]
fn openings_are_paired_with_their_rotations() {
    let v = vec![n(1), n(2), n(3), n(4)];
    assert_eq!(column_openings_by_rot(&v, true), vec![(n(1), n(2)), (n(3), n(4))]);
    assert_eq!(column_openings_by_rot(&v[..1].to_vec(), false), vec![(n(1), n(0))]);
}

use curve25519_dalek::ristretto::RistrettoPoint;
use curve25519_dalek::scalar::Scalar as DalekScalar;
use curve25519_dalek::traits::VartimeMultiscalarMul;
use inner_product_proof::inner_product_proof::checked_pow2;
use inner_product_proof::inner_product_proof::commit_cross_terms;
use inner_product_proof::inner_product_proof::expansion_coefficients;
use inner_product_proof::inner_product_proof::fold_points;
use inner_product_proof::inner_product_proof::fold_scalars;
use inner_product_proof::inner_product_proof::power_of_two;
use inner_product_proof::inner_product_proof::rescale;
use inner_product_proof::inner_product_proof::Proof;
use inner_product_proof::point::Point;
use inner_product_proof::scalar::exp_powers;
use inner_product_proof::scalar::Scalar;
use inner_product_proof::transcript::Transcript;
use rand::rngs::StdRng;
use rand::SeedableRng;
use sha2::Sha512;

fn small(x: u64) -> Scalar {
    let mut bytes = [0u8; 32];
    bytes[..8].copy_from_slice(&x.to_le_bytes());
    Scalar::from_bytes_mod_order(bytes)
}

fn scalar(s: &DalekScalar) -> Scalar {
    Scalar::from_bytes_mod_order(s.to_bytes())
}

fn dalek(s: &Scalar) -> DalekScalar {
    DalekScalar::from_bytes_mod_order(s.to_bytes())
}

fn point(p: &RistrettoPoint) -> Point {
    Point::from_bytes(p.compress().to_bytes()).unwrap()
}

fn hashed(label: &[u8]) -> RistrettoPoint {
    RistrettoPoint::hash_from_bytes::<Sha512>(label)
}

/// A chain of `n` generators derived from `seed` by hashing.
fn make_generators(seed: &RistrettoPoint, n: usize) -> Vec<RistrettoPoint> {
    let mut generators = Vec::with_capacity(n);
    let mut last = *seed;
    for _ in 0..n {
        last = RistrettoPoint::hash_from_bytes::<Sha512>(last.compress().as_bytes());
        generators.push(last);
    }
    generators
}

struct Instance {
    q: Point,
    factors: Vec<Scalar>,
    g: Vec<Point>,
    h: Vec<Point>,
    a: Vec<Scalar>,
    b: Vec<Scalar>,
    p: Point,
    dalek_p: RistrettoPoint,
    dalek_g: Vec<RistrettoPoint>,
}

/// An instance of size `n` with witness drawn from `seed`, and its honest
/// commitment `P = <a, G> + <b', H> + <a, b> Q` with `b' = b o y^(-n)`,
/// computed by the group itself.
fn instance(n: usize, seed: u64) -> Instance {
    let mut rng = StdRng::seed_from_u64(seed);
    let g = make_generators(&hashed(b"hello"), n);
    let h = make_generators(&hashed(b"there"), n);
    let q = hashed(b"test point");
    let a: Vec<DalekScalar> = (0..n).map(|_| DalekScalar::random(&mut rng)).collect();
    let b: Vec<DalekScalar> = (0..n).map(|_| DalekScalar::random(&mut rng)).collect();
    let c: DalekScalar = a.iter().zip(b.iter()).map(|(x, y)| x * y).sum();
    let y_inv = DalekScalar::random(&mut rng);
    let factors = exp_powers(&scalar(&y_inv), n);
    let b_prime: Vec<DalekScalar> =
        b.iter().zip(factors.iter()).map(|(bi, yi)| bi * dalek(yi)).collect();
    let p = RistrettoPoint::vartime_multiscalar_mul(
        a.iter().chain(b_prime.iter()).chain(std::iter::once(&c)),
        g.iter().chain(h.iter()).chain(std::iter::once(&q)),
    );
    Instance {
        q: point(&q),
        factors,
        g: g.iter().map(point).collect(),
        h: h.iter().map(point).collect(),
        a: a.iter().map(scalar).collect(),
        b: b.iter().map(scalar).collect(),
        p: point(&p),
        dalek_p: p,
        dalek_g: g,
    }
}

fn prove(inst: &Instance, label: &[u8]) -> Proof {
    let mut transcript = Transcript::new(label);
    Proof::create(
        &mut transcript,
        &inst.q,
        &inst.factors,
        inst.g.clone(),
        inst.h.clone(),
        inst.a.clone(),
        inst.b.clone(),
    )
}

fn check(proof: &Proof, inst: &Instance, p: &Point, label: &[u8]) -> Result<(), ()> {
    let mut transcript = Transcript::new(label);
    proof.verify(&mut transcript, &inst.factors, p, &inst.q, &inst.g, &inst.h)
}

fn test_helper_create(n: usize) {
    let inst = instance(n, n as u64);
    let proof = prove(&inst, b"innerproducttest");
    assert!(check(&proof, &inst, &inst.p, b"innerproducttest").is_ok());
}

#[test]
fn make_ipp_1() {
    test_helper_create(1);
}

#[test]
fn make_ipp_2() {
    test_helper_create(2);
}

#[test]
fn make_ipp_4() {
    test_helper_create(4);
}

#[test]
fn make_ipp_32() {
    test_helper_create(32);
}

#[test]
fn make_ipp_64() {
    test_helper_create(64);
}

#[test]
fn honest_proofs_verify_for_every_power_of_two_up_to_16() {
    for lg_n in 0..5 {
        for seed in 0..2 {
            let inst = instance(1 << lg_n, 1000 + seed);
            let proof = prove(&inst, b"innerproducttest");
            assert_eq!(check(&proof, &inst, &inst.p, b"innerproducttest"), Ok(()));
        }
    }
}

#[test]
fn wrong_commitment_is_rejected() {
    for n in [1usize, 2, 4, 32, 64] {
        let inst = instance(n, n as u64);
        let proof = prove(&inst, b"innerproducttest");
        let wrong = point(&(inst.dalek_p + inst.dalek_g[0]));
        assert_eq!(check(&proof, &inst, &wrong, b"innerproducttest"), Err(()));
    }
}

#[test]
fn proof_has_one_pair_of_commitments_per_halving() {
    for (n, rounds) in [(1usize, 0usize), (2, 1), (4, 2), (8, 3), (32, 5), (64, 6)] {
        let proof = prove(&instance(n, 7), b"rounds");
        assert_eq!(proof.L_vec().len(), rounds);
        assert_eq!(proof.R_vec().len(), rounds);
    }
}

#[test]
fn single_element_needs_no_round() {
    let inst = instance(1, 99);
    let mut transcript = Transcript::new(b"one");
    let proof = Proof::create(
        &mut transcript,
        &inst.q,
        &inst.factors,
        inst.g.clone(),
        inst.h.clone(),
        inst.a.clone(),
        inst.b.clone(),
    );
    assert!(proof.L_vec().is_empty());
    assert!(proof.R_vec().is_empty());
    assert_eq!(proof.a(), inst.a[0]);
    assert_eq!(proof.b(), inst.b[0]);
    // nothing was absorbed and no challenge drawn
    assert_eq!(transcript.challenge_scalar(), Transcript::new(b"one").challenge_scalar());
}

#[test]
fn first_round_of_a_proof_of_size_two() {
    let inst = instance(2, 5);
    let proof = prove(&inst, b"two");
    let h_prime = rescale(&inst.h, &inst.factors);
    // L = a_0 G_1 + b_1 H'_0 + a_0 b_1 Q,  R = a_1 G_0 + b_0 H'_1 + a_1 b_0 Q
    let l = Point::multiscalar_mul(
        &vec![inst.a[0], inst.b[1], inst.a[0].mul(&inst.b[1])],
        &vec![inst.g[1], h_prime[0], inst.q],
    );
    let r = Point::multiscalar_mul(
        &vec![inst.a[1], inst.b[0], inst.a[1].mul(&inst.b[0])],
        &vec![inst.g[0], h_prime[1], inst.q],
    );
    assert_eq!(proof.L_vec(), &vec![l]);
    assert_eq!(proof.R_vec(), &vec![r]);
    let mut transcript = Transcript::new(b"two");
    transcript.commit(&l.to_bytes());
    transcript.commit(&r.to_bytes());
    let x = transcript.challenge_scalar();
    let x_inv = x.invert();
    assert_eq!(proof.a(), inst.a[0].mul(&x).add(&x_inv.mul(&inst.a[1])));
    assert_eq!(proof.b(), inst.b[0].mul(&x_inv).add(&x.mul(&inst.b[1])));
}

#[test]
fn prover_and_verifier_leave_the_transcript_in_one_state() {
    let inst = instance(16, 3);
    let mut prover = Transcript::new(b"shared");
    prover.commit(b"from the enclosing protocol");
    let proof = Proof::create(
        &mut prover,
        &inst.q,
        &inst.factors,
        inst.g.clone(),
        inst.h.clone(),
        inst.a.clone(),
        inst.b.clone(),
    );
    let mut verifier = Transcript::new(b"shared");
    verifier.commit(b"from the enclosing protocol");
    assert!(proof.verify(&mut verifier, &inst.factors, &inst.p, &inst.q, &inst.g, &inst.h).is_ok());
    assert_eq!(prover.challenge_scalar(), verifier.challenge_scalar());

    let mut replayed = Transcript::new(b"shared");
    replayed.commit(b"from the enclosing protocol");
    let challenges = proof.challenges(&mut replayed);
    assert_eq!(challenges.len(), 4);
    let mut by_hand = Transcript::new(b"shared");
    by_hand.commit(b"from the enclosing protocol");
    by_hand.commit(&proof.L_vec()[0].to_bytes());
    by_hand.commit(&proof.R_vec()[0].to_bytes());
    assert_eq!(challenges[0], by_hand.challenge_scalar());
}

#[test]
fn other_transcript_is_rejected() {
    let inst = instance(8, 11);
    let proof = prove(&inst, b"innerproducttest");
    assert_eq!(check(&proof, &inst, &inst.p, b"innerproducttest"), Ok(()));
    assert_eq!(check(&proof, &inst, &inst.p, b"innerproducttesu"), Err(()));
    let mut seeded = Transcript::new(b"innerproducttest");
    seeded.commit(b"x");
    assert_eq!(
        proof.verify(&mut seeded, &inst.factors, &inst.p, &inst.q, &inst.g, &inst.h),
        Err(())
    );
}

#[test]
fn corrupted_proof_is_rejected() {
    let inst = instance(8, 12);
    let proof = prove(&inst, b"corrupt");
    let other = point(&hashed(b"some other point"));
    let parts =
        |proof: &Proof| (proof.L_vec().clone(), proof.R_vec().clone(), proof.a(), proof.b());
    for j in 0..3 {
        let (mut l, r, a, b) = parts(&proof);
        l[j] = other;
        assert_eq!(check(&Proof::from_parts(l, r, a, b), &inst, &inst.p, b"corrupt"), Err(()));
        let (l, mut r, a, b) = parts(&proof);
        r[j] = other;
        assert_eq!(check(&Proof::from_parts(l, r, a, b), &inst, &inst.p, b"corrupt"), Err(()));
    }
    let (l, r, a, b) = parts(&proof);
    let tampered = Proof::from_parts(l.clone(), r.clone(), a.add(&small(1)), b);
    assert_eq!(check(&tampered, &inst, &inst.p, b"corrupt"), Err(()));
    let tampered = Proof::from_parts(l.clone(), r.clone(), a, b.add(&small(1)));
    assert_eq!(check(&tampered, &inst, &inst.p, b"corrupt"), Err(()));
    let same = Proof::from_parts(l, r, a, b);
    assert_eq!(check(&same, &inst, &inst.p, b"corrupt"), Ok(()));
}

#[test]
fn ill_shaped_input_is_rejected_and_leaves_the_transcript_alone() {
    let inst = instance(4, 13);
    let proof = prove(&inst, b"shape");
    let (l, r, a, b) = (proof.L_vec().clone(), proof.R_vec().clone(), proof.a(), proof.b());

    let short = Proof::from_parts(l.clone(), r[..1].to_vec(), a, b);
    let mut transcript = Transcript::new(b"shape");
    assert_eq!(
        short.verify(&mut transcript, &inst.factors, &inst.p, &inst.q, &inst.g, &inst.h),
        Err(())
    );
    assert_eq!(transcript.challenge_scalar(), Transcript::new(b"shape").challenge_scalar());

    let mut transcript = Transcript::new(b"shape");
    let fewer_g = inst.g[..2].to_vec();
    assert_eq!(
        proof.verify(&mut transcript, &inst.factors, &inst.p, &inst.q, &fewer_g, &inst.h),
        Err(())
    );
    let mut transcript = Transcript::new(b"shape");
    let more_h: Vec<Point> = inst.h.iter().chain(inst.h.iter()).cloned().collect();
    assert_eq!(
        proof.verify(&mut transcript, &inst.factors, &inst.p, &inst.q, &inst.g, &more_h),
        Err(())
    );
    let mut transcript = Transcript::new(b"shape");
    let fewer_factors = inst.factors[..3].to_vec();
    assert_eq!(
        proof.verify(&mut transcript, &fewer_factors, &inst.p, &inst.q, &inst.g, &inst.h),
        Err(())
    );
}

#[test]
fn rescale_multiplies_each_generator_by_its_factor() {
    let h = vec![point(&hashed(b"h0")), point(&hashed(b"h1"))];
    let got = rescale(&h, &vec![small(2), small(3)]);
    let expected = vec![
        point(&(hashed(b"h0") + hashed(b"h0"))),
        point(&(hashed(b"h1") + hashed(b"h1") + hashed(b"h1"))),
    ];
    assert_eq!(got, expected);
}

#[test]
fn cross_terms_commit_to_both_halves_and_their_inner_product() {
    let (g0, g1, h0, h1, q) =
        (hashed(b"g0"), hashed(b"g1"), hashed(b"h0"), hashed(b"h1"), hashed(b"q"));
    let got = commit_cross_terms(
        &vec![small(2), small(3)],
        &vec![small(5), small(7)],
        &vec![point(&g0), point(&g1)],
        &vec![point(&h0), point(&h1)],
        &point(&q),
    );
    let s = |x: u64| DalekScalar::from(x);
    // <s1, s2> = 2 * 5 + 3 * 7 = 31
    let expected = g0 * s(2) + g1 * s(3) + h0 * s(5) + h1 * s(7) + q * s(31);
    assert_eq!(got, point(&expected));
}

#[test]
fn folding_combines_the_halves() {
    let lo = vec![small(1), small(2)];
    let hi = vec![small(10), small(20)];
    assert_eq!(fold_scalars(&lo, &hi, &small(3), &small(5)), vec![small(53), small(106)]);
    assert_eq!(fold_scalars(&Vec::new(), &Vec::new(), &small(3), &small(5)), Vec::new());

    let (p0, p1, p2, p3) = (hashed(b"p0"), hashed(b"p1"), hashed(b"p2"), hashed(b"p3"));
    let got = fold_points(
        &vec![point(&p0), point(&p1)],
        &vec![point(&p2), point(&p3)],
        &small(3),
        &small(5),
    );
    let s = |x: u64| DalekScalar::from(x);
    assert_eq!(got, vec![point(&(p0 * s(3) + p2 * s(5))), point(&(p1 * s(3) + p3 * s(5)))]);
}

#[test]
fn checked_pow2_stops_where_the_word_ends() {
    assert_eq!(checked_pow2(0), Some(1));
    assert_eq!(checked_pow2(1), Some(2));
    assert_eq!(checked_pow2(5), Some(32));
    let bits = usize::BITS as usize;
    assert_eq!(checked_pow2(bits - 1), Some(1usize << (bits - 1)));
    assert_eq!(checked_pow2(bits), None);
    assert_eq!(checked_pow2(bits + 100), None);
}

#[test]
fn expansion_coefficients_select_squares_by_bits() {
    let allinv = small(1000);
    let sq = vec![small(2), small(3), small(5)];
    let s = expansion_coefficients(&allinv, &sq, 8);
    // the lowest bit selects the last square
    let expected: Vec<Scalar> =
        [1u64, 5, 3, 15, 2, 10, 6, 30].iter().map(|f| small(1000 * f)).collect();
    assert_eq!(s, expected);
    assert_eq!(expansion_coefficients(&allinv, &Vec::new(), 1), vec![allinv]);
    assert_eq!(expansion_coefficients(&allinv, &sq, 0), Vec::new());
}

/// The coefficient that each original generator has in the single generator
/// left after folding with the challenges `x`, by folding unit vectors.
fn folded_unit_vectors(x: &[Scalar]) -> Vec<Scalar> {
    let n = 1usize << x.len();
    let mut result = Vec::new();
    for i in 0..n {
        let mut v: Vec<Scalar> =
            (0..n).map(|k| if k == i { Scalar::one() } else { Scalar::zero() }).collect();
        for x_j in x {
            let half = v.len() / 2;
            v = fold_scalars(&v[..half].to_vec(), &v[half..].to_vec(), &x_j.invert(), x_j);
        }
        result.push(v[0]);
    }
    result
}

#[test]
fn expansion_coefficients_agree_with_repeated_folding() {
    for lg_n in 0..5usize {
        let x: Vec<Scalar> = (0..lg_n).map(|j| small(1_000_003 + 17 * j as u64)).collect();
        let mut inv = x.clone();
        let allinv = Scalar::batch_invert(&mut inv).unwrap();
        let sq: Vec<Scalar> = x.iter().map(|x_j| x_j.mul(x_j)).collect();
        let s = expansion_coefficients(&allinv, &sq, 1 << lg_n);
        assert_eq!(s, folded_unit_vectors(&x));
    }
}

#[test]
fn expansion_coefficients_of_complementary_indices_are_inverse() {
    let x: Vec<Scalar> = (0..4).map(|j| small(77 + 1000 * j)).collect();
    let mut inv = x.clone();
    let allinv = Scalar::batch_invert(&mut inv).unwrap();
    let sq: Vec<Scalar> = x.iter().map(|x_j| x_j.mul(x_j)).collect();
    let s = expansion_coefficients(&allinv, &sq, 16);
    for i in 0..16 {
        assert_eq!(s[i].mul(&s[15 - i]), Scalar::one());
        assert_eq!(s[15 - i], s[i].invert());
    }
}

#[test]
fn verification_equation_from_its_parts() {
    // The verdict is the comparison of one linear combination with P.
    let inst = instance(4, 21);
    let proof = prove(&inst, b"parts");
    let mut transcript = Transcript::new(b"parts");
    let x = proof.challenges(&mut transcript);
    let mut x_inv = x.clone();
    let allinv = Scalar::batch_invert(&mut x_inv).unwrap();
    let sq: Vec<Scalar> = x.iter().map(|x_j| x_j.mul(x_j)).collect();
    let s = expansion_coefficients(&allinv, &sq, 4);
    let (a, b) = (proof.a(), proof.b());
    let mut scalars = vec![a.mul(&b)];
    let mut points = vec![inst.q];
    for i in 0..4 {
        scalars.push(a.mul(&s[i]));
        points.push(inst.g[i]);
    }
    for i in 0..4 {
        scalars.push(b.mul(&s[3 - i]).mul(&inst.factors[i]));
        points.push(inst.h[i]);
    }
    for j in 0..2 {
        scalars.push(sq[j].neg());
        points.push(proof.L_vec()[j]);
    }
    for j in 0..2 {
        scalars.push(x_inv[j].mul(&x_inv[j]).neg());
        points.push(proof.R_vec()[j]);
    }
    let expect_p = Point::multiscalar_mul(&scalars, &points);
    assert_eq!(expect_p, inst.p);
    assert_eq!(check(&proof, &inst, &expect_p, b"parts"), Ok(()));
}

#[test]
fn powers_of_two_are_recognised() {
    for n in [1usize, 2, 4, 8, 1024, 1 << 20, 1 << (usize::BITS - 1)] {
        assert!(power_of_two(n));
    }
    for n in [0usize, 3, 5, 6, 7, 12, 1023, 1025, usize::MAX] {
        assert!(!power_of_two(n));
    }
}

#[test]
fn try_create_gives_the_proof_that_create_gives() {
    let inst = instance(8, 31);
    let mut transcript = Transcript::new(b"try");
    let tried = Proof::try_create(
        &mut transcript,
        &inst.q,
        &inst.factors,
        inst.g.clone(),
        inst.h.clone(),
        inst.a.clone(),
        inst.b.clone(),
    )
    .unwrap();
    let proof = prove(&inst, b"try");
    assert_eq!(tried.L_vec(), proof.L_vec());
    assert_eq!(tried.R_vec(), proof.R_vec());
    assert_eq!(tried.a(), proof.a());
    assert_eq!(tried.b(), proof.b());
    assert_eq!(check(&tried, &inst, &inst.p, b"try"), Ok(()));
}

#[test]
fn try_create_refuses_ill_formed_input_and_leaves_the_transcript_alone() {
    let inst = instance(4, 32);
    let attempt = |factors: &Vec<Scalar>, g: &[Point], h: &[Point], a: &[Scalar], b: &[Scalar]| {
        let mut transcript = Transcript::new(b"refuse");
        let proof = Proof::try_create(
            &mut transcript,
            &inst.q,
            factors,
            g.to_vec(),
            h.to_vec(),
            a.to_vec(),
            b.to_vec(),
        );
        let untouched =
            transcript.challenge_scalar() == Transcript::new(b"refuse").challenge_scalar();
        (proof.is_some(), untouched)
    };
    assert_eq!(attempt(&inst.factors, &inst.g, &inst.h, &inst.a, &inst.b), (true, false));
    // a length that is no power of two
    let three = inst.factors[..3].to_vec();
    assert_eq!(
        attempt(&three, &inst.g[..3], &inst.h[..3], &inst.a[..3], &inst.b[..3]),
        (false, true)
    );
    // no elements at all
    assert_eq!(attempt(&Vec::new(), &[], &[], &[], &[]), (false, true));
    // one vector shorter than the others
    assert_eq!(attempt(&inst.factors, &inst.g[..2], &inst.h, &inst.a, &inst.b), (false, true));
    assert_eq!(attempt(&inst.factors, &inst.g, &inst.h[..2], &inst.a, &inst.b), (false, true));
    assert_eq!(attempt(&inst.factors, &inst.g, &inst.h, &inst.a[..2], &inst.b), (false, true));
    assert_eq!(attempt(&inst.factors, &inst.g, &inst.h, &inst.a, &inst.b[..2]), (false, true));
    let two = inst.factors[..2].to_vec();
    assert_eq!(attempt(&two, &inst.g, &inst.h, &inst.a, &inst.b), (false, true));
}

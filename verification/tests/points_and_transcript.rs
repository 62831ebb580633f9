use curve25519_dalek::constants::RISTRETTO_BASEPOINT_POINT;
use curve25519_dalek::ristretto::RistrettoPoint;
use curve25519_dalek::scalar::Scalar as DalekScalar;
use curve25519_dalek::traits::Identity;
use curve25519_dalek::traits::VartimeMultiscalarMul;
use inner_product_proof::point::Point;
use inner_product_proof::scalar::Scalar;
use inner_product_proof::transcript::Transcript;
use sha2::Digest;
use sha2::Sha512;

fn small(x: u64) -> Scalar {
    let mut bytes = [0u8; 32];
    bytes[..8].copy_from_slice(&x.to_le_bytes());
    Scalar::from_bytes_mod_order(bytes)
}

fn point(p: &RistrettoPoint) -> Point {
    Point::from_bytes(p.compress().to_bytes()).unwrap()
}

fn hashed(label: &[u8]) -> RistrettoPoint {
    RistrettoPoint::hash_from_bytes::<Sha512>(label)
}

#[test]
fn point_from_valid_encoding_keeps_the_bytes() {
    let encoding = RISTRETTO_BASEPOINT_POINT.compress().to_bytes();
    let p = Point::from_bytes(encoding).unwrap();
    assert_eq!(p.to_bytes(), encoding);
    let identity = Point::from_bytes([0u8; 32]).unwrap();
    assert_eq!(identity.to_bytes(), RistrettoPoint::identity().compress().to_bytes());
}

#[test]
fn point_from_invalid_encoding_is_refused() {
    assert!(Point::from_bytes([0xff; 32]).is_none());
    // a negative field element
    let mut negative = [0u8; 32];
    negative[0] = 1;
    assert!(Point::from_bytes(negative).is_none());
}

#[test]
fn points_compare_by_group_element() {
    let b = point(&RISTRETTO_BASEPOINT_POINT);
    let b_again = point(&(RISTRETTO_BASEPOINT_POINT + RistrettoPoint::identity()));
    let two_b = point(&(RISTRETTO_BASEPOINT_POINT + RISTRETTO_BASEPOINT_POINT));
    assert!(b.equals(&b_again));
    assert!(!b.equals(&two_b));
    assert!(!two_b.equals(&b));
}

#[test]
fn scalar_multiple_of_a_point() {
    let b = point(&RISTRETTO_BASEPOINT_POINT);
    let three_b = RISTRETTO_BASEPOINT_POINT + RISTRETTO_BASEPOINT_POINT + RISTRETTO_BASEPOINT_POINT;
    assert_eq!(b.mul(&small(3)), point(&three_b));
    assert_eq!(b.mul(&small(1)), b);
    assert_eq!(b.mul(&small(0)), point(&RistrettoPoint::identity()));
    assert_ne!(b.mul(&small(3)), b);
}

#[test]
fn multiscalar_mul_is_the_linear_combination() {
    let p = hashed(b"first");
    let q = hashed(b"second");
    let r = hashed(b"third");
    let expected = p * DalekScalar::from(2u64) + q * DalekScalar::from(3u64)
        + r * DalekScalar::from(5u64);
    let got = Point::multiscalar_mul(
        &vec![small(2), small(3), small(5)],
        &vec![point(&p), point(&q), point(&r)],
    );
    assert_eq!(got, point(&expected));
    assert_ne!(got, point(&p));
}

#[test]
fn multiscalar_mul_of_nothing_is_the_identity() {
    let got = Point::multiscalar_mul(&Vec::new(), &Vec::new());
    assert_eq!(got.to_bytes(), [0u8; 32]);
}

#[test]
fn multiscalar_mul_agrees_with_the_group_on_many_terms() {
    let n = 200;
    let mut scalars = Vec::new();
    let mut dalek_scalars = Vec::new();
    let mut points = Vec::new();
    let mut dalek_points = Vec::new();
    for i in 0..n {
        let s = DalekScalar::hash_from_bytes::<Sha512>(&[i as u8, 1]);
        let p = hashed(&[i as u8, 2]);
        scalars.push(Scalar::from_bytes_mod_order(s.to_bytes()));
        points.push(point(&p));
        dalek_scalars.push(s);
        dalek_points.push(p);
    }
    let expected = RistrettoPoint::vartime_multiscalar_mul(&dalek_scalars, &dalek_points);
    assert_eq!(Point::multiscalar_mul(&scalars, &points), point(&expected));
}

fn framed(parts: &[&[u8]]) -> Vec<u8> {
    let mut out = Vec::new();
    for part in parts {
        out.extend_from_slice(&(part.len() as u64).to_le_bytes());
        out.extend_from_slice(part);
    }
    out
}

fn wide(digest: &[u8]) -> Scalar {
    let mut bytes = [0u8; 64];
    bytes.copy_from_slice(digest);
    Scalar::from_bytes_mod_order_wide(&bytes)
}

#[test]
fn challenge_is_the_reduced_digest_of_the_framed_messages() {
    let mut t = Transcript::new(b"label");
    t.commit(b"first message");
    t.commit(b"");
    t.commit(&[7u8; 300]);
    let state = framed(&[b"label", b"first message", b"", &[7u8; 300]]);
    let digest = Sha512::digest(&state);
    assert_eq!(t.challenge_scalar(), wide(&digest));
}

#[test]
fn second_challenge_hashes_the_state_left_by_the_first() {
    let mut t = Transcript::new(b"label");
    let first = t.challenge_scalar();
    let second = t.challenge_scalar();
    let digest = Sha512::digest(framed(&[b"label"]));
    assert_eq!(first, wide(&digest));
    assert_eq!(second, wide(&Sha512::digest(digest)));
    assert_ne!(first, second);
}

#[test]
fn commits_after_a_challenge_are_framed_behind_the_digest() {
    let mut t = Transcript::new(b"label");
    let _ = t.challenge_scalar();
    t.commit(b"more");
    let mut state = Sha512::digest(framed(&[b"label"])).to_vec();
    state.extend_from_slice(&framed(&[b"more"]));
    assert_eq!(t.challenge_scalar(), wide(&Sha512::digest(&state)));
}

#[test]
fn challenges_depend_on_label_message_and_order() {
    let challenge = |label: &[u8], messages: &[&[u8]]| {
        let mut t = Transcript::new(label);
        for m in messages {
            t.commit(m);
        }
        t.challenge_scalar()
    };
    let base = challenge(b"label", &[b"a", b"b"]);
    assert_eq!(base, challenge(b"label", &[b"a", b"b"]));
    assert_ne!(base, challenge(b"lobel", &[b"a", b"b"]));
    assert_ne!(base, challenge(b"label", &[b"b", b"a"]));
    assert_ne!(base, challenge(b"label", &[b"ab"]));
    assert_ne!(base, challenge(b"label", &[b"a", b"b", b""]));
    assert_ne!(base, challenge(b"label", &[b"a", b"c"]));
}

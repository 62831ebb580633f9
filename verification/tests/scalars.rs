use curve25519_dalek::scalar::Scalar as DalekScalar;
use inner_product_proof::scalar::exp_powers;
use inner_product_proof::scalar::inner_product;
use inner_product_proof::scalar::Scalar;

fn small(x: u64) -> Scalar {
    let mut bytes = [0u8; 32];
    bytes[..8].copy_from_slice(&x.to_le_bytes());
    Scalar::from_bytes_mod_order(bytes)
}

/// The little-endian encoding of the group order.
const ORDER: [u8; 32] = [
    0xed, 0xd3, 0xf5, 0x5c, 0x1a, 0x63, 0x12, 0x58, 0xd6, 0x9c, 0xf7, 0xa2, 0xde, 0xf9, 0xde, 0x14,
    0x00, 0x00, 0x00, 0x00, 0x00, 0x00, 0x00, 0x00, 0x00, 0x00, 0x00, 0x00, 0x00, 0x00, 0x00, 0x10,
];

#[test]
fn zero_and_one_have_their_encodings() {
    assert_eq!(Scalar::zero().to_bytes(), [0u8; 32]);
    let mut one = [0u8; 32];
    one[0] = 1;
    assert_eq!(Scalar::one().to_bytes(), one);
    assert!(Scalar::zero().is_zero());
    assert!(!Scalar::one().is_zero());
    assert!(!small(256).is_zero());
}

#[test]
fn from_bytes_reduces_modulo_the_group_order() {
    assert_eq!(Scalar::from_bytes_mod_order(ORDER), Scalar::zero());
    let mut order_plus_five = ORDER;
    order_plus_five[0] += 5;
    assert_eq!(Scalar::from_bytes_mod_order(order_plus_five), small(5));
    assert_eq!(
        Scalar::from_bytes_mod_order([0xff; 32]).to_bytes(),
        DalekScalar::from_bytes_mod_order([0xff; 32]).to_bytes()
    );
}

#[test]
fn wide_reduction_agrees_with_narrow_on_small_values() {
    let mut wide = [0u8; 64];
    wide[0] = 7;
    assert_eq!(Scalar::from_bytes_mod_order_wide(&wide), small(7));
    // 2^256 mod l
    let mut two_256 = [0u8; 64];
    two_256[32] = 1;
    let expected = DalekScalar::from_bytes_mod_order_wide(&two_256).to_bytes();
    assert_eq!(Scalar::from_bytes_mod_order_wide(&two_256).to_bytes(), expected);
    assert!(!Scalar::from_bytes_mod_order_wide(&two_256).is_zero());
}

#[test]
fn to_bytes_is_canonical() {
    let x = Scalar::from_bytes_mod_order([0xff; 32]);
    assert_eq!(Scalar::from_bytes_mod_order(x.to_bytes()), x);
    assert!(x.to_bytes()[31] < 0x11);
}

#[test]
fn field_arithmetic_on_small_values() {
    assert_eq!(small(3).mul(&small(5)), small(15));
    assert_eq!(small(3).add(&small(5)), small(8));
    assert_eq!(small(0).neg(), small(0));
    assert_eq!(small(7).add(&small(7).neg()), Scalar::zero());
    assert_eq!(small(1_000_000_007).mul(&small(998_244_353)), small(998_244_359_987_710_471));
}

#[test]
fn arithmetic_wraps_at_the_group_order() {
    let mut order_minus_one = ORDER;
    order_minus_one[0] -= 1;
    let minus_one = Scalar::from_bytes_mod_order(order_minus_one);
    assert_eq!(small(1).neg(), minus_one);
    assert_eq!(minus_one.to_bytes(), order_minus_one);
    assert_eq!(minus_one.add(&small(1)), Scalar::zero());
    assert_eq!(minus_one.add(&small(3)), small(2));
    assert_eq!(minus_one.mul(&minus_one), small(1));
    assert_eq!(minus_one.mul(&small(2)).add(&small(2)), Scalar::zero());
}

#[test]
fn inverse_of_a_known_value() {
    // The pair that the scalar field's documentation gives.
    let x = Scalar::from_bytes_mod_order([
        0x4e, 0x5a, 0xb4, 0x34, 0x5d, 0x47, 0x08, 0x84, 0x59, 0x13, 0xb4, 0x64, 0x1b, 0xc2, 0x7d,
        0x52, 0x52, 0xa5, 0x85, 0x10, 0x1b, 0xcc, 0x42, 0x44, 0xd4, 0x49, 0xf4, 0xa8, 0x79, 0xd9,
        0xf2, 0x04,
    ]);
    let x_inv = Scalar::from_bytes_mod_order([
        0x1c, 0xdc, 0x17, 0xfc, 0xe0, 0xe9, 0xa5, 0xbb, 0xd9, 0x24, 0x7e, 0x56, 0xbb, 0x01, 0x63,
        0x47, 0xbb, 0xba, 0x31, 0xed, 0xd5, 0xa9, 0xbb, 0x96, 0xd5, 0x0b, 0xcd, 0x7a, 0x3f, 0x96,
        0x2a, 0x0f,
    ]);
    assert_eq!(x.invert(), x_inv);
    assert_eq!(x.invert().mul(&x), Scalar::one());
}

#[test]
fn inverse_of_small_values() {
    assert_eq!(Scalar::one().invert(), Scalar::one());
    assert_eq!(small(2).invert().mul(&small(2)), Scalar::one());
    assert_ne!(small(2).invert(), small(2));
    assert_eq!(small(1).neg().invert(), small(1).neg());
}

#[test]
fn inverse_of_zero_is_zero() {
    assert_eq!(Scalar::zero().invert(), Scalar::zero());
    assert_eq!(Scalar::from_bytes_mod_order(ORDER).invert(), Scalar::zero());
}

#[test]
fn batch_invert_inverts_each_and_returns_the_product() {
    let mut v = vec![small(3), small(5), small(7), small(11)];
    let allinv = Scalar::batch_invert(&mut v).unwrap();
    assert_eq!(allinv, small(3 * 5 * 7 * 11).invert());
    assert_eq!(
        v,
        vec![small(3).invert(), small(5).invert(), small(7).invert(), small(11).invert()]
    );
    assert_eq!(allinv, v[0].mul(&v[1]).mul(&v[2]).mul(&v[3]));
    assert_eq!(allinv.mul(&small(1155)), Scalar::one());
}

#[test]
fn batch_invert_of_nothing_is_one() {
    let mut v: Vec<Scalar> = Vec::new();
    assert_eq!(Scalar::batch_invert(&mut v), Some(Scalar::one()));
    assert!(v.is_empty());
}

#[test]
fn batch_invert_refuses_zero_and_changes_nothing() {
    let mut v = vec![small(3), Scalar::zero(), small(7)];
    assert_eq!(Scalar::batch_invert(&mut v), None);
    assert_eq!(v, vec![small(3), Scalar::zero(), small(7)]);
    let mut last = vec![small(3), small(7), Scalar::zero()];
    assert_eq!(Scalar::batch_invert(&mut last), None);
    assert_eq!(last, vec![small(3), small(7), Scalar::zero()]);
}

#[test]
fn inner_product_of_small_vectors() {
    let a = vec![small(1), small(2), small(3)];
    let b = vec![small(4), small(5), small(6)];
    assert_eq!(inner_product(&a, &b), small(32));
    assert_eq!(inner_product(&Vec::new(), &Vec::new()), Scalar::zero());
    assert_eq!(inner_product(&vec![small(9)], &vec![small(9)]), small(81));
}

#[test]
fn inner_product_wraps_at_the_group_order() {
    let minus_one = small(1).neg();
    let a = vec![minus_one, small(2)];
    let b = vec![small(2), small(1)];
    assert_eq!(inner_product(&a, &b), Scalar::zero());
}

#[test]
fn powers_start_at_one() {
    assert_eq!(
        exp_powers(&small(2), 5),
        vec![small(1), small(2), small(4), small(8), small(16)]
    );
    assert_eq!(exp_powers(&small(3), 0), Vec::new());
    assert_eq!(exp_powers(&small(3), 1), vec![small(1)]);
    assert_eq!(exp_powers(&Scalar::zero(), 3), vec![small(1), small(0), small(0)]);
}

#[test]
fn powers_of_an_inverse_undo_powers() {
    let y = small(12345);
    let up = exp_powers(&y, 8);
    let down = exp_powers(&y.invert(), 8);
    for i in 0..8 {
        assert_eq!(up[i].mul(&down[i]), Scalar::one());
    }
}

//! Scalars modulo the order of the Ristretto group.
//!
//! A [`Scalar`] holds the canonical little-endian encoding of an integer in
//! `0 .. group_order()`. Its view is that integer, and every operation is
//! specified as ordinary arithmetic modulo the group order.
use vstd::prelude::*;

verus! {

/// The order of the Ristretto group: `2^252 + 27742317777372353535851937790883648493`.
pub open spec fn group_order() -> nat {
    7237005577332262213973186563042994240857116359379907606001950938285454250989nat
}

/// The integer that a little-endian byte string encodes.
pub open spec fn le_value(bytes: Seq<u8>) -> nat
    decreases bytes.len(),
{
    if bytes.len() == 0 {
        0
    } else {
        bytes[0] as nat + 256 * le_value(bytes.subrange(1, bytes.len() as int))
    }
}

/// Product in the scalar field.
pub open spec fn mul_mod(a: nat, b: nat) -> nat {
    (a * b) % group_order()
}

/// Sum in the scalar field.
pub open spec fn add_mod(a: nat, b: nat) -> nat {
    (a + b) % group_order()
}

/// Additive inverse in the scalar field.
pub open spec fn neg_mod(a: nat) -> nat {
    ((group_order() - a % group_order()) % (group_order() as int)) as nat
}

/// `r` is the canonical multiplicative inverse of `x`.
pub open spec fn is_inverse(x: nat, r: nat) -> bool {
    r < group_order() && (x * r) % group_order() == 1
}

/// The multiplicative inverse of `x` in the scalar field, and `0` where `x`
/// has none.
pub open spec fn inverse_mod(x: nat) -> nat {
    if exists|r: nat| is_inverse(x, r) {
        choose|r: nat| is_inverse(x, r)
    } else {
        0
    }
}

/// Whether every entry of `x` has an inverse in the scalar field.
pub open spec fn all_invertible(x: Seq<nat>) -> bool {
    forall|j: int| 0 <= j < x.len() ==> is_inverse(#[trigger] x[j], inverse_mod(x[j]))
}

/// An element of the scalar field, stored as its canonical encoding.
#[derive(Clone, Copy, Debug, PartialEq, Eq)]
pub struct Scalar {
    bytes: [u8; 32],
}

impl View for Scalar {
    type V = nat;

    closed spec fn view(&self) -> nat {
        le_value(self.bytes@)
    }
}

/// The values of a vector of scalars.
pub open spec fn scalar_values(v: Seq<Scalar>) -> Seq<nat> {
    Seq::new(v.len(), |i: int| v[i]@)
}

/// The product of all entries of `s` in the scalar field.
pub open spec fn product_mod(s: Seq<nat>) -> nat
    decreases s.len(),
{
    if s.len() == 0 {
        1
    } else {
        mul_mod(product_mod(s.drop_last()), s.last())
    }
}

/// The inner product `sum a[i] * b[i]` in the scalar field.
pub open spec fn inner_product_mod(a: Seq<nat>, b: Seq<nat>) -> nat
    decreases a.len(),
{
    if a.len() == 0 || b.len() == 0 {
        0
    } else {
        add_mod(inner_product_mod(a.drop_last(), b.drop_last()), mul_mod(a.last(), b.last()))
    }
}

/// `x` raised to the power `e` in the scalar field.
pub open spec fn pow_mod(x: nat, e: nat) -> nat
    decreases e,
{
    if e == 0 {
        1
    } else {
        mul_mod(pow_mod(x, (e - 1) as nat), x)
    }
}

/// A byte string encodes zero exactly when all of its bytes are zero.
pub proof fn lemma_le_value_zero(bytes: Seq<u8>)
    ensures
        le_value(bytes) == 0 <==> forall|i: int| 0 <= i < bytes.len() ==> bytes[i] == 0,
    decreases bytes.len(),
{
    if bytes.len() > 0 {
        let rest = bytes.subrange(1, bytes.len() as int);
        lemma_le_value_zero(rest);
        if le_value(bytes) == 0 {
            assert forall|i: int| 0 <= i < bytes.len() implies bytes[i] == 0 by {
                if i > 0 {
                    assert(rest[i - 1] == bytes[i]);
                }
            }
        }
        if forall|i: int| 0 <= i < bytes.len() ==> bytes[i] == 0 {
            assert forall|i: int| 0 <= i < rest.len() implies rest[i] == 0 by {
                assert(rest[i] == bytes[i + 1]);
            }
        }
    }
}

/// Zero has no inverse, so `inverse_mod` maps it to zero.
pub proof fn lemma_inverse_of_zero(x: nat)
    requires
        x % group_order() == 0,
    ensures
        inverse_mod(x) == 0,
        forall|r: nat| !is_inverse(x, r),
{
    assert forall|r: nat| !is_inverse(x, r) by {
        vstd::arithmetic::div_mod::lemma_mul_mod_noop_left(
            x as int,
            r as int,
            group_order() as int,
        );
        assert((0 * (r as int)) % (group_order() as int) == 0);
    }
}

/// Inverses are unique: whatever satisfies `is_inverse` is `inverse_mod`.
pub proof fn lemma_inverse_unique(x: nat, r: nat)
    requires
        is_inverse(x, r),
    ensures
        inverse_mod(x) == r,
{
    let m = group_order() as int;
    let s = inverse_mod(x);
    assert(is_inverse(x, s));
    // r == r * (x * s) == (r * x) * s == s   (mod m)
    let xr = (x * r) as int;
    let xs = (x * s) as int;
    assert((r * xs) % m == r as int) by {
        vstd::arithmetic::div_mod::lemma_mul_mod_noop_right(r as int, xs, m);
        vstd::arithmetic::div_mod::lemma_small_mod(r, group_order());
        assert(r * 1 == r);
    }
    assert((s * xr) % m == s as int) by {
        vstd::arithmetic::div_mod::lemma_mul_mod_noop_right(s as int, xr, m);
        vstd::arithmetic::div_mod::lemma_small_mod(s, group_order());
        assert(s * 1 == s);
    }
    assert(r * xs == s * xr) by (nonlinear_arith)
        requires
            xs == x * s,
            xr == x * r,
    ;
}

/// Reduces a 256-bit little-endian integer with
/// `curve25519_dalek::scalar::Scalar::from_bytes_mod_order` and returns
/// `to_bytes` of it: the canonical encoding of the integer modulo the group
/// order.
#[verifier::external_body]
fn reduce_bytes(a: &[u8; 32]) -> (r: [u8; 32])
    ensures
        le_value(r@) == le_value(a@) % group_order(),
{
    curve25519_dalek::scalar::Scalar::from_bytes_mod_order(*a).to_bytes()
}

/// Reduces a 512-bit little-endian integer with
/// `curve25519_dalek::scalar::Scalar::from_bytes_mod_order_wide` and returns
/// `to_bytes` of it: the canonical encoding of the integer modulo the group
/// order.
#[verifier::external_body]
fn reduce_wide_bytes(a: &[u8; 64]) -> (r: [u8; 32])
    ensures
        le_value(r@) == le_value(a@) % group_order(),
{
    curve25519_dalek::scalar::Scalar::from_bytes_mod_order_wide(a).to_bytes()
}

/// Multiplies two scalars given by their encodings, with
/// `curve25519_dalek::scalar::Scalar`'s `*` on the values that
/// `from_bytes_mod_order` reads, and returns `to_bytes` of the product: the
/// canonical encoding of the product modulo the group order.
#[verifier::external_body]
fn mul_bytes(a: &[u8; 32], b: &[u8; 32]) -> (r: [u8; 32])
    ensures
        le_value(r@) == (le_value(a@) * le_value(b@)) % group_order(),
{
    let x = curve25519_dalek::scalar::Scalar::from_bytes_mod_order(*a);
    let y = curve25519_dalek::scalar::Scalar::from_bytes_mod_order(*b);
    (x * y).to_bytes()
}

/// Adds two scalars given by their encodings, with
/// `curve25519_dalek::scalar::Scalar`'s `+` on the values that
/// `from_bytes_mod_order` reads, and returns `to_bytes` of the sum: the
/// canonical encoding of the sum modulo the group order.
#[verifier::external_body]
fn add_bytes(a: &[u8; 32], b: &[u8; 32]) -> (r: [u8; 32])
    ensures
        le_value(r@) == (le_value(a@) + le_value(b@)) % group_order(),
{
    let x = curve25519_dalek::scalar::Scalar::from_bytes_mod_order(*a);
    let y = curve25519_dalek::scalar::Scalar::from_bytes_mod_order(*b);
    (x + y).to_bytes()
}

/// Negates a scalar given by its encoding, with
/// `curve25519_dalek::scalar::Scalar`'s unary `-` on the value that
/// `from_bytes_mod_order` reads, and returns `to_bytes` of the result: the
/// canonical encoding of the group order minus the reduced value, and of zero
/// for zero.
#[verifier::external_body]
fn neg_bytes(a: &[u8; 32]) -> (r: [u8; 32])
    ensures
        le_value(r@) == neg_mod(le_value(a@)),
{
    (-curve25519_dalek::scalar::Scalar::from_bytes_mod_order(*a)).to_bytes()
}

/// Inverts a nonzero scalar given by its encoding, with
/// `curve25519_dalek::scalar::Scalar::invert`, and returns `to_bytes` of the
/// result: the canonical encoding of the multiplicative inverse. The outside
/// function is documented for nonzero scalars only, so zero is left out.
#[verifier::external_body]
fn invert_bytes(a: &[u8; 32]) -> (r: [u8; 32])
    requires
        le_value(a@) % group_order() != 0,
    ensures
        is_inverse(le_value(a@), le_value(r@)),
{
    curve25519_dalek::scalar::Scalar::from_bytes_mod_order(*a).invert().to_bytes()
}

/// Inverts every scalar of `v` in place with
/// `curve25519_dalek::scalar::Scalar::batch_invert`, which replaces each
/// element by its inverse and returns the product of all the inverses. The
/// outside function is documented for nonzero scalars only (and asserts it in
/// debug builds), so zero entries are left out.
#[verifier::external_body]
fn batch_invert_nonzero(v: &mut Vec<Scalar>) -> (allinv: Scalar)
    requires
        forall|i: int| 0 <= i < old(v).len() ==> old(v)[i]@ % group_order() != 0,
    ensures
        final(v).len() == old(v).len(),
        forall|i: int|
            0 <= i < old(v).len() ==> is_inverse(old(v)[i]@, #[trigger] final(v)[i]@),
        allinv@ == product_mod(scalar_values(final(v)@)),
{
    let mut xs: Vec<curve25519_dalek::scalar::Scalar> = v.iter().map(
        |s| curve25519_dalek::scalar::Scalar::from_bytes_mod_order(s.bytes),
    ).collect();
    let allinv = curve25519_dalek::scalar::Scalar::batch_invert(&mut xs);
    *v = xs.iter().map(|s| Scalar { bytes: s.to_bytes() }).collect();
    Scalar { bytes: allinv.to_bytes() }
}

impl Scalar {
    #[verifier::type_invariant]
    spec fn canonical(self) -> bool {
        le_value(self.bytes@) < group_order()
    }

    /// The scalar that a 256-bit little-endian integer reduces to.
    pub fn from_bytes_mod_order(bytes: [u8; 32]) -> (r: Scalar)
        ensures
            r@ == le_value(bytes@) % group_order(),
    {
        let reduced = reduce_bytes(&bytes);
        proof {
            vstd::arithmetic::div_mod::lemma_mod_bound(
                le_value(bytes@) as int,
                group_order() as int,
            );
        }
        Scalar { bytes: reduced }
    }

    /// The scalar that a 512-bit little-endian integer reduces to.
    pub fn from_bytes_mod_order_wide(bytes: &[u8; 64]) -> (r: Scalar)
        ensures
            r@ == le_value(bytes@) % group_order(),
    {
        let reduced = reduce_wide_bytes(bytes);
        proof {
            vstd::arithmetic::div_mod::lemma_mod_bound(
                le_value(bytes@) as int,
                group_order() as int,
            );
        }
        Scalar { bytes: reduced }
    }

    /// The canonical little-endian encoding of this scalar.
    pub fn to_bytes(&self) -> (r: [u8; 32])
        ensures
            le_value(r@) == self@,
            self@ < group_order(),
    {
        proof {
            use_type_invariant(self);
        }
        self.bytes
    }

    /// The scalar `0`.
    pub fn zero() -> (r: Scalar)
        ensures
            r@ == 0,
    {
        let bytes = [0u8; 32];
        proof {
            lemma_le_value_zero(bytes@);
        }
        Scalar { bytes }
    }

    /// The scalar `1`.
    pub fn one() -> (r: Scalar)
        ensures
            r@ == 1,
    {
        let mut bytes = [0u8; 32];
        bytes[0] = 1u8;
        proof {
            let rest = bytes@.subrange(1, 32);
            lemma_le_value_zero(rest);
        }
        Scalar { bytes }
    }

    /// Whether this scalar is `0`.
    pub fn is_zero(&self) -> (r: bool)
        ensures
            r == (self@ == 0),
    {
        let mut i: usize = 0;
        while i < 32
            invariant
                i <= 32,
                forall|k: int| 0 <= k < i ==> self.bytes@[k] == 0,
            decreases 32 - i,
        {
            if self.bytes[i] != 0 {
                proof {
                    lemma_le_value_zero(self.bytes@);
                }
                return false;
            }
            i += 1;
        }
        proof {
            lemma_le_value_zero(self.bytes@);
        }
        true
    }

    /// The product `self * rhs` in the scalar field.
    pub fn mul(&self, rhs: &Scalar) -> (r: Scalar)
        ensures
            r@ == mul_mod(self@, rhs@),
            r@ < group_order(),
    {
        let bytes = mul_bytes(&self.bytes, &rhs.bytes);
        proof {
            vstd::arithmetic::div_mod::lemma_mod_bound(
                (self@ * rhs@) as int,
                group_order() as int,
            );
        }
        Scalar { bytes }
    }

    /// The sum `self + rhs` in the scalar field.
    pub fn add(&self, rhs: &Scalar) -> (r: Scalar)
        ensures
            r@ == add_mod(self@, rhs@),
            r@ < group_order(),
    {
        let bytes = add_bytes(&self.bytes, &rhs.bytes);
        proof {
            vstd::arithmetic::div_mod::lemma_mod_bound(
                (self@ + rhs@) as int,
                group_order() as int,
            );
        }
        Scalar { bytes }
    }

    /// The additive inverse `-self` in the scalar field.
    pub fn neg(&self) -> (r: Scalar)
        ensures
            r@ == neg_mod(self@),
            r@ < group_order(),
    {
        let bytes = neg_bytes(&self.bytes);
        proof {
            vstd::arithmetic::div_mod::lemma_mod_bound(
                group_order() - self@ % group_order(),
                group_order() as int,
            );
        }
        Scalar { bytes }
    }

    /// The multiplicative inverse of `self`, and `0` for `0`.
    pub fn invert(&self) -> (r: Scalar)
        ensures
            r@ == inverse_mod(self@),
            r@ < group_order(),
            self@ != 0 ==> is_inverse(self@, r@),
    {
        proof {
            use_type_invariant(self);
            vstd::arithmetic::div_mod::lemma_small_mod(self@, group_order());
        }
        if self.is_zero() {
            proof {
                lemma_inverse_of_zero(self@);
            }
            Scalar::zero()
        } else {
            let bytes = invert_bytes(&self.bytes);
            proof {
                lemma_inverse_unique(self@, le_value(bytes@));
            }
            Scalar { bytes }
        }
    }

    /// Inverts every entry of `v` in place and returns the product of all
    /// the inverses, at the cost of a single field inversion. Where an entry
    /// is `0` nothing is inverted: `v` is left as it was and `None` comes
    /// back.
    pub fn batch_invert(v: &mut Vec<Scalar>) -> (r: Option<Scalar>)
        ensures
            r.is_none() <==> exists|i: int| 0 <= i < old(v).len() && old(v)[i]@ == 0,
            r.is_none() ==> *final(v) == *old(v),
            r.is_some() ==> {
                &&& final(v).len() == old(v).len()
                &&& forall|i: int|
                    0 <= i < old(v).len() ==> {
                        &&& is_inverse(old(v)[i]@, #[trigger] final(v)[i]@)
                        &&& final(v)[i]@ == inverse_mod(old(v)[i]@)
                    }
                &&& r.unwrap()@ == product_mod(scalar_values(final(v)@))
            },
    {
        let n = v.len();
        let mut i: usize = 0;
        while i < n
            invariant
                i <= n,
                n == v.len(),
                *v == *old(v),
                forall|k: int| 0 <= k < i ==> v[k]@ % group_order() != 0,
            decreases n - i,
        {
            let x = v[i];
            proof {
                use_type_invariant(&x);
                vstd::arithmetic::div_mod::lemma_small_mod(x@, group_order());
            }
            if x.is_zero() {
                return None;
            }
            i += 1;
        }
        proof {
            assert forall|k: int| 0 <= k < v.len() implies v[k]@ != 0 by {
                if v[k]@ == 0 {
                    assert(0nat % group_order() == 0);
                }
            }
        }
        let allinv = batch_invert_nonzero(v);
        proof {
            assert forall|k: int| 0 <= k < old(v).len() implies #[trigger] v[k]@ == inverse_mod(
                old(v)[k]@,
            ) by {
                lemma_inverse_unique(old(v)[k]@, v[k]@);
            }
        }
        Some(allinv)
    }
}

/// The inner product of two scalar vectors of equal length.
pub fn inner_product(a: &Vec<Scalar>, b: &Vec<Scalar>) -> (c: Scalar)
    requires
        a.len() == b.len(),
    ensures
        c@ == inner_product_mod(scalar_values(a@), scalar_values(b@)),
{
    let ghost av = scalar_values(a@);
    let ghost bv = scalar_values(b@);
    let mut acc = Scalar::zero();
    let mut i: usize = 0;
    while i < a.len()
        invariant
            i <= a.len(),
            a.len() == b.len(),
            av == scalar_values(a@),
            bv == scalar_values(b@),
            acc@ == inner_product_mod(av.subrange(0, i as int), bv.subrange(0, i as int)),
        decreases a.len() - i,
    {
        let term = a[i].mul(&b[i]);
        proof {
            let a1 = av.subrange(0, i + 1);
            let b1 = bv.subrange(0, i + 1);
            assert(a1.drop_last() == av.subrange(0, i as int));
            assert(b1.drop_last() == bv.subrange(0, i as int));
        }
        acc = acc.add(&term);
        i += 1;
    }
    proof {
        assert(av.subrange(0, a.len() as int) == av);
        assert(bv.subrange(0, a.len() as int) == bv);
    }
    acc
}

/// The first `n` powers of `x`: `1, x, x^2, ..`.
pub fn exp_powers(x: &Scalar, n: usize) -> (powers: Vec<Scalar>)
    ensures
        powers.len() == n,
        forall|i: int| 0 <= i < n ==> powers[i]@ == pow_mod(x@, i as nat),
{
    let mut powers: Vec<Scalar> = Vec::new();
    let mut next = Scalar::one();
    let mut i: usize = 0;
    while i < n
        invariant
            i <= n,
            powers.len() == i,
            next@ == pow_mod(x@, i as nat),
            forall|k: int| 0 <= k < i ==> powers[k]@ == pow_mod(x@, k as nat),
        decreases n - i,
    {
        powers.push(next);
        next = next.mul(x);
        i += 1;
    }
    powers
}

} // verus!

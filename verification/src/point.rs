//! Elements of the Ristretto group.
//!
//! A [`Point`] holds the canonical 32-byte encoding of a group element; its
//! view is that encoding. Two points are the same group element exactly when
//! their encodings are equal. The group law itself is `curve25519-dalek`'s:
//! here the results of its operations only have names.
use vstd::prelude::*;
use crate::scalar::Scalar;
use crate::scalar::scalar_values;

verus! {

/// Whether `bytes` is the canonical encoding of a Ristretto group element,
/// that is, whether `CompressedRistretto::decompress` accepts it.
pub uninterp spec fn is_ristretto_encoding(bytes: Seq<u8>) -> bool;

/// The encoding of `scalar * point`.
pub uninterp spec fn scalar_multiple(scalar: nat, point: Seq<u8>) -> Seq<u8>;

/// The encoding of `scalars[0] * points[0] + .. + scalars[n-1] * points[n-1]`.
pub uninterp spec fn multiscalar_product(scalars: Seq<nat>, points: Seq<Seq<u8>>) -> Seq<u8>;

/// A Ristretto group element, stored as its canonical encoding.
#[derive(Clone, Copy, Debug, PartialEq, Eq)]
pub struct Point {
    bytes: [u8; 32],
}

impl View for Point {
    type V = Seq<u8>;

    closed spec fn view(&self) -> Seq<u8> {
        self.bytes@
    }
}

/// The encodings of a vector of points.
pub open spec fn point_encodings(v: Seq<Point>) -> Seq<Seq<u8>> {
    Seq::new(v.len(), |i: int| v[i]@)
}

/// Asks `curve25519_dalek::ristretto::CompressedRistretto::decompress`
/// whether `bytes` decodes to a group element.
#[verifier::external_body]
fn decompresses(bytes: &[u8; 32]) -> (ok: bool)
    ensures
        ok == is_ristretto_encoding(bytes@),
{
    curve25519_dalek::ristretto::CompressedRistretto(*bytes).decompress().is_some()
}

/// Multiplies a decoded point by a scalar with
/// `curve25519_dalek::ristretto::RistrettoPoint`'s `*` and returns the
/// `compress`ed product, which is again a canonical encoding. The point is a
/// valid encoding by the invariant of [`Point`], so decoding it succeeds.
#[verifier::external_body]
fn scalar_mul_bytes(scalar: &Scalar, point: &Point) -> (r: [u8; 32])
    requires
        is_ristretto_encoding(point@),
    ensures
        r@ == scalar_multiple(scalar@, point@),
        is_ristretto_encoding(r@),
{
    let s = curve25519_dalek::scalar::Scalar::from_bytes_mod_order(scalar.to_bytes());
    let p = curve25519_dalek::ristretto::CompressedRistretto(point.bytes).decompress().unwrap();
    (p * s).compress().to_bytes()
}

/// Computes `sum scalars[i] * points[i]` with
/// `curve25519_dalek::ristretto::RistrettoPoint::optional_multiscalar_mul`
/// (the variable-time multiscalar multiplication, fed decoded points) and
/// returns the `compress`ed sum, which is again a canonical encoding. The
/// outside function asserts that both inputs have one length. Every element
/// of `points` is a valid encoding by the invariant of [`Point`], so each
/// decodes and the result is `Some`.
#[verifier::external_body]
fn multiscalar_mul_bytes(scalars: &Vec<Scalar>, points: &Vec<Point>) -> (r: [u8; 32])
    requires
        scalars.len() == points.len(),
    ensures
        r@ == multiscalar_product(scalar_values(scalars@), point_encodings(points@)),
        is_ristretto_encoding(r@),
{
    let s = scalars.iter().map(
        |x| curve25519_dalek::scalar::Scalar::from_bytes_mod_order(x.to_bytes()),
    );
    let p = points.iter().map(
        |x| curve25519_dalek::ristretto::CompressedRistretto(x.bytes).decompress(),
    );
    let sum = <curve25519_dalek::ristretto::RistrettoPoint
        as curve25519_dalek::traits::VartimeMultiscalarMul>::optional_multiscalar_mul(s, p);
    sum.unwrap().compress().to_bytes()
}

impl Point {
    #[verifier::type_invariant]
    spec fn valid(self) -> bool {
        is_ristretto_encoding(self.bytes@)
    }

    /// The point that `bytes` encodes, if `bytes` is a canonical encoding.
    pub fn from_bytes(bytes: [u8; 32]) -> (r: Option<Point>)
        ensures
            r.is_some() <==> is_ristretto_encoding(bytes@),
            r.is_some() ==> r.unwrap()@ == bytes@,
    {
        if decompresses(&bytes) {
            Some(Point { bytes })
        } else {
            None
        }
    }

    /// The canonical encoding of this point.
    pub fn to_bytes(&self) -> (r: [u8; 32])
        ensures
            r@ == self@,
            is_ristretto_encoding(self@),
    {
        proof {
            use_type_invariant(self);
        }
        self.bytes
    }

    /// Whether two points are the same group element.
    pub fn equals(&self, other: &Point) -> (r: bool)
        ensures
            r == (self@ == other@),
    {
        let mut i: usize = 0;
        while i < 32
            invariant
                i <= 32,
                forall|k: int| 0 <= k < i ==> self.bytes@[k] == other.bytes@[k],
            decreases 32 - i,
        {
            if self.bytes[i] != other.bytes[i] {
                return false;
            }
            i += 1;
        }
        assert(self.bytes@ =~= other.bytes@);
        true
    }

    /// The multiple `scalar * self`.
    pub fn mul(&self, scalar: &Scalar) -> (r: Point)
        ensures
            r@ == scalar_multiple(scalar@, self@),
    {
        proof {
            use_type_invariant(self);
        }
        let bytes = scalar_mul_bytes(scalar, self);
        Point { bytes }
    }

    /// The linear combination `sum scalars[i] * points[i]`, computed in
    /// variable time.
    pub fn multiscalar_mul(scalars: &Vec<Scalar>, points: &Vec<Point>) -> (r: Point)
        requires
            scalars.len() == points.len(),
        ensures
            r@ == multiscalar_product(scalar_values(scalars@), point_encodings(points@)),
    {
        let bytes = multiscalar_mul_bytes(scalars, points);
        Point { bytes }
    }
}

} // verus!

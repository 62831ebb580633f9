//! The inner-product argument: proof construction and verification.
//!
//! For generators `G`, `H`, rescale factors `f`, a point `Q` and the
//! commitment `P = <a, G> + <b, H'> + <a, b> Q` with `H'[i] = f[i] * H[i]`,
//! [`Proof::create`] folds the vectors in `log2(n)` rounds and
//! [`Proof::verify`] replays the challenges and checks one linear
//! combination against `P`.
use vstd::prelude::*;
use vstd::arithmetic::power2::pow2;
use crate::completeness::complete_for;
use crate::completeness::lemma_created_is_complete;
use crate::laws::lemma_replay_follows_prover;
use crate::point::Point;
use crate::point::multiscalar_product;
use crate::point::point_encodings;
use crate::point::scalar_multiple;
use crate::scalar::Scalar;
use crate::scalar::add_mod;
use crate::scalar::all_invertible;
use crate::scalar::inner_product;
use crate::scalar::inner_product_mod;
use crate::scalar::inverse_mod;
use crate::scalar::is_inverse;
use crate::scalar::mul_mod;
use crate::scalar::neg_mod;
use crate::scalar::product_mod;
use crate::scalar::scalar_values;
use crate::transcript::Transcript;
use crate::transcript::absorb;
use crate::transcript::challenge_of;
use crate::transcript::state_after_challenge;

verus! {

/// Whether `n` is `1, 2, 4, 8, ..`.
pub open spec fn is_power_of_two(n: nat) -> bool
    decreases n,
{
    n == 1 || (n > 1 && n % 2 == 0 && is_power_of_two(n / 2))
}

/// The number of times `n` can be halved before it reaches `1`.
pub open spec fn log2(n: nat) -> nat
    decreases n,
{
    if n <= 1 {
        0
    } else {
        1 + log2(n / 2)
    }
}

/// The generators `H'[i] = factors[i] * H[i]`.
pub open spec fn rescaled(h: Seq<Seq<u8>>, factors: Seq<nat>) -> Seq<Seq<u8>> {
    Seq::new(h.len(), |i: int| scalar_multiple(factors[i], h[i]))
}

/// The cross-term commitment `<s1, p1> + <s2, p2> + <s1, s2> q` of one round.
pub open spec fn cross_commitment(
    s1: Seq<nat>,
    s2: Seq<nat>,
    p1: Seq<Seq<u8>>,
    p2: Seq<Seq<u8>>,
    q: Seq<u8>,
) -> Seq<u8> {
    multiscalar_product(s1 + s2 + seq![inner_product_mod(s1, s2)], p1 + p2 + seq![q])
}

/// The scalar vector `lo[i] * x + y * hi[i]`.
pub open spec fn folded_scalars(lo: Seq<nat>, hi: Seq<nat>, x: nat, y: nat) -> Seq<nat> {
    Seq::new(lo.len(), |i: int| add_mod(mul_mod(lo[i], x), mul_mod(y, hi[i])))
}

/// The point vector `x * lo[i] + y * hi[i]`.
pub open spec fn folded_points(lo: Seq<Seq<u8>>, hi: Seq<Seq<u8>>, x: nat, y: nat) -> Seq<
    Seq<u8>,
> {
    Seq::new(lo.len(), |i: int| multiscalar_product(seq![x, y], seq![lo[i], hi[i]]))
}

/// What the prover holds between two rounds.
pub struct FoldState {
    /// The state of the transcript.
    pub transcript: Seq<u8>,
    /// The active generators `G`.
    pub g: Seq<Seq<u8>>,
    /// The active generators `H'`.
    pub h: Seq<Seq<u8>>,
    /// The active witness `a`.
    pub a: Seq<nat>,
    /// The active witness `b`.
    pub b: Seq<nat>,
    /// The commitments `L` of the rounds so far.
    pub l_vec: Seq<Seq<u8>>,
    /// The commitments `R` of the rounds so far.
    pub r_vec: Seq<Seq<u8>>,
}

/// The state of the transcript after the commitments `l` and `r` of a round
/// are absorbed, in that order.
pub open spec fn round_input(transcript: Seq<u8>, l: Seq<u8>, r: Seq<u8>) -> Seq<u8> {
    absorb(absorb(transcript, l), r)
}

/// One folding round: the active vectors are split at their midpoint, the
/// cross terms are committed to, a challenge `x` is drawn, and the halves are
/// combined with `x` and `1/x`.
pub open spec fn fold_round(s: FoldState, q: Seq<u8>) -> FoldState {
    let n = s.a.len() as int;
    let m = n / 2;
    let l = cross_commitment(
        s.a.subrange(0, m),
        s.b.subrange(m, n),
        s.g.subrange(m, n),
        s.h.subrange(0, m),
        q,
    );
    let r = cross_commitment(
        s.a.subrange(m, n),
        s.b.subrange(0, m),
        s.g.subrange(0, m),
        s.h.subrange(m, n),
        q,
    );
    let committed = round_input(s.transcript, l, r);
    let x = challenge_of(committed);
    let x_inv = inverse_mod(x);
    FoldState {
        transcript: state_after_challenge(committed),
        g: folded_points(s.g.subrange(0, m), s.g.subrange(m, n), x_inv, x),
        h: folded_points(s.h.subrange(0, m), s.h.subrange(m, n), x, x_inv),
        a: folded_scalars(s.a.subrange(0, m), s.a.subrange(m, n), x, x_inv),
        b: folded_scalars(s.b.subrange(0, m), s.b.subrange(m, n), x_inv, x),
        l_vec: s.l_vec.push(l),
        r_vec: s.r_vec.push(r),
    }
}

/// Folding rounds repeated until a single element of each vector is left.
pub open spec fn fold_all(s: FoldState, q: Seq<u8>) -> FoldState
    decreases s.a.len(),
{
    if s.a.len() <= 1 {
        s
    } else {
        fold_all(fold_round(s, q), q)
    }
}

/// The state in which the prover starts: nothing committed yet, and `H`
/// rescaled by the factors.
pub open spec fn initial_state(
    transcript: Seq<u8>,
    factors: Seq<nat>,
    g: Seq<Seq<u8>>,
    h: Seq<Seq<u8>>,
    a: Seq<nat>,
    b: Seq<nat>,
) -> FoldState {
    FoldState {
        transcript,
        g,
        h: rescaled(h, factors),
        a,
        b,
        l_vec: Seq::empty(),
        r_vec: Seq::empty(),
    }
}

/// The state in which the prover ends, from which the proof is read off.
pub open spec fn created(
    transcript: Seq<u8>,
    q: Seq<u8>,
    factors: Seq<nat>,
    g: Seq<Seq<u8>>,
    h: Seq<Seq<u8>>,
    a: Seq<nat>,
    b: Seq<nat>,
) -> FoldState {
    fold_all(initial_state(transcript, factors, g, h, a, b), q)
}

/// What the prover asks of its input: five vectors of one length, a power of
/// two.
pub open spec fn well_formed_input(
    factors: Seq<nat>,
    g: Seq<Seq<u8>>,
    h: Seq<Seq<u8>>,
    a: Seq<nat>,
    b: Seq<nat>,
) -> bool {
    &&& is_power_of_two(g.len())
    &&& h.len() == g.len()
    &&& a.len() == g.len()
    &&& b.len() == g.len()
    &&& factors.len() == g.len()
}

/// The mathematical content of a [`Proof`].
pub struct ProofView {
    /// The encodings of the commitments `L`, one per round.
    pub l_vec: Seq<Seq<u8>>,
    /// The encodings of the commitments `R`, one per round.
    pub r_vec: Seq<Seq<u8>>,
    /// The fully folded witness `a`.
    pub a: nat,
    /// The fully folded witness `b`.
    pub b: nat,
}

/// The proof that a finished prover state gives.
pub open spec fn proof_of(s: FoldState) -> ProofView {
    ProofView { l_vec: s.l_vec, r_vec: s.r_vec, a: s.a[0], b: s.b[0] }
}

/// An inner-product proof: the cross-term commitments of every round and the
/// two scalars that are left of the witness.
#[derive(Clone, Debug)]
pub struct Proof {
    L_vec: Vec<Point>,
    R_vec: Vec<Point>,
    a: Scalar,
    b: Scalar,
}

impl View for Proof {
    type V = ProofView;

    closed spec fn view(&self) -> ProofView {
        ProofView {
            l_vec: point_encodings(self.L_vec@),
            r_vec: point_encodings(self.R_vec@),
            a: self.a@,
            b: self.b@,
        }
    }
}

/// The state of the transcript after the verifier has replayed every round
/// of a proof: absorbed `l[j]`, then `r[j]`, then drawn a challenge.
pub open spec fn replay_transcript(transcript: Seq<u8>, l: Seq<Seq<u8>>, r: Seq<Seq<u8>>) -> Seq<
    u8,
>
    decreases l.len(),
{
    if l.len() == 0 || r.len() == 0 {
        transcript
    } else {
        state_after_challenge(
            round_input(
                replay_transcript(transcript, l.drop_last(), r.drop_last()),
                l.last(),
                r.last(),
            ),
        )
    }
}

/// The challenges that the verifier draws while it replays a proof, in the
/// order of the rounds.
pub open spec fn replay_challenges(transcript: Seq<u8>, l: Seq<Seq<u8>>, r: Seq<Seq<u8>>) -> Seq<
    nat,
>
    decreases l.len(),
{
    if l.len() == 0 || r.len() == 0 {
        Seq::empty()
    } else {
        replay_challenges(transcript, l.drop_last(), r.drop_last()).push(
            challenge_of(
                round_input(
                    replay_transcript(transcript, l.drop_last(), r.drop_last()),
                    l.last(),
                    r.last(),
                ),
            ),
        )
    }
}

/// The squares `x[j]^2`.
pub open spec fn squares(x: Seq<nat>) -> Seq<nat> {
    Seq::new(x.len(), |j: int| mul_mod(x[j], x[j]))
}

/// The inverses `1 / x[j]`.
pub open spec fn inverses(x: Seq<nat>) -> Seq<nat> {
    Seq::new(x.len(), |j: int| inverse_mod(x[j]))
}

/// The negations `-x[j]`.
pub open spec fn negations(x: Seq<nat>) -> Seq<nat> {
    Seq::new(x.len(), |j: int| neg_mod(x[j]))
}

/// `acc` times the product of the entries of `sq` that the bits of `i`
/// select, where the lowest bit of `i` selects the last entry of `sq`, the
/// next bit the entry before it, and so on.
pub open spec fn expansion_coefficient(acc: nat, sq: Seq<nat>, i: nat) -> nat
    decreases sq.len(),
{
    if sq.len() == 0 {
        acc
    } else {
        expansion_coefficient(
            if i % 2 == 1 {
                mul_mod(acc, sq.last())
            } else {
                acc
            },
            sq.drop_last(),
            i / 2,
        )
    }
}

/// The coefficient `s_i` that the folding gives the generator of index `i`:
/// the product of all inverse challenges, times the squared challenge of
/// every round in which `i` fell into the upper half.
pub open spec fn expansion(challenges: Seq<nat>, i: nat) -> nat {
    expansion_coefficient(product_mod(inverses(challenges)), squares(challenges), i)
}

/// The coefficients `a * s_i` of the generators `G`.
pub open spec fn g_coefficients(a: nat, challenges: Seq<nat>) -> Seq<nat> {
    Seq::new(pow2(challenges.len()), |i: int| mul_mod(a, expansion(challenges, i as nat)))
}

/// The coefficients `b * s_{n-1-i} * factors[i]` of the generators `H`.
pub open spec fn h_coefficients(b: nat, challenges: Seq<nat>, factors: Seq<nat>) -> Seq<nat> {
    Seq::new(
        pow2(challenges.len()),
        |i: int|
            mul_mod(
                mul_mod(b, expansion(challenges, (pow2(challenges.len()) - 1 - i) as nat)),
                factors[i],
            ),
    )
}

/// The scalars of the verification equation: `a * b` for `Q`, then the
/// coefficients of `G`, of `H`, `-x_j^2` for `L_j` and `-1/x_j^2` for `R_j`.
pub open spec fn verification_scalars(
    proof: ProofView,
    challenges: Seq<nat>,
    factors: Seq<nat>,
) -> Seq<nat> {
    seq![mul_mod(proof.a, proof.b)] + g_coefficients(proof.a, challenges) + h_coefficients(
        proof.b,
        challenges,
        factors,
    ) + negations(squares(challenges)) + negations(squares(inverses(challenges)))
}

/// The points of the verification equation: `Q`, `G`, `H`, `L`, `R`.
pub open spec fn verification_points(
    proof: ProofView,
    q: Seq<u8>,
    g: Seq<Seq<u8>>,
    h: Seq<Seq<u8>>,
) -> Seq<Seq<u8>> {
    seq![q] + g + h + proof.l_vec + proof.r_vec
}

/// Whether proof, generators and factors fit together: as many `R` as `L`,
/// and `2^rounds` generators of each kind and factors.
pub open spec fn well_shaped(
    proof: ProofView,
    factors: Seq<nat>,
    g: Seq<Seq<u8>>,
    h: Seq<Seq<u8>>,
) -> bool {
    &&& proof.r_vec.len() == proof.l_vec.len()
    &&& g.len() == pow2(proof.l_vec.len())
    &&& h.len() == g.len()
    &&& factors.len() == g.len()
}

/// Whether a proof is valid for the commitment `p`: it is well shaped, every
/// replayed challenge is invertible, and the verification equation gives `p`.
pub open spec fn accepts(
    proof: ProofView,
    transcript: Seq<u8>,
    factors: Seq<nat>,
    p: Seq<u8>,
    q: Seq<u8>,
    g: Seq<Seq<u8>>,
    h: Seq<Seq<u8>>,
) -> bool {
    let challenges = replay_challenges(transcript, proof.l_vec, proof.r_vec);
    &&& well_shaped(proof, factors, g, h)
    &&& forall|j: int| 0 <= j < challenges.len() ==> challenges[j] != 0
    &&& multiscalar_product(
        verification_scalars(proof, challenges, factors),
        verification_points(proof, q, g, h),
    ) == p
}

/// The state in which verification leaves a transcript: every round replayed
/// where the proof has as many `R` as `L`, and untouched where it has not.
pub open spec fn transcript_after_verify(proof: ProofView, transcript: Seq<u8>) -> Seq<u8> {
    if proof.r_vec.len() == proof.l_vec.len() {
        replay_transcript(transcript, proof.l_vec, proof.r_vec)
    } else {
        transcript
    }
}

/// Splits `v` at `mid` into two vectors.
fn split_at<T: Copy>(v: &Vec<T>, mid: usize) -> (halves: (Vec<T>, Vec<T>))
    requires
        mid <= v.len(),
    ensures
        halves.0@ == v@.subrange(0, mid as int),
        halves.1@ == v@.subrange(mid as int, v.len() as int),
{
    let mut lo: Vec<T> = Vec::new();
    let mut hi: Vec<T> = Vec::new();
    let mut i: usize = 0;
    while i < mid
        invariant
            i <= mid <= v.len(),
            lo@ == v@.subrange(0, i as int),
        decreases mid - i,
    {
        lo.push(v[i]);
        i += 1;
    }
    while i < v.len()
        invariant
            mid <= i <= v.len(),
            hi@ == v@.subrange(mid as int, i as int),
        decreases v.len() - i,
    {
        hi.push(v[i]);
        i += 1;
    }
    (lo, hi)
}

/// Appends a copy of every element of `src` to `dst`.
fn append_all<T: Copy>(dst: &mut Vec<T>, src: &Vec<T>)
    ensures
        final(dst)@ == old(dst)@ + src@,
{
    let mut i: usize = 0;
    while i < src.len()
        invariant
            i <= src.len(),
            dst@ == old(dst)@ + src@.subrange(0, i as int),
        decreases src.len() - i,
    {
        dst.push(src[i]);
        i += 1;
    }
    assert(src@.subrange(0, src.len() as int) == src@);
}

/// The generators `H'[i] = factors[i] * H[i]`.
pub fn rescale(h: &Vec<Point>, factors: &Vec<Scalar>) -> (r: Vec<Point>)
    requires
        h.len() == factors.len(),
    ensures
        point_encodings(r@) == rescaled(point_encodings(h@), scalar_values(factors@)),
        r.len() == h.len(),
{
    let mut r: Vec<Point> = Vec::new();
    let mut i: usize = 0;
    while i < h.len()
        invariant
            i <= h.len(),
            h.len() == factors.len(),
            r.len() == i,
            forall|k: int| 0 <= k < i ==> r[k]@ == scalar_multiple(factors[k]@, h[k]@),
        decreases h.len() - i,
    {
        r.push(h[i].mul(&factors[i]));
        i += 1;
    }
    assert(point_encodings(r@) =~= rescaled(point_encodings(h@), scalar_values(factors@)));
    r
}

/// The cross-term commitment `<s1, p1> + <s2, p2> + <s1, s2> Q`, as one
/// multiscalar multiplication.
pub fn commit_cross_terms(
    s1: &Vec<Scalar>,
    s2: &Vec<Scalar>,
    p1: &Vec<Point>,
    p2: &Vec<Point>,
    Q: &Point,
) -> (r: Point)
    requires
        s1.len() == s2.len(),
        s1.len() == p1.len(),
        s1.len() == p2.len(),
    ensures
        r@ == cross_commitment(
            scalar_values(s1@),
            scalar_values(s2@),
            point_encodings(p1@),
            point_encodings(p2@),
            Q@,
        ),
{
    let c = inner_product(s1, s2);
    let mut scalars: Vec<Scalar> = Vec::new();
    append_all(&mut scalars, s1);
    append_all(&mut scalars, s2);
    scalars.push(c);
    let mut points: Vec<Point> = Vec::new();
    append_all(&mut points, p1);
    append_all(&mut points, p2);
    points.push(*Q);
    proof {
        assert(scalar_values(scalars@) =~= scalar_values(s1@) + scalar_values(s2@) + seq![c@]);
        assert(point_encodings(points@) =~= point_encodings(p1@) + point_encodings(p2@)
            + seq![Q@]);
    }
    Point::multiscalar_mul(&scalars, &points)
}

/// The scalar vector `lo[i] * x + y * hi[i]`.
pub fn fold_scalars(lo: &Vec<Scalar>, hi: &Vec<Scalar>, x: &Scalar, y: &Scalar) -> (r: Vec<
    Scalar,
>)
    requires
        lo.len() == hi.len(),
    ensures
        scalar_values(r@) == folded_scalars(scalar_values(lo@), scalar_values(hi@), x@, y@),
        r.len() == lo.len(),
{
    let mut r: Vec<Scalar> = Vec::new();
    let mut i: usize = 0;
    while i < lo.len()
        invariant
            i <= lo.len(),
            lo.len() == hi.len(),
            r.len() == i,
            forall|k: int|
                0 <= k < i ==> r[k]@ == add_mod(mul_mod(lo[k]@, x@), mul_mod(y@, hi[k]@)),
        decreases lo.len() - i,
    {
        let left = lo[i].mul(x);
        let right = y.mul(&hi[i]);
        r.push(left.add(&right));
        i += 1;
    }
    assert(scalar_values(r@) =~= folded_scalars(
        scalar_values(lo@),
        scalar_values(hi@),
        x@,
        y@,
    ));
    r
}

/// The point vector `x * lo[i] + y * hi[i]`.
pub fn fold_points(lo: &Vec<Point>, hi: &Vec<Point>, x: &Scalar, y: &Scalar) -> (r: Vec<Point>)
    requires
        lo.len() == hi.len(),
    ensures
        point_encodings(r@) == folded_points(point_encodings(lo@), point_encodings(hi@), x@, y@),
        r.len() == lo.len(),
{
    let mut scalars: Vec<Scalar> = Vec::new();
    scalars.push(*x);
    scalars.push(*y);
    assert(scalar_values(scalars@) =~= seq![x@, y@]);
    let mut r: Vec<Point> = Vec::new();
    let mut i: usize = 0;
    while i < lo.len()
        invariant
            i <= lo.len(),
            lo.len() == hi.len(),
            r.len() == i,
            scalars.len() == 2,
            scalar_values(scalars@) == seq![x@, y@],
            forall|k: int|
                0 <= k < i ==> r[k]@ == multiscalar_product(seq![x@, y@], seq![lo[k]@, hi[k]@]),
        decreases lo.len() - i,
    {
        let mut points: Vec<Point> = Vec::new();
        points.push(lo[i]);
        points.push(hi[i]);
        assert(point_encodings(points@) =~= seq![lo[i as int]@, hi[i as int]@]);
        r.push(Point::multiscalar_mul(&scalars, &points));
        i += 1;
    }
    assert(point_encodings(r@) =~= folded_points(
        point_encodings(lo@),
        point_encodings(hi@),
        x@,
        y@,
    ));
    r
}

/// The prover state made of the values that the prover holds.
pub open spec fn state_of(
    transcript: Seq<u8>,
    g: Seq<Point>,
    h: Seq<Point>,
    a: Seq<Scalar>,
    b: Seq<Scalar>,
    l_vec: Seq<Point>,
    r_vec: Seq<Point>,
) -> FoldState {
    FoldState {
        transcript,
        g: point_encodings(g),
        h: point_encodings(h),
        a: scalar_values(a),
        b: scalar_values(b),
        l_vec: point_encodings(l_vec),
        r_vec: point_encodings(r_vec),
    }
}

/// Every round adds one commitment to each list and halves the vectors, so a
/// run from a power of two `n` takes `log2(n)` rounds and ends with vectors
/// of length one.
pub proof fn lemma_fold_all_rounds(s: FoldState, q: Seq<u8>)
    requires
        is_power_of_two(s.a.len()),
        s.b.len() == s.a.len(),
        s.g.len() == s.a.len(),
        s.h.len() == s.a.len(),
    ensures
        fold_all(s, q).l_vec.len() == s.l_vec.len() + log2(s.a.len()),
        fold_all(s, q).r_vec.len() == s.r_vec.len() + log2(s.a.len()),
        fold_all(s, q).a.len() == 1,
        fold_all(s, q).b.len() == 1,
        fold_all(s, q).g.len() == 1,
        fold_all(s, q).h.len() == 1,
    decreases s.a.len(),
{
    if s.a.len() > 1 {
        lemma_fold_all_rounds(fold_round(s, q), q);
    }
}

/// `log2` inverts the powers of two.
pub proof fn lemma_pow2_log2(n: nat)
    requires
        is_power_of_two(n),
    ensures
        vstd::arithmetic::power2::pow2(log2(n)) == n,
    decreases n,
{
    if n > 1 {
        lemma_pow2_log2(n / 2);
        vstd::arithmetic::power2::lemma_pow2_unfold(log2(n));
    } else {
        vstd::arithmetic::power2::lemma2_to64();
    }
}

/// Whether `n` is a power of two.
pub fn power_of_two(n: usize) -> (r: bool)
    ensures
        r == is_power_of_two(n as nat),
{
    if n == 0 {
        return false;
    }
    let mut k = n;
    while k % 2 == 0
        invariant
            k >= 1,
            is_power_of_two(k as nat) == is_power_of_two(n as nat),
        decreases k,
    {
        k = k / 2;
    }
    k == 1
}

impl Proof {
    /// Creates an inner-product proof as [`Proof::create`] does, where the
    /// five vectors have one length and that length is a power of two.
    /// Otherwise nothing is done: the transcript is left alone and `None`
    /// comes back.
    pub fn try_create(
        transcript: &mut Transcript,
        Q: &Point,
        Hprime_factors: &Vec<Scalar>,
        G_vec: Vec<Point>,
        H_vec: Vec<Point>,
        a_vec: Vec<Scalar>,
        b_vec: Vec<Scalar>,
    ) -> (r: Option<Proof>)
        ensures
            r.is_some() <==> well_formed_input(
                scalar_values(Hprime_factors@),
                point_encodings(G_vec@),
                point_encodings(H_vec@),
                scalar_values(a_vec@),
                scalar_values(b_vec@),
            ),
            r.is_none() ==> final(transcript)@ == old(transcript)@,
            r.is_some() ==> {
                &&& r.unwrap()@ == proof_of(
                    created(
                        old(transcript)@,
                        Q@,
                        scalar_values(Hprime_factors@),
                        point_encodings(G_vec@),
                        point_encodings(H_vec@),
                        scalar_values(a_vec@),
                        scalar_values(b_vec@),
                    ),
                )
                &&& final(transcript)@ == created(
                    old(transcript)@,
                    Q@,
                    scalar_values(Hprime_factors@),
                    point_encodings(G_vec@),
                    point_encodings(H_vec@),
                    scalar_values(a_vec@),
                    scalar_values(b_vec@),
                ).transcript
            },
    {
        let n = G_vec.len();
        proof {
            assert(point_encodings(G_vec@).len() == n);
            assert(point_encodings(H_vec@).len() == H_vec.len());
            assert(scalar_values(a_vec@).len() == a_vec.len());
            assert(scalar_values(b_vec@).len() == b_vec.len());
            assert(scalar_values(Hprime_factors@).len() == Hprime_factors.len());
        }
        if !power_of_two(n) || H_vec.len() != n || a_vec.len() != n || b_vec.len() != n
            || Hprime_factors.len() != n {
            return None;
        }
        Some(Proof::create(transcript, Q, Hprime_factors, G_vec, H_vec, a_vec, b_vec))
    }

    /// Creates an inner-product proof for the witness `a_vec`, `b_vec` with
    /// respect to the generators `G_vec` and `H'`, where
    /// `H'[i] = Hprime_factors[i] * H_vec[i]`.
    ///
    /// The challenges are drawn from `transcript`, so that they depend on
    /// everything that it absorbed before, and the commitments of every round
    /// are absorbed into it on the way.
    ///
    /// All five vectors have one length, a power of two. The proof is
    /// complete: a verifier whose transcript starts where this one started
    /// accepts it for the commitment `<a, G> + <b o f, H> + <a, b> Q`,
    /// whatever linear model the group has and unless a challenge is zero.
    pub fn create(
        transcript: &mut Transcript,
        Q: &Point,
        Hprime_factors: &Vec<Scalar>,
        G_vec: Vec<Point>,
        H_vec: Vec<Point>,
        a_vec: Vec<Scalar>,
        b_vec: Vec<Scalar>,
    ) -> (proof: Proof)
        requires
            well_formed_input(
                scalar_values(Hprime_factors@),
                point_encodings(G_vec@),
                point_encodings(H_vec@),
                scalar_values(a_vec@),
                scalar_values(b_vec@),
            ),
        ensures
            proof@ == proof_of(
                created(
                    old(transcript)@,
                    Q@,
                    scalar_values(Hprime_factors@),
                    point_encodings(G_vec@),
                    point_encodings(H_vec@),
                    scalar_values(a_vec@),
                    scalar_values(b_vec@),
                ),
            ),
            final(transcript)@ == created(
                old(transcript)@,
                Q@,
                scalar_values(Hprime_factors@),
                point_encodings(G_vec@),
                point_encodings(H_vec@),
                scalar_values(a_vec@),
                scalar_values(b_vec@),
            ).transcript,
            proof@.l_vec.len() == log2(G_vec.len() as nat),
            proof@.r_vec.len() == log2(G_vec.len() as nat),
            well_shaped(
                proof@,
                scalar_values(Hprime_factors@),
                point_encodings(G_vec@),
                point_encodings(H_vec@),
            ),
            final(transcript)@ == replay_transcript(
                old(transcript)@,
                proof@.l_vec,
                proof@.r_vec,
            ),
            complete_for(
                proof@,
                old(transcript)@,
                Q@,
                scalar_values(Hprime_factors@),
                point_encodings(G_vec@),
                point_encodings(H_vec@),
                scalar_values(a_vec@),
                scalar_values(b_vec@),
            ),
            G_vec.len() == 1 ==> {
                &&& proof@.l_vec.len() == 0
                &&& proof@.r_vec.len() == 0
                &&& proof@.a == a_vec[0]@
                &&& proof@.b == b_vec[0]@
                &&& final(transcript)@ == old(transcript)@
            },
    {
        let ghost start = initial_state(
            transcript@,
            scalar_values(Hprime_factors@),
            point_encodings(G_vec@),
            point_encodings(H_vec@),
            scalar_values(a_vec@),
            scalar_values(b_vec@),
        );
        let ghost end = fold_all(start, Q@);
        let mut n = G_vec.len();
        let mut G = G_vec;
        let mut H = rescale(&H_vec, Hprime_factors);
        let mut a = a_vec;
        let mut b = b_vec;
        let mut L_vec: Vec<Point> = Vec::new();
        let mut R_vec: Vec<Point> = Vec::new();
        proof {
            lemma_fold_all_rounds(start, Q@);
            lemma_replay_follows_prover(transcript@, start, Q@);
            lemma_created_is_complete(
                transcript@,
                Q@,
                scalar_values(Hprime_factors@),
                point_encodings(G_vec@),
                point_encodings(H_vec@),
                scalar_values(a_vec@),
                scalar_values(b_vec@),
            );
            lemma_pow2_log2(n as nat);
            assert(point_encodings(L_vec@) =~= Seq::empty());
            assert(point_encodings(R_vec@) =~= Seq::empty());
            assert(state_of(transcript@, G@, H@, a@, b@, L_vec@, R_vec@) == start);
        }
        while n != 1
            invariant
                n == a.len(),
                n == b.len(),
                n == G.len(),
                n == H.len(),
                is_power_of_two(n as nat),
                fold_all(state_of(transcript@, G@, H@, a@, b@, L_vec@, R_vec@), Q@) == end,
            decreases n,
        {
            let ghost before = state_of(transcript@, G@, H@, a@, b@, L_vec@, R_vec@);
            n = n / 2;
            let (a_L, a_R) = split_at(&a, n);
            let (b_L, b_R) = split_at(&b, n);
            let (G_L, G_R) = split_at(&G, n);
            let (H_L, H_R) = split_at(&H, n);
            proof {
                assert(scalar_values(a_L@) =~= before.a.subrange(0, n as int));
                assert(scalar_values(a_R@) =~= before.a.subrange(n as int, before.a.len() as int));
                assert(scalar_values(b_L@) =~= before.b.subrange(0, n as int));
                assert(scalar_values(b_R@) =~= before.b.subrange(n as int, before.a.len() as int));
                assert(point_encodings(G_L@) =~= before.g.subrange(0, n as int));
                assert(point_encodings(G_R@) =~= before.g.subrange(
                    n as int,
                    before.a.len() as int,
                ));
                assert(point_encodings(H_L@) =~= before.h.subrange(0, n as int));
                assert(point_encodings(H_R@) =~= before.h.subrange(
                    n as int,
                    before.a.len() as int,
                ));
            }

            let L = commit_cross_terms(&a_L, &b_R, &G_R, &H_L, Q);
            let R = commit_cross_terms(&a_R, &b_L, &G_L, &H_R, Q);

            L_vec.push(L);
            R_vec.push(R);

            transcript.commit(L.to_bytes().as_slice());
            transcript.commit(R.to_bytes().as_slice());

            let x = transcript.challenge_scalar();
            let x_inv = x.invert();

            a = fold_scalars(&a_L, &a_R, &x, &x_inv);
            b = fold_scalars(&b_L, &b_R, &x_inv, &x);
            G = fold_points(&G_L, &G_R, &x_inv, &x);
            H = fold_points(&H_L, &H_R, &x, &x_inv);

            proof {
                let after = state_of(transcript@, G@, H@, a@, b@, L_vec@, R_vec@);
                assert(after.l_vec =~= before.l_vec.push(L@));
                assert(after.r_vec =~= before.r_vec.push(R@));
                assert(after == fold_round(before, Q@));
                assert(a.len() == scalar_values(a@).len());
                assert(b.len() == scalar_values(b@).len());
                assert(G.len() == point_encodings(G@).len());
                assert(H.len() == point_encodings(H@).len());
            }
        }
        proof {
            assert(scalar_values(a@)[0] == a[0]@);
            assert(scalar_values(b@)[0] == b[0]@);
        }
        Proof { L_vec, R_vec, a: a[0], b: b[0] }
    }
}

/// `2^e`, where it fits.
pub fn checked_pow2(e: usize) -> (r: Option<usize>)
    ensures
        r.is_some() <==> pow2(e as nat) <= usize::MAX,
        r.is_some() ==> r.unwrap() == pow2(e as nat),
{
    let mut n: usize = 1;
    let mut j: usize = 0;
    proof {
        vstd::arithmetic::power2::lemma2_to64();
    }
    while j < e
        invariant
            j <= e,
            n == pow2(j as nat),
        decreases e - j,
    {
        proof {
            vstd::arithmetic::power2::lemma_pow2_unfold((j + 1) as nat);
        }
        if n > usize::MAX / 2 {
            proof {
                if j + 1 < e {
                    vstd::arithmetic::power2::lemma_pow2_strictly_increases(
                        (j + 1) as nat,
                        e as nat,
                    );
                }
            }
            return None;
        }
        n = n * 2;
        j += 1;
    }
    Some(n)
}

/// The coefficients `s_0, .., s_{n-1}`: entry `i` is `allinv` times the
/// entries of `challenges_sq` that the bits of `i` select, the lowest bit
/// selecting the last entry.
pub fn expansion_coefficients(allinv: &Scalar, challenges_sq: &Vec<Scalar>, n: usize) -> (s: Vec<
    Scalar,
>)
    ensures
        s.len() == n,
        forall|i: int|
            0 <= i < n ==> s[i]@ == expansion_coefficient(
                allinv@,
                scalar_values(challenges_sq@),
                i as nat,
            ),
{
    let lg_n = challenges_sq.len();
    let ghost sq = scalar_values(challenges_sq@);
    let mut s: Vec<Scalar> = Vec::new();
    let mut i: usize = 0;
    while i < n
        invariant
            i <= n,
            s.len() == i,
            lg_n == challenges_sq.len(),
            sq == scalar_values(challenges_sq@),
            forall|k: int| 0 <= k < i ==> s[k]@ == expansion_coefficient(allinv@, sq, k as nat),
        decreases n - i,
    {
        let mut s_i = *allinv;
        let mut rest = i;
        let mut j: usize = 0;
        proof {
            assert(sq.take(lg_n as int) =~= sq);
        }
        while j < lg_n
            invariant
                j <= lg_n,
                lg_n == challenges_sq.len(),
                sq == scalar_values(challenges_sq@),
                expansion_coefficient(s_i@, sq.take(lg_n - j), rest as nat)
                    == expansion_coefficient(allinv@, sq, i as nat),
            decreases lg_n - j,
        {
            proof {
                let active = sq.take(lg_n - j);
                assert(active.drop_last() =~= sq.take(lg_n - j - 1));
                assert(active.last() == challenges_sq[lg_n - 1 - j]@);
            }
            if rest % 2 == 1 {
                // The challenges are stored in creation order, so the lowest
                // bit belongs to the last of them.
                s_i = s_i.mul(&challenges_sq[lg_n - 1 - j]);
            }
            rest = rest / 2;
            j += 1;
        }
        proof {
            assert(sq.take(0).len() == 0);
        }
        s.push(s_i);
        i += 1;
    }
    s
}

impl Proof {
    /// A proof made of its parts.
    pub fn from_parts(L_vec: Vec<Point>, R_vec: Vec<Point>, a: Scalar, b: Scalar) -> (proof: Proof)
        ensures
            proof@ == (ProofView {
                l_vec: point_encodings(L_vec@),
                r_vec: point_encodings(R_vec@),
                a: a@,
                b: b@,
            }),
    {
        Proof { L_vec, R_vec, a, b }
    }

    /// The commitments `L`, one per round.
    pub fn L_vec(&self) -> (r: &Vec<Point>)
        ensures
            point_encodings(r@) == self@.l_vec,
    {
        &self.L_vec
    }

    /// The commitments `R`, one per round.
    pub fn R_vec(&self) -> (r: &Vec<Point>)
        ensures
            point_encodings(r@) == self@.r_vec,
    {
        &self.R_vec
    }

    /// The fully folded witness `a`.
    pub fn a(&self) -> (r: Scalar)
        ensures
            r@ == self@.a,
    {
        self.a
    }

    /// The fully folded witness `b`.
    pub fn b(&self) -> (r: Scalar)
        ensures
            r@ == self@.b,
    {
        self.b
    }

    /// Replays the rounds of this proof on `transcript` and returns the
    /// challenges, in the order of the rounds.
    pub fn challenges(&self, transcript: &mut Transcript) -> (challenges: Vec<Scalar>)
        requires
            self@.r_vec.len() == self@.l_vec.len(),
        ensures
            scalar_values(challenges@) == replay_challenges(
                old(transcript)@,
                self@.l_vec,
                self@.r_vec,
            ),
            final(transcript)@ == replay_transcript(old(transcript)@, self@.l_vec, self@.r_vec),
            challenges.len() == self@.l_vec.len(),
    {
        let lg_n = self.L_vec.len();
        let ghost l = point_encodings(self.L_vec@);
        let ghost r = point_encodings(self.R_vec@);
        let mut challenges: Vec<Scalar> = Vec::new();
        let mut j: usize = 0;
        proof {
            assert(scalar_values(challenges@) =~= Seq::empty());
            assert(l.take(0).len() == 0);
        }
        while j < lg_n
            invariant
                j <= lg_n,
                lg_n == self.L_vec.len(),
                lg_n == self.R_vec.len(),
                challenges.len() == j,
                l == point_encodings(self.L_vec@),
                r == point_encodings(self.R_vec@),
                scalar_values(challenges@) == replay_challenges(
                    old(transcript)@,
                    l.take(j as int),
                    r.take(j as int),
                ),
                transcript@ == replay_transcript(
                    old(transcript)@,
                    l.take(j as int),
                    r.take(j as int),
                ),
            decreases lg_n - j,
        {
            let ghost before = scalar_values(challenges@);
            transcript.commit(self.L_vec[j].to_bytes().as_slice());
            transcript.commit(self.R_vec[j].to_bytes().as_slice());
            challenges.push(transcript.challenge_scalar());
            proof {
                assert(l.take(j + 1).drop_last() =~= l.take(j as int));
                assert(r.take(j + 1).drop_last() =~= r.take(j as int));
                assert(l.take(j + 1).last() == self.L_vec[j as int]@);
                assert(r.take(j + 1).last() == self.R_vec[j as int]@);
                assert(scalar_values(challenges@) =~= before.push(challenges[j as int]@));
            }
            j += 1;
        }
        proof {
            assert(l.take(lg_n as int) =~= l);
            assert(r.take(lg_n as int) =~= r);
        }
        challenges
    }

    /// Verifies this proof against the commitment `P`, for the generators
    /// `G_vec` and `H'`, where `H'[i] = Hprime_factors[i] * H_vec[i]`.
    ///
    /// `transcript` has to be in the state in which the prover's transcript
    /// was when the proof was created. The verdict has two values and gives
    /// no reason.
    pub fn verify(
        &self,
        transcript: &mut Transcript,
        Hprime_factors: &Vec<Scalar>,
        P: &Point,
        Q: &Point,
        G_vec: &Vec<Point>,
        H_vec: &Vec<Point>,
    ) -> (verdict: Result<(), ()>)
        ensures
            verdict.is_ok() <==> accepts(
                self@,
                old(transcript)@,
                scalar_values(Hprime_factors@),
                P@,
                Q@,
                point_encodings(G_vec@),
                point_encodings(H_vec@),
            ),
            final(transcript)@ == transcript_after_verify(self@, old(transcript)@),
            verdict.is_ok() ==> all_invertible(
                replay_challenges(old(transcript)@, self@.l_vec, self@.r_vec),
            ),
    {
        let lg_n = self.L_vec.len();
        if self.R_vec.len() != lg_n {
            return Err(());
        }
        let mut challenges = self.challenges(transcript);
        let ghost x = scalar_values(challenges@);

        proof {
            assert(self@.l_vec.len() == lg_n);
            assert(self@.r_vec.len() == lg_n);
            assert(point_encodings(G_vec@).len() == G_vec.len());
            assert(point_encodings(H_vec@).len() == H_vec.len());
            assert(scalar_values(Hprime_factors@).len() == Hprime_factors.len());
        }
        let n = match checked_pow2(lg_n) {
            Some(n) => n,
            None => {
                return Err(());
            },
        };
        if G_vec.len() != n || H_vec.len() != n || Hprime_factors.len() != n {
            return Err(());
        }
        let mut inv_challenges: Vec<Scalar> = Vec::new();
        append_all(&mut inv_challenges, &challenges);
        let allinv = match Scalar::batch_invert(&mut inv_challenges) {
            Some(allinv) => allinv,
            None => {
                proof {
                    let j = choose|j: int| 0 <= j < challenges.len() && challenges[j]@ == 0;
                    assert(x[j] == 0);
                }
                return Err(());
            },
        };
        proof {
            assert(scalar_values(inv_challenges@) =~= inverses(x));
            assert forall|j: int| 0 <= j < x.len() implies x[j] != 0 by {
                assert(challenges[j]@ == x[j]);
            }
            assert forall|j: int| 0 <= j < x.len() implies is_inverse(
                #[trigger] x[j],
                inverse_mod(x[j]),
            ) by {
                assert(challenges[j]@ == x[j]);
                assert(is_inverse(challenges[j]@, inv_challenges[j]@));
            }
        }

        let mut challenges_sq: Vec<Scalar> = Vec::new();
        let mut neg_x_sq: Vec<Scalar> = Vec::new();
        let mut neg_x_inv_sq: Vec<Scalar> = Vec::new();
        let mut j: usize = 0;
        while j < lg_n
            invariant
                j <= lg_n,
                lg_n == challenges.len(),
                lg_n == inv_challenges.len(),
                challenges_sq.len() == j,
                neg_x_sq.len() == j,
                neg_x_inv_sq.len() == j,
                forall|k: int|
                    0 <= k < j ==> challenges_sq[k]@ == mul_mod(challenges[k]@, challenges[k]@),
                forall|k: int|
                    0 <= k < j ==> neg_x_sq[k]@ == neg_mod(
                        mul_mod(challenges[k]@, challenges[k]@),
                    ),
                forall|k: int|
                    0 <= k < j ==> neg_x_inv_sq[k]@ == neg_mod(
                        mul_mod(inv_challenges[k]@, inv_challenges[k]@),
                    ),
            decreases lg_n - j,
        {
            let x_sq = challenges[j].mul(&challenges[j]);
            let x_inv_sq = inv_challenges[j].mul(&inv_challenges[j]);
            challenges_sq.push(x_sq);
            neg_x_sq.push(x_sq.neg());
            neg_x_inv_sq.push(x_inv_sq.neg());
            j += 1;
        }
        proof {
            assert(scalar_values(challenges_sq@) =~= squares(x));
            assert(scalar_values(neg_x_sq@) =~= negations(squares(x)));
            assert(scalar_values(neg_x_inv_sq@) =~= negations(squares(inverses(x))));
        }

        let s = expansion_coefficients(&allinv, &challenges_sq, n);

        let mut a_times_s: Vec<Scalar> = Vec::new();
        let mut h_times_b_div_s: Vec<Scalar> = Vec::new();
        let mut i: usize = 0;
        while i < n
            invariant
                i <= n,
                n == s.len(),
                n == Hprime_factors.len(),
                a_times_s.len() == i,
                h_times_b_div_s.len() == i,
                forall|k: int| 0 <= k < i ==> a_times_s[k]@ == mul_mod(self.a@, s[k]@),
                forall|k: int|
                    0 <= k < i ==> h_times_b_div_s[k]@ == mul_mod(
                        mul_mod(self.b@, s[n - 1 - k]@),
                        Hprime_factors[k]@,
                    ),
            decreases n - i,
        {
            a_times_s.push(self.a.mul(&s[i]));
            // 1/s[i] is s[n-1-i], which runs from n-1 to 0 as i runs from 0 to n-1.
            h_times_b_div_s.push(self.b.mul(&s[n - 1 - i]).mul(&Hprime_factors[i]));
            i += 1;
        }
        proof {
            assert(scalar_values(a_times_s@) =~= g_coefficients(self.a@, x));
            assert(scalar_values(h_times_b_div_s@) =~= h_coefficients(
                self.b@,
                x,
                scalar_values(Hprime_factors@),
            ));
        }

        let mut scalars: Vec<Scalar> = Vec::new();
        scalars.push(self.a.mul(&self.b));
        append_all(&mut scalars, &a_times_s);
        append_all(&mut scalars, &h_times_b_div_s);
        append_all(&mut scalars, &neg_x_sq);
        append_all(&mut scalars, &neg_x_inv_sq);

        let mut points: Vec<Point> = Vec::new();
        points.push(*Q);
        append_all(&mut points, G_vec);
        append_all(&mut points, H_vec);
        append_all(&mut points, &self.L_vec);
        append_all(&mut points, &self.R_vec);

        proof {
            assert(scalar_values(scalars@) =~= verification_scalars(
                self@,
                x,
                scalar_values(Hprime_factors@),
            ));
            assert(point_encodings(points@) =~= verification_points(
                self@,
                Q@,
                point_encodings(G_vec@),
                point_encodings(H_vec@),
            ));
        }

        let expect_P = Point::multiscalar_mul(&scalars, &points);

        if expect_P.equals(P) {
            Ok(())
        } else {
            Err(())
        }
    }
}

} // verus!

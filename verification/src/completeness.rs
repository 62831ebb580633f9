//! Completeness of the argument, relative to a linear model of the group.
//!
//! The group operations are the outside crate's; this library only names
//! their results. What can be proved here is that prover and verifier fit
//! together for every group in which a multiscalar product is a linear
//! combination: given any assignment of "logarithms" to encodings under
//! which the named results are linear, an honest proof is accepted.
use vstd::prelude::*;
use vstd::arithmetic::power2::pow2;
use crate::congruence::combination;
use crate::congruence::congruent;
use crate::congruence::congruent_seq;
use crate::congruence::dot;
use crate::congruence::entrywise;
use crate::congruence::ints;
use crate::congruence::lemma_associate;
use crate::congruence::lemma_congruent_mod;
use crate::congruence::lemma_congruent_ops;
use crate::congruence::lemma_distribute3;
use crate::congruence::lemma_dot_bilinear;
use crate::congruence::lemma_dot_concat;
use crate::congruence::lemma_dot_congruent;
use crate::congruence::lemma_dot_entrywise;
use crate::congruence::lemma_dot_of_combination;
use crate::congruence::lemma_dot_pair;
use crate::congruence::lemma_dot_prepend;
use crate::congruence::lemma_dot_scaled;
use crate::congruence::lemma_dot_single;
use crate::congruence::lemma_inner_product_is_dot;
use crate::congruence::lemma_mul_mod_congruent;
use crate::congruence::lemma_neg_mod_congruent;
use crate::congruence::residue;
use crate::congruence::scaled;
use crate::inner_product_proof::FoldState;
use crate::inner_product_proof::ProofView;
use crate::inner_product_proof::accepts;
use crate::inner_product_proof::created;
use crate::inner_product_proof::cross_commitment;
use crate::inner_product_proof::expansion;
use crate::inner_product_proof::fold_all;
use crate::inner_product_proof::fold_round;
use crate::inner_product_proof::folded_points;
use crate::inner_product_proof::folded_scalars;
use crate::inner_product_proof::g_coefficients;
use crate::inner_product_proof::h_coefficients;
use crate::inner_product_proof::initial_state;
use crate::inner_product_proof::inverses;
use crate::inner_product_proof::is_power_of_two;
use crate::inner_product_proof::negations;
use crate::inner_product_proof::proof_of;
use crate::inner_product_proof::replay_challenges;
use crate::inner_product_proof::replay_transcript;
use crate::inner_product_proof::rescaled;
use crate::inner_product_proof::round_input;
use crate::inner_product_proof::squares;
use crate::inner_product_proof::verification_points;
use crate::inner_product_proof::verification_scalars;
use crate::inner_product_proof::well_formed_input;
use crate::inner_product_proof::well_shaped;
use crate::laws::lemma_expansion_step;
use crate::point::multiscalar_product;
use crate::point::scalar_multiple;
use crate::scalar::add_mod;
use crate::scalar::all_invertible;
use crate::scalar::group_order;
use crate::scalar::inner_product_mod;
use crate::scalar::inverse_mod;
use crate::scalar::is_inverse;
use crate::scalar::mul_mod;
use crate::transcript::challenge_of;

verus! {

/// The values that `d` assigns to the encodings `p`.
pub open spec fn logs(d: spec_fn(Seq<u8>) -> nat, p: Seq<Seq<u8>>) -> Seq<int> {
    Seq::new(p.len(), |i: int| d(p[i]) as int)
}

/// `d` is a linear model of the group: it assigns every encoding an integer
/// (the logarithm of the element to a fixed base, in a cyclic group) such
/// that a multiscalar product has the linear combination of the values of
/// its points, is determined by that combination modulo the group order, and
/// a scalar multiple has the multiple of the value of its point.
pub open spec fn linear_model(d: spec_fn(Seq<u8>) -> nat) -> bool {
    &&& forall|s: Seq<nat>, p: Seq<Seq<u8>>|
        s.len() == p.len() ==> congruent(
            d(#[trigger] multiscalar_product(s, p)) as int,
            dot(ints(s), logs(d, p)),
        )
    &&& forall|s1: Seq<nat>, p1: Seq<Seq<u8>>, s2: Seq<nat>, p2: Seq<Seq<u8>>|
        s1.len() == p1.len() && s2.len() == p2.len() && congruent(
            dot(ints(s1), logs(d, p1)),
            dot(ints(s2), logs(d, p2)),
        ) ==> #[trigger] multiscalar_product(s1, p1) == #[trigger] multiscalar_product(s2, p2)
    &&& forall|c: nat, a: Seq<u8>|
        congruent(d(#[trigger] scalar_multiple(c, a)) as int, (c * d(a)) as int)
}

/// The value of the commitment `<a, G> + <b, H> + <a, b> Q` that a prover
/// state stands for.
pub open spec fn committed(d: spec_fn(Seq<u8>) -> nat, s: FoldState, q: Seq<u8>) -> int {
    dot(ints(s.a), logs(d, s.g)) + dot(ints(s.b), logs(d, s.h)) + dot(ints(s.a), ints(s.b))
        * d(q)
}

/// The value of a cross-term commitment.
pub proof fn lemma_cross_commitment_value(
    d: spec_fn(Seq<u8>) -> nat,
    s1: Seq<nat>,
    s2: Seq<nat>,
    p1: Seq<Seq<u8>>,
    p2: Seq<Seq<u8>>,
    q: Seq<u8>,
)
    requires
        linear_model(d),
        s1.len() == s2.len(),
        s1.len() == p1.len(),
        s1.len() == p2.len(),
    ensures
        congruent(
            d(cross_commitment(s1, s2, p1, p2, q)) as int,
            dot(ints(s1), logs(d, p1)) + dot(ints(s2), logs(d, p2)) + dot(ints(s1), ints(s2)) * d(
                q,
            ),
        ),
{
    let c = inner_product_mod(s1, s2);
    let scalars = s1 + s2 + seq![c];
    let points = p1 + p2 + seq![q];
    assert(congruent(
        d(multiscalar_product(scalars, points)) as int,
        dot(ints(scalars), logs(d, points)),
    ));
    assert(ints(scalars) =~= ints(s1) + ints(s2) + seq![c as int]);
    assert(logs(d, points) =~= logs(d, p1) + logs(d, p2) + seq![d(q) as int]);
    lemma_dot_concat(
        ints(s1) + ints(s2),
        seq![c as int],
        logs(d, p1) + logs(d, p2),
        seq![d(q) as int],
    );
    lemma_dot_concat(ints(s1), ints(s2), logs(d, p1), logs(d, p2));
    lemma_dot_single(c as int, d(q) as int);
    lemma_inner_product_is_dot(s1, s2);
    let dq = d(q) as int;
    lemma_congruent_ops(c as int, dot(ints(s1), ints(s2)), dq, dq);
    let base = dot(ints(s1), logs(d, p1)) + dot(ints(s2), logs(d, p2));
    lemma_congruent_ops(base, base, c * dq, dot(ints(s1), ints(s2)) * dq);
    // chain: d(..) ~ base + c * dq ~ base + dot * dq
    assert(dot(ints(scalars), logs(d, points)) == base + c * dq);
}

/// A folded scalar vector is, entry by entry, congruent to the combination
/// of its halves.
pub proof fn lemma_folded_scalars_value(lo: Seq<nat>, hi: Seq<nat>, x: nat, y: nat)
    requires
        lo.len() == hi.len(),
    ensures
        congruent_seq(
            ints(folded_scalars(lo, hi, x, y)),
            combination(x as int, ints(lo), y as int, ints(hi)),
        ),
{
    let folded = ints(folded_scalars(lo, hi, x, y));
    let target = combination(x as int, ints(lo), y as int, ints(hi));
    assert forall|i: int| 0 <= i < folded.len() implies congruent(
        #[trigger] folded[i],
        target[i],
    ) by {
        let (a, b, xi, yi) = (lo[i] as int, hi[i] as int, x as int, y as int);
        lemma_congruent_mod(a * xi);
        lemma_congruent_mod(yi * b);
        let m = group_order() as int;
        lemma_congruent_ops((a * xi) % m, a * xi, (yi * b) % m, yi * b);
        lemma_congruent_mod((mul_mod(lo[i], x) + mul_mod(y, hi[i])) as int);
        assert(a * xi == xi * a) by (nonlinear_arith);
        assert(folded[i] == add_mod(mul_mod(lo[i], x), mul_mod(y, hi[i])));
        assert(target[i] == xi * a + yi * b);
    }
}

/// The values of a folded point vector are, entry by entry, congruent to the
/// combination of the values of its halves.
pub proof fn lemma_folded_points_value(
    d: spec_fn(Seq<u8>) -> nat,
    lo: Seq<Seq<u8>>,
    hi: Seq<Seq<u8>>,
    x: nat,
    y: nat,
)
    requires
        linear_model(d),
        lo.len() == hi.len(),
    ensures
        congruent_seq(
            logs(d, folded_points(lo, hi, x, y)),
            combination(x as int, logs(d, lo), y as int, logs(d, hi)),
        ),
{
    let folded = logs(d, folded_points(lo, hi, x, y));
    let target = combination(x as int, logs(d, lo), y as int, logs(d, hi));
    assert forall|i: int| 0 <= i < folded.len() implies congruent(
        #[trigger] folded[i],
        target[i],
    ) by {
        let scalars = seq![x, y];
        let points = seq![lo[i], hi[i]];
        assert(folded[i] == d(multiscalar_product(scalars, points)));
        assert(congruent(
            d(multiscalar_product(scalars, points)) as int,
            dot(ints(scalars), logs(d, points)),
        ));
        assert(ints(scalars) =~= seq![x as int, y as int]);
        assert(logs(d, points) =~= seq![d(lo[i]) as int, d(hi[i]) as int]);
        lemma_dot_pair(x as int, y as int, d(lo[i]) as int, d(hi[i]) as int);
    }
}

/// The commitment `L` of the round that starts in `s`.
pub open spec fn round_l(s: FoldState, q: Seq<u8>) -> Seq<u8> {
    let n = s.a.len() as int;
    cross_commitment(
        s.a.subrange(0, n / 2),
        s.b.subrange(n / 2, n),
        s.g.subrange(n / 2, n),
        s.h.subrange(0, n / 2),
        q,
    )
}

/// The commitment `R` of the round that starts in `s`.
pub open spec fn round_r(s: FoldState, q: Seq<u8>) -> Seq<u8> {
    let n = s.a.len() as int;
    cross_commitment(
        s.a.subrange(n / 2, n),
        s.b.subrange(0, n / 2),
        s.g.subrange(0, n / 2),
        s.h.subrange(n / 2, n),
        q,
    )
}

/// The challenge of the round that starts in `s`.
pub open spec fn round_challenge(s: FoldState, q: Seq<u8>) -> nat {
    challenge_of(round_input(s.transcript, round_l(s, q), round_r(s, q)))
}

/// A round changes the value of the commitment by the cross terms:
/// `C' = C + x^2 * L + x^-2 * R`, where the challenge `x` is invertible.
pub proof fn lemma_round_value(d: spec_fn(Seq<u8>) -> nat, s: FoldState, q: Seq<u8>)
    requires
        linear_model(d),
        s.a.len() >= 2,
        s.a.len() % 2 == 0,
        s.b.len() == s.a.len(),
        s.g.len() == s.a.len(),
        s.h.len() == s.a.len(),
        is_inverse(round_challenge(s, q), inverse_mod(round_challenge(s, q))),
    ensures
        congruent(
            committed(d, fold_round(s, q), q),
            committed(d, s, q) + (round_challenge(s, q) * round_challenge(s, q)) * d(
                round_l(s, q),
            ) + (inverse_mod(round_challenge(s, q)) * inverse_mod(round_challenge(s, q))) * d(
                round_r(s, q),
            ),
        ),
{
    reveal(residue);
    let n = s.a.len() as int;
    let m = n / 2;
    let (a_lo, a_hi) = (s.a.subrange(0, m), s.a.subrange(m, n));
    let (b_lo, b_hi) = (s.b.subrange(0, m), s.b.subrange(m, n));
    let (g_lo, g_hi) = (s.g.subrange(0, m), s.g.subrange(m, n));
    let (h_lo, h_hi) = (s.h.subrange(0, m), s.h.subrange(m, n));
    let l = round_l(s, q);
    let r = round_r(s, q);
    let x = round_challenge(s, q);
    let y = inverse_mod(x);
    let s2 = fold_round(s, q);
    assert(s2.a == folded_scalars(a_lo, a_hi, x, y));
    assert(s2.b == folded_scalars(b_lo, b_hi, y, x));
    assert(s2.g == folded_points(g_lo, g_hi, y, x));
    assert(s2.h == folded_points(h_lo, h_hi, x, y));

    let (xi, yi, dq) = (x as int, y as int, d(q) as int);
    let (al, ah, bl, bh) = (ints(a_lo), ints(a_hi), ints(b_lo), ints(b_hi));
    let (gl, gh, hl, hh) = (logs(d, g_lo), logs(d, g_hi), logs(d, h_lo), logs(d, h_hi));

    // the halves of the state before the round
    assert(ints(s.a) =~= al + ah);
    assert(ints(s.b) =~= bl + bh);
    assert(logs(d, s.g) =~= gl + gh);
    assert(logs(d, s.h) =~= hl + hh);
    lemma_dot_concat(al, ah, gl, gh);
    lemma_dot_concat(bl, bh, hl, hh);
    lemma_dot_concat(al, ah, bl, bh);
    let (ag_ll, ag_lh, ag_hl, ag_hh) = (dot(al, gl), dot(al, gh), dot(ah, gl), dot(ah, gh));
    let (bh_ll, bh_lh, bh_hl, bh_hh) = (dot(bl, hl), dot(bl, hh), dot(bh, hl), dot(bh, hh));
    let (ab_ll, ab_lh, ab_hl, ab_hh) = (dot(al, bl), dot(al, bh), dot(ah, bl), dot(ah, bh));
    let c = committed(d, s, q);
    assert(c == (ag_ll + ag_hh) + (bh_ll + bh_hh) + (ab_ll + ab_hh) * dq);

    // the state after the round
    lemma_folded_scalars_value(a_lo, a_hi, x, y);
    lemma_folded_scalars_value(b_lo, b_hi, y, x);
    lemma_folded_points_value(d, g_lo, g_hi, y, x);
    lemma_folded_points_value(d, h_lo, h_hi, x, y);
    let a2 = combination(xi, al, yi, ah);
    let b2 = combination(yi, bl, xi, bh);
    let g2 = combination(yi, gl, xi, gh);
    let h2 = combination(xi, hl, yi, hh);
    lemma_dot_congruent(ints(s2.a), a2, logs(d, s2.g), g2);
    lemma_dot_congruent(ints(s2.b), b2, logs(d, s2.h), h2);
    lemma_dot_congruent(ints(s2.a), a2, ints(s2.b), b2);
    lemma_dot_bilinear(xi, al, yi, ah, yi, gl, xi, gh);
    lemma_dot_bilinear(yi, bl, xi, bh, xi, hl, yi, hh);
    lemma_dot_bilinear(xi, al, yi, ah, yi, bl, xi, bh);
    let one = xi * yi;
    let xx = xi * xi;
    let yy = yi * yi;
    assert(yi * xi == one) by (nonlinear_arith)
        requires
            one == xi * yi,
    ;
    let t_ag = one * ag_ll + xx * ag_lh + yy * ag_hl + one * ag_hh;
    let t_bh = one * bh_ll + yy * bh_lh + xx * bh_hl + one * bh_hh;
    let t_ab = one * ab_ll + xx * ab_lh + yy * ab_hl + one * ab_hh;
    assert(dot(a2, g2) == t_ag);
    assert(dot(b2, h2) == t_bh);
    assert(dot(a2, b2) == t_ab);
    lemma_congruent_ops(dot(ints(s2.a), ints(s2.b)), t_ab, dq, dq);
    lemma_congruent_ops(dot(ints(s2.a), logs(d, s2.g)), t_ag, dot(ints(s2.b), logs(d, s2.h)), t_bh);
    lemma_congruent_ops(
        dot(ints(s2.a), logs(d, s2.g)) + dot(ints(s2.b), logs(d, s2.h)),
        t_ag + t_bh,
        dot(ints(s2.a), ints(s2.b)) * dq,
        t_ab * dq,
    );
    let c2 = committed(d, s2, q);
    assert(congruent(c2, t_ag + t_bh + t_ab * dq));

    // the cross terms
    lemma_cross_commitment_value(d, a_lo, b_hi, g_hi, h_lo, q);
    lemma_cross_commitment_value(d, a_hi, b_lo, g_lo, h_hi, q);
    let lam = ag_lh + bh_hl + ab_lh * dq;
    let rho = ag_hl + bh_lh + ab_hl * dq;
    assert(congruent(d(l) as int, lam));
    assert(congruent(d(r) as int, rho));

    // t_ag + t_bh + t_ab * dq == one * c + xx * lam + yy * rho
    assert(t_ab * dq == (one * ab_ll) * dq + (xx * ab_lh) * dq + (yy * ab_hl) * dq + (one * ab_hh)
        * dq) by (nonlinear_arith)
        requires
            t_ab == one * ab_ll + xx * ab_lh + yy * ab_hl + one * ab_hh,
    ;
    lemma_associate(one, ab_ll, dq);
    lemma_associate(xx, ab_lh, dq);
    lemma_associate(yy, ab_hl, dq);
    lemma_associate(one, ab_hh, dq);
    lemma_distribute3(one, ag_ll + ag_hh, bh_ll + bh_hh, (ab_ll + ab_hh) * dq);
    assert(one * (ag_ll + ag_hh) == one * ag_ll + one * ag_hh) by (nonlinear_arith);
    assert(one * (bh_ll + bh_hh) == one * bh_ll + one * bh_hh) by (nonlinear_arith);
    assert((ab_ll + ab_hh) * dq == ab_ll * dq + ab_hh * dq) by (nonlinear_arith);
    assert(one * (ab_ll * dq + ab_hh * dq) == one * (ab_ll * dq) + one * (ab_hh * dq))
        by (nonlinear_arith);
    lemma_distribute3(xx, ag_lh, bh_hl, ab_lh * dq);
    lemma_distribute3(yy, ag_hl, bh_lh, ab_hl * dq);
    assert(t_ag + t_bh + t_ab * dq == one * c + xx * lam + yy * rho);

    // one ~ 1, lam ~ d(l), rho ~ d(r)
    assert(congruent(one, 1)) by {
        assert((x * y) % group_order() == 1);
        assert(1int % (group_order() as int) == 1);
    }
    lemma_congruent_ops(one, 1, c, c);
    lemma_congruent_ops(xx, xx, lam, d(l) as int);
    lemma_congruent_ops(yy, yy, rho, d(r) as int);
    lemma_congruent_ops(one * c, 1 * c, xx * lam, xx * d(l));
    lemma_congruent_ops(one * c + xx * lam, 1 * c + xx * d(l), yy * rho, yy * d(r));
    assert(1 * c == c);
}

/// The challenges of the rounds that remain in state `s`, in their order.
pub open spec fn fold_challenges(s: FoldState, q: Seq<u8>) -> Seq<nat>
    decreases s.a.len(),
{
    if s.a.len() <= 1 {
        Seq::empty()
    } else {
        seq![round_challenge(s, q)] + fold_challenges(fold_round(s, q), q)
    }
}

/// The commitments `L` of the rounds that remain in state `s`.
pub open spec fn fold_ls(s: FoldState, q: Seq<u8>) -> Seq<Seq<u8>>
    decreases s.a.len(),
{
    if s.a.len() <= 1 {
        Seq::empty()
    } else {
        seq![round_l(s, q)] + fold_ls(fold_round(s, q), q)
    }
}

/// The commitments `R` of the rounds that remain in state `s`.
pub open spec fn fold_rs(s: FoldState, q: Seq<u8>) -> Seq<Seq<u8>>
    decreases s.a.len(),
{
    if s.a.len() <= 1 {
        Seq::empty()
    } else {
        seq![round_r(s, q)] + fold_rs(fold_round(s, q), q)
    }
}

/// The expansion coefficients `s_0, .., s_{n-1}`.
pub open spec fn expansions(x: Seq<nat>) -> Seq<int> {
    Seq::new(pow2(x.len()), |i: int| expansion(x, i as nat) as int)
}

/// The expansion coefficients in reverse, `s_{n-1}, .., s_0`.
pub open spec fn expansions_reversed(x: Seq<nat>) -> Seq<int> {
    Seq::new(pow2(x.len()), |i: int| expansion(x, (pow2(x.len()) - 1 - i) as nat) as int)
}

/// The value of the verifier's linear combination: `a b Q + a <s, G> +
/// b <1/s, H> - sum x_j^2 L_j - sum x_j^-2 R_j`.
pub open spec fn verifier_value(
    a: int,
    b: int,
    x: Seq<nat>,
    g: Seq<int>,
    h: Seq<int>,
    l: Seq<int>,
    r: Seq<int>,
    q: int,
) -> int {
    (a * b) * q + a * dot(expansions(x), g) + b * dot(expansions_reversed(x), h) - dot(
        ints(squares(x)),
        l,
    ) - dot(ints(squares(inverses(x))), r)
}

/// What the first challenge does to the coefficients of the generators:
/// `<s, G> == <s', (1/x) G_lo + x G_hi>` and `<1/s, H> == <1/s', x H_lo +
/// (1/x) H_hi>`, where `s'` belongs to the later challenges.
pub proof fn lemma_expansions_step(x: Seq<nat>, g: Seq<int>, h: Seq<int>)
    requires
        all_invertible(x),
        x.len() > 0,
        g.len() == pow2(x.len()),
        h.len() == pow2(x.len()),
    ensures
        congruent(
            dot(expansions(x), g),
            dot(
                expansions(x.drop_first()),
                combination(
                    inverse_mod(x[0]) as int,
                    g.subrange(0, pow2((x.len() - 1) as nat) as int),
                    x[0] as int,
                    g.subrange(pow2((x.len() - 1) as nat) as int, g.len() as int),
                ),
            ),
        ),
        congruent(
            dot(expansions_reversed(x), h),
            dot(
                expansions_reversed(x.drop_first()),
                combination(
                    x[0] as int,
                    h.subrange(0, pow2((x.len() - 1) as nat) as int),
                    inverse_mod(x[0]) as int,
                    h.subrange(pow2((x.len() - 1) as nat) as int, h.len() as int),
                ),
            ),
        ),
{
    let n = pow2(x.len()) as int;
    let half = pow2((x.len() - 1) as nat) as int;
    vstd::arithmetic::power2::lemma_pow2_unfold(x.len());
    vstd::arithmetic::power2::lemma_pow2_pos((x.len() - 1) as nat);
    let later = x.drop_first();
    let (xi, yi) = (x[0] as int, inverse_mod(x[0]) as int);
    let (g_lo, g_hi) = (g.subrange(0, half), g.subrange(half, n));
    let (h_lo, h_hi) = (h.subrange(0, half), h.subrange(half, n));
    let e = expansions(x);
    let er = expansions_reversed(x);
    let e2 = expansions(later);
    let er2 = expansions_reversed(later);
    let (e_lo, e_hi) = (e.subrange(0, half), e.subrange(half, n));
    let (er_lo, er_hi) = (er.subrange(0, half), er.subrange(half, n));
    assert(e =~= e_lo + e_hi);
    assert(er =~= er_lo + er_hi);
    assert(g =~= g_lo + g_hi);
    assert(h =~= h_lo + h_hi);
    lemma_dot_concat(e_lo, e_hi, g_lo, g_hi);
    lemma_dot_concat(er_lo, er_hi, h_lo, h_hi);

    assert(congruent_seq(e_lo, scaled(yi, e2))) by {
        assert forall|i: int| 0 <= i < half implies congruent(
            #[trigger] e_lo[i],
            scaled(yi, e2)[i],
        ) by {
            lemma_expansion_step(x, i as nat);
            lemma_congruent_mod(yi * e2[i]);
        }
    }
    assert(congruent_seq(e_hi, scaled(xi, e2))) by {
        assert forall|i: int| 0 <= i < half implies congruent(
            #[trigger] e_hi[i],
            scaled(xi, e2)[i],
        ) by {
            lemma_expansion_step(x, (i + half) as nat);
            lemma_congruent_mod(xi * e2[i]);
        }
    }
    assert(congruent_seq(er_lo, scaled(xi, er2))) by {
        assert forall|i: int| 0 <= i < half implies congruent(
            #[trigger] er_lo[i],
            scaled(xi, er2)[i],
        ) by {
            lemma_expansion_step(x, (n - 1 - i) as nat);
            lemma_congruent_mod(xi * er2[i]);
        }
    }
    assert(congruent_seq(er_hi, scaled(yi, er2))) by {
        assert forall|i: int| 0 <= i < half implies congruent(
            #[trigger] er_hi[i],
            scaled(yi, er2)[i],
        ) by {
            lemma_expansion_step(x, (half - 1 - i) as nat);
            lemma_congruent_mod(yi * er2[i]);
        }
    }
    assert(congruent_seq(g_lo, g_lo));
    assert(congruent_seq(g_hi, g_hi));
    assert(congruent_seq(h_lo, h_lo));
    assert(congruent_seq(h_hi, h_hi));
    lemma_dot_congruent(e_lo, scaled(yi, e2), g_lo, g_lo);
    lemma_dot_congruent(e_hi, scaled(xi, e2), g_hi, g_hi);
    lemma_dot_congruent(er_lo, scaled(xi, er2), h_lo, h_lo);
    lemma_dot_congruent(er_hi, scaled(yi, er2), h_hi, h_hi);
    lemma_dot_scaled(yi, e2, g_lo);
    lemma_dot_scaled(xi, e2, g_hi);
    lemma_dot_scaled(xi, er2, h_lo);
    lemma_dot_scaled(yi, er2, h_hi);
    lemma_dot_of_combination(e2, yi, g_lo, xi, g_hi);
    lemma_dot_of_combination(er2, xi, h_lo, yi, h_hi);
    lemma_congruent_ops(
        dot(e_lo, g_lo),
        yi * dot(e2, g_lo),
        dot(e_hi, g_hi),
        xi * dot(e2, g_hi),
    );
    lemma_congruent_ops(
        dot(er_lo, h_lo),
        xi * dot(er2, h_lo),
        dot(er_hi, h_hi),
        yi * dot(er2, h_hi),
    );
}

/// The verifier's linear combination where no round remains.
proof fn lemma_fold_value_base(d: spec_fn(Seq<u8>) -> nat, s: FoldState, q: Seq<u8>)
    requires
        s.a.len() == 1,
        s.b.len() == 1,
        s.g.len() == 1,
        s.h.len() == 1,
    ensures
        verifier_value(
            s.a[0] as int,
            s.b[0] as int,
            fold_challenges(s, q),
            logs(d, s.g),
            logs(d, s.h),
            logs(d, fold_ls(s, q)),
            logs(d, fold_rs(s, q)),
            d(q) as int,
        ) == committed(d, s, q),
{
    let xs = fold_challenges(s, q);
    let (gs, hs) = (logs(d, s.g), logs(d, s.h));
    vstd::arithmetic::power2::lemma2_to64();
    let (a0, b0, g0, h0) = (s.a[0] as int, s.b[0] as int, d(s.g[0]) as int, d(s.h[0]) as int);
    assert(xs.len() == 0);
    assert(inverses(xs).len() == 0);
    assert(squares(xs).len() == 0);
    assert(expansion(xs, 0) == 1);
    assert(expansions(xs) =~= seq![1int]);
    assert(expansions_reversed(xs) =~= seq![1int]);
    assert(gs =~= seq![g0]);
    assert(hs =~= seq![h0]);
    assert(ints(s.a) =~= seq![a0]);
    assert(ints(s.b) =~= seq![b0]);
    lemma_dot_single(1, g0);
    lemma_dot_single(1, h0);
    lemma_dot_single(a0, g0);
    lemma_dot_single(b0, h0);
    lemma_dot_single(a0, b0);
    assert(ints(squares(xs)).len() == 0);
    assert(ints(squares(inverses(xs))).len() == 0);
    assert(dot(ints(squares(xs)), logs(d, fold_ls(s, q))) == 0);
    assert(dot(ints(squares(inverses(xs))), logs(d, fold_rs(s, q))) == 0);
}

/// What a round does to the generators' part of the verifier's linear
/// combination: nothing, up to congruence.
proof fn lemma_fold_value_generators(d: spec_fn(Seq<u8>) -> nat, s: FoldState, q: Seq<u8>)
    requires
        linear_model(d),
        s.a.len() >= 2,
        s.g.len() == s.a.len(),
        s.h.len() == s.a.len(),
        all_invertible(fold_challenges(s, q)),
        pow2(fold_challenges(s, q).len()) == s.a.len(),
    ensures
        congruent(
            dot(expansions(fold_challenges(s, q)), logs(d, s.g)),
            dot(expansions(fold_challenges(fold_round(s, q), q)), logs(d, fold_round(s, q).g)),
        ),
        congruent(
            dot(expansions_reversed(fold_challenges(s, q)), logs(d, s.h)),
            dot(
                expansions_reversed(fold_challenges(fold_round(s, q), q)),
                logs(d, fold_round(s, q).h),
            ),
        ),
{
    let xs = fold_challenges(s, q);
    let (gs, hs) = (logs(d, s.g), logs(d, s.h));
    let n = s.a.len() as int;
    let s2 = fold_round(s, q);
    let xs2 = fold_challenges(s2, q);
    let x = round_challenge(s, q);
    let y = inverse_mod(x);
    let (xi, yi) = (x as int, y as int);
    assert(xs =~= seq![x] + xs2);
    assert(xs[0] == x);
    assert(xs.drop_first() =~= xs2);
    vstd::arithmetic::power2::lemma_pow2_unfold(xs.len());
    let half = pow2((xs.len() - 1) as nat) as int;
    assert(n == 2 * half);
    assert(half == n / 2);
    let (g_lo, g_hi) = (s.g.subrange(0, half), s.g.subrange(half, n));
    let (h_lo, h_hi) = (s.h.subrange(0, half), s.h.subrange(half, n));
    lemma_expansions_step(xs, gs, hs);
    assert(gs.subrange(0, half) =~= logs(d, g_lo));
    assert(gs.subrange(half, n) =~= logs(d, g_hi));
    assert(hs.subrange(0, half) =~= logs(d, h_lo));
    assert(hs.subrange(half, n) =~= logs(d, h_hi));
    let g_comb = combination(yi, logs(d, g_lo), xi, logs(d, g_hi));
    let h_comb = combination(xi, logs(d, h_lo), yi, logs(d, h_hi));
    lemma_folded_points_value(d, g_lo, g_hi, y, x);
    lemma_folded_points_value(d, h_lo, h_hi, x, y);
    assert(s2.g == folded_points(g_lo, g_hi, y, x));
    assert(s2.h == folded_points(h_lo, h_hi, x, y));
    let (e2, er2) = (expansions(xs2), expansions_reversed(xs2));
    assert(congruent_seq(e2, e2));
    assert(congruent_seq(er2, er2));
    assert(e2.len() == half) by {
        assert(xs2.len() == xs.len() - 1);
    }
    lemma_dot_congruent(e2, e2, logs(d, s2.g), g_comb);
    lemma_dot_congruent(er2, er2, logs(d, s2.h), h_comb);
}

/// The cross terms' part of the verifier's linear combination, with the
/// first round apart.
proof fn lemma_fold_value_cross_terms(d: spec_fn(Seq<u8>) -> nat, s: FoldState, q: Seq<u8>)
    requires
        s.a.len() >= 2,
        fold_ls(fold_round(s, q), q).len() == fold_challenges(fold_round(s, q), q).len(),
        fold_rs(fold_round(s, q), q).len() == fold_challenges(fold_round(s, q), q).len(),
    ensures
        dot(ints(squares(fold_challenges(s, q))), logs(d, fold_ls(s, q))) == mul_mod(
            round_challenge(s, q),
            round_challenge(s, q),
        ) * d(round_l(s, q)) + dot(
            ints(squares(fold_challenges(fold_round(s, q), q))),
            logs(d, fold_ls(fold_round(s, q), q)),
        ),
        dot(ints(squares(inverses(fold_challenges(s, q)))), logs(d, fold_rs(s, q))) == mul_mod(
            inverse_mod(round_challenge(s, q)),
            inverse_mod(round_challenge(s, q)),
        ) * d(round_r(s, q)) + dot(
            ints(squares(inverses(fold_challenges(fold_round(s, q), q)))),
            logs(d, fold_rs(fold_round(s, q), q)),
        ),
{
    let xs = fold_challenges(s, q);
    let s2 = fold_round(s, q);
    let xs2 = fold_challenges(s2, q);
    let x = round_challenge(s, q);
    let y = inverse_mod(x);
    let (dl, dr) = (d(round_l(s, q)) as int, d(round_r(s, q)) as int);
    assert(xs =~= seq![x] + xs2);
    let (ls2, rs2) = (logs(d, fold_ls(s2, q)), logs(d, fold_rs(s2, q)));
    let (sq2, isq2) = (ints(squares(xs2)), ints(squares(inverses(xs2))));
    let (sqx, sqy) = (mul_mod(x, x) as int, mul_mod(y, y) as int);
    assert(ints(squares(xs)) =~= seq![sqx] + sq2);
    assert(inverses(xs) =~= seq![y] + inverses(xs2));
    assert(ints(squares(inverses(xs))) =~= seq![sqy] + isq2);
    assert(logs(d, fold_ls(s, q)) =~= seq![dl] + ls2);
    assert(logs(d, fold_rs(s, q)) =~= seq![dr] + rs2);
    lemma_dot_prepend(sqx, sq2, dl, ls2);
    lemma_dot_prepend(sqy, isq2, dr, rs2);
}

/// The arithmetic of one step: where the generators' parts agree and the
/// commitment changes by the cross terms, the verifier's value before the
/// round is the commitment before the round.
proof fn lemma_fold_value_arithmetic(
    head: int,
    head2: int,
    sqx: int,
    sqy: int,
    xx: int,
    yy: int,
    dl: int,
    dr: int,
    t_l: int,
    t_r: int,
    c: int,
    c2: int,
)
    requires
        congruent(head, head2),
        congruent(sqx, xx),
        congruent(sqy, yy),
        congruent(head2 - t_l - t_r, c2),
        congruent(c2, c + xx * dl + yy * dr),
    ensures
        congruent(head - (sqx * dl + t_l) - (sqy * dr + t_r), c),
{
    lemma_congruent_ops(sqx, xx, dl, dl);
    lemma_congruent_ops(sqy, yy, dr, dr);
    lemma_congruent_ops(sqx * dl, xx * dl, sqy * dr, yy * dr);
    let cross = sqx * dl + sqy * dr;
    let cross2 = xx * dl + yy * dr;
    lemma_congruent_ops(head2 - t_l - t_r, c + cross2, cross, cross2);
    assert(c + cross2 - cross2 == c);
    lemma_congruent_ops(head, head2, t_l + t_r + cross, t_l + t_r + cross);
    assert(head - (t_l + t_r + cross) == head - (sqx * dl + t_l) - (sqy * dr + t_r));
    assert(head2 - (t_l + t_r + cross) == head2 - t_l - t_r - cross);
}

/// One step of the induction over the rounds: where the verifier's value
/// after the round is the commitment after the round, the verifier's value
/// before the round is the commitment before it.
proof fn lemma_fold_value_step(
    d: spec_fn(Seq<u8>) -> nat,
    s: FoldState,
    q: Seq<u8>,
    af: int,
    bf: int,
)
    requires
        s.a.len() >= 2,
        fold_ls(fold_round(s, q), q).len() == fold_challenges(fold_round(s, q), q).len(),
        fold_rs(fold_round(s, q), q).len() == fold_challenges(fold_round(s, q), q).len(),
        congruent(
            verifier_value(
                af,
                bf,
                fold_challenges(fold_round(s, q), q),
                logs(d, fold_round(s, q).g),
                logs(d, fold_round(s, q).h),
                logs(d, fold_ls(fold_round(s, q), q)),
                logs(d, fold_rs(fold_round(s, q), q)),
                d(q) as int,
            ),
            committed(d, fold_round(s, q), q),
        ),
        congruent(
            committed(d, fold_round(s, q), q),
            committed(d, s, q) + (round_challenge(s, q) * round_challenge(s, q)) * d(
                round_l(s, q),
            ) + (inverse_mod(round_challenge(s, q)) * inverse_mod(round_challenge(s, q))) * d(
                round_r(s, q),
            ),
        ),
        congruent(
            dot(expansions(fold_challenges(s, q)), logs(d, s.g)),
            dot(expansions(fold_challenges(fold_round(s, q), q)), logs(d, fold_round(s, q).g)),
        ),
        congruent(
            dot(expansions_reversed(fold_challenges(s, q)), logs(d, s.h)),
            dot(
                expansions_reversed(fold_challenges(fold_round(s, q), q)),
                logs(d, fold_round(s, q).h),
            ),
        ),
    ensures
        congruent(
            verifier_value(
                af,
                bf,
                fold_challenges(s, q),
                logs(d, s.g),
                logs(d, s.h),
                logs(d, fold_ls(s, q)),
                logs(d, fold_rs(s, q)),
                d(q) as int,
            ),
            committed(d, s, q),
        ),
{
    let xs = fold_challenges(s, q);
    let s2 = fold_round(s, q);
    let xs2 = fold_challenges(s2, q);
    let x = round_challenge(s, q);
    let y = inverse_mod(x);
    let (xi, yi, dq) = (x as int, y as int, d(q) as int);
    let (dl, dr) = (d(round_l(s, q)) as int, d(round_r(s, q)) as int);
    lemma_fold_value_cross_terms(d, s, q);
    lemma_mul_mod_congruent(x, x);
    lemma_mul_mod_congruent(y, y);
    let (de, der) = (dot(expansions(xs), logs(d, s.g)), dot(expansions_reversed(xs), logs(d, s.h)));
    let (de2, der2) = (
        dot(expansions(xs2), logs(d, s2.g)),
        dot(expansions_reversed(xs2), logs(d, s2.h)),
    );
    let t_l = dot(ints(squares(xs2)), logs(d, fold_ls(s2, q)));
    let t_r = dot(ints(squares(inverses(xs2))), logs(d, fold_rs(s2, q)));
    lemma_congruent_ops(af, af, de, de2);
    lemma_congruent_ops(bf, bf, der, der2);
    lemma_congruent_ops((af * bf) * dq, (af * bf) * dq, af * de, af * de2);
    lemma_congruent_ops((af * bf) * dq + af * de, (af * bf) * dq + af * de2, bf * der, bf * der2);
    lemma_fold_value_arithmetic(
        (af * bf) * dq + af * de + bf * der,
        (af * bf) * dq + af * de2 + bf * der2,
        mul_mod(x, x) as int,
        mul_mod(y, y) as int,
        xi * xi,
        yi * yi,
        dl,
        dr,
        t_l,
        t_r,
        committed(d, s, q),
        committed(d, s2, q),
    );
}

/// The challenges that remain after a round are invertible where all that
/// remain before it are, and so is the challenge of the round.
proof fn lemma_fold_challenges_invertible(s: FoldState, q: Seq<u8>)
    requires
        s.a.len() >= 2,
        all_invertible(fold_challenges(s, q)),
    ensures
        all_invertible(fold_challenges(fold_round(s, q), q)),
        is_inverse(round_challenge(s, q), inverse_mod(round_challenge(s, q))),
        fold_challenges(s, q).len() == fold_challenges(fold_round(s, q), q).len() + 1,
{
    let xs = fold_challenges(s, q);
    let xs2 = fold_challenges(fold_round(s, q), q);
    assert(xs =~= seq![round_challenge(s, q)] + xs2);
    assert(xs[0] == round_challenge(s, q));
    assert forall|j: int| 0 <= j < xs2.len() implies is_inverse(
        #[trigger] xs2[j],
        inverse_mod(xs2[j]),
    ) by {
        assert(xs2[j] == xs[j + 1]);
    }
}

/// Through all the rounds that remain, the verifier's linear combination
/// keeps the value of the commitment that the prover state stands for.
pub proof fn lemma_fold_value(d: spec_fn(Seq<u8>) -> nat, s: FoldState, q: Seq<u8>)
    requires
        linear_model(d),
        is_power_of_two(s.a.len()),
        s.b.len() == s.a.len(),
        s.g.len() == s.a.len(),
        s.h.len() == s.a.len(),
        all_invertible(fold_challenges(s, q)),
    ensures
        pow2(fold_challenges(s, q).len()) == s.a.len(),
        fold_ls(s, q).len() == fold_challenges(s, q).len(),
        fold_rs(s, q).len() == fold_challenges(s, q).len(),
        fold_all(s, q).a.len() == 1,
        fold_all(s, q).b.len() == 1,
        congruent(
            verifier_value(
                fold_all(s, q).a[0] as int,
                fold_all(s, q).b[0] as int,
                fold_challenges(s, q),
                logs(d, s.g),
                logs(d, s.h),
                logs(d, fold_ls(s, q)),
                logs(d, fold_rs(s, q)),
                d(q) as int,
            ),
            committed(d, s, q),
        ),
    decreases s.a.len(),
{
    if s.a.len() == 1 {
        vstd::arithmetic::power2::lemma2_to64();
        lemma_fold_value_base(d, s, q);
    } else {
        let s2 = fold_round(s, q);
        lemma_fold_challenges_invertible(s, q);
        lemma_fold_value(d, s2, q);
        vstd::arithmetic::power2::lemma_pow2_unfold(fold_challenges(s, q).len());
        lemma_round_value(d, s, q);
        lemma_fold_value_generators(d, s, q);
        lemma_fold_value_step(
            d,
            s,
            q,
            fold_all(s2, q).a[0] as int,
            fold_all(s2, q).b[0] as int,
        );
    }
}

/// The proof records the rounds of the prover, and a replay of it draws the
/// prover's challenges.
pub proof fn lemma_fold_trace(start: Seq<u8>, s: FoldState, q: Seq<u8>)
    requires
        s.l_vec.len() == s.r_vec.len(),
        s.transcript == replay_transcript(start, s.l_vec, s.r_vec),
    ensures
        fold_all(s, q).l_vec == s.l_vec + fold_ls(s, q),
        fold_all(s, q).r_vec == s.r_vec + fold_rs(s, q),
        replay_challenges(start, fold_all(s, q).l_vec, fold_all(s, q).r_vec) == replay_challenges(
            start,
            s.l_vec,
            s.r_vec,
        ) + fold_challenges(s, q),
    decreases s.a.len(),
{
    if s.a.len() > 1 {
        let next = fold_round(s, q);
        assert(next.l_vec.drop_last() =~= s.l_vec);
        assert(next.r_vec.drop_last() =~= s.r_vec);
        assert(next.l_vec.last() == round_l(s, q));
        assert(next.r_vec.last() == round_r(s, q));
        lemma_fold_trace(start, next, q);
        let before = replay_challenges(start, s.l_vec, s.r_vec);
        assert(replay_challenges(start, next.l_vec, next.r_vec) == before.push(
            round_challenge(s, q),
        ));
        assert(before.push(round_challenge(s, q)) + fold_challenges(next, q) =~= before
            + fold_challenges(s, q));
        assert(next.l_vec + fold_ls(next, q) =~= s.l_vec + fold_ls(s, q));
        assert(next.r_vec + fold_rs(next, q) =~= s.r_vec + fold_rs(s, q));
    } else {
        assert(s.l_vec + fold_ls(s, q) =~= s.l_vec);
        assert(s.r_vec + fold_rs(s, q) =~= s.r_vec);
        assert(replay_challenges(start, s.l_vec, s.r_vec) + fold_challenges(s, q)
            =~= replay_challenges(start, s.l_vec, s.r_vec));
    }
}

/// The scalars `b[i] * f[i]`.
pub open spec fn entry_products(b: Seq<nat>, f: Seq<nat>) -> Seq<nat> {
    Seq::new(b.len(), |i: int| mul_mod(b[i], f[i]))
}

/// The commitment `P = <a, G> + <b o f, H> + <a, b> Q` to the witness `a`,
/// `b`, which is what an honest prover proves about.
pub open spec fn honest_commitment(
    a: Seq<nat>,
    b: Seq<nat>,
    factors: Seq<nat>,
    g: Seq<Seq<u8>>,
    h: Seq<Seq<u8>>,
    q: Seq<u8>,
) -> Seq<u8> {
    multiscalar_product(
        a + entry_products(b, factors) + seq![inner_product_mod(a, b)],
        g + h + seq![q],
    )
}

/// The values of the rescaled generators are the values of the generators
/// times the factors.
pub proof fn lemma_rescaled_value(d: spec_fn(Seq<u8>) -> nat, h: Seq<Seq<u8>>, f: Seq<nat>)
    requires
        linear_model(d),
        h.len() == f.len(),
    ensures
        congruent_seq(entrywise(ints(f), logs(d, h)), logs(d, rescaled(h, f))),
{
    let left = entrywise(ints(f), logs(d, h));
    let right = logs(d, rescaled(h, f));
    assert forall|i: int| 0 <= i < left.len() implies congruent(#[trigger] left[i], right[i]) by {
        assert(right[i] == d(scalar_multiple(f[i], h[i])));
        assert(congruent(d(scalar_multiple(f[i], h[i])) as int, (f[i] * d(h[i])) as int));
        assert(left[i] == (f[i] as int) * (d(h[i]) as int));
    }
}

/// The part of the verification equation that belongs to the generators `G`.
proof fn lemma_g_part(a: nat, x: Seq<nat>, g: Seq<int>)
    requires
        g.len() == pow2(x.len()),
    ensures
        congruent(dot(ints(g_coefficients(a, x)), g), a * dot(expansions(x), g)),
{
    let e = expansions(x);
    let co = ints(g_coefficients(a, x));
    assert(congruent_seq(co, scaled(a as int, e))) by {
        assert forall|i: int| 0 <= i < co.len() implies congruent(
            #[trigger] co[i],
            scaled(a as int, e)[i],
        ) by {
            lemma_mul_mod_congruent(a, expansion(x, i as nat));
        }
    }
    assert(congruent_seq(g, g));
    lemma_dot_congruent(co, scaled(a as int, e), g, g);
    lemma_dot_scaled(a as int, e, g);
}

/// The part of the verification equation that belongs to the generators `H`.
proof fn lemma_h_part(b: nat, x: Seq<nat>, f: Seq<nat>, h: Seq<int>, h_rescaled: Seq<int>)
    requires
        h.len() == pow2(x.len()),
        f.len() == h.len(),
        congruent_seq(entrywise(ints(f), h), h_rescaled),
    ensures
        congruent(
            dot(ints(h_coefficients(b, x, f)), h),
            b * dot(expansions_reversed(x), h_rescaled),
        ),
{
    let er = expansions_reversed(x);
    let co = ints(h_coefficients(b, x, f));
    let target = entrywise(scaled(b as int, er), ints(f));
    assert(congruent_seq(co, target)) by {
        assert forall|i: int| 0 <= i < co.len() implies congruent(#[trigger] co[i], target[i]) by {
            let e_i = expansion(x, (pow2(x.len()) - 1 - i) as nat);
            lemma_mul_mod_congruent(b, e_i);
            lemma_mul_mod_congruent(mul_mod(b, e_i), f[i]);
            lemma_congruent_ops(
                mul_mod(b, e_i) as int,
                (b as int) * (e_i as int),
                f[i] as int,
                f[i] as int,
            );
        }
    }
    assert(congruent_seq(h, h));
    lemma_dot_congruent(co, target, h, h);
    lemma_dot_entrywise(scaled(b as int, er), ints(f), h);
    lemma_dot_scaled(b as int, er, entrywise(ints(f), h));
    assert(congruent_seq(er, er));
    lemma_dot_congruent(er, er, entrywise(ints(f), h), h_rescaled);
    lemma_congruent_ops(
        b as int,
        b as int,
        dot(er, entrywise(ints(f), h)),
        dot(er, h_rescaled),
    );
}

/// The part of the verification equation that belongs to the commitments of
/// the rounds.
proof fn lemma_negated_part(v: Seq<nat>, l: Seq<int>)
    requires
        v.len() == l.len(),
    ensures
        congruent(dot(ints(negations(v)), l), -dot(ints(v), l)),
{
    let co = ints(negations(v));
    let target = scaled(-1, ints(v));
    assert(congruent_seq(co, target)) by {
        assert forall|i: int| 0 <= i < co.len() implies congruent(#[trigger] co[i], target[i]) by {
            lemma_neg_mod_congruent(v[i]);
            assert(target[i] == -(v[i] as int));
        }
    }
    assert(congruent_seq(l, l));
    lemma_dot_congruent(co, target, l, l);
    lemma_dot_scaled(-1, ints(v), l);
    assert((-1) * dot(ints(v), l) == -dot(ints(v), l));
}

/// The value of the verifier's multiscalar product is the verifier's value.
pub proof fn lemma_verification_value(
    d: spec_fn(Seq<u8>) -> nat,
    proof: ProofView,
    x: Seq<nat>,
    factors: Seq<nat>,
    q: Seq<u8>,
    g: Seq<Seq<u8>>,
    h: Seq<Seq<u8>>,
)
    requires
        linear_model(d),
        g.len() == pow2(x.len()),
        h.len() == g.len(),
        factors.len() == g.len(),
        proof.l_vec.len() == x.len(),
        proof.r_vec.len() == x.len(),
    ensures
        verification_scalars(proof, x, factors).len() == verification_points(proof, q, g, h).len(),
        congruent(
            dot(
                ints(verification_scalars(proof, x, factors)),
                logs(d, verification_points(proof, q, g, h)),
            ),
            verifier_value(
                proof.a as int,
                proof.b as int,
                x,
                logs(d, g),
                logs(d, rescaled(h, factors)),
                logs(d, proof.l_vec),
                logs(d, proof.r_vec),
                d(q) as int,
            ),
        ),
{
    let (a, b, dq) = (proof.a as int, proof.b as int, d(q) as int);
    let ab = mul_mod(proof.a, proof.b) as int;
    let co_g = ints(g_coefficients(proof.a, x));
    let co_h = ints(h_coefficients(proof.b, x, factors));
    let co_l = ints(negations(squares(x)));
    let co_r = ints(negations(squares(inverses(x))));
    let (gs, hs, ls, rs) = (logs(d, g), logs(d, h), logs(d, proof.l_vec), logs(d, proof.r_vec));
    assert(ints(verification_scalars(proof, x, factors)) =~= seq![ab] + co_g + co_h + co_l + co_r);
    assert(logs(d, verification_points(proof, q, g, h)) =~= seq![dq] + gs + hs + ls + rs);
    lemma_dot_concat(seq![ab] + co_g + co_h + co_l, co_r, seq![dq] + gs + hs + ls, rs);
    lemma_dot_concat(seq![ab] + co_g + co_h, co_l, seq![dq] + gs + hs, ls);
    lemma_dot_concat(seq![ab] + co_g, co_h, seq![dq] + gs, hs);
    lemma_dot_concat(seq![ab], co_g, seq![dq], gs);
    lemma_dot_single(ab, dq);
    let (t_g, t_h, t_l, t_r) = (dot(co_g, gs), dot(co_h, hs), dot(co_l, ls), dot(co_r, rs));
    assert(dot(
        ints(verification_scalars(proof, x, factors)),
        logs(d, verification_points(proof, q, g, h)),
    ) == ab * dq + t_g + t_h + t_l + t_r);

    let h_rescaled = logs(d, rescaled(h, factors));
    lemma_rescaled_value(d, h, factors);
    lemma_g_part(proof.a, x, gs);
    lemma_h_part(proof.b, x, factors, hs, h_rescaled);
    lemma_negated_part(squares(x), ls);
    lemma_negated_part(squares(inverses(x)), rs);
    lemma_mul_mod_congruent(proof.a, proof.b);
    lemma_congruent_ops(ab, a * b, dq, dq);
    let (v_g, v_h) = (a * dot(expansions(x), gs), b * dot(expansions_reversed(x), h_rescaled));
    let (v_l, v_r) = (dot(ints(squares(x)), ls), dot(ints(squares(inverses(x))), rs));
    lemma_congruent_ops(ab * dq, (a * b) * dq, t_g, v_g);
    lemma_congruent_ops(ab * dq + t_g, (a * b) * dq + v_g, t_h, v_h);
    lemma_congruent_ops(ab * dq + t_g + t_h, (a * b) * dq + v_g + v_h, t_l, -v_l);
    lemma_congruent_ops(
        ab * dq + t_g + t_h + t_l,
        (a * b) * dq + v_g + v_h + (-v_l),
        t_r,
        -v_r,
    );
    assert((a * b) * dq + v_g + v_h + (-v_l) + (-v_r) == (a * b) * dq + v_g + v_h - v_l - v_r);
}

/// The value of the honest commitment is the value that the prover's first
/// state stands for.
pub proof fn lemma_honest_value(
    d: spec_fn(Seq<u8>) -> nat,
    transcript: Seq<u8>,
    factors: Seq<nat>,
    g: Seq<Seq<u8>>,
    h: Seq<Seq<u8>>,
    a: Seq<nat>,
    b: Seq<nat>,
    q: Seq<u8>,
)
    requires
        linear_model(d),
        well_formed_input(factors, g, h, a, b),
    ensures
        congruent(
            dot(
                ints(a + entry_products(b, factors) + seq![inner_product_mod(a, b)]),
                logs(d, g + h + seq![q]),
            ),
            committed(d, initial_state(transcript, factors, g, h, a, b), q),
        ),
{
    let dq = d(q) as int;
    let c = inner_product_mod(a, b) as int;
    let bf = ints(entry_products(b, factors));
    let (gs, hs) = (logs(d, g), logs(d, h));
    let h_rescaled = logs(d, rescaled(h, factors));
    assert(ints(a + entry_products(b, factors) + seq![inner_product_mod(a, b)]) =~= ints(a) + bf
        + seq![c]);
    assert(logs(d, g + h + seq![q]) =~= gs + hs + seq![dq]);
    lemma_dot_concat(ints(a) + bf, seq![c], gs + hs, seq![dq]);
    lemma_dot_concat(ints(a), bf, gs, hs);
    lemma_dot_single(c, dq);
    // <b o f, H> ~ <b, f o H> ~ <b, H'>
    let target = entrywise(ints(b), ints(factors));
    assert(congruent_seq(bf, target)) by {
        assert forall|i: int| 0 <= i < bf.len() implies congruent(#[trigger] bf[i], target[i]) by {
            lemma_mul_mod_congruent(b[i], factors[i]);
        }
    }
    assert(congruent_seq(hs, hs));
    lemma_dot_congruent(bf, target, hs, hs);
    lemma_dot_entrywise(ints(b), ints(factors), hs);
    lemma_rescaled_value(d, h, factors);
    assert(congruent_seq(ints(b), ints(b)));
    lemma_dot_congruent(ints(b), ints(b), entrywise(ints(factors), hs), h_rescaled);
    // <a, b>
    lemma_inner_product_is_dot(a, b);
    lemma_congruent_ops(c, dot(ints(a), ints(b)), dq, dq);
    let t_a = dot(ints(a), gs);
    lemma_congruent_ops(t_a, t_a, dot(bf, hs), dot(ints(b), h_rescaled));
    lemma_congruent_ops(
        t_a + dot(bf, hs),
        t_a + dot(ints(b), h_rescaled),
        c * dq,
        dot(ints(a), ints(b)) * dq,
    );
}

/// Completeness: for every witness and every choice of generators and
/// factors of one length, a power of two, the proof that the prover creates
/// for the honest commitment `P = <a, G> + <b o f, H> + <a, b> Q` is
/// accepted by a verifier whose transcript starts where the prover's did.
///
/// This holds in every group for which `d` is a linear model, and where no
/// challenge of the run is zero (a zero challenge has no inverse).
pub proof fn lemma_completeness(
    d: spec_fn(Seq<u8>) -> nat,
    transcript: Seq<u8>,
    q: Seq<u8>,
    factors: Seq<nat>,
    g: Seq<Seq<u8>>,
    h: Seq<Seq<u8>>,
    a: Seq<nat>,
    b: Seq<nat>,
)
    requires
        linear_model(d),
        well_formed_input(factors, g, h, a, b),
        all_invertible(
            replay_challenges(
                transcript,
                proof_of(created(transcript, q, factors, g, h, a, b)).l_vec,
                proof_of(created(transcript, q, factors, g, h, a, b)).r_vec,
            ),
        ),
    ensures
        accepts(
            proof_of(created(transcript, q, factors, g, h, a, b)),
            transcript,
            factors,
            honest_commitment(a, b, factors, g, h, q),
            q,
            g,
            h,
        ),
{
    reveal(residue);
    let start = initial_state(transcript, factors, g, h, a, b);
    let end = fold_all(start, q);
    let proof = proof_of(end);
    let x = replay_challenges(transcript, proof.l_vec, proof.r_vec);
    lemma_fold_trace(transcript, start, q);
    assert(end.l_vec =~= fold_ls(start, q));
    assert(end.r_vec =~= fold_rs(start, q));
    assert(x =~= fold_challenges(start, q));
    lemma_fold_value(d, start, q);
    assert(well_shaped(proof, factors, g, h));
    assert forall|j: int| 0 <= j < x.len() implies x[j] != 0 by {
        assert(is_inverse(x[j], inverse_mod(x[j])));
        if x[j] == 0 {
            assert((0 * inverse_mod(x[j])) % group_order() == 0);
        }
    }
    lemma_verification_value(d, proof, x, factors, q, g, h);
    lemma_honest_value(d, transcript, factors, g, h, a, b, q);
    let scalars = verification_scalars(proof, x, factors);
    let points = verification_points(proof, q, g, h);
    let honest_scalars = a + entry_products(b, factors) + seq![inner_product_mod(a, b)];
    let honest_points = g + h + seq![q];
    assert(congruent(
        dot(ints(scalars), logs(d, points)),
        dot(ints(honest_scalars), logs(d, honest_points)),
    ));
    assert(honest_scalars.len() == honest_points.len());
    assert(multiscalar_product(scalars, points) == multiscalar_product(
        honest_scalars,
        honest_points,
    ));
}

/// What completeness says of a proof for the witness `a`, `b`: whatever
/// linear model the group has, and unless a challenge of the run is zero, the
/// proof is accepted for the honest commitment.
pub open spec fn complete_for(
    proof: ProofView,
    transcript: Seq<u8>,
    q: Seq<u8>,
    factors: Seq<nat>,
    g: Seq<Seq<u8>>,
    h: Seq<Seq<u8>>,
    a: Seq<nat>,
    b: Seq<nat>,
) -> bool {
    forall|d: spec_fn(Seq<u8>) -> nat|
        #[trigger] linear_model(d) && all_invertible(
            replay_challenges(transcript, proof.l_vec, proof.r_vec),
        ) ==> accepts(
            proof,
            transcript,
            factors,
            honest_commitment(a, b, factors, g, h, q),
            q,
            g,
            h,
        )
}

/// The proof that the prover creates is complete for its witness.
pub proof fn lemma_created_is_complete(
    transcript: Seq<u8>,
    q: Seq<u8>,
    factors: Seq<nat>,
    g: Seq<Seq<u8>>,
    h: Seq<Seq<u8>>,
    a: Seq<nat>,
    b: Seq<nat>,
)
    requires
        well_formed_input(factors, g, h, a, b),
    ensures
        complete_for(
            proof_of(created(transcript, q, factors, g, h, a, b)),
            transcript,
            q,
            factors,
            g,
            h,
            a,
            b,
        ),
{
    let proof = proof_of(created(transcript, q, factors, g, h, a, b));
    assert forall|d: spec_fn(Seq<u8>) -> nat|
        #[trigger] linear_model(d) && all_invertible(
            replay_challenges(transcript, proof.l_vec, proof.r_vec),
        ) implies accepts(
        proof,
        transcript,
        factors,
        honest_commitment(a, b, factors, g, h, q),
        q,
        g,
        h,
    ) by {
        lemma_completeness(d, transcript, q, factors, g, h, a, b);
    }
}

} // verus!

//! What holds of the argument's own logic: the closed form, the symmetry and
//! the folding meaning of the expansion coefficients, and the agreement of
//! prover and verifier on the transcript.
use vstd::prelude::*;
use vstd::arithmetic::power2::pow2;
use crate::inner_product_proof::FoldState;
use crate::inner_product_proof::expansion;
use crate::inner_product_proof::expansion_coefficient;
use crate::inner_product_proof::fold_all;
use crate::inner_product_proof::fold_round;
use crate::inner_product_proof::inverses;
use crate::inner_product_proof::replay_transcript;
use crate::inner_product_proof::squares;
use crate::scalar::all_invertible;
use crate::scalar::group_order;
use crate::scalar::inverse_mod;
use crate::scalar::is_inverse;
use crate::scalar::mul_mod;
use crate::scalar::product_mod;

verus! {

/// A product in the scalar field depends on its factors only modulo the
/// group order: where `e1` stands for the integer `x1` and `e2` for `x2`, the
/// field product of `e1` and `e2` stands for `x1 * x2`.
pub proof fn lemma_mul_mod_stands_for(e1: nat, x1: int, e2: nat, x2: int)
    requires
        e1 % group_order() == x1 % (group_order() as int),
        e2 % group_order() == x2 % (group_order() as int),
    ensures
        mul_mod(e1, e2) == (x1 * x2) % (group_order() as int),
        mul_mod(e1, e2) % group_order() == (x1 * x2) % (group_order() as int),
{
    let m = group_order() as int;
    vstd::arithmetic::div_mod::lemma_mul_mod_noop_general(e1 as int, e2 as int, m);
    vstd::arithmetic::div_mod::lemma_mul_mod_noop_general(x1, x2, m);
    vstd::arithmetic::div_mod::lemma_mod_twice((x1 * x2) as int, m);
}

/// Bit `j` of `i`.
pub open spec fn bit(i: nat, j: nat) -> bool {
    (i / pow2(j)) % 2 == 1
}

/// `acc` times the entries of `sq` that the lowest `j` bits of `i` select,
/// where bit `k` selects the entry of index `sq.len() - 1 - k`.
pub open spec fn selected_product(acc: nat, sq: Seq<nat>, i: nat, j: nat) -> nat
    decreases j,
{
    if j == 0 {
        acc
    } else {
        let before = selected_product(acc, sq, i, (j - 1) as nat);
        if bit(i, (j - 1) as nat) {
            mul_mod(before, sq[sq.len() - j])
        } else {
            before
        }
    }
}

/// Selecting by the lowest `j + 1` bits of `i` is selecting by bit `0`, then
/// by the lowest `j` bits of `i / 2` among the entries before the last.
proof fn lemma_selected_product_shift(acc: nat, sq: Seq<nat>, i: nat, j: nat)
    requires
        j < sq.len(),
    ensures
        selected_product(acc, sq, i, j + 1) == selected_product(
            if i % 2 == 1 {
                mul_mod(acc, sq.last())
            } else {
                acc
            },
            sq.drop_last(),
            i / 2,
            j,
        ),
    decreases j,
{
    vstd::arithmetic::power2::lemma2_to64();
    if j == 0 {
        assert(selected_product(acc, sq, i, 0) == acc);
    } else {
        lemma_selected_product_shift(acc, sq, i, (j - 1) as nat);
        vstd::arithmetic::power2::lemma_pow2_unfold(j);
        vstd::arithmetic::power2::lemma_pow2_pos((j - 1) as nat);
        vstd::arithmetic::div_mod::lemma_div_denominator(i as int, 2, pow2((j - 1) as nat) as int);
        assert(bit(i / 2, (j - 1) as nat) == bit(i, j));
        assert(sq.drop_last()[sq.drop_last().len() - j] == sq[sq.len() - (j + 1)]);
    }
}

/// The closed form of the expansion coefficients: the coefficient of index
/// `i` is the starting value times `sq[sq.len() - 1 - j]` for every bit `j`
/// that is set in `i`. The lowest bit belongs to the last entry, that is, to
/// the challenge of the last round.
pub proof fn lemma_expansion_closed_form(acc: nat, sq: Seq<nat>, i: nat)
    ensures
        expansion_coefficient(acc, sq, i) == selected_product(acc, sq, i, sq.len()),
    decreases sq.len(),
{
    if sq.len() > 0 {
        let first = if i % 2 == 1 {
            mul_mod(acc, sq.last())
        } else {
            acc
        };
        lemma_expansion_closed_form(first, sq.drop_last(), i / 2);
        lemma_selected_product_shift(acc, sq, i, (sq.len() - 1) as nat);
    }
}

/// The coefficients of an index and of its complement multiply to the product
/// of their two starting values and of all the squares: every bit selects its
/// square in exactly one of the two.
pub proof fn lemma_complementary_coefficients(u: nat, v: nat, sq: Seq<nat>, i: nat)
    requires
        i < pow2(sq.len()),
    ensures
        mul_mod(
            expansion_coefficient(u, sq, i),
            expansion_coefficient(v, sq, (pow2(sq.len()) - 1 - i) as nat),
        ) == mul_mod(mul_mod(u, v), product_mod(sq)),
    decreases sq.len(),
{
    let ui = u as int;
    let vi = v as int;
    if sq.len() == 0 {
        vstd::arithmetic::power2::lemma2_to64();
        lemma_mul_mod_stands_for(u, ui, v, vi);
        lemma_mul_mod_stands_for(mul_mod(u, v), ui * vi, 1, 1);
        assert((ui * vi) * 1 == ui * vi);
    } else {
        let last = sq.last();
        let rest = sq.drop_last();
        let half = pow2(rest.len());
        let c = (pow2(sq.len()) - 1 - i) as nat;
        vstd::arithmetic::power2::lemma_pow2_unfold(sq.len());
        assert(pow2(sq.len()) == 2 * half);
        assert(c / 2 == half - 1 - i / 2);
        assert(c % 2 == 1 - i % 2);
        let p = product_mod(rest);
        let li = last as int;
        let pi = p as int;
        // the right-hand side stands for u * v * p * last
        lemma_mul_mod_stands_for(u, ui, v, vi);
        lemma_mul_mod_stands_for(p, pi, last, li);
        lemma_mul_mod_stands_for(mul_mod(u, v), ui * vi, mul_mod(p, last), pi * li);
        if i % 2 == 1 {
            let u1 = mul_mod(u, last);
            lemma_complementary_coefficients(u1, v, rest, i / 2);
            lemma_mul_mod_stands_for(u, ui, last, li);
            lemma_mul_mod_stands_for(u1, ui * li, v, vi);
            lemma_mul_mod_stands_for(mul_mod(u1, v), (ui * li) * vi, p, pi);
            assert(((ui * li) * vi) * pi == (ui * vi) * (pi * li)) by (nonlinear_arith);
        } else {
            let v1 = mul_mod(v, last);
            lemma_complementary_coefficients(u, v1, rest, i / 2);
            lemma_mul_mod_stands_for(v, vi, last, li);
            lemma_mul_mod_stands_for(u, ui, v1, vi * li);
            lemma_mul_mod_stands_for(mul_mod(u, v1), ui * (vi * li), p, pi);
            assert((ui * (vi * li)) * pi == (ui * vi) * (pi * li)) by (nonlinear_arith);
        }
    }
}

/// The product of all inverses, squared, cancels the product of all squares.
pub proof fn lemma_inverses_cancel_squares(x: Seq<nat>)
    requires
        all_invertible(x),
    ensures
        mul_mod(
            mul_mod(product_mod(inverses(x)), product_mod(inverses(x))),
            product_mod(squares(x)),
        ) == 1,
    decreases x.len(),
{
    let m = group_order() as int;
    if x.len() == 0 {
        lemma_mul_mod_stands_for(1, 1, 1, 1);
        lemma_mul_mod_stands_for(mul_mod(1, 1), 1, 1, 1);
    } else {
        let rest = x.drop_last();
        let xk = x.last();
        let r = inverse_mod(xk);
        assert(is_inverse(xk, r));
        assert(all_invertible(rest)) by {
            assert forall|j: int| 0 <= j < rest.len() implies is_inverse(
                #[trigger] rest[j],
                inverse_mod(rest[j]),
            ) by {
                assert(rest[j] == x[j]);
            }
        }
        lemma_inverses_cancel_squares(rest);
        assert(inverses(x).drop_last() =~= inverses(rest));
        assert(squares(x).drop_last() =~= squares(rest));
        let a = product_mod(inverses(rest)) as int;
        let s = product_mod(squares(rest)) as int;
        let ri = r as int;
        let xi = xk as int;
        // induction hypothesis: a * a * s stands for 1
        lemma_mul_mod_stands_for(a as nat, a, a as nat, a);
        lemma_mul_mod_stands_for(mul_mod(a as nat, a as nat), a * a, s as nat, s);
        let ih = (a * a) * s;
        assert(ih % m == 1);
        // the three products of this step
        lemma_mul_mod_stands_for(a as nat, a, r, ri);
        let ar = mul_mod(a as nat, r);
        lemma_mul_mod_stands_for(ar, a * ri, ar, a * ri);
        lemma_mul_mod_stands_for(xk, xi, xk, xi);
        lemma_mul_mod_stands_for(s as nat, s, mul_mod(xk, xk), xi * xi);
        lemma_mul_mod_stands_for(
            mul_mod(ar, ar),
            (a * ri) * (a * ri),
            mul_mod(s as nat, mul_mod(xk, xk)),
            s * (xi * xi),
        );
        let big = ((a * ri) * (a * ri)) * (s * (xi * xi));
        let one = xi * ri;
        assert(big == ih * (one * one)) by (nonlinear_arith)
            requires
                big == ((a * ri) * (a * ri)) * (s * (xi * xi)),
                ih == (a * a) * s,
                one == xi * ri,
        ;
        assert(one % m == 1);
        vstd::arithmetic::div_mod::lemma_mul_mod_noop_general(one, one, m);
        assert((one * one) % m == 1) by {
            assert((1int * 1int) % m == 1);
        }
        vstd::arithmetic::div_mod::lemma_mul_mod_noop_general(ih, one * one, m);
        assert((ih * (one * one)) % m == 1) by {
            assert((1int * 1int) % m == 1);
        }
    }
}

/// The expansion coefficients of an index and of its complement are inverse
/// to each other: `s_i * s_{n-1-i} == 1` for every `i` below `n = 2^rounds`,
/// where every challenge is invertible.
pub proof fn lemma_expansion_symmetry(challenges: Seq<nat>, i: nat)
    requires
        all_invertible(challenges),
        i < pow2(challenges.len()),
    ensures
        mul_mod(
            expansion(challenges, i),
            expansion(challenges, (pow2(challenges.len()) - 1 - i) as nat),
        ) == 1,
{
    let allinv = product_mod(inverses(challenges));
    lemma_complementary_coefficients(allinv, allinv, squares(challenges), i);
    lemma_inverses_cancel_squares(challenges);
}

/// The coefficient that the generator of index `i` has in the single
/// generator that is left after folding with the challenges `x`, round by
/// round: every round maps the lower half `lo` and the upper half `hi` of the
/// generators to `(1/x) * lo[k] + x * hi[k]`.
pub open spec fn folding_coefficient(x: Seq<nat>, i: nat) -> nat
    decreases x.len(),
{
    if x.len() == 0 {
        1
    } else {
        let half = pow2((x.len() - 1) as nat);
        let rest = folding_coefficient(x.drop_first(), i % half);
        if i < half {
            mul_mod(inverse_mod(x[0]), rest)
        } else {
            mul_mod(x[0], rest)
        }
    }
}

/// A factor of the starting value is a factor of the coefficient.
proof fn lemma_coefficient_scales(c: nat, acc: nat, sq: Seq<nat>, i: nat)
    ensures
        expansion_coefficient(mul_mod(c, acc), sq, i) == mul_mod(
            c,
            expansion_coefficient(acc, sq, i),
        ),
    decreases sq.len(),
{
    if sq.len() > 0 {
        if i % 2 == 1 {
            let last = sq.last();
            lemma_coefficient_scales(c, mul_mod(acc, last), sq.drop_last(), i / 2);
            let (ci, ai, li) = (c as int, acc as int, last as int);
            lemma_mul_mod_stands_for(c, ci, acc, ai);
            lemma_mul_mod_stands_for(mul_mod(c, acc), ci * ai, last, li);
            lemma_mul_mod_stands_for(acc, ai, last, li);
            lemma_mul_mod_stands_for(c, ci, mul_mod(acc, last), ai * li);
            assert((ci * ai) * li == ci * (ai * li)) by (nonlinear_arith);
        } else {
            lemma_coefficient_scales(c, acc, sq.drop_last(), i / 2);
        }
    }
}

/// The product of a sequence is its first entry times the product of the
/// others.
proof fn lemma_product_mod_prepend(a: nat, s: Seq<nat>)
    ensures
        product_mod(seq![a] + s) == mul_mod(a, product_mod(s)),
    decreases s.len(),
{
    let t = seq![a] + s;
    let ai = a as int;
    if s.len() == 0 {
        assert(t.drop_last() =~= Seq::<nat>::empty());
        assert(t.last() == a);
        assert(product_mod(t.drop_last()) == 1);
        assert(product_mod(s) == 1);
        assert(product_mod(t) == mul_mod(1, a));
        assert(1 * ai == ai * 1);
    } else {
        let rest = s.drop_last();
        let last = s.last();
        assert(t.drop_last() =~= seq![a] + rest);
        assert(t.last() == last);
        lemma_product_mod_prepend(a, rest);
        assert(product_mod(t) == mul_mod(product_mod(seq![a] + rest), last));
        assert(product_mod(s) == mul_mod(product_mod(rest), last));
        let (pi, li) = (product_mod(rest) as int, last as int);
        lemma_mul_mod_stands_for(a, ai, product_mod(rest), pi);
        lemma_mul_mod_stands_for(mul_mod(a, product_mod(rest)), ai * pi, last, li);
        lemma_mul_mod_stands_for(product_mod(rest), pi, last, li);
        lemma_mul_mod_stands_for(a, ai, mul_mod(product_mod(rest), last), pi * li);
        assert((ai * pi) * li == ai * (pi * li)) by (nonlinear_arith);
    }
}

/// The highest bit of an index selects the first square: an index in the
/// upper half has the coefficient of its place in that half, times `sq[0]`.
proof fn lemma_coefficient_top_bit(acc: nat, sq: Seq<nat>, i: nat)
    requires
        sq.len() > 0,
        i < pow2(sq.len()),
    ensures
        expansion_coefficient(acc, sq, i) == if i >= pow2((sq.len() - 1) as nat) {
            mul_mod(
                expansion_coefficient(
                    acc,
                    sq.drop_first(),
                    (i - pow2((sq.len() - 1) as nat)) as nat,
                ),
                sq[0],
            )
        } else {
            expansion_coefficient(acc, sq.drop_first(), i)
        },
    decreases sq.len(),
{
    vstd::arithmetic::power2::lemma2_to64();
    let half = pow2((sq.len() - 1) as nat);
    let upper = sq.drop_first();
    if sq.len() == 1 {
        assert(sq.drop_last().len() == 0);
        assert(upper.len() == 0);
        assert(sq.last() == sq[0]);
        assert(half == 1 && i < 2);
        let first = if i % 2 == 1 {
            mul_mod(acc, sq.last())
        } else {
            acc
        };
        assert(expansion_coefficient(acc, sq, i) == expansion_coefficient(
            first,
            sq.drop_last(),
            i / 2,
        ));
        assert(expansion_coefficient(first, sq.drop_last(), i / 2) == first);
        assert(expansion_coefficient(acc, upper, 0) == acc);
    } else {
        let lower = sq.drop_last();
        let first = if i % 2 == 1 {
            mul_mod(acc, sq.last())
        } else {
            acc
        };
        let quarter = pow2((sq.len() - 2) as nat);
        vstd::arithmetic::power2::lemma_pow2_unfold(sq.len());
        vstd::arithmetic::power2::lemma_pow2_unfold((sq.len() - 1) as nat);
        assert(half == 2 * quarter);
        lemma_coefficient_top_bit(first, lower, i / 2);
        assert(lower[0] == sq[0]);
        assert(upper.last() == sq.last());
        assert(upper.drop_last() =~= lower.drop_first());
        assert(expansion_coefficient(acc, sq, i) == expansion_coefficient(first, lower, i / 2));
        if i >= half {
            let k = (i - half) as nat;
            assert(k % 2 == i % 2);
            assert(k / 2 == i / 2 - quarter);
            assert(expansion_coefficient(acc, upper, k) == expansion_coefficient(
                first,
                upper.drop_last(),
                k / 2,
            ));
        } else {
            assert(expansion_coefficient(acc, upper, i) == expansion_coefficient(
                first,
                upper.drop_last(),
                i / 2,
            ));
        }
    }
}

/// The closed-form expansion coefficients are the coefficients that folding
/// gives: `s_i` is the coefficient of the generator of index `i` in the
/// generator that is left after all rounds, where every challenge is
/// invertible.
pub proof fn lemma_expansion_is_folding(x: Seq<nat>, i: nat)
    requires
        all_invertible(x),
        i < pow2(x.len()),
    ensures
        expansion(x, i) == folding_coefficient(x, i),
    decreases x.len(),
{
    vstd::arithmetic::power2::lemma2_to64();
    if x.len() == 0 {
        assert(inverses(x) =~= Seq::<nat>::empty());
        assert(squares(x).len() == 0);
    } else {
        let later = x.drop_first();
        let x0 = x[0];
        let inv0 = inverse_mod(x0);
        let half = pow2((x.len() - 1) as nat);
        vstd::arithmetic::power2::lemma_pow2_unfold(x.len());
        assert(is_inverse(x0, inv0));
        assert(all_invertible(later)) by {
            assert forall|j: int| 0 <= j < later.len() implies is_inverse(
                #[trigger] later[j],
                inverse_mod(later[j]),
            ) by {
                assert(later[j] == x[j + 1]);
            }
        }
        assert(inverses(x) =~= seq![inv0] + inverses(later));
        assert(squares(x).drop_first() =~= squares(later));
        assert(squares(x)[0] == mul_mod(x0, x0));
        let allinv_later = product_mod(inverses(later));
        lemma_product_mod_prepend(inv0, inverses(later));
        lemma_coefficient_top_bit(product_mod(inverses(x)), squares(x), i);
        let r = if i < half {
            i
        } else {
            (i - half) as nat
        };
        assert(r == i % half) by {
            vstd::arithmetic::div_mod::lemma_fundamental_div_mod_converse(
                i as int,
                half as int,
                if i < half {
                    0
                } else {
                    1
                },
                r as int,
            );
        }
        lemma_coefficient_scales(inv0, allinv_later, squares(later), r);
        lemma_expansion_is_folding(later, r);
        let e = expansion(later, r);
        if i >= half {
            let (xi, ri, ei) = (x0 as int, inv0 as int, e as int);
            let m = group_order() as int;
            lemma_mul_mod_stands_for(inv0, ri, e, ei);
            lemma_mul_mod_stands_for(x0, xi, x0, xi);
            lemma_mul_mod_stands_for(mul_mod(inv0, e), ri * ei, mul_mod(x0, x0), xi * xi);
            lemma_mul_mod_stands_for(x0, xi, e, ei);
            let one = xi * ri;
            assert((ri * ei) * (xi * xi) == one * (xi * ei)) by (nonlinear_arith)
                requires
                    one == xi * ri,
            ;
            vstd::arithmetic::div_mod::lemma_mul_mod_noop_left(one, xi * ei, m);
            assert(1 * (xi * ei) == xi * ei);
        }
    }
}

/// How the first challenge enters the expansion coefficients: an index in
/// the lower half has the coefficient of its place among the later rounds
/// times `1/x[0]`, an index in the upper half has it times `x[0]`.
pub proof fn lemma_expansion_step(x: Seq<nat>, i: nat)
    requires
        all_invertible(x),
        x.len() > 0,
        i < pow2(x.len()),
    ensures
        expansion(x, i) == if i < pow2((x.len() - 1) as nat) {
            mul_mod(inverse_mod(x[0]), expansion(x.drop_first(), i))
        } else {
            mul_mod(x[0], expansion(x.drop_first(), (i - pow2((x.len() - 1) as nat)) as nat))
        },
{
    let half = pow2((x.len() - 1) as nat);
    let later = x.drop_first();
    vstd::arithmetic::power2::lemma_pow2_unfold(x.len());
    vstd::arithmetic::power2::lemma_pow2_pos((x.len() - 1) as nat);
    assert(all_invertible(later)) by {
        assert forall|j: int| 0 <= j < later.len() implies is_inverse(
            #[trigger] later[j],
            inverse_mod(later[j]),
        ) by {
            assert(later[j] == x[j + 1]);
        }
    }
    let r = if i < half {
        i
    } else {
        (i - half) as nat
    };
    assert(r == i % half) by {
        vstd::arithmetic::div_mod::lemma_fundamental_div_mod_converse(
            i as int,
            half as int,
            if i < half {
                0
            } else {
                1
            },
            r as int,
        );
    }
    lemma_expansion_is_folding(x, i);
    lemma_expansion_is_folding(later, r);
}

/// Prover and verifier agree on the transcript: where the prover's
/// transcript is what a replay of the rounds so far gives, a replay of all
/// the rounds gives the transcript with which the prover ends.
pub proof fn lemma_replay_follows_prover(start: Seq<u8>, s: FoldState, q: Seq<u8>)
    requires
        s.l_vec.len() == s.r_vec.len(),
        s.transcript == replay_transcript(start, s.l_vec, s.r_vec),
    ensures
        fold_all(s, q).transcript == replay_transcript(
            start,
            fold_all(s, q).l_vec,
            fold_all(s, q).r_vec,
        ),
        fold_all(s, q).l_vec.len() == fold_all(s, q).r_vec.len(),
    decreases s.a.len(),
{
    if s.a.len() > 1 {
        let next = fold_round(s, q);
        assert(next.l_vec.drop_last() =~= s.l_vec);
        assert(next.r_vec.drop_last() =~= s.r_vec);
        lemma_replay_follows_prover(start, next, q);
    }
}

} // verus!

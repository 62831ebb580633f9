//! Integer arithmetic behind the scalar field: congruence modulo the group
//! order, and dot products of integer sequences.
//!
//! A value of the field stands for every integer congruent to it, so an
//! identity of the field can be proved as an identity of integers and
//! reduced once at the end.
use vstd::prelude::*;
use crate::scalar::group_order;
use crate::scalar::inner_product_mod;
use crate::scalar::mul_mod;
use crate::scalar::neg_mod;

verus! {

/// The remainder of `a` modulo the group order.
#[verifier::opaque]
pub open spec fn residue(a: int) -> int {
    a % (group_order() as int)
}

/// `a` and `b` are congruent modulo the group order.
pub open spec fn congruent(a: int, b: int) -> bool {
    residue(a) == residue(b)
}

/// Two sequences of one length whose entries are congruent.
pub open spec fn congruent_seq(a: Seq<int>, b: Seq<int>) -> bool {
    &&& a.len() == b.len()
    &&& forall|i: int| 0 <= i < a.len() ==> congruent(#[trigger] a[i], b[i])
}

/// A sequence of naturals as integers.
pub open spec fn ints(s: Seq<nat>) -> Seq<int> {
    Seq::new(s.len(), |i: int| s[i] as int)
}

/// The integer `sum a[i] * b[i]`, over the common prefix.
pub open spec fn dot(a: Seq<int>, b: Seq<int>) -> int
    decreases a.len(),
{
    if a.len() == 0 || b.len() == 0 {
        0
    } else {
        dot(a.drop_last(), b.drop_last()) + a.last() * b.last()
    }
}

/// The sequence `u * p[i] + v * q[i]`.
pub open spec fn combination(u: int, p: Seq<int>, v: int, q: Seq<int>) -> Seq<int> {
    Seq::new(p.len(), |i: int| u * p[i] + v * q[i])
}

/// The sequence `c * a[i]`.
pub open spec fn scaled(c: int, a: Seq<int>) -> Seq<int> {
    Seq::new(a.len(), |i: int| c * a[i])
}

/// The sequence `a[i] * b[i]`.
pub open spec fn entrywise(a: Seq<int>, b: Seq<int>) -> Seq<int> {
    Seq::new(a.len(), |i: int| a[i] * b[i])
}

/// Congruence is compatible with sums and products.
pub proof fn lemma_congruent_ops(a: int, b: int, c: int, d: int)
    requires
        congruent(a, b),
        congruent(c, d),
    ensures
        congruent(a + c, b + d),
        congruent(a * c, b * d),
        congruent(a - c, b - d),
{
    reveal(residue);
    let m = group_order() as int;
    vstd::arithmetic::div_mod::lemma_add_mod_noop(a, c, m);
    vstd::arithmetic::div_mod::lemma_add_mod_noop(b, d, m);
    vstd::arithmetic::div_mod::lemma_sub_mod_noop(a, c, m);
    vstd::arithmetic::div_mod::lemma_sub_mod_noop(b, d, m);
    vstd::arithmetic::div_mod::lemma_mul_mod_noop_general(a, c, m);
    vstd::arithmetic::div_mod::lemma_mul_mod_noop_general(b, d, m);
}

/// Every integer is congruent to its remainder.
pub proof fn lemma_congruent_mod(a: int)
    ensures
        congruent(a % (group_order() as int), a),
{
    reveal(residue);
    vstd::arithmetic::div_mod::lemma_mod_twice(a, group_order() as int);
}

/// The field product of two values is congruent to their integer product.
pub proof fn lemma_mul_mod_congruent(a: nat, b: nat)
    ensures
        congruent(mul_mod(a, b) as int, (a as int) * (b as int)),
{
    reveal(residue);
    lemma_congruent_mod((a as int) * (b as int));
}

/// The negation in the field is congruent to the negative.
pub proof fn lemma_neg_mod_congruent(a: nat)
    ensures
        congruent(neg_mod(a) as int, -(a as int)),
{
    reveal(residue);
    let m = group_order() as int;
    let r = (a as int) % m;
    lemma_congruent_mod(a as int);
    lemma_congruent_mod(m - r);
    // m - r ~ -r ~ -a
    vstd::arithmetic::div_mod::lemma_mod_add_multiples_vanish(-r, m);
    assert(m + (-r) == m - r);
    lemma_congruent_ops(0, 0, r, a as int);
    assert(0 - r == -r);
    assert(0 - (a as int) == -(a as int));
}

/// `(a * b) * (c * d) == (a * c) * (b * d)`.
pub proof fn lemma_swap_inner(a: int, b: int, c: int, d: int)
    ensures
        (a * b) * (c * d) == (a * c) * (b * d),
{
    assert((a * b) * (c * d) == a * (b * (c * d))) by (nonlinear_arith);
    assert(b * (c * d) == c * (b * d)) by (nonlinear_arith);
    assert(a * (c * (b * d)) == (a * c) * (b * d)) by (nonlinear_arith);
}

/// The product of two sums of two products, multiplied out.
pub proof fn lemma_product_of_sums(
    u: int,
    p: int,
    v: int,
    q: int,
    w: int,
    r: int,
    z: int,
    t: int,
)
    ensures
        (u * p + v * q) * (w * r + z * t) == (u * w) * (p * r) + (u * z) * (p * t) + (v * w) * (q
            * r) + (v * z) * (q * t),
{
    let a = u * p;
    let b = v * q;
    let c = w * r;
    let e = z * t;
    assert((a + b) * (c + e) == a * c + a * e + b * c + b * e) by (nonlinear_arith);
    lemma_swap_inner(u, p, w, r);
    lemma_swap_inner(u, p, z, t);
    lemma_swap_inner(v, q, w, r);
    lemma_swap_inner(v, q, z, t);
}

/// `c * (p1 + p2 + p3) == c * p1 + c * p2 + c * p3`.
pub proof fn lemma_distribute3(c: int, p1: int, p2: int, p3: int)
    ensures
        c * (p1 + p2 + p3) == c * p1 + c * p2 + c * p3,
{
    assert(c * (p1 + p2 + p3) == c * (p1 + p2) + c * p3) by (nonlinear_arith);
    assert(c * (p1 + p2) == c * p1 + c * p2) by (nonlinear_arith);
}

/// `(c * p) * q == c * (p * q)`.
pub proof fn lemma_associate(c: int, p: int, q: int)
    ensures
        (c * p) * q == c * (p * q),
{
    assert((c * p) * q == c * (p * q)) by (nonlinear_arith);
}

/// Congruent sequences have congruent dot products.
pub proof fn lemma_dot_congruent(a1: Seq<int>, a2: Seq<int>, b1: Seq<int>, b2: Seq<int>)
    requires
        congruent_seq(a1, a2),
        congruent_seq(b1, b2),
        a1.len() == b1.len(),
    ensures
        congruent(dot(a1, b1), dot(a2, b2)),
    decreases a1.len(),
{
    if a1.len() > 0 {
        assert(congruent_seq(a1.drop_last(), a2.drop_last())) by {
            assert forall|i: int| 0 <= i < a1.len() - 1 implies congruent(
                #[trigger] a1.drop_last()[i],
                a2.drop_last()[i],
            ) by {
                assert(congruent(a1[i], a2[i]));
            }
        }
        assert(congruent_seq(b1.drop_last(), b2.drop_last())) by {
            assert forall|i: int| 0 <= i < b1.len() - 1 implies congruent(
                #[trigger] b1.drop_last()[i],
                b2.drop_last()[i],
            ) by {
                assert(congruent(b1[i], b2[i]));
            }
        }
        lemma_dot_congruent(a1.drop_last(), a2.drop_last(), b1.drop_last(), b2.drop_last());
        assert(congruent(a1.last(), a2.last())) by {
            assert(congruent(a1[a1.len() - 1], a2[a1.len() - 1]));
        }
        assert(congruent(b1.last(), b2.last())) by {
            assert(congruent(b1[b1.len() - 1], b2[b1.len() - 1]));
        }
        lemma_congruent_ops(a1.last(), a2.last(), b1.last(), b2.last());
        lemma_congruent_ops(
            dot(a1.drop_last(), b1.drop_last()),
            dot(a2.drop_last(), b2.drop_last()),
            a1.last() * b1.last(),
            a2.last() * b2.last(),
        );
    }
}

/// The inner product in the scalar field is the integer dot product, reduced.
pub proof fn lemma_inner_product_is_dot(a: Seq<nat>, b: Seq<nat>)
    requires
        a.len() == b.len(),
    ensures
        inner_product_mod(a, b) as int == dot(ints(a), ints(b)) % (group_order() as int),
        congruent(inner_product_mod(a, b) as int, dot(ints(a), ints(b))),
    decreases a.len(),
{
    reveal(residue);
    let m = group_order() as int;
    if a.len() == 0 {
        assert(dot(ints(a), ints(b)) == 0);
    } else {
        lemma_inner_product_is_dot(a.drop_last(), b.drop_last());
        assert(ints(a).drop_last() =~= ints(a.drop_last()));
        assert(ints(b).drop_last() =~= ints(b.drop_last()));
        let rest = dot(ints(a.drop_last()), ints(b.drop_last()));
        let x = a.last() as int;
        let y = b.last() as int;
        assert(ints(a).last() == x);
        assert(ints(b).last() == y);
        assert(dot(ints(a), ints(b)) == rest + x * y);
        let ip_rest = inner_product_mod(a.drop_last(), b.drop_last()) as int;
        let term = ((x * y) % m);
        // inner_product_mod(a, b) == (ip_rest + term) % m
        lemma_congruent_mod(x * y);
        lemma_congruent_ops(ip_rest, rest, term, x * y);
    }
    lemma_congruent_mod(dot(ints(a), ints(b)));
}

/// The dot product of two sequences of one entry.
pub proof fn lemma_dot_single(a: int, b: int)
    ensures
        dot(seq![a], seq![b]) == a * b,
{
    assert(seq![a].drop_last().len() == 0);
    assert(dot(seq![a].drop_last(), seq![b].drop_last()) == 0);
    assert(seq![a].last() == a);
    assert(seq![b].last() == b);
}

/// The dot product of two sequences of two entries.
pub proof fn lemma_dot_pair(a0: int, a1: int, b0: int, b1: int)
    ensures
        dot(seq![a0, a1], seq![b0, b1]) == a0 * b0 + a1 * b1,
{
    assert(seq![a0, a1].drop_last() =~= seq![a0]);
    assert(seq![b0, b1].drop_last() =~= seq![b0]);
    assert(seq![a0, a1].last() == a1);
    assert(seq![b0, b1].last() == b1);
    lemma_dot_single(a0, b0);
}

/// The dot product of concatenations is the sum of the dot products.
pub proof fn lemma_dot_concat(a1: Seq<int>, a2: Seq<int>, b1: Seq<int>, b2: Seq<int>)
    requires
        a1.len() == b1.len(),
        a2.len() == b2.len(),
    ensures
        dot(a1 + a2, b1 + b2) == dot(a1, b1) + dot(a2, b2),
    decreases a2.len(),
{
    if a2.len() == 0 {
        assert(a1 + a2 =~= a1);
        assert(b1 + b2 =~= b1);
    } else {
        assert((a1 + a2).drop_last() =~= a1 + a2.drop_last());
        assert((b1 + b2).drop_last() =~= b1 + b2.drop_last());
        assert((a1 + a2).last() == a2.last());
        assert((b1 + b2).last() == b2.last());
        lemma_dot_concat(a1, a2.drop_last(), b1, b2.drop_last());
    }
}

/// The dot product with a sequence that starts with one more entry.
pub proof fn lemma_dot_prepend(a0: int, a: Seq<int>, b0: int, b: Seq<int>)
    requires
        a.len() == b.len(),
    ensures
        dot(seq![a0] + a, seq![b0] + b) == a0 * b0 + dot(a, b),
{
    lemma_dot_concat(seq![a0], a, seq![b0], b);
    lemma_dot_single(a0, b0);
}

/// The dot product is bilinear: the dot product of two combinations is the
/// combination of the four dot products.
pub proof fn lemma_dot_bilinear(
    u: int,
    p: Seq<int>,
    v: int,
    q: Seq<int>,
    w: int,
    r: Seq<int>,
    z: int,
    t: Seq<int>,
)
    requires
        p.len() == q.len(),
        p.len() == r.len(),
        p.len() == t.len(),
    ensures
        dot(combination(u, p, v, q), combination(w, r, z, t)) == (u * w) * dot(p, r) + (u * z)
            * dot(p, t) + (v * w) * dot(q, r) + (v * z) * dot(q, t),
    decreases p.len(),
{
    let left = combination(u, p, v, q);
    let right = combination(w, r, z, t);
    if p.len() == 0 {
        assert(dot(left, right) == 0);
        assert(dot(p, r) == 0 && dot(p, t) == 0 && dot(q, r) == 0 && dot(q, t) == 0);
    } else {
        assert(left.drop_last() =~= combination(u, p.drop_last(), v, q.drop_last()));
        assert(right.drop_last() =~= combination(w, r.drop_last(), z, t.drop_last()));
        lemma_dot_bilinear(
            u,
            p.drop_last(),
            v,
            q.drop_last(),
            w,
            r.drop_last(),
            z,
            t.drop_last(),
        );
        let (pl, ql, rl, tl) = (p.last(), q.last(), r.last(), t.last());
        assert(left.last() == u * pl + v * ql);
        assert(right.last() == w * rl + z * tl);
        let (dpr, dpt, dqr, dqt) = (
            dot(p.drop_last(), r.drop_last()),
            dot(p.drop_last(), t.drop_last()),
            dot(q.drop_last(), r.drop_last()),
            dot(q.drop_last(), t.drop_last()),
        );
        assert(dot(p, r) == dpr + pl * rl);
        assert(dot(p, t) == dpt + pl * tl);
        assert(dot(q, r) == dqr + ql * rl);
        assert(dot(q, t) == dqt + ql * tl);
        lemma_product_of_sums(u, pl, v, ql, w, rl, z, tl);
        assert((u * w) * (dpr + pl * rl) == (u * w) * dpr + (u * w) * (pl * rl))
            by (nonlinear_arith);
        assert((u * z) * (dpt + pl * tl) == (u * z) * dpt + (u * z) * (pl * tl))
            by (nonlinear_arith);
        assert((v * w) * (dqr + ql * rl) == (v * w) * dqr + (v * w) * (ql * rl))
            by (nonlinear_arith);
        assert((v * z) * (dqt + ql * tl) == (v * z) * dqt + (v * z) * (ql * tl))
            by (nonlinear_arith);
    }
}

/// `dot(c * a, b) == c * dot(a, b)`.
pub proof fn lemma_dot_scaled(c: int, a: Seq<int>, b: Seq<int>)
    requires
        a.len() == b.len(),
    ensures
        dot(scaled(c, a), b) == c * dot(a, b),
    decreases a.len(),
{
    if a.len() == 0 {
        assert(dot(scaled(c, a), b) == 0);
        assert(dot(a, b) == 0);
    } else {
        assert(scaled(c, a).drop_last() =~= scaled(c, a.drop_last()));
        lemma_dot_scaled(c, a.drop_last(), b.drop_last());
        let rest = dot(a.drop_last(), b.drop_last());
        let (x, y) = (a.last(), b.last());
        assert(scaled(c, a).last() == c * x);
        lemma_associate(c, x, y);
        assert(c * (rest + x * y) == c * rest + c * (x * y)) by (nonlinear_arith);
    }
}

/// `dot(a, u * p + v * q) == u * dot(a, p) + v * dot(a, q)`.
pub proof fn lemma_dot_of_combination(a: Seq<int>, u: int, p: Seq<int>, v: int, q: Seq<int>)
    requires
        a.len() == p.len(),
        a.len() == q.len(),
    ensures
        dot(a, combination(u, p, v, q)) == u * dot(a, p) + v * dot(a, q),
{
    assert(combination(1, a, 0, a) =~= a);
    lemma_dot_bilinear(1, a, 0, a, u, p, v, q);
    assert((1 * u) * dot(a, p) == u * dot(a, p)) by (nonlinear_arith);
    assert((1 * v) * dot(a, q) == v * dot(a, q)) by (nonlinear_arith);
    assert((0 * u) * dot(a, p) == 0) by (nonlinear_arith);
    assert((0 * v) * dot(a, q) == 0) by (nonlinear_arith);
}

/// `dot(a o f, b) == dot(a, f o b)`.
pub proof fn lemma_dot_entrywise(a: Seq<int>, f: Seq<int>, b: Seq<int>)
    requires
        a.len() == f.len(),
        a.len() == b.len(),
    ensures
        dot(entrywise(a, f), b) == dot(a, entrywise(f, b)),
    decreases a.len(),
{
    if a.len() == 0 {
        assert(dot(entrywise(a, f), b) == 0);
        assert(dot(a, entrywise(f, b)) == 0);
    } else {
        assert(entrywise(a, f).drop_last() =~= entrywise(a.drop_last(), f.drop_last()));
        assert(entrywise(f, b).drop_last() =~= entrywise(f.drop_last(), b.drop_last()));
        lemma_dot_entrywise(a.drop_last(), f.drop_last(), b.drop_last());
        assert(entrywise(a, f).last() == a.last() * f.last());
        assert(entrywise(f, b).last() == f.last() * b.last());
        lemma_associate(a.last(), f.last(), b.last());
    }
}

} // verus!

//! What holds of the argument as a whole.

use crate::algebra::{
    congruent, dot, fold, fqk_power, fqk_product, fqk_reduced, lemma_congruent_mod, lemma_congruent_ops, lemma_fqk_reduced,
    lemma_pairing_power, lemma_pairing_product, lemma_unit_count,
    order, pairing_cofactor, pairing_value, partial_dot, shorter, unit_count, FqkValue,
};
use crate::error::Error;
use crate::groups::{multiples, CurvePoint, Fqk, G1, G2};
use crate::mipp::{
    all_nonzero, messages, proved, vectors, verified, MippClaim, MippOpening, MippProof,
};
use crate::polynomial::{evaluations, line_product, multilinear_value, tensor};
use crate::protocol::{
    all_invertible, folded_t, folded_u, folding_events, halvings, inverse, invertible, is_inverse,
    left, lemma_rounds_events_agree, partial_t, partial_u, point_events, right, round_events,
    rounds_events, went_on, Messages, Vectors,
};
use crate::scalar::{lemma_scalar_range, scalar_values, Scalar};
use crate::tensor::{
    fold_rounds, lemma_evaluations_dot, lemma_evaluations_halves, lemma_fold_dot, lemma_fold_rounds_dot,
    lemma_fold_rounds_tensor, lemma_partial_dot_commutes, lemma_partial_dot_scaled,
};
use crate::transcript::{drawn_by, Event};
use vstd::arithmetic::div_mod::{
    lemma_add_mod_noop, lemma_mod_add_multiples_vanish, lemma_mod_self_0, lemma_mod_twice,
    lemma_small_mod, lemma_sub_mod_noop,
};
use vstd::arithmetic::power2::{
    lemma_pow2_pos, lemma_pow2_strictly_increases, lemma_pow2_unfold, pow2,
};
use vstd::prelude::*;

verus! {

/// The first `n` entries of a sequence, with zeros where it has none.
spec fn padded(s: Seq<int>, n: nat) -> Seq<int> {
    Seq::new(
        n,
        |i: int|
            if i < s.len() {
                s[i]
            } else {
                0
            },
    )
}

/// Zeros add nothing to an inner product.
proof fn lemma_partial_dot_padded(a: Seq<int>, s: Seq<int>, n: int)
    requires
        0 <= n <= a.len(),
    ensures
        partial_dot(a, padded(s, a.len()), n) == partial_dot(a, s, shorter(n, s.len() as int)),
    decreases n,
{
    if n > 0 {
        lemma_partial_dot_padded(a, s, n - 1);
        if n > s.len() {
            assert(a[n - 1] * 0 == 0) by (nonlinear_arith);
        }
    }
}

/// An inner product goes as far as the shorter sequence.
proof fn lemma_dot_padded(a: Seq<int>, s: Seq<int>)
    ensures
        dot(a, padded(s, a.len())) == dot(a, s),
{
    lemma_partial_dot_padded(a, s, a.len() as int);
}

/// The vectors with as many keys as there are points.
spec fn evened(v: Vectors) -> Vectors {
    Vectors { a: v.a, y: v.y, h: padded(v.h, v.a.len()) }
}

/// One round does not see the keys that are missing or left over.
proof fn lemma_evened_round(v: Vectors, c: int)
    requires
        v.a.len() == 2 * v.split(),
        v.h.len() >= v.split(),
        forall|i: int| 0 <= i < v.h.len() ==> 0 <= #[trigger] v.h[i] < order(),
    ensures
        evened(v).messages() == v.messages(),
        evened(v).folded(c) == v.folded(c),
        dot(v.a, evened(v).h) == dot(v.a, v.h),
{
    let n = v.split();
    let w = evened(v);
    assert(left(w.h, n) =~= left(v.h, n));
    assert(right(w.h, n) =~= padded(right(v.h, n), n as nat));
    lemma_dot_padded(left(v.a, n), right(v.h, n));
    lemma_dot_padded(v.a, v.h);
    assert(fold(w.h, n, c) =~= fold(v.h, n, c)) by {
        assert(0 * c == 0) by (nonlinear_arith);
    }
}

/// Nor do any number of rounds.
proof fn lemma_evened(v: Vectors, cs: Seq<int>)
    requires
        cs.len() > 0,
        v.a.len() == 2 * v.split(),
        v.h.len() >= v.split(),
        forall|i: int| 0 <= i < v.h.len() ==> 0 <= #[trigger] v.h[i] < order(),
    ensures
        evened(v).after(cs) == v.after(cs),
    decreases cs.len(),
{
    if cs.len() == 1 {
        lemma_evened_round(v, cs[0]);
        assert(v.after(cs.drop_last()) == v);
        assert(evened(v).after(cs.drop_last()) == evened(v));
    } else {
        lemma_evened(v, cs.drop_last());
    }
}

/// Hence the prover says the same.
proof fn lemma_evened_messages(v: Vectors, cs: Seq<int>)
    requires
        cs.len() > 0,
        v.a.len() == 2 * v.split(),
        v.h.len() >= v.split(),
        forall|i: int| 0 <= i < v.h.len() ==> 0 <= #[trigger] v.h[i] < order(),
    ensures
        evened(v).all_messages(cs) == v.all_messages(cs),
{
    assert forall|i: int| 0 <= i < cs.len() implies evened(v).after(cs.take(i)).messages() == v.after(
        cs.take(i),
    ).messages() by {
        if i == 0 {
            lemma_evened_round(v, 0);
            assert(v.after(cs.take(0)) == v);
            assert(evened(v).after(cs.take(0)) == evened(v));
        } else {
            lemma_evened(v, cs.take(i));
        }
    }
    assert(evened(v).all_messages(cs) =~= v.all_messages(cs));
}

/// Rounds halve the vectors, and fold each of them by itself.
pub proof fn lemma_after(v: Vectors, cs: Seq<int>, m: nat)
    requires
        cs.len() <= m,
        v.a.len() == pow2(m),
        v.y.len() == pow2(m),
        v.h.len() == pow2(m),
    ensures
        v.after(cs).a.len() == pow2((m - cs.len()) as nat),
        v.after(cs).y == fold_rounds(v.y, cs),
        v.after(cs).h == fold_rounds(v.h, cs),
        v.after(cs).y.len() == v.after(cs).a.len(),
        v.after(cs).h.len() == v.after(cs).a.len(),
    decreases cs.len(),
{
    if cs.len() > 0 {
        lemma_after(v, cs.drop_last(), m);
        lemma_pow2_unfold((m - cs.len() + 1) as nat);
        lemma_pow2_pos((m - cs.len()) as nat);
    }
}

/// One round turns the inner product of two vectors into that of the folded ones.
proof fn lemma_round(a: Seq<int>, b: Seq<int>, n: int, x: int, c: int)
    requires
        n >= 0,
        a.len() == 2 * n,
        b.len() == 2 * n,
        congruent(x * c, 1),
    ensures
        congruent(
            dot(fold(a, n, x), fold(b, n, c)),
            dot(a, b) + dot(left(a, n), right(b, n)) * c + dot(right(a, n), left(b, n)) * x,
        ),
{
    let t = fold(b, n, c);
    let ar = a.skip(n);
    let br = b.skip(n);
    assert(right(a, n) =~= ar);
    assert(right(b, n) =~= br);
    let p = partial_dot(a, b, n);
    let q = partial_dot(a, br, n);
    let r = partial_dot(ar, b, n);
    let s = partial_dot(ar, br, n);
    // What is left of the first vector, against the second one.
    lemma_fold_dot(a, n, x, t, n);
    lemma_fold_dot(b, n, c, a, n);
    lemma_fold_dot(b, n, c, ar, n);
    lemma_partial_dot_commutes(a, t, n);
    lemma_partial_dot_commutes(ar, t, n);
    lemma_partial_dot_commutes(b, a, n);
    lemma_partial_dot_commutes(br, a, n);
    lemma_partial_dot_commutes(b, ar, n);
    lemma_partial_dot_commutes(br, ar, n);
    lemma_congruent_ops(x, x, partial_dot(ar, t, n), r + c * s);
    lemma_congruent_ops(
        partial_dot(a, t, n),
        p + c * q,
        x * partial_dot(ar, t, n),
        x * (r + c * s),
    );
    // The two scalings of the right halves cancel.
    lemma_congruent_ops(x * c, 1, s, s);
    lemma_congruent_ops(p + q * c + r * x, p + q * c + r * x, (x * c) * s, 1 * s);
    assert((p + c * q) + x * (r + c * s) == (p + q * c + r * x) + (x * c) * s)
        by (nonlinear_arith);
    // The inner product of the whole vectors is that of their halves.
    lemma_partial_dot_scaled(ar, br, a, b, 1, 1, n, n);
    assert(1 * 1 * s == s) by (nonlinear_arith);
    // The halves are as far as the products go.
    lemma_partial_dot_same(left(a, n), a, br, br, n);
    lemma_partial_dot_same(ar, ar, left(b, n), b, n);
}

/// Inner products of the same entries are the same.
proof fn lemma_partial_dot_same(a: Seq<int>, b: Seq<int>, c: Seq<int>, d: Seq<int>, n: int)
    requires
        forall|i: int| 0 <= i < n ==> #[trigger] a[i] == b[i],
        forall|i: int| 0 <= i < n ==> #[trigger] c[i] == d[i],
    ensures
        partial_dot(a, c, n) == partial_dot(b, d, n),
    decreases n,
{
    if n > 0 {
        lemma_partial_dot_same(a, b, c, d, n - 1);
    }
}

/// What the first `n` rounds make of a claimed inner product: what is left of the vectors, and what
/// the claim was off by.
proof fn lemma_partial_u(v: Vectors, cs: Seq<int>, u: int, n: int)
    requires
        v.a.len() == pow2(cs.len()),
        v.y.len() == v.a.len(),
        v.h.len() == v.a.len(),
        all_invertible(cs),
        0 <= n <= cs.len(),
    ensures
        congruent(
            partial_u(u, v.all_messages(cs), cs, n),
            u - dot(v.a, v.y) + dot(v.after(cs.take(n)).a, v.after(cs.take(n)).y),
        ),
    decreases n,
{
    let ms = v.all_messages(cs);
    if n == 0 {
        assert(v.after(cs.take(0)) == v);
    } else {
        let i = n - 1;
        let c = cs[i];
        let x = inverse(c);
        let w = v.after(cs.take(i));
        let k = w.split();
        lemma_partial_u(v, cs, u, i);
        assert(cs.take(n).drop_last() =~= cs.take(i));
        assert(cs.take(n).last() == c);
        lemma_after(v, cs.take(i), cs.len());
        lemma_pow2_unfold((cs.len() - i) as nat);
        assert(is_inverse(c, x));
        assert(x * c == c * x) by (nonlinear_arith);
        lemma_round(w.a, w.y, k, x, c);
        let l = dot(left(w.a, k), right(w.y, k));
        let r = dot(right(w.a, k), left(w.y, k));
        lemma_congruent_mod(l);
        lemma_congruent_mod(r);
        lemma_congruent_ops(ms[i].u_l, l, c, c);
        lemma_congruent_ops(ms[i].u_r, r, x, x);
        let off = u - dot(v.a, v.y);
        lemma_congruent_ops(
            partial_u(u, ms, cs, i),
            off + dot(w.a, w.y),
            ms[i].u_l * c,
            l * c,
        );
        lemma_congruent_ops(
            partial_u(u, ms, cs, i) + ms[i].u_l * c,
            off + dot(w.a, w.y) + l * c,
            ms[i].u_r * x,
            r * x,
        );
        lemma_congruent_ops(
            off,
            off,
            dot(w.folded(c).a, w.folded(c).y),
            dot(w.a, w.y) + l * c + r * x,
        );
    }
}

/// What the first `n` rounds make of a claimed pairing product: what is left of the vectors, and what
/// the claim was off by.
proof fn lemma_partial_t(v: Vectors, cs: Seq<int>, j: int, n: int)
    requires
        v.a.len() == pow2(cs.len()),
        v.y.len() == v.a.len(),
        v.h.len() == v.a.len(),
        all_invertible(cs),
        forall|i: int| 0 <= i < cs.len() ==> #[trigger] cs[i] >= 0,
        0 <= j < unit_count(),
        0 <= n <= cs.len(),
    ensures
        partial_t(FqkValue::Power(j), v.all_messages(cs), cs, n) == FqkValue::Power(
            (j - pairing_exponent(dot(v.a, v.h)) + pairing_exponent(
                dot(v.after(cs.take(n)).a, v.after(cs.take(n)).h),
            )) % unit_count(),
        ),
    decreases n,
{
    let ms = v.all_messages(cs);
    if n == 0 {
        assert(v.after(cs.take(0)) == v);
        lemma_small_mod(j as nat, unit_count() as nat);
    } else {
        let i = n - 1;
        let c = cs[i];
        let x = inverse(c);
        let w = v.after(cs.take(i));
        let k = w.split();
        lemma_partial_t(v, cs, j, i);
        assert(cs.take(n).drop_last() =~= cs.take(i));
        assert(cs.take(n).last() == c);
        lemma_after(v, cs.take(i), cs.len());
        lemma_pow2_unfold((cs.len() - i) as nat);
        assert(is_inverse(c, x));
        assert(x * c == c * x) by (nonlinear_arith);
        lemma_round(w.a, w.h, k, x, c);
        let l = dot(left(w.a, k), right(w.h, k));
        let r = dot(right(w.a, k), left(w.h, k));
        let d = dot(w.a, w.h);
        let e = l * c + r * x;
        lemma_pairing_power(l, c);
        lemma_pairing_power(r, x);
        lemma_pairing_product(l * c, r * x);
        lemma_pairing_product(d, e);
        assert(pairing_value(dot(w.folded(c).a, w.folded(c).h)) == pairing_value(d + e));
        // The claim is off by as much as before.
        let off = j - pairing_exponent(dot(v.a, v.h));
        let y = pairing_exponent(d);
        let z = pairing_exponent(e);
        let m = unit_count();
        lemma_unit_count();
        assert(m > 0) by (nonlinear_arith)
            requires
                m == pairing_cofactor() * order(),
                pairing_cofactor() > 0,
                order() > 0,
        ;
        lemma_add_mod_noop(off + y, z, m);
        lemma_add_mod_noop((off + y) % m, z, m);
        lemma_mod_twice(off + y, m);
        lemma_add_mod_noop(off, y + z, m);
        lemma_add_mod_noop(off, (y + z) % m, m);
        lemma_mod_twice(y + z, m);
    }
}

/// Scalars and keys are folded each by themselves, under the same points.
pub proof fn lemma_after_parts(v: Vectors, w: Vectors, cs: Seq<int>)
    requires
        v.a == w.a,
    ensures
        v.after(cs).a == w.after(cs).a,
        v.y == w.y ==> v.after(cs).y == w.after(cs).y,
        v.h == w.h ==> v.after(cs).h == w.after(cs).h,
    decreases cs.len(),
{
    if cs.len() > 0 {
        lemma_after_parts(v, w, cs.drop_last());
    }
}

/// The claimed inner product is folded by the cross inner products alone.
proof fn lemma_partial_u_agree(v: Vectors, w: Vectors, cs: Seq<int>, u: int, n: int)
    requires
        v.a == w.a,
        v.y == w.y,
        0 <= n <= cs.len(),
    ensures
        partial_u(u, v.all_messages(cs), cs, n) == partial_u(u, w.all_messages(cs), cs, n),
    decreases n,
{
    if n > 0 {
        lemma_partial_u_agree(v, w, cs, u, n - 1);
        lemma_after_parts(v, w, cs.take(n - 1));
    }
}

/// The claimed pairing product is folded by the cross pairing products alone.
proof fn lemma_partial_t_agree(v: Vectors, w: Vectors, cs: Seq<int>, t: FqkValue, n: int)
    requires
        v.a == w.a,
        v.h == w.h,
        0 <= n <= cs.len(),
    ensures
        partial_t(t, v.all_messages(cs), cs, n) == partial_t(t, w.all_messages(cs), cs, n),
    decreases n,
{
    if n > 0 {
        lemma_partial_t_agree(v, w, cs, t, n - 1);
        lemma_after_parts(v, w, cs.take(n - 1));
    }
}

/// The exponent of a pairing value.
spec fn pairing_exponent(k: int) -> int {
    pairing_cofactor() * (k % order())
}

/// What the verifier computes from an honest prover's messages is the product of what the points
/// and the scalars were folded to, exactly where the claimed inner product is the true one.
pub proof fn law_inner_product(v: Vectors, cs: Seq<int>, u: int)
    requires
        v.a.len() == pow2(cs.len()),
        v.y.len() == v.a.len(),
        all_invertible(cs),
    ensures
        v.after(cs).a.len() == 1,
        v.after(cs).y.len() == 1,
        folded_u(u, v.all_messages(cs), cs) == (v.after(cs).a[0] * v.after(cs).y[0]) % order()
            <==> congruent(u, dot(v.a, v.y)),
{
    let w = Vectors { a: v.a, y: v.y, h: v.a };
    let end = v.after(cs);
    lemma_after_parts(v, w, cs);
    lemma_partial_u_agree(v, w, cs, u, cs.len() as int);
    lemma_after(w, cs, cs.len());
    lemma_partial_u(w, cs, u, cs.len() as int);
    assert(cs.take(cs.len() as int) =~= cs);
    vstd::arithmetic::power2::lemma2_to64();
    let last = end.a[0] * end.y[0];
    assert(partial_dot(end.a, end.y, 0) == 0);
    assert(dot(end.a, end.y) == last);
    let off = u - dot(v.a, v.y);
    if congruent(off + last, last) {
        lemma_congruent_ops(off + last, last, last, last);
        lemma_congruent_ops(off, 0, dot(v.a, v.y), dot(v.a, v.y));
    }
    if congruent(u, dot(v.a, v.y)) {
        lemma_congruent_ops(u, dot(v.a, v.y), dot(v.a, v.y), dot(v.a, v.y));
        lemma_congruent_ops(off, 0, last, last);
    }
}

/// What the verifier computes from an honest prover's messages is the pairing of what the points
/// and the keys were folded to, exactly where the claimed pairing product is the true one.
pub proof fn law_pairing_product(v: Vectors, cs: Seq<int>, t: FqkValue)
    requires
        cs.len() > 0,
        v.a.len() == pow2(cs.len()),
        v.h.len() >= v.a.len() / 2,
        forall|i: int| 0 <= i < v.h.len() ==> 0 <= #[trigger] v.h[i] < order(),
        all_invertible(cs),
        forall|i: int| 0 <= i < cs.len() ==> #[trigger] cs[i] >= 0,
        fqk_reduced(t),
    ensures
        v.after(cs).a.len() == 1,
        v.after(cs).h.len() == 1,
        folded_t(t, v.all_messages(cs), cs) == pairing_value(v.after(cs).a[0] * v.after(cs).h[0])
            <==> t == pairing_value(dot(v.a, v.h)),
{
    let x = Vectors { a: v.a, y: v.a, h: v.h };
    let w = evened(x);
    let end = v.after(cs);
    lemma_pow2_unfold(cs.len());
    lemma_after_parts(v, x, cs);
    lemma_partial_t_agree(v, x, cs, t, cs.len() as int);
    lemma_evened(x, cs);
    lemma_evened_messages(x, cs);
    lemma_evened_round(x, 0);
    lemma_after(w, cs, cs.len());
    assert(cs.take(cs.len() as int) =~= cs);
    vstd::arithmetic::power2::lemma2_to64();
    let last = end.a[0] * end.h[0];
    assert(partial_dot(end.a, end.h, 0) == 0);
    assert(dot(end.a, end.h) == last);
    match t {
        FqkValue::Zero => {
            lemma_partial_t_zero(v.all_messages(cs), cs, cs.len() as int);
        },
        FqkValue::Power(j) => {
            lemma_partial_t(w, cs, j, cs.len() as int);
            let claimed = pairing_exponent(dot(v.a, v.h));
            let left_over = pairing_exponent(last);
            lemma_fqk_reduced(t, t, last);
            lemma_fqk_reduced(t, t, dot(v.a, v.h));
            lemma_cancel(j, claimed, left_over, unit_count());
        },
    }
}

/// Rounds leave the claim zero at zero.
proof fn lemma_partial_t_zero(ms: Seq<Messages>, cs: Seq<int>, n: int)
    ensures
        partial_t(FqkValue::Zero, ms, cs, n) == FqkValue::Zero,
    decreases n,
{
    if n > 0 {
        lemma_partial_t_zero(ms, cs, n - 1);
    }
}

/// Reduced representatives that differ by nothing are the same.
proof fn lemma_cancel(x: int, y: int, z: int, m: int)
    requires
        0 <= x < m,
        0 <= y < m,
        0 <= z < m,
    ensures
        (x - y + z) % m == z <==> x == y,
{
    lemma_small_mod(z as nat, m as nat);
    if (x - y + z) % m == z {
        lemma_sub_mod_noop(x - y + z, z, m);
        lemma_mod_self_0(m);
        lemma_sub_mod_noop(z, z, m);
        assert((x - y) % m == 0int % m);
        lemma_small_mod(0, m as nat);
        if x > y {
            lemma_small_mod((x - y) as nat, m as nat);
        } else if x < y {
            lemma_mod_add_multiples_vanish(x - y, m);
            lemma_small_mod((m + (x - y)) as nat, m as nat);
        }
    }
}

/// The keys fold to the commitment, under as many of them, to the polynomial of the challenges.
pub proof fn law_keys_fold_to_commitment(v: Vectors, cs: Seq<int>)
    requires
        cs.len() > 0,
        v.a.len() == pow2(cs.len()),
        v.h.len() >= v.a.len() / 2,
        forall|i: int| 0 <= i < v.h.len() ==> 0 <= #[trigger] v.h[i] < order(),
    ensures
        v.after(cs).h == seq![dot(v.h, evaluations(cs)) % order()],
{
    let x = Vectors { a: v.a, y: v.a, h: v.h };
    let w = evened(x);
    let evals = evaluations(cs);
    lemma_pow2_unfold(cs.len());
    lemma_after_parts(v, x, cs);
    lemma_evened(x, cs);
    lemma_after(w, cs, cs.len());
    lemma_fold_rounds_dot(w.h, cs);
    assert(evals.len() == v.a.len());
    lemma_dot_padded(evals, v.h);
    lemma_partial_dot_commutes(evals, w.h, w.h.len() as int);
    lemma_partial_dot_commutes(evals, v.h, shorter(evals.len() as int, v.h.len() as int));
}

/// The scalars of a point fold to what the verifier computes from the point.
pub proof fn law_scalars_fold_to_lines(v: Vectors, cs: Seq<int>, q: Seq<int>)
    requires
        v.a.len() == pow2(cs.len()),
        q.len() == cs.len(),
        v.y == tensor(q),
    ensures
        v.after(cs).y == seq![line_product(cs, q) % order()],
{
    lemma_fold_rounds_tensor(q, cs);
    let w = Vectors { a: v.a, y: v.y, h: v.a };
    lemma_after(w, cs, cs.len());
    lemma_after_parts(v, w, cs);
}

/// The value that the verifier computes is the value, at the drawn point, of the polynomial of the
/// challenges.
pub proof fn law_value_of_polynomial(cs: Seq<int>, rs: Seq<int>)
    requires
        rs.len() == cs.len(),
    ensures
        line_product(cs.reverse(), rs) % order() == multilinear_value(evaluations(cs), rs),
{
    lemma_evaluations_dot(cs, rs);
}

/// Whether two events are the same but for the value of a challenge.
pub open spec fn alike(a: Event, b: Event) -> bool {
    match (a, b) {
        (Event::Challenge { label: l, .. }, Event::Challenge { label: k, .. }) => l == k,
        _ => a == b,
    }
}

/// Logs of events that are the same but for the values of challenges are the same if the challenges
/// are drawn in the same way.
proof fn lemma_same_log(
    x: Seq<Event>,
    y: Seq<Event>,
    from: int,
    draw: spec_fn(Seq<Event>, Seq<u8>) -> int,
    n: int,
)
    requires
        x.len() == y.len(),
        0 <= from <= x.len(),
        0 <= n <= x.len(),
        x.take(from) == y.take(from),
        forall|i: int| 0 <= i < x.len() ==> alike(#[trigger] x[i], y[i]),
        drawn_by(x, from, draw),
        drawn_by(y, from, draw),
    ensures
        x.take(n) == y.take(n),
    decreases n,
{
    if n > 0 {
        let i = n - 1;
        lemma_same_log(x, y, from, draw, i);
        assert(alike(x[i], y[i]));
        if i < from {
            assert(x.take(from)[i] == x[i]);
            assert(y.take(from)[i] == y[i]);
        }
        assert(x[i] == y[i]);
        assert(x.take(n) =~= x.take(i).push(x[i]));
        assert(y.take(n) =~= y.take(i).push(y[i]));
    }
}

/// The events of rounds with the same messages are alike.
pub proof fn lemma_rounds_alike(ms: Seq<Messages>, cs: Seq<int>, ds: Seq<int>)
    requires
        cs.len() == ds.len(),
    ensures
        rounds_events(ms, cs).len() == 5 * cs.len(),
        rounds_events(ms, ds).len() == 5 * cs.len(),
        forall|i: int|
            0 <= i < 5 * cs.len() ==> alike(
                #[trigger] rounds_events(ms, cs)[i],
                rounds_events(ms, ds)[i],
            ),
    decreases cs.len(),
{
    if cs.len() > 0 {
        lemma_rounds_alike(ms, cs.drop_last(), ds.drop_last());
        let m = ms[cs.len() - 1];
        let p = round_events(m, cs.last());
        let q = round_events(m, ds.last());
        assert(p.len() == 5 && q.len() == 5);
        assert(forall|i: int| 0 <= i < 5 ==> alike(#[trigger] p[i], q[i]));
        let a = rounds_events(ms, cs);
        let b = rounds_events(ms, ds);
        let n = 5 * (cs.len() - 1);
        assert forall|i: int| 0 <= i < 5 * cs.len() implies alike(#[trigger] a[i], b[i]) by {
            if i >= n {
                assert(a[i] == p[i - n]);
                assert(b[i] == q[i - n]);
            }
        }
    }
}

/// The events of rounds show the challenges.
proof fn lemma_rounds_show(ms: Seq<Messages>, cs: Seq<int>, ds: Seq<int>)
    requires
        cs.len() == ds.len(),
        rounds_events(ms, cs) == rounds_events(ms, ds),
    ensures
        cs == ds,
    decreases cs.len(),
{
    if cs.len() > 0 {
        let x = rounds_events(ms, cs.drop_last());
        let y = rounds_events(ms, ds.drop_last());
        let p = round_events(ms[cs.len() - 1], cs.last());
        let q = round_events(ms[cs.len() - 1], ds.last());
        let n = 5 * (cs.len() - 1);
        lemma_rounds_alike(ms, cs.drop_last(), ds.drop_last());
        assert((x + p).take(n) =~= x);
        assert((y + q).take(n) =~= y);
        lemma_rounds_show(ms, cs.drop_last(), ds.drop_last());
        assert((x + p)[n + 4] == p[4]);
        assert((y + q)[n + 4] == q[4]);
        assert(cs =~= cs.drop_last().push(cs.last()));
        assert(ds =~= ds.drop_last().push(ds.last()));
    }
    assert(cs =~= ds);
}

/// A verifier who reads the prover's messages draws the prover's challenges, if both transcripts
/// start out alike and draw a challenge from what was said before it.
pub proof fn law_same_challenges(
    before: Seq<Event>,
    u: int,
    ms: Seq<Messages>,
    cs: Seq<int>,
    rs: Seq<int>,
    ds: Seq<int>,
    ss: Seq<int>,
    draw: spec_fn(Seq<Event>, Seq<u8>) -> int,
)
    requires
        cs.len() == ds.len(),
        rs.len() == ss.len(),
        drawn_by(
            before + folding_events(u, ms, cs) + point_events(rs),
            before.len() as int,
            draw,
        ),
        drawn_by(
            before + folding_events(u, ms, ds) + point_events(ss),
            before.len() as int,
            draw,
        ),
    ensures
        cs == ds,
        rs == ss,
{
    let x = before + folding_events(u, ms, cs) + point_events(rs);
    let y = before + folding_events(u, ms, ds) + point_events(ss);
    let n = before.len() as int;
    let k = n + 1 + 5 * cs.len();
    lemma_rounds_alike(ms, cs, ds);
    assert(x.take(n) =~= before);
    assert(y.take(n) =~= before);
    assert forall|i: int| 0 <= i < x.len() implies alike(#[trigger] x[i], y[i]) by {
        if n + 1 <= i < k {
            assert(x[i] == rounds_events(ms, cs)[i - n - 1]);
            assert(y[i] == rounds_events(ms, ds)[i - n - 1]);
        } else if i >= k {
            assert(x[i] == point_events(rs)[i - k]);
            assert(y[i] == point_events(ss)[i - k]);
        }
    }
    lemma_same_log(x, y, n, draw, x.len() as int);
    assert(x.take(x.len() as int) =~= x);
    assert(y.take(y.len() as int) =~= y);
    assert(x.subrange(n + 1, k) =~= rounds_events(ms, cs));
    assert(y.subrange(n + 1, k) =~= rounds_events(ms, ds));
    lemma_rounds_show(ms, cs, ds);
    assert forall|i: int| 0 <= i < rs.len() implies rs[i] == ss[i] by {
        assert(x[k + i] == point_events(rs)[i]);
        assert(y[k + i] == point_events(ss)[i]);
    }
    assert(rs =~= ss);
}

/// Powers of two differ where their exponents do.
pub proof fn lemma_same_power(m: nat, n: nat)
    requires
        pow2(m) == pow2(n),
    ensures
        m == n,
{
    if m < n {
        lemma_pow2_strictly_increases(m, n);
    } else if n < m {
        lemma_pow2_strictly_increases(n, m);
    }
}

/// The events of one of several rounds, and those of the rounds before it.
pub proof fn lemma_rounds_at(ms: Seq<Messages>, cs: Seq<int>, i: int)
    requires
        0 <= i < cs.len(),
    ensures
        rounds_events(ms, cs).len() == 5 * cs.len(),
        rounds_events(ms, cs).take(5 * i) == rounds_events(ms, cs.take(i)),
        forall|j: int|
            0 <= j < 5 ==> rounds_events(ms, cs)[5 * i + j] == #[trigger] round_events(
                ms[i],
                cs[i],
            )[j],
    decreases cs.len(),
{
    let before = rounds_events(ms, cs.drop_last());
    let all = rounds_events(ms, cs);
    let n = 5 * (cs.len() - 1);
    lemma_rounds_alike(ms, cs.drop_last(), cs.drop_last());
    if i == cs.len() - 1 {
        assert(cs.take(i) =~= cs.drop_last());
        assert(all.take(5 * i) =~= before);
    } else {
        lemma_rounds_at(ms, cs.drop_last(), i);
        assert(cs.drop_last().take(i) =~= cs.take(i));
        assert(all.take(5 * i) =~= before.take(5 * i));
        assert forall|j: int| 0 <= j < 5 implies all[5 * i + j] == #[trigger] round_events(
            ms[i],
            cs[i],
        )[j] by {
            assert(before[5 * i + j] == round_events(ms[i], cs.drop_last()[i])[j]);
        }
    }
}

/// Rounds that go on from the same log give the same challenges, as far as both go, if the messages
/// of a round are the same where the challenges before it are.
proof fn lemma_same_rounds(
    before: Seq<Event>,
    u: int,
    ms: Seq<Messages>,
    ns: Seq<Messages>,
    cs: Seq<int>,
    ds: Seq<int>,
    x: Seq<Event>,
    y: Seq<Event>,
    draw: spec_fn(Seq<Event>, Seq<u8>) -> int,
    k: int,
)
    requires
        0 <= k <= cs.len(),
        k <= ds.len(),
        forall|i: int|
            #![trigger ms[i]]
            0 <= i < k && cs.take(i) == ds.take(i) ==> ms[i] == ns[i],
        drawn_by(before + folding_events(u, ms, cs) + x, before.len() as int, draw),
        drawn_by(before + folding_events(u, ns, ds) + y, before.len() as int, draw),
    ensures
        cs.take(k) == ds.take(k),
    decreases k,
{
    if k > 0 {
        let i = k - 1;
        lemma_same_rounds(before, u, ms, ns, cs, ds, x, y, draw, i);
        assert forall|j: int| 0 <= j <= i implies #[trigger] ms[j] == ns[j] by {
            assert(cs.take(j) =~= cs.take(i).take(j));
            assert(ds.take(j) =~= ds.take(i).take(j));
        }
        lemma_rounds_at(ms, cs, i);
        lemma_rounds_at(ns, ds, i);
        lemma_rounds_events_agree(ms, ns, cs.take(i));
        let p = before + folding_events(u, ms, cs) + x;
        let q = before + folding_events(u, ns, ds) + y;
        let first = before.len() + 1 + 5 * i;
        let n = first + 4;
        assert forall|j: int| 0 <= j < 5 implies p[first + j] == #[trigger] round_events(
            ms[i],
            cs[i],
        )[j] by {
            assert(p[first + j] == rounds_events(ms, cs)[5 * i + j]);
        }
        assert forall|j: int| 0 <= j < 5 implies q[first + j] == #[trigger] round_events(
            ns[i],
            ds[i],
        )[j] by {
            assert(q[first + j] == rounds_events(ns, ds)[5 * i + j]);
        }
        assert forall|j: int| 0 <= j < n implies p.take(n)[j] == q.take(n)[j] by {
            if before.len() < j < first {
                let e = j - before.len() - 1;
                assert(p[j] == rounds_events(ms, cs).take(5 * i)[e]);
                assert(q[j] == rounds_events(ns, ds).take(5 * i)[e]);
            } else if j >= first {
                assert(p[first + (j - first)] == round_events(ms[i], cs[i])[j - first]);
                assert(q[first + (j - first)] == round_events(ns[i], ds[i])[j - first]);
            }
        }
        assert(p.take(n) =~= q.take(n));
        assert(p[first + 4] == round_events(ms[i], cs[i])[4]);
        assert(q[first + 4] == round_events(ns[i], ds[i])[4]);
        assert(cs[i] == ds[i]);
        assert(cs.take(k) =~= cs.take(i).push(cs[i]));
        assert(ds.take(k) =~= ds.take(i).push(ds[i]));
    } else {
        assert(cs.take(0) =~= ds.take(0));
    }
}

/// Challenges that are the same as far as both go, of which one list holds no zero and is the longer,
/// cannot end in a zero.
proof fn lemma_no_zero(cs: Seq<int>, ds: Seq<int>)
    requires
        all_nonzero(cs),
        0 < ds.len() <= cs.len(),
        cs.take(ds.len() as int) == ds.take(ds.len() as int),
    ensures
        ds.last() != 0,
{
    let i = ds.len() - 1;
    assert(cs.take(ds.len() as int)[i] == cs[i]);
    assert(ds.take(ds.len() as int)[i] == ds[i]);
}

/// Challenges that are the same as far as both go, and of each of which the last is the first zero,
/// are the same.
proof fn lemma_same_zero(cs: Seq<int>, ds: Seq<int>)
    requires
        0 < cs.len(),
        0 < ds.len(),
        cs.last() == 0,
        ds.last() == 0,
        all_nonzero(cs.drop_last()),
        all_nonzero(ds.drop_last()),
        cs.len() <= ds.len() ==> cs.take(cs.len() as int) == ds.take(cs.len() as int),
        ds.len() <= cs.len() ==> cs.take(ds.len() as int) == ds.take(ds.len() as int),
    ensures
        cs == ds,
{
    if cs.len() < ds.len() {
        let i = cs.len() - 1;
        assert(ds.take(cs.len() as int)[i] == ds.drop_last()[i]);
        assert(cs.take(cs.len() as int)[i] == cs[i]);
    } else if ds.len() < cs.len() {
        let i = ds.len() - 1;
        assert(cs.take(ds.len() as int)[i] == cs.drop_last()[i]);
        assert(ds.take(ds.len() as int)[i] == ds[i]);
    } else {
        assert(cs.take(cs.len() as int) =~= cs);
        assert(ds.take(ds.len() as int) =~= ds);
    }
}

/// A power of two is halved as often as its exponent says.
pub proof fn lemma_halvings(m: nat)
    ensures
        halvings(pow2(m)) == m,
    decreases m,
{
    if m == 0 {
        vstd::arithmetic::power2::lemma2_to64();
    } else {
        lemma_pow2_unfold(m);
        lemma_pow2_pos((m - 1) as nat);
        lemma_halvings((m - 1) as nat);
    }
}

/// Whether two openings hold the same elements and numbers.
pub open spec fn same_opening(o: MippOpening, p: MippOpening) -> bool {
    &&& messages(o.comms_u@, o.comms_t@) == messages(p.comms_u@, p.comms_t@)
    &&& o.final_a.multiple() == p.final_a.multiple()
    &&& o.final_y@ == p.final_y@
    &&& o.final_h.multiple() == p.final_h.multiple()
    &&& scalar_values(o.challenges@) == scalar_values(p.challenges@)
    &&& scalar_values(o.evaluations@) == scalar_values(p.evaluations@)
    &&& scalar_values(o.point@) == scalar_values(p.point@)
}

/// Whether two provers come out in the same way.
pub open spec fn same_proving(
    r: Result<MippOpening, Error>,
    s: Result<MippOpening, Error>,
) -> bool {
    match (r, s) {
        (Ok(o), Ok(p)) => same_opening(o, p),
        (Err(e), Err(f)) => e == f,
        _ => false,
    }
}

/// The rounds of two provers who hold the same vectors and draw in the same way.
proof fn lemma_same_proving_rounds(
    before: Seq<Event>,
    u: int,
    v: Vectors,
    cs: Seq<int>,
    ds: Seq<int>,
    x: Seq<Event>,
    y: Seq<Event>,
    draw: spec_fn(Seq<Event>, Seq<u8>) -> int,
    k: int,
)
    requires
        0 <= k <= cs.len(),
        k <= ds.len(),
        drawn_by(
            before + folding_events(u, v.all_messages(cs), cs) + x,
            before.len() as int,
            draw,
        ),
        drawn_by(
            before + folding_events(u, v.all_messages(ds), ds) + y,
            before.len() as int,
            draw,
        ),
    ensures
        cs.take(k) == ds.take(k),
{
    let ms = v.all_messages(cs);
    let ns = v.all_messages(ds);
    lemma_same_rounds(before, u, ms, ns, cs, ds, x, y, draw, k);
}

/// How far a prover goes, and what is said after the rounds.
proof fn lemma_proving_rounds(
    before: Seq<Event>,
    after: Seq<Event>,
    u: int,
    v: Vectors,
    r: Result<MippOpening, Error>,
) -> (w: (Seq<int>, Seq<Event>))
    requires
        proved(before, after, u, v, r),
    ensures
        after == before + folding_events(u, v.all_messages(w.0), w.0) + w.1,
        r matches Ok(o) ==> w.0 == scalar_values(o.challenges@) && w.1 == point_events(
            scalar_values(o.point@),
        ),
        r is Err ==> w.1 == Seq::<Event>::empty(),
        !(r matches Err(Error::ZeroChallenge)) ==> w.0.len() == v.rounds() && all_nonzero(w.0),
        r matches Err(Error::ZeroChallenge) ==> 0 < w.0.len() <= v.rounds() && w.0.last() == 0
            && all_nonzero(w.0.drop_last()),
{
    match r {
        Ok(o) => {
            let cs = scalar_values(o.challenges@);
            lemma_halvings(cs.len());
            (cs, point_events(scalar_values(o.point@)))
        },
        Err(Error::InvalidIPVectorLength) => {
            let cs = choose|cs: Seq<int>|
                {
                    &&& cs.len() == v.rounds()
                    &&& all_nonzero(cs)
                    &&& #[trigger] went_on(before, after, u, v, cs)
                };
            assert(after =~= before + folding_events(u, v.all_messages(cs), cs)
                + Seq::<Event>::empty());
            (cs, Seq::empty())
        },
        _ => {
            let cs = choose|cs: Seq<int>|
                {
                    &&& 0 < cs.len() <= v.rounds()
                    &&& cs.last() == 0
                    &&& all_nonzero(cs.drop_last())
                    &&& #[trigger] went_on(before, after, u, v, cs)
                };
            assert(after =~= before + folding_events(u, v.all_messages(cs), cs)
                + Seq::<Event>::empty());
            (cs, Seq::empty())
        },
    }
}

/// The prover is determined by the vectors, by the claimed inner product, by what was said before and
/// by how challenges are drawn.  Two provers who share these come out in the same way and say the
/// same, whatever pairing products they were given: nothing of a prover depends on that.
pub proof fn law_prover_is_determined(
    before: Seq<Event>,
    u: int,
    v: Vectors,
    after: Seq<Event>,
    r: Result<MippOpening, Error>,
    other_after: Seq<Event>,
    other_r: Result<MippOpening, Error>,
    draw: spec_fn(Seq<Event>, Seq<u8>) -> int,
)
    requires
        proved(before, after, u, v, r),
        proved(before, other_after, u, v, other_r),
        drawn_by(after, before.len() as int, draw),
        drawn_by(other_after, before.len() as int, draw),
    ensures
        after == other_after,
        same_proving(r, other_r),
{
    let (cs, x) = lemma_proving_rounds(before, after, u, v, r);
    let (ds, y) = lemma_proving_rounds(before, other_after, u, v, other_r);
    let k = shorter(cs.len() as int, ds.len() as int);
    lemma_same_proving_rounds(before, u, v, cs, ds, x, y, draw, k);
    match (r, other_r) {
        (Err(Error::ZeroChallenge), Err(Error::ZeroChallenge)) => {
            lemma_same_zero(cs, ds);
        },
        (Err(Error::ZeroChallenge), _) => {
            lemma_no_zero(ds, cs);
        },
        (_, Err(Error::ZeroChallenge)) => {
            lemma_no_zero(cs, ds);
        },
        (Ok(o), Ok(p)) => {
            assert(cs.take(k) =~= cs);
            assert(ds.take(k) =~= ds);
            let rs = scalar_values(o.point@);
            let ss = scalar_values(p.point@);
            law_same_challenges(before, u, v.all_messages(cs), cs, rs, ds, ss, draw);
            let end = v.after(cs);
            assert(end.a[0] == o.final_a.multiple() && end.a[0] == p.final_a.multiple());
            assert(end.y[0] == o.final_y@ && end.y[0] == p.final_y@);
            assert(end.h[0] == o.final_h.multiple() && end.h[0] == p.final_h.multiple());
        },
        _ => {
            assert(cs.take(k) =~= cs);
            assert(ds.take(k) =~= ds);
        },
    }
}

/// Whether two claims hold the same elements, numbers and findings.
pub open spec fn same_claim(c: MippClaim, d: MippClaim) -> bool {
    &&& scalar_values(c.challenges@) == scalar_values(d.challenges@)
    &&& c.final_y@ == d.final_y@
    &&& c.comm_h.nv == d.comm_h.nv
    &&& c.comm_h.h_product.multiple() == d.comm_h.h_product.multiple()
    &&& scalar_values(c.point@) == scalar_values(d.point@)
    &&& c.value@ == d.value@
    &&& c.check_u == d.check_u
    &&& c.check_t == d.check_t
}

/// Whether two verifiers come out in the same way.
pub open spec fn same_verifying(r: Result<MippClaim, Error>, s: Result<MippClaim, Error>) -> bool {
    match (r, s) {
        (Ok(c), Ok(d)) => same_claim(c, d),
        (Err(e), Err(f)) => e == f,
        _ => false,
    }
}

/// How far a verifier goes, and what is said after the rounds.
proof fn lemma_verifying_rounds(
    before: Seq<Event>,
    after: Seq<Event>,
    proof: MippProof,
    q: Seq<int>,
    u: int,
    t: FqkValue,
    r: Result<MippClaim, Error>,
) -> (w: (Seq<int>, Seq<Event>))
    requires
        verified(before, after, proof, q, u, t, r),
    ensures
        after == before + folding_events(u, proof.messages(), w.0) + w.1,
        r matches Ok(c) ==> w.0 == scalar_values(c.challenges@) && w.0.len() == q.len()
            && all_nonzero(w.0) && w.1 == point_events(scalar_values(c.point@)),
        r is Err ==> 0 < w.0.len() <= q.len() && w.0.last() == 0 && all_nonzero(w.0.drop_last())
            && w.1 == Seq::<Event>::empty() && r == Err::<MippClaim, Error>(Error::ZeroChallenge),
{
    match r {
        Ok(c) => (scalar_values(c.challenges@), point_events(scalar_values(c.point@))),
        Err(_) => {
            let cs = choose|cs: Seq<int>|
                {
                    &&& 0 < cs.len() <= q.len()
                    &&& cs.last() == 0
                    &&& all_nonzero(cs.drop_last())
                    &&& after == before + #[trigger] folding_events(u, proof.messages(), cs)
                };
            assert(after =~= before + folding_events(u, proof.messages(), cs)
                + Seq::<Event>::empty());
            (cs, Seq::empty())
        },
    }
}

/// The verifier is determined by what the proof says in the rounds and leaves at their end, by the
/// point, by the claims, by what was said before and by how challenges are drawn.
pub proof fn law_verifier_is_determined(
    before: Seq<Event>,
    proof: MippProof,
    other: MippProof,
    q: Seq<int>,
    u: int,
    t: FqkValue,
    after: Seq<Event>,
    r: Result<MippClaim, Error>,
    other_after: Seq<Event>,
    other_r: Result<MippClaim, Error>,
    draw: spec_fn(Seq<Event>, Seq<u8>) -> int,
)
    requires
        proof.messages() == other.messages(),
        proof.final_a.multiple() == other.final_a.multiple(),
        proof.final_h.multiple() == other.final_h.multiple(),
        verified(before, after, proof, q, u, t, r),
        verified(before, other_after, other, q, u, t, other_r),
        drawn_by(after, before.len() as int, draw),
        drawn_by(other_after, before.len() as int, draw),
    ensures
        after == other_after,
        same_verifying(r, other_r),
{
    let ms = proof.messages();
    let (cs, x) = lemma_verifying_rounds(before, after, proof, q, u, t, r);
    let (ds, y) = lemma_verifying_rounds(before, other_after, other, q, u, t, other_r);
    let k = shorter(cs.len() as int, ds.len() as int);
    lemma_same_rounds(before, u, ms, ms, cs, ds, x, y, draw, k);
    match (r, other_r) {
        (Ok(c), Ok(d)) => {
            let rs = scalar_values(c.point@);
            let ss = scalar_values(d.point@);
            law_same_challenges(before, u, ms, cs, rs, ds, ss, draw);
        },
        (Ok(_), Err(_)) => {
            lemma_no_zero(cs, ds);
        },
        (Err(_), Ok(_)) => {
            lemma_no_zero(ds, cs);
        },
        (Err(_), Err(_)) => {
            lemma_same_zero(cs, ds);
        },
    }
}

/// Pairing messages beyond the rounds are never read: a verifier who is handed more of them comes out
/// in the same way and says the same.
pub proof fn law_surplus_messages_are_not_read(
    before: Seq<Event>,
    proof: MippProof,
    longer: MippProof,
    surplus: Seq<(Fqk, Fqk)>,
    q: Seq<int>,
    u: int,
    t: FqkValue,
    after: Seq<Event>,
    r: Result<MippClaim, Error>,
    other_after: Seq<Event>,
    other_r: Result<MippClaim, Error>,
    draw: spec_fn(Seq<Event>, Seq<u8>) -> int,
)
    requires
        proof.comms_t@.len() >= proof.comms_u@.len(),
        longer.comms_t@ == proof.comms_t@ + surplus,
        longer.comms_u@ == proof.comms_u@,
        longer.final_a == proof.final_a,
        longer.final_h == proof.final_h,
        verified(before, after, proof, q, u, t, r),
        verified(before, other_after, longer, q, u, t, other_r),
        drawn_by(after, before.len() as int, draw),
        drawn_by(other_after, before.len() as int, draw),
    ensures
        longer.messages() == proof.messages(),
        after == other_after,
        same_verifying(r, other_r),
{
    assert(longer.messages() =~= proof.messages());
    law_verifier_is_determined(
        before,
        proof,
        longer,
        q,
        u,
        t,
        after,
        r,
        other_after,
        other_r,
        draw,
    );
}

/// An honest argument is accepted.  Let the scalars be those of a point, let the claimed inner
/// product and the claimed pairing product be the true ones, let the prover have succeeded, and let
/// prover and verifier draw their challenges in the same way.  Then the verifier says what the prover
/// said, meets no challenge of zero, and finds both products to come out.  What the verifier is left
/// to check is true as well: of the prover's polynomial, committed to under the keys, that it takes a
/// value at the point that the prover opens it at, and that value is the polynomial's.
pub proof fn law_completeness(
    a: Seq<G1>,
    y: Seq<Scalar>,
    h: Seq<G2>,
    opening: MippOpening,
    proof: MippProof,
    q: Seq<int>,
    u: int,
    t: FqkValue,
    before: Seq<Event>,
    proved_after: Seq<Event>,
    verified_after: Seq<Event>,
    r: Result<MippClaim, Error>,
    draw: spec_fn(Seq<Event>, Seq<u8>) -> int,
)
    requires
        a.len() >= 2,
        h.len() >= a.len() / 2,
        proved(before, proved_after, u, vectors(a, y, h), Ok(opening)),
        scalar_values(y) == tensor(q),
        u == dot(multiples(a), scalar_values(y)) % order(),
        t == pairing_value(dot(multiples(a), multiples(h))),
        proof.comms_u == opening.comms_u,
        proof.comms_t == opening.comms_t,
        proof.final_a == opening.final_a,
        proof.final_h == opening.final_h,
        verified(before, verified_after, proof, q, u, t, r),
        drawn_by(proved_after, before.len() as int, draw),
        drawn_by(verified_after, before.len() as int, draw),
    ensures
        verified_after == proved_after,
        r matches Ok(claim) && {
            &&& claim.check_u
            &&& claim.check_t
            &&& claim.comm_h.h_product.multiple() == dot(
                multiples(h),
                scalar_values(opening.evaluations@),
            ) % order()
            &&& scalar_values(claim.point@) == scalar_values(opening.point@)
            &&& claim.value@ == multilinear_value(
                scalar_values(opening.evaluations@),
                scalar_values(opening.point@),
            )
        },
{
    let v = vectors(a, y, h);
    let ms = proof.messages();
    let cs = scalar_values(opening.challenges@);
    let rs = scalar_values(opening.point@);
    vstd::arithmetic::power2::lemma2_to64();
    assert forall|i: int| 0 <= i < v.h.len() implies 0 <= #[trigger] v.h[i] < order() by {
        h[i].lemma_multiple_range();
    }
    assert forall|i: int| 0 <= i < cs.len() implies #[trigger] cs[i] >= 0 by {
        lemma_scalar_range(opening.challenges@[i]);
    }
    assert(tensor(q).len() == pow2(q.len()));
    lemma_same_power(cs.len(), q.len());
    let (ds, x) = lemma_verifying_rounds(before, verified_after, proof, q, u, t, r);
    lemma_same_rounds(
        before,
        u,
        ms,
        ms,
        cs,
        ds,
        point_events(rs),
        x,
        draw,
        ds.len() as int,
    );
    if r is Err {
        lemma_no_zero(cs, ds);
    }
    let ss = scalar_values(r->Ok_0.point@);
    law_same_challenges(before, u, ms, cs, rs, ds, ss, draw);
    law_inner_product(v, cs, u);
    lemma_congruent_mod(dot(v.a, v.y));
    lemma_fqk_reduced(t, t, dot(v.a, v.h));
    law_pairing_product(v, cs, t);
    law_keys_fold_to_commitment(v, cs);
    law_scalars_fold_to_lines(v, cs, q);
    law_value_of_polynomial(cs, rs);
}

/// One round turns the true products into those of the folded vectors.
pub proof fn law_one_round(v: Vectors, c: int)
    requires
        v.a.len() == 2 * v.split(),
        v.y.len() == v.a.len(),
        v.h.len() >= v.split(),
        forall|i: int| 0 <= i < v.h.len() ==> 0 <= #[trigger] v.h[i] < order(),
        invertible(c),
        c >= 0,
    ensures
        congruent(
            dot(v.folded(c).a, v.folded(c).y),
            dot(v.a, v.y) + v.messages().u_l * c + v.messages().u_r * inverse(c),
        ),
        pairing_value(dot(v.folded(c).a, v.folded(c).h)) == fqk_product(
            pairing_value(dot(v.a, v.h)),
            fqk_product(
                fqk_power(v.messages().t_l, c),
                fqk_power(v.messages().t_r, inverse(c)),
            ),
        ),
{
    let n = v.split();
    let x = inverse(c);
    let w = evened(v);
    assert(is_inverse(c, x));
    assert(x * c == c * x) by (nonlinear_arith);
    lemma_round(v.a, v.y, n, x, c);
    let l = dot(left(v.a, n), right(v.y, n));
    let r = dot(right(v.a, n), left(v.y, n));
    lemma_congruent_mod(l);
    lemma_congruent_mod(r);
    lemma_congruent_ops(v.messages().u_l, l, c, c);
    lemma_congruent_ops(v.messages().u_r, r, x, x);
    lemma_congruent_ops(dot(v.a, v.y), dot(v.a, v.y), v.messages().u_l * c, l * c);
    lemma_congruent_ops(
        dot(v.a, v.y) + v.messages().u_l * c,
        dot(v.a, v.y) + l * c,
        v.messages().u_r * x,
        r * x,
    );
    lemma_evened_round(v, c);
    lemma_round(w.a, w.h, n, x, c);
    let p = dot(left(w.a, n), right(w.h, n));
    let q = dot(right(w.a, n), left(w.h, n));
    lemma_pairing_power(p, c);
    lemma_pairing_power(q, x);
    lemma_pairing_product(p * c, q * x);
    lemma_pairing_product(dot(w.a, w.h), p * c + q * x);
}

/// What two claims differ by, the rounds leave.
proof fn lemma_partial_u_difference(u: int, w: int, ms: Seq<Messages>, cs: Seq<int>, n: int)
    ensures
        partial_u(u, ms, cs, n) - partial_u(w, ms, cs, n) == u - w,
    decreases n,
{
    if n > 0 {
        lemma_partial_u_difference(u, w, ms, cs, n - 1);
    }
}

/// Whatever the messages and the challenges, the verifier's equation holds of one inner product at
/// most.
pub proof fn law_one_inner_product(u: int, w: int, ms: Seq<Messages>, cs: Seq<int>)
    requires
        folded_u(u, ms, cs) == folded_u(w, ms, cs),
    ensures
        congruent(u, w),
{
    let n = cs.len() as int;
    let p = partial_u(u, ms, cs, n);
    let q = partial_u(w, ms, cs, n);
    lemma_partial_u_difference(u, w, ms, cs, n);
    lemma_congruent_ops(p, q, q, q);
    lemma_congruent_ops(p - q, 0, w, w);
}

/// Rounds that leave the same element, other than zero, were given the same claim.
proof fn lemma_partial_t_injective(
    t: FqkValue,
    w: FqkValue,
    ms: Seq<Messages>,
    cs: Seq<int>,
    n: int,
)
    requires
        fqk_reduced(t),
        fqk_reduced(w),
        partial_t(t, ms, cs, n) == partial_t(w, ms, cs, n),
        partial_t(t, ms, cs, n) is Power,
    ensures
        t == w,
    decreases n,
{
    if n > 0 {
        let f = fqk_product(
            fqk_power(ms[n - 1].t_l, cs[n - 1]),
            fqk_power(ms[n - 1].t_r, inverse(cs[n - 1])),
        );
        let p = partial_t(t, ms, cs, n - 1);
        let q = partial_t(w, ms, cs, n - 1);
        lemma_partial_t_reduced(t, ms, cs, n - 1);
        lemma_partial_t_reduced(w, ms, cs, n - 1);
        lemma_fqk_reduced(
            fqk_power(ms[n - 1].t_l, cs[n - 1]),
            fqk_power(ms[n - 1].t_r, inverse(cs[n - 1])),
            0,
        );
        if let (FqkValue::Power(j), FqkValue::Power(k), FqkValue::Power(e)) = (p, q, f) {
            let m = unit_count();
            lemma_sub_mod_noop(j + e, k + e, m);
            lemma_sub_mod_noop(k + e, k + e, m);
            assert((j - k) % m == 0int % m);
            lemma_small_mod(0, m as nat);
            lemma_cancel(j, k, 0, m);
        }
        lemma_partial_t_injective(t, w, ms, cs, n - 1);
    }
}

/// Rounds keep exponents reduced.
proof fn lemma_partial_t_reduced(t: FqkValue, ms: Seq<Messages>, cs: Seq<int>, n: int)
    requires
        fqk_reduced(t),
    ensures
        fqk_reduced(partial_t(t, ms, cs, n)),
{
    if n > 0 {
        lemma_fqk_reduced(
            partial_t(t, ms, cs, n - 1),
            fqk_product(
                fqk_power(ms[n - 1].t_l, cs[n - 1]),
                fqk_power(ms[n - 1].t_r, inverse(cs[n - 1])),
            ),
            0,
        );
    }
}

/// Whatever the messages and the challenges, the verifier's equation, whose other side is a pairing,
/// holds of one pairing product at most.
pub proof fn law_one_pairing_product(
    t: FqkValue,
    w: FqkValue,
    ms: Seq<Messages>,
    cs: Seq<int>,
    k: int,
)
    requires
        fqk_reduced(t),
        fqk_reduced(w),
        folded_t(t, ms, cs) == pairing_value(k),
        folded_t(w, ms, cs) == pairing_value(k),
    ensures
        t == w,
{
    lemma_partial_t_injective(t, w, ms, cs, cs.len() as int);
}

/// What lies beyond the shorter of two vectors does not enter into their inner product.
pub proof fn law_surplus_is_not_read(a: Seq<int>, b: Seq<int>, c: Seq<int>)
    ensures
        a.len() <= b.len() ==> dot(a, b + c) == dot(a, b),
        b.len() <= a.len() ==> dot(a + c, b) == dot(a, b),
{
    if a.len() <= b.len() {
        lemma_partial_dot_same(a, a, b + c, b, a.len() as int);
    }
    if b.len() <= a.len() {
        lemma_partial_dot_same(a + c, a, b, b, b.len() as int);
    }
}

/// Folding the multiples of one point is folding what it is multiplied by.
pub proof fn law_folding_is_linear(s: Seq<int>, base: int, split: int, c: int)
    requires
        0 <= split <= s.len(),
    ensures
        fold(scaled(s, base), split, c) == scaled(fold(s, split, c), base),
{
    let p = scaled(s, base);
    let q = fold(s, split, c);
    assert forall|i: int| 0 <= i < split implies fold(p, split, c)[i] == #[trigger] scaled(
        q,
        base,
    )[i] by {
        if split + i < s.len() {
            let x = s[i];
            let y = s[split + i];
            lemma_congruent_mod(base * x);
            lemma_congruent_mod(base * y);
            lemma_congruent_ops(p[split + i], base * y, c, c);
            lemma_congruent_ops(p[i], base * x, p[split + i] * c, base * y * c);
            lemma_congruent_mod(x + y * c);
            lemma_congruent_ops(base, base, q[i], x + y * c);
            assert(base * (x + y * c) == base * x + base * y * c) by (nonlinear_arith);
        }
    }
    assert(fold(p, split, c) =~= scaled(q, base));
}

/// A number times each entry, reduced.
pub open spec fn scaled(s: Seq<int>, base: int) -> Seq<int> {
    Seq::new(s.len(), |i: int| (base * s[i]) % order())
}

/// One more challenge in front doubles the evaluations: they stay, and follow once more scaled by it.
pub proof fn law_evaluations_double(c: int, cs: Seq<int>)
    ensures
        evaluations(seq![c] + cs) == evaluations(cs) + scaled(evaluations(cs), c),
{
    let ds = seq![c] + cs;
    let evals = evaluations(cs);
    lemma_evaluations_halves(ds);
    assert(ds.drop_first() =~= cs);
    assert forall|k: int| 0 <= k < evals.len() implies #[trigger] evaluations(ds)[evals.len() + k]
        == (c * evals[k]) % order() by {
        assert(evaluations(ds)[evals.len() + k] == (evals[k] * c) % order());
        assert(evals[k] * c == c * evals[k]) by (nonlinear_arith);
    }
    assert(evaluations(ds) =~= evals + scaled(evals, c));
}

} // verus!

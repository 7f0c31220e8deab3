//! What a verifier's claim says, spelled out over the proof, the point and the claimed products.

use crate::algebra::{
    congruent, dot, fqk_reduced, lemma_unit_count, order, pairing_cofactor, pairing_value,
    partial_dot, product, unit_count, FqkValue,
};
use crate::error::Error;
use crate::groups::{CurvePoint, G1, G2};
use crate::laws::{
    law_inner_product, law_one_inner_product, law_one_pairing_product, law_pairing_product,
    law_scalars_fold_to_lines, lemma_rounds_at,
};
use crate::mipp::{proved, vectors, verified, MippClaim, MippOpening, MippProof};
use crate::polynomial::{
    complements, lemma_select_is_product, partial_line_product, tensor, vertex_weights,
};
use crate::protocol::{
    folding_events, inverse, is_inverse, lemma_inverse_unique, partial_t, partial_u, round_events,
    rounds_events, Messages,
};
use crate::scalar::{lemma_scalar_range, scalar_values, Scalar};
use crate::transcript::Event;
use vstd::arithmetic::div_mod::{lemma_add_mod_noop, lemma_mod_twice};
use vstd::arithmetic::power2::pow2;
use vstd::prelude::*;

verus! {

/// A claimed inner product after some rounds, as sums over their messages.
proof fn lemma_partial_u_sums(
    u: int,
    ms: Seq<Messages>,
    cs: Seq<int>,
    ls: Seq<int>,
    rs: Seq<int>,
    xs: Seq<int>,
    n: int,
)
    requires
        n >= 0,
        forall|i: int| 0 <= i < n ==> #[trigger] ls[i] == ms[i].u_l,
        forall|i: int| 0 <= i < n ==> #[trigger] rs[i] == ms[i].u_r,
        forall|i: int| 0 <= i < n ==> #[trigger] xs[i] == inverse(cs[i]),
    ensures
        partial_u(u, ms, cs, n) == u + partial_dot(ls, cs, n) + partial_dot(rs, xs, n),
    decreases n,
{
    if n > 0 {
        lemma_partial_u_sums(u, ms, cs, ls, rs, xs, n - 1);
        assert(ls[n - 1] == ms[n - 1].u_l);
        assert(rs[n - 1] == ms[n - 1].u_r);
        assert(xs[n - 1] == inverse(cs[n - 1]));
    }
}

/// When the verifier finds the inner product to come out.  To the claimed one, the left messages are
/// added, each times the challenge of its round, and the right messages, each times the inverse of
/// that challenge; what is left must be the last scalar times the last point.
pub proof fn law_verdict_on_inner_product(
    before: Seq<Event>,
    after: Seq<Event>,
    proof: MippProof,
    q: Seq<int>,
    u: int,
    t: FqkValue,
    claim: MippClaim,
    xs: Seq<int>,
)
    requires
        proof.comms_u@.len() == q.len(),
        verified(before, after, proof, q, u, t, Ok(claim)),
        xs.len() == q.len(),
        forall|i: int|
            0 <= i < q.len() ==> 0 <= #[trigger] xs[i] < order() && (claim.challenges@[i]@ * xs[i])
                % order() == 1,
    ensures
        claim.check_u <==> (u + dot(
            Seq::new(q.len(), |i: int| proof.comms_u@[i].0.multiple()),
            Seq::new(q.len(), |i: int| claim.challenges@[i]@),
        ) + dot(Seq::new(q.len(), |i: int| proof.comms_u@[i].1.multiple()), xs)) % order() == (
        proof.final_a.multiple() * claim.final_y@) % order(),
{
    let ms = proof.messages();
    let cs = scalar_values(claim.challenges@);
    let ls = Seq::new(q.len(), |i: int| proof.comms_u@[i].0.multiple());
    let rs = Seq::new(q.len(), |i: int| proof.comms_u@[i].1.multiple());
    assert(Seq::new(q.len(), |i: int| claim.challenges@[i]@) =~= cs);
    assert forall|i: int| 0 <= i < q.len() implies #[trigger] xs[i] == inverse(cs[i]) by {
        assert(cs[i] == claim.challenges@[i]@);
        assert(is_inverse(cs[i], xs[i]));
        lemma_inverse_unique(cs[i], xs[i]);
    }
    lemma_partial_u_sums(u, ms, cs, ls, rs, xs, q.len() as int);
}

/// The exponent of an element of the target field other than zero.
pub open spec fn exponent(x: FqkValue) -> int {
    match x {
        FqkValue::Power(k) => k,
        FqkValue::Zero => 0,
    }
}

/// A claimed pairing product after some rounds, as sums over the exponents of their messages.
proof fn lemma_partial_t_sums(
    t: FqkValue,
    ms: Seq<Messages>,
    cs: Seq<int>,
    ls: Seq<int>,
    rs: Seq<int>,
    xs: Seq<int>,
    n: int,
)
    requires
        n >= 0,
        t is Power,
        forall|i: int| 0 <= i < n ==> (#[trigger] ms[i]).t_l is Power && ms[i].t_r is Power,
        forall|i: int| 0 <= i < n ==> #[trigger] ls[i] == exponent(ms[i].t_l),
        forall|i: int| 0 <= i < n ==> #[trigger] rs[i] == exponent(ms[i].t_r),
        forall|i: int| 0 <= i < n ==> #[trigger] xs[i] == inverse(cs[i]),
    ensures
        partial_t(t, ms, cs, n) is Power,
        exponent(partial_t(t, ms, cs, n)) % unit_count() == (exponent(t) + partial_dot(ls, cs, n)
            + partial_dot(rs, xs, n)) % unit_count(),
        n > 0 ==> 0 <= exponent(partial_t(t, ms, cs, n)) < unit_count(),
    decreases n,
{
    if n > 0 {
        let i = n - 1;
        let m = unit_count();
        lemma_partial_t_sums(t, ms, cs, ls, rs, xs, i);
        lemma_unit_count();
        assert(m > 0) by (nonlinear_arith)
            requires
                m == pairing_cofactor() * order(),
                pairing_cofactor() > 0,
                order() > 0,
        ;
        assert(ms[i].t_l is Power && ms[i].t_r is Power);
        assert(xs[i] == inverse(cs[i]));
        assert(ls[i] == exponent(ms[i].t_l));
        assert(rs[i] == exponent(ms[i].t_r));
        let e = exponent(partial_t(t, ms, cs, i));
        let all = exponent(t) + partial_dot(ls, cs, i) + partial_dot(rs, xs, i);
        let x = ls[i] * cs[i];
        let y = rs[i] * xs[i];
        // The factor of the round has the exponent x + y.
        lemma_add_mod_noop(x, y, m);
        let f = (x % m + y % m) % m;
        assert(f == (x + y) % m);
        // And is added to the exponent so far.
        lemma_add_mod_noop(e, f, m);
        lemma_add_mod_noop(all, x + y, m);
        lemma_mod_twice(x + y, m);
        lemma_mod_twice(e + f, m);
        assert(exponent(partial_t(t, ms, cs, n)) == (e + f) % m);
    }
}

/// A message that is zero leaves zero.
proof fn lemma_partial_t_zero_message(
    t: FqkValue,
    ms: Seq<Messages>,
    cs: Seq<int>,
    k: int,
    n: int,
)
    requires
        0 <= k < n,
        ms[k].t_l is Zero || ms[k].t_r is Zero,
        cs[k] != 0,
        inverse(cs[k]) != 0,
    ensures
        partial_t(t, ms, cs, n) is Zero,
    decreases n,
{
    if k < n - 1 {
        lemma_partial_t_zero_message(t, ms, cs, k, n - 1);
    }
}

/// A claim of zero leaves zero.
proof fn lemma_partial_t_zero_claim(ms: Seq<Messages>, cs: Seq<int>, n: int)
    ensures
        partial_t(FqkValue::Zero, ms, cs, n) is Zero,
    decreases n,
{
    if n > 0 {
        lemma_partial_t_zero_claim(ms, cs, n - 1);
    }
}

/// When the verifier finds the pairing product to come out.  No element may be zero.  To the exponent
/// of the claimed one, those of the left messages are added, each times the challenge of its round,
/// and those of the right messages, each times the inverse of that challenge; what is left must be
/// the exponent of the pairing of the last point and the last key.
pub proof fn law_verdict_on_pairing_product(
    before: Seq<Event>,
    after: Seq<Event>,
    proof: MippProof,
    q: Seq<int>,
    u: int,
    t: FqkValue,
    claim: MippClaim,
    xs: Seq<int>,
)
    requires
        q.len() > 0,
        proof.comms_u@.len() == q.len(),
        proof.comms_t@.len() >= q.len(),
        verified(before, after, proof, q, u, t, Ok(claim)),
        xs.len() == q.len(),
        forall|i: int|
            0 <= i < q.len() ==> 0 <= #[trigger] xs[i] < order() && (claim.challenges@[i]@ * xs[i])
                % order() == 1,
    ensures
        claim.check_t <==> {
            &&& t is Power
            &&& forall|i: int|
                0 <= i < q.len() ==> (#[trigger] proof.comms_t@[i]).0@ is Power
                    && proof.comms_t@[i].1@ is Power
            &&& (exponent(t) + dot(
                Seq::new(q.len(), |i: int| exponent(proof.comms_t@[i].0@)),
                Seq::new(q.len(), |i: int| claim.challenges@[i]@),
            ) + dot(Seq::new(q.len(), |i: int| exponent(proof.comms_t@[i].1@)), xs))
                % unit_count() == exponent(
                pairing_value(proof.final_a.multiple() * proof.final_h.multiple()),
            )
        },
{
    let ms = proof.messages();
    let cs = scalar_values(claim.challenges@);
    let ls = Seq::new(q.len(), |i: int| exponent(proof.comms_t@[i].0@));
    let rs = Seq::new(q.len(), |i: int| exponent(proof.comms_t@[i].1@));
    let n = q.len() as int;
    assert(Seq::new(q.len(), |i: int| claim.challenges@[i]@) =~= cs);
    assert forall|i: int| 0 <= i < n implies #[trigger] xs[i] == inverse(cs[i]) && xs[i] != 0
        && cs[i] != 0 by {
        assert(cs[i] == claim.challenges@[i]@);
        assert(is_inverse(cs[i], xs[i]));
        lemma_inverse_unique(cs[i], xs[i]);
        if xs[i] == 0 || cs[i] == 0 {
            assert(cs[i] * xs[i] == 0) by (nonlinear_arith)
                requires
                    xs[i] == 0 || cs[i] == 0,
            ;
        }
    }
    let good = forall|i: int|
        0 <= i < n ==> (#[trigger] proof.comms_t@[i]).0@ is Power && proof.comms_t@[i].1@ is Power;
    if t is Zero {
        lemma_partial_t_zero_claim(ms, cs, n);
    } else if !good {
        let k = choose|k: int|
            0 <= k < n && !((#[trigger] proof.comms_t@[k]).0@ is Power && proof.comms_t@[k].1@
                is Power);
        assert(xs[k] == inverse(cs[k]));
        lemma_partial_t_zero_message(t, ms, cs, k, n);
    } else {
        assert forall|i: int| 0 <= i < n implies (#[trigger] ms[i]).t_l is Power && ms[i].t_r
            is Power by {
            assert(proof.comms_t@[i].0@ is Power);
        }
        lemma_partial_t_sums(t, ms, cs, ls, rs, xs, n);
        vstd::arithmetic::div_mod::lemma_small_mod(
            exponent(partial_t(t, ms, cs, n)) as nat,
            unit_count() as nat,
        );
    }
}

/// A product of lines is the product of its factors.
proof fn lemma_line_is_product(c: Seq<int>, p: Seq<int>, factors: Seq<int>, n: int)
    requires
        0 <= n <= factors.len(),
        forall|i: int| 0 <= i < n ==> #[trigger] factors[i] == 1 + c[i] * p[i] - p[i],
    ensures
        partial_line_product(c, p, n) == product(factors.take(n)),
    decreases n,
{
    if n > 0 {
        lemma_line_is_product(c, p, factors, n - 1);
        assert(factors.take(n).drop_last() =~= factors.take(n - 1));
        assert(factors[n - 1] == 1 + c[n - 1] * p[n - 1] - p[n - 1]);
    }
}

/// What a claim holds beside its verdicts: challenges none of which is zero, the last scalar as a
/// product over the coordinates of the point, the commitment as the last key of the proof, and the
/// value at the drawn point as a product over its coordinates, the challenges from the last.
pub proof fn law_claim(
    before: Seq<Event>,
    after: Seq<Event>,
    proof: MippProof,
    q: Seq<int>,
    u: int,
    t: FqkValue,
    claim: MippClaim,
)
    requires
        verified(before, after, proof, q, u, t, Ok(claim)),
    ensures
        claim.challenges@.len() == q.len(),
        claim.point@.len() == q.len(),
        forall|i: int| 0 <= i < q.len() ==> (#[trigger] claim.challenges@[i])@ != 0,
        claim.final_y@ == product(
            Seq::new(
                q.len(),
                |i: int| 1 + claim.challenges@[i]@ * q[i] - q[i],
            ),
        ) % order(),
        claim.comm_h.nv == q.len(),
        claim.comm_h.h_product.multiple() == proof.final_h.multiple(),
        claim.value@ == product(
            Seq::new(
                q.len(),
                |i: int|
                    1 + claim.challenges@[q.len() - 1 - i]@ * claim.point@[i]@ - claim.point@[i]@,
            ),
        ) % order(),
{
    let cs = scalar_values(claim.challenges@);
    let rs = scalar_values(claim.point@);
    let n = q.len() as int;
    assert forall|i: int| 0 <= i < q.len() implies (#[trigger] claim.challenges@[i])@ != 0 by {
        assert(cs[i] != 0);
    }
    let f = Seq::new(q.len(), |i: int| 1 + claim.challenges@[i]@ * q[i] - q[i]);
    let g = Seq::new(
        q.len(),
        |i: int| 1 + claim.challenges@[q.len() - 1 - i]@ * claim.point@[i]@ - claim.point@[i]@,
    );
    lemma_line_is_product(cs, q, f, n);
    lemma_line_is_product(cs.reverse(), rs, g, n);
    assert(f.take(n) =~= f);
    assert(g.take(n) =~= g);
}

/// The verdicts are sound against a wrong claim.  Of two inner products that the verifier finds to
/// come out of the same proof for the same point, under the same challenges, neither is the false
/// one: they are the same.  So are two such pairing products.
pub proof fn law_only_one_claim_comes_out(
    before: Seq<Event>,
    after: Seq<Event>,
    proof: MippProof,
    q: Seq<int>,
    u: int,
    t: FqkValue,
    claim: MippClaim,
    other_before: Seq<Event>,
    other_after: Seq<Event>,
    other_u: int,
    other_t: FqkValue,
    other_claim: MippClaim,
)
    requires
        verified(before, after, proof, q, u, t, Ok(claim)),
        verified(other_before, other_after, proof, q, other_u, other_t, Ok(other_claim)),
        claim.challenges@.len() == other_claim.challenges@.len(),
        forall|i: int|
            0 <= i < claim.challenges@.len() ==> (#[trigger] claim.challenges@[i])@
                == other_claim.challenges@[i]@,
        fqk_reduced(t),
        fqk_reduced(other_t),
    ensures
        claim.check_u && other_claim.check_u ==> u % order() == other_u % order(),
        claim.check_t && other_claim.check_t ==> t == other_t,
        claim.check_u && u % order() == other_u % order() ==> other_claim.check_u,
        claim.check_t && t == other_t ==> other_claim.check_t,
{
    let ms = proof.messages();
    let cs = scalar_values(claim.challenges@);
    assert(scalar_values(other_claim.challenges@) =~= cs);
    if claim.check_u && other_claim.check_u {
        law_one_inner_product(u, other_u, ms, cs);
    }
    if claim.check_t && other_claim.check_t {
        law_one_pairing_product(
            t,
            other_t,
            ms,
            cs,
            proof.final_a.multiple() * proof.final_h.multiple(),
        );
    }
    if u % order() == other_u % order() {
        lemma_partial_u_shift(u, other_u, ms, cs, cs.len() as int);
    }
}

/// Congruent claims stay congruent.
proof fn lemma_partial_u_shift(u: int, w: int, ms: Seq<Messages>, cs: Seq<int>, n: int)
    requires
        congruent(u, w),
    ensures
        congruent(partial_u(u, ms, cs, n), partial_u(w, ms, cs, n)),
    decreases n,
{
    if n > 0 {
        lemma_partial_u_shift(u, w, ms, cs, n - 1);
        let l = ms[n - 1].u_l * cs[n - 1];
        let r = ms[n - 1].u_r * inverse(cs[n - 1]);
        crate::algebra::lemma_congruent_ops(
            partial_u(u, ms, cs, n - 1),
            partial_u(w, ms, cs, n - 1),
            l + r,
            l + r,
        );
    }
}

/// The verdicts are exact on an honest prover's messages, under the prover's challenges: an inner
/// product comes out exactly where it is the one of the points and the scalars, and a pairing product
/// exactly where it is the one of the points and the keys.
pub proof fn law_verdict_on_honest_messages(
    a: Seq<G1>,
    y: Seq<Scalar>,
    h: Seq<G2>,
    proved_before: Seq<Event>,
    proved_after: Seq<Event>,
    proved_u: int,
    opening: MippOpening,
    proof: MippProof,
    before: Seq<Event>,
    after: Seq<Event>,
    q: Seq<int>,
    u: int,
    t: FqkValue,
    claim: MippClaim,
)
    requires
        a.len() >= 2,
        h.len() >= a.len() / 2,
        proved(proved_before, proved_after, proved_u, vectors(a, y, h), Ok(opening)),
        proof.comms_u == opening.comms_u,
        proof.comms_t == opening.comms_t,
        proof.final_a == opening.final_a,
        proof.final_h == opening.final_h,
        verified(before, after, proof, q, u, t, Ok(claim)),
        scalar_values(y) == tensor(q),
        claim.challenges@.len() == opening.challenges@.len(),
        forall|i: int|
            0 <= i < claim.challenges@.len() ==> (#[trigger] claim.challenges@[i])@
                == opening.challenges@[i]@,
        fqk_reduced(t),
    ensures
        claim.check_u <==> u % order() == dot(
            Seq::new(a.len(), |i: int| a[i].multiple()),
            Seq::new(y.len(), |i: int| y[i]@),
        ) % order(),
        claim.check_t <==> t == pairing_value(
            dot(
                Seq::new(a.len(), |i: int| a[i].multiple()),
                Seq::new(h.len(), |i: int| h[i].multiple()),
            ),
        ),
{
    let v = vectors(a, y, h);
    let cs = scalar_values(opening.challenges@);
    assert(scalar_values(claim.challenges@) =~= cs);
    assert(v.a =~= Seq::new(a.len(), |i: int| a[i].multiple()));
    assert(v.y =~= Seq::new(y.len(), |i: int| y[i]@));
    assert(v.h =~= Seq::new(h.len(), |i: int| h[i].multiple()));
    vstd::arithmetic::power2::lemma2_to64();
    assert forall|i: int| 0 <= i < v.h.len() implies 0 <= #[trigger] v.h[i] < order() by {
        h[i].lemma_multiple_range();
    }
    assert forall|i: int| 0 <= i < cs.len() implies #[trigger] cs[i] >= 0 by {
        lemma_scalar_range(opening.challenges@[i]);
    }
    law_inner_product(v, cs, u);
    law_pairing_product(v, cs, t);
    law_scalars_fold_to_lines(v, cs, q);
}

/// The scalars of a point, one for each vertex of the hypercube: the product of a coordinate where
/// the vertex has a binary digit one, and of its complement elsewhere, the first coordinate at the
/// most significant place.
pub proof fn law_tensor(q: Seq<int>)
    ensures
        tensor(q).len() == pow2(q.len()),
        forall|k: int|
            0 <= k < pow2(q.len()) ==> #[trigger] tensor(q)[k] == product(
                Seq::new(
                    q.len(),
                    |j: int|
                        if (k / pow2(j as nat) as int) % 2 == 1 {
                            q[q.len() - 1 - j]
                        } else {
                            1 - q[q.len() - 1 - j]
                        },
                ),
            ) % order(),
{
    let p = q.reverse();
    assert forall|k: int| 0 <= k < pow2(q.len()) implies #[trigger] tensor(q)[k] == product(
        Seq::new(
            q.len(),
            |j: int|
                if (k / pow2(j as nat) as int) % 2 == 1 {
                    q[q.len() - 1 - j]
                } else {
                    1 - q[q.len() - 1 - j]
                },
        ),
    ) % order() by {
        let factors = Seq::new(
            q.len(),
            |j: int|
                if (k / pow2(j as nat) as int) % 2 == 1 {
                    q[q.len() - 1 - j]
                } else {
                    1 - q[q.len() - 1 - j]
                },
        );
        lemma_select_is_product(complements(p), p, k, factors, q.len() as int);
        assert(factors.take(q.len() as int) =~= factors);
        assert(vertex_weights(p)[k] == product(factors));
    }
}

/// There is a claim wherever no round is ended by a challenge of zero.
pub proof fn law_verifier_succeeds(
    before: Seq<Event>,
    after: Seq<Event>,
    proof: MippProof,
    q: Seq<int>,
    u: int,
    t: FqkValue,
    r: Result<MippClaim, Error>,
)
    requires
        verified(before, after, proof, q, u, t, r),
        forall|i: int|
            before.len() <= i < after.len() ==> #[trigger] after[i] != (Event::Challenge {
                label: seq![0x63u8, 0x68, 0x61, 0x6c, 0x6c, 0x65, 0x6e, 0x67, 0x65, 0x5f, 0x69],
                value: 0,
            }),
    ensures
        r is Ok,
{
    if r is Err {
        law_verifier_fails(before, after, proof, q, u, t, r);
    }
}

/// A verifier who gives no claim has just drawn a challenge of zero.
pub proof fn law_verifier_fails(
    before: Seq<Event>,
    after: Seq<Event>,
    proof: MippProof,
    q: Seq<int>,
    u: int,
    t: FqkValue,
    r: Result<MippClaim, Error>,
)
    requires
        verified(before, after, proof, q, u, t, r),
        r is Err,
    ensures
        r == Err::<MippClaim, Error>(Error::ZeroChallenge),
        after.len() > before.len(),
        after.last() == (Event::Challenge {
            label: seq![0x63u8, 0x68, 0x61, 0x6c, 0x6c, 0x65, 0x6e, 0x67, 0x65, 0x5f, 0x69],
            value: 0,
        }),
{
    let ms = proof.messages();
    let cs = choose|cs: Seq<int>|
        {
            &&& 0 < cs.len() <= q.len()
            &&& cs.last() == 0
            &&& crate::mipp::all_nonzero(cs.drop_last())
            &&& after == before + #[trigger] folding_events(u, ms, cs)
        };
    let i = cs.len() - 1;
    lemma_rounds_at(ms, cs, i);
    assert(rounds_events(ms, cs)[5 * i + 4] == round_events(ms[i], cs[i])[4]);
    assert(after.last() == rounds_events(ms, cs)[5 * i + 4]);
}

} // verus!

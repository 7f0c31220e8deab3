//! When a prover succeeds, and what comes back, spelled out round by round.

use crate::algebra::{dot, order, pairing_value, product};
use crate::error::Error;
use crate::groups::{CurvePoint, G1, G2};
use crate::laws::{
    law_keys_fold_to_commitment, lemma_after, lemma_after_parts, lemma_rounds_at, lemma_same_power,
};
use crate::mipp::{messages, proved, vectors, MippOpening};
use crate::polynomial::{lemma_select_is_product, ones};
use crate::protocol::{
    halvings, is_inverse, left, lemma_inverse_unique, right, round_events, rounds_events,
    went_on, Vectors,
};
use crate::scalar::{scalar_values, Scalar};
use crate::transcript::Event;
use vstd::arithmetic::power2::{is_pow2, lemma_pow2_pos, lemma_pow2_unfold, pow2};
use vstd::prelude::*;

verus! {

/// A power of two is one by the recursive test.
proof fn lemma_pow2_is_pow2(m: nat)
    ensures
        is_pow2(pow2(m) as int),
    decreases m,
{
    reveal(is_pow2);
    if m == 0 {
        vstd::arithmetic::power2::lemma2_to64();
    } else {
        lemma_pow2_unfold(m);
        lemma_pow2_pos((m - 1) as nat);
        lemma_pow2_is_pow2((m - 1) as nat);
    }
}

/// A number other than a power of two is a power of two times an odd number above one.
proof fn lemma_odd_part(n: nat) -> (w: (nat, nat))
    requires
        n > 0,
        !is_pow2(n as int),
    ensures
        w.0 > 1,
        w.0 % 2 == 1,
        n == w.0 * pow2(w.1),
        halvings(n) == w.1,
    decreases n,
{
    reveal(is_pow2);
    if n % 2 == 1 {
        vstd::arithmetic::power2::lemma2_to64();
        assert(n * 1 == n);
        (n, 0)
    } else {
        let (odd, k) = lemma_odd_part(n / 2);
        lemma_pow2_unfold(k + 1);
        let p = pow2(k);
        assert(odd * (2 * p) == 2 * (odd * p)) by (nonlinear_arith);
        assert(odd * pow2(k + 1) == odd * (2 * p));
        (odd, k + 1)
    }
}

/// The prover succeeds where it should.  If the points are a power of two and at least two, if there
/// are as many scalars, and if no round is ended by a challenge of zero, an opening comes back, with a
/// pair of commitments of either kind, a challenge and a coordinate for each halving.
pub proof fn law_prover_succeeds(
    a: Seq<G1>,
    y: Seq<Scalar>,
    h: Seq<G2>,
    m: nat,
    before: Seq<Event>,
    after: Seq<Event>,
    u: int,
    r: Result<MippOpening, Error>,
)
    requires
        m >= 1,
        a.len() == pow2(m),
        y.len() == a.len(),
        proved(before, after, u, vectors(a, y, h), r),
        forall|i: int|
            before.len() <= i < after.len() ==> #[trigger] after[i] != (Event::Challenge {
                label: seq![0x63u8, 0x68, 0x61, 0x6c, 0x6c, 0x65, 0x6e, 0x67, 0x65, 0x5f, 0x69],
                value: 0,
            }),
    ensures
        r matches Ok(opening) && {
            &&& opening.comms_u@.len() == m
            &&& opening.comms_t@.len() == m
            &&& opening.challenges@.len() == m
            &&& opening.point@.len() == m
            &&& opening.evaluations@.len() == pow2(m)
        },
{
    let v = vectors(a, y, h);
    lemma_pow2_is_pow2(m);
    match r {
        Ok(opening) => {
            let cs = scalar_values(opening.challenges@);
            lemma_same_power(cs.len(), m);
            assert(messages(opening.comms_u@, opening.comms_t@).len() == v.all_messages(cs).len());
            assert(scalar_values(opening.evaluations@).len() == opening.evaluations@.len());
        },
        Err(Error::ZeroChallenge) => {
            law_prover_meets_zero(a, y, h, before, after, u);
        },
        Err(_) => {},
    }
}

/// A prover who succeeds had a power of two of points, at least two, and as many scalars, and drew no
/// challenge of zero.
pub proof fn law_prover_succeeded(
    a: Seq<G1>,
    y: Seq<Scalar>,
    h: Seq<G2>,
    before: Seq<Event>,
    after: Seq<Event>,
    u: int,
    opening: MippOpening,
)
    requires
        proved(before, after, u, vectors(a, y, h), Ok(opening)),
    ensures
        a.len() == pow2(opening.challenges@.len()),
        y.len() == a.len(),
        forall|i: int|
            0 <= i < opening.challenges@.len() ==> (#[trigger] opening.challenges@[i])@ != 0,
{
    let cs = scalar_values(opening.challenges@);
    assert forall|i: int| 0 <= i < opening.challenges@.len() implies (
    #[trigger] opening.challenges@[i])@ != 0 by {
        assert(cs[i] != 0);
    }
}

/// The lengths are found wrong only where a halving leaves halves that differ: where the scalars are
/// not as many as the points, which shows in the first round, or where the points are an odd number
/// above one after some halvings, which shows when these rounds are over.
pub proof fn law_lengths_are_wrong(
    a: Seq<G1>,
    y: Seq<Scalar>,
    h: Seq<G2>,
    before: Seq<Event>,
    after: Seq<Event>,
    u: int,
)
    requires
        a.len() >= 2,
        proved(
            before,
            after,
            u,
            vectors(a, y, h),
            Err::<MippOpening, Error>(Error::InvalidIPVectorLength),
        ),
    ensures
        y.len() != a.len() ==> after.len() == before.len() + 1,
        y.len() == a.len() ==> exists|odd: nat, k: nat|
            odd > 1 && odd % 2 == 1 && a.len() == odd * #[trigger] pow2(k) && after.len()
                == before.len() + 1 + 5 * k && #[trigger] (odd + k) >= 0,
{
    let v = vectors(a, y, h);
    let cs = choose|cs: Seq<int>|
        {
            &&& cs.len() == v.rounds()
            &&& crate::mipp::all_nonzero(cs)
            &&& #[trigger] went_on(before, after, u, v, cs)
        };
    crate::laws::lemma_rounds_alike(v.all_messages(cs), cs, cs);
    if y.len() == a.len() {
        let (odd, k) = lemma_odd_part(a.len());
        assert(odd > 1 && odd % 2 == 1 && a.len() == odd * pow2(k) && after.len() == before.len()
            + 1 + 5 * k && odd + k >= 0);
    }
}

/// A prover who stops at a zero has just drawn it to end a round.
pub proof fn law_prover_meets_zero(
    a: Seq<G1>,
    y: Seq<Scalar>,
    h: Seq<G2>,
    before: Seq<Event>,
    after: Seq<Event>,
    u: int,
)
    requires
        proved(
            before,
            after,
            u,
            vectors(a, y, h),
            Err::<MippOpening, Error>(Error::ZeroChallenge),
        ),
    ensures
        y.len() == a.len(),
        after.len() > before.len(),
        after.last() == (Event::Challenge {
            label: seq![0x63u8, 0x68, 0x61, 0x6c, 0x6c, 0x65, 0x6e, 0x67, 0x65, 0x5f, 0x69],
            value: 0,
        }),
{
    let v = vectors(a, y, h);
    let cs = choose|cs: Seq<int>|
        {
            &&& 0 < cs.len() <= v.rounds()
            &&& cs.last() == 0
            &&& crate::mipp::all_nonzero(cs.drop_last())
            &&& #[trigger] went_on(before, after, u, v, cs)
        };
    let ms = v.all_messages(cs);
    let i = cs.len() - 1;
    lemma_rounds_at(ms, cs, i);
    assert(rounds_events(ms, cs)[5 * i + 4] == round_events(ms[i], cs[i])[4]);
    assert(after.last() == rounds_events(ms, cs)[5 * i + 4]);
}

/// A prover fails in no other way.
pub proof fn law_prover_fails(
    a: Seq<G1>,
    y: Seq<Scalar>,
    h: Seq<G2>,
    before: Seq<Event>,
    after: Seq<Event>,
    u: int,
    e: Error,
)
    requires
        proved(before, after, u, vectors(a, y, h), Err::<MippOpening, Error>(e)),
    ensures
        e is InvalidIPVectorLength || e is ZeroChallenge,
{
}

/// The vectors that a prover holds at the beginning are those that were given.
pub proof fn law_rounds_begin(a: Seq<G1>, y: Seq<Scalar>, h: Seq<G2>)
    ensures
        vectors(a, y, h).after(Seq::empty()).a == Seq::new(a.len(), |i: int| a[i].multiple()),
        vectors(a, y, h).after(Seq::empty()).y == Seq::new(y.len(), |i: int| y[i]@),
        vectors(a, y, h).after(Seq::empty()).h == Seq::new(h.len(), |i: int| h[i].multiple()),
{
    let v = vectors(a, y, h).after(Seq::empty());
    assert(v.a =~= Seq::new(a.len(), |i: int| a[i].multiple()));
    assert(v.y =~= Seq::new(y.len(), |i: int| y[i]@));
    assert(v.h =~= Seq::new(h.len(), |i: int| h[i].multiple()));
}

/// One of the prover's rounds.  The vectors before it are halved.  The commitments of the round are
/// the inner products and the pairing products of the halves crosswise, the left points first.  The
/// vectors after it are the left halves, with the right halves added, scaled by the challenge; those
/// of the points by its inverse `x`.
pub proof fn law_round(
    a: Seq<G1>,
    y: Seq<Scalar>,
    h: Seq<G2>,
    before: Seq<Event>,
    after: Seq<Event>,
    u: int,
    opening: MippOpening,
    i: int,
    x: int,
)
    requires
        proved(before, after, u, vectors(a, y, h), Ok(opening)),
        0 <= i < opening.challenges@.len(),
        0 <= x < order(),
        (opening.challenges@[i]@ * x) % order() == 1,
    ensures
        ({
            let cs = Seq::new(opening.challenges@.len(), |k: int| opening.challenges@[k]@);
            let n = pow2((cs.len() - i - 1) as nat) as int;
            let w = vectors(a, y, h).after(cs.take(i));
            let z = vectors(a, y, h).after(cs.take(i + 1));
            &&& w.a.len() == 2 * n
            &&& w.y.len() == 2 * n
            &&& opening.comms_u@[i].0.multiple() == dot(w.a.subrange(0, n), w.y.subrange(n, 2 * n))
                % order()
            &&& opening.comms_u@[i].1.multiple() == dot(w.a.subrange(n, 2 * n), w.y.subrange(0, n))
                % order()
            &&& opening.comms_t@[i].0@ == pairing_value(
                dot(w.a.subrange(0, n), w.h.subrange(n, w.h.len() as int)),
            )
            &&& opening.comms_t@[i].1@ == pairing_value(
                dot(w.a.subrange(n, 2 * n), w.h.subrange(0, n)),
            )
            &&& z.a.len() == n
            &&& z.y.len() == n
            &&& z.h.len() == n
            &&& forall|j: int|
                0 <= j < n ==> #[trigger] z.a[j] == (w.a[j] + w.a[n + j] * x) % order()
            &&& forall|j: int|
                0 <= j < n ==> #[trigger] z.y[j] == (w.y[j] + w.y[n + j] * cs[i]) % order()
            &&& forall|j: int|
                0 <= j < n ==> #[trigger] z.h[j] == (if n + j < w.h.len() {
                    (w.h[j] + w.h[n + j] * cs[i]) % order()
                } else {
                    w.h[j]
                })
        }),
{
    let v = vectors(a, y, h);
    let cs = Seq::new(opening.challenges@.len(), |k: int| opening.challenges@[k]@);
    assert(cs =~= scalar_values(opening.challenges@));
    let m = cs.len();
    let n = pow2((m - i - 1) as nat) as int;
    let w = v.after(cs.take(i));
    let z = v.after(cs.take(i + 1));
    let even = Vectors { a: v.a, y: v.y, h: v.a };
    lemma_after(even, cs.take(i), m);
    lemma_after_parts(v, even, cs.take(i));
    lemma_pow2_unfold((m - i) as nat);
    assert(w.split() == n);
    assert(cs.take(i + 1).drop_last() =~= cs.take(i));
    assert(cs.take(i + 1).last() == cs[i]);
    assert(z == w.folded(cs[i]));
    let ms = v.all_messages(cs);
    let said = messages(opening.comms_u@, opening.comms_t@);
    assert(said.len() == ms.len());
    assert(said[i] == ms[i]);
    assert(ms[i] == w.messages());
    assert(left(w.a, n) =~= w.a.subrange(0, n));
    assert(right(w.a, n) =~= w.a.subrange(n, 2 * n));
    assert(left(w.y, n) =~= w.y.subrange(0, n));
    assert(right(w.y, n) =~= w.y.subrange(n, 2 * n));
    assert(left(w.h, n) =~= w.h.subrange(0, n));
    assert(right(w.h, n) =~= w.h.subrange(n, w.h.len() as int));
    assert(is_inverse(cs[i], x));
    lemma_inverse_unique(cs[i], x);
    assert(opening.comms_u@[i].0.multiple() == said[i].u_l);
    assert(forall|j: int| 0 <= j < n ==> #[trigger] z.a[j] == (w.a[j] + w.a[n + j] * x) % order());
    assert(forall|j: int|
        0 <= j < n ==> #[trigger] z.y[j] == (w.y[j] + w.y[n + j] * cs[i]) % order());
}

/// What is left at the end of the prover's rounds is what comes back.
pub proof fn law_rounds_end(
    a: Seq<G1>,
    y: Seq<Scalar>,
    h: Seq<G2>,
    before: Seq<Event>,
    after: Seq<Event>,
    u: int,
    opening: MippOpening,
)
    requires
        proved(before, after, u, vectors(a, y, h), Ok(opening)),
    ensures
        ({
            let cs = Seq::new(opening.challenges@.len(), |k: int| opening.challenges@[k]@);
            let end = vectors(a, y, h).after(cs);
            &&& end.a == seq![opening.final_a.multiple()]
            &&& end.y == seq![opening.final_y@]
            &&& end.h == seq![opening.final_h.multiple()]
        }),
{
    assert(Seq::new(opening.challenges@.len(), |k: int| opening.challenges@[k]@) =~= scalar_values(
        opening.challenges@,
    ));
}

/// The evaluations that a prover returns: at each vertex of the hypercube, the product of the
/// challenges at the places where the vertex has a binary digit one, the first challenge at the most
/// significant place.  The last key is the inner product of the keys with them.
pub proof fn law_opening_evaluations(
    a: Seq<G1>,
    y: Seq<Scalar>,
    h: Seq<G2>,
    before: Seq<Event>,
    after: Seq<Event>,
    u: int,
    opening: MippOpening,
)
    requires
        a.len() >= 2,
        h.len() >= a.len() / 2,
        proved(before, after, u, vectors(a, y, h), Ok(opening)),
    ensures
        opening.evaluations@.len() == pow2(opening.challenges@.len()),
        forall|k: int|
            0 <= k < opening.evaluations@.len() ==> (#[trigger] opening.evaluations@[k])@ == product(
                Seq::new(
                    opening.challenges@.len(),
                    |j: int|
                        if (k / pow2(j as nat) as int) % 2 == 1 {
                            opening.challenges@[opening.challenges@.len() - 1 - j]@
                        } else {
                            1
                        },
                ),
            ) % order(),
        opening.final_h.multiple() == dot(
            Seq::new(h.len(), |i: int| h[i].multiple()),
            Seq::new(opening.evaluations@.len(), |i: int| opening.evaluations@[i]@),
        ) % order(),
{
    let v = vectors(a, y, h);
    let cs = scalar_values(opening.challenges@);
    let m = cs.len();
    let evals = scalar_values(opening.evaluations@);
    assert(evals.len() == opening.evaluations@.len());
    assert forall|k: int| 0 <= k < opening.evaluations@.len() implies (
    #[trigger] opening.evaluations@[k])@ == product(
        Seq::new(
            opening.challenges@.len(),
            |j: int|
                if (k / pow2(j as nat) as int) % 2 == 1 {
                    opening.challenges@[opening.challenges@.len() - 1 - j]@
                } else {
                    1
                },
        ),
    ) % order() by {
        let factors = Seq::new(
            opening.challenges@.len(),
            |j: int|
                if (k / pow2(j as nat) as int) % 2 == 1 {
                    opening.challenges@[opening.challenges@.len() - 1 - j]@
                } else {
                    1
                },
        );
        lemma_select_is_product(ones(m), cs.reverse(), k, factors, m as int);
        assert(factors.take(m as int) =~= factors);
        assert(evals[k] == opening.evaluations@[k]@);
    }
    vstd::arithmetic::power2::lemma2_to64();
    assert forall|i: int| 0 <= i < v.h.len() implies 0 <= #[trigger] v.h[i] < order() by {
        h[i].lemma_multiple_range();
    }
    law_keys_fold_to_commitment(v, cs);
    assert(v.after(cs).h[0] == opening.final_h.multiple());
    assert(v.h =~= Seq::new(h.len(), |i: int| h[i].multiple()));
    assert(evals =~= Seq::new(opening.evaluations@.len(), |i: int| opening.evaluations@[i]@));
}

} // verus!

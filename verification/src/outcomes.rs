//! What provers and verifiers come out with, spelled out entry by entry.

use crate::algebra::{dot, order, pairing_value, partial_dot, product, FqkValue};
use crate::error::Error;
use crate::groups::{fqk_encoding, g1_encoding, multiples, CurvePoint, Fqk, G1, G2};
use crate::laws::{lemma_rounds_alike, lemma_rounds_at};
use crate::mipp::{all_nonzero, messages, proved, verified, MippClaim, MippOpening, MippProof};
use crate::protocol::{
    folding_events, is_inverse, lemma_inverse_unique, point_events, round_events, rounds_events,
    went_on, Messages, Vectors,
};
use crate::scalar::{scalar_values, Scalar};
use crate::transcript::Event;
use vstd::prelude::*;

verus! {

/// A product is built up factor by factor.
pub proof fn law_product(s: Seq<int>, x: int)
    ensures
        product(Seq::empty()) == 1,
        product(s.push(x)) == product(s) * x,
{
    assert(s.push(x).drop_last() =~= s);
}

/// An inner product is built up pair by pair.
pub proof fn law_dot(a: Seq<int>, b: Seq<int>, x: int, y: int)
    requires
        a.len() == b.len(),
    ensures
        dot(Seq::empty(), b) == 0,
        dot(a, Seq::empty()) == 0,
        dot(a.push(x), b.push(y)) == dot(a, b) + x * y,
{
    let n = a.len() as int;
    lemma_partial_dot_same(a.push(x), a, b.push(y), b, n);
}

/// Inner products of the same entries are the same.
proof fn lemma_partial_dot_same(a: Seq<int>, b: Seq<int>, c: Seq<int>, d: Seq<int>, n: int)
    requires
        forall|i: int| 0 <= i < n ==> #[trigger] a[i] == b[i],
        forall|i: int| 0 <= i < n ==> #[trigger] c[i] == d[i],
    ensures
        partial_dot(a, c, n) == partial_dot(b, d, n),
    decreases n,
{
    if n > 0 {
        lemma_partial_dot_same(a, b, c, d, n - 1);
    }
}

/// Scalars and points are valued one by one, and in their order.
pub proof fn law_values(s: Seq<Scalar>, a: Seq<G1>, h: Seq<G2>)
    ensures
        scalar_values(s).len() == s.len(),
        forall|i: int| 0 <= i < s.len() ==> #[trigger] scalar_values(s)[i] == s[i]@,
        multiples(a).len() == a.len(),
        forall|i: int| 0 <= i < a.len() ==> #[trigger] multiples(a)[i] == a[i].multiple(),
        multiples(h).len() == h.len(),
        forall|i: int| 0 <= i < h.len() ==> #[trigger] multiples(h)[i] == h[i].multiple(),
{
}

/// What lies where in a log that rounds and a drawn point were added to.
proof fn lemma_log(
    before: Seq<Event>,
    after: Seq<Event>,
    u: int,
    ms: Seq<Messages>,
    cs: Seq<int>,
    rs: Seq<int>,
)
    requires
        after == before + folding_events(u, ms, cs) + point_events(rs),
    ensures
        after.len() == before.len() + 1 + 5 * cs.len() + rs.len(),
        after.take(before.len() as int) == before,
        after[before.len() as int] == (Event::Append {
            label: seq![0x55u8],
            bytes: g1_encoding(u),
        }),
        forall|i: int, j: int|
            0 <= i < cs.len() && 0 <= j < 5 ==> after[before.len() + 1 + 5 * i + j]
                == #[trigger] round_events(ms[i], cs[i])[j],
        forall|i: int|
            0 <= i < rs.len() ==> after[before.len() + 1 + 5 * cs.len() + i]
                == #[trigger] point_events(rs)[i],
{
    let n = before.len() as int;
    lemma_rounds_alike(ms, cs, cs);
    assert(after.take(n) =~= before);
    assert forall|i: int, j: int| 0 <= i < cs.len() && 0 <= j < 5 implies after[n + 1 + 5 * i + j]
        == #[trigger] round_events(ms[i], cs[i])[j] by {
        lemma_rounds_at(ms, cs, i);
        assert(after[n + 1 + 5 * i + j] == rounds_events(ms, cs)[5 * i + j]);
    }
}

/// The log of a verifier: the claimed inner product, then in every round each of the four messages of
/// the proof under its own label, and the challenge after them, and at the end the drawn point.
pub proof fn law_verifier_log(
    before: Seq<Event>,
    after: Seq<Event>,
    proof: MippProof,
    q: Seq<int>,
    u: int,
    t: FqkValue,
    claim: MippClaim,
)
    requires
        proof.comms_u@.len() == q.len(),
        proof.comms_t@.len() >= q.len(),
        verified(before, after, proof, q, u, t, Ok(claim)),
    ensures
        claim.challenges@.len() == q.len(),
        claim.point@.len() == q.len(),
        after.len() == before.len() + 1 + 6 * q.len(),
        after.take(before.len() as int) == before,
        // U
        after[before.len() as int] == (Event::Append {
            label: seq![0x55u8],
            bytes: g1_encoding(u),
        }),
        // comm_u_l
        forall|i: int|
            0 <= i < q.len() ==> after[before.len() + 1 + 5 * i] == (Event::Append {
                label: seq![0x63u8, 0x6f, 0x6d, 0x6d, 0x5f, 0x75, 0x5f, 0x6c],
                bytes: g1_encoding((#[trigger] proof.comms_u@[i]).0.multiple()),
            }),
        // comm_u_r
        forall|i: int|
            0 <= i < q.len() ==> after[before.len() + 2 + 5 * i] == (Event::Append {
                label: seq![0x63u8, 0x6f, 0x6d, 0x6d, 0x5f, 0x75, 0x5f, 0x72],
                bytes: g1_encoding((#[trigger] proof.comms_u@[i]).1.multiple()),
            }),
        // comm_t_l
        forall|i: int|
            0 <= i < q.len() ==> after[before.len() + 3 + 5 * i] == (Event::Append {
                label: seq![0x63u8, 0x6f, 0x6d, 0x6d, 0x5f, 0x74, 0x5f, 0x6c],
                bytes: fqk_encoding((#[trigger] proof.comms_t@[i]).0@),
            }),
        // comm_t_r
        forall|i: int|
            0 <= i < q.len() ==> after[before.len() + 4 + 5 * i] == (Event::Append {
                label: seq![0x63u8, 0x6f, 0x6d, 0x6d, 0x5f, 0x74, 0x5f, 0x72],
                bytes: fqk_encoding((#[trigger] proof.comms_t@[i]).1@),
            }),
        // challenge_i
        forall|i: int|
            0 <= i < q.len() ==> after[before.len() + 5 + 5 * i] == (Event::Challenge {
                label: seq![0x63u8, 0x68, 0x61, 0x6c, 0x6c, 0x65, 0x6e, 0x67, 0x65, 0x5f, 0x69],
                value: (#[trigger] claim.challenges@[i])@,
            }),
        // random_point
        forall|i: int|
            0 <= i < q.len() ==> after[before.len() + 1 + 5 * q.len() + i] == (Event::Challenge {
                label: seq![0x72u8, 0x61, 0x6e, 0x64, 0x6f, 0x6d, 0x5f, 0x70, 0x6f, 0x69, 0x6e, 0x74],
                value: (#[trigger] claim.point@[i])@,
            }),
{
    lemma_run_log(
        before,
        after,
        u,
        proof.comms_u@,
        proof.comms_t@,
        claim.challenges@,
        claim.point@,
    );
}

/// The log of a prover who succeeded is built in the same way, of the commitments that are returned.
pub proof fn law_prover_log(
    before: Seq<Event>,
    after: Seq<Event>,
    u: int,
    v: Vectors,
    opening: MippOpening,
)
    requires
        proved(before, after, u, v, Ok(opening)),
    ensures
        opening.comms_u@.len() == opening.challenges@.len(),
        opening.comms_t@.len() == opening.challenges@.len(),
        opening.point@.len() == opening.challenges@.len(),
        after.len() == before.len() + 1 + 6 * opening.challenges@.len(),
        after.take(before.len() as int) == before,
        // U
        after[before.len() as int] == (Event::Append {
            label: seq![0x55u8],
            bytes: g1_encoding(u),
        }),
        // comm_u_l
        forall|i: int|
            0 <= i < opening.comms_u@.len() ==> after[before.len() + 1 + 5 * i] == (Event::Append {
                label: seq![0x63u8, 0x6f, 0x6d, 0x6d, 0x5f, 0x75, 0x5f, 0x6c],
                bytes: g1_encoding((#[trigger] opening.comms_u@[i]).0.multiple()),
            }),
        // comm_u_r
        forall|i: int|
            0 <= i < opening.comms_u@.len() ==> after[before.len() + 2 + 5 * i] == (Event::Append {
                label: seq![0x63u8, 0x6f, 0x6d, 0x6d, 0x5f, 0x75, 0x5f, 0x72],
                bytes: g1_encoding((#[trigger] opening.comms_u@[i]).1.multiple()),
            }),
        // comm_t_l
        forall|i: int|
            0 <= i < opening.comms_t@.len() ==> after[before.len() + 3 + 5 * i] == (Event::Append {
                label: seq![0x63u8, 0x6f, 0x6d, 0x6d, 0x5f, 0x74, 0x5f, 0x6c],
                bytes: fqk_encoding((#[trigger] opening.comms_t@[i]).0@),
            }),
        // comm_t_r
        forall|i: int|
            0 <= i < opening.comms_t@.len() ==> after[before.len() + 4 + 5 * i] == (Event::Append {
                label: seq![0x63u8, 0x6f, 0x6d, 0x6d, 0x5f, 0x74, 0x5f, 0x72],
                bytes: fqk_encoding((#[trigger] opening.comms_t@[i]).1@),
            }),
        // challenge_i
        forall|i: int|
            0 <= i < opening.challenges@.len() ==> after[before.len() + 5 + 5 * i]
                == (Event::Challenge {
                label: seq![0x63u8, 0x68, 0x61, 0x6c, 0x6c, 0x65, 0x6e, 0x67, 0x65, 0x5f, 0x69],
                value: (#[trigger] opening.challenges@[i])@,
            }),
        // random_point
        forall|i: int|
            0 <= i < opening.point@.len() ==> after[before.len() + 1 + 5 * opening.point@.len() + i]
                == (Event::Challenge {
                label: seq![0x72u8, 0x61, 0x6e, 0x64, 0x6f, 0x6d, 0x5f, 0x70, 0x6f, 0x69, 0x6e, 0x74],
                value: (#[trigger] opening.point@[i])@,
            }),
{
    let cs = scalar_values(opening.challenges@);
    assert(messages(opening.comms_u@, opening.comms_t@).len() == v.all_messages(cs).len());
    lemma_run_log(
        before,
        after,
        u,
        opening.comms_u@,
        opening.comms_t@,
        opening.challenges@,
        opening.point@,
    );
}

/// What lies where in a log that a run with these commitments was added to.
proof fn lemma_run_log(
    before: Seq<Event>,
    after: Seq<Event>,
    u: int,
    comms_u: Seq<(G1, G1)>,
    comms_t: Seq<(Fqk, Fqk)>,
    challenges: Seq<Scalar>,
    point: Seq<Scalar>,
)
    requires
        challenges.len() == comms_u.len(),
        challenges.len() <= comms_t.len(),
        after == before + folding_events(u, messages(comms_u, comms_t), scalar_values(challenges))
            + point_events(scalar_values(point)),
    ensures
        after.len() == before.len() + 1 + 5 * challenges.len() + point.len(),
        after.take(before.len() as int) == before,
        after[before.len() as int] == (Event::Append {
            label: seq![0x55u8],
            bytes: g1_encoding(u),
        }),
        forall|i: int|
            0 <= i < comms_u.len() ==> after[before.len() + 1 + 5 * i] == (Event::Append {
                label: seq![0x63u8, 0x6f, 0x6d, 0x6d, 0x5f, 0x75, 0x5f, 0x6c],
                bytes: g1_encoding((#[trigger] comms_u[i]).0.multiple()),
            }),
        forall|i: int|
            0 <= i < comms_u.len() ==> after[before.len() + 2 + 5 * i] == (Event::Append {
                label: seq![0x63u8, 0x6f, 0x6d, 0x6d, 0x5f, 0x75, 0x5f, 0x72],
                bytes: g1_encoding((#[trigger] comms_u[i]).1.multiple()),
            }),
        forall|i: int|
            0 <= i < comms_u.len() ==> after[before.len() + 3 + 5 * i] == (Event::Append {
                label: seq![0x63u8, 0x6f, 0x6d, 0x6d, 0x5f, 0x74, 0x5f, 0x6c],
                bytes: fqk_encoding((#[trigger] comms_t[i]).0@),
            }),
        forall|i: int|
            0 <= i < comms_u.len() ==> after[before.len() + 4 + 5 * i] == (Event::Append {
                label: seq![0x63u8, 0x6f, 0x6d, 0x6d, 0x5f, 0x74, 0x5f, 0x72],
                bytes: fqk_encoding((#[trigger] comms_t[i]).1@),
            }),
        forall|i: int|
            0 <= i < comms_u.len() ==> after[before.len() + 5 + 5 * i] == (Event::Challenge {
                label: seq![0x63u8, 0x68, 0x61, 0x6c, 0x6c, 0x65, 0x6e, 0x67, 0x65, 0x5f, 0x69],
                value: (#[trigger] challenges[i])@,
            }),
        forall|i: int|
            0 <= i < point.len() ==> after[before.len() + 1 + 5 * challenges.len() + i]
                == (Event::Challenge {
                label: seq![0x72u8, 0x61, 0x6e, 0x64, 0x6f, 0x6d, 0x5f, 0x70, 0x6f, 0x69, 0x6e, 0x74],
                value: (#[trigger] point[i])@,
            }),
{
    let n = before.len() as int;
    let ms = messages(comms_u, comms_t);
    let cs = scalar_values(challenges);
    let rs = scalar_values(point);
    lemma_log(before, after, u, ms, cs, rs);
    assert forall|i: int| 0 <= i < comms_u.len() implies after[n + 1 + 5 * i] == (Event::Append {
        label: seq![0x63u8, 0x6f, 0x6d, 0x6d, 0x5f, 0x75, 0x5f, 0x6c],
        bytes: g1_encoding((#[trigger] comms_u[i]).0.multiple()),
    }) by {
        assert(after[n + 1 + 5 * i + 0] == round_events(ms[i], cs[i])[0]);
    }
    assert forall|i: int| 0 <= i < comms_u.len() implies after[n + 2 + 5 * i] == (Event::Append {
        label: seq![0x63u8, 0x6f, 0x6d, 0x6d, 0x5f, 0x75, 0x5f, 0x72],
        bytes: g1_encoding((#[trigger] comms_u[i]).1.multiple()),
    }) by {
        assert(after[n + 1 + 5 * i + 1] == round_events(ms[i], cs[i])[1]);
    }
    assert forall|i: int| 0 <= i < comms_u.len() implies after[n + 3 + 5 * i] == (Event::Append {
        label: seq![0x63u8, 0x6f, 0x6d, 0x6d, 0x5f, 0x74, 0x5f, 0x6c],
        bytes: fqk_encoding((#[trigger] comms_t[i]).0@),
    }) by {
        assert(after[n + 1 + 5 * i + 2] == round_events(ms[i], cs[i])[2]);
    }
    assert forall|i: int| 0 <= i < comms_u.len() implies after[n + 4 + 5 * i] == (Event::Append {
        label: seq![0x63u8, 0x6f, 0x6d, 0x6d, 0x5f, 0x74, 0x5f, 0x72],
        bytes: fqk_encoding((#[trigger] comms_t[i]).1@),
    }) by {
        assert(after[n + 1 + 5 * i + 3] == round_events(ms[i], cs[i])[3]);
    }
    assert forall|i: int| 0 <= i < comms_u.len() implies after[n + 5 + 5 * i]
        == (Event::Challenge {
        label: seq![0x63u8, 0x68, 0x61, 0x6c, 0x6c, 0x65, 0x6e, 0x67, 0x65, 0x5f, 0x69],
        value: (#[trigger] challenges[i])@,
    }) by {
        assert(after[n + 1 + 5 * i + 4] == round_events(ms[i], cs[i])[4]);
    }
    assert forall|i: int| 0 <= i < point.len() implies after[n + 1 + 5 * challenges.len() + i]
        == (Event::Challenge {
        label: seq![0x72u8, 0x61, 0x6e, 0x64, 0x6f, 0x6d, 0x5f, 0x70, 0x6f, 0x69, 0x6e, 0x74],
        value: (#[trigger] point[i])@,
    }) by {
        assert(after[n + 1 + 5 * cs.len() + i] == point_events(rs)[i]);
    }
}

/// A log tells all that was said: verifiers who leave the same log have read, in every round, four
/// messages of the same encodings, and have drawn the same.
pub proof fn law_log_tells_the_messages(
    before: Seq<Event>,
    after: Seq<Event>,
    proof: MippProof,
    q: Seq<int>,
    u: int,
    t: FqkValue,
    claim: MippClaim,
    other: MippProof,
    other_q: Seq<int>,
    other_u: int,
    other_t: FqkValue,
    other_claim: MippClaim,
)
    requires
        proof.comms_u@.len() == q.len(),
        proof.comms_t@.len() >= q.len(),
        other.comms_u@.len() == other_q.len(),
        other.comms_t@.len() >= other_q.len(),
        verified(before, after, proof, q, u, t, Ok(claim)),
        verified(before, after, other, other_q, other_u, other_t, Ok(other_claim)),
    ensures
        q.len() == other_q.len(),
        g1_encoding(u) == g1_encoding(other_u),
        forall|i: int|
            0 <= i < q.len() ==> {
                &&& g1_encoding((#[trigger] proof.comms_u@[i]).0.multiple()) == g1_encoding(
                    other.comms_u@[i].0.multiple(),
                )
                &&& g1_encoding(proof.comms_u@[i].1.multiple()) == g1_encoding(
                    other.comms_u@[i].1.multiple(),
                )
            },
        forall|i: int|
            0 <= i < q.len() ==> {
                &&& fqk_encoding((#[trigger] proof.comms_t@[i]).0@) == fqk_encoding(
                    other.comms_t@[i].0@,
                )
                &&& fqk_encoding(proof.comms_t@[i].1@) == fqk_encoding(other.comms_t@[i].1@)
            },
        forall|i: int|
            0 <= i < q.len() ==> (#[trigger] claim.challenges@[i])@ == other_claim.challenges@[i]@,
        forall|i: int|
            0 <= i < q.len() ==> (#[trigger] claim.point@[i])@ == other_claim.point@[i]@,
{
    law_verifier_log(before, after, proof, q, u, t, claim);
    law_verifier_log(before, after, other, other_q, other_u, other_t, other_claim);
    let n = before.len() as int;
    assert forall|i: int| 0 <= i < q.len() implies {
        &&& g1_encoding((#[trigger] proof.comms_u@[i]).0.multiple()) == g1_encoding(
            other.comms_u@[i].0.multiple(),
        )
        &&& g1_encoding(proof.comms_u@[i].1.multiple()) == g1_encoding(
            other.comms_u@[i].1.multiple(),
        )
    } by {
        let x = proof.comms_u@[i];
        let y = other.comms_u@[i];
        assert(after[n + 1 + 5 * i]->bytes == g1_encoding(x.0.multiple()));
        assert(after[n + 1 + 5 * i]->bytes == g1_encoding(y.0.multiple()));
        assert(after[n + 2 + 5 * i]->bytes == g1_encoding(x.1.multiple()));
        assert(after[n + 2 + 5 * i]->bytes == g1_encoding(y.1.multiple()));
    }
    assert forall|i: int| 0 <= i < q.len() implies {
        &&& fqk_encoding((#[trigger] proof.comms_t@[i]).0@) == fqk_encoding(other.comms_t@[i].0@)
        &&& fqk_encoding(proof.comms_t@[i].1@) == fqk_encoding(other.comms_t@[i].1@)
    } by {
        let x = proof.comms_t@[i];
        let y = other.comms_t@[i];
        assert(after[n + 3 + 5 * i]->bytes == fqk_encoding(x.0@));
        assert(after[n + 3 + 5 * i]->bytes == fqk_encoding(y.0@));
        assert(after[n + 4 + 5 * i]->bytes == fqk_encoding(x.1@));
        assert(after[n + 4 + 5 * i]->bytes == fqk_encoding(y.1@));
    }
    assert forall|i: int| 0 <= i < q.len() implies (#[trigger] claim.challenges@[i])@
        == other_claim.challenges@[i]@ by {
        let y = other_claim.challenges@[i];
        assert(after[n + 5 + 5 * i]->value == claim.challenges@[i]@);
        assert(after[n + 5 + 5 * i]->value == y@);
    }
    assert forall|i: int| 0 <= i < q.len() implies (#[trigger] claim.point@[i])@
        == other_claim.point@[i]@ by {
        let y = other_claim.point@[i];
        assert(after[n + 1 + 5 * q.len() + i]->value == claim.point@[i]@);
        assert(after[n + 1 + 5 * other_q.len() + i]->value == y@);
    }
}

/// The events of rounds without a challenge of zero hold no challenge of zero.
proof fn lemma_no_zero_event(ms: Seq<Messages>, cs: Seq<int>, i: int)
    requires
        all_nonzero(cs),
        0 <= i < 5 * cs.len(),
    ensures
        rounds_events(ms, cs)[i] != (Event::Challenge {
            label: seq![0x63u8, 0x68, 0x61, 0x6c, 0x6c, 0x65, 0x6e, 0x67, 0x65, 0x5f, 0x69],
            value: 0,
        }),
{
    let k = i / 5;
    lemma_rounds_at(ms, cs, k);
    assert(cs[k] != 0);
    assert(rounds_events(ms, cs)[5 * k + i % 5] == round_events(ms[k], cs[k])[i % 5]);
}

/// What lies where in a log that rounds were added to, without a drawn point.
proof fn lemma_broken_off_log(
    before: Seq<Event>,
    after: Seq<Event>,
    u: int,
    ms: Seq<Messages>,
    cs: Seq<int>,
)
    requires
        after == before + folding_events(u, ms, cs),
    ensures
        after.len() == before.len() + 1 + 5 * cs.len(),
        after.take(before.len() as int) == before,
        after[before.len() as int] == (Event::Append {
            label: seq![0x55u8],
            bytes: g1_encoding(u),
        }),
        forall|i: int, j: int|
            0 <= i < cs.len() && 0 <= j < 5 ==> after[before.len() + 1 + 5 * i + j]
                == #[trigger] round_events(ms[i], cs[i])[j],
        all_nonzero(cs.drop_last()) ==> forall|i: int|
            before.len() <= i < after.len() - 1 ==> #[trigger] after[i] != (Event::Challenge {
                label: seq![0x63u8, 0x68, 0x61, 0x6c, 0x6c, 0x65, 0x6e, 0x67, 0x65, 0x5f, 0x69],
                value: 0,
            }),
        all_nonzero(cs) ==> forall|i: int|
            before.len() <= i < after.len() ==> #[trigger] after[i] != (Event::Challenge {
                label: seq![0x63u8, 0x68, 0x61, 0x6c, 0x6c, 0x65, 0x6e, 0x67, 0x65, 0x5f, 0x69],
                value: 0,
            }),
{
    let n = before.len() as int;
    assert(after =~= before + folding_events(u, ms, cs) + point_events(Seq::empty()));
    lemma_log(before, after, u, ms, cs, Seq::empty());
    if all_nonzero(cs) {
        assert forall|i: int| n <= i < after.len() implies #[trigger] after[i] != (Event::Challenge {
                label: seq![0x63u8, 0x68, 0x61, 0x6c, 0x6c, 0x65, 0x6e, 0x67, 0x65, 0x5f, 0x69],
                value: 0,
            }) by {
            if i > n {
                lemma_no_zero_event(ms, cs, i - n - 1);
                assert(after[i] == rounds_events(ms, cs)[i - n - 1]);
            }
        }
    }
    if all_nonzero(cs.drop_last()) {
        assert forall|i: int| n <= i < after.len() - 1 implies #[trigger] after[i] != (Event::Challenge {
                label: seq![0x63u8, 0x68, 0x61, 0x6c, 0x6c, 0x65, 0x6e, 0x67, 0x65, 0x5f, 0x69],
                value: 0,
            }) by {
            let e = i - n - 1;
            if i > n {
                assert(after[i] == rounds_events(ms, cs)[e]);
                if e < 5 * (cs.len() - 1) {
                    lemma_no_zero_event(ms, cs.drop_last(), e);
                    lemma_rounds_alike(ms, cs.drop_last(), cs.drop_last());
                    assert(rounds_events(ms, cs)[e] == rounds_events(ms, cs.drop_last())[e]);
                } else {
                    let k = cs.len() - 1;
                    assert(after[n + 1 + 5 * k + (e - 5 * k)] == round_events(ms[k], cs[k])[e - 5
                        * k]);
                }
            }
        }
    }
}

/// The log of a verifier who gives no claim: the claimed inner product, and some rounds, each with
/// the four messages of the proof under their labels and the challenge after them.  The last challenge
/// is the first zero among them.
pub proof fn law_failed_verifier_log(
    before: Seq<Event>,
    after: Seq<Event>,
    proof: MippProof,
    q: Seq<int>,
    u: int,
    t: FqkValue,
    r: Result<MippClaim, Error>,
) -> (rounds: nat)
    requires
        proof.comms_u@.len() == q.len(),
        proof.comms_t@.len() >= q.len(),
        verified(before, after, proof, q, u, t, r),
        r is Err,
    ensures
        r == Err::<MippClaim, Error>(Error::ZeroChallenge),
        0 < rounds <= q.len(),
        after.len() == before.len() + 1 + 5 * rounds,
        after.take(before.len() as int) == before,
        after[before.len() as int] == (Event::Append {
            label: seq![0x55u8],
            bytes: g1_encoding(u),
        }),
        forall|i: int|
            0 <= i < rounds ==> after[before.len() + 1 + 5 * i] == (Event::Append {
                label: seq![0x63u8, 0x6f, 0x6d, 0x6d, 0x5f, 0x75, 0x5f, 0x6c],
                bytes: g1_encoding((#[trigger] proof.comms_u@[i]).0.multiple()),
            }) && after[before.len() + 2 + 5 * i] == (Event::Append {
                label: seq![0x63u8, 0x6f, 0x6d, 0x6d, 0x5f, 0x75, 0x5f, 0x72],
                bytes: g1_encoding(proof.comms_u@[i].1.multiple()),
            }) && after[before.len() + 3 + 5 * i] == (Event::Append {
                label: seq![0x63u8, 0x6f, 0x6d, 0x6d, 0x5f, 0x74, 0x5f, 0x6c],
                bytes: fqk_encoding(proof.comms_t@[i].0@),
            }) && after[before.len() + 4 + 5 * i] == (Event::Append {
                label: seq![0x63u8, 0x6f, 0x6d, 0x6d, 0x5f, 0x74, 0x5f, 0x72],
                bytes: fqk_encoding(proof.comms_t@[i].1@),
            }) && after[before.len() + 5 + 5 * i] == (Event::Challenge {
                label: seq![0x63u8, 0x68, 0x61, 0x6c, 0x6c, 0x65, 0x6e, 0x67, 0x65, 0x5f, 0x69],
                value: after[before.len() + 5 + 5 * i]->value,
            }),
        after.last() == (Event::Challenge {
                label: seq![0x63u8, 0x68, 0x61, 0x6c, 0x6c, 0x65, 0x6e, 0x67, 0x65, 0x5f, 0x69],
                value: 0,
            }),
        forall|i: int|
            before.len() <= i < after.len() - 1 ==> #[trigger] after[i] != (Event::Challenge {
                label: seq![0x63u8, 0x68, 0x61, 0x6c, 0x6c, 0x65, 0x6e, 0x67, 0x65, 0x5f, 0x69],
                value: 0,
            }),
{
    let n = before.len() as int;
    let ms = proof.messages();
    let cs = choose|cs: Seq<int>|
        {
            &&& 0 < cs.len() <= q.len()
            &&& cs.last() == 0
            &&& all_nonzero(cs.drop_last())
            &&& after == before + #[trigger] folding_events(u, ms, cs)
        };
    lemma_broken_off_log(before, after, u, ms, cs);
    assert forall|i: int| 0 <= i < cs.len() implies after[n + 1 + 5 * i] == (Event::Append {
        label: seq![0x63u8, 0x6f, 0x6d, 0x6d, 0x5f, 0x75, 0x5f, 0x6c],
        bytes: g1_encoding((#[trigger] proof.comms_u@[i]).0.multiple()),
    }) && after[n + 2 + 5 * i] == (Event::Append {
        label: seq![0x63u8, 0x6f, 0x6d, 0x6d, 0x5f, 0x75, 0x5f, 0x72],
        bytes: g1_encoding(proof.comms_u@[i].1.multiple()),
    }) && after[n + 3 + 5 * i] == (Event::Append {
        label: seq![0x63u8, 0x6f, 0x6d, 0x6d, 0x5f, 0x74, 0x5f, 0x6c],
        bytes: fqk_encoding(proof.comms_t@[i].0@),
    }) && after[n + 4 + 5 * i] == (Event::Append {
        label: seq![0x63u8, 0x6f, 0x6d, 0x6d, 0x5f, 0x74, 0x5f, 0x72],
        bytes: fqk_encoding(proof.comms_t@[i].1@),
    }) && after[n + 5 + 5 * i] == (Event::Challenge {
        label: seq![0x63u8, 0x68, 0x61, 0x6c, 0x6c, 0x65, 0x6e, 0x67, 0x65, 0x5f, 0x69],
        value: after[n + 5 + 5 * i]->value,
    }) by {
        let e = round_events(ms[i], cs[i]);
        assert(after[n + 1 + 5 * i + 0] == e[0]);
        assert(after[n + 1 + 5 * i + 1] == e[1]);
        assert(after[n + 1 + 5 * i + 2] == e[2]);
        assert(after[n + 1 + 5 * i + 3] == e[3]);
        assert(after[n + 1 + 5 * i + 4] == e[4]);
    }
    let k = cs.len() - 1;
    assert(after[n + 1 + 5 * k + 4] == round_events(ms[k], cs[k])[4]);
    cs.len()
}

/// The log of a prover who fails: the claimed inner product, and some rounds, each with what the
/// vectors that are held then have to say under the labels, and the challenge after it.  If a zero
/// stopped the prover, it is the last challenge and the first zero; else no challenge is zero.
pub proof fn law_failed_prover_log(
    before: Seq<Event>,
    after: Seq<Event>,
    u: int,
    v: Vectors,
    e: Error,
) -> (cs: Seq<int>)
    requires
        proved(before, after, u, v, Err::<MippOpening, Error>(e)),
    ensures
        after.len() == before.len() + 1 + 5 * cs.len(),
        after.take(before.len() as int) == before,
        after[before.len() as int] == (Event::Append {
            label: seq![0x55u8],
            bytes: g1_encoding(u),
        }),
        forall|i: int|
            0 <= i < cs.len() ==> after[before.len() + 1 + 5 * i] == (Event::Append {
                label: seq![0x63u8, 0x6f, 0x6d, 0x6d, 0x5f, 0x75, 0x5f, 0x6c],
                bytes: g1_encoding(v.after(#[trigger] cs.take(i)).messages().u_l),
            }) && after[before.len() + 2 + 5 * i] == (Event::Append {
                label: seq![0x63u8, 0x6f, 0x6d, 0x6d, 0x5f, 0x75, 0x5f, 0x72],
                bytes: g1_encoding(v.after(cs.take(i)).messages().u_r),
            }) && after[before.len() + 3 + 5 * i] == (Event::Append {
                label: seq![0x63u8, 0x6f, 0x6d, 0x6d, 0x5f, 0x74, 0x5f, 0x6c],
                bytes: fqk_encoding(v.after(cs.take(i)).messages().t_l),
            }) && after[before.len() + 4 + 5 * i] == (Event::Append {
                label: seq![0x63u8, 0x6f, 0x6d, 0x6d, 0x5f, 0x74, 0x5f, 0x72],
                bytes: fqk_encoding(v.after(cs.take(i)).messages().t_r),
            }) && after[before.len() + 5 + 5 * i] == (Event::Challenge {
                label: seq![0x63u8, 0x68, 0x61, 0x6c, 0x6c, 0x65, 0x6e, 0x67, 0x65, 0x5f, 0x69],
                value: cs[i],
            }),
        e is ZeroChallenge ==> cs.len() > 0 && cs.last() == 0,
        e is ZeroChallenge ==> forall|i: int|
            before.len() <= i < after.len() - 1 ==> #[trigger] after[i] != (Event::Challenge {
                label: seq![0x63u8, 0x68, 0x61, 0x6c, 0x6c, 0x65, 0x6e, 0x67, 0x65, 0x5f, 0x69],
                value: 0,
            }),
        !(e is ZeroChallenge) ==> forall|i: int|
            before.len() <= i < after.len() ==> #[trigger] after[i] != (Event::Challenge {
                label: seq![0x63u8, 0x68, 0x61, 0x6c, 0x6c, 0x65, 0x6e, 0x67, 0x65, 0x5f, 0x69],
                value: 0,
            }),
{
    let n = before.len() as int;
    let cs = if e is ZeroChallenge {
        choose|cs: Seq<int>|
            {
                &&& 0 < cs.len() <= v.rounds()
                &&& cs.last() == 0
                &&& all_nonzero(cs.drop_last())
                &&& #[trigger] went_on(before, after, u, v, cs)
            }
    } else {
        choose|cs: Seq<int>|
            {
                &&& cs.len() == v.rounds()
                &&& all_nonzero(cs)
                &&& #[trigger] went_on(before, after, u, v, cs)
            }
    };
    let ms = v.all_messages(cs);
    lemma_broken_off_log(before, after, u, ms, cs);
    assert forall|i: int| 0 <= i < cs.len() implies after[n + 1 + 5 * i] == (Event::Append {
        label: seq![0x63u8, 0x6f, 0x6d, 0x6d, 0x5f, 0x75, 0x5f, 0x6c],
        bytes: g1_encoding(v.after(#[trigger] cs.take(i)).messages().u_l),
    }) && after[n + 2 + 5 * i] == (Event::Append {
        label: seq![0x63u8, 0x6f, 0x6d, 0x6d, 0x5f, 0x75, 0x5f, 0x72],
        bytes: g1_encoding(v.after(cs.take(i)).messages().u_r),
    }) && after[n + 3 + 5 * i] == (Event::Append {
        label: seq![0x63u8, 0x6f, 0x6d, 0x6d, 0x5f, 0x74, 0x5f, 0x6c],
        bytes: fqk_encoding(v.after(cs.take(i)).messages().t_l),
    }) && after[n + 4 + 5 * i] == (Event::Append {
        label: seq![0x63u8, 0x6f, 0x6d, 0x6d, 0x5f, 0x74, 0x5f, 0x72],
        bytes: fqk_encoding(v.after(cs.take(i)).messages().t_r),
    }) && after[n + 5 + 5 * i] == (Event::Challenge {
        label: seq![0x63u8, 0x68, 0x61, 0x6c, 0x6c, 0x65, 0x6e, 0x67, 0x65, 0x5f, 0x69],
        value: cs[i],
    }) by {
        let e = round_events(ms[i], cs[i]);
        assert(after[n + 1 + 5 * i + 0] == e[0]);
        assert(after[n + 1 + 5 * i + 1] == e[1]);
        assert(after[n + 1 + 5 * i + 2] == e[2]);
        assert(after[n + 1 + 5 * i + 3] == e[3]);
        assert(after[n + 1 + 5 * i + 4] == e[4]);
    }
    cs
}

/// What vectors have to say: the inner products and the pairing products of their halves crosswise,
/// the left points first.
pub proof fn law_cross_products(v: Vectors)
    requires
        v.a.len() / 2 <= v.y.len(),
        v.a.len() / 2 <= v.h.len(),
    ensures
        ({
            let n = v.a.len() as int / 2;
            let m = v.messages();
            &&& m.u_l == dot(v.a.take(n), v.y.skip(n)) % order()
            &&& m.u_r == dot(v.a.skip(n), v.y.take(n)) % order()
            &&& m.t_l == pairing_value(dot(v.a.take(n), v.h.skip(n)))
            &&& m.t_r == pairing_value(dot(v.a.skip(n), v.h.take(n)))
        }),
{
    let n = v.a.len() as int / 2;
    assert(v.a.take(n) =~= v.a.subrange(0, n));
    assert(v.y.take(n) =~= v.y.subrange(0, n));
    assert(v.h.take(n) =~= v.h.subrange(0, n));
}

/// What one more round makes of vectors: the left halves, with the right halves added, scaled by the
/// challenge; those of the points by its inverse.
pub proof fn law_folded_vectors(v: Vectors, cs: Seq<int>, c: int, x: int)
    requires
        0 <= x < order(),
        (c * x) % order() == 1,
    ensures
        v.after(Seq::empty()) == v,
        ({
            let w = v.after(cs);
            let z = v.after(cs.push(c));
            let n = w.a.len() as int / 2;
            &&& z.a.len() == n
            &&& z.y.len() == n
            &&& z.h.len() == n
            &&& forall|j: int|
                0 <= j < n ==> #[trigger] z.a[j] == (w.a[j] + w.a[n + j] * x) % order()
            &&& forall|j: int|
                0 <= j < n && n + j < w.y.len() ==> #[trigger] z.y[j] == (w.y[j] + w.y[n + j] * c)
                    % order()
            &&& forall|j: int|
                0 <= j < n && n + j < w.h.len() ==> #[trigger] z.h[j] == (w.h[j] + w.h[n + j] * c)
                    % order()
            &&& forall|j: int|
                0 <= j < n && n + j >= w.h.len() ==> #[trigger] z.h[j] == w.h[j]
        }),
{
    assert(cs.push(c).drop_last() =~= cs);
    assert(is_inverse(c, x));
    lemma_inverse_unique(c, x);
}

} // verus!

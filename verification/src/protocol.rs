//! What prover and verifier compute and say, over the numbers that stand for their group elements.

use crate::algebra::{
    dot, fold, fqk_power, fqk_product, lemma_congruent_ops, order, pairing_value, FqkValue,
};
use crate::groups::{fqk_encoding, g1_encoding};
use crate::transcript::Event;
use vstd::prelude::*;

verus! {

/// Whether `y` is the reduced inverse of `x` modulo the order.
pub open spec fn is_inverse(x: int, y: int) -> bool {
    0 <= y < order() && (x * y) % order() == 1
}

/// Whether a challenge has an inverse.
pub open spec fn invertible(x: int) -> bool {
    exists|y: int| is_inverse(x, y)
}

/// The inverse of a challenge.
pub open spec fn inverse(x: int) -> int {
    choose|y: int| is_inverse(x, y)
}

/// Whether every challenge has an inverse.
pub open spec fn all_invertible(cs: Seq<int>) -> bool {
    forall|i: int| 0 <= i < cs.len() ==> invertible(#[trigger] cs[i])
}

/// A number has one reduced inverse at most.
pub proof fn lemma_inverse_unique(x: int, y: int)
    requires
        is_inverse(x, y),
    ensures
        invertible(x),
        inverse(x) == y,
{
    let z = inverse(x);
    assert(is_inverse(x, z));
    // z == z * (x * y) == (x * z) * y == y
    lemma_congruent_ops(x * y, 1, z, z);
    lemma_congruent_ops(x * z, 1, y, y);
    assert((x * y) * z == (x * z) * y) by (nonlinear_arith);
}

/// The three vectors that are folded: multiples of points, scalars, and multiples of keys.
pub struct Vectors {
    pub a: Seq<int>,
    pub y: Seq<int>,
    pub h: Seq<int>,
}

/// What the prover says in one round: the cross inner products and the cross pairing products.
pub struct Messages {
    pub u_l: int,
    pub u_r: int,
    pub t_l: FqkValue,
    pub t_r: FqkValue,
}

/// The entries before `split`.
pub open spec fn left(v: Seq<int>, split: int) -> Seq<int> {
    v.subrange(0, split)
}

/// The entries from `split` on.
pub open spec fn right(v: Seq<int>, split: int) -> Seq<int> {
    v.subrange(split, v.len() as int)
}

impl Vectors {
    /// Where the vectors are split.
    pub open spec fn split(self) -> int {
        self.a.len() as int / 2
    }

    /// What the prover says about these vectors.
    pub open spec fn messages(self) -> Messages {
        let n = self.split();
        Messages {
            u_l: dot(left(self.a, n), right(self.y, n)) % order(),
            u_r: dot(right(self.a, n), left(self.y, n)) % order(),
            t_l: pairing_value(dot(left(self.a, n), right(self.h, n))),
            t_r: pairing_value(dot(right(self.a, n), left(self.h, n))),
        }
    }

    /// The vectors after one round whose challenge was `c_inv`.
    pub open spec fn folded(self, c_inv: int) -> Vectors {
        let n = self.split();
        Vectors {
            a: fold(self.a, n, inverse(c_inv)),
            y: fold(self.y, n, c_inv),
            h: fold(self.h, n, c_inv),
        }
    }

    /// The vectors after a round for each of the challenges.
    pub open spec fn after(self, cs: Seq<int>) -> Vectors
        decreases cs.len(),
    {
        if cs.len() == 0 {
            self
        } else {
            self.after(cs.drop_last()).folded(cs.last())
        }
    }

    /// What the prover says in the rounds that end in the challenges `cs`.
    pub open spec fn all_messages(self, cs: Seq<int>) -> Seq<Messages> {
        Seq::new(cs.len(), |i: int| self.after(cs.take(i)).messages())
    }

    /// How many rounds go through before the halves differ in length.
    pub open spec fn rounds(self) -> nat {
        if self.y.len() == self.a.len() {
            halvings(self.a.len())
        } else {
            0
        }
    }
}

/// How often a length above one can be halved evenly.
pub open spec fn halvings(n: nat) -> nat
    decreases n,
{
    if n >= 2 && n % 2 == 0 {
        1 + halvings(n / 2)
    } else {
        0
    }
}

/// The label `U`.
pub open spec fn label_u() -> Seq<u8> {
    seq![0x55u8]
}

/// The label `comm_u_l`.
pub open spec fn label_comm_u_l() -> Seq<u8> {
    seq![0x63u8, 0x6f, 0x6d, 0x6d, 0x5f, 0x75, 0x5f, 0x6c]
}

/// The label `comm_u_r`.
pub open spec fn label_comm_u_r() -> Seq<u8> {
    seq![0x63u8, 0x6f, 0x6d, 0x6d, 0x5f, 0x75, 0x5f, 0x72]
}

/// The label `comm_t_l`.
pub open spec fn label_comm_t_l() -> Seq<u8> {
    seq![0x63u8, 0x6f, 0x6d, 0x6d, 0x5f, 0x74, 0x5f, 0x6c]
}

/// The label `comm_t_r`.
pub open spec fn label_comm_t_r() -> Seq<u8> {
    seq![0x63u8, 0x6f, 0x6d, 0x6d, 0x5f, 0x74, 0x5f, 0x72]
}

/// The label `challenge_i`.
pub open spec fn label_challenge() -> Seq<u8> {
    seq![0x63u8, 0x68, 0x61, 0x6c, 0x6c, 0x65, 0x6e, 0x67, 0x65, 0x5f, 0x69]
}

/// The label `random_point`.
pub open spec fn label_point() -> Seq<u8> {
    seq![0x72u8, 0x61, 0x6e, 0x64, 0x6f, 0x6d, 0x5f, 0x70, 0x6f, 0x69, 0x6e, 0x74]
}

/// What happens to the transcript in one round.
pub open spec fn round_events(m: Messages, c_inv: int) -> Seq<Event> {
    seq![
        Event::Append { label: label_comm_u_l(), bytes: g1_encoding(m.u_l) },
        Event::Append { label: label_comm_u_r(), bytes: g1_encoding(m.u_r) },
        Event::Append { label: label_comm_t_l(), bytes: fqk_encoding(m.t_l) },
        Event::Append { label: label_comm_t_r(), bytes: fqk_encoding(m.t_r) },
        Event::Challenge { label: label_challenge(), value: c_inv },
    ]
}

/// What happens to the transcript in the rounds that end in the challenges `cs`.
pub open spec fn rounds_events(ms: Seq<Messages>, cs: Seq<int>) -> Seq<Event>
    decreases cs.len(),
{
    if cs.len() == 0 {
        Seq::empty()
    } else {
        rounds_events(ms, cs.drop_last()) + round_events(ms[cs.len() - 1], cs.last())
    }
}

/// What happens to the transcript from the claimed inner product to the last of the rounds.
pub open spec fn folding_events(u: int, ms: Seq<Messages>, cs: Seq<int>) -> Seq<Event> {
    seq![Event::Append { label: label_u(), bytes: g1_encoding(u) }] + rounds_events(ms, cs)
}

/// What happens to the transcript when the opening point is drawn.
pub open spec fn point_events(rs: Seq<int>) -> Seq<Event> {
    Seq::new(rs.len(), |i: int| Event::Challenge { label: label_point(), value: rs[i] })
}

/// The claimed inner product, with what the first `n` rounds add to it.
pub open spec fn partial_u(u: int, ms: Seq<Messages>, cs: Seq<int>, n: int) -> int
    decreases n,
{
    if n <= 0 {
        u
    } else {
        partial_u(u, ms, cs, n - 1) + ms[n - 1].u_l * cs[n - 1] + ms[n - 1].u_r * inverse(cs[n - 1])
    }
}

/// The inner product that is left after the rounds, as the verifier computes it.
pub open spec fn folded_u(u: int, ms: Seq<Messages>, cs: Seq<int>) -> int {
    partial_u(u, ms, cs, cs.len() as int) % order()
}

/// The claimed pairing product, times what the first `n` rounds multiply it by.
pub open spec fn partial_t(t: FqkValue, ms: Seq<Messages>, cs: Seq<int>, n: int) -> FqkValue
    decreases n,
{
    if n <= 0 {
        t
    } else {
        fqk_product(
            partial_t(t, ms, cs, n - 1),
            fqk_product(
                fqk_power(ms[n - 1].t_l, cs[n - 1]),
                fqk_power(ms[n - 1].t_r, inverse(cs[n - 1])),
            ),
        )
    }
}

/// The pairing product that is left after the rounds, as the verifier computes it.
pub open spec fn folded_t(t: FqkValue, ms: Seq<Messages>, cs: Seq<int>) -> FqkValue {
    partial_t(t, ms, cs, cs.len() as int)
}

/// Only the messages of rounds that took place reach the transcript.
pub proof fn lemma_rounds_events_agree(ms: Seq<Messages>, ns: Seq<Messages>, cs: Seq<int>)
    requires
        forall|i: int| 0 <= i < cs.len() ==> #[trigger] ms[i] == ns[i],
    ensures
        rounds_events(ms, cs) == rounds_events(ns, cs),
    decreases cs.len(),
{
    if cs.len() > 0 {
        lemma_rounds_events_agree(ms, ns, cs.drop_last());
    }
}

/// One more challenge ends one more round.
pub proof fn lemma_one_more_round(v: Vectors, cs: Seq<int>, c: int)
    ensures
        v.after(cs.push(c)) == v.after(cs).folded(c),
        v.all_messages(cs.push(c)) == v.all_messages(cs).push(v.after(cs).messages()),
        rounds_events(v.all_messages(cs.push(c)), cs.push(c)) == rounds_events(
            v.all_messages(cs),
            cs,
        ) + round_events(v.after(cs).messages(), c),
{
    let ds = cs.push(c);
    assert(ds.drop_last() =~= cs);
    assert forall|i: int| 0 <= i <= cs.len() implies #[trigger] ds.take(i) == cs.take(i) by {
        assert(ds.take(i) =~= cs.take(i));
    }
    assert(cs.take(cs.len() as int) =~= cs);
    assert(v.all_messages(ds) =~= v.all_messages(cs).push(v.after(cs).messages()));
    lemma_rounds_events_agree(v.all_messages(ds), v.all_messages(cs), cs);
}

/// Whether a transcript went on from `before` to `after` by a claimed inner product and the rounds
/// of the vectors that end in the challenges `cs`.
pub open spec fn went_on(
    before: Seq<Event>,
    after: Seq<Event>,
    u: int,
    v: Vectors,
    cs: Seq<int>,
) -> bool {
    after == before + folding_events(u, v.all_messages(cs), cs)
}

/// Going on by one more round.
pub proof fn lemma_went_on(
    before: Seq<Event>,
    after: Seq<Event>,
    u: int,
    v: Vectors,
    cs: Seq<int>,
    c: int,
)
    requires
        went_on(before, after, u, v, cs),
    ensures
        went_on(before, after + round_events(v.after(cs).messages(), c), u, v, cs.push(c)),
{
    lemma_one_more_round(v, cs, c);
    let more = round_events(v.after(cs).messages(), c);
    assert(after + more =~= before + folding_events(
        u,
        v.all_messages(cs.push(c)),
        cs.push(c),
    ));
}

} // verus!

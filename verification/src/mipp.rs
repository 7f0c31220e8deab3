//! The argument itself: what the prover makes, and what the verifier makes of it.

use crate::algebra::{lemma_congruent_mod, lemma_congruent_ops, order, pairing_value, FqkValue};
use crate::error::Error;
use crate::folding::{compress, compress_field, multiexponentiation};
use crate::groups::{multiples, pairing, pairings_product, CurvePoint, Fqk, G1, G2};
use crate::polynomial::{evaluations, line_product, partial_line_product};
use crate::protocol::{
    all_invertible, folded_t, folded_u, folding_events, inverse, label_u, lemma_inverse_unique,
    lemma_one_more_round, lemma_went_on, left, partial_t, partial_u, point_events, right,
    round_events, went_on, Messages, Vectors,
};
use crate::scalar::{lemma_scalar_range, scalar_values, Scalar};
use crate::transcript::{Event, Transcript};
use vstd::arithmetic::power2::{is_pow2, lemma_pow2_unfold, pow2};
use vstd::prelude::*;

verus! {

/// The proof that a polynomial committed to in the second source group takes a value at a point.
#[derive(Debug, Clone)]
pub struct ProofG1 {
    pub proofs: Vec<G1>,
}

/// A commitment, in the second source group, to a polynomial of `nv` variables.
#[derive(Debug, Clone)]
pub struct CommitmentG2 {
    pub nv: usize,
    pub h_product: G2,
}

/// The argument for an inner product of points and scalars and a product of pairings at once.
#[derive(Debug, Clone)]
pub struct MippProof {
    pub comms_t: Vec<(Fqk, Fqk)>,
    pub comms_u: Vec<(G1, G1)>,
    pub final_a: G1,
    pub final_h: G2,
    pub pst_proof_h: ProofG1,
}

/// Everything of an argument but the opening of the polynomial that its keys were folded by.
#[derive(Debug)]
pub struct MippOpening {
    pub comms_t: Vec<(Fqk, Fqk)>,
    pub comms_u: Vec<(G1, G1)>,
    pub final_a: G1,
    pub final_y: Scalar,
    pub final_h: G2,
    /// The challenges of the rounds.
    pub challenges: Vec<Scalar>,
    /// The evaluations of the polynomial over the hypercube.
    pub evaluations: Vec<Scalar>,
    /// The point at which the polynomial is to be opened.
    pub point: Vec<Scalar>,
}

/// The messages that two lists of commitments hold.
pub open spec fn messages(comms_u: Seq<(G1, G1)>, comms_t: Seq<(Fqk, Fqk)>) -> Seq<Messages> {
    Seq::new(
        comms_u.len(),
        |i: int|
            Messages {
                u_l: comms_u[i].0.multiple(),
                u_r: comms_u[i].1.multiple(),
                t_l: comms_t[i].0@,
                t_r: comms_t[i].1@,
            },
    )
}

/// The numbers that stand for three vectors.
pub open spec fn vectors(a: Seq<G1>, y: Seq<Scalar>, h: Seq<G2>) -> Vectors {
    Vectors { a: multiples(a), y: scalar_values(y), h: multiples(h) }
}

/// Whether no challenge is zero.
pub open spec fn all_nonzero(cs: Seq<int>) -> bool {
    forall|i: int| 0 <= i < cs.len() ==> #[trigger] cs[i] != 0
}

impl MippOpening {
    /// Whether this is what the prover makes of the vectors.
    pub open spec fn opens(self, v: Vectors) -> bool {
        let cs = scalar_values(self.challenges@);
        let end = v.after(cs);
        &&& pow2(cs.len()) == v.a.len()
        &&& v.y.len() == v.a.len()
        &&& all_nonzero(cs)
        &&& all_invertible(cs)
        &&& self.comms_t@.len() == self.comms_u@.len()
        &&& messages(self.comms_u@, self.comms_t@) == v.all_messages(cs)
        &&& end.a == seq![self.final_a.multiple()]
        &&& end.y == seq![self.final_y@]
        &&& end.h == seq![self.final_h.multiple()]
        &&& scalar_values(self.evaluations@) == evaluations(cs)
        &&& self.point@.len() == cs.len()
    }
}

impl MippOpening {
    /// Completes the argument by the opening of the polynomial, given the commitment to it, which the
    /// keys must have been folded to.
    pub fn finish(self, commitment: &CommitmentG2, pst_proof_h: ProofG1) -> (r: Option<MippProof>)
        ensures
            r is Some <==> commitment.h_product.multiple() == self.final_h.multiple(),
            r matches Some(proof) ==> proof.comms_t == self.comms_t && proof.comms_u == self.comms_u
                && proof.final_a == self.final_a && proof.final_h == self.final_h
                && proof.pst_proof_h == pst_proof_h,
    {
        if commitment.h_product.same(&self.final_h) {
            Some(
                MippProof {
                    comms_t: self.comms_t,
                    comms_u: self.comms_u,
                    final_a: self.final_a,
                    final_h: self.final_h,
                    pst_proof_h,
                },
            )
        } else {
            None
        }
    }
}

/// What a verifier has found, and what remains to be checked of the committed polynomial.
#[derive(Debug)]
pub struct MippClaim {
    /// The challenges of the rounds.
    pub challenges: Vec<Scalar>,
    /// What the scalars fold to.
    pub final_y: Scalar,
    /// The commitment to the polynomial that the keys were folded by.
    pub comm_h: CommitmentG2,
    /// The point at which the polynomial is opened.
    pub point: Vec<Scalar>,
    /// The value that the polynomial must take there.
    pub value: Scalar,
    /// Whether the inner product comes out.
    pub check_u: bool,
    /// Whether the pairing product comes out.
    pub check_t: bool,
}

impl MippClaim {
    /// Whether this is what the verifier makes of a proof for the point `q`, the inner product `u`
    /// and the pairing product `t`.
    pub open spec fn follows(self, proof: MippProof, q: Seq<int>, u: int, t: FqkValue) -> bool {
        let cs = scalar_values(self.challenges@);
        let rs = scalar_values(self.point@);
        let a = proof.final_a.multiple();
        let h = proof.final_h.multiple();
        &&& cs.len() == q.len()
        &&& all_nonzero(cs)
        &&& all_invertible(cs)
        &&& rs.len() == cs.len()
        &&& self.final_y@ == line_product(cs, q) % order()
        &&& self.comm_h.nv == cs.len()
        &&& self.comm_h.h_product == proof.final_h
        &&& self.value@ == line_product(cs.reverse(), rs) % order()
        &&& self.check_u == (folded_u(u, proof.messages(), cs) == (a * self.final_y@) % order())
        &&& self.check_t == (folded_t(t, proof.messages(), cs) == pairing_value(a * h))
    }

    /// The verdict, given whether the committed polynomial was shown to take the claimed value.
    pub fn accept(&self, check_h: bool) -> (r: bool)
        ensures
            r == (check_h && self.check_u && self.check_t),
    {
        check_h && self.check_u && self.check_t
    }
}

/// Whether this is how a prover comes out who holds the vectors `v` and claims the inner product `u`,
/// and whose transcript goes from `before` to `after`.  The prover succeeds exactly where the lengths
/// allow of it and no challenge is zero.
pub open spec fn proved(
    before: Seq<Event>,
    after: Seq<Event>,
    u: int,
    v: Vectors,
    r: Result<MippOpening, Error>,
) -> bool {
    match r {
        Ok(opening) => {
            let cs = scalar_values(opening.challenges@);
            &&& is_pow2(v.a.len() as int) && v.y.len() == v.a.len()
            &&& opening.opens(v)
            &&& after == before + folding_events(u, v.all_messages(cs), cs) + point_events(
                scalar_values(opening.point@),
            )
        },
        Err(Error::InvalidIPVectorLength) => {
            &&& !(is_pow2(v.a.len() as int) && v.y.len() == v.a.len())
            &&& exists|cs: Seq<int>|
                {
                    &&& cs.len() == v.rounds()
                    &&& all_nonzero(cs)
                    &&& #[trigger] went_on(before, after, u, v, cs)
                }
        },
        Err(Error::ZeroChallenge) => exists|cs: Seq<int>|
            {
                &&& 0 < cs.len() <= v.rounds()
                &&& cs.last() == 0
                &&& all_nonzero(cs.drop_last())
                &&& #[trigger] went_on(before, after, u, v, cs)
            },
        Err(_) => false,
    }
}

/// Whether this is how a verifier comes out who reads the proof for the point `q`, the inner product
/// `u` and the pairing product `t`, and whose transcript goes from `before` to `after`.  There is a
/// claim exactly where no challenge is zero.
pub open spec fn verified(
    before: Seq<Event>,
    after: Seq<Event>,
    proof: MippProof,
    q: Seq<int>,
    u: int,
    t: FqkValue,
    r: Result<MippClaim, Error>,
) -> bool {
    match r {
        Ok(claim) => {
            &&& claim.follows(proof, q, u, t)
            &&& after == before + folding_events(
                u,
                proof.messages(),
                scalar_values(claim.challenges@),
            ) + point_events(scalar_values(claim.point@))
        },
        Err(Error::ZeroChallenge) => exists|cs: Seq<int>|
            {
                &&& 0 < cs.len() <= q.len()
                &&& cs.last() == 0
                &&& all_nonzero(cs.drop_last())
                &&& after == before + #[trigger] folding_events(u, proof.messages(), cs)
            },
        Err(_) => false,
    }
}

/// The product of a factor for each entry of `p`.
fn product_of_lines(c: &Vec<Scalar>, p: &Vec<Scalar>) -> (r: Scalar)
    requires
        c@.len() == p@.len(),
    ensures
        r@ == line_product(scalar_values(c@), scalar_values(p@)) % order(),
{
    let ghost cv = scalar_values(c@);
    let ghost pv = scalar_values(p@);
    let mut r: Scalar = Scalar::one();
    let mut i: usize = 0;
    while i < p.len()
        invariant
            i <= p@.len(),
            c@.len() == p@.len(),
            cv == scalar_values(c@),
            pv == scalar_values(p@),
            r@ == partial_line_product(cv, pv, i as int) % order(),
        decreases p@.len() - i,
    {
        let factor = Scalar::one().plus(&c[i].times(&p[i])).minus(&p[i]);
        proof {
            let x = cv[i as int] * pv[i as int];
            let f = 1 + x - pv[i as int];
            let before = partial_line_product(cv, pv, i as int);
            lemma_congruent_mod(x);
            lemma_congruent_ops(1, 1, x % order(), x);
            lemma_congruent_mod(1 + x % order());
            lemma_congruent_ops(
                (1 + x % order()) % order(),
                1 + x,
                pv[i as int],
                pv[i as int],
            );
            lemma_congruent_mod(f);
            lemma_congruent_mod(before);
            lemma_congruent_ops(before % order(), before, factor@, f);
        }
        r = r.times(&factor);
        i = i + 1;
    }
    r
}

/// The scalars in reverse order.
fn reverse(s: &Vec<Scalar>) -> (r: Vec<Scalar>)
    ensures
        r@.len() == s@.len(),
        scalar_values(r@) == scalar_values(s@).reverse(),
{
    let mut r: Vec<Scalar> = Vec::new();
    let mut i: usize = s.len();
    while i > 0
        invariant
            i <= s@.len(),
            r@.len() == s@.len() - i,
            forall|j: int| 0 <= j < r@.len() ==> #[trigger] r@[j] == s@[s@.len() - 1 - j],
        decreases i,
    {
        i = i - 1;
        r.push(s[i]);
    }
    assert(scalar_values(r@) =~= scalar_values(s@).reverse());
    r
}

/// The claimed inner product with what the rounds add to it.
fn fold_u(proof: &MippProof, xs: &Vec<Scalar>, xs_inv: &Vec<Scalar>, u: &G1) -> (r: G1)
    requires
        xs@.len() == xs_inv@.len(),
        proof.comms_u@.len() == xs_inv@.len(),
        forall|j: int| 0 <= j < xs@.len() ==> (#[trigger] xs@[j])@ == inverse(xs_inv@[j]@),
    ensures
        r.multiple() == folded_u(u.multiple(), proof.messages(), scalar_values(xs_inv@)),
{
    let ghost ms = proof.messages();
    let ghost cs = scalar_values(xs_inv@);
    let mut r: G1 = *u;
    let mut i: usize = 0;
    proof {
        u.lemma_multiple_range();
    }
    while i < xs_inv.len()
        invariant
            i <= xs_inv@.len(),
            xs@.len() == xs_inv@.len(),
            proof.comms_u@.len() == xs_inv@.len(),
            forall|j: int| 0 <= j < xs@.len() ==> (#[trigger] xs@[j])@ == inverse(xs_inv@[j]@),
            ms == proof.messages(),
            cs == scalar_values(xs_inv@),
            r.multiple() == partial_u(u.multiple(), ms, cs, i as int) % order(),
        decreases xs_inv@.len() - i,
    {
        let l: G1 = proof.comms_u[i].0.times(&xs_inv[i]);
        let r2: G1 = proof.comms_u[i].1.times(&xs[i]);
        proof {
            let x = ms[i as int].u_l * cs[i as int];
            let z = ms[i as int].u_r * inverse(cs[i as int]);
            let before = partial_u(u.multiple(), ms, cs, i as int);
            lemma_congruent_mod(x);
            lemma_congruent_mod(z);
            lemma_congruent_ops(x % order(), x, z % order(), z);
            lemma_congruent_mod(x % order() + z % order());
            lemma_congruent_mod(before);
            lemma_congruent_ops(
                before % order(),
                before,
                (x % order() + z % order()) % order(),
                x + z,
            );
        }
        r = r.plus(&l.plus(&r2));
        i = i + 1;
    }
    r
}

/// The claimed pairing product times what the rounds multiply it by.
fn fold_t(proof: &MippProof, xs: &Vec<Scalar>, xs_inv: &Vec<Scalar>, t: &Fqk) -> (r: Fqk)
    requires
        xs@.len() == xs_inv@.len(),
        proof.comms_u@.len() == xs_inv@.len(),
        proof.comms_t@.len() >= xs_inv@.len(),
        forall|j: int| 0 <= j < xs@.len() ==> (#[trigger] xs@[j])@ == inverse(xs_inv@[j]@),
    ensures
        r@ == folded_t(t@, proof.messages(), scalar_values(xs_inv@)),
{
    let ghost ms = proof.messages();
    let ghost cs = scalar_values(xs_inv@);
    let mut r: Fqk = *t;
    let mut i: usize = 0;
    while i < xs_inv.len()
        invariant
            i <= xs_inv@.len(),
            xs@.len() == xs_inv@.len(),
            proof.comms_u@.len() == xs_inv@.len(),
            proof.comms_t@.len() >= xs_inv@.len(),
            forall|j: int| 0 <= j < xs@.len() ==> (#[trigger] xs@[j])@ == inverse(xs_inv@[j]@),
            ms == proof.messages(),
            cs == scalar_values(xs_inv@),
            r@ == partial_t(t@, ms, cs, i as int),
        decreases xs_inv@.len() - i,
    {
        let l: Fqk = proof.comms_t[i].0.power(&xs_inv[i]);
        let r2: Fqk = proof.comms_t[i].1.power(&xs[i]);
        r = r.times(&l.times(&r2));
        i = i + 1;
    }
    r
}

/// The multiples of the two halves of a sequence of points.
proof fn lemma_halves<C: CurvePoint>(s: Seq<C>, split: int)
    requires
        0 <= split <= s.len(),
    ensures
        multiples(s.subrange(0, split)) == left(multiples(s), split),
        multiples(s.subrange(split, s.len() as int)) == right(multiples(s), split),
{
    assert(multiples(s.subrange(0, split)) =~= left(multiples(s), split));
    assert(multiples(s.subrange(split, s.len() as int)) =~= right(multiples(s), split));
}

/// The values of the two halves of a sequence of scalars.
proof fn lemma_scalar_halves(s: Seq<Scalar>, split: int)
    requires
        0 <= split <= s.len(),
    ensures
        scalar_values(s.subrange(0, split)) == left(scalar_values(s), split),
        scalar_values(s.subrange(split, s.len() as int)) == right(scalar_values(s), split),
{
    assert(scalar_values(s.subrange(0, split)) =~= left(scalar_values(s), split));
    assert(scalar_values(s.subrange(split, s.len() as int)) =~= right(scalar_values(s), split));
}

/// Appends the claimed inner product.
fn append_claim<T: Transcript>(transcript: &mut T, u: &G1)
    ensures
        final(transcript).log() == old(transcript).log() + folding_events(
            u.multiple(),
            Seq::empty(),
            Seq::empty(),
        ),
{
    // U
    let label: &'static [u8] = &[0x55];
    transcript.append(label, u);
    assert(label@ =~= label_u());
    assert(transcript.log() =~= old(transcript).log() + folding_events(
        u.multiple(),
        Seq::empty(),
        Seq::empty(),
    ));
}

/// Appends what is said in one round, and draws the challenge that ends it.
fn exchange<T: Transcript>(
    transcript: &mut T,
    comm_u: (&G1, &G1),
    comm_t: (&Fqk, &Fqk),
) -> (c_inv: Scalar)
    ensures
        final(transcript).log() == old(transcript).log() + round_events(
            Messages {
                u_l: comm_u.0.multiple(),
                u_r: comm_u.1.multiple(),
                t_l: comm_t.0@,
                t_r: comm_t.1@,
            },
            c_inv@,
        ),
{
    // comm_u_l
    transcript.append(&[0x63, 0x6f, 0x6d, 0x6d, 0x5f, 0x75, 0x5f, 0x6c], comm_u.0);
    // comm_u_r
    transcript.append(&[0x63, 0x6f, 0x6d, 0x6d, 0x5f, 0x75, 0x5f, 0x72], comm_u.1);
    // comm_t_l
    transcript.append(&[0x63, 0x6f, 0x6d, 0x6d, 0x5f, 0x74, 0x5f, 0x6c], comm_t.0);
    // comm_t_r
    transcript.append(&[0x63, 0x6f, 0x6d, 0x6d, 0x5f, 0x74, 0x5f, 0x72], comm_t.1);
    // challenge_i
    let c_inv = transcript.challenge_scalar(
        &[0x63, 0x68, 0x61, 0x6c, 0x6c, 0x65, 0x6e, 0x67, 0x65, 0x5f, 0x69],
    );
    proof {
        let m = Messages {
            u_l: comm_u.0.multiple(),
            u_r: comm_u.1.multiple(),
            t_l: comm_t.0@,
            t_r: comm_t.1@,
        };
        assert(transcript.log() =~= old(transcript).log() + round_events(m, c_inv@));
    }
    c_inv
}

/// Draws the point at which the polynomial of the challenges is opened.
fn draw_point<T: Transcript>(transcript: &mut T, n: usize) -> (r: Vec<Scalar>)
    ensures
        r@.len() == n,
        final(transcript).log() == old(transcript).log() + point_events(scalar_values(r@)),
{
    let mut point: Vec<Scalar> = Vec::new();
    let mut i: usize = 0;
    assert(transcript.log() =~= old(transcript).log() + point_events(scalar_values(point@)));
    while i < n
        invariant
            i <= n,
            point@.len() == i,
            transcript.log() == old(transcript).log() + point_events(scalar_values(point@)),
        decreases n - i,
    {
        // random_point
        let r = transcript.challenge_scalar(
            &[0x72, 0x61, 0x6e, 0x64, 0x6f, 0x6d, 0x5f, 0x70, 0x6f, 0x69, 0x6e, 0x74],
        );
        point.push(r);
        i = i + 1;
        assert(transcript.log() =~= old(transcript).log() + point_events(scalar_values(point@)));
    }
    point
}

impl MippProof {
    /// What the prover said in the rounds.
    pub open spec fn messages(self) -> Seq<Messages> {
        messages(self.comms_u@, self.comms_t@)
    }

    /// Folds the vectors under the challenges of the transcript, after the claimed inner product `u`
    /// is appended to it.  The claimed pairing product `t` is in the transcript already.
    ///
    /// What comes back still wants the opening of the polynomial of the challenges.
    pub fn prove<T: Transcript>(
        transcript: &mut T,
        a: Vec<G1>,
        y: Vec<Scalar>,
        h: Vec<G2>,
        u: &G1,
        t: &Fqk,
    ) -> (r: Result<MippOpening, Error>)
        requires
            a@.len() >= 2,
            y@.len() >= a@.len() / 2,
            h@.len() >= a@.len() / 2,
        ensures
            proved(
                old(transcript).log(),
                final(transcript).log(),
                u.multiple(),
                vectors(a@, y@, h@),
                r,
            ),
    {
        let ghost v = vectors(a@, y@, h@);
        let ghost before = transcript.log();
        let len: usize = a.len();
        let mut m_a: Vec<G1> = a;
        let mut m_y: Vec<Scalar> = y;
        let mut m_h: Vec<G2> = h;
        let mut comms_t: Vec<(Fqk, Fqk)> = Vec::new();
        let mut comms_u: Vec<(G1, G1)> = Vec::new();
        let mut challenges: Vec<Scalar> = Vec::new();
        let ghost mut cs: Seq<int> = Seq::empty();

        append_claim(transcript, u);
        proof {
            reveal(is_pow2);
            vstd::arithmetic::power2::lemma2_to64();
            assert(scalar_values(challenges@) =~= cs);
            assert(messages(comms_u@, comms_t@) =~= v.all_messages(cs));
            assert(transcript.log() =~= before + folding_events(
                u.multiple(),
                v.all_messages(cs),
                cs,
            ));
        }
        while m_a.len() > 1
            invariant
                m_a@.len() >= 1,
                m_y@.len() >= m_a@.len() / 2,
                m_h@.len() >= m_a@.len() / 2,
                cs.len() == 0 ==> m_a@.len() >= 2,
                cs.len() > 0 ==> m_y@.len() == m_a@.len() && m_h@.len() == m_a@.len()
                    && v.y.len() == v.a.len(),
                vectors(m_a@, m_y@, m_h@) == v.after(cs),
                (is_pow2(v.a.len() as int) && v.y.len() == v.a.len()) == (is_pow2(
                    m_a@.len() as int,
                ) && m_y@.len() == m_a@.len()),
                v.rounds() == cs.len() + v.after(cs).rounds(),
                m_a@.len() * pow2(cs.len()) == len,
                len == v.a.len(),
                cs == scalar_values(challenges@),
                all_nonzero(cs),
                all_invertible(cs),
                comms_t@.len() == comms_u@.len(),
                messages(comms_u@, comms_t@) == v.all_messages(cs),
                went_on(before, transcript.log(), u.multiple(), v, cs),
                before == old(transcript).log(),
                v == vectors(a@, y@, h@),
            decreases m_a@.len(),
        {
            let split: usize = m_a.len() / 2;
            let (a_l, a_r) = m_a.as_slice().split_at(split);
            let (y_l, y_r) = m_y.as_slice().split_at(split);
            let (h_l, h_r) = m_h.as_slice().split_at(split);
            let ghost w = v.after(cs);
            let ghost spoken = transcript.log();
            proof {
                reveal(is_pow2);
                lemma_halves(m_a@, split as int);
                lemma_halves(m_h@, split as int);
                lemma_scalar_halves(m_y@, split as int);
                assert(w.split() == split);
            }

            let comm_u_l: G1 = match multiexponentiation(a_l, y_r) {
                Ok(p) => p,
                Err(e) => return Err(e),
            };
            let comm_u_r: G1 = match multiexponentiation(a_r, y_l) {
                Ok(p) => p,
                Err(e) => return Err(e),
            };
            let comm_t_l: Fqk = pairings_product(a_l, h_r);
            let comm_t_r: Fqk = pairings_product(a_r, h_l);

            let c_inv: Scalar = exchange(
                transcript,
                (&comm_u_l, &comm_u_r),
                (&comm_t_l, &comm_t_r),
            );

            proof {
                let m = w.messages();
                assert(transcript.log() =~= spoken + round_events(m, c_inv@));
                lemma_went_on(before, spoken, u.multiple(), v, cs, c_inv@);
                assert(cs.push(c_inv@).drop_last() =~= cs);
            }
            let c: Scalar = match c_inv.inverse() {
                Some(c) => c,
                None => return Err(Error::ZeroChallenge),
            };

            compress(&mut m_a, split, &c);
            compress_field(&mut m_y, split, &c_inv);
            compress(&mut m_h, split, &c_inv);

            comms_t.push((comm_t_l, comm_t_r));
            comms_u.push((comm_u_l, comm_u_r));
            challenges.push(c_inv);
            proof {
                lemma_scalar_range(c);
                lemma_inverse_unique(c_inv@, c@);
                lemma_one_more_round(v, cs, c_inv@);
                lemma_pow2_unfold((cs.len() + 1) as nat);
                assert(m_a@.len() == multiples(m_a@).len());
                assert(m_y@.len() == scalar_values(m_y@).len());
                assert(m_h@.len() == multiples(m_h@).len());
                assert(split * pow2((cs.len() + 1) as nat) == (2 * split) * pow2(cs.len()))
                    by (nonlinear_arith)
                    requires
                        pow2((cs.len() + 1) as nat) == 2 * pow2(cs.len()),
                ;
                cs = cs.push(c_inv@);
                assert(scalar_values(challenges@) =~= cs);
                assert(messages(comms_u@, comms_t@) =~= v.all_messages(cs));
            }
        }
        proof {
            let end = v.after(cs);
            assert(m_a@.len() == 1);
            assert(cs.len() > 0);
            assert(multiples(m_a@) =~= seq![m_a@[0].multiple()]);
            assert(scalar_values(m_y@) =~= seq![m_y@[0]@]);
            assert(multiples(m_h@) =~= seq![m_h@[0].multiple()]);
        }
        let final_a: G1 = m_a[0];
        let final_y: Scalar = m_y[0];
        let final_h: G2 = m_h[0];
        let evaluations = Self::polynomial_evaluations_from_transcript(challenges.as_slice());
        let point = draw_point(transcript, challenges.len());
        Ok(
            MippOpening {
                comms_t,
                comms_u,
                final_a,
                final_y,
                final_h,
                challenges,
                evaluations,
                point,
            },
        )
    }

    /// Replays the rounds of an argument for the claimed inner product `u` and the claimed pairing
    /// product `t`, where the scalars are the tensor of `point`.
    ///
    /// What comes back still wants the check that the committed polynomial takes the claimed value.
    pub fn verify<T: Transcript>(
        transcript: &mut T,
        proof: &MippProof,
        point: Vec<Scalar>,
        u: &G1,
        t: &Fqk,
    ) -> (r: Result<MippClaim, Error>)
        requires
            proof.comms_u@.len() == point@.len(),
            proof.comms_t@.len() >= proof.comms_u@.len(),
            point@.len() >= 1,
        ensures
            verified(
                old(transcript).log(),
                final(transcript).log(),
                *proof,
                scalar_values(point@),
                u.multiple(),
                t@,
                r,
            ),
    {
        let len: usize = point.len();
        let ghost before = transcript.log();
        let ghost ms = proof.messages();
        let mut xs: Vec<Scalar> = Vec::new();
        let mut xs_inv: Vec<Scalar> = Vec::new();
        let ghost mut cs: Seq<int> = Seq::empty();

        append_claim(transcript, u);
        assert(transcript.log() =~= before + folding_events(u.multiple(), ms, cs));
        assert(scalar_values(xs_inv@) =~= cs);
        let mut i: usize = 0;
        while i < len
            invariant
                i <= len,
                len == proof.comms_u@.len(),
                len <= proof.comms_t@.len(),
                len == point@.len(),
                ms == proof.messages(),
                before == old(transcript).log(),
                cs == scalar_values(xs_inv@),
                cs.len() == i,
                xs@.len() == i,
                forall|j: int| 0 <= j < i ==> (#[trigger] xs@[j])@ == inverse(cs[j]),
                all_nonzero(cs),
                all_invertible(cs),
                transcript.log() == before + folding_events(u.multiple(), ms, cs),
            decreases len - i,
        {
            let ghost spoken = transcript.log();
            let c_inv: Scalar = exchange(
                transcript,
                (&proof.comms_u[i].0, &proof.comms_u[i].1),
                (&proof.comms_t[i].0, &proof.comms_t[i].1),
            );
            proof {
                assert(cs.push(c_inv@).drop_last() =~= cs);
                assert(transcript.log() =~= spoken + round_events(ms[i as int], c_inv@));
                assert(transcript.log() =~= before + folding_events(
                    u.multiple(),
                    ms,
                    cs.push(c_inv@),
                ));
            }
            let c: Scalar = match c_inv.inverse() {
                Some(c) => c,
                None => return Err(Error::ZeroChallenge),
            };
            proof {
                lemma_scalar_range(c);
                lemma_inverse_unique(c_inv@, c@);
                cs = cs.push(c_inv@);
            }
            xs.push(c);
            xs_inv.push(c_inv);
            assert(scalar_values(xs_inv@) =~= cs);
            i = i + 1;
        }

        let final_y: Scalar = product_of_lines(&xs_inv, &point);
        let u_prime: G1 = fold_u(proof, &xs, &xs_inv, u);
        let t_prime: Fqk = fold_t(proof, &xs, &xs_inv, t);

        let opening_point = draw_point(transcript, len);
        let reversed = reverse(&xs_inv);
        let value: Scalar = product_of_lines(&reversed, &opening_point);
        let comm_h = CommitmentG2 { nv: len, h_product: proof.final_h };

        let final_u: G1 = proof.final_a.times(&final_y);
        let final_t: Fqk = pairing(&proof.final_a, &proof.final_h);
        let check_t: bool = t_prime.same(&final_t);
        let check_u: bool = u_prime.same(&final_u);
        Ok(
            MippClaim {
                challenges: xs_inv,
                final_y,
                comm_h,
                point: opening_point,
                value,
                check_u,
                check_t,
            },
        )
    }
}

} // verus!

//! A transcript made of a Poseidon sponge over the scalar field.

use crate::algebra::order;
use crate::scalar::{
    lemma_scalar_range, limbs_value, raw_scalar_values, scalar_limbs, scalar_values, Scalar,
};
use ark_bls12_377::Fr;
use ark_ff::{BigInteger256, PrimeField};
use ark_sponge::poseidon::PoseidonSponge;
use ark_sponge::CryptographicSponge;
use vstd::arithmetic::div_mod::lemma_div_denominator;
use vstd::arithmetic::power::{lemma_pow_positive, pow};
use vstd::prelude::*;

verus! {

/// One thing that happened to a sponge.
pub enum SpongeEvent {
    /// A field element was absorbed.
    Absorb(int),
    /// So many field elements were squeezed at once.
    Squeeze(int),
}

/// The constants of a Poseidon permutation.
#[verifier::ext_equal]
pub struct PoseidonConstants {
    pub full_rounds: int,
    pub partial_rounds: int,
    pub alpha: int,
    pub mds: Seq<Seq<int>>,
    pub ark: Seq<Seq<int>>,
}

/// The numbers of a matrix of scalars.
pub open spec fn matrix_values(rows: Seq<Vec<Scalar>>) -> Seq<Seq<int>> {
    Seq::new(rows.len(), |i: int| scalar_values(rows[i]@))
}

/// The numbers that a matrix of limbs stand for.
spec fn raw_matrix_values(rows: Seq<Vec<[u64; 4]>>) -> Seq<Seq<int>> {
    Seq::new(rows.len(), |i: int| raw_scalar_values(rows[i]@))
}

/// Whether every entry of a matrix is a reduced representative.
spec fn entries_reduced(rows: Seq<Seq<int>>) -> bool {
    forall|i: int, j: int|
        0 <= i < rows.len() && 0 <= j < rows[i].len() ==> 0 <= #[trigger] rows[i][j] < order()
}

/// Whether the round keys have three entries each, and are as many as there are rounds.  Their number
/// is counted in 32 bits.
pub open spec fn well_shaped(full_rounds: int, partial_rounds: int, ark: Seq<Seq<int>>) -> bool {
    &&& full_rounds + partial_rounds <= u32::MAX
    &&& ark.len() as int % 0x1_0000_0000 == full_rounds + partial_rounds
    &&& forall|i: int| 0 <= i < ark.len() ==> (#[trigger] ark[i]).len() == 3
}

impl PoseidonConstants {
    /// Whether the permutation can be carried out: where there is a round, it reads three rows and
    /// columns of the matrix.
    pub open spec fn permutable(self) -> bool {
        self.full_rounds + self.partial_rounds > 0 ==> {
            &&& self.mds.len() >= 3
            &&& forall|i: int| 0 <= i < 3 ==> (#[trigger] self.mds[i]).len() >= 3
        }
    }
}

/// Whether a sponge with this history can absorb so many more elements: the first two are taken in
/// without a permutation.
pub open spec fn absorbable(
    constants: PoseidonConstants,
    history: Seq<SpongeEvent>,
    n: int,
) -> bool {
    constants.permutable() || n == 0 || history.len() + n <= 2
}

/// The constants of a Poseidon permutation over three field elements.
#[derive(Debug)]
pub struct PoseidonParameters {
    full_rounds: u32,
    partial_rounds: u32,
    alpha: u64,
    mds: Vec<Vec<Scalar>>,
    ark: Vec<Vec<Scalar>>,
}

impl View for PoseidonParameters {
    type V = PoseidonConstants;

    closed spec fn view(&self) -> PoseidonConstants {
        PoseidonConstants {
            full_rounds: self.full_rounds as int,
            partial_rounds: self.partial_rounds as int,
            alpha: self.alpha as int,
            mds: matrix_values(self.mds@),
            ark: matrix_values(self.ark@),
        }
    }
}

/// Whether every row of a matrix has so many entries.
fn rows_are(rows: &Vec<Vec<Scalar>>, n: usize) -> (r: bool)
    ensures
        r == (forall|i: int|
            0 <= i < rows@.len() ==> (#[trigger] matrix_values(rows@)[i]).len() == n),
        r == (forall|i: int| 0 <= i < rows@.len() ==> (#[trigger] rows@[i])@.len() == n),
{
    let mut i: usize = 0;
    while i < rows.len()
        invariant
            i <= rows@.len(),
            forall|j: int| 0 <= j < i ==> (#[trigger] matrix_values(rows@)[j]).len() == n,
            forall|j: int| 0 <= j < i ==> (#[trigger] rows@[j])@.len() == n,
        decreases rows@.len() - i,
    {
        if rows[i].len() != n {
            assert(matrix_values(rows@)[i as int].len() != n);
            return false;
        }
        i = i + 1;
    }
    true
}

impl PoseidonParameters {
    #[verifier::type_invariant]
    spec fn shaped(self) -> bool {
        well_shaped(
            self.full_rounds as int,
            self.partial_rounds as int,
            matrix_values(self.ark@),
        )
    }

    /// The constants, if the round keys have the right shape.  The matrix may have any.
    pub fn new(
        full_rounds: u32,
        partial_rounds: u32,
        alpha: u64,
        mds: Vec<Vec<Scalar>>,
        ark: Vec<Vec<Scalar>>,
    ) -> (r: Option<PoseidonParameters>)
        ensures
            r is Some <==> well_shaped(
                full_rounds as int,
                partial_rounds as int,
                matrix_values(ark@),
            ),
            r is Some <==> {
                &&& full_rounds + partial_rounds <= u32::MAX
                &&& ark@.len() as int % 0x1_0000_0000 == full_rounds + partial_rounds
                &&& forall|i: int| 0 <= i < ark@.len() ==> (#[trigger] ark@[i])@.len() == 3
            },
            r matches Some(p) ==> p@ == (PoseidonConstants {
                full_rounds: full_rounds as int,
                partial_rounds: partial_rounds as int,
                alpha: alpha as int,
                mds: matrix_values(mds@),
                ark: matrix_values(ark@),
            }),
            r matches Some(p) ==> p@.mds == Seq::new(
                mds@.len(),
                |i: int| Seq::new(mds@[i]@.len(), |j: int| mds@[i]@[j]@),
            ),
            r matches Some(p) ==> p@.ark == Seq::new(
                ark@.len(),
                |i: int| Seq::new(ark@[i]@.len(), |j: int| ark@[i]@[j]@),
            ),
    {
        let rounds: u64 = full_rounds as u64 + partial_rounds as u64;
        if rounds > u32::MAX as u64 || ark.len() as u64 % 0x1_0000_0000 != rounds || !rows_are(
            &ark,
            3,
        ) {
            return None;
        }
        Some(PoseidonParameters { full_rounds, partial_rounds, alpha, mds, ark })
    }
}

/// A `PoseidonSponge` of ark-sponge over the scalar field.
#[verifier::external_body]
pub struct Sponge {
    inner: PoseidonSponge<Fr>,
}

/// The constants that a sponge was made with.
pub uninterp spec fn sponge_constants(sponge: Sponge) -> PoseidonConstants;

/// What has happened to a sponge since it was made.
pub uninterp spec fn sponge_history(sponge: Sponge) -> Seq<SpongeEvent>;

/// The field elements that `squeeze_field_elements` of a `PoseidonSponge` gives when so many are
/// squeezed at once, by the constants of the sponge and by what has happened to it.
pub uninterp spec fn sponge_output(
    constants: PoseidonConstants,
    history: Seq<SpongeEvent>,
    n: int,
) -> Seq<int>;

/// The number that bytes stand for, the least significant first.
pub open spec fn little_endian(bytes: Seq<u8>) -> int
    decreases bytes.len(),
{
    if bytes.len() == 0 {
        0
    } else {
        bytes[0] + 256 * little_endian(bytes.drop_first())
    }
}

/// One of the digits of a number to the base 256, counted from the least significant.
pub open spec fn digit(n: int, i: int) -> int {
    n / pow(256, i as nat) % 256
}

/// Bytes behind their number, which takes eight bytes, the least significant first.
pub open spec fn framed(bytes: Seq<u8>) -> Seq<u8> {
    Seq::new(8, |i: int| digit(bytes.len() as int, i) as u8) + bytes
}

/// How many pieces of thirty-one bytes some bytes fall into, the last of which may be shorter.
pub open spec fn piece_count(bytes: Seq<u8>) -> nat {
    ((bytes.len() + 30) / 31) as nat
}

/// One of those pieces.
pub open spec fn piece(bytes: Seq<u8>, i: int) -> Seq<u8> {
    bytes.subrange(
        31 * i,
        if 31 * (i + 1) <= bytes.len() {
            31 * (i + 1)
        } else {
            bytes.len() as int
        },
    )
}

/// The field elements that a string of bytes is absorbed as: the numbers that the pieces of the
/// framed bytes stand for.
pub open spec fn byte_elements(bytes: Seq<u8>) -> Seq<int> {
    Seq::new(piece_count(framed(bytes)), |i: int| little_endian(piece(framed(bytes), i)))
}

/// The absorption of field elements, one after the other.
pub open spec fn absorptions(elements: Seq<int>) -> Seq<SpongeEvent> {
    Seq::new(elements.len(), |i: int| SpongeEvent::Absorb(elements[i]))
}

/// `CryptographicSponge::new` of ark-sponge, on `PoseidonSponge`, with parameters made of the
/// constants: a sponge to which nothing has happened.
#[verifier::external_body]
fn sponge_new(
    full_rounds: u32,
    partial_rounds: u32,
    alpha: u64,
    mds: &Vec<Vec<[u64; 4]>>,
    ark: &Vec<Vec<[u64; 4]>>,
) -> (r: Sponge)
    requires
        well_shaped(
            full_rounds as int,
            partial_rounds as int,
            raw_matrix_values(ark@),
        ),
        entries_reduced(raw_matrix_values(mds@)),
        entries_reduced(raw_matrix_values(ark@)),
    ensures
        sponge_constants(r) == (PoseidonConstants {
            full_rounds: full_rounds as int,
            partial_rounds: partial_rounds as int,
            alpha: alpha as int,
            mds: raw_matrix_values(mds@),
            ark: raw_matrix_values(ark@),
        }),
        sponge_history(r) == Seq::<SpongeEvent>::empty(),
{
    let mds = mds.iter().map(|row| row.iter().map(|x| Fr::from(BigInteger256(*x))).collect());
    let ark = ark.iter().map(|row| row.iter().map(|x| Fr::from(BigInteger256(*x))).collect());
    let params = ark_sponge::poseidon::PoseidonParameters::new(
        full_rounds,
        partial_rounds,
        alpha,
        mds.collect(),
        ark.collect(),
    );
    Sponge { inner: PoseidonSponge::new(&params) }
}

/// `Clone::clone` of `PoseidonSponge`: a sponge to which the same has happened.
#[verifier::external_body]
fn sponge_clone(sponge: &Sponge) -> (r: Sponge)
    ensures
        sponge_constants(r) == sponge_constants(*sponge),
        sponge_history(r) == sponge_history(*sponge),
{
    Sponge { inner: sponge.inner.clone() }
}

/// `CryptographicSponge::absorb` of ark-sponge, on `PoseidonSponge` and a `u64`: one field element,
/// which is that number, is absorbed.  From the third element on that takes a permutation.
#[verifier::external_body]
fn sponge_absorb_u64(sponge: &mut Sponge, x: u64)
    requires
        absorbable(sponge_constants(*old(sponge)), sponge_history(*old(sponge)), 1),
    ensures
        sponge_constants(*final(sponge)) == sponge_constants(*old(sponge)),
        sponge_history(*final(sponge)) == sponge_history(*old(sponge)).push(
            SpongeEvent::Absorb(x as int),
        ),
{
    sponge.inner.absorb(&x);
}

/// `CryptographicSponge::absorb` of ark-sponge, on `PoseidonSponge` and an element of its own field:
/// that element is absorbed.  From the third element on that takes a permutation.
#[verifier::external_body]
fn sponge_absorb_scalar(sponge: &mut Sponge, limbs: &[u64; 4])
    requires
        limbs_value(limbs@) < order(),
        absorbable(sponge_constants(*old(sponge)), sponge_history(*old(sponge)), 1),
    ensures
        sponge_constants(*final(sponge)) == sponge_constants(*old(sponge)),
        sponge_history(*final(sponge)) == sponge_history(*old(sponge)).push(
            SpongeEvent::Absorb(limbs_value(limbs@)),
        ),
{
    sponge.inner.absorb(&Fr::from(BigInteger256(*limbs)));
}

/// `CryptographicSponge::absorb` of ark-sponge, on `PoseidonSponge` and a vector of bytes: the
/// elements that the bytes are packed into, behind their number, are absorbed one after the other.
/// From the third element on that takes a permutation.  The bytes and the elements have to fit into
/// memory.
#[verifier::external_body]
fn sponge_absorb_bytes(sponge: &mut Sponge, bytes: &Vec<u8>)
    requires
        bytes@.len() <= isize::MAX / 4,
        absorbable(
            sponge_constants(*old(sponge)),
            sponge_history(*old(sponge)),
            byte_elements(bytes@).len() as int,
        ),
    ensures
        sponge_constants(*final(sponge)) == sponge_constants(*old(sponge)),
        sponge_history(*final(sponge)) == sponge_history(*old(sponge)) + absorptions(
            byte_elements(bytes@),
        ),
{
    sponge.inner.absorb(bytes);
}

/// `CryptographicSponge::squeeze_field_elements` of ark-sponge, on `PoseidonSponge` and its own
/// field: as many reduced elements as are asked for, which depend on the constants and on what has
/// happened to the sponge alone.  The first time it takes a permutation.  The elements have to fit
/// into memory.
#[verifier::external_body]
fn sponge_squeeze(sponge: &mut Sponge, n: usize) -> (r: Vec<[u64; 4]>)
    requires
        n * 32 <= isize::MAX,
        sponge_constants(*old(sponge)).permutable(),
    ensures
        r@.len() == n,
        raw_scalar_values(r@) == sponge_output(
            sponge_constants(*old(sponge)),
            sponge_history(*old(sponge)),
            n as int,
        ),
        forall|i: int| 0 <= i < n ==> limbs_value((#[trigger] r@[i])@) < order(),
        sponge_constants(*final(sponge)) == sponge_constants(*old(sponge)),
        sponge_history(*final(sponge)) == sponge_history(*old(sponge)).push(
            SpongeEvent::Squeeze(n as int),
        ),
{
    let elements: Vec<Fr> = sponge.inner.squeeze_field_elements(n);
    elements.iter().map(|x| x.into_repr().0).collect()
}

/// The limbs of the entries of a matrix.
fn matrix_limbs(rows: &Vec<Vec<Scalar>>) -> (r: Vec<Vec<[u64; 4]>>)
    ensures
        raw_matrix_values(r@) == matrix_values(rows@),
        entries_reduced(raw_matrix_values(r@)),
{
    let mut limbs: Vec<Vec<[u64; 4]>> = Vec::new();
    let mut i: usize = 0;
    while i < rows.len()
        invariant
            i <= rows@.len(),
            limbs@.len() == i,
            forall|j: int|
                0 <= j < i ==> raw_scalar_values((#[trigger] limbs@[j])@) == scalar_values(
                    rows@[j]@,
                ),
        decreases rows@.len() - i,
    {
        let row = scalar_limbs(rows[i].as_slice());
        assert(raw_scalar_values(row@) =~= scalar_values(rows@[i as int]@));
        limbs.push(row);
        i = i + 1;
    }
    assert(raw_matrix_values(limbs@) =~= matrix_values(rows@));
    assert forall|i: int, j: int|
        0 <= i < rows@.len() && 0 <= j < rows@[i]@.len() implies 0 <= #[trigger] matrix_values(
        rows@,
    )[i][j] < order() by {
        lemma_scalar_range(rows@[i]@[j]);
    }
    limbs
}

/// A copy of a matrix.
fn matrix_copy(rows: &Vec<Vec<Scalar>>) -> (r: Vec<Vec<Scalar>>)
    ensures
        matrix_values(r@) == matrix_values(rows@),
{
    let mut copy: Vec<Vec<Scalar>> = Vec::new();
    let mut i: usize = 0;
    while i < rows.len()
        invariant
            i <= rows@.len(),
            copy@.len() == i,
            forall|j: int| 0 <= j < i ==> (#[trigger] copy@[j])@ == rows@[j]@,
        decreases rows@.len() - i,
    {
        let mut row: Vec<Scalar> = Vec::new();
        let mut k: usize = 0;
        while k < rows[i].len()
            invariant
                i < rows@.len(),
                k <= rows@[i as int]@.len(),
                row@ == rows@[i as int]@.take(k as int),
            decreases rows@[i as int]@.len() - k,
        {
            row.push(rows[i][k]);
            k = k + 1;
        }
        copy.push(row);
        i = i + 1;
    }
    assert(matrix_values(copy@) =~= matrix_values(rows@));
    copy
}

impl Clone for PoseidonParameters {
    fn clone(&self) -> (r: PoseidonParameters)
        ensures
            r@ == self@,
    {
        proof {
            use_type_invariant(self);
        }
        PoseidonParameters {
            full_rounds: self.full_rounds,
            partial_rounds: self.partial_rounds,
            alpha: self.alpha,
            mds: matrix_copy(&self.mds),
            ark: matrix_copy(&self.ark),
        }
    }
}

/// A sponge for these constants, to which nothing has happened.
fn fresh_sponge(params: &PoseidonParameters) -> (r: Sponge)
    ensures
        sponge_constants(r) == params@,
        sponge_history(r) == Seq::<SpongeEvent>::empty(),
{
    proof {
        use_type_invariant(params);
    }
    let mds = matrix_limbs(&params.mds);
    let ark = matrix_limbs(&params.ark);
    sponge_new(params.full_rounds, params.partial_rounds, params.alpha, &mds, &ark)
}

/// A point in its compressed encoding.
#[derive(Debug)]
pub struct CompressedGroup(pub Vec<u8>);

/// A transcript that absorbs what is appended to it, and squeezes challenges.
pub struct PoseidonTranscript {
    sponge: Sponge,
    params: PoseidonParameters,
}

impl PoseidonTranscript {
    /// The constants that the transcript starts over with.
    pub closed spec fn params(&self) -> PoseidonConstants {
        self.params@
    }

    /// The constants of the sponge in use.
    pub closed spec fn constants(&self) -> PoseidonConstants {
        sponge_constants(self.sponge)
    }

    /// What has happened to the transcript since it started.
    pub closed spec fn history(&self) -> Seq<SpongeEvent> {
        sponge_history(self.sponge)
    }

    /// Whether the sponge in use has the constants that the transcript starts over with.
    pub open spec fn wf(&self) -> bool {
        self.constants() == self.params()
    }

    /// The challenges that the transcript gives if so many are drawn at once.
    pub open spec fn challenges(&self, n: int) -> Seq<int> {
        sponge_output(self.constants(), self.history(), n)
    }

    /// Whether so many more field elements can be appended.
    pub open spec fn can_absorb(&self, n: int) -> bool {
        absorbable(self.constants(), self.history(), n)
    }

    /// Whether this is what the transcript `before` becomes by these events.
    pub open spec fn goes_on(&self, before: PoseidonTranscript, events: Seq<SpongeEvent>) -> bool {
        &&& self.params() == before.params()
        &&& self.constants() == before.constants()
        &&& self.history() == before.history() + events
    }

    /// A transcript to which nothing has been appended.
    pub fn new(params: &PoseidonParameters) -> (r: PoseidonTranscript)
        ensures
            r.wf(),
            r.params() == params@,
            r.constants() == params@,
            r.history() == Seq::<SpongeEvent>::empty(),
    {
        PoseidonTranscript { sponge: fresh_sponge(params), params: params.clone() }
    }

    /// Starts the transcript over, with a challenge as all that has been appended to it.
    pub fn new_from_state(&mut self, challenge: &Scalar)
        ensures
            final(self).wf(),
            final(self).params() == old(self).params(),
            final(self).constants() == old(self).params(),
            final(self).history() == absorptions(seq![challenge@]),
            final(self).history() == seq![SpongeEvent::Absorb(challenge@)],
    {
        self.sponge = fresh_sponge(&self.params);
        self.append_scalar(challenge);
        assert(self.history() =~= absorptions(seq![challenge@]));
    }

    /// Appends a number.
    pub fn append_u64(&mut self, x: u64)
        requires
            old(self).can_absorb(1),
        ensures
            final(self).goes_on(*old(self), absorptions(seq![x as int])),
            final(self).params() == old(self).params(),
            final(self).constants() == old(self).constants(),
            final(self).history() == old(self).history().push(SpongeEvent::Absorb(x as int)),
    {
        sponge_absorb_u64(&mut self.sponge, x);
        assert(self.history() =~= old(self).history() + absorptions(seq![x as int]));
    }

    /// Appends bytes, and how many they are.
    pub fn append_bytes(&mut self, x: &Vec<u8>)
        requires
            x@.len() <= isize::MAX / 4,
            old(self).can_absorb(byte_elements(x@).len() as int),
        ensures
            final(self).goes_on(*old(self), absorptions(byte_elements(x@))),
            final(self).params() == old(self).params(),
            final(self).constants() == old(self).constants(),
            final(self).history() == old(self).history() + Seq::new(
                byte_elements(x@).len(),
                |i: int| SpongeEvent::Absorb(byte_elements(x@)[i]),
            ),
    {
        sponge_absorb_bytes(&mut self.sponge, x);
    }

    /// Appends a scalar.
    pub fn append_scalar(&mut self, scalar: &Scalar)
        requires
            old(self).can_absorb(1),
        ensures
            final(self).goes_on(*old(self), absorptions(seq![scalar@])),
            final(self).params() == old(self).params(),
            final(self).constants() == old(self).constants(),
            final(self).history() == old(self).history().push(SpongeEvent::Absorb(scalar@)),
    {
        proof {
            lemma_scalar_range(*scalar);
        }
        sponge_absorb_scalar(&mut self.sponge, &scalar.to_limbs());
        assert(self.history() =~= old(self).history() + absorptions(seq![scalar@]));
    }

    /// Appends the encoding of a point, as bytes are appended.
    pub fn append_point(&mut self, point: &CompressedGroup)
        requires
            point.0@.len() <= isize::MAX / 4,
            old(self).can_absorb(byte_elements(point.0@).len() as int),
        ensures
            final(self).goes_on(*old(self), absorptions(byte_elements(point.0@))),
            final(self).params() == old(self).params(),
            final(self).constants() == old(self).constants(),
            final(self).history() == old(self).history() + Seq::new(
                byte_elements(point.0@).len(),
                |i: int| SpongeEvent::Absorb(byte_elements(point.0@)[i]),
            ),
    {
        sponge_absorb_bytes(&mut self.sponge, &point.0);
    }

    /// Appends scalars, one after the other.
    pub fn append_scalar_vector(&mut self, scalars: &Vec<Scalar>)
        requires
            old(self).can_absorb(scalars@.len() as int),
        ensures
            final(self).goes_on(*old(self), absorptions(scalar_values(scalars@))),
            final(self).params() == old(self).params(),
            final(self).constants() == old(self).constants(),
            final(self).history() == old(self).history() + Seq::new(
                scalars@.len(),
                |i: int| SpongeEvent::Absorb(scalars@[i]@),
            ),
    {
        let ghost values = scalar_values(scalars@);
        let mut i: usize = 0;
        assert(self.history() =~= old(self).history() + absorptions(values.take(0)));
        while i < scalars.len()
            invariant
                i <= scalars@.len(),
                values == scalar_values(scalars@),
                old(self).can_absorb(scalars@.len() as int),
                self.goes_on(*old(self), absorptions(values.take(i as int))),
            decreases scalars@.len() - i,
        {
            self.append_scalar(&scalars[i]);
            i = i + 1;
            assert(self.history() =~= old(self).history() + absorptions(values.take(i as int)));
        }
        assert(values.take(i as int) =~= values);
    }

    /// Draws one challenge.
    pub fn challenge_scalar(&mut self) -> (r: Scalar)
        requires
            old(self).constants().permutable(),
        ensures
            r@ == old(self).challenges(1)[0],
            r@ == sponge_output(old(self).constants(), old(self).history(), 1)[0],
            final(self).goes_on(*old(self), seq![SpongeEvent::Squeeze(1)]),
            final(self).params() == old(self).params(),
            final(self).constants() == old(self).constants(),
            final(self).history() == old(self).history().push(SpongeEvent::Squeeze(1)),
    {
        let limbs = sponge_squeeze(&mut self.sponge, 1);
        proof {
            assert(self.history() =~= old(self).history() + seq![SpongeEvent::Squeeze(1)]);
            assert(raw_scalar_values(limbs@)[0] == limbs_value(limbs@[0]@));
        }
        Scalar::from_limbs(limbs[0]).unwrap()
    }

    /// Draws as many challenges at once.
    pub fn challenge_vector(&mut self, len: usize) -> (r: Vec<Scalar>)
        requires
            len * 32 <= isize::MAX,
            old(self).constants().permutable(),
        ensures
            scalar_values(r@) == old(self).challenges(len as int),
            r@.len() == len,
            forall|i: int|
                0 <= i < len ==> (#[trigger] r@[i])@ == sponge_output(
                    old(self).constants(),
                    old(self).history(),
                    len as int,
                )[i],
            final(self).goes_on(*old(self), seq![SpongeEvent::Squeeze(len as int)]),
            final(self).params() == old(self).params(),
            final(self).constants() == old(self).constants(),
            final(self).history() == old(self).history().push(
                SpongeEvent::Squeeze(len as int),
            ),
    {
        let limbs = sponge_squeeze(&mut self.sponge, len);
        let ghost values = raw_scalar_values(limbs@);
        assert(self.history() =~= old(self).history() + seq![SpongeEvent::Squeeze(len as int)]);
        let mut challenges: Vec<Scalar> = Vec::new();
        let mut i: usize = 0;
        while i < len
            invariant
                i <= len,
                limbs@.len() == len,
                challenges@.len() == i,
                values == raw_scalar_values(limbs@),
                forall|j: int| 0 <= j < len ==> limbs_value((#[trigger] limbs@[j])@) < order(),
                forall|j: int| 0 <= j < i ==> (#[trigger] challenges@[j])@ == values[j],
            decreases len - i,
        {
            challenges.push(Scalar::from_limbs(limbs[i]).unwrap());
            i = i + 1;
        }
        assert(scalar_values(challenges@) =~= values);
        challenges
    }
}

impl Clone for PoseidonTranscript {
    fn clone(&self) -> (r: PoseidonTranscript)
        ensures
            r.goes_on(*self, Seq::empty()),
            r.params() == self.params(),
            r.constants() == self.constants(),
            r.history() == self.history(),
    {
        let r = PoseidonTranscript {
            sponge: sponge_clone(&self.sponge),
            params: self.params.clone(),
        };
        assert(r.history() =~= self.history() + Seq::<SpongeEvent>::empty());
        r
    }
}

/// What can be appended to a transcript.
pub trait AppendToPoseidon {
    /// Whether it is of a size that can be appended to the transcript.
    open spec fn appendable(&self, transcript: &PoseidonTranscript) -> bool {
        true
    }

    /// What happens to a transcript that it is appended to.  Only what is itself verified has to say
    /// what that is.
    closed spec fn appended(&self) -> Seq<SpongeEvent> {
        arbitrary()
    }

    /// Appends it to a transcript.
    fn append_to_poseidon(&self, transcript: &mut PoseidonTranscript)
        requires
            self.appendable(old(transcript)),
        ensures
            final(transcript).goes_on(*old(transcript), self.appended()),
    ;
}

impl AppendToPoseidon for CompressedGroup {
    open spec fn appendable(&self, transcript: &PoseidonTranscript) -> bool {
        self.0@.len() <= isize::MAX / 4 && transcript.can_absorb(
            byte_elements(self.0@).len() as int,
        )
    }

    open spec fn appended(&self) -> Seq<SpongeEvent> {
        absorptions(byte_elements(self.0@))
    }

    fn append_to_poseidon(&self, transcript: &mut PoseidonTranscript)
        ensures
            final(transcript).params() == old(transcript).params(),
            final(transcript).constants() == old(transcript).constants(),
            final(transcript).history() == old(transcript).history() + Seq::new(
                byte_elements(self.0@).len(),
                |i: int| SpongeEvent::Absorb(byte_elements(self.0@)[i]),
            ),
    {
        transcript.append_point(self);
    }
}

/// Transcripts of the same constants, to which the same has happened, give the same challenges.
pub proof fn law_same_history_same_challenges(s: PoseidonTranscript, t: PoseidonTranscript, n: int)
    requires
        s.constants() == t.constants(),
        s.history() == t.history(),
    ensures
        s.challenges(n) == t.challenges(n),
{
}

/// Appending scalars in two goes is appending them in one.
pub proof fn law_scalars_in_two_goes(a: Seq<Scalar>, b: Seq<Scalar>)
    ensures
        absorptions(scalar_values(a)) + absorptions(scalar_values(b)) == absorptions(
            scalar_values(a + b),
        ),
{
    assert(absorptions(scalar_values(a)) + absorptions(scalar_values(b)) =~= absorptions(
        scalar_values(a + b),
    ));
}

/// Bytes that stand for the same number are the same as far as the shorter of them go.
proof fn lemma_little_endian_digits(a: Seq<u8>, b: Seq<u8>, i: int)
    requires
        little_endian(a) == little_endian(b),
        0 <= i < a.len(),
        i < b.len(),
    ensures
        a[i] == b[i],
    decreases i,
{
    assert(a[0] == b[0]);
    if i > 0 {
        lemma_little_endian_digits(a.drop_first(), b.drop_first(), i - 1);
    }
}

/// A number is known by its digits to the base 256.
proof fn lemma_digits(m: int, n: int, k: nat)
    requires
        0 <= m < pow(256, k),
        0 <= n < pow(256, k),
        forall|i: int| 0 <= i < k ==> #[trigger] digit(m, i) == digit(n, i),
    ensures
        m == n,
    decreases k,
{
    reveal(pow);
    if k > 0 {
        let rest = (k - 1) as nat;
        assert(pow(256, 0) == 1);
        assert(pow(256, 1) == 256);
        assert forall|i: int| 0 <= i < rest implies #[trigger] digit(m / 256, i) == digit(
            n / 256,
            i,
        ) by {
            lemma_pow_positive(256, i as nat);
            lemma_div_denominator(m, 256, pow(256, i as nat));
            lemma_div_denominator(n, 256, pow(256, i as nat));
            assert(digit(m, i + 1) == digit(n, i + 1));
        }
        lemma_digits(m / 256, n / 256, rest);
        assert(digit(m, 0) == digit(n, 0));
    }
}

/// No two strings of bytes are absorbed as the same field elements.
pub proof fn law_bytes_are_told_apart(a: Seq<u8>, b: Seq<u8>)
    requires
        a.len() <= u64::MAX,
        b.len() <= u64::MAX,
        byte_elements(a) == byte_elements(b),
    ensures
        a == b,
{
    let x = framed(a);
    let y = framed(b);
    assert(byte_elements(a).len() == byte_elements(b).len());
    assert forall|k: int| 0 <= k < byte_elements(a).len() implies little_endian(
        #[trigger] piece(x, k),
    ) == little_endian(piece(y, k)) by {
        assert(byte_elements(a)[k] == little_endian(piece(x, k)));
        assert(byte_elements(b)[k] == little_endian(piece(y, k)));
    }
    assert forall|i: int| 0 <= i < 8 implies #[trigger] digit(a.len() as int, i) == digit(
        b.len() as int,
        i,
    ) by {
        lemma_little_endian_digits(piece(x, 0), piece(y, 0), i);
        assert(piece(x, 0)[i] == x[i]);
        assert(piece(y, 0)[i] == y[i]);
        assert(x[i] == digit(a.len() as int, i) as u8);
        assert(y[i] == digit(b.len() as int, i) as u8);
    }
    assert(u64::MAX < pow(256, 8)) by {
        reveal(pow);
        reveal_with_fuel(pow, 9);
    }
    lemma_digits(a.len() as int, b.len() as int, 8);
    assert forall|i: int| 0 <= i < a.len() implies a[i] == b[i] by {
        let k = (8 + i) / 31;
        let j = (8 + i) % 31;
        lemma_little_endian_digits(piece(x, k), piece(y, k), j);
        assert(piece(x, k)[j] == a[i]);
        assert(piece(y, k)[j] == b[i]);
    }
    assert(a =~= b);
}

/// No two sequences of scalars are appended as the same events.
pub proof fn law_scalars_are_told_apart(a: Seq<Scalar>, b: Seq<Scalar>)
    requires
        absorptions(scalar_values(a)) == absorptions(scalar_values(b)),
    ensures
        a.len() == b.len(),
        forall|i: int| 0 <= i < a.len() ==> (#[trigger] a[i])@ == b[i]@,
{
    let x = absorptions(scalar_values(a));
    let y = absorptions(scalar_values(b));
    assert(x.len() == a.len() && y.len() == b.len());
    assert forall|i: int| 0 <= i < a.len() implies (#[trigger] a[i])@ == b[i]@ by {
        assert(x[i] == SpongeEvent::Absorb(a[i]@));
        assert(y[i] == SpongeEvent::Absorb(b[i]@));
    }
}

/// The events of appended elements are one for each, in their order, and hold the element itself.
pub proof fn law_absorptions(elements: Seq<int>, i: int)
    requires
        0 <= i < elements.len(),
    ensures
        absorptions(elements).len() == elements.len(),
        absorptions(elements)[i] == SpongeEvent::Absorb(elements[i]),
{
}

/// The challenges that a transcript gives are what the sponge gives, one by one.
pub proof fn law_challenges(t: PoseidonTranscript, n: int, i: int)
    requires
        0 <= i < n,
    ensures
        t.challenges(n)[i] == sponge_output(t.constants(), t.history(), n)[i],
{
}

/// Going on keeps the constants and adds the events at the end of the history.
pub proof fn law_goes_on(
    before: PoseidonTranscript,
    after: PoseidonTranscript,
    events: Seq<SpongeEvent>,
)
    ensures
        after.goes_on(before, events) <==> {
            &&& after.params() == before.params()
            &&& after.constants() == before.constants()
            &&& after.history() == before.history() + events
        },
{
}

/// When elements can be appended and challenges be drawn: always where there are no rounds or where
/// the matrix has three rows of three; and else the first two elements still can be appended.
pub proof fn law_what_can_be_appended(t: PoseidonTranscript, n: int)
    requires
        n >= 0,
    ensures
        t.constants().full_rounds + t.constants().partial_rounds <= 0
            ==> t.constants().permutable(),
        t.constants().mds.len() >= 3 && t.constants().mds[0].len() >= 3
            && t.constants().mds[1].len() >= 3 && t.constants().mds[2].len() >= 3
            ==> t.constants().permutable(),
        t.constants().permutable() ==> t.can_absorb(n),
        t.history().len() + n <= 2 ==> t.can_absorb(n),
        t.can_absorb(0),
{
}

} // verus!

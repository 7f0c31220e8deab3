//! The source groups and the target field of the BLS12-377 pairing.
//!
//! A point is known by the multiple of the fixed generator of its group that it is; an element of
//! the target field other than zero, by the power of a fixed generator of the field's units.  The
//! generator of the units is the one for which the pairing of the generators of the two groups is
//! its power `pairing_cofactor()`.

use crate::algebra::{
    dot, fqk_normal, fqk_power, fqk_product, fqk_reduced, lemma_add_reduced, lemma_dot_congruent,
    lemma_fqk_normal, lemma_fqk_reduced, lemma_mul_reduced, lemma_mul_reduced_both,
    lemma_partial_dot_congruent, order, pairing_value, FqkValue,
};
use crate::error::Error;
use crate::scalar::{
    lemma_scalar_range, limbs_value, raw_scalar_values, scalar_limbs, scalar_values, Scalar,
};
use ark_bls12_377::{Bls12_377, Fq12, G1Affine, G2Affine};
use ark_ec::msm::VariableBaseMSM;
use ark_ec::{AffineCurve, PairingEngine, ProjectiveCurve};
use ark_ff::{BigInteger256, Field};
use ark_serialize::{CanonicalDeserialize, CanonicalSerialize, SerializationError};
use vstd::prelude::*;

verus! {

/// The multiple of `G1Affine::prime_subgroup_generator()`, between zero and the order of the group,
/// that the point with these uncompressed coordinates is, as `G1Affine::deserialize_unchecked`
/// reads them; nothing if they are not a point of the group.
pub uninterp spec fn g1_multiple(coordinates: Seq<u8>) -> Option<int>;

/// The multiple of `G2Affine::prime_subgroup_generator()`, between zero and the order of the group,
/// that the point with these uncompressed coordinates is, as `G2Affine::deserialize_unchecked`
/// reads them; nothing if they are not a point of the group.
pub uninterp spec fn g2_multiple(coordinates: Seq<u8>) -> Option<int>;

/// The element of the target field with these coefficients, as `Fq12::deserialize` reads them: zero,
/// or the power of the generator with an exponent between zero and the number of units; nothing if
/// the coefficients are not reduced.
pub uninterp spec fn fqk_element(coefficients: Seq<u8>) -> Option<FqkValue>;

/// What `G1Affine::serialize` writes for a multiple of the generator.
pub uninterp spec fn g1_encoding(multiple: int) -> Seq<u8>;

/// What `G2Affine::serialize` writes for a multiple of the generator.
pub uninterp spec fn g2_encoding(multiple: int) -> Seq<u8>;

/// What `Fq12::serialize` writes for an element of the target field.
pub uninterp spec fn fqk_encoding(value: FqkValue) -> Seq<u8>;

/// The multiple of the generator that `G1Affine::deserialize` reads; nothing where it fails.
pub uninterp spec fn g1_decoding(bytes: Seq<u8>) -> Option<int>;

/// The multiple of the generator that `G2Affine::deserialize` reads; nothing where it fails.
pub uninterp spec fn g2_decoding(bytes: Seq<u8>) -> Option<int>;

/// The element of the target field that `Fq12::deserialize` reads; nothing where it fails.
pub uninterp spec fn fqk_decoding(bytes: Seq<u8>) -> Option<FqkValue>;

/// The multiples of the generator that a sequence of points are.
pub open spec fn multiples<C: CurvePoint>(points: Seq<C>) -> Seq<int> {
    Seq::new(points.len(), |i: int| points[i].multiple())
}

/// A point of one of the two source groups.
pub trait CurvePoint: Copy {
    /// The multiple of the group's generator that the point is.
    spec fn multiple(&self) -> int;

    /// The multiple is a reduced representative.
    proof fn lemma_multiple_range(&self)
        ensures
            0 <= self.multiple() < order(),
    ;

    /// The sum of two points.
    fn plus(&self, other: &Self) -> (r: Self)
        ensures
            r.multiple() == (self.multiple() + other.multiple()) % order(),
    ;

    /// The point scaled.
    fn times(&self, scalar: &Scalar) -> (r: Self)
        ensures
            r.multiple() == (self.multiple() * scalar@) % order(),
    ;

    /// The inner product of points and scalars, as far as the shorter of the two goes.
    fn multi_scalar_mul(bases: &[Self], scalars: &[Scalar]) -> (r: Self)
        ensures
            r.multiple() == dot(
                Seq::new(bases@.len(), |i: int| bases@[i].multiple()),
                scalar_values(scalars@),
            ) % order(),
    ;

    /// Whether two points are the same.
    fn same(&self, other: &Self) -> (r: bool)
        ensures
            r == (self.multiple() == other.multiple()),
    ;
}

/// A value with a canonical encoding as bytes.
pub trait Encode {
    /// The encoding.
    spec fn encoding(&self) -> Seq<u8>;

    /// Whether bytes decode to nothing but the value; for a point of the first group and for an
    /// element of the target field, also that they do decode.
    spec fn decoded_by(&self, bytes: Seq<u8>) -> bool;

    /// Writes the encoding, which decodes to nothing but the value.
    fn to_bytes(&self) -> (r: Vec<u8>)
        ensures
            r@ == self.encoding(),
            self.decoded_by(r@),
    ;
}

/// The multiples that a sequence of uncompressed points are.
spec fn raw_g1_multiples(points: Seq<[u8; 96]>) -> Seq<int> {
    Seq::new(points.len(), |i: int| g1_multiple(points[i]@)->0)
}

/// `ProjectiveCurve::add_assign_mixed` of ark-ec, on the first source group: the multiples add up
/// modulo the order of the group.
#[verifier::external_body]
fn g1_add(a: &[u8; 96], b: &[u8; 96]) -> (r: [u8; 96])
    requires
        g1_multiple(a@) is Some,
        g1_multiple(b@) is Some,
    ensures
        g1_multiple(r@) == Some((g1_multiple(a@)->0 + g1_multiple(b@)->0) % order()),
{
    let mut r = [0u8; 96];
    let mut sum = G1Affine::deserialize_unchecked(&a[..]).unwrap().into_projective();
    sum.add_assign_mixed(&G1Affine::deserialize_unchecked(&b[..]).unwrap());
    sum.into_affine().serialize_uncompressed(&mut r[..]).unwrap();
    r
}

/// `AffineCurve::mul` of ark-ec, on the first source group: the multiple is scaled modulo the
/// order of the group.
#[verifier::external_body]
fn g1_mul(a: &[u8; 96], s: &[u64; 4]) -> (r: [u8; 96])
    requires
        g1_multiple(a@) is Some,
        limbs_value(s@) < order(),
    ensures
        g1_multiple(r@) == Some((g1_multiple(a@)->0 * limbs_value(s@)) % order()),
{
    let mut r = [0u8; 96];
    let product = G1Affine::deserialize_unchecked(&a[..]).unwrap().mul(BigInteger256(*s));
    product.into_affine().serialize_uncompressed(&mut r[..]).unwrap();
    r
}

/// `VariableBaseMSM::multi_scalar_mul` of ark-ec, on the first source group: the inner product of
/// the points and the scalars, as far as the shorter of the two goes.
#[verifier::external_body]
fn g1_msm(bases: &Vec<[u8; 96]>, scalars: &Vec<[u64; 4]>) -> (r: [u8; 96])
    requires
        forall|i: int| 0 <= i < bases@.len() ==> g1_multiple((#[trigger] bases@[i])@) is Some,
        forall|i: int| 0 <= i < scalars@.len() ==> limbs_value((#[trigger] scalars@[i])@) < order(),
    ensures
        g1_multiple(r@) == Some(
            dot(raw_g1_multiples(bases@), raw_scalar_values(scalars@)) % order(),
        ),
{
    let mut r = [0u8; 96];
    let bases = bases.iter().map(|b| G1Affine::deserialize_unchecked(&b[..]).unwrap());
    let scalars = scalars.iter().map(|s| BigInteger256(*s)).collect::<Vec<_>>();
    let sum = VariableBaseMSM::multi_scalar_mul(&bases.collect::<Vec<_>>(), &scalars);
    sum.into_affine().serialize_uncompressed(&mut r[..]).unwrap();
    r
}

/// `==` of ark-ec on points of the first source group: the multiples are compared.
#[verifier::external_body]
fn g1_eq(a: &[u8; 96], b: &[u8; 96]) -> (r: bool)
    requires
        g1_multiple(a@) is Some,
        g1_multiple(b@) is Some,
    ensures
        r == (g1_multiple(a@)->0 % order() == g1_multiple(b@)->0 % order()),
{
    G1Affine::deserialize_unchecked(&a[..]).unwrap().into_projective()
        == G1Affine::deserialize_unchecked(&b[..]).unwrap().into_projective()
}

/// `CanonicalSerialize::serialize` of ark-serialize, on the first source group: the bytes depend
/// on the point alone, and `CanonicalDeserialize::deserialize` reads the point back from them.
#[verifier::external_body]
fn g1_encode(a: &[u8; 96]) -> (r: Vec<u8>)
    requires
        g1_multiple(a@) is Some,
    ensures
        r@ == g1_encoding(g1_multiple(a@)->0 % order()),
        g1_decoding(r@) == Some(g1_multiple(a@)->0 % order()),
{
    let mut r = Vec::new();
    G1Affine::deserialize_unchecked(&a[..]).unwrap().serialize(&mut r).unwrap();
    r
}

/// `CanonicalDeserialize::deserialize` of ark-serialize, on the first source group: it fails or
/// gives a point of the group, as the bytes decide.
#[verifier::external_body]
fn g1_decode(bytes: &[u8]) -> (r: Result<[u8; 96], SerializationError>)
    ensures
        r is Ok <==> g1_decoding(bytes@) is Some,
        r matches Ok(p) ==> g1_multiple(p@) == g1_decoding(bytes@),
{
    let mut r = [0u8; 96];
    let point = G1Affine::deserialize(bytes)?;
    point.serialize_uncompressed(&mut r[..]).unwrap();
    Ok(r)
}

/// A point of the first source group, held as its uncompressed coordinates.
#[derive(Clone, Copy, Debug, PartialEq, Eq)]
pub struct G1 {
    coordinates: [u8; 96],
}

impl G1 {
    #[verifier::type_invariant]
    spec fn in_group(self) -> bool {
        g1_multiple(self.coordinates@) is Some
    }

    /// Reads a point from its compressed encoding; what is not a point of the group is refused.
    pub fn from_bytes(bytes: &[u8]) -> (r: Result<G1, Error>)
        ensures
            r is Ok <==> g1_decoding(bytes@) is Some,
            r matches Ok(p) ==> p.multiple() == g1_decoding(bytes@)->0 % order(),
            r matches Err(e) ==> e is Serialization,
    {
        match g1_decode(bytes) {
            Ok(coordinates) => Ok(G1 { coordinates }),
            Err(error) => Err(Error::from(error)),
        }
    }
}

impl CurvePoint for G1 {
    closed spec fn multiple(&self) -> int {
        g1_multiple(self.coordinates@)->0 % order()
    }

    proof fn lemma_multiple_range(&self) {
    }

    fn plus(&self, other: &G1) -> (r: G1) {
        proof {
            use_type_invariant(self);
            use_type_invariant(other);
            lemma_add_reduced(
                g1_multiple(self.coordinates@)->0,
                g1_multiple(other.coordinates@)->0,
            );
        }
        G1 { coordinates: g1_add(&self.coordinates, &other.coordinates) }
    }

    fn times(&self, scalar: &Scalar) -> (r: G1) {
        let limbs = scalar.to_limbs();
        proof {
            use_type_invariant(self);
            lemma_scalar_range(*scalar);
            lemma_mul_reduced(g1_multiple(self.coordinates@)->0, scalar@);
        }
        G1 { coordinates: g1_mul(&self.coordinates, &limbs) }
    }

    fn multi_scalar_mul(bases: &[G1], scalars: &[Scalar]) -> (r: G1) {
        let mut points: Vec<[u8; 96]> = Vec::new();
        let mut i: usize = 0;
        while i < bases.len()
            invariant
                i <= bases@.len(),
                points@.len() == i,
                forall|j: int| 0 <= j < i ==> g1_multiple((#[trigger] points@[j])@) is Some,
                forall|j: int|
                    0 <= j < i ==> g1_multiple((#[trigger] points@[j])@)->0 % order()
                        == bases@[j].multiple(),
            decreases bases@.len() - i,
        {
            let base: G1 = bases[i];
            proof {
                use_type_invariant(&base);
            }
            points.push(base.coordinates);
            i = i + 1;
        }
        let limbs = scalar_limbs(scalars);
        let r = G1 { coordinates: g1_msm(&points, &limbs) };
        proof {
            lemma_dot_congruent(
                raw_g1_multiples(points@),
                Seq::new(bases@.len(), |i: int| bases@[i].multiple()),
                scalar_values(scalars@),
            );
            assert(raw_scalar_values(limbs@) =~= scalar_values(scalars@));
        }
        r
    }

    fn same(&self, other: &G1) -> (r: bool) {
        proof {
            use_type_invariant(self);
            use_type_invariant(other);
        }
        g1_eq(&self.coordinates, &other.coordinates)
    }
}

impl Encode for G1 {
    open spec fn encoding(&self) -> Seq<u8> {
        g1_encoding(self.multiple())
    }

    open spec fn decoded_by(&self, bytes: Seq<u8>) -> bool {
        g1_decoding(bytes) == Some(self.multiple())
    }

    fn to_bytes(&self) -> (r: Vec<u8>)
        ensures
            r@ == g1_encoding(self.multiple()),
            g1_decoding(r@) == Some(self.multiple()),
    {
        proof {
            use_type_invariant(self);
        }
        g1_encode(&self.coordinates)
    }
}

/// The multiples that a sequence of uncompressed points are.
spec fn raw_g2_multiples(points: Seq<[u8; 192]>) -> Seq<int> {
    Seq::new(points.len(), |i: int| g2_multiple(points[i]@)->0)
}

/// `ProjectiveCurve::add_assign_mixed` of ark-ec, on the second source group: the multiples add up
/// modulo the order of the group.
#[verifier::external_body]
fn g2_add(a: &[u8; 192], b: &[u8; 192]) -> (r: [u8; 192])
    requires
        g2_multiple(a@) is Some,
        g2_multiple(b@) is Some,
    ensures
        g2_multiple(r@) == Some((g2_multiple(a@)->0 + g2_multiple(b@)->0) % order()),
{
    let mut r = [0u8; 192];
    let mut sum = G2Affine::deserialize_unchecked(&a[..]).unwrap().into_projective();
    sum.add_assign_mixed(&G2Affine::deserialize_unchecked(&b[..]).unwrap());
    sum.into_affine().serialize_uncompressed(&mut r[..]).unwrap();
    r
}

/// `AffineCurve::mul` of ark-ec, on the second source group: the multiple is scaled modulo the
/// order of the group.
#[verifier::external_body]
fn g2_mul(a: &[u8; 192], s: &[u64; 4]) -> (r: [u8; 192])
    requires
        g2_multiple(a@) is Some,
        limbs_value(s@) < order(),
    ensures
        g2_multiple(r@) == Some((g2_multiple(a@)->0 * limbs_value(s@)) % order()),
{
    let mut r = [0u8; 192];
    let product = G2Affine::deserialize_unchecked(&a[..]).unwrap().mul(BigInteger256(*s));
    product.into_affine().serialize_uncompressed(&mut r[..]).unwrap();
    r
}

/// `VariableBaseMSM::multi_scalar_mul` of ark-ec, on the second source group: the inner product of
/// the points and the scalars, as far as the shorter of the two goes.
#[verifier::external_body]
fn g2_msm(bases: &Vec<[u8; 192]>, scalars: &Vec<[u64; 4]>) -> (r: [u8; 192])
    requires
        forall|i: int| 0 <= i < bases@.len() ==> g2_multiple((#[trigger] bases@[i])@) is Some,
        forall|i: int| 0 <= i < scalars@.len() ==> limbs_value((#[trigger] scalars@[i])@) < order(),
    ensures
        g2_multiple(r@) == Some(
            dot(raw_g2_multiples(bases@), raw_scalar_values(scalars@)) % order(),
        ),
{
    let mut r = [0u8; 192];
    let bases = bases.iter().map(|b| G2Affine::deserialize_unchecked(&b[..]).unwrap());
    let scalars = scalars.iter().map(|s| BigInteger256(*s)).collect::<Vec<_>>();
    let sum = VariableBaseMSM::multi_scalar_mul(&bases.collect::<Vec<_>>(), &scalars);
    sum.into_affine().serialize_uncompressed(&mut r[..]).unwrap();
    r
}

/// `==` of ark-ec on points of the second source group: the multiples are compared.
#[verifier::external_body]
fn g2_eq(a: &[u8; 192], b: &[u8; 192]) -> (r: bool)
    requires
        g2_multiple(a@) is Some,
        g2_multiple(b@) is Some,
    ensures
        r == (g2_multiple(a@)->0 % order() == g2_multiple(b@)->0 % order()),
{
    G2Affine::deserialize_unchecked(&a[..]).unwrap().into_projective()
        == G2Affine::deserialize_unchecked(&b[..]).unwrap().into_projective()
}

/// `CanonicalSerialize::serialize` of ark-serialize, on the second source group: the bytes depend
/// on the point alone, and `CanonicalDeserialize::deserialize` reads the point back from them or
/// fails.  Left unsaid is that it does not fail: the square root of ark-ff finds none for an element
/// of the base field that is a square only in the extension.
#[verifier::external_body]
fn g2_encode(a: &[u8; 192]) -> (r: Vec<u8>)
    requires
        g2_multiple(a@) is Some,
    ensures
        r@ == g2_encoding(g2_multiple(a@)->0 % order()),
        g2_decoding(r@) is Some ==> g2_decoding(r@) == Some(g2_multiple(a@)->0 % order()),
{
    let mut r = Vec::new();
    G2Affine::deserialize_unchecked(&a[..]).unwrap().serialize(&mut r).unwrap();
    r
}

/// `CanonicalDeserialize::deserialize` of ark-serialize, on the second source group: it fails or
/// gives a point of the group, as the bytes decide.
#[verifier::external_body]
fn g2_decode(bytes: &[u8]) -> (r: Result<[u8; 192], SerializationError>)
    ensures
        r is Ok <==> g2_decoding(bytes@) is Some,
        r matches Ok(p) ==> g2_multiple(p@) == g2_decoding(bytes@),
{
    let mut r = [0u8; 192];
    let point = G2Affine::deserialize(bytes)?;
    point.serialize_uncompressed(&mut r[..]).unwrap();
    Ok(r)
}

/// A point of the second source group, held as its uncompressed coordinates.
#[derive(Clone, Copy, Debug, PartialEq, Eq)]
pub struct G2 {
    coordinates: [u8; 192],
}

impl G2 {
    #[verifier::type_invariant]
    spec fn in_group(self) -> bool {
        g2_multiple(self.coordinates@) is Some
    }

    /// Reads a point from its compressed encoding; what is not a point of the group is refused.
    pub fn from_bytes(bytes: &[u8]) -> (r: Result<G2, Error>)
        ensures
            r is Ok <==> g2_decoding(bytes@) is Some,
            r matches Ok(p) ==> p.multiple() == g2_decoding(bytes@)->0 % order(),
            r matches Err(e) ==> e is Serialization,
    {
        match g2_decode(bytes) {
            Ok(coordinates) => Ok(G2 { coordinates }),
            Err(error) => Err(Error::from(error)),
        }
    }
}

impl CurvePoint for G2 {
    closed spec fn multiple(&self) -> int {
        g2_multiple(self.coordinates@)->0 % order()
    }

    proof fn lemma_multiple_range(&self) {
    }

    fn plus(&self, other: &G2) -> (r: G2) {
        proof {
            use_type_invariant(self);
            use_type_invariant(other);
            lemma_add_reduced(
                g2_multiple(self.coordinates@)->0,
                g2_multiple(other.coordinates@)->0,
            );
        }
        G2 { coordinates: g2_add(&self.coordinates, &other.coordinates) }
    }

    fn times(&self, scalar: &Scalar) -> (r: G2) {
        let limbs = scalar.to_limbs();
        proof {
            use_type_invariant(self);
            lemma_scalar_range(*scalar);
            lemma_mul_reduced(g2_multiple(self.coordinates@)->0, scalar@);
        }
        G2 { coordinates: g2_mul(&self.coordinates, &limbs) }
    }

    fn multi_scalar_mul(bases: &[G2], scalars: &[Scalar]) -> (r: G2) {
        let mut points: Vec<[u8; 192]> = Vec::new();
        let mut i: usize = 0;
        while i < bases.len()
            invariant
                i <= bases@.len(),
                points@.len() == i,
                forall|j: int| 0 <= j < i ==> g2_multiple((#[trigger] points@[j])@) is Some,
                forall|j: int|
                    0 <= j < i ==> g2_multiple((#[trigger] points@[j])@)->0 % order()
                        == bases@[j].multiple(),
            decreases bases@.len() - i,
        {
            let base: G2 = bases[i];
            proof {
                use_type_invariant(&base);
            }
            points.push(base.coordinates);
            i = i + 1;
        }
        let limbs = scalar_limbs(scalars);
        let r = G2 { coordinates: g2_msm(&points, &limbs) };
        proof {
            lemma_dot_congruent(
                raw_g2_multiples(points@),
                Seq::new(bases@.len(), |i: int| bases@[i].multiple()),
                scalar_values(scalars@),
            );
            assert(raw_scalar_values(limbs@) =~= scalar_values(scalars@));
        }
        r
    }

    fn same(&self, other: &G2) -> (r: bool) {
        proof {
            use_type_invariant(self);
            use_type_invariant(other);
        }
        g2_eq(&self.coordinates, &other.coordinates)
    }
}

impl Encode for G2 {
    open spec fn encoding(&self) -> Seq<u8> {
        g2_encoding(self.multiple())
    }

    open spec fn decoded_by(&self, bytes: Seq<u8>) -> bool {
        g2_decoding(bytes) is Some ==> g2_decoding(bytes) == Some(self.multiple())
    }

    fn to_bytes(&self) -> (r: Vec<u8>)
        ensures
            r@ == g2_encoding(self.multiple()),
            g2_decoding(r@) is Some ==> g2_decoding(r@) == Some(self.multiple()),
    {
        proof {
            use_type_invariant(self);
        }
        g2_encode(&self.coordinates)
    }
}

/// `Fq12 * Fq12` of ark-ff: the product in the target field.
#[verifier::external_body]
fn fqk_mul(a: &[u8; 576], b: &[u8; 576]) -> (r: [u8; 576])
    requires
        fqk_element(a@) is Some,
        fqk_element(b@) is Some,
    ensures
        fqk_element(r@) == Some(fqk_product(fqk_element(a@)->0, fqk_element(b@)->0)),
{
    let mut r = [0u8; 576];
    let product = Fq12::deserialize(&a[..]).unwrap() * Fq12::deserialize(&b[..]).unwrap();
    product.serialize(&mut r[..]).unwrap();
    r
}

/// `Field::pow` of ark-ff, on `Fq12`: the power in the target field.
#[verifier::external_body]
fn fqk_pow(a: &[u8; 576], exponent: &[u64; 4]) -> (r: [u8; 576])
    requires
        fqk_element(a@) is Some,
    ensures
        fqk_element(r@) == Some(fqk_power(fqk_element(a@)->0, limbs_value(exponent@))),
{
    let mut r = [0u8; 576];
    let power = Fq12::deserialize(&a[..]).unwrap().pow(BigInteger256(*exponent));
    power.serialize(&mut r[..]).unwrap();
    r
}

/// `==` of ark-ff on `Fq12`: the elements are compared.
#[verifier::external_body]
fn fqk_eq(a: &[u8; 576], b: &[u8; 576]) -> (r: bool)
    requires
        fqk_element(a@) is Some,
        fqk_element(b@) is Some,
    ensures
        r == (fqk_element(a@)->0 == fqk_element(b@)->0),
{
    Fq12::deserialize(&a[..]).unwrap() == Fq12::deserialize(&b[..]).unwrap()
}

/// `CanonicalSerialize::serialize` of ark-serialize, on `Fq12`: the bytes depend on the element
/// alone, and `CanonicalDeserialize::deserialize` reads the element back from them.
#[verifier::external_body]
fn fqk_encode(a: &[u8; 576]) -> (r: Vec<u8>)
    requires
        fqk_element(a@) is Some,
    ensures
        r@ == fqk_encoding(fqk_element(a@)->0),
        fqk_decoding(r@) == fqk_element(a@),
{
    let mut r = Vec::new();
    Fq12::deserialize(&a[..]).unwrap().serialize(&mut r).unwrap();
    r
}

/// `CanonicalDeserialize::deserialize` of ark-serialize, on `Fq12`: it fails or gives an element
/// of the target field, as the bytes decide; the element is zero or a power of the generator, with
/// an exponent below the number of units.
#[verifier::external_body]
fn fqk_decode(bytes: &[u8]) -> (r: Result<[u8; 576], SerializationError>)
    ensures
        r is Ok <==> fqk_decoding(bytes@) is Some,
        r matches Ok(x) ==> fqk_element(x@) == fqk_decoding(bytes@) && fqk_reduced(
            fqk_element(x@)->0,
        ),
{
    let mut r = [0u8; 576];
    let element = Fq12::deserialize(bytes)?;
    element.serialize(&mut r[..]).unwrap();
    Ok(r)
}

/// `PairingEngine::pairing` of ark-ec on BLS12-377: it is bilinear, so the pairing of two points
/// is decided by the product of their multiples.
#[verifier::external_body]
fn pairing_raw(p: &[u8; 96], q: &[u8; 192]) -> (r: [u8; 576])
    requires
        g1_multiple(p@) is Some,
        g2_multiple(q@) is Some,
    ensures
        fqk_element(r@) == Some(pairing_value(g1_multiple(p@)->0 * g2_multiple(q@)->0)),
{
    let mut r = [0u8; 576];
    let p = G1Affine::deserialize_unchecked(&p[..]).unwrap();
    let q = G2Affine::deserialize_unchecked(&q[..]).unwrap();
    Bls12_377::pairing(p, q).serialize(&mut r[..]).unwrap();
    r
}

/// `PairingEngine::product_of_pairings` of ark-ec on BLS12-377: the product of the pairings of
/// the pairs, which is the pairing value of the inner product of the multiples.
#[verifier::external_body]
fn product_of_pairings_raw(pairs: &Vec<([u8; 96], [u8; 192])>) -> (r: [u8; 576])
    requires
        forall|i: int| 0 <= i < pairs@.len() ==> g1_multiple((#[trigger] pairs@[i]).0@) is Some,
        forall|i: int| 0 <= i < pairs@.len() ==> g2_multiple((#[trigger] pairs@[i]).1@) is Some,
    ensures
        fqk_element(r@) == Some(
            pairing_value(
                dot(
                    Seq::new(pairs@.len(), |i: int| g1_multiple(pairs@[i].0@)->0),
                    Seq::new(pairs@.len(), |i: int| g2_multiple(pairs@[i].1@)->0),
                ),
            ),
        ),
{
    let mut r = [0u8; 576];
    let prepared = pairs.iter().map(
        |pair|
            (
                G1Affine::deserialize_unchecked(&pair.0[..]).unwrap().into(),
                G2Affine::deserialize_unchecked(&pair.1[..]).unwrap().into(),
            ),
    ).collect::<Vec<_>>();
    Bls12_377::product_of_pairings(prepared.iter()).serialize(&mut r[..]).unwrap();
    r
}

/// An element of the target field, held as its coefficients over the base field.
#[derive(Clone, Copy, Debug, PartialEq, Eq)]
pub struct Fqk {
    coefficients: [u8; 576],
}

impl View for Fqk {
    type V = FqkValue;

    closed spec fn view(&self) -> FqkValue {
        fqk_normal(fqk_element(self.coefficients@)->0)
    }
}

/// The view of an element has a reduced exponent.
pub proof fn lemma_fqk_range(x: Fqk)
    ensures
        fqk_reduced(x@),
{
    lemma_fqk_normal(fqk_element(x.coefficients@)->0);
}

impl Fqk {
    #[verifier::type_invariant]
    spec fn in_field(self) -> bool {
        fqk_element(self.coefficients@) is Some && fqk_reduced(fqk_element(self.coefficients@)->0)
    }

    /// Reads an element from its encoding; coefficients that are not reduced are refused.
    pub fn from_bytes(bytes: &[u8]) -> (r: Result<Fqk, Error>)
        ensures
            r is Ok <==> fqk_decoding(bytes@) is Some,
            r matches Ok(x) ==> x@ == fqk_decoding(bytes@)->0,
            r matches Err(e) ==> e is Serialization,
    {
        match fqk_decode(bytes) {
            Ok(coefficients) => {
                proof {
                    lemma_fqk_normal(fqk_element(coefficients@)->0);
                }
                Ok(Fqk { coefficients })
            },
            Err(error) => Err(Error::from(error)),
        }
    }

    /// The product of two elements.
    pub fn times(&self, other: &Fqk) -> (r: Fqk)
        ensures
            r@ == fqk_product(self@, other@),
    {
        proof {
            use_type_invariant(self);
            use_type_invariant(other);
            lemma_fqk_normal(fqk_element(self.coefficients@)->0);
            lemma_fqk_normal(fqk_element(other.coefficients@)->0);
            lemma_fqk_reduced(self@, other@, 0);
            lemma_fqk_normal(fqk_product(self@, other@));
        }
        Fqk { coefficients: fqk_mul(&self.coefficients, &other.coefficients) }
    }

    /// The element raised to the power that the reduced representative of a scalar is.
    pub fn power(&self, exponent: &Scalar) -> (r: Fqk)
        ensures
            r@ == fqk_power(self@, exponent@),
    {
        let limbs = exponent.to_limbs();
        proof {
            use_type_invariant(self);
            lemma_fqk_normal(fqk_element(self.coefficients@)->0);
            lemma_fqk_reduced(self@, self@, exponent@);
            lemma_fqk_normal(fqk_power(self@, exponent@));
        }
        Fqk { coefficients: fqk_pow(&self.coefficients, &limbs) }
    }

    /// Whether two elements are the same.
    pub fn same(&self, other: &Fqk) -> (r: bool)
        ensures
            r == (self@ == other@),
    {
        proof {
            use_type_invariant(self);
            use_type_invariant(other);
            lemma_fqk_normal(fqk_element(self.coefficients@)->0);
            lemma_fqk_normal(fqk_element(other.coefficients@)->0);
        }
        fqk_eq(&self.coefficients, &other.coefficients)
    }
}

impl Encode for Fqk {
    open spec fn encoding(&self) -> Seq<u8> {
        fqk_encoding(self@)
    }

    open spec fn decoded_by(&self, bytes: Seq<u8>) -> bool {
        fqk_decoding(bytes) == Some(self@)
    }

    fn to_bytes(&self) -> (r: Vec<u8>)
        ensures
            r@ == fqk_encoding(self@),
            fqk_decoding(r@) == Some(self@),
    {
        proof {
            use_type_invariant(self);
            lemma_fqk_normal(fqk_element(self.coefficients@)->0);
        }
        fqk_encode(&self.coefficients)
    }
}

/// The pairing of two points.
pub fn pairing(p: &G1, q: &G2) -> (r: Fqk)
    ensures
        r@ == pairing_value(p.multiple() * q.multiple()),
{
    proof {
        use_type_invariant(p);
        use_type_invariant(q);
        let j = g1_multiple(p.coordinates@)->0;
        let k = g2_multiple(q.coordinates@)->0;
        lemma_mul_reduced_both(j, k);
        lemma_fqk_reduced(FqkValue::Zero, FqkValue::Zero, j * k);
        lemma_fqk_normal(pairing_value(j * k));
    }
    Fqk { coefficients: pairing_raw(&p.coordinates, &q.coordinates) }
}

/// The product of the pairings of corresponding points, as far as the shorter slice goes.
pub fn pairings_product(gs: &[G1], hs: &[G2]) -> (r: Fqk)
    ensures
        r@ == pairing_value(dot(multiples(gs@), multiples(hs@))),
        r@ == pairing_value(
            dot(
                Seq::new(gs@.len(), |i: int| gs@[i].multiple()),
                Seq::new(hs@.len(), |i: int| hs@[i].multiple()),
            ),
        ),
{
    let mut pairs: Vec<([u8; 96], [u8; 192])> = Vec::new();
    let mut i: usize = 0;
    while i < gs.len() && i < hs.len()
        invariant
            i <= gs@.len(),
            i <= hs@.len(),
            pairs@.len() == i,
            forall|j: int| 0 <= j < i ==> g1_multiple((#[trigger] pairs@[j]).0@) is Some,
            forall|j: int| 0 <= j < i ==> g2_multiple((#[trigger] pairs@[j]).1@) is Some,
            forall|j: int|
                0 <= j < i ==> g1_multiple((#[trigger] pairs@[j]).0@)->0 % order()
                    == gs@[j].multiple(),
            forall|j: int|
                0 <= j < i ==> g2_multiple((#[trigger] pairs@[j]).1@)->0 % order()
                    == hs@[j].multiple(),
        decreases gs@.len() - i,
    {
        let g: G1 = gs[i];
        let h: G2 = hs[i];
        proof {
            use_type_invariant(&g);
            use_type_invariant(&h);
        }
        pairs.push((g.coordinates, h.coordinates));
        i = i + 1;
    }
    proof {
        let raw_gs = Seq::new(pairs@.len(), |i: int| g1_multiple(pairs@[i].0@)->0);
        let raw_hs = Seq::new(pairs@.len(), |i: int| g2_multiple(pairs@[i].1@)->0);
        lemma_partial_dot_congruent(raw_gs, multiples(gs@), raw_hs, multiples(hs@), i as int);
        lemma_fqk_reduced(FqkValue::Zero, FqkValue::Zero, dot(raw_gs, raw_hs));
        lemma_fqk_normal(pairing_value(dot(raw_gs, raw_hs)));
    }
    Fqk { coefficients: product_of_pairings_raw(&pairs) }
}

} // verus!

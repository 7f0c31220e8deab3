//! The scalar field of BLS12-377.

use crate::algebra::order;
use ark_bls12_377::Fr;
use ark_ff::{BigInteger256, Field, PrimeField};
use vstd::prelude::*;

verus! {

/// The number that four little-endian limbs of 64 bits stand for.
pub open spec fn limbs_value(limbs: Seq<u64>) -> int {
    limbs[0] + limbs[1] * 0x1_0000_0000_0000_0000int + limbs[2]
        * 0x1_0000_0000_0000_0000_0000_0000_0000_0000int + limbs[3]
        * 0x1_0000_0000_0000_0000_0000_0000_0000_0000_0000_0000_0000_0000int
}

/// The limbs of the order of the field, from the least significant.
const MODULUS_0: u64 = 725501752471715841;

const MODULUS_1: u64 = 6461107452199829505;

const MODULUS_2: u64 = 6968279316240510977;

const MODULUS_3: u64 = 1345280370688173398;

/// An element of the scalar field, held as its least non-negative representative.
#[derive(Clone, Copy, Debug, PartialEq, Eq)]
pub struct Scalar {
    limbs: [u64; 4],
}

impl View for Scalar {
    type V = int;

    /// The representative of the element between zero and the order of the field.
    closed spec fn view(&self) -> int {
        limbs_value(self.limbs@) % order()
    }
}

/// The view of a scalar is a reduced representative.
pub proof fn lemma_scalar_range(s: Scalar)
    ensures
        0 <= s@ < order(),
{
}

/// The views of a sequence of scalars.
pub open spec fn scalar_values(s: Seq<Scalar>) -> Seq<int> {
    Seq::new(s.len(), |i: int| s[i]@)
}

/// The numbers that a sequence of limbs stand for.
pub open spec fn raw_scalar_values(limbs: Seq<[u64; 4]>) -> Seq<int> {
    Seq::new(limbs.len(), |i: int| limbs_value(limbs[i]@))
}

/// `Fr + Fr` of ark-ff adds modulo the order of the field.
#[verifier::external_body]
fn fr_add(a: &[u64; 4], b: &[u64; 4]) -> (r: [u64; 4])
    requires
        limbs_value(a@) < order(),
        limbs_value(b@) < order(),
    ensures
        limbs_value(r@) == (limbs_value(a@) + limbs_value(b@)) % order(),
{
    (Fr::from(BigInteger256(*a)) + Fr::from(BigInteger256(*b))).into_repr().0
}

/// `Fr - Fr` of ark-ff subtracts modulo the order of the field.
#[verifier::external_body]
fn fr_sub(a: &[u64; 4], b: &[u64; 4]) -> (r: [u64; 4])
    requires
        limbs_value(a@) < order(),
        limbs_value(b@) < order(),
    ensures
        limbs_value(r@) == (limbs_value(a@) - limbs_value(b@)) % order(),
{
    (Fr::from(BigInteger256(*a)) - Fr::from(BigInteger256(*b))).into_repr().0
}

/// `Fr * Fr` of ark-ff multiplies modulo the order of the field.
#[verifier::external_body]
fn fr_mul(a: &[u64; 4], b: &[u64; 4]) -> (r: [u64; 4])
    requires
        limbs_value(a@) < order(),
        limbs_value(b@) < order(),
    ensures
        limbs_value(r@) == (limbs_value(a@) * limbs_value(b@)) % order(),
{
    (Fr::from(BigInteger256(*a)) * Fr::from(BigInteger256(*b))).into_repr().0
}

/// `Field::inverse` of ark-ff, on `Fr`: nothing for zero, and for any other element the reduced
/// element whose product with it is one.
#[verifier::external_body]
fn fr_inverse(a: &[u64; 4]) -> (r: Option<[u64; 4]>)
    requires
        limbs_value(a@) < order(),
    ensures
        r is None <==> limbs_value(a@) == 0,
        r matches Some(b) ==> limbs_value(b@) < order() && (limbs_value(a@) * limbs_value(b@))
            % order() == 1,
{
    Fr::from(BigInteger256(*a)).inverse().map(|b| b.into_repr().0)
}

impl Scalar {
    #[verifier::type_invariant]
    spec fn reduced(self) -> bool {
        limbs_value(self.limbs@) < order()
    }

    /// The element with these little-endian limbs, if they are less than the order of the field.
    pub fn from_limbs(limbs: [u64; 4]) -> (r: Option<Scalar>)
        ensures
            r is Some <==> limbs_value(limbs@) < order(),
            r matches Some(s) ==> s@ == limbs_value(limbs@),
    {
        let less: bool = if limbs[3] != MODULUS_3 {
            limbs[3] < MODULUS_3
        } else if limbs[2] != MODULUS_2 {
            limbs[2] < MODULUS_2
        } else if limbs[1] != MODULUS_1 {
            limbs[1] < MODULUS_1
        } else {
            limbs[0] < MODULUS_0
        };
        if less {
            Some(Scalar { limbs })
        } else {
            None
        }
    }

    /// The little-endian limbs of the reduced representative.
    pub fn to_limbs(&self) -> (r: [u64; 4])
        ensures
            limbs_value(r@) == self@,
    {
        proof {
            use_type_invariant(self);
        }
        self.limbs
    }

    /// The image of a machine integer in the field.
    pub fn from_u64(x: u64) -> (r: Scalar)
        ensures
            r@ == x,
    {
        Scalar { limbs: [x, 0, 0, 0] }
    }

    /// The additive identity.
    pub fn zero() -> (r: Scalar)
        ensures
            r@ == 0,
    {
        Scalar::from_u64(0)
    }

    /// The multiplicative identity.
    pub fn one() -> (r: Scalar)
        ensures
            r@ == 1,
    {
        Scalar::from_u64(1)
    }

    /// The sum of two elements.
    pub fn plus(&self, other: &Scalar) -> (r: Scalar)
        ensures
            r@ == (self@ + other@) % order(),
    {
        proof {
            use_type_invariant(self);
            use_type_invariant(other);
        }
        Scalar { limbs: fr_add(&self.limbs, &other.limbs) }
    }

    /// The difference of two elements.
    pub fn minus(&self, other: &Scalar) -> (r: Scalar)
        ensures
            r@ == (self@ - other@) % order(),
    {
        proof {
            use_type_invariant(self);
            use_type_invariant(other);
        }
        Scalar { limbs: fr_sub(&self.limbs, &other.limbs) }
    }

    /// The product of two elements.
    pub fn times(&self, other: &Scalar) -> (r: Scalar)
        ensures
            r@ == (self@ * other@) % order(),
    {
        proof {
            use_type_invariant(self);
            use_type_invariant(other);
        }
        Scalar { limbs: fr_mul(&self.limbs, &other.limbs) }
    }

    /// The element whose product with this one is one; zero has none.
    pub fn inverse(&self) -> (r: Option<Scalar>)
        ensures
            r is None <==> self@ == 0,
            r matches Some(s) ==> (self@ * s@) % order() == 1,
    {
        proof {
            use_type_invariant(self);
        }
        match fr_inverse(&self.limbs) {
            Some(limbs) => Some(Scalar { limbs }),
            None => None,
        }
    }
}

/// The limbs of each of a slice of scalars.
pub(crate) fn scalar_limbs(scalars: &[Scalar]) -> (r: Vec<[u64; 4]>)
    ensures
        r@.len() == scalars@.len(),
        forall|i: int|
            0 <= i < r@.len() ==> limbs_value((#[trigger] r@[i])@) == scalars@[i]@ && limbs_value(
                r@[i]@,
            ) < order(),
{
    let mut limbs: Vec<[u64; 4]> = Vec::new();
    let mut i: usize = 0;
    while i < scalars.len()
        invariant
            i <= scalars@.len(),
            limbs@.len() == i,
            forall|j: int|
                0 <= j < i ==> limbs_value((#[trigger] limbs@[j])@) == scalars@[j]@ && limbs_value(
                    limbs@[j]@,
                ) < order(),
        decreases scalars@.len() - i,
    {
        proof {
            lemma_scalar_range(scalars@[i as int]);
        }
        limbs.push(scalars[i].to_limbs());
        i = i + 1;
    }
    limbs
}

} // verus!

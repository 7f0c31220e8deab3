use ark_bls12_377::{Bls12_377, Fq12, Fr, G1Affine, G2Affine};
use ark_ec::{AffineCurve, PairingEngine, ProjectiveCurve};
use ark_ff::{Field, One, PrimeField, UniformRand, Zero};
use ark_serialize::{CanonicalDeserialize, CanonicalSerialize};
use ark_std::test_rng;
use mipp::{
    compress, compress_field, multiexponentiation, pairing, pairings_product, CurvePoint, Encode,
    Error, Fqk, Scalar, G1, G2,
};

fn bytes<S: CanonicalSerialize>(x: &S) -> Vec<u8> {
    let mut r = Vec::new();
    x.serialize(&mut r).unwrap();
    r
}

fn g1(k: u64) -> G1 {
    let p = G1Affine::prime_subgroup_generator().mul(Fr::from(k)).into_affine();
    G1::from_bytes(&bytes(&p)).unwrap()
}

fn g2(k: u64) -> G2 {
    let p = G2Affine::prime_subgroup_generator().mul(Fr::from(k)).into_affine();
    G2::from_bytes(&bytes(&p)).unwrap()
}

fn scalar(x: Fr) -> Scalar {
    Scalar::from_limbs(x.into_repr().0).unwrap()
}

fn small(xs: &[u64]) -> Vec<Scalar> {
    xs.iter().map(|x| Scalar::from_u64(*x)).collect()
}

#[test]
fn scalars_follow_the_field() {
    let mut rng = test_rng();
    for _ in 0..20 {
        let (a, b) = (Fr::rand(&mut rng), Fr::rand(&mut rng));
        assert_eq!(scalar(a).plus(&scalar(b)), scalar(a + b));
        assert_eq!(scalar(a).minus(&scalar(b)), scalar(a - b));
        assert_eq!(scalar(a).times(&scalar(b)), scalar(a * b));
        assert_eq!(scalar(a).inverse(), a.inverse().map(scalar));
    }
    let three = Scalar::from_u64(3);
    assert_eq!(three.plus(&Scalar::from_u64(4)), Scalar::from_u64(7));
    assert_eq!(Scalar::from_u64(9).minus(&three), Scalar::from_u64(6));
    assert_eq!(three.times(&Scalar::from_u64(5)), Scalar::from_u64(15));
    assert_eq!(three.inverse().unwrap().times(&three), Scalar::one());
    assert_eq!(Scalar::zero().inverse(), None);
    assert_eq!(Scalar::zero().minus(&Scalar::one()), scalar(-Fr::one()));
}

#[test]
fn limbs_are_reduced() {
    let modulus = [
        725501752471715841u64,
        6461107452199829505,
        6968279316240510977,
        1345280370688173398,
    ];
    assert!(Scalar::from_limbs(modulus).is_none());
    let mut largest = modulus;
    largest[0] -= 1;
    assert_eq!(Scalar::from_limbs(largest).unwrap(), scalar(-Fr::one()));
    assert_eq!(Scalar::from_limbs(largest).unwrap().to_limbs(), largest);
    assert!(Scalar::from_limbs([0, 6461107452199829506, 6968279316240510977, 1345280370688173398]).is_none());
    assert!(Scalar::from_limbs([u64::MAX, 0, 6968279316240510977, 1345280370688173398]).is_some());
    assert!(Scalar::from_limbs([0, 0, 6968279316240510978, 1345280370688173398]).is_none());
    assert!(Scalar::from_limbs([0, 0, 0, 1345280370688173399]).is_none());
    assert!(Scalar::from_limbs([u64::MAX, u64::MAX, u64::MAX, 1345280370688173397]).is_some());
}

#[test]
fn points_add_and_scale() {
    assert!(g1(3).plus(&g1(4)).same(&g1(7)));
    assert!(g2(3).plus(&g2(4)).same(&g2(7)));
    assert!(g1(3).plus(&g1(3)).same(&g1(6)));
    assert!(g1(3).times(&Scalar::from_u64(5)).same(&g1(15)));
    assert!(g2(3).times(&Scalar::from_u64(5)).same(&g2(15)));
    assert!(g1(3).times(&Scalar::zero()).same(&g1(0)));
    assert!(g1(0).plus(&g1(2)).same(&g1(2)));
    let minus_one = Scalar::zero().minus(&Scalar::one());
    assert!(g1(1).times(&minus_one).plus(&g1(1)).same(&g1(0)));
    assert!(!g1(1).same(&g1(2)));
    assert!(!g2(1).same(&g2(2)));
}

#[test]
fn vectors_of_points_are_folded() {
    let mut v = vec![g1(1), g1(2), g1(3), g1(4)];
    compress(&mut v, 2, &Scalar::from_u64(5));
    assert_eq!(v.len(), 2);
    assert!(v[0].same(&g1(16)));
    assert!(v[1].same(&g1(22)));
    let mut v = vec![g2(1), g2(2), g2(3)];
    compress(&mut v, 2, &Scalar::from_u64(7));
    assert_eq!(v.len(), 2);
    assert!(v[0].same(&g2(22)));
    assert!(v[1].same(&g2(2)));
    let mut v = vec![g1(1), g1(2), g1(3)];
    compress(&mut v, 1, &Scalar::from_u64(10));
    assert_eq!(v.len(), 1);
    assert!(v[0].same(&g1(21)));
    let mut v = vec![g1(1)];
    compress(&mut v, 0, &Scalar::from_u64(10));
    assert!(v.is_empty());
}

#[test]
fn vectors_of_scalars_are_folded() {
    let mut v = small(&[1, 2, 3, 4]);
    compress_field(&mut v, 2, &Scalar::from_u64(5));
    assert_eq!(v, small(&[16, 22]));
    let mut v = Vec::new();
    compress_field(&mut v, 0, &Scalar::from_u64(5));
    assert!(v.is_empty());
}

#[test]
fn points_and_scalars_multiply_out() {
    let p: G1 = multiexponentiation(&[g1(1), g1(2), g1(3)], &small(&[4, 5, 6])).unwrap();
    assert!(p.same(&g1(32)));
    let q: G2 = multiexponentiation(&[g2(2), g2(3)], &small(&[10, 1])).unwrap();
    assert!(q.same(&g2(23)));
    let none: [G1; 0] = [];
    assert!(multiexponentiation(&none, &[]).unwrap().same(&g1(0)));
    let r: Result<G1, Error> = multiexponentiation(&[g1(1)], &small(&[1, 2]));
    assert!(matches!(r, Err(Error::InvalidIPVectorLength)));
    assert!(G1::multi_scalar_mul(&[g1(1), g1(2)], &small(&[7])).same(&g1(7)));
}

#[test]
fn pairings_multiply_out() {
    let e = pairing(&g1(1), &g2(1));
    let expected = Bls12_377::pairing(
        G1Affine::prime_subgroup_generator(),
        G2Affine::prime_subgroup_generator(),
    );
    assert_eq!(e.to_bytes(), bytes(&expected));
    let product = pairings_product(&[g1(2), g1(3)], &[g2(5), g2(7)]);
    assert!(product.same(&e.power(&Scalar::from_u64(31))));
    assert!(pairings_product(&[g1(2), g1(3)], &[g2(5)]).same(&e.power(&Scalar::from_u64(10))));
    assert!(pairings_product(&[g1(2)], &[g2(5), g2(7)]).same(&e.power(&Scalar::from_u64(10))));
    assert_eq!(pairings_product(&[], &[]).to_bytes(), bytes(&Fq12::one()));
    assert!(pairing(&g1(0), &g2(3)).same(&pairings_product(&[], &[])));
    assert!(pairing(&g1(6), &g2(7)).same(&pairing(&g1(21), &g2(2))));
    assert!(!pairing(&g1(6), &g2(7)).same(&pairing(&g1(6), &g2(8))));
}

#[test]
fn the_target_field_multiplies() {
    let mut rng = test_rng();
    let (x, y) = (Fq12::rand(&mut rng), Fq12::rand(&mut rng));
    let a = Fqk::from_bytes(&bytes(&x)).unwrap();
    let b = Fqk::from_bytes(&bytes(&y)).unwrap();
    assert_eq!(a.times(&b).to_bytes(), bytes(&(x * y)));
    let e = Fr::rand(&mut rng);
    assert_eq!(a.power(&scalar(e)).to_bytes(), bytes(&x.pow(e.into_repr())));
    let zero = Fqk::from_bytes(&bytes(&Fq12::zero())).unwrap();
    assert!(zero.times(&a).same(&zero));
    assert!(zero.power(&Scalar::from_u64(3)).same(&zero));
    assert_eq!(zero.power(&Scalar::zero()).to_bytes(), bytes(&Fq12::one()));
}

#[test]
fn encodings_are_read_back() {
    for k in [0u64, 1, 2, 12345] {
        let p = G1Affine::prime_subgroup_generator().mul(Fr::from(k)).into_affine();
        assert_eq!(g1(k).to_bytes(), bytes(&p));
        assert!(G1::from_bytes(&g1(k).to_bytes()).unwrap().same(&g1(k)));
        assert_eq!(G1Affine::deserialize(&g1(k).to_bytes()[..]).unwrap(), p);
        let q = G2Affine::prime_subgroup_generator().mul(Fr::from(k)).into_affine();
        assert_eq!(g2(k).to_bytes(), bytes(&q));
        assert!(G2::from_bytes(&g2(k).to_bytes()).unwrap().same(&g2(k)));
    }
    let e = pairing(&g1(3), &g2(5));
    assert!(Fqk::from_bytes(&e.to_bytes()).unwrap().same(&e));
}

#[test]
fn what_is_no_element_is_refused() {
    assert!(matches!(G1::from_bytes(&[]), Err(Error::Serialization(_))));
    assert!(matches!(G1::from_bytes(&[0x3f; 48]), Err(Error::Serialization(_))));
    assert!(matches!(G2::from_bytes(&[1, 2, 3]), Err(Error::Serialization(_))));
    assert!(matches!(Fqk::from_bytes(&[0xff; 576]), Err(Error::Serialization(_))));
    assert!(matches!(Fqk::from_bytes(&[0; 575]), Err(Error::Serialization(_))));
}

#[test]
fn multiples_of_a_point_fold_as_scalars_do() {
    let c = Scalar::from_u64(6);
    let mut points = vec![g1(2), g1(4), g1(6), g1(8)];
    let mut scalars = small(&[1, 2, 3, 4]);
    compress(&mut points, 2, &c);
    compress_field(&mut scalars, 2, &c);
    for i in 0..2 {
        assert!(points[i].same(&g1(2).times(&scalars[i])));
    }
}

#[test]
fn surplus_points_are_not_read() {
    let product = pairings_product(&[g1(2), g1(3)], &[g2(5), g2(7)]);
    assert!(pairings_product(&[g1(2), g1(3), g1(9)], &[g2(5), g2(7)]).same(&product));
    assert!(pairings_product(&[g1(2), g1(3)], &[g2(5), g2(7), g2(9)]).same(&product));
    assert!(!pairings_product(&[g1(2)], &[g2(5)]).same(&product));
}

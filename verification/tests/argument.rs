use ark_bls12_377::{Bls12_377, Fr, G1Affine, G1Projective, G2Affine, G2Projective};
use ark_ec::msm::VariableBaseMSM;
use ark_ec::{AffineCurve, PairingEngine, ProjectiveCurve};
use ark_ff::{BigInteger256, Field, One, PrimeField, Zero};
use ark_poly::{DenseMultilinearExtension, MultilinearExtension};
use ark_poly_commit::multilinear_pc::MultilinearPC;
use ark_serialize::CanonicalSerialize;
use ark_std::{test_rng, UniformRand};
use mipp::{
    CommitmentG2, CurvePoint, Encode, Error, Fqk, MippClaim, MippOpening, MippProof, ProofG1, Scalar,
    Transcript, G1, G2,
};

fn bytes<S: CanonicalSerialize>(x: &S) -> Vec<u8> {
    let mut r = Vec::new();
    x.serialize(&mut r).unwrap();
    r
}

fn g1(p: G1Affine) -> G1 {
    G1::from_bytes(&bytes(&p)).unwrap()
}

fn g2(p: G2Affine) -> G2 {
    G2::from_bytes(&bytes(&p)).unwrap()
}

fn fqk(x: <Bls12_377 as PairingEngine>::Fqk) -> Fqk {
    Fqk::from_bytes(&bytes(&x)).unwrap()
}

fn scalar(x: Fr) -> Scalar {
    Scalar::from_limbs(x.into_repr().0).unwrap()
}

fn fr(x: &Scalar) -> Fr {
    Fr::from(BigInteger256(x.to_limbs()))
}

fn scalars(xs: &[Fr]) -> Vec<Scalar> {
    xs.iter().map(|x| scalar(*x)).collect()
}

fn frs(xs: &[Scalar]) -> Vec<Fr> {
    xs.iter().map(fr).collect()
}

/// What was done to a transcript.
#[derive(Clone, Debug, PartialEq)]
enum Done {
    Append(Vec<u8>, Vec<u8>),
    Challenge(Vec<u8>),
}

/// A transcript whose challenges are a function of all that was appended or drawn before.
struct Chained {
    state: Fr,
    done: Vec<Done>,
}

impl Chained {
    fn new() -> Chained {
        Chained { state: Fr::from(7u64), done: Vec::new() }
    }

    fn mix(&mut self, data: &[u8]) {
        let square = self.state * self.state + self.state;
        self.state = square + Fr::from_le_bytes_mod_order(data) + Fr::from(data.len() as u64);
    }
}

impl Transcript for Chained {
    fn domain_sep(&mut self) {
        self.mix(b"mipp");
    }

    fn append<S: Encode>(&mut self, label: &'static [u8], point: &S) {
        let data = point.to_bytes();
        self.mix(label);
        self.mix(&data);
        self.done.push(Done::Append(label.to_vec(), data));
    }

    fn challenge_scalar(&mut self, label: &'static [u8]) -> Scalar {
        self.mix(label);
        self.done.push(Done::Challenge(label.to_vec()));
        scalar(self.state)
    }
}

/// A transcript that plays back its challenges, and zeros after them.
struct Scripted {
    challenges: Vec<Fr>,
    drawn: usize,
}

impl Transcript for Scripted {
    fn domain_sep(&mut self) {}

    fn append<S: Encode>(&mut self, _label: &'static [u8], _point: &S) {}

    fn challenge_scalar(&mut self, _label: &'static [u8]) -> Scalar {
        let c = self.challenges.get(self.drawn).copied().unwrap_or(Fr::zero());
        self.drawn += 1;
        scalar(c)
    }
}

/// The weights of the vertices at a point, the first coordinate most significant.
fn weights(point: &[Fr]) -> Vec<Fr> {
    let mut r = vec![Fr::one()];
    for q in point {
        r = r.iter().flat_map(|w| vec![*w * (Fr::one() - q), *w * q]).collect();
    }
    r
}

struct Instance {
    a: Vec<G1Affine>,
    y: Vec<Fr>,
    h: Vec<G2Affine>,
    point: Vec<Fr>,
    u: G1Affine,
    t: <Bls12_377 as PairingEngine>::Fqk,
}

fn inner_product(a: &[G1Affine], y: &[Fr]) -> G1Affine {
    let mut sum = G1Projective::zero();
    for (p, s) in a.iter().zip(y.iter()) {
        sum += p.mul(*s);
    }
    sum.into_affine()
}

fn pairing_product(a: &[G1Affine], h: &[G2Affine]) -> <Bls12_377 as PairingEngine>::Fqk {
    let mut product = <Bls12_377 as PairingEngine>::Fqk::one();
    for (p, q) in a.iter().zip(h.iter()) {
        product *= Bls12_377::pairing(*p, *q);
    }
    product
}

fn instance(m: usize) -> Instance {
    let mut rng = test_rng();
    let point: Vec<Fr> = (0..m).map(|_| Fr::rand(&mut rng)).collect();
    let a: Vec<G1Affine> = (0..1 << m).map(|_| G1Projective::rand(&mut rng).into_affine()).collect();
    let h: Vec<G2Affine> = (0..1 << m).map(|_| G2Projective::rand(&mut rng).into_affine()).collect();
    let y = weights(&point);
    let u = inner_product(&a, &y);
    let t = pairing_product(&a, &h);
    Instance { a, y, h, point, u, t }
}

fn prove<T: Transcript>(transcript: &mut T, x: &Instance) -> Result<MippOpening, Error> {
    MippProof::prove(
        transcript,
        x.a.iter().map(|p| g1(*p)).collect(),
        scalars(&x.y),
        x.h.iter().map(|p| g2(*p)).collect(),
        &g1(x.u),
        &fqk(x.t),
    )
}

fn commitment(h: &[G2Affine], evaluations: &[Fr]) -> G2Affine {
    let reprs: Vec<_> = evaluations.iter().map(|e| e.into_repr()).collect();
    VariableBaseMSM::multi_scalar_mul(h, &reprs).into_affine()
}

fn finished(opening: MippOpening, h: &[G2Affine]) -> MippProof {
    let nv = opening.point.len();
    let h_product = g2(commitment(h, &frs(&opening.evaluations)));
    opening.finish(&CommitmentG2 { nv, h_product }, ProofG1 { proofs: Vec::new() }).unwrap()
}

fn verify<T: Transcript>(
    transcript: &mut T,
    x: &Instance,
    proof: &MippProof,
) -> Result<MippClaim, Error> {
    MippProof::verify(transcript, proof, scalars(&x.point), &g1(x.u), &fqk(x.t))
}

#[test]
fn test_setup() {
    let mut rng = test_rng();
    let params = MultilinearPC::<Bls12_377>::setup(2, &mut rng);
    // list of evaluation for polynomial
    // 1 + 2*x_1 + x_2 + x_1x_2
    let evals_1 = vec![Fr::from(1u64), Fr::from(4u64), Fr::from(2u64), Fr::from(5u64)];
    let poly_1 = DenseMultilinearExtension::<Fr>::from_evaluations_vec(2, evals_1);

    // list of evaluation for polynomial
    // 1 + x_1 + x_2 + 2*x_1x_2
    let evals_2 = vec![Fr::from(1u64), Fr::from(2u64), Fr::from(2u64), Fr::from(5u64)];
    let poly_2 = DenseMultilinearExtension::<Fr>::from_evaluations_vec(2, evals_2);
    assert_eq!(params.num_vars, 2);
    assert_eq!(poly_1.num_vars, 2);
    assert_eq!(poly_2.num_vars, 2);
}

#[test]
fn honest_arguments_are_accepted() {
    for m in 1..4 {
        let x = instance(m);
        let mut prover = Chained::new();
        let opening = prove(&mut prover, &x).unwrap();
        let evaluations = frs(&opening.evaluations);
        let opened_at = frs(&opening.point);
        let proof = finished(opening, &x.h);

        let mut verifier = Chained::new();
        let claim = verify(&mut verifier, &x, &proof).unwrap();
        assert!(claim.check_u);
        assert!(claim.check_t);
        assert!(claim.accept(true));
        assert!(!claim.accept(false));
        assert_eq!(claim.comm_h.nv, m);
        assert!(claim.comm_h.h_product.same(&g2(commitment(&x.h, &evaluations))));
        assert_eq!(frs(&claim.point), opened_at);
        let polynomial = DenseMultilinearExtension::from_evaluations_vec(m, evaluations);
        assert_eq!(fr(&claim.value), polynomial.evaluate(&opened_at).unwrap());
    }
}

#[test]
fn prover_and_verifier_speak_alike() {
    let x = instance(2);
    let mut prover = Chained::new();
    let opening = prove(&mut prover, &x).unwrap();
    let challenges = frs(&opening.challenges);
    let proof = finished(opening, &x.h);
    let mut verifier = Chained::new();
    let claim = verify(&mut verifier, &x, &proof).unwrap();
    assert_eq!(prover.done, verifier.done);
    assert_eq!(challenges, frs(&claim.challenges));
    assert_eq!(prover.done[0], Done::Append(b"U".to_vec(), bytes(&x.u)));
    let labels: Vec<Vec<u8>> = prover
        .done
        .iter()
        .map(|d| match d {
            Done::Append(label, _) => label.clone(),
            Done::Challenge(label) => label.clone(),
        })
        .collect();
    let round: [&[u8]; 5] = [b"comm_u_l", b"comm_u_r", b"comm_t_l", b"comm_t_r", b"challenge_i"];
    assert_eq!(labels[0], b"U".to_vec());
    assert_eq!(labels[1..6], round.map(|l| l.to_vec()));
    assert_eq!(labels[6..11], round.map(|l| l.to_vec()));
    assert_eq!(labels[11..], [b"random_point".to_vec(), b"random_point".to_vec()]);
}

#[test]
fn rounds_say_the_cross_products() {
    let x = instance(1);
    let script = vec![Fr::from(5u64), Fr::from(11u64)];
    let opening = prove(&mut Scripted { challenges: script, drawn: 0 }, &x).unwrap();
    assert_eq!(opening.comms_u.len(), 1);
    assert_eq!(opening.comms_t.len(), 1);
    assert!(opening.comms_u[0].0.same(&g1(x.a[0].mul(x.y[1]).into_affine())));
    assert!(opening.comms_u[0].1.same(&g1(x.a[1].mul(x.y[0]).into_affine())));
    assert!(opening.comms_t[0].0.same(&fqk(Bls12_377::pairing(x.a[0], x.h[1]))));
    assert!(opening.comms_t[0].1.same(&fqk(Bls12_377::pairing(x.a[1], x.h[0]))));
    let c_inv = Fr::from(5u64);
    let c = c_inv.inverse().unwrap();
    let a = x.a[0].into_projective() + x.a[1].mul(c);
    let h = x.h[0].into_projective() + x.h[1].mul(c_inv);
    assert!(opening.final_a.same(&g1(a.into_affine())));
    assert!(opening.final_h.same(&g2(h.into_affine())));
    assert_eq!(fr(&opening.final_y), x.y[0] + x.y[1] * c_inv);
    assert_eq!(frs(&opening.challenges), vec![c_inv]);
    assert_eq!(frs(&opening.evaluations), vec![Fr::one(), c_inv]);
    assert_eq!(frs(&opening.point), vec![Fr::from(11u64)]);
}

#[test]
fn keys_fold_to_the_commitment() {
    let x = instance(3);
    let opening = prove(&mut Chained::new(), &x).unwrap();
    let c = commitment(&x.h, &frs(&opening.evaluations));
    assert!(opening.final_h.same(&g2(c)));
}

#[test]
fn scalars_fold_to_lines() {
    let x = instance(3);
    let opening = prove(&mut Chained::new(), &x).unwrap();
    let mut lines = Fr::one();
    for (c, q) in frs(&opening.challenges).iter().zip(x.point.iter()) {
        lines *= Fr::one() + *c * q - q;
    }
    assert_eq!(fr(&opening.final_y), lines);
    let final_y = fr(&opening.final_y);
    let proof = finished(opening, &x.h);
    let claim = verify(&mut Chained::new(), &x, &proof).unwrap();
    assert_eq!(fr(&claim.final_y), final_y);
}

#[test]
fn a_false_inner_product_is_refused() {
    let mut x = instance(2);
    x.u = (x.u.into_projective() + x.a[0].into_projective()).into_affine();
    let opening = prove(&mut Chained::new(), &x).unwrap();
    let proof = finished(opening, &x.h);
    let claim = verify(&mut Chained::new(), &x, &proof).unwrap();
    assert!(!claim.check_u);
    assert!(claim.check_t);
    assert!(!claim.accept(true));
}

#[test]
fn a_false_pairing_product_is_refused() {
    let mut x = instance(2);
    x.t = x.t * Bls12_377::pairing(x.a[0], x.h[0]);
    let opening = prove(&mut Chained::new(), &x).unwrap();
    let proof = finished(opening, &x.h);
    let claim = verify(&mut Chained::new(), &x, &proof).unwrap();
    assert!(claim.check_u);
    assert!(!claim.check_t);
    assert!(!claim.accept(true));
    x.t = <Bls12_377 as PairingEngine>::Fqk::zero();
    let claim = verify(&mut Chained::new(), &x, &proof).unwrap();
    assert!(!claim.check_t);
}

#[test]
fn missing_and_surplus_keys_count_for_nothing() {
    for n in [2usize, 3, 6] {
        let mut x = instance(2);
        let mut rng = test_rng();
        x.h.truncate(n);
        while x.h.len() < n {
            x.h.push(G2Projective::rand(&mut rng).into_affine());
        }
        x.t = pairing_product(&x.a, &x.h);
        let opening = prove(&mut Chained::new(), &x).unwrap();
        let k = if n < 4 { n } else { 4 };
        let c = commitment(&x.h[..k], &frs(&opening.evaluations)[..k]);
        assert!(opening.final_h.same(&g2(c)));
        let proof = finished(opening, &x.h[..k]);
        let claim = verify(&mut Chained::new(), &x, &proof).unwrap();
        assert!(claim.accept(true));
    }
}

#[test]
fn lengths_that_do_not_halve_are_refused() {
    let mut x = instance(2);
    x.a.pop();
    x.y.pop();
    assert!(matches!(prove(&mut Chained::new(), &x), Err(Error::InvalidIPVectorLength)));
    let mut x = instance(2);
    x.y.push(Fr::one());
    assert!(matches!(prove(&mut Chained::new(), &x), Err(Error::InvalidIPVectorLength)));
    let mut x = instance(3);
    x.a.truncate(6);
    x.y.truncate(6);
    let mut transcript = Chained::new();
    assert!(matches!(prove(&mut transcript, &x), Err(Error::InvalidIPVectorLength)));
    assert_eq!(transcript.done.len(), 6);
}

#[test]
fn a_challenge_of_zero_ends_the_argument() {
    let x = instance(2);
    let mut transcript = Scripted { challenges: vec![Fr::from(3u64)], drawn: 0 };
    assert!(matches!(prove(&mut transcript, &x), Err(Error::ZeroChallenge)));
    assert_eq!(transcript.drawn, 2);
    let proof = finished(prove(&mut Chained::new(), &x).unwrap(), &x.h);
    let mut transcript = Scripted { challenges: vec![], drawn: 0 };
    assert!(matches!(verify(&mut transcript, &x, &proof), Err(Error::ZeroChallenge)));
    assert_eq!(transcript.drawn, 1);
}

#[test]
fn another_commitment_does_not_finish_the_argument() {
    let x = instance(1);
    let opening = prove(&mut Chained::new(), &x).unwrap();
    let wrong = CommitmentG2 { nv: 1, h_product: g2(x.h[0]) };
    assert!(opening.finish(&wrong, ProofG1 { proofs: Vec::new() }).is_none());
    let opening = prove(&mut Chained::new(), &x).unwrap();
    let right = CommitmentG2 { nv: 1, h_product: opening.final_h };
    let final_a = opening.final_a;
    let proof = opening.finish(&right, ProofG1 { proofs: vec![g1(x.u)] }).unwrap();
    assert!(proof.final_a.same(&final_a));
    assert!(proof.final_h.same(&right.h_product));
    assert!(proof.pst_proof_h.proofs[0].same(&g1(x.u)));
}

#[test]
fn evaluations_multiply_the_challenges_of_the_digits() {
    let cs = scalars(&[Fr::from(2u64), Fr::from(3u64), Fr::from(5u64)]);
    let evals = MippProof::polynomial_evaluations_from_transcript(&cs);
    let expected: Vec<Fr> = [1u64, 5, 3, 15, 2, 10, 6, 30].iter().map(|x| Fr::from(*x)).collect();
    assert_eq!(frs(&evals), expected);
    assert_eq!(frs(&MippProof::polynomial_evaluations_from_transcript(&[])), vec![Fr::one()]);
}

#[test]
fn the_value_is_that_of_the_polynomial() {
    let x = instance(2);
    let proof = finished(prove(&mut Chained::new(), &x).unwrap(), &x.h);
    let script = vec![Fr::from(2u64), Fr::from(3u64), Fr::from(7u64), Fr::from(11u64)];
    let claim = verify(&mut Scripted { challenges: script, drawn: 0 }, &x, &proof).unwrap();
    // (1 + 7 * 3 - 7) * (1 + 11 * 2 - 11)
    assert_eq!(fr(&claim.value), Fr::from(180u64));
    let evals = vec![Fr::from(1u64), Fr::from(3u64), Fr::from(2u64), Fr::from(6u64)];
    let polynomial = DenseMultilinearExtension::from_evaluations_vec(2, evals);
    assert_eq!(polynomial.evaluate(&[Fr::from(7u64), Fr::from(11u64)]).unwrap(), Fr::from(180u64));
}

#[test]
fn one_more_challenge_doubles_the_evaluations() {
    let few = MippProof::polynomial_evaluations_from_transcript(&scalars(&[Fr::from(3u64), Fr::from(5u64)]));
    let cs = scalars(&[Fr::from(2u64), Fr::from(3u64), Fr::from(5u64)]);
    let many = frs(&MippProof::polynomial_evaluations_from_transcript(&cs));
    assert_eq!(many[..4], frs(&few)[..]);
    let doubled: Vec<Fr> = frs(&few).iter().map(|e| *e * Fr::from(2u64)).collect();
    assert_eq!(many[4..], doubled[..]);
}

#[test]
fn one_round_keeps_the_products() {
    let x = instance(1);
    let c_inv = Fr::from(9u64);
    let script = vec![c_inv, Fr::one()];
    let opening = prove(&mut Scripted { challenges: script, drawn: 0 }, &x).unwrap();
    let c = scalar(c_inv.inverse().unwrap());
    let (u_l, u_r) = opening.comms_u[0];
    let u = g1(x.u).plus(&u_l.times(&scalar(c_inv))).plus(&u_r.times(&c));
    assert!(u.same(&opening.final_a.times(&opening.final_y)));
    let (t_l, t_r) = opening.comms_t[0];
    let t = fqk(x.t).times(&t_l.power(&scalar(c_inv)).times(&t_r.power(&c)));
    assert!(t.same(&mipp::pairing(&opening.final_a, &opening.final_h)));
}

#[test]
fn only_one_claim_is_accepted() {
    let mut x = instance(1);
    let script = || Scripted { challenges: vec![Fr::from(9u64), Fr::one()], drawn: 0 };
    let proof = finished(prove(&mut script(), &x).unwrap(), &x.h);
    assert!(verify(&mut script(), &x, &proof).unwrap().accept(true));
    let (u, t) = (x.u, x.t);
    for k in 1..4u64 {
        x.u = (u.into_projective() + x.a[1].mul(Fr::from(k))).into_affine();
        x.t = t * Bls12_377::pairing(x.a[1], x.h[0]).pow([k]);
        let claim = verify(&mut script(), &x, &proof).unwrap();
        assert!(!claim.check_u);
        assert!(!claim.check_t);
    }
}

#[test]
fn the_claimed_pairing_product_does_not_enter_the_proof() {
    let mut x = instance(2);
    let mut first = Chained::new();
    let o = prove(&mut first, &x).unwrap();
    x.t = <Bls12_377 as PairingEngine>::Fqk::one();
    let mut second = Chained::new();
    let p = prove(&mut second, &x).unwrap();
    assert_eq!(first.done, second.done);
    assert_eq!(frs(&o.challenges), frs(&p.challenges));
    assert_eq!(frs(&o.evaluations), frs(&p.evaluations));
    assert_eq!(frs(&o.point), frs(&p.point));
    assert_eq!(fr(&o.final_y), fr(&p.final_y));
    assert!(o.final_a.same(&p.final_a));
    assert!(o.final_h.same(&p.final_h));
    x.y.push(Fr::one());
    let refused = prove(&mut Chained::new(), &x);
    x.t = <Bls12_377 as PairingEngine>::Fqk::zero();
    assert!(matches!(refused, Err(Error::InvalidIPVectorLength)));
    assert!(matches!(prove(&mut Chained::new(), &x), Err(Error::InvalidIPVectorLength)));
}

#[test]
fn surplus_messages_are_not_read() {
    let x = instance(2);
    let proof = finished(prove(&mut Chained::new(), &x).unwrap(), &x.h);
    let mut longer = proof.clone();
    longer.comms_t.push((fqk(x.t), proof.comms_t[0].1));
    let (mut first, mut second) = (Chained::new(), Chained::new());
    let c = verify(&mut first, &x, &proof).unwrap();
    let d = verify(&mut second, &x, &longer).unwrap();
    assert_eq!(first.done, second.done);
    assert_eq!(frs(&c.challenges), frs(&d.challenges));
    assert_eq!(frs(&c.point), frs(&d.point));
    assert_eq!(fr(&c.value), fr(&d.value));
    assert_eq!(fr(&c.final_y), fr(&d.final_y));
    assert!(c.accept(true) && d.accept(true));
    let mut zeros = Scripted { challenges: vec![], drawn: 0 };
    assert!(matches!(verify(&mut zeros, &x, &longer), Err(Error::ZeroChallenge)));
}

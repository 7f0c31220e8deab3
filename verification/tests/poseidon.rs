use ark_bls12_377::Fr;
use ark_ff::PrimeField;
use ark_sponge::poseidon::{PoseidonParameters as ArkParameters, PoseidonSponge};
use ark_sponge::CryptographicSponge;
use ark_std::{test_rng, UniformRand};
use mipp::{AppendToPoseidon, CompressedGroup, PoseidonParameters, PoseidonTranscript, Scalar};

const FULL: u32 = 8;
const PARTIAL: u32 = 29;
const ALPHA: u64 = 17;

fn constants() -> (Vec<Vec<Fr>>, Vec<Vec<Fr>>) {
    let mut rng = test_rng();
    let mds = (0..3).map(|_| (0..3).map(|_| Fr::rand(&mut rng)).collect()).collect();
    let ark = (0..FULL + PARTIAL).map(|_| (0..3).map(|_| Fr::rand(&mut rng)).collect()).collect();
    (mds, ark)
}

fn scalar(x: Fr) -> Scalar {
    Scalar::from_limbs(x.into_repr().0).unwrap()
}

fn matrix(m: &[Vec<Fr>]) -> Vec<Vec<Scalar>> {
    m.iter().map(|row| row.iter().map(|x| scalar(*x)).collect()).collect()
}

fn parameters() -> PoseidonParameters {
    let (mds, ark) = constants();
    PoseidonParameters::new(FULL, PARTIAL, ALPHA, matrix(&mds), matrix(&ark)).unwrap()
}

fn sponge() -> PoseidonSponge<Fr> {
    let (mds, ark) = constants();
    PoseidonSponge::new(&ArkParameters::new(FULL, PARTIAL, ALPHA, mds, ark))
}

fn squeeze(s: &mut PoseidonSponge<Fr>, n: usize) -> Vec<Scalar> {
    let elements: Vec<Fr> = s.squeeze_field_elements(n);
    elements.into_iter().map(scalar).collect()
}

#[test]
fn transcripts_follow_the_sponge() {
    let mut t = PoseidonTranscript::new(&parameters());
    let mut s = sponge();
    t.append_u64(42);
    s.absorb(&42u64);
    assert_eq!(t.challenge_scalar(), squeeze(&mut s, 1)[0]);
    t.append_bytes(&b"some bytes that do not fit into one field element".to_vec());
    s.absorb(&b"some bytes that do not fit into one field element".to_vec());
    assert_eq!(t.challenge_vector(5), squeeze(&mut s, 5));
    let x = Fr::from(99u64) + Fr::from(99u64);
    t.append_scalar(&scalar(x));
    s.absorb(&x);
    t.append_point(&CompressedGroup(vec![1, 2, 3]));
    s.absorb(&vec![1u8, 2, 3]);
    assert_eq!(t.challenge_scalar(), squeeze(&mut s, 1)[0]);
    t.append_scalar_vector(&vec![scalar(x), Scalar::from_u64(1), Scalar::from_u64(2)]);
    for e in [x, Fr::from(1u64), Fr::from(2u64)] {
        s.absorb(&e);
    }
    assert_eq!(t.challenge_vector(2), squeeze(&mut s, 2));
    assert_eq!(t.challenge_vector(0), vec![]);
}

#[test]
fn a_transcript_starts_over_from_a_challenge() {
    let mut t = PoseidonTranscript::new(&parameters());
    t.append_u64(1);
    let _ = t.challenge_scalar();
    t.new_from_state(&Scalar::from_u64(5));
    let mut fresh = PoseidonTranscript::new(&parameters());
    fresh.append_scalar(&Scalar::from_u64(5));
    assert_eq!(t.challenge_vector(3), fresh.challenge_vector(3));
}

#[test]
fn the_same_history_gives_the_same_challenges() {
    let mut t = PoseidonTranscript::new(&parameters());
    t.append_u64(7);
    let mut copy = t.clone();
    assert_eq!(t.challenge_vector(4), copy.challenge_vector(4));
    let mut other = PoseidonTranscript::new(&parameters());
    other.append_u64(8);
    assert_ne!(other.challenge_scalar(), copy.challenge_scalar());
}

#[test]
fn a_number_is_appended_as_a_scalar() {
    let mut t = PoseidonTranscript::new(&parameters());
    let mut u = PoseidonTranscript::new(&parameters());
    t.append_u64(u64::MAX);
    u.append_scalar(&Scalar::from_u64(u64::MAX));
    assert_eq!(t.challenge_scalar(), u.challenge_scalar());
}

#[test]
fn scalars_append_in_two_goes() {
    let all: Vec<Scalar> = (0..5).map(Scalar::from_u64).collect();
    let mut t = PoseidonTranscript::new(&parameters());
    let mut u = PoseidonTranscript::new(&parameters());
    t.append_scalar_vector(&all);
    u.append_scalar_vector(&all[..2].to_vec());
    u.append_scalar_vector(&all[2..].to_vec());
    assert_eq!(t.challenge_scalar(), u.challenge_scalar());
}

#[test]
fn bytes_are_packed_behind_their_number() {
    let mut t = PoseidonTranscript::new(&parameters());
    t.append_bytes(&vec![5, 6]);
    let mut u = PoseidonTranscript::new(&parameters());
    // 2 + 5 * 256^8 + 6 * 256^9
    u.append_scalar(&Scalar::from_limbs([2, 5 + 6 * 256, 0, 0]).unwrap());
    assert_eq!(t.challenge_scalar(), u.challenge_scalar());

    let mut t = PoseidonTranscript::new(&parameters());
    let mut bytes = vec![0u8; 24];
    bytes[22] = 3;
    bytes[23] = 9;
    t.append_bytes(&bytes);
    let mut u = PoseidonTranscript::new(&parameters());
    u.append_scalar_vector(&vec![
        Scalar::from_limbs([24, 0, 0, 3 << 48]).unwrap(),
        Scalar::from_u64(9),
    ]);
    assert_eq!(t.challenge_scalar(), u.challenge_scalar());
}

#[test]
fn bytes_are_told_apart() {
    let strings: Vec<Vec<u8>> = vec![vec![], vec![0], vec![0, 0], vec![1], vec![0; 23], vec![0; 24]];
    let mut challenges: Vec<Scalar> = Vec::new();
    for s in strings {
        let mut t = PoseidonTranscript::new(&parameters());
        t.append_bytes(&s);
        let c = t.challenge_scalar();
        assert!(!challenges.contains(&c));
        challenges.push(c);
    }
}

#[test]
fn a_compressed_point_appends_itself() {
    let point = CompressedGroup(vec![9; 48]);
    let mut t = PoseidonTranscript::new(&parameters());
    point.append_to_poseidon(&mut t);
    let mut u = PoseidonTranscript::new(&parameters());
    u.append_bytes(&vec![9; 48]);
    assert_eq!(t.challenge_scalar(), u.challenge_scalar());
}

#[test]
fn round_keys_of_another_shape_are_refused() {
    let row = || vec![Scalar::one(), Scalar::one(), Scalar::one()];
    let square = || vec![row(), row(), row()];
    assert!(PoseidonParameters::new(1, 1, 5, square(), vec![row(), row()]).is_some());
    assert!(PoseidonParameters::new(1, 1, 5, square(), vec![row()]).is_none());
    assert!(PoseidonParameters::new(1, 0, 5, square(), vec![vec![Scalar::one()]]).is_none());
    assert!(PoseidonParameters::new(u32::MAX, 1, 5, square(), vec![]).is_none());
}

#[test]
fn the_matrix_may_have_any_shape() {
    let row = || vec![Scalar::one(), Scalar::one(), Scalar::one()];
    assert!(PoseidonParameters::new(1, 0, 5, vec![row(), row()], vec![row()]).is_some());
    let thin = vec![row(), row(), vec![Scalar::one()]];
    assert!(PoseidonParameters::new(1, 0, 5, thin, vec![row()]).is_some());
    assert!(PoseidonParameters::new(0, 0, 5, vec![], vec![]).is_some());
}

#[test]
fn without_rounds_no_matrix_is_read() {
    let mut t = PoseidonTranscript::new(&PoseidonParameters::new(0, 0, 5, vec![], vec![]).unwrap());
    let mut s = PoseidonSponge::<Fr>::new(&ArkParameters::new(0, 0, 5, vec![], vec![]));
    for x in [3u64, 4, 5] {
        t.append_u64(x);
        s.absorb(&x);
    }
    assert_eq!(t.challenge_vector(3), squeeze(&mut s, 3));
    // The third number is added to the first.
    t.new_from_state(&Scalar::from_u64(3));
    t.append_u64(4);
    t.append_u64(5);
    assert_eq!(t.challenge_vector(2), vec![Scalar::from_u64(8), Scalar::from_u64(4)]);
}

#[test]
fn two_elements_are_taken_in_without_a_permutation() {
    let row = || vec![Scalar::one(), Scalar::one(), Scalar::one()];
    let params = PoseidonParameters::new(1, 0, 5, vec![], vec![row()]).unwrap();
    let mut t = PoseidonTranscript::new(&params);
    t.append_u64(1);
    t.append_bytes(&vec![2, 3]);
    t.append_scalar_vector(&vec![]);
    t.new_from_state(&Scalar::from_u64(4));
    t.append_point(&CompressedGroup(vec![5]));
}

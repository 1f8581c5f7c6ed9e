//! The schemes over the scalars and the points of secp256k1.

use k256::elliptic_curve::ff::{Field, PrimeField};
use k256::elliptic_curve::group::{Group, GroupEncoding};
use k256::{CompressedPoint, FieldBytes, ProjectivePoint, Scalar};
use rand_chacha::ChaCha20Rng;
use vsss_rs::{
    Element, Error, Feldman, FieldElement, GroupElement, Pedersen, PedersenResult, Shamir, Share,
};

#[derive(Clone, Copy, Debug, PartialEq, Eq)]
struct Fq(Scalar);

#[derive(Clone, Copy, Debug, PartialEq, Eq)]
struct Gp(ProjectivePoint);

impl Element for Fq {
    fn element_laws() {}

    fn encoded_len() -> usize {
        32
    }

    fn to_bytes(self) -> Vec<u8> {
        self.0.to_repr().to_vec()
    }

    fn from_bytes(bytes: &[u8]) -> Option<Self> {
        if bytes.len() != 32 {
            return None;
        }
        let found: Option<Scalar> = Scalar::from_repr(FieldBytes::clone_from_slice(bytes)).into();
        found.map(Fq)
    }
}

impl FieldElement for Fq {
    fn zero() -> Self {
        Fq(Scalar::ZERO)
    }

    fn one() -> Self {
        Fq(Scalar::ONE)
    }

    fn from_u64(x: u64) -> Self {
        Fq(Scalar::from(x))
    }

    fn plus(self, rhs: Self) -> Self {
        Fq(self.0 + rhs.0)
    }

    fn minus(self, rhs: Self) -> Self {
        Fq(self.0 - rhs.0)
    }

    fn times(self, rhs: Self) -> Self {
        Fq(self.0 * rhs.0)
    }

    fn negated(self) -> Self {
        Fq(-self.0)
    }

    fn inverted(self) -> Option<Self> {
        let found: Option<Scalar> = self.0.invert().into();
        found.map(Fq)
    }

    fn random(rng: &mut ChaCha20Rng) -> Self {
        Fq(<Scalar as Field>::random(rng))
    }
}

impl Element for Gp {
    fn element_laws() {}

    fn encoded_len() -> usize {
        33
    }

    fn to_bytes(self) -> Vec<u8> {
        GroupEncoding::to_bytes(&self.0).to_vec()
    }

    fn from_bytes(bytes: &[u8]) -> Option<Self> {
        if bytes.len() != 33 {
            return None;
        }
        let repr = CompressedPoint::clone_from_slice(bytes);
        let found: Option<ProjectivePoint> = ProjectivePoint::from_bytes(&repr).into();
        // the curve reads more than one encoding of a point: only the one
        // that it writes is taken
        found.filter(|g| GroupEncoding::to_bytes(g) == repr).map(Gp)
    }
}

impl GroupElement<Fq> for Gp {
    fn scalars_match() {}

    fn identity() -> Self {
        Gp(ProjectivePoint::IDENTITY)
    }

    fn generator() -> Self {
        Gp(ProjectivePoint::GENERATOR)
    }

    fn plus(self, rhs: Self) -> Self {
        Gp(self.0 + rhs.0)
    }

    fn negated(self) -> Self {
        Gp(-self.0)
    }

    fn scaled(self, s: Fq) -> Self {
        Gp(self.0 * s.0)
    }

    fn is_identity(self) -> bool {
        bool::from(Group::is_identity(&self.0))
    }
}

fn scalar(x: u64) -> Fq {
    Fq(Scalar::from(x))
}

fn pick<const S: usize>(shares: &[Share<S>], places: &[usize]) -> Vec<Share<S>> {
    places.iter().map(|&i| shares[i].clone()).collect()
}

fn with_last_byte_flipped(share: &Share<32>) -> Share<32> {
    let mut value = share.value().to_vec();
    value[31] = !value[31];
    Share::<32>::new(share.identifier(), &value).unwrap()
}

#[test]
fn two_of_three_recover_the_secret() {
    let shares = Shamir::<2, 3>::split_secret::<Fq, 32>(scalar(3), &[0u8; 32]).unwrap();
    assert_eq!(shares.len(), 3);
    for i in 0..3 {
        assert_eq!(shares[i].identifier(), i as u8 + 1);
        for j in 0..3 {
            if i != j {
                let subset = pick(&shares, &[i, j]);
                assert_eq!(Shamir::<2, 3>::combine_shares::<Fq, 32>(&subset), Ok(scalar(3)));
            }
        }
        let alone = pick(&shares, &[i]);
        assert_eq!(
            Shamir::<2, 3>::combine_shares::<Fq, 32>(&alone),
            Err(Error::SharingMinThreshold)
        );
    }
    assert_eq!(Shamir::<2, 3>::combine_shares::<Fq, 32>(&shares), Ok(scalar(3)));
}

#[test]
fn every_three_of_five_recover_the_secret() {
    let shares = Shamir::<3, 5>::split_secret::<Fq, 32>(scalar(7), &[0u8; 32]).unwrap();
    let mut subsets = 0;
    for i in 0..5 {
        for j in (i + 1)..5 {
            for k in (j + 1)..5 {
                let subset = pick(&shares, &[i, j, k]);
                assert_eq!(Shamir::<3, 5>::combine_shares::<Fq, 32>(&subset), Ok(scalar(7)));
                let turned = pick(&shares, &[k, i, j]);
                assert_eq!(Shamir::<3, 5>::combine_shares::<Fq, 32>(&turned), Ok(scalar(7)));
                subsets += 1;
            }
        }
    }
    assert_eq!(subsets, 10);
}

#[test]
fn two_of_five_do_not_give_the_secret_of_a_threshold_of_three() {
    let shares = Shamir::<3, 5>::split_secret::<Fq, 32>(scalar(7), &[0u8; 32]).unwrap();
    let two = pick(&shares, &[0, 1]);
    assert_eq!(Shamir::<3, 5>::combine_shares::<Fq, 32>(&two), Err(Error::SharingMinThreshold));
    // read as shares of a threshold of two they combine, to something else
    assert_ne!(Shamir::<2, 5>::combine_shares::<Fq, 32>(&two), Ok(scalar(7)));
}

#[test]
fn a_tampered_share_fails_the_check_and_spoils_the_secret() {
    let (shares, verifier) =
        Feldman::<3, 5>::split_secret::<Fq, Gp, 32>(scalar(7), None, &[0u8; 32]).unwrap();
    let tampered = with_last_byte_flipped(&shares[1]);
    assert!(!verifier.verify(&tampered));
    for k in [0usize, 2, 3, 4] {
        assert!(verifier.verify(&shares[k]));
    }
    assert!(verifier.verify(&shares[1]));
    let spoiled = vec![shares[0].clone(), tampered, shares[2].clone()];
    let combined = Feldman::<3, 5>::combine_shares::<Fq, 32>(&spoiled).unwrap();
    assert_ne!(combined, scalar(7));
    assert_eq!(Feldman::<3, 5>::combine_shares::<Fq, 32>(&shares), Ok(scalar(7)));
}

#[test]
fn changing_any_byte_of_a_value_fails_the_checks() {
    let r = Pedersen::<2, 3>::split_secret::<Fq, Gp, 32>(scalar(9), None, None, None, &[4u8; 32])
        .unwrap();
    let v = r.pedersen_verifier();
    let secret = &r.secret_shares()[0];
    let blind = &r.blind_shares()[0];
    assert!(v.verify(secret, blind));
    assert!(v.feldman_verifier().verify(secret));
    for place in 0..32 {
        let mut value = secret.value().to_vec();
        value[place] ^= 0x01;
        let changed = Share::<32>::new(secret.identifier(), &value).unwrap();
        assert!(!v.feldman_verifier().verify(&changed));
        assert!(!v.verify(&changed, blind));
        let mut value = blind.value().to_vec();
        value[place] ^= 0x80;
        let changed = Share::<32>::new(blind.identifier(), &value).unwrap();
        assert!(!v.verify(secret, &changed));
    }
}

#[test]
fn pedersen_with_a_supplied_blinding_factor() {
    let r = Pedersen::<3, 5>::split_secret::<Fq, Gp, 32>(
        scalar(5),
        Some(scalar(11)),
        None,
        None,
        &[0u8; 32],
    )
    .unwrap();
    assert_eq!(r.blinding(), scalar(11));
    let v = r.pedersen_verifier();
    for k in 0..5 {
        assert_eq!(r.secret_shares()[k].identifier(), k as u8 + 1);
        assert_eq!(r.blind_shares()[k].identifier(), k as u8 + 1);
        assert!(v.verify(&r.secret_shares()[k], &r.blind_shares()[k]));
        assert!(v.feldman_verifier().verify(&r.secret_shares()[k]));
    }
    assert_eq!(Pedersen::<3, 5>::combine_shares::<Fq, 32>(r.secret_shares()), Ok(scalar(5)));
    assert_eq!(Pedersen::<3, 5>::combine_shares::<Fq, 32>(r.blind_shares()), Ok(scalar(11)));
}

#[test]
fn pedersen_commits_to_the_secret_and_the_blinding_factor() {
    let r = Pedersen::<3, 5>::split_secret::<Fq, Gp, 32>(
        scalar(5),
        Some(scalar(11)),
        None,
        None,
        &[7u8; 32],
    )
    .unwrap();
    let v = r.pedersen_verifier();
    let g = ProjectivePoint::GENERATOR;
    let h = v.generator().0;
    assert_eq!(v.feldman_verifier().generator(), Gp(g));
    assert_ne!(h, g);
    assert!(!bool::from(Group::is_identity(&h)));
    assert_eq!(v.feldman_verifier().commitments()[0], Gp(g * Scalar::from(5u64)));
    assert_eq!(v.commitments()[0], Gp(g * Scalar::from(5u64) + h * Scalar::from(11u64)));
    assert_eq!(v.commitments().len(), 3);
    assert_eq!(v.feldman_verifier().commitments().len(), 3);
}

#[test]
fn pedersen_draws_the_blinding_factor_where_none_is_supplied() {
    let r = Pedersen::<2, 3>::split_secret::<Fq, Gp, 32>(scalar(5), None, None, None, &[8u8; 32])
        .unwrap();
    let again =
        Pedersen::<2, 3>::split_secret::<Fq, Gp, 32>(scalar(5), None, None, None, &[8u8; 32])
            .unwrap();
    let other =
        Pedersen::<2, 3>::split_secret::<Fq, Gp, 32>(scalar(5), None, None, None, &[9u8; 32])
            .unwrap();
    assert_eq!(r.blinding(), again.blinding());
    assert_eq!(r.to_bytes(), again.to_bytes());
    assert_ne!(r.blinding(), other.blinding());
    assert_eq!(Pedersen::<2, 3>::combine_shares::<Fq, 32>(r.blind_shares()), Ok(r.blinding()));
}

#[test]
fn two_shares_under_one_identifier_are_reported() {
    let shares = Shamir::<3, 5>::split_secret::<Fq, 32>(scalar(7), &[0u8; 32]).unwrap();
    let twice = Share::<32>::new(shares[0].identifier(), shares[1].value()).unwrap();
    let set = vec![shares[0].clone(), twice, shares[2].clone()];
    assert_eq!(Shamir::<3, 5>::combine_shares::<Fq, 32>(&set), Err(Error::DuplicateShare));
    let set = vec![shares[0].clone(), shares[1].clone(), shares[0].clone()];
    assert_eq!(Shamir::<3, 5>::combine_shares::<Fq, 32>(&set), Err(Error::DuplicateShare));
    assert_eq!(Pedersen::<3, 5>::combine_shares::<Fq, 32>(&set), Err(Error::DuplicateShare));
}

#[test]
fn a_result_read_back_from_bytes_decides_and_recovers_the_same() {
    let r = Pedersen::<2, 3>::split_secret::<Fq, Gp, 32>(scalar(21), None, None, None, &[1u8; 32])
        .unwrap();
    let bytes = r.to_bytes();
    // blinding, twice three shares, h, prefix and two points, g, prefix and two points
    assert_eq!(bytes.len(), 32 + 6 * 33 + 33 + 1 + 66 + 33 + 1 + 66);
    let back = PedersenResult::<Fq, Gp, 32, 2, 3>::from_bytes(&bytes).unwrap();
    assert_eq!(back.to_bytes(), bytes);
    assert_eq!(back.blinding(), r.blinding());
    let v = r.pedersen_verifier();
    let w = back.pedersen_verifier();
    for k in 0..3 {
        assert!(back.secret_shares()[k].equals(&r.secret_shares()[k]));
        assert!(back.blind_shares()[k].equals(&r.blind_shares()[k]));
        for j in 0..3 {
            assert_eq!(
                w.verify(&back.secret_shares()[k], &back.blind_shares()[j]),
                v.verify(&r.secret_shares()[k], &r.blind_shares()[j])
            );
            assert_eq!(w.verify(&back.secret_shares()[k], &back.blind_shares()[j]), k == j);
        }
        assert!(w.feldman_verifier().verify(&back.secret_shares()[k]));
        let tampered = with_last_byte_flipped(&back.secret_shares()[k]);
        assert_eq!(
            w.feldman_verifier().verify(&tampered),
            v.feldman_verifier().verify(&tampered)
        );
    }
    assert_eq!(
        Pedersen::<2, 3>::combine_shares::<Fq, 32>(back.secret_shares()),
        Ok(scalar(21))
    );
    assert_eq!(
        Pedersen::<2, 3>::combine_shares::<Fq, 32>(back.blind_shares()),
        Ok(r.blinding())
    );
}

#[test]
fn a_result_read_back_from_text_is_the_same() {
    let r = Pedersen::<2, 3>::split_secret::<Fq, Gp, 32>(scalar(21), None, None, None, &[1u8; 32])
        .unwrap();
    let text = r.to_text();
    assert_eq!(text.blinding.len(), 64);
    assert_eq!(text.secret_shares.len(), 3);
    assert_eq!(text.secret_shares[0].len(), 66);
    assert!(text.secret_shares[0].starts_with("01"));
    assert_eq!(text.verifier.commitments.len(), 2);
    assert_eq!(text.verifier.generator.len(), 66);
    let back = PedersenResult::<Fq, Gp, 32, 2, 3>::from_text(&text).unwrap();
    assert_eq!(back.to_bytes(), r.to_bytes());
}

#[test]
fn verifiers_read_back_from_bytes_and_text_are_the_same() {
    let (shares, verifier) =
        Feldman::<3, 5>::split_secret::<Fq, Gp, 32>(scalar(7), None, &[6u8; 32]).unwrap();
    let bytes = verifier.to_bytes();
    assert_eq!(bytes.len(), 33 + 1 + 3 * 33);
    assert_eq!(bytes[33], 3);
    let back = vsss_rs::FeldmanVerifier::<Fq, Gp, 3>::from_bytes(&bytes).unwrap();
    assert_eq!(back.to_bytes(), bytes);
    let again = vsss_rs::FeldmanVerifier::<Fq, Gp, 3>::from_text(&verifier.to_text()).unwrap();
    assert_eq!(again.to_bytes(), bytes);
    for s in &shares {
        assert!(back.verify(s));
        assert!(again.verify(s));
    }
    // a tag that no point has, and a tag that the curve reads but does not write
    for tag in [0x07u8, 0x05] {
        let mut off = bytes.clone();
        off[0] = tag;
        assert_eq!(
            vsss_rs::FeldmanVerifier::<Fq, Gp, 3>::from_bytes(&off).err(),
            Some(Error::InvalidEncoding)
        );
    }
}

#[test]
fn shares_read_back_from_bytes_and_text_are_the_same() {
    let shares = Shamir::<2, 3>::split_secret::<Fq, 32>(scalar(3), &[0u8; 32]).unwrap();
    for s in &shares {
        let bytes = s.to_bytes();
        assert_eq!(bytes.len(), 33);
        assert_eq!(bytes[0], s.identifier());
        assert_eq!(&bytes[1..], s.value());
        assert!(Share::<32>::from_bytes(&bytes).unwrap().equals(s));
        assert!(Share::<32>::from_hex(&s.to_hex()).unwrap().equals(s));
    }
}

#[test]
fn a_value_above_the_modulus_is_no_share_of_the_field() {
    let shares = Shamir::<2, 3>::split_secret::<Fq, 32>(scalar(3), &[0u8; 32]).unwrap();
    let above = Share::<32>::new(2, &[0xFF; 32]).unwrap();
    let set = vec![shares[0].clone(), above.clone()];
    assert_eq!(Shamir::<2, 3>::combine_shares::<Fq, 32>(&set), Err(Error::InvalidShare));
    let (_, verifier) =
        Feldman::<2, 3>::split_secret::<Fq, Gp, 32>(scalar(3), None, &[0u8; 32]).unwrap();
    assert!(!verifier.verify(&above));
}

#[test]
fn the_share_width_must_be_that_of_the_scalars() {
    assert_eq!(
        Shamir::<2, 3>::split_secret::<Fq, 33>(scalar(3), &[0u8; 32]).err(),
        Some(Error::InvalidParameters)
    );
    assert_eq!(
        Pedersen::<2, 3>::split_secret::<Fq, Gp, 31>(scalar(3), None, None, None, &[0u8; 32])
            .err(),
        Some(Error::InvalidParameters)
    );
}

#[test]
fn sums_of_shares_combine_to_the_sum_of_the_secrets() {
    let a = Shamir::<3, 5>::split_secret::<Fq, 32>(scalar(1000), &[1u8; 32]).unwrap();
    let b = Shamir::<3, 5>::split_secret::<Fq, 32>(scalar(234), &[2u8; 32]).unwrap();
    let mut sum = Vec::new();
    for k in 0..5 {
        let x = Fq::from_bytes(a[k].value()).unwrap();
        let y = Fq::from_bytes(b[k].value()).unwrap();
        sum.push(Share::<32>::new(a[k].identifier(), &x.plus(y).to_bytes()).unwrap());
    }
    assert_eq!(Shamir::<3, 5>::combine_shares::<Fq, 32>(&sum), Ok(scalar(1234)));
    assert_eq!(Shamir::<3, 5>::combine_shares::<Fq, 32>(&sum[2..]), Ok(scalar(1234)));
}

#[test]
fn partial_results_in_the_group_combine_to_the_result_of_the_secret() {
    // each holder multiplies a common point by its share, as for a threshold
    // signature; the products combine to the point times the secret
    let secret = scalar(424242);
    let shares = Shamir::<3, 5>::split_secret::<Fq, 32>(secret, &[3u8; 32]).unwrap();
    let base = Gp(ProjectivePoint::GENERATOR * Scalar::from(99u64));
    let mut partial = Vec::new();
    for s in &shares {
        let x = Fq::from_bytes(s.value()).unwrap();
        partial.push(Share::<33>::new(s.identifier(), &base.scaled(x).to_bytes()).unwrap());
    }
    let expected = base.scaled(secret);
    for places in [[0usize, 1, 2], [4, 2, 0], [1, 3, 4]] {
        let subset = pick(&partial, &places);
        assert_eq!(Shamir::<3, 5>::combine_shares_group::<Fq, Gp, 33>(&subset), Ok(expected));
        assert_eq!(Pedersen::<3, 5>::combine_shares_group::<Fq, Gp, 33>(&subset), Ok(expected));
    }
    // the sum of two sets of partial results
    let other = Shamir::<3, 5>::split_secret::<Fq, 32>(scalar(58), &[4u8; 32]).unwrap();
    let mut sum = Vec::new();
    for k in 0..5 {
        let x = Fq::from_bytes(other[k].value()).unwrap();
        let y = Gp::from_bytes(partial[k].value()).unwrap();
        let z = y.plus(base.scaled(x));
        sum.push(Share::<33>::new(partial[k].identifier(), &z.to_bytes()).unwrap());
    }
    assert_eq!(
        Shamir::<3, 5>::combine_shares_group::<Fq, Gp, 33>(&sum),
        Ok(base.scaled(scalar(424242 + 58)))
    );
}

#[test]
fn bytes_that_are_no_point_are_no_share_of_the_group() {
    let good = Gp(ProjectivePoint::GENERATOR).to_bytes();
    let mut bad = good.clone();
    bad[0] = 0x07;
    let shares =
        vec![Share::<33>::new(1, &good).unwrap(), Share::<33>::new(2, &bad).unwrap()];
    assert_eq!(
        Shamir::<2, 3>::combine_shares_group::<Fq, Gp, 33>(&shares),
        Err(Error::InvalidShare)
    );
}

#[test]
fn the_largest_number_of_shares_deals_and_recovers() {
    let shares = Shamir::<8, 255>::split_secret::<Fq, 32>(scalar(77), &[5u8; 32]).unwrap();
    assert_eq!(shares.len(), 255);
    assert_eq!(shares[254].identifier(), 255);
    assert_eq!(Shamir::<8, 255>::combine_shares::<Fq, 32>(&shares), Ok(scalar(77)));
    assert_eq!(Shamir::<8, 255>::combine_shares::<Fq, 32>(&shares[247..]), Ok(scalar(77)));
}

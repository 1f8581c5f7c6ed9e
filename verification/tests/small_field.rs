//! The schemes over the field of 257 elements and the additive group of the
//! same order, where every value can be worked out by hand.

use rand_chacha::ChaCha20Rng;
use rand_core::RngCore;
use vsss_rs::wire::{
    decode_element, decode_elements, element_from_hex, element_to_hex, elements_from_hex,
    elements_to_hex, encode_elements,
};
use vsss_rs::{
    Element, Error, Feldman, FeldmanVerifier, FieldElement, GroupElement, Pedersen,
    PedersenResult, PedersenVerifier, Polynomial, Shamir, Share,
};

const P: u32 = 257;

#[derive(Clone, Copy, Debug, PartialEq, Eq)]
struct Fe(u32);

#[derive(Clone, Copy, Debug, PartialEq, Eq)]
struct Ge(u32);

impl Element for Fe {
    fn element_laws() {}

    fn encoded_len() -> usize {
        2
    }

    fn to_bytes(self) -> Vec<u8> {
        vec![(self.0 >> 8) as u8, self.0 as u8]
    }

    fn from_bytes(bytes: &[u8]) -> Option<Self> {
        if bytes.len() != 2 {
            return None;
        }
        let v = ((bytes[0] as u32) << 8) | bytes[1] as u32;
        if v < P {
            Some(Fe(v))
        } else {
            None
        }
    }
}

impl FieldElement for Fe {
    fn zero() -> Self {
        Fe(0)
    }

    fn one() -> Self {
        Fe(1)
    }

    fn from_u64(x: u64) -> Self {
        Fe((x % P as u64) as u32)
    }

    fn plus(self, rhs: Self) -> Self {
        Fe((self.0 + rhs.0) % P)
    }

    fn minus(self, rhs: Self) -> Self {
        Fe((self.0 + P - rhs.0) % P)
    }

    fn times(self, rhs: Self) -> Self {
        Fe((self.0 * rhs.0) % P)
    }

    fn negated(self) -> Self {
        Fe((P - self.0) % P)
    }

    fn inverted(self) -> Option<Self> {
        if self.0 == 0 {
            return None;
        }
        let mut r = 1u32;
        for _ in 0..(P - 2) {
            r = (r * self.0) % P;
        }
        Some(Fe(r))
    }

    fn random(rng: &mut ChaCha20Rng) -> Self {
        Fe(rng.next_u32() % P)
    }
}

impl Element for Ge {
    fn element_laws() {}

    fn encoded_len() -> usize {
        3
    }

    fn to_bytes(self) -> Vec<u8> {
        vec![0x47, (self.0 >> 8) as u8, self.0 as u8]
    }

    fn from_bytes(bytes: &[u8]) -> Option<Self> {
        if bytes.len() != 3 || bytes[0] != 0x47 {
            return None;
        }
        let v = ((bytes[1] as u32) << 8) | bytes[2] as u32;
        if v < P {
            Some(Ge(v))
        } else {
            None
        }
    }
}

impl GroupElement<Fe> for Ge {
    fn scalars_match() {}

    fn identity() -> Self {
        Ge(0)
    }

    fn generator() -> Self {
        Ge(1)
    }

    fn plus(self, rhs: Self) -> Self {
        Ge((self.0 + rhs.0) % P)
    }

    fn negated(self) -> Self {
        Ge((P - self.0) % P)
    }

    fn scaled(self, s: Fe) -> Self {
        Ge((self.0 * s.0) % P)
    }

    fn is_identity(self) -> bool {
        self.0 == 0
    }
}

fn share2(identifier: u8, value: u32) -> Share<2> {
    Share::<2>::new(identifier, &Fe(value).to_bytes()).unwrap()
}

fn share3(identifier: u8, value: u32) -> Share<3> {
    Share::<3>::new(identifier, &Ge(value).to_bytes()).unwrap()
}

fn poly2(a: u32, b: u32) -> Polynomial<Fe, 2> {
    Polynomial::<Fe, 2>::from_coefficients(vec![Fe(a), Fe(b)]).unwrap()
}

fn poly3(a: u32, b: u32, c: u32) -> Polynomial<Fe, 3> {
    Polynomial::<Fe, 3>::from_coefficients(vec![Fe(a), Fe(b), Fe(c)]).unwrap()
}

#[test]
fn share_new_keeps_its_parts() {
    let s = Share::<2>::new(7, &[1, 0]).unwrap();
    assert_eq!(s.identifier(), 7);
    assert_eq!(s.value(), &[1u8, 0u8][..]);
    assert_eq!(s.to_bytes(), vec![7u8, 1, 0]);
}

#[test]
fn share_new_rejects_zero_identifier() {
    assert_eq!(Share::<2>::new(0, &[1, 2]).unwrap_err(), Error::InvalidShare);
}

#[test]
fn share_new_rejects_wrong_length() {
    assert_eq!(Share::<2>::new(1, &[1, 2, 3]).unwrap_err(), Error::InvalidShare);
    assert_eq!(Share::<2>::new(1, &[1]).unwrap_err(), Error::InvalidShare);
    assert_eq!(Share::<2>::new(1, &[]).unwrap_err(), Error::InvalidShare);
}

#[test]
fn share_default_is_the_zero_sentinel() {
    let s = Share::<4>::default();
    assert_eq!(s.identifier(), 0);
    assert_eq!(s.value(), &[0u8; 4][..]);
}

#[test]
fn share_equality_is_bytewise() {
    let a = share2(1, 8);
    let b = share2(1, 8);
    let c = share2(2, 8);
    let d = share2(1, 9);
    assert!(a.equals(&b));
    assert!(!a.equals(&c));
    assert!(!a.equals(&d));
    assert!(a.equals(&a.clone()));
}

#[test]
fn share_hex_is_lowercase_digits_of_its_bytes() {
    let s = Share::<2>::new(0xAB, &[0x0F, 0xF0]).unwrap();
    assert_eq!(s.to_hex(), "ab0ff0");
}

#[test]
fn share_from_hex_reads_both_cases() {
    let lower = Share::<2>::from_hex("ab0ff0").unwrap();
    let upper = Share::<2>::from_hex("AB0FF0").unwrap();
    assert!(lower.equals(&upper));
    assert_eq!(lower.identifier(), 0xAB);
    assert_eq!(lower.value(), &[0x0Fu8, 0xF0][..]);
}

#[test]
fn share_from_hex_rejects_bad_text() {
    assert_eq!(Share::<2>::from_hex("ab0ff").unwrap_err(), Error::InvalidEncoding);
    assert_eq!(Share::<2>::from_hex("zz0ff0").unwrap_err(), Error::InvalidEncoding);
    assert_eq!(Share::<2>::from_hex("ab0ff0aa").unwrap_err(), Error::InvalidEncoding);
    assert_eq!(Share::<2>::from_hex("000ff0").unwrap_err(), Error::InvalidEncoding);
    assert_eq!(Share::<2>::from_hex("").unwrap_err(), Error::InvalidEncoding);
}

#[test]
fn share_from_bytes_rejects_zero_identifier_and_wrong_length() {
    assert_eq!(Share::<2>::from_bytes(&[0, 1, 2]).unwrap_err(), Error::InvalidEncoding);
    assert_eq!(Share::<2>::from_bytes(&[1, 2]).unwrap_err(), Error::InvalidEncoding);
    assert_eq!(Share::<2>::from_bytes(&[1, 2, 3, 4]).unwrap_err(), Error::InvalidEncoding);
    assert_eq!(Share::<2>::from_bytes(&[]).unwrap_err(), Error::InvalidEncoding);
    let s = Share::<2>::from_bytes(&[9, 1, 0]).unwrap();
    assert_eq!(s.identifier(), 9);
    assert_eq!(s.value(), &[1u8, 0][..]);
}

#[test]
fn check_params_accepts_and_rejects() {
    assert_eq!(Shamir::<2, 3>::check_params(2), Ok(()));
    assert_eq!(Shamir::<2, 2>::check_params(1), Ok(()));
    assert_eq!(Shamir::<255, 255>::check_params(32), Ok(()));
    assert_eq!(Shamir::<1, 3>::check_params(2), Err(Error::InvalidParameters));
    assert_eq!(Shamir::<0, 3>::check_params(2), Err(Error::InvalidParameters));
    assert_eq!(Shamir::<4, 3>::check_params(2), Err(Error::InvalidParameters));
    assert_eq!(Shamir::<2, 256>::check_params(2), Err(Error::InvalidParameters));
    assert_eq!(Shamir::<2, 3>::check_params(0), Err(Error::InvalidParameters));
}

#[test]
fn polynomial_evaluates_the_sum_of_its_terms() {
    let p = poly2(3, 5);
    assert_eq!(p.evaluate(Fe(0)), Fe(3));
    assert_eq!(p.evaluate(Fe(1)), Fe(8));
    assert_eq!(p.evaluate(Fe(2)), Fe(13));
    let q = poly3(7, 1, 2);
    assert_eq!(q.evaluate(Fe(3)), Fe(28));
    // 7 + 100 + 2 * 10000 = 20107 = 78 * 257 + 61
    assert_eq!(q.evaluate(Fe(100)), Fe(61));
}

#[test]
fn polynomial_rejects_wrong_number_of_coefficients() {
    assert_eq!(
        Polynomial::<Fe, 2>::from_coefficients(vec![Fe(1)]).err(),
        Some(Error::InvalidParameters)
    );
    assert_eq!(
        Polynomial::<Fe, 2>::from_coefficients(vec![Fe(1), Fe(2), Fe(3)]).err(),
        Some(Error::InvalidParameters)
    );
    assert_eq!(
        Polynomial::<Fe, 1>::from_coefficients(vec![Fe(1)]).err(),
        Some(Error::InvalidParameters)
    );
}

#[test]
fn polynomial_build_keeps_the_constant_term() {
    let mut rng = vsss_rs::stream::seeded_stream(&[5u8; 32]).unwrap();
    let p = Polynomial::<Fe, 4>::build(Fe(42), &mut rng).unwrap();
    assert_eq!(p.coefficients().len(), 4);
    assert_eq!(p.coefficients()[0], Fe(42));
    assert_eq!(p.evaluate(Fe(0)), Fe(42));
    let mut rng = vsss_rs::stream::seeded_stream(&[5u8; 32]).unwrap();
    assert_eq!(
        Polynomial::<Fe, 1>::build(Fe(42), &mut rng).err(),
        Some(Error::InvalidParameters)
    );
}

#[test]
fn shares_of_a_polynomial_are_its_values_at_one_to_n() {
    let shares = Shamir::<2, 3>::shares_of::<Fe, 2>(&poly2(3, 5)).unwrap();
    assert_eq!(shares.len(), 3);
    assert_eq!(shares[0].to_bytes(), vec![1u8, 0, 8]);
    assert_eq!(shares[1].to_bytes(), vec![2u8, 0, 13]);
    assert_eq!(shares[2].to_bytes(), vec![3u8, 0, 18]);
}

#[test]
fn shares_of_rejects_a_width_that_is_not_the_fields() {
    assert_eq!(
        Shamir::<2, 3>::shares_of::<Fe, 3>(&poly2(3, 5)).unwrap_err(),
        Error::InvalidParameters
    );
    assert_eq!(
        Shamir::<2, 1>::shares_of::<Fe, 2>(&poly2(3, 5)).unwrap_err(),
        Error::InvalidParameters
    );
}

#[test]
fn combine_recovers_the_constant_term() {
    // weights at zero of nodes 1, 2: 2 and -1; 8 * 2 - 13 = 3
    let shares = vec![share2(1, 8), share2(2, 13)];
    assert_eq!(Shamir::<2, 3>::combine_shares::<Fe, 2>(&shares), Ok(Fe(3)));
    let shares = vec![share2(3, 18), share2(1, 8)];
    assert_eq!(Shamir::<2, 3>::combine_shares::<Fe, 2>(&shares), Ok(Fe(3)));
    let shares = vec![share2(2, 13), share2(3, 18)];
    assert_eq!(Shamir::<2, 3>::combine_shares::<Fe, 2>(&shares), Ok(Fe(3)));
}

#[test]
fn combine_of_three_points_on_a_parabola() {
    // 7 + x + 2 x^2 at 1, 2, 4: 10, 17, 43
    let shares = vec![share2(1, 10), share2(2, 17), share2(4, 43)];
    assert_eq!(Shamir::<3, 5>::combine_shares::<Fe, 2>(&shares), Ok(Fe(7)));
}

#[test]
fn combine_uses_the_first_threshold_shares_only() {
    let stray = Share::<2>::new(3, &[0xFF, 0xFF]).unwrap();
    let shares = vec![share2(1, 8), share2(2, 13), stray];
    assert_eq!(Shamir::<2, 3>::combine_shares::<Fe, 2>(&shares), Ok(Fe(3)));
    let shares = vec![share2(1, 8), share2(2, 13), share2(1, 8)];
    assert_eq!(Shamir::<2, 3>::combine_shares::<Fe, 2>(&shares), Ok(Fe(3)));
}

#[test]
fn combine_with_too_few_shares() {
    let shares = vec![share2(1, 8)];
    assert_eq!(
        Shamir::<2, 3>::combine_shares::<Fe, 2>(&shares),
        Err(Error::SharingMinThreshold)
    );
    let none: Vec<Share<2>> = Vec::new();
    assert_eq!(
        Shamir::<2, 3>::combine_shares::<Fe, 2>(&none),
        Err(Error::SharingMinThreshold)
    );
    assert_eq!(
        Shamir::<2, 3>::combine_shares_group::<Fe, Ge, 3>(&[share3(1, 8)]),
        Err(Error::SharingMinThreshold)
    );
}

#[test]
fn combine_with_a_repeated_identifier() {
    let shares = vec![share2(1, 8), share2(1, 13)];
    assert_eq!(Shamir::<2, 3>::combine_shares::<Fe, 2>(&shares), Err(Error::DuplicateShare));
    let shares = vec![share2(1, 10), share2(2, 17), share2(1, 10)];
    assert_eq!(Shamir::<3, 5>::combine_shares::<Fe, 2>(&shares), Err(Error::DuplicateShare));
}

#[test]
fn combine_with_the_sentinel_share() {
    let shares = vec![share2(1, 8), Share::<2>::default()];
    assert_eq!(Shamir::<2, 3>::combine_shares::<Fe, 2>(&shares), Err(Error::InvalidShare));
}

#[test]
fn combine_with_a_value_that_is_no_element() {
    // 0x0101 = 257 is not below the modulus
    let bad = Share::<2>::new(2, &[1, 1]).unwrap();
    let shares = vec![share2(1, 8), bad];
    assert_eq!(Shamir::<2, 3>::combine_shares::<Fe, 2>(&shares), Err(Error::InvalidShare));
}

#[test]
fn combine_reports_the_first_fault() {
    let bad = Share::<2>::new(5, &[1, 1]).unwrap();
    // the bad value comes before the duplicate
    let shares = vec![share2(1, 10), bad.clone(), share2(1, 10)];
    assert_eq!(Shamir::<3, 5>::combine_shares::<Fe, 2>(&shares), Err(Error::InvalidShare));
    // the duplicate comes before the bad value
    let shares = vec![share2(1, 10), share2(1, 10), bad];
    assert_eq!(Shamir::<3, 5>::combine_shares::<Fe, 2>(&shares), Err(Error::DuplicateShare));
}

#[test]
fn combine_in_the_group() {
    // the shares 8, 13 of the secret 3, each times the element 4
    let shares = vec![share3(1, 32), share3(2, 52)];
    assert_eq!(Shamir::<2, 3>::combine_shares_group::<Fe, Ge, 3>(&shares), Ok(Ge(12)));
    assert_eq!(Pedersen::<2, 3>::combine_shares_group::<Fe, Ge, 3>(&shares), Ok(Ge(12)));
    assert_eq!(Feldman::<2, 3>::combine_shares_group::<Fe, Ge, 3>(&shares), Ok(Ge(12)));
    let bad = Share::<3>::new(2, &[0x48, 0, 52]).unwrap();
    assert_eq!(
        Shamir::<2, 3>::combine_shares_group::<Fe, Ge, 3>(&[share3(1, 32), bad]),
        Err(Error::InvalidShare)
    );
}

#[test]
fn combining_is_linear_in_the_shares() {
    // secrets 3 and 100 under the same identifiers
    let a = Shamir::<2, 3>::shares_of::<Fe, 2>(&poly2(3, 5)).unwrap();
    let b = Shamir::<2, 3>::shares_of::<Fe, 2>(&poly2(100, 77)).unwrap();
    let mut sum = Vec::new();
    for k in 0..3 {
        let x = Fe::from_bytes(a[k].value()).unwrap();
        let y = Fe::from_bytes(b[k].value()).unwrap();
        sum.push(Share::<2>::new(a[k].identifier(), &x.plus(y).to_bytes()).unwrap());
    }
    assert_eq!(Shamir::<2, 3>::combine_shares::<Fe, 2>(&sum[1..]), Ok(Fe(103)));
}

#[test]
fn feldman_commit_multiplies_the_generator_by_each_coefficient() {
    let v = Feldman::<2, 3>::commit::<Fe, Ge>(Ge(2), &poly2(3, 5));
    assert_eq!(v.generator(), Ge(2));
    assert_eq!(v.commitments(), &[Ge(6), Ge(10)][..]);
}

#[test]
fn feldman_verify_accepts_dealt_and_rejects_changed_values() {
    let v = Feldman::<2, 3>::commit::<Fe, Ge>(Ge(2), &poly2(3, 5));
    assert!(v.verify(&share2(1, 8)));
    assert!(v.verify(&share2(2, 13)));
    assert!(v.verify(&share2(3, 18)));
    assert!(!v.verify(&share2(1, 9)));
    assert!(!v.verify(&share2(2, 8)));
    assert!(!v.verify(&Share::<2>::new(1, &[1, 1]).unwrap()));
}

#[test]
fn feldman_verifier_new_checks_the_number_of_commitments() {
    assert!(FeldmanVerifier::<Fe, Ge, 2>::new(Ge(1), vec![Ge(3), Ge(5)]).is_ok());
    assert_eq!(
        FeldmanVerifier::<Fe, Ge, 2>::new(Ge(1), vec![Ge(3)]).unwrap_err(),
        Error::InvalidParameters
    );
    assert_eq!(
        FeldmanVerifier::<Fe, Ge, 1>::new(Ge(1), vec![Ge(3)]).unwrap_err(),
        Error::InvalidParameters
    );
}

#[test]
fn feldman_verifier_binary_form() {
    let v = Feldman::<2, 3>::commit::<Fe, Ge>(Ge(2), &poly2(3, 5));
    let bytes = v.to_bytes();
    assert_eq!(bytes, vec![0x47, 0, 2, 2, 0x47, 0, 6, 0x47, 0, 10]);
    let back = FeldmanVerifier::<Fe, Ge, 2>::from_bytes(&bytes).unwrap();
    assert_eq!(back.generator(), Ge(2));
    assert_eq!(back.commitments(), &[Ge(6), Ge(10)][..]);
}

#[test]
fn feldman_verifier_binary_form_rejections() {
    let good = vec![0x47, 0, 2, 2, 0x47, 0, 6, 0x47, 0, 10];
    // a count that is not the threshold
    assert_eq!(
        FeldmanVerifier::<Fe, Ge, 3>::from_bytes(&good).unwrap_err(),
        Error::InvalidEncoding
    );
    // a count that the payload does not match
    let mut short = good.clone();
    short.pop();
    assert_eq!(
        FeldmanVerifier::<Fe, Ge, 2>::from_bytes(&short).unwrap_err(),
        Error::InvalidEncoding
    );
    let mut long = good.clone();
    long.push(0);
    assert_eq!(
        FeldmanVerifier::<Fe, Ge, 2>::from_bytes(&long).unwrap_err(),
        Error::InvalidEncoding
    );
    // bytes that are no element
    let mut bad = good.clone();
    bad[4] = 0x48;
    assert_eq!(
        FeldmanVerifier::<Fe, Ge, 2>::from_bytes(&bad).unwrap_err(),
        Error::InvalidEncoding
    );
    // a prefix that does not end
    assert_eq!(
        FeldmanVerifier::<Fe, Ge, 2>::from_bytes(&[0x47, 0, 2, 0x80]).unwrap_err(),
        Error::InvalidEncoding
    );
    assert_eq!(FeldmanVerifier::<Fe, Ge, 2>::from_bytes(&[]).unwrap_err(), Error::InvalidEncoding);
}

#[test]
fn feldman_verifier_text_form() {
    let v = Feldman::<2, 3>::commit::<Fe, Ge>(Ge(2), &poly2(3, 5));
    let text = v.to_text();
    assert_eq!(text.generator, "470002");
    assert_eq!(text.commitments, vec!["470006".to_string(), "47000a".to_string()]);
    let back = FeldmanVerifier::<Fe, Ge, 2>::from_text(&text).unwrap();
    assert_eq!(back.to_bytes(), v.to_bytes());
    let mut bad = v.to_text();
    bad.commitments[1] = "47000g".to_string();
    assert_eq!(FeldmanVerifier::<Fe, Ge, 2>::from_text(&bad).unwrap_err(), Error::InvalidEncoding);
    let mut few = v.to_text();
    few.commitments.pop();
    assert_eq!(FeldmanVerifier::<Fe, Ge, 2>::from_text(&few).unwrap_err(), Error::InvalidEncoding);
}

#[test]
fn element_sequences_in_binary_form() {
    let bytes = encode_elements::<Fe>(&[Fe(1), Fe(256)]);
    assert_eq!(bytes, vec![2u8, 0, 1, 1, 0]);
    assert_eq!(decode_elements::<Fe>(&bytes), Ok(vec![Fe(1), Fe(256)]));
    assert_eq!(encode_elements::<Fe>(&[]), vec![0u8]);
    assert_eq!(decode_elements::<Fe>(&[0]), Ok(vec![]));
    // a prefix of two bytes for the count zero is read as well
    assert_eq!(decode_elements::<Fe>(&[0x80, 0]), Ok(vec![]));
}

#[test]
fn element_sequences_with_a_long_prefix() {
    let elements = vec![Fe(7); 200];
    let bytes = encode_elements::<Fe>(&elements);
    assert_eq!(bytes.len(), 2 + 400);
    assert_eq!(&bytes[..2], &[0xC8u8, 0x01][..]);
    assert_eq!(decode_elements::<Fe>(&bytes), Ok(elements));
}

#[test]
fn element_sequences_rejections() {
    assert_eq!(decode_elements::<Fe>(&[]), Err(Error::InvalidEncoding));
    assert_eq!(decode_elements::<Fe>(&[2, 0, 1, 1]), Err(Error::InvalidEncoding));
    assert_eq!(decode_elements::<Fe>(&[2, 0, 1, 1, 0, 0]), Err(Error::InvalidEncoding));
    assert_eq!(decode_elements::<Fe>(&[1, 1, 1]), Err(Error::InvalidEncoding));
    assert_eq!(decode_elements::<Fe>(&[0x80]), Err(Error::InvalidEncoding));
    assert_eq!(decode_elements::<Fe>(&[0xFF; 19]), Err(Error::InvalidEncoding));
    // a count far beyond the payload
    let mut huge = vec![0xFFu8; 18];
    huge.push(0x03);
    huge.extend_from_slice(&[0, 1]);
    assert_eq!(decode_elements::<Fe>(&huge), Err(Error::InvalidEncoding));
}

#[test]
fn elements_in_text_form() {
    assert_eq!(element_to_hex::<Fe>(Fe(256)), "0100");
    assert_eq!(element_to_hex::<Ge>(Ge(10)), "47000a");
    assert_eq!(element_from_hex::<Fe>("0100"), Ok(Fe(256)));
    assert_eq!(element_from_hex::<Ge>("47000A"), Ok(Ge(10)));
    assert_eq!(element_from_hex::<Fe>("0101"), Err(Error::InvalidEncoding));
    assert_eq!(element_from_hex::<Fe>("010"), Err(Error::InvalidEncoding));
    assert_eq!(element_from_hex::<Fe>("01 0"), Err(Error::InvalidEncoding));
    assert_eq!(element_from_hex::<Fe>("01é0"), Err(Error::InvalidEncoding));
    assert_eq!(decode_element::<Fe>(&[1, 0]), Ok(Fe(256)));
    assert_eq!(decode_element::<Fe>(&[1, 1]), Err(Error::InvalidEncoding));
    assert_eq!(decode_element::<Fe>(&[1]), Err(Error::InvalidEncoding));
    let texts = elements_to_hex::<Fe>(&[Fe(1), Fe(255)]);
    assert_eq!(texts, vec!["0001".to_string(), "00ff".to_string()]);
    assert_eq!(elements_from_hex::<Fe>(&texts), Ok(vec![Fe(1), Fe(255)]));
    assert_eq!(
        elements_from_hex::<Fe>(&["0001".to_string(), "0x".to_string()]),
        Err(Error::InvalidEncoding)
    );
}

#[test]
fn pedersen_deal_commits_to_both_polynomials() {
    // secret 5, blinding 11, generators 1 and 5
    let a = poly3(5, 1, 2);
    let b = poly3(11, 3, 4);
    let r = Pedersen::<3, 5>::deal::<Fe, Ge, 2>(Ge(1), Ge(5), &a, &b).unwrap();
    assert_eq!(r.blinding(), Fe(11));
    let v = r.pedersen_verifier();
    assert_eq!(v.generator(), Ge(5));
    assert_eq!(v.commitments(), &[Ge(60), Ge(16), Ge(22)][..]);
    assert_eq!(v.feldman_verifier().generator(), Ge(1));
    assert_eq!(v.feldman_verifier().commitments(), &[Ge(5), Ge(1), Ge(2)][..]);
    // 5 + x + 2 x^2 and 11 + 3 x + 4 x^2 at 1..5
    let secret: Vec<u32> = vec![8, 15, 26, 41, 60];
    let blind: Vec<u32> = vec![18, 33, 56, 87, 126];
    for k in 0..5 {
        assert!(r.secret_shares()[k].equals(&share2(k as u8 + 1, secret[k])));
        assert!(r.blind_shares()[k].equals(&share2(k as u8 + 1, blind[k])));
        assert!(v.verify(&r.secret_shares()[k], &r.blind_shares()[k]));
        assert!(v.feldman_verifier().verify(&r.secret_shares()[k]));
    }
    assert_eq!(Pedersen::<3, 5>::combine_shares::<Fe, 2>(r.secret_shares()), Ok(Fe(5)));
    assert_eq!(Pedersen::<3, 5>::combine_shares::<Fe, 2>(r.blind_shares()), Ok(Fe(11)));
}

#[test]
fn pedersen_verify_rejects_mismatched_and_changed_shares() {
    let a = poly3(5, 1, 2);
    let b = poly3(11, 3, 4);
    let r = Pedersen::<3, 5>::deal::<Fe, Ge, 2>(Ge(1), Ge(5), &a, &b).unwrap();
    let v = r.pedersen_verifier();
    // shares of different holders
    assert!(!v.verify(&r.secret_shares()[0], &r.blind_shares()[1]));
    // a changed secret share, a changed blinding share
    assert!(!v.verify(&share2(1, 9), &r.blind_shares()[0]));
    assert!(!v.verify(&r.secret_shares()[0], &share2(1, 19)));
    // values that are no elements
    let bad = Share::<2>::new(1, &[1, 1]).unwrap();
    assert!(!v.verify(&bad, &r.blind_shares()[0]));
    assert!(!v.verify(&r.secret_shares()[0], &bad));
}

#[test]
fn pedersen_result_binary_form() {
    let r = Pedersen::<2, 3>::deal::<Fe, Ge, 2>(Ge(1), Ge(5), &poly2(5, 1), &poly2(11, 3)).unwrap();
    let bytes = r.to_bytes();
    let expected: Vec<u8> = vec![
        0, 11, // blinding
        1, 0, 14, 2, 0, 17, 3, 0, 20, // blinding shares
        1, 0, 6, 2, 0, 7, 3, 0, 8, // secret shares
        0x47, 0, 5, // h
        2, 0x47, 0, 60, 0x47, 0, 16, // blinded commitments
        0x47, 0, 1, // g
        2, 0x47, 0, 5, 0x47, 0, 1, // commitments
    ];
    assert_eq!(bytes, expected);
    let back = PedersenResult::<Fe, Ge, 2, 2, 3>::from_bytes(&bytes).unwrap();
    assert_eq!(back.to_bytes(), bytes);
    assert_eq!(back.blinding(), Fe(11));
    for k in 0..3 {
        assert!(back.secret_shares()[k].equals(&r.secret_shares()[k]));
        assert!(back.blind_shares()[k].equals(&r.blind_shares()[k]));
    }
}

#[test]
fn pedersen_result_binary_form_rejections() {
    let r = Pedersen::<2, 3>::deal::<Fe, Ge, 2>(Ge(1), Ge(5), &poly2(5, 1), &poly2(11, 3)).unwrap();
    let bytes = r.to_bytes();
    for cut in 0..bytes.len() {
        assert_eq!(
            PedersenResult::<Fe, Ge, 2, 2, 3>::from_bytes(&bytes[..cut]).unwrap_err(),
            Error::InvalidEncoding
        );
    }
    let mut long = bytes.clone();
    long.push(0);
    assert_eq!(
        PedersenResult::<Fe, Ge, 2, 2, 3>::from_bytes(&long).unwrap_err(),
        Error::InvalidEncoding
    );
    // a share with the identifier zero
    let mut zero = bytes.clone();
    zero[2] = 0;
    assert_eq!(
        PedersenResult::<Fe, Ge, 2, 2, 3>::from_bytes(&zero).unwrap_err(),
        Error::InvalidEncoding
    );
    // a blinding factor that is no element
    let mut bad = bytes.clone();
    bad[0] = 1;
    bad[1] = 1;
    assert_eq!(
        PedersenResult::<Fe, Ge, 2, 2, 3>::from_bytes(&bad).unwrap_err(),
        Error::InvalidEncoding
    );
    // another number of shares than the bytes hold
    assert_eq!(
        PedersenResult::<Fe, Ge, 2, 2, 4>::from_bytes(&bytes).unwrap_err(),
        Error::InvalidEncoding
    );
}

#[test]
fn pedersen_result_text_form() {
    let r = Pedersen::<2, 3>::deal::<Fe, Ge, 2>(Ge(1), Ge(5), &poly2(5, 1), &poly2(11, 3)).unwrap();
    let text = r.to_text();
    assert_eq!(text.blinding, "000b");
    assert_eq!(text.blind_shares, vec!["01000e", "020011", "030014"]);
    assert_eq!(text.secret_shares, vec!["010006", "020007", "030008"]);
    assert_eq!(text.verifier.generator, "470005");
    assert_eq!(text.verifier.commitments, vec!["47003c", "470010"]);
    assert_eq!(text.verifier.feldman_verifier.generator, "470001");
    assert_eq!(text.verifier.feldman_verifier.commitments, vec!["470005", "470001"]);
    let back = PedersenResult::<Fe, Ge, 2, 2, 3>::from_text(&text).unwrap();
    assert_eq!(back.to_bytes(), r.to_bytes());
    let mut bad = r.to_text();
    bad.secret_shares[0] = "000006".to_string();
    assert_eq!(
        PedersenResult::<Fe, Ge, 2, 2, 3>::from_text(&bad).unwrap_err(),
        Error::InvalidEncoding
    );
    let mut few = r.to_text();
    few.blind_shares.pop();
    assert_eq!(
        PedersenResult::<Fe, Ge, 2, 2, 3>::from_text(&few).unwrap_err(),
        Error::InvalidEncoding
    );
}

#[test]
fn pedersen_verifier_forms() {
    let r = Pedersen::<2, 3>::deal::<Fe, Ge, 2>(Ge(1), Ge(5), &poly2(5, 1), &poly2(11, 3)).unwrap();
    let v = r.pedersen_verifier();
    let bytes = v.to_bytes();
    assert_eq!(
        bytes,
        vec![0x47, 0, 5, 2, 0x47, 0, 60, 0x47, 0, 16, 0x47, 0, 1, 2, 0x47, 0, 5, 0x47, 0, 1]
    );
    let back = PedersenVerifier::<Fe, Ge, 2>::from_bytes(&bytes).unwrap();
    assert_eq!(back.to_bytes(), bytes);
    assert!(back.verify(&r.secret_shares()[2], &r.blind_shares()[2]));
    let again = PedersenVerifier::<Fe, Ge, 2>::from_text(&v.to_text()).unwrap();
    assert_eq!(again.to_bytes(), bytes);
    assert_eq!(
        PedersenVerifier::<Fe, Ge, 3>::from_bytes(&bytes).unwrap_err(),
        Error::InvalidEncoding
    );
    assert_eq!(
        PedersenVerifier::<Fe, Ge, 2>::from_bytes(&bytes[..19]).unwrap_err(),
        Error::InvalidEncoding
    );
}

#[test]
fn split_with_a_seed_that_is_not_32_bytes() {
    assert_eq!(
        Shamir::<2, 3>::split_secret::<Fe, 2>(Fe(3), &[0u8; 31]).unwrap_err(),
        Error::InvalidRng
    );
    assert_eq!(
        Feldman::<2, 3>::split_secret::<Fe, Ge, 2>(Fe(3), None, &[0u8; 33]).unwrap_err(),
        Error::InvalidRng
    );
    assert_eq!(
        Pedersen::<2, 3>::split_secret::<Fe, Ge, 2>(Fe(3), None, None, None, &[]).unwrap_err(),
        Error::InvalidRng
    );
    assert_eq!(vsss_rs::stream::seeded_stream(&[0u8; 16]).unwrap_err(), Error::InvalidRng);
}

#[test]
fn split_with_parameters_out_of_range() {
    let seed = [0u8; 32];
    assert_eq!(
        Shamir::<1, 3>::split_secret::<Fe, 2>(Fe(3), &seed).unwrap_err(),
        Error::InvalidParameters
    );
    assert_eq!(
        Shamir::<4, 3>::split_secret::<Fe, 2>(Fe(3), &seed).unwrap_err(),
        Error::InvalidParameters
    );
    assert_eq!(
        Shamir::<2, 256>::split_secret::<Fe, 2>(Fe(3), &seed).unwrap_err(),
        Error::InvalidParameters
    );
    assert_eq!(
        Shamir::<2, 3>::split_secret::<Fe, 0>(Fe(3), &seed).unwrap_err(),
        Error::InvalidParameters
    );
    assert_eq!(
        Feldman::<1, 3>::split_secret::<Fe, Ge, 2>(Fe(3), None, &seed).unwrap_err(),
        Error::InvalidParameters
    );
    assert_eq!(
        Pedersen::<3, 2>::split_secret::<Fe, Ge, 2>(Fe(3), None, None, None, &seed).unwrap_err(),
        Error::InvalidParameters
    );
    // the parameters are looked at before the seed
    assert_eq!(
        Pedersen::<3, 2>::split_secret::<Fe, Ge, 2>(Fe(3), None, None, None, &[]).unwrap_err(),
        Error::InvalidParameters
    );
}

#[test]
fn split_is_a_function_of_the_seed() {
    let a = Shamir::<3, 5>::split_secret::<Fe, 2>(Fe(9), &[1u8; 32]).unwrap();
    let b = Shamir::<3, 5>::split_secret::<Fe, 2>(Fe(9), &[1u8; 32]).unwrap();
    for k in 0..5 {
        assert!(a[k].equals(&b[k]));
        assert_eq!(a[k].identifier(), k as u8 + 1);
    }
    assert_eq!(Shamir::<3, 5>::combine_shares::<Fe, 2>(&a[2..]), Ok(Fe(9)));
}

#[test]
fn feldman_split_with_a_supplied_generator() {
    let (shares, v) =
        Feldman::<3, 5>::split_secret::<Fe, Ge, 2>(Fe(9), Some(Ge(4)), &[2u8; 32]).unwrap();
    assert_eq!(v.generator(), Ge(4));
    assert_eq!(v.commitments()[0], Ge(36));
    for s in &shares {
        assert!(v.verify(s));
    }
    let (_, w) = Feldman::<3, 5>::split_secret::<Fe, Ge, 2>(Fe(9), None, &[2u8; 32]).unwrap();
    assert_eq!(w.generator(), Ge(1));
    assert_eq!(w.commitments()[0], Ge(9));
}

#[test]
fn pedersen_split_with_supplied_values() {
    let r = Pedersen::<3, 5>::split_secret::<Fe, Ge, 2>(
        Fe(5),
        Some(Fe(11)),
        Some(Ge(2)),
        Some(Ge(3)),
        &[3u8; 32],
    )
    .unwrap();
    assert_eq!(r.blinding(), Fe(11));
    let v = r.pedersen_verifier();
    assert_eq!(v.generator(), Ge(3));
    assert_eq!(v.feldman_verifier().generator(), Ge(2));
    // 2 * 5 and 2 * 5 + 3 * 11
    assert_eq!(v.feldman_verifier().commitments()[0], Ge(10));
    assert_eq!(v.commitments()[0], Ge(43));
    for k in 0..5 {
        assert_eq!(r.secret_shares()[k].identifier(), k as u8 + 1);
        assert_eq!(r.blind_shares()[k].identifier(), k as u8 + 1);
        assert!(v.verify(&r.secret_shares()[k], &r.blind_shares()[k]));
    }
}

#[test]
fn the_largest_scheme_deals_and_recovers() {
    let shares = Shamir::<255, 255>::split_secret::<Fe, 2>(Fe(77), &[5u8; 32]).unwrap();
    assert_eq!(shares.len(), 255);
    assert_eq!(shares[254].identifier(), 255);
    assert_eq!(Shamir::<255, 255>::combine_shares::<Fe, 2>(&shares), Ok(Fe(77)));
}

use sha3::{Digest, Keccak256};
use gkr_circuits::field::FieldElement;
use gkr_circuits::transcript::{fq_vec_to_bytes, Transcript};

fn fe(v: u64) -> FieldElement {
    FieldElement::from_u64(v)
}

#[test]
fn transcript_test_hash() {
    let mut transcript = Transcript::init();

    let mut seven = fe(7).to_bytes_le();
    seven.reverse();
    transcript.absorb(seven.as_slice());
    transcript.absorb("girl".as_bytes());

    let challenge = transcript.squeeze();
    let challenge1 = transcript.squeeze();

    assert!(challenge != challenge1);
}

#[test]
fn identical_absorbs_give_identical_challenges() {
    let mut a = Transcript::init();
    let mut b = Transcript::init();
    for t in [&mut a, &mut b] {
        t.absorb(b"first message");
        t.absorb(&fq_vec_to_bytes(&[fe(5), fe(6)]));
    }
    assert_eq!(a.squeeze(), b.squeeze());
    a.absorb(b"more");
    b.absorb(b"more");
    assert_eq!(a.squeeze(), b.squeeze());
}

#[test]
fn a_different_byte_changes_later_challenges() {
    let mut a = Transcript::init();
    let mut b = Transcript::init();
    a.absorb(b"first message");
    b.absorb(b"first messagf");
    assert_ne!(a.squeeze(), b.squeeze());
    a.absorb(b"same");
    b.absorb(b"same");
    assert_ne!(a.squeeze(), b.squeeze());
}

#[test]
fn field_elements_encode_little_endian() {
    let bytes = fq_vec_to_bytes(&[fe(0x0102), fe(1)]);
    assert_eq!(bytes.len(), 64);
    assert_eq!(bytes[0], 2);
    assert_eq!(bytes[1], 1);
    assert!(bytes[2..32].iter().all(|b| *b == 0));
    assert_eq!(bytes[32], 1);
}

#[test]
fn from_le_bytes_reduces_modulo_the_order() {
    // The order of the field, little-endian, reduces to zero; one more reduces to one.
    let modulus: [u64; 4] = [0x3c208c16d87cfd47, 0x97816a916871ca8d, 0xb85045b68181585d, 0x30644e72e131a029];
    let mut bytes: Vec<u8> = modulus.iter().flat_map(|l| l.to_le_bytes()).collect();
    assert_eq!(FieldElement::from_le_bytes_mod_order(&bytes), FieldElement::zero());
    bytes[0] += 1;
    assert_eq!(FieldElement::from_le_bytes_mod_order(&bytes), FieldElement::one());
}

#[test]
fn field_arithmetic_wraps_around_the_order() {
    let minus_one = FieldElement::zero().sub(&FieldElement::one());
    assert_eq!(minus_one.add(&FieldElement::one()), FieldElement::zero());
    assert_eq!(minus_one.mul(&minus_one), FieldElement::one());
    assert_eq!(fe(3).neg().add(&fe(3)), FieldElement::zero());
    let inv = fe(2).inverse().unwrap();
    assert_eq!(inv.mul(&fe(2)), FieldElement::one());
    assert!(FieldElement::zero().inverse().is_none());
    assert!(fe(6).equals(&fe(2).mul(&fe(3))));
}

#[test]
fn squeeze_reduces_the_keccak_digest() {
    let mut transcript = Transcript::init();
    transcript.absorb(b"Hello, ");
    transcript.absorb(b"world!");
    let result = transcript.squeeze();

    let mut hasher = Keccak256::new();
    hasher.update(b"Hello, ");
    hasher.update(b"world!");
    let digest = hasher.finalize().to_vec();
    assert_eq!(result, FieldElement::from_le_bytes_mod_order(&digest));

    // The next challenge hashes the previous digest alone.
    let next = transcript.squeeze();
    let again = Keccak256::digest(&digest).to_vec();
    assert_eq!(next, FieldElement::from_le_bytes_mod_order(&again));
}

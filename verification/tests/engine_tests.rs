use ntru_rs::convolution_polynomial::ConvPoly;
use ntru_rs::errors::NtruError;
use ntru_rs::ntru_key::NtruKeyPair;
use ntru_rs::ntru_util::{deserialize, serialize};

#[test]
fn test_serialize_single_byte() {
    // 65 in base 3 is 2 + 1*9 + 2*27, written with the digit 2 as -1.
    let poly = serialize(vec![65]);
    assert_eq!(poly.coeffs, vec![-1, 0, 1, -1, 0]);
}

#[test]
fn test_serialize_deserialize_round_trip() {
    let msg = "Hello World".as_bytes().to_vec();
    let poly = serialize(msg.clone());
    assert_eq!(poly.coeffs.len(), 5 * msg.len());
    assert_eq!(deserialize(poly), msg);

    // The largest encodable byte and the empty message.
    let msg = vec![242u8, 1, 0, 127];
    assert_eq!(deserialize(serialize(msg.clone())), msg);
    let empty: Vec<u8> = Vec::new();
    assert_eq!(deserialize(serialize(empty.clone())), empty);
}

#[test]
fn test_encrypt_rejects_long_message() {
    let keypair = NtruKeyPair::new().unwrap();
    // 34 bytes need 170 coefficients, more than the ring holds.
    let msg = vec![65u8; 34];
    assert_eq!(keypair.encrypt(msg), Err(NtruError::InvalidInput));
    // 33 bytes still fit.
    let msg = vec![65u8; 33];
    assert!(keypair.encrypt(msg).is_ok());
}

#[test]
fn test_encrypt_decrypt_empty_message() {
    let keypair = NtruKeyPair::new().unwrap();
    let msg: Vec<u8> = Vec::new();
    let enc = keypair.encrypt(msg.clone()).unwrap();
    assert_eq!(keypair.decrypt(enc), msg);
}

#[test]
fn test_poly_inverse_none() {
    // 1 + x divides x^5 - 1 modulo 2, so it has no inverse there.
    let poly = ConvPoly { coeffs: vec![1, 1] };
    assert_eq!(poly.inverse(2, 5), Err(NtruError::NoInverse));
}

#[test]
fn test_poly_inverse_prime_power() {
    // Inversion modulo 8 = 2^3 goes through the lift from modulo 2.
    let poly = ConvPoly {
        coeffs: vec![1, 1, 0, 1],
    };
    let inv = poly.inverse(8, 5).unwrap();
    assert_eq!(inv.coeffs, vec![6, 5, 5, 5, 6]);
    let product = poly.mul(&inv, 5).modulo(8);
    assert_eq!(product, ConvPoly::constant(1));
}

#[test]
fn test_div_mod_by_zero() {
    let poly = ConvPoly {
        coeffs: vec![1, 2, 3],
    };
    let zero = ConvPoly::constant(0);
    assert_eq!(poly.div_mod(&zero, 5, 11), Err(NtruError::DivByZero));
    // A divisor that only vanishes after reduction fails the same way.
    let vanishing = ConvPoly { coeffs: vec![5, 10] };
    assert_eq!(poly.div_mod(&vanishing, 5, 11), Err(NtruError::DivByZero));
}

#[test]
fn test_extended_gcd_both_zero() {
    let zero = ConvPoly::constant(0);
    let also_zero = ConvPoly { coeffs: vec![0, 0] };
    assert_eq!(
        ConvPoly::extended_gcd(&zero, &also_zero, 5, 11),
        Err(NtruError::InvalidInput)
    );
}

#[test]
fn test_wire_round_trip() {
    // A full-length polynomial with coefficients across [0, Q).
    let mut coeffs: Vec<i64> = Vec::new();
    for i in 0..167u64 {
        coeffs.push(((i * 37 + 5) % 128) as i64);
    }
    let poly = ConvPoly { coeffs };
    let bytes = poly.to_be_bytes();
    assert_eq!(bytes.len(), 147);
    let parsed = ConvPoly::from_be_bytes(&bytes).unwrap();
    assert_eq!(poly, parsed);

    // A short polynomial is padded with zero coefficients on the wire.
    let poly = ConvPoly {
        coeffs: vec![1, 2, 3],
    };
    let bytes = poly.to_be_bytes();
    assert_eq!(bytes.len(), 147);
    let parsed = ConvPoly::from_be_bytes(&bytes).unwrap();
    assert_eq!(poly, parsed);
}

#[test]
fn test_wire_malformed() {
    let bytes = vec![0u8; 146];
    assert_eq!(
        ConvPoly::from_be_bytes(&bytes),
        Err(NtruError::Malformed)
    );
}

#[test]
fn test_keypair_halves() {
    let keypair = NtruKeyPair::new().unwrap();
    let enc = keypair
        .public()
        .encrypt("poqr".as_bytes().to_vec())
        .unwrap();
    let dec = keypair.private().decrypt_to_bytes(enc);
    assert_eq!(dec, "poqr".as_bytes().to_vec());
}

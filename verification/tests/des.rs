use einkvnc::des::{decrypt, encrypt};
use einkvnc::session::{password_des_key, reverse_bits};

#[test]
fn test_encrypt_decrypt() {
    let key = [0x13, 0x34, 0x57, 0x79, 0x9B, 0xBC, 0xDF, 0xF1];
    let message = [0x01, 0x23, 0x45, 0x67, 0x89, 0xAB, 0xCD, 0xEF];
    let expected_cipher = vec![0x85, 0xE8, 0x13, 0x54, 0x0F, 0x0A, 0xB4, 0x05];
    let cipher = encrypt(&message, &key);
    assert_eq!(cipher, expected_cipher);

    let cipher = expected_cipher;
    let expected_message = message;
    let message = decrypt(&cipher, &key);
    assert_eq!(message, expected_message);

    let message = [
        0x01, 0x23, 0x45, 0x67, 0x89, 0xAB, 0xCD, 0xEF, 0x01, 0x23, 0x45, 0x67, 0x89, 0xAB, 0xCD,
        0xEF,
    ];
    let expected_cipher = vec![
        0x85, 0xE8, 0x13, 0x54, 0x0F, 0x0A, 0xB4, 0x05, 0x85, 0xE8, 0x13, 0x54, 0x0F, 0x0A, 0xB4,
        0x05,
    ];
    let cipher = encrypt(&message, &key);
    assert_eq!(cipher, expected_cipher);

    let cipher = expected_cipher;
    let expected_message = message;
    let message = decrypt(&cipher, &key);
    assert_eq!(message, expected_message);
}

#[test]
fn reverse_bits_is_involutive() {
    for b in 0..=255u8 {
        assert_eq!(reverse_bits(reverse_bits(b)), b);
    }
    assert_eq!(reverse_bits(0b0000_0001), 0b1000_0000);
    assert_eq!(reverse_bits(0b1100_0000), 0b0000_0011);
}

#[test]
fn password_key_transform_is_involutive() {
    let key = [b'p', b'a', b's', b's', 0, 0, 0, 0];
    let transformed = password_des_key(&key);
    assert_ne!(transformed, key);
    assert_eq!(password_des_key(&transformed), key);
}

#[test]
fn short_message_is_zero_padded() {
    let key = [0x13, 0x34, 0x57, 0x79, 0x9B, 0xBC, 0xDF, 0xF1];
    let padded = [0x01, 0x23, 0x00, 0x00, 0x00, 0x00, 0x00, 0x00];
    assert_eq!(encrypt(&padded[..2], &key), encrypt(&padded, &key));
}

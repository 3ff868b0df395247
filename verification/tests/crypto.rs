use seacoller::aes128::{decrypt_aes128, encrypt_aes128, mix_columns};
use seacoller::encrypt_trails::{decrypt_basic, encrypt_basic, encrypt_basic_af};
use seacoller::encryption::{decrypt, encrypt, pad_key, try_decrypt, EncryptionService};

#[test]
fn test_inverse_shift_rows() {
    let mut matrix1: [[u8; 4]; 4] = [[0, 1, 2, 3], [0, 1, 2, 3], [0, 1, 2, 3], [0, 1, 2, 3]];
    let matrix2 = matrix1.clone();

    mix_columns(&mut matrix1, false);

    assert_eq!(matrix2, matrix1)
}

#[test]
fn test_aes128() {
    let text = "yellowbanana1234".as_bytes();
    let key: [u8; 16] = [
        0x2b, 0x7e, 0x15, 0x16, 0x28, 0xae, 0xd2, 0xa6, 0xab, 0xf7, 0x15, 0x88, 0x09, 0xcf, 0x4f,
        0x3c,
    ];

    let new_text = encrypt_aes128(&key, text);

    let new_text = decrypt_aes128(&key, &new_text);

    assert_eq!(new_text, text.to_owned())
}

#[test]
fn test_pad_key() {
    let key1 = "1111111111111111".to_string();

    let padded_key = pad_key(&key1);

    assert_eq!(key1.as_bytes(), &padded_key);

    let mut key2 = "1234".to_string();

    let padded_key = pad_key(&key2);

    key2.push_str("\0\0\0\0\0\0\0\0\0\0\0\0");

    assert_eq!(&padded_key, key2.as_bytes())
}

#[test]
fn test_encrypt() {
    let text = "aes is a pain in the ass to write".to_string();

    let key = "i hope cha cha 20 will be easier".to_string();

    let encrypted_text = encrypt(&key, text.clone());

    let decrypted_text = decrypt(&key, encrypted_text);

    assert_eq!(text, decrypted_text)
}

#[test]
fn test_basic_af_encryption() {
    let string = "hello world";
    let key = "oga boga";

    let encrypted = encrypt_basic_af(string, key);
    assert_ne!(encrypted, string);

    let decrypted = encrypt_basic_af(&encrypted, key);

    assert_eq!(decrypted, string)
}

#[test]
fn aes_known_answer_block() {
    // The standard AES-128 example: this key and plaintext give this ciphertext.
    let key: [u8; 16] = [
        0x2b, 0x7e, 0x15, 0x16, 0x28, 0xae, 0xd2, 0xa6, 0xab, 0xf7, 0x15, 0x88, 0x09, 0xcf, 0x4f,
        0x3c,
    ];
    let plain: [u8; 16] = [
        0x32, 0x43, 0xf6, 0xa8, 0x88, 0x5a, 0x30, 0x8d, 0x31, 0x31, 0x98, 0xa2, 0xe0, 0x37, 0x07,
        0x34,
    ];
    let expected: [u8; 16] = [
        0x39, 0x25, 0x84, 0x1d, 0x02, 0xdc, 0x09, 0xfb, 0xdc, 0x11, 0x85, 0x97, 0x19, 0x6a, 0x0b,
        0x32,
    ];
    let out = encrypt_aes128(&key, &plain);
    assert_eq!(out, expected.to_vec());
    assert_eq!(decrypt_aes128(&key, &out), plain.to_vec());
}

#[test]
fn aes_roundtrip_several_blocks() {
    let key: [u8; 16] = [7; 16];
    let text: Vec<u8> = (0..64u8).collect();
    let enc = encrypt_aes128(&key, &text);
    assert_eq!(enc.len(), 64);
    assert_ne!(enc, text);
    assert_eq!(decrypt_aes128(&key, &enc), text);
}

#[test]
fn aes_mix_columns_undone_by_inverse() {
    let mut state: [[u8; 4]; 4] = [[0xdb, 0xf2, 0x01, 0xc6], [0x13, 0x0a, 0x01, 0xc6], [0x53, 0x22, 0x01, 0xc6], [0x45, 0x5c, 0x01, 0xc6]];
    let original = state;
    mix_columns(&mut state, true);
    // The standard MixColumns example column db 13 53 45 becomes 8e 4d a1 bc.
    assert_eq!([state[0][0], state[1][0], state[2][0], state[3][0]], [0x8e, 0x4d, 0xa1, 0xbc]);
    mix_columns(&mut state, false);
    assert_eq!(state, original);
}

#[test]
fn encryption_pads_and_trims() {
    let key = "k".to_string();
    let text = "short".to_string();
    let enc = encrypt(&key, text.clone());
    assert_eq!(enc.len(), 16);
    assert_eq!(decrypt(&key, enc), "short");
    // Trailing white space of the text does not come back.
    let enc = encrypt(&key, "spaces   ".to_string());
    assert_eq!(decrypt(&key, enc), "spaces");
    let service = EncryptionService::new();
    let enc = service.encrypt("through the service".to_string(), &key);
    assert_eq!(service.decrypt(enc, &key), "through the service");
}

#[test]
fn pad_key_cuts_long_keys() {
    let key = "0123456789abcdefXYZ".to_string();
    assert_eq!(&pad_key(&key), b"0123456789abcdef");
}

#[test]
fn basic_shift_encryption_values() {
    // Rotating by 8 is rotating by 0: both directions are the plain xor.
    let e = encrypt_basic("hello", "k", 8);
    assert_eq!(encrypt_basic_af("hello", "k"), e);
    assert_eq!(decrypt_basic(&e, "k", 8), "hello");
    // Rotating left by one doubles each xored byte below 128.
    let e = encrypt_basic("\u{1}\u{2}", "\u{0}", 1);
    assert_eq!(e.as_bytes(), &[2u8, 4u8]);
    let d = decrypt_basic("\u{8}", "\u{0}", 2);
    assert_eq!(d.as_bytes(), &[2u8]);
    // The bits that leave on the left come back on the right.
    let e = encrypt_basic("\u{40}", "\u{0}", 2);
    assert_eq!(e.as_bytes(), &[1u8]);
    assert_eq!(decrypt_basic(&e, "\u{0}", 2), "\u{40}");
}

#[test]
fn test_basic_encryption() {
    let string = "hello world";
    let key = "oga boga";
    let random_num = 10;
    let encrypted = encrypt_basic(string, key, random_num);
    assert_ne!(encrypted, string);

    let decrypted = decrypt_basic(&encrypted, key, random_num);

    assert_eq!(decrypted, string)
}

#[test]
fn checked_decryption() {
    let key = "key".to_string();
    let e = encrypt(&key, "some text".to_string());
    assert_eq!(try_decrypt(&key, e), Some("some text".to_string()));
    assert_eq!(try_decrypt(&key, vec![1, 2, 3]), None);
}

use moontfhe_native::aead::{
    buffers_status, decrypt_impl, encrypt_impl, AEAD_AUTHENTICATION_FAILED, AEAD_NULL_POINTER,
    AEAD_OK,
};

#[test]
fn nist_zero_vector_and_wrong_tag() {
    let key = [0u8; 32];
    let nonce = [0u8; 12];
    let plaintext = [0u8; 16];
    let mut ciphertext = [0u8; 16];
    let mut tag = [0u8; 16];
    let status = encrypt_impl(&key, &nonce, &[], &plaintext, &mut ciphertext, &mut tag);
    assert_eq!(status, AEAD_OK);
    assert_eq!(
        ciphertext,
        [
            0xce, 0xa7, 0x40, 0x3d, 0x4d, 0x60, 0x6b, 0x6e, 0x07, 0x4e, 0xc5, 0xd3, 0xba, 0xf3,
            0x9d, 0x18,
        ]
    );
    assert_eq!(
        tag,
        [
            0xd0, 0xd1, 0xc8, 0xa7, 0x99, 0x99, 0x6b, 0xf0, 0x26, 0x5b, 0x98, 0xb5, 0xd4, 0x8a,
            0xb9, 0x19,
        ]
    );

    tag[0] ^= 1;
    let mut recovered = [0xAA; 16];
    let status = decrypt_impl(&key, &nonce, &[], &ciphertext, &tag, &mut recovered);
    assert_eq!(status, AEAD_AUTHENTICATION_FAILED);
    assert_eq!(recovered, [0; 16]);
}

#[test]
fn c_abi_rejects_missing_required_pointers() {
    // key, nonce and the destination are present; the plaintext is missing.
    let status = buffers_status(true, true, 0, false, false, true, true);
    assert_eq!(status, AEAD_NULL_POINTER);
}

#[test]
fn missing_buffers_are_each_reported() {
    assert_eq!(buffers_status(true, true, 0, false, true, true, true), AEAD_OK);
    assert_eq!(buffers_status(true, true, 5, true, true, true, true), AEAD_OK);
    assert_eq!(buffers_status(true, true, 5, false, true, true, true), AEAD_NULL_POINTER);
    assert_eq!(buffers_status(false, true, 0, true, true, true, true), AEAD_NULL_POINTER);
    assert_eq!(buffers_status(true, false, 0, true, true, true, true), AEAD_NULL_POINTER);
    assert_eq!(buffers_status(true, true, 0, true, true, false, true), AEAD_NULL_POINTER);
    assert_eq!(buffers_status(true, true, 0, true, true, true, false), AEAD_NULL_POINTER);
}

#[test]
fn encryption_round_trips_with_associated_data() {
    let key: Vec<u8> = (0..32u8).collect();
    let nonce: Vec<u8> = (100..112u8).collect();
    let aad = b"header";
    let plaintext = b"attack at dawn, bring the torus";
    let mut ciphertext = vec![0u8; plaintext.len()];
    let mut tag = [0u8; 16];
    assert_eq!(
        encrypt_impl(&key, &nonce, aad, plaintext, &mut ciphertext, &mut tag),
        AEAD_OK
    );
    assert_ne!(&ciphertext[..], &plaintext[..]);
    let mut recovered = vec![0u8; ciphertext.len()];
    assert_eq!(
        decrypt_impl(&key, &nonce, aad, &ciphertext, &tag, &mut recovered),
        AEAD_OK
    );
    assert_eq!(&recovered[..], &plaintext[..]);
}

#[test]
fn wrong_associated_data_fails_and_clears() {
    let key = [7u8; 32];
    let nonce = [9u8; 12];
    let plaintext = [1u8, 2, 3, 4, 5];
    let mut ciphertext = [0u8; 5];
    let mut tag = [0u8; 16];
    assert_eq!(
        encrypt_impl(&key, &nonce, b"one", &plaintext, &mut ciphertext, &mut tag),
        AEAD_OK
    );
    let mut recovered = [0x55u8; 5];
    assert_eq!(
        decrypt_impl(&key, &nonce, b"two", &ciphertext, &tag, &mut recovered),
        AEAD_AUTHENTICATION_FAILED
    );
    assert_eq!(recovered, [0u8; 5]);
}

#[test]
fn empty_plaintext_still_authenticates() {
    let key = [3u8; 32];
    let nonce = [4u8; 12];
    let mut ciphertext: [u8; 0] = [];
    let mut tag = [0u8; 16];
    assert_eq!(encrypt_impl(&key, &nonce, b"aad", &[], &mut ciphertext, &mut tag), AEAD_OK);
    let mut recovered: [u8; 0] = [];
    assert_eq!(decrypt_impl(&key, &nonce, b"aad", &[], &tag, &mut recovered), AEAD_OK);
    let mut bad_tag = tag;
    bad_tag[15] ^= 0x80;
    assert_eq!(
        decrypt_impl(&key, &nonce, b"aad", &[], &bad_tag, &mut recovered),
        AEAD_AUTHENTICATION_FAILED
    );
}

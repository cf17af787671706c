use ciphers::stream::CipherError;
use ciphers::stream::RC4;

#[test]
fn test_rc4_encrypt() {
    let key = b"Key";
    let mut rc4 = RC4::new(key);
    let mut data = b"Hello, World!".to_vec();
    rc4.encrypt(&mut data);

    assert_ne!(data, b"Hello, World!");
}

#[test]
fn test_rc4_decrypt() {
    let key = b"Key";
    let mut rc4 = RC4::new(key);
    let mut data = b"Hello, World!".to_vec();

    rc4.encrypt(&mut data);

    let mut rc4 = RC4::new(key);
    rc4.encrypt(&mut data);

    assert_eq!(data, b"Hello, World!");
}

#[test]
fn test_rc4_different_keys() {
    let key1 = b"Key1";
    let key2 = b"Key2";
    let mut rc4_1 = RC4::new(key1);
    let mut rc4_2 = RC4::new(key2);

    let mut data1 = b"Hello, World!".to_vec();
    let mut data2 = b"Hello, World!".to_vec();

    rc4_1.encrypt(&mut data1);
    rc4_2.encrypt(&mut data2);

    assert_ne!(data1, data2);
}

#[test]
fn test_rc4_long_message() {
    let key = b"LongKey";
    let mut rc4 = RC4::new(key);
    let mut data = b"This is a longer message to test RC4 encryption with more data".to_vec();
    let original_data = data.clone();

    rc4.encrypt(&mut data);
    assert_ne!(data, original_data);

    let mut rc4 = RC4::new(key);
    rc4.encrypt(&mut data);
    assert_eq!(data, original_data);
}

#[test]
fn test_rc4_empty_key_rejected() {
    assert!(matches!(RC4::try_new(b""), Err(CipherError::InvalidKey)));
}

#[test]
fn test_rc4_try_new_matches_new() {
    let mut from_try = match RC4::try_new(b"Key") {
        Ok(engine) => engine,
        Err(_) => panic!("a non-empty key must be accepted"),
    };
    let mut from_new = RC4::new(b"Key");
    let mut data1 = b"Hello, World!".to_vec();
    let mut data2 = b"Hello, World!".to_vec();
    from_try.encrypt(&mut data1);
    from_new.encrypt(&mut data2);
    assert_eq!(data1, data2);
}

#[test]
fn test_rc4_determinism() {
    // Two engines keyed independently from the same key produce the same
    // output on the same buffer.
    let mut rc4_1 = RC4::new(b"Key");
    let mut rc4_2 = RC4::new(b"Key");
    let mut data1 = b"Hello, World!".to_vec();
    let mut data2 = b"Hello, World!".to_vec();
    rc4_1.encrypt(&mut data1);
    rc4_2.encrypt(&mut data2);
    assert_eq!(data1, data2);
}

#[test]
fn test_rc4_known_keystream_vectors() {
    // Classic published RC4 test vectors.
    let mut rc4 = RC4::new(b"Key");
    let mut data = b"Plaintext".to_vec();
    rc4.encrypt(&mut data);
    assert_eq!(data, vec![0xBB, 0xF3, 0x16, 0xE8, 0xD9, 0x40, 0xAF, 0x0A, 0xD3]);

    let mut rc4 = RC4::new(b"Wiki");
    let mut data = b"pedia".to_vec();
    rc4.encrypt(&mut data);
    assert_eq!(data, vec![0x10, 0x21, 0xBF, 0x04, 0x20]);

    let mut rc4 = RC4::new(b"Secret");
    let mut data = b"Attack at dawn".to_vec();
    rc4.encrypt(&mut data);
    assert_eq!(
        data,
        vec![0x45, 0xA0, 0x1F, 0x64, 0x5F, 0xC3, 0x5B, 0x38, 0x35, 0x52, 0x54, 0x4B, 0x9B, 0xF5]
    );
}

#[test]
fn test_rc4_stream_continuity() {
    // One engine fed two buffers in turn produces the same bytes as a
    // fresh engine fed their concatenation.
    let mut split_engine = RC4::new(b"Key");
    let mut part1 = b"Hello, ".to_vec();
    let mut part2 = b"World!".to_vec();
    split_engine.encrypt(&mut part1);
    split_engine.encrypt(&mut part2);
    let mut joined: Vec<u8> = part1;
    joined.extend_from_slice(&part2);

    let mut whole_engine = RC4::new(b"Key");
    let mut whole = b"Hello, World!".to_vec();
    whole_engine.encrypt(&mut whole);

    assert_eq!(joined, whole);
}

#[test]
fn test_rc4_empty_buffer_is_noop() {
    // Transforming an empty buffer leaves the keystream untouched: the
    // next call sees the same bytes as a fresh engine's first call.
    let mut stepped = RC4::new(b"Key");
    let mut empty: Vec<u8> = Vec::new();
    stepped.encrypt(&mut empty);
    assert!(empty.is_empty());
    let mut data1 = b"Hello, World!".to_vec();
    stepped.encrypt(&mut data1);

    let mut fresh = RC4::new(b"Key");
    let mut data2 = b"Hello, World!".to_vec();
    fresh.encrypt(&mut data2);

    assert_eq!(data1, data2);
}

#[test]
fn test_rc4_reused_engine_does_not_decrypt() {
    // An engine already advanced by an encryption pass continues the
    // keystream: running the ciphertext through the same engine does not
    // restore the plaintext.
    let mut rc4 = RC4::new(b"Key");
    let mut data = b"Hello, World!".to_vec();
    rc4.encrypt(&mut data);
    rc4.encrypt(&mut data);
    assert_ne!(data, b"Hello, World!");
}

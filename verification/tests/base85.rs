use staticimp::base85::{decode, encode};

/// test base85 encoder/decoder
#[test]
fn test_base85() {
    let plaintext = b"Hello World";
    let b85 = encode(plaintext);
    assert_eq!(decode(&b85), plaintext);

    let plaintext = b"ABCDEFGH";
    let b85 = encode(plaintext);
    assert_eq!(decode(&b85), plaintext);

    let plaintext = b"ABCDEFGHI";
    let b85 = encode(plaintext);
    assert_eq!(decode(&b85), plaintext);

    let plaintext: &[u8] = &[0];
    let b85 = encode(plaintext);
    assert_eq!(decode(&b85), plaintext);

    let plaintext: &[u8] = &[0; 8];
    let b85 = encode(plaintext);
    assert_eq!(decode(&b85), plaintext);

    let plaintext: &[u8] = &[255; 8];
    let b85 = encode(plaintext);
    assert_eq!(decode(&b85), plaintext);

    let plaintext: &[u8] = &[1];
    let b85 = encode(plaintext);
    assert_eq!(decode(&b85), plaintext);

    let plaintext: &[u8] = &[1, 2];
    let b85 = encode(plaintext);
    assert_eq!(decode(&b85), plaintext);

    let plaintext: &[u8] = &[1, 2, 3];
    let b85 = encode(plaintext);
    assert_eq!(decode(&b85), plaintext);

    let plaintext: &[u8] = &[1, 2, 3, 4, 5, 6, 7];
    let b85 = encode(plaintext);
    assert_eq!(decode(&b85), plaintext);

    let plaintext: &[u8] = &[1, 2, 3, 4, 5, 6, 7, 8];
    let b85 = encode(plaintext);
    assert_eq!(decode(&b85), plaintext);

    let plaintext: &[u8] = &[1, 2, 3, 4, 5, 6, 7, 8, 9];
    let b85 = encode(plaintext);
    assert_eq!(decode(&b85), plaintext);
}

/// Encoding the empty sequence gives the empty string, and it round-trips.
#[test]
fn base85_empty() {
    let b85 = encode(&[]);
    assert_eq!(&b85, "");
    assert_eq!(decode(&b85), Vec::<u8>::new());
}

/// Group sizes: 8 bytes take 10 symbols, r trailing bytes take r+1 symbols
/// up to 4 bytes and r+2 from 5 bytes on.
#[test]
fn base85_lengths() {
    assert_eq!(encode(&[0; 8]).len(), 10);
    assert_eq!(encode(&[7; 1]).len(), 2);
    assert_eq!(encode(&[7; 4]).len(), 5);
    assert_eq!(encode(&[7; 5]).len(), 7);
    assert_eq!(encode(&[7; 7]).len(), 9);
    assert_eq!(encode(&[7; 12]).len(), 15);
}

/// The decoder ignores characters outside the alphabet, whitespace
/// included, and continues at the next valid symbol.
#[test]
fn base85_decode_ignores_other_characters() {
    let plaintext = b"Hello World";
    let b85 = encode(plaintext);
    let mut spaced = String::new();
    for c in b85.chars() {
        spaced.push(c);
        spaced.push(' ');
        spaced.push('\n');
    }
    assert_eq!(decode(&spaced), plaintext);
    assert_eq!(decode("\" \" ,,.. "), Vec::<u8>::new());
}

/// Long inputs spanning many groups round-trip too.
#[test]
fn base85_long_round_trip() {
    let mut data = Vec::new();
    let mut x: u8 = 7;
    for _ in 0..1000 {
        data.push(x);
        x = x.wrapping_mul(31).wrapping_add(17);
    }
    let b85 = encode(&data);
    assert_eq!(decode(&b85), data);
}

/// The encoder really rewrites its input: encoded text differs from the
/// input bytes read as text.
#[test]
fn base85_encode_is_not_identity() {
    let b85 = encode(b"hello");
    assert_ne!(b85.as_bytes(), b"hello");
    assert_eq!(decode(&b85), b"hello");
}

use bar::enc::{decrypt, decrypt_in_place, encrypt, encrypt_in_place};

const KEY: [u8; 16] = [0, 1, 2, 3, 4, 5, 6, 7, 8, 9, 10, 11, 12, 13, 14, 15];

const PLAIN: [u8; 16] =
    [0x00, 0x11, 0x22, 0x33, 0x44, 0x55, 0x66, 0x77, 0x88, 0x99, 0xaa, 0xbb, 0xcc, 0xdd, 0xee, 0xff];

// FIPS 197, appendix C.1
const CIPHER: [u8; 16] =
    [0x69, 0xc4, 0xe0, 0xd8, 0x6a, 0x7b, 0x04, 0x30, 0xd8, 0xcd, 0xb7, 0x80, 0x70, 0xb4, 0xc5, 0x5a];

#[test]
fn a_block_is_encrypted_as_the_standard_says() {
    let mut out = vec![0xeeu8];
    encrypt(&PLAIN, &mut out, &KEY).unwrap();
    assert_eq!(out[0], 0xee);
    assert_eq!(&out[1..], &CIPHER);
    let mut back = Vec::new();
    decrypt(&CIPHER, &mut back, &KEY).unwrap();
    assert_eq!(back, PLAIN.to_vec());
}

#[test]
fn the_bytes_after_the_last_whole_block_pass_through() {
    let mut data = PLAIN.to_vec();
    data.extend_from_slice(&PLAIN);
    data.extend_from_slice(b"tail of 15 byte");
    let mut out = Vec::new();
    encrypt(&data, &mut out, &KEY).unwrap();
    assert_eq!(out.len(), data.len());
    assert_eq!(&out[..16], &CIPHER);
    assert_eq!(&out[16..32], &CIPHER);
    assert_eq!(&out[32..], b"tail of 15 byte");
    let mut back = Vec::new();
    decrypt(&out, &mut back, &KEY).unwrap();
    assert_eq!(back, data);
}

#[test]
fn fewer_bytes_than_a_block_are_not_encrypted() {
    for len in 0..16 {
        let data = vec![0x5au8; len];
        let mut out = Vec::new();
        encrypt(&data, &mut out, &KEY).unwrap();
        assert_eq!(out, data);
        let mut out = Vec::new();
        decrypt(&data, &mut out, &KEY).unwrap();
        assert_eq!(out, data);
    }
}

#[test]
fn a_buffer_is_encrypted_in_place() {
    let data: Vec<u8> = (0..5000u32).map(|i| (i * 31) as u8).collect();
    let mut buffer = data.clone();
    encrypt_in_place(&mut buffer, &KEY).unwrap();
    assert_eq!(buffer.len(), data.len());
    assert_ne!(buffer[..4992], data[..4992]);
    assert_eq!(buffer[4992..], data[4992..]);
    let mut streamed = Vec::new();
    encrypt(&data, &mut streamed, &KEY).unwrap();
    assert_eq!(streamed, buffer);
    decrypt_in_place(&mut buffer, &KEY).unwrap();
    assert_eq!(buffer, data);
    let mut other = [0u8; 16];
    other[0] = 1;
    encrypt_in_place(&mut buffer, &KEY).unwrap();
    decrypt_in_place(&mut buffer, &other).unwrap();
    assert_ne!(buffer, data);
}

use transcode_core::cipher::{
    decrypt_chunk, decrypt_with_key, encrypt_chunk, encrypt_with_key, encrypt_xchacha20, fresh_key,
    last_chunk_index, CipherError, CHUNK_SIZE, ENCRYPTED_CHUNK_SIZE,
};

fn sample(len: usize) -> Vec<u8> {
    (0..len).map(|i| (i * 7 + i / 251) as u8).collect()
}

fn round_trip(len: usize, padding: usize) {
    let data = sample(len);
    let (key, ct) = encrypt_xchacha20(&data, padding);
    assert_eq!(key.len(), 32);
    let last = last_chunk_index(ct.len() as u64);
    let back = decrypt_with_key(&key, &ct, padding, last).expect("decrypts");
    assert_eq!(back, data);
}

#[test]
fn round_trip_empty_file() {
    round_trip(0, 0);
}

#[test]
fn round_trip_one_byte() {
    round_trip(1, 0);
    round_trip(1, 7);
}

#[test]
fn round_trip_one_byte_short_of_a_chunk() {
    round_trip(262143, 0);
}

#[test]
fn round_trip_exactly_one_chunk() {
    round_trip(262144, 0);
    round_trip(262144, 9);
}

#[test]
fn round_trip_one_byte_over_a_chunk() {
    round_trip(262145, 0);
    round_trip(262145, 100);
}

#[test]
fn round_trip_three_chunks_and_a_bit() {
    round_trip(3 * 262144 + 100, 0);
    round_trip(3 * 262144 + 100, 16);
}

#[test]
fn container_layout_sizes() {
    let key = vec![3u8; 32];
    let data = sample(262145);
    let ct = encrypt_with_key(&key, &data, 4);
    assert_eq!(ct.len(), ENCRYPTED_CHUNK_SIZE + 1 + 4 + 16);
    let ct0 = encrypt_with_key(&key, &[], 4);
    assert!(ct0.is_empty());
    let full = encrypt_with_key(&key, &sample(CHUNK_SIZE), 4);
    assert_eq!(full.len(), ENCRYPTED_CHUNK_SIZE);
}

#[test]
fn padding_bytes_come_from_the_previous_chunk() {
    let key = vec![5u8; 32];
    let mut a = sample(262144 + 10);
    let ct_a = encrypt_with_key(&key, &a, 3);
    a[12] ^= 0xff;
    let ct_b = encrypt_with_key(&key, &a, 3);
    assert_ne!(ct_a[ENCRYPTED_CHUNK_SIZE..], ct_b[ENCRYPTED_CHUNK_SIZE..]);
}

#[test]
fn tampering_any_chunk_fails_with_its_index() {
    let key = vec![9u8; 32];
    let data = sample(3 * 262144 + 100);
    let ct = encrypt_with_key(&key, &data, 0);
    let last = last_chunk_index(ct.len() as u64);
    for j in 0..4usize {
        for offset in [0usize, 17, 262159] {
            let pos = j * ENCRYPTED_CHUNK_SIZE + offset;
            if pos >= ct.len() {
                continue;
            }
            let mut bad = ct.clone();
            bad[pos] ^= 0x01;
            assert_eq!(decrypt_with_key(&key, &bad, 0, last), Err(CipherError::CipherAuthError(j as u32)));
        }
    }
    let mut bad = ct.clone();
    let n = bad.len();
    bad[n - 1] ^= 0x80;
    assert_eq!(decrypt_with_key(&key, &bad, 0, last), Err(CipherError::CipherAuthError(3)));
}

#[test]
fn wrong_key_fails_at_first_chunk() {
    let data = sample(1000);
    let ct = encrypt_with_key(&[1u8; 32], &data, 0);
    assert_eq!(
        decrypt_with_key(&[2u8; 32], &ct, 0, 0),
        Err(CipherError::CipherAuthError(0))
    );
}

#[test]
fn padding_longer_than_last_chunk_is_an_error() {
    let key = vec![4u8; 32];
    let ct = encrypt_with_key(&key, &sample(10), 0);
    assert_eq!(decrypt_with_key(&key, &ct, 11, 0), Err(CipherError::PaddingExceedsChunk(0)));
}

#[test]
fn last_chunk_index_is_floor_of_size() {
    assert_eq!(last_chunk_index(0), 0);
    assert_eq!(last_chunk_index(262159), 0);
    assert_eq!(last_chunk_index(262160), 1);
    assert_eq!(last_chunk_index(3 * 262160 + 116), 3);
}

#[test]
fn chunk_by_chunk_matches_whole_file() {
    let key = fresh_key();
    assert_eq!(key.len(), 32);
    let data = sample(2 * CHUNK_SIZE + 300);
    let padding = 5;
    let whole = encrypt_with_key(&key, &data, padding);
    let mut streamed = Vec::new();
    let mut previous: Vec<u8> = Vec::new();
    for (j, chunk) in data.chunks(CHUNK_SIZE).enumerate() {
        streamed.extend(encrypt_chunk(&key, j as u32, &previous, chunk, padding));
        previous = chunk.to_vec();
    }
    assert_eq!(streamed, whole);
    let last = last_chunk_index(whole.len() as u64);
    let mut plain = Vec::new();
    for (j, chunk) in whole.chunks(ENCRYPTED_CHUNK_SIZE).enumerate() {
        plain.extend(decrypt_chunk(&key, j as u32, chunk, padding, j as u32 == last).unwrap());
    }
    assert_eq!(plain, data);
    assert_eq!(decrypt_with_key(&key, &whole, padding, last), Ok(data));
    let mut bad = whole[ENCRYPTED_CHUNK_SIZE..2 * ENCRYPTED_CHUNK_SIZE].to_vec();
    bad[3] ^= 1;
    assert_eq!(decrypt_chunk(&key, 1, &bad, padding, false), Err(CipherError::CipherAuthError(1)));
}

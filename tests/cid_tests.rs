use transcode_core::cid::{
    create_encrypted_cid, decode_plain_cid, encrypted_cid_text, get_base64_url_encrypted_blob_hash,
    get_key_from_encrypted_cid, hash_bytes_to_cid, hash_to_cid, number_of_bytes, plain_cid_text, CidError,
};
use transcode_core::encoding::{base64url_to_bytes, bytes_to_base64url};

fn hash32() -> Vec<u8> {
    (0..32u8).map(|i| i.wrapping_mul(37).wrapping_add(1)).collect()
}

#[test]
fn size_zero_has_no_size_bytes() {
    let c = hash_bytes_to_cid(hash32(), 0);
    assert_eq!(c.len(), 34);
    assert_eq!(&c[..2], &[0x26, 0x1f]);
    assert_eq!(&c[2..], &hash32()[..]);
}

#[test]
fn size_256_is_two_bytes() {
    let c = hash_bytes_to_cid(hash32(), 256);
    assert_eq!(&c[34..], &[0x00, 0x01]);
}

#[test]
fn size_trailing_zeros_trimmed() {
    let c = hash_bytes_to_cid(hash32(), 0x0102_0000_0000);
    assert_eq!(&c[34..], &[0, 0, 0, 0, 2, 1]);
    let c = hash_bytes_to_cid(hash32(), u64::MAX);
    assert_eq!(&c[34..], &[0xff; 8]);
}

#[test]
fn hash_to_cid_takes_prefixed_hash() {
    let mut mh = vec![0x1f];
    mh.extend(hash32());
    let text = bytes_to_base64url(&mh);
    assert_eq!(hash_to_cid(&text, 300), Some(hash_bytes_to_cid(hash32(), 300)));
    assert_eq!(hash_to_cid("@@", 1), None);
}

#[test]
fn encrypted_cid_field_order() {
    let bh = vec![7u8; 33];
    let key = vec![8u8; 32];
    let inner = vec![0x26, 0x1f, 1, 2];
    let c = create_encrypted_cid(0xae, 0xa6, 18, bh.clone(), key.clone(), 0x01020304, inner.clone());
    assert_eq!(&c[..3], &[0xae, 0xa6, 18]);
    assert_eq!(&c[3..36], &bh[..]);
    assert_eq!(&c[36..68], &key[..]);
    assert_eq!(&c[68..72], &[1, 2, 3, 4]);
    assert_eq!(&c[72..], &inner[..]);
}

#[test]
fn key_and_blob_hash_round_trip() {
    let mut bh = vec![0x1f];
    bh.extend((0..32u8).map(|i| 255 - i));
    let key: Vec<u8> = (0..32u8).map(|i| i * 3).collect();
    let text = encrypted_cid_text(bh.clone(), key.clone(), 0, hash_bytes_to_cid(hash32(), 12345));
    assert!(text.starts_with('u'));
    assert_eq!(get_key_from_encrypted_cid(&text), Ok(bytes_to_base64url(&key)));
    assert_eq!(get_base64_url_encrypted_blob_hash(&text), Some(bytes_to_base64url(&bh)));
    let with_ext = format!("{}.mp4", text);
    assert_eq!(get_key_from_encrypted_cid(&with_ext), Ok(bytes_to_base64url(&key)));
    assert_eq!(base64url_to_bytes(&get_key_from_encrypted_cid(&text).unwrap()), Some(key));
}

#[test]
fn cid_decode_errors() {
    assert_eq!(get_key_from_encrypted_cid(""), Err(CidError::Malformed));
    assert_eq!(get_key_from_encrypted_cid("u*!"), Err(CidError::Malformed));
    let short = format!("u{}", bytes_to_base64url(&[1, 2, 3]));
    assert_eq!(get_key_from_encrypted_cid(&short), Err(CidError::Truncated));
    assert_eq!(get_base64_url_encrypted_blob_hash(&short), None);
}

#[test]
fn plain_cid_decodes_back() {
    let text = plain_cid_text(hash32(), 987654);
    let c = decode_plain_cid(&text).expect("decodes");
    assert_eq!(c.hash, hash32());
    assert_eq!(c.size, 987654);
    let zero = decode_plain_cid(&plain_cid_text(hash32(), 0)).unwrap();
    assert_eq!(zero.size, 0);
}

#[test]
fn plain_cid_decode_errors() {
    let mut wrong = vec![0x27, 0x1f];
    wrong.extend(hash32());
    assert_eq!(decode_plain_cid(&format!("u{}", bytes_to_base64url(&wrong))).err(), Some(CidError::WrongType));
    let mut trailing_zero = hash_bytes_to_cid(hash32(), 5);
    trailing_zero.push(0);
    assert_eq!(decode_plain_cid(&format!("u{}", bytes_to_base64url(&trailing_zero))).err(), Some(CidError::Malformed));
    assert_eq!(decode_plain_cid(&format!("u{}", bytes_to_base64url(&[0x26]))).err(), Some(CidError::Truncated));
}

#[test]
fn base64url_ignores_padding_characters() {
    assert_eq!(base64url_to_bytes("AQID"), Some(vec![1, 2, 3]));
    assert_eq!(base64url_to_bytes("AQ=="), Some(vec![1]));
    assert_eq!(base64url_to_bytes("-_8"), Some(vec![0xfb, 0xff]));
    assert_eq!(bytes_to_base64url(&[0xfb, 0xff]), "-_8");
    assert_eq!(base64url_to_bytes("A"), None);
}

#[test]
fn number_of_bytes_counts_base_256_digits() {
    assert_eq!(number_of_bytes(0), 1);
    assert_eq!(number_of_bytes(255), 1);
    assert_eq!(number_of_bytes(256), 2);
    assert_eq!(number_of_bytes(65536), 3);
    assert_eq!(number_of_bytes(u32::MAX), 4);
}

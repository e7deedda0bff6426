//! Content identifiers (CIDs): self-describing addresses of plain and
//! encrypted blobs, as bytes and as text (`u` followed by URL-safe base64).
use crate::encoding::{
    base64url_bytes, base64url_of, base64url_to_bytes, bytes_to_base64url, is_base64url_char,
    lemma_no_pad_chars, without_pad_chars,
};
use vstd::prelude::*;

verus! {

/// Type tag of a plain-blob CID.
pub const CID_TYPE_PLAIN: u8 = 0x26;

/// Multihash tag of a BLAKE3 hash.
pub const MHASH_BLAKE3: u8 = 0x1f;

/// Type tag of an encrypted-blob CID.
pub const CID_TYPE_ENCRYPTED: u8 = 0xae;

/// Tag of the XChaCha20-Poly1305 encryption algorithm.
pub const ENCRYPTION_XCHACHA20_POLY1305: u8 = 0xa6;

/// Chunk size of the encrypted container, as a power of two (2^18 = 262,144).
pub const CHUNK_SIZE_AS_POWER_OF_2: u8 = 18;

/// Where the encrypted blob hash starts inside an encrypted CID: after the
/// type, algorithm and chunk-size bytes.
pub const ENCRYPTED_BLOB_HASH_START: usize = 3;

/// Length of the encrypted blob hash (multihash tag and 32-byte hash).
pub const ENCRYPTED_BLOB_HASH_SIZE: usize = 33;

/// Length of the encryption key.
pub const KEY_SIZE: usize = 32;

/// Why a CID could not be decoded.
#[derive(Debug, Clone, Copy, PartialEq, Eq, Structural)]
pub enum CidError {
    /// The text is empty or not a base64url encoding.
    Malformed,
    /// The bytes are too short for the fixed-width fields of the CID.
    Truncated,
    /// A tag byte is not the one this kind of CID carries.
    WrongType,
}

/// Little-endian bytes of `n` with the trailing zero bytes left out
/// (nothing at all for zero).
pub open spec fn trimmed_le(n: nat) -> Seq<u8>
    decreases n,
{
    if n == 0 {
        Seq::empty()
    } else {
        seq![(n % 256) as u8] + trimmed_le(n / 256)
    }
}

/// The number whose little-endian bytes are `b`.
pub open spec fn le_value(b: Seq<u8>) -> nat
    decreases b.len(),
{
    if b.len() == 0 {
        0
    } else {
        b[0] as nat + 256 * le_value(b.drop_first())
    }
}

/// Bytes of a plain CID: type tag, BLAKE3 multihash tag, hash, trimmed size.
pub open spec fn plain_cid_spec(hash: Seq<u8>, size: nat) -> Seq<u8> {
    seq![CID_TYPE_PLAIN, MHASH_BLAKE3] + hash + trimmed_le(size)
}

/// Big-endian bytes of a 32-bit number.
pub open spec fn be32(p: u32) -> Seq<u8> {
    seq![
        (p / 0x1000000) as u8,
        ((p / 0x10000) % 256) as u8,
        ((p / 0x100) % 256) as u8,
        (p % 256) as u8,
    ]
}

/// Bytes of an encrypted CID, the fields in order.
pub open spec fn encrypted_cid_spec(
    cid_type: u8,
    algorithm: u8,
    chunk_size_pow2: u8,
    blob_hash: Seq<u8>,
    key: Seq<u8>,
    padding: u32,
    inner_cid: Seq<u8>,
) -> Seq<u8> {
    seq![cid_type, algorithm, chunk_size_pow2] + blob_hash + key + be32(padding) + inner_cid
}

/// Appends to `out` the little-endian bytes of `n` without trailing zeros.
fn push_trimmed_le(out: &mut Vec<u8>, n: u64)
    ensures
        final(out)@ == old(out)@ + trimmed_le(n as nat),
{
    let mut v: u64 = n;
    while v > 0
        invariant
            out@ + trimmed_le(v as nat) == old(out)@ + trimmed_le(n as nat),
        decreases v,
    {
        let b = (v % 256) as u8;
        proof {
            assert(trimmed_le(v as nat) == seq![b] + trimmed_le((v / 256) as nat));
            assert(out@.push(b) + trimmed_le((v / 256) as nat) =~= out@ + trimmed_le(v as nat));
        }
        out.push(b);
        v = v / 256;
    }
    proof {
        assert(out@ + trimmed_le(0) =~= out@);
    }
}

/// Appends all of `src` to `out`.
fn push_all(out: &mut Vec<u8>, src: &[u8])
    ensures
        final(out)@ == old(out)@ + src@,
{
    let mut i: usize = 0;
    while i < src.len()
        invariant
            i <= src@.len(),
            out@ == old(out)@ + src@.subrange(0, i as int),
        decreases src@.len() - i,
    {
        proof {
            assert(src@.subrange(0, i + 1) =~= src@.subrange(0, i as int).push(src@[i as int]));
        }
        out.push(src[i]);
        i = i + 1;
    }
    proof {
        assert(src@.subrange(0, i as int) =~= src@);
    }
}

/// Plain CID bytes of a blob with BLAKE3 hash `hash` and `file_size` bytes:
/// the plain type tag, the BLAKE3 multihash tag, the hash, and the size in
/// little-endian with trailing zero bytes left out.
pub fn hash_bytes_to_cid(hash: Vec<u8>, file_size: u64) -> (r: Vec<u8>)
    ensures
        r@ == plain_cid_spec(hash@, file_size as nat),
{
    let mut bytes: Vec<u8> = Vec::new();
    bytes.push(CID_TYPE_PLAIN);
    bytes.push(MHASH_BLAKE3);
    push_all(&mut bytes, hash.as_slice());
    push_trimmed_le(&mut bytes, file_size);
    proof {
        assert(bytes@ =~= plain_cid_spec(hash@, file_size as nat));
    }
    bytes
}

/// Plain CID bytes from a multihash given as URL-safe base64 text (the
/// multihash already carries its tag byte): the plain type tag, the decoded
/// multihash, and the trimmed little-endian size. `None` where `hash` is not
/// base64url.
pub fn hash_to_cid(hash: &str, file_size: u64) -> (r: Option<Vec<u8>>)
    ensures
        match base64url_bytes(without_pad_chars(hash@)) {
            Some(mh) => r matches Some(c) && c@ == seq![CID_TYPE_PLAIN] + mh + trimmed_le(file_size as nat),
            None => r is None,
        },
{
    match base64url_to_bytes(hash) {
        Some(mh) => {
            let mut bytes: Vec<u8> = Vec::new();
            bytes.push(CID_TYPE_PLAIN);
            push_all(&mut bytes, mh.as_slice());
            push_trimmed_le(&mut bytes, file_size);
            proof {
                assert(bytes@ =~= seq![CID_TYPE_PLAIN] + mh@ + trimmed_le(file_size as nat));
            }
            Some(bytes)
        },
        None => None,
    }
}

/// Encrypted CID bytes: type, algorithm and chunk-size bytes, the encrypted
/// blob hash, the key, the padding in big-endian, then the inner plain CID.
pub fn create_encrypted_cid(
    cid_type_encrypted: u8,
    encryption_algorithm: u8,
    chunk_size_as_power_of_2: u8,
    encrypted_blob_hash: Vec<u8>,
    encryption_key: Vec<u8>,
    padding: u32,
    plain_cid: Vec<u8>,
) -> (r: Vec<u8>)
    ensures
        r@ == encrypted_cid_spec(
            cid_type_encrypted,
            encryption_algorithm,
            chunk_size_as_power_of_2,
            encrypted_blob_hash@,
            encryption_key@,
            padding,
            plain_cid@,
        ),
{
    let mut result: Vec<u8> = Vec::new();
    result.push(cid_type_encrypted);
    result.push(encryption_algorithm);
    result.push(chunk_size_as_power_of_2);
    push_all(&mut result, encrypted_blob_hash.as_slice());
    push_all(&mut result, encryption_key.as_slice());
    result.push((padding / 0x1000000) as u8);
    result.push(((padding / 0x10000) % 256) as u8);
    result.push(((padding / 0x100) % 256) as u8);
    result.push((padding % 256) as u8);
    push_all(&mut result, plain_cid.as_slice());
    proof {
        assert(result@ =~= encrypted_cid_spec(
            cid_type_encrypted,
            encryption_algorithm,
            chunk_size_as_power_of_2,
            encrypted_blob_hash@,
            encryption_key@,
            padding,
            plain_cid@,
        ));
    }
    result
}

/// Index of the last `.` in `s`, if there is one.
pub open spec fn last_dot(s: Seq<char>) -> Option<int>
    decreases s.len(),
{
    if s.len() == 0 {
        None
    } else if s.last() == '.' {
        Some(s.len() - 1)
    } else {
        last_dot(s.drop_last())
    }
}

proof fn lemma_last_dot_in_range(s: Seq<char>)
    ensures
        last_dot(s) matches Some(i) ==> 0 <= i < s.len() && s[i] == '.',
    decreases s.len(),
{
    if s.len() > 0 && s.last() != '.' {
        lemma_last_dot_in_range(s.drop_last());
    }
}

proof fn lemma_no_dot(s: Seq<char>)
    requires
        forall|i: int| 0 <= i < s.len() ==> s[i] != '.',
    ensures
        last_dot(s) is None,
    decreases s.len(),
{
    if s.len() > 0 {
        assert(s[s.len() - 1] != '.');
        lemma_no_dot(s.drop_last());
    }
}

/// `s` without a textual extension: what stands before its last `.`.
pub open spec fn without_extension(s: Seq<char>) -> Seq<char> {
    match last_dot(s) {
        Some(i) => s.subrange(0, i),
        None => s,
    }
}

/// The bytes carried by a CID text: the extension is left out, then the
/// one-character version prefix, and the rest is decoded from base64url.
pub open spec fn cid_text_bytes(s: Seq<char>) -> Result<Seq<u8>, CidError> {
    let t = without_extension(s);
    if t.len() == 0 {
        Err(CidError::Malformed)
    } else {
        match base64url_bytes(without_pad_chars(t.drop_first())) {
            Some(b) => Ok(b),
            None => Err(CidError::Malformed),
        }
    }
}

/// The bytes `b[start, start + len)`, if `b` is long enough.
pub open spec fn field_of(b: Result<Seq<u8>, CidError>, start: int, len: int) -> Result<Seq<u8>, CidError> {
    match b {
        Ok(b) => if b.len() < start + len {
            Err(CidError::Truncated)
        } else {
            Ok(b.subrange(start, start + len))
        },
        Err(e) => Err(e),
    }
}

/// Key field of an encrypted CID text, as bytes.
pub open spec fn cid_key_spec(s: Seq<char>) -> Result<Seq<u8>, CidError> {
    field_of(cid_text_bytes(s), (ENCRYPTED_BLOB_HASH_START + ENCRYPTED_BLOB_HASH_SIZE) as int, KEY_SIZE as int)
}

/// Encrypted blob hash field of an encrypted CID text, as bytes.
pub open spec fn cid_blob_hash_spec(s: Seq<char>) -> Result<Seq<u8>, CidError> {
    field_of(cid_text_bytes(s), ENCRYPTED_BLOB_HASH_START as int, ENCRYPTED_BLOB_HASH_SIZE as int)
}

/// Index of the last `.` of `s`.
fn find_last_dot(s: &str) -> (r: Option<usize>)
    ensures
        match last_dot(s@) {
            Some(i) => r matches Some(j) && j as int == i,
            None => r is None,
        },
{
    let n = s.unicode_len();
    let mut i: usize = n;
    proof {
        assert(s@.subrange(0, n as int) =~= s@);
    }
    while i > 0
        invariant
            i <= n == s@.len(),
            last_dot(s@) == last_dot(s@.subrange(0, i as int)),
        decreases i,
    {
        let c = s.get_char(i - 1);
        proof {
            assert(s@.subrange(0, i as int).drop_last() =~= s@.subrange(0, i - 1));
        }
        if c == '.' {
            return Some(i - 1);
        }
        i = i - 1;
    }
    None
}

/// The bytes carried by a CID text (see `cid_text_bytes`).
fn decode_cid_text(s: &str) -> (r: Result<Vec<u8>, CidError>)
    ensures
        match cid_text_bytes(s@) {
            Ok(b) => r matches Ok(v) && v@ == b,
            Err(e) => r == Err::<Vec<u8>, CidError>(e),
        },
{
    let end = match find_last_dot(s) {
        Some(i) => i,
        None => s.unicode_len(),
    };
    proof {
        lemma_last_dot_in_range(s@);
        if last_dot(s@) is None {
            assert(s@.subrange(0, s@.len() as int) =~= s@);
        }
        match last_dot(s@) {
            Some(i) => {
                assert(end as int == i);
            },
            None => {
                assert(end as int == s@.len());
            },
        }
        assert(without_extension(s@) =~= s@.subrange(0, end as int));
    }
    if end == 0 {
        return Err(CidError::Malformed);
    }
    let body = s.substring_char(1, end);
    proof {
        assert(body@ =~= s@.subrange(0, end as int).drop_first());
    }
    match base64url_to_bytes(body) {
        Some(b) => Ok(b),
        None => Err(CidError::Malformed),
    }
}

/// Copies `b[start, start + len)`, or `Truncated` where `b` is too short.
fn take_field(b: &Vec<u8>, start: usize, len: usize) -> (r: Result<Vec<u8>, CidError>)
    requires
        start + len <= usize::MAX,
    ensures
        match field_of(Ok(b@), start as int, len as int) {
            Ok(f) => r matches Ok(v) && v@ == f,
            Err(e) => r == Err::<Vec<u8>, CidError>(e),
        },
{
    if b.len() < start + len {
        return Err(CidError::Truncated);
    }
    let mut out: Vec<u8> = Vec::new();
    let mut i: usize = start;
    let end = start + len;
    while i < end
        invariant
            end == start + len,
            start <= i <= end <= b@.len(),
            out@ == b@.subrange(start as int, i as int),
        decreases end - i,
    {
        proof {
            assert(b@.subrange(start as int, i + 1) =~= b@.subrange(start as int, i as int).push(b@[i as int]));
        }
        out.push(b[i]);
        i = i + 1;
    }
    Ok(out)
}

/// The encryption key that an encrypted CID text carries, as URL-safe
/// base64 text. An extension after a `.` and the version prefix are
/// left out before decoding.
pub fn get_key_from_encrypted_cid(encrypted_cid: &str) -> (r: Result<String, CidError>)
    ensures
        match cid_key_spec(encrypted_cid@) {
            Ok(k) => r matches Ok(t) && t@ == base64url_of(k),
            Err(e) => r == Err::<String, CidError>(e),
        },
{
    let bytes = decode_cid_text(encrypted_cid)?;
    let key = take_field(&bytes, ENCRYPTED_BLOB_HASH_START + ENCRYPTED_BLOB_HASH_SIZE, KEY_SIZE)?;
    Ok(bytes_to_base64url(key.as_slice()))
}

/// The encrypted blob hash (multihash tag and hash) that an encrypted CID
/// text carries, as URL-safe base64 text. `None` where the CID cannot be
/// decoded or is too short.
pub fn get_base64_url_encrypted_blob_hash(encrypted_cid: &str) -> (r: Option<String>)
    ensures
        match cid_blob_hash_spec(encrypted_cid@) {
            Ok(h) => r matches Some(t) && t@ == base64url_of(h),
            Err(_) => r is None,
        },
{
    match decode_cid_text(encrypted_cid) {
        Ok(bytes) => match take_field(&bytes, ENCRYPTED_BLOB_HASH_START, ENCRYPTED_BLOB_HASH_SIZE) {
            Ok(h) => Some(bytes_to_base64url(h.as_slice())),
            Err(_) => None,
        },
        Err(_) => None,
    }
}

/// What a text CID made of `bytes` carries: the CID text is `u` followed
/// by the URL-safe base64 of `bytes`.
proof fn lemma_cid_text_bytes(t: Seq<char>, bytes: Seq<u8>)
    requires
        t == seq!['u'] + base64url_of(bytes),
        forall|i: int| 0 <= i < base64url_of(bytes).len() ==> is_base64url_char(#[trigger] base64url_of(bytes)[i]),
        forall|d: Seq<u8>| #[trigger] base64url_of(d) == base64url_of(bytes) ==> d == bytes,
    ensures
        cid_text_bytes(t) == Ok::<Seq<u8>, CidError>(bytes),
{
    let b = base64url_of(bytes);
    assert forall|i: int| 0 <= i < t.len() implies t[i] != '.' by {
        if i > 0 {
            assert(t[i] == b[i - 1]);
            assert(is_base64url_char(b[i - 1]));
        }
    }
    lemma_no_dot(t);
    assert(without_extension(t) == t);
    assert(t.drop_first() =~= b);
    lemma_no_pad_chars(b);
    assert(base64url_of(bytes) == b);
    let d = choose|d: Seq<u8>| base64url_of(d) == b;
    assert(d == bytes);
}

/// The text form of an encrypted CID: `u` followed by the URL-safe base64
/// of its bytes. Decoding the text gives back the key and the encrypted blob
/// hash where these have their fixed lengths.
pub fn encrypted_cid_text(
    encrypted_blob_hash: Vec<u8>,
    encryption_key: Vec<u8>,
    padding: u32,
    plain_cid: Vec<u8>,
) -> (r: String)
    ensures
        r@ == seq!['u'] + base64url_of(encrypted_cid_spec(
            CID_TYPE_ENCRYPTED,
            ENCRYPTION_XCHACHA20_POLY1305,
            CHUNK_SIZE_AS_POWER_OF_2,
            encrypted_blob_hash@,
            encryption_key@,
            padding,
            plain_cid@,
        )),
        encrypted_blob_hash@.len() == ENCRYPTED_BLOB_HASH_SIZE && encryption_key@.len() == KEY_SIZE ==> {
            &&& cid_key_spec(r@) == Ok::<Seq<u8>, CidError>(encryption_key@)
            &&& cid_blob_hash_spec(r@) == Ok::<Seq<u8>, CidError>(encrypted_blob_hash@)
        },
{
    let ghost h = encrypted_blob_hash@;
    let ghost k = encryption_key@;
    let ghost pc = plain_cid@;
    let bytes = create_encrypted_cid(
        CID_TYPE_ENCRYPTED,
        ENCRYPTION_XCHACHA20_POLY1305,
        CHUNK_SIZE_AS_POWER_OF_2,
        encrypted_blob_hash,
        encryption_key,
        padding,
        plain_cid,
    );
    let text = bytes_to_base64url(bytes.as_slice());
    let mut r = String::from_str("u");
    r.append(text.as_str());
    proof {
        reveal_strlit("u");
        lemma_cid_text_bytes(r@, bytes@);
        if h.len() == 33 && k.len() == 32 {
            lemma_encrypted_cid_fields(
                CID_TYPE_ENCRYPTED,
                ENCRYPTION_XCHACHA20_POLY1305,
                CHUNK_SIZE_AS_POWER_OF_2,
                h,
                k,
                padding,
                pc,
            );
        }
    }
    r
}

/// The fixed-width fields of an encrypted CID stand where the decoder
/// looks for them: the encrypted blob hash at `[3, 36)`, the key at
/// `[36, 68)`, whatever the other fields hold.
pub proof fn lemma_encrypted_cid_fields(
    cid_type: u8,
    algorithm: u8,
    chunk_size_pow2: u8,
    blob_hash: Seq<u8>,
    key: Seq<u8>,
    padding: u32,
    inner_cid: Seq<u8>,
)
    requires
        blob_hash.len() == ENCRYPTED_BLOB_HASH_SIZE,
        key.len() == KEY_SIZE,
    ensures
        ({
            let b = encrypted_cid_spec(cid_type, algorithm, chunk_size_pow2, blob_hash, key, padding, inner_cid);
            &&& b.len() >= 72
            &&& b.subrange(ENCRYPTED_BLOB_HASH_START as int, 36) == blob_hash
            &&& b.subrange(36, 68) == key
            &&& field_of(Ok(b), 36, KEY_SIZE as int) == Ok::<Seq<u8>, CidError>(key)
            &&& field_of(Ok(b), ENCRYPTED_BLOB_HASH_START as int, ENCRYPTED_BLOB_HASH_SIZE as int)
                == Ok::<Seq<u8>, CidError>(blob_hash)
        }),
{
    let b = encrypted_cid_spec(cid_type, algorithm, chunk_size_pow2, blob_hash, key, padding, inner_cid);
    assert(b.subrange(3, 36) =~= blob_hash);
    assert(b.subrange(36, 68) =~= key);
}

/// A decoded plain CID: the 32-byte BLAKE3 hash and the blob's size.
pub struct PlainCid {
    pub hash: Vec<u8>,
    pub size: u64,
}

/// What a plain CID's bytes hold: the plain type tag and the BLAKE3 tag,
/// 32 hash bytes, then at most 8 size bytes in little-endian whose last one
/// is not zero.
pub open spec fn plain_cid_fields(b: Seq<u8>) -> Result<(Seq<u8>, nat), CidError> {
    if b.len() < 34 {
        Err(CidError::Truncated)
    } else if b[0] != CID_TYPE_PLAIN || b[1] != MHASH_BLAKE3 {
        Err(CidError::WrongType)
    } else {
        let s = b.subrange(34, b.len() as int);
        if s.len() > 8 || (s.len() > 0 && s.last() == 0) {
            Err(CidError::Malformed)
        } else {
            Ok((b.subrange(2, 34), le_value(s)))
        }
    }
}

/// What a plain CID text holds.
pub open spec fn plain_cid_text_fields(t: Seq<char>) -> Result<(Seq<u8>, nat), CidError> {
    match cid_text_bytes(t) {
        Ok(b) => plain_cid_fields(b),
        Err(e) => Err(e),
    }
}

proof fn lemma_le_value_of_trimmed(n: nat)
    ensures
        le_value(trimmed_le(n)) == n,
        trimmed_le(n).len() > 0 ==> trimmed_le(n).last() != 0,
    decreases n,
{
    if n > 0 {
        lemma_le_value_of_trimmed(n / 256);
        let t = trimmed_le(n);
        assert(t.drop_first() =~= trimmed_le(n / 256));
        if n / 256 == 0 {
            assert(t.last() == (n % 256) as u8);
        } else {
            assert(t.last() == trimmed_le(n / 256).last());
        }
    }
}

proof fn lemma_trimmed_len(n: nat, k: nat)
    requires
        n < pow256(k),
    ensures
        trimmed_le(n).len() <= k,
    decreases k,
{
    if n > 0 && k > 0 {
        assert(n / 256 < pow256((k - 1) as nat));
        lemma_trimmed_len(n / 256, (k - 1) as nat);
    }
}

/// 256 to the power `k`.
pub open spec fn pow256(k: nat) -> nat
    decreases k,
{
    if k == 0 {
        1
    } else {
        256 * pow256((k - 1) as nat)
    }
}

/// The value of at most 8 little-endian bytes.
fn le_bytes_value(b: &[u8], from: usize) -> (r: u64)
    requires
        from <= b@.len(),
        b@.len() - from <= 8,
    ensures
        r as nat == le_value(b@.subrange(from as int, b@.len() as int)),
{
    let mut v: u64 = 0;
    let mut i: usize = b.len();
    proof {
        assert(b@.subrange(i as int, b@.len() as int) =~= Seq::<u8>::empty());
    }
    while i > from
        invariant
            from <= i <= b@.len(),
            b@.len() - from <= 8,
            v as nat == le_value(b@.subrange(i as int, b@.len() as int)),
            v < pow256((b@.len() - i) as nat),
        decreases i - from,
    {
        proof {
            assert(b@.subrange(i - 1, b@.len() as int).drop_first() =~= b@.subrange(i as int, b@.len() as int));
            reveal_with_fuel(pow256, 9);
            assert(pow256(8) == 0x1_0000_0000_0000_0000);
            lemma_pow256_mono((b@.len() - i) as nat, 7);
            assert(v < 0x100_0000_0000_0000);
        }
        v = b[i - 1] as u64 + 256 * v;
        i = i - 1;
    }
    v
}

proof fn lemma_pow256_mono(a: nat, b: nat)
    requires
        a <= b,
    ensures
        pow256(a) <= pow256(b),
    decreases b,
{
    if a < b {
        lemma_pow256_mono(a, (b - 1) as nat);
    }
    if b == 7 {
        reveal_with_fuel(pow256, 8);
        assert(pow256(7) == 0x100_0000_0000_0000);
    }
}

/// Reads the fields of plain CID bytes (see `plain_cid_fields`).
pub fn parse_plain_cid(b: &[u8]) -> (r: Result<PlainCid, CidError>)
    ensures
        match plain_cid_fields(b@) {
            Ok((h, n)) => r matches Ok(c) && c.hash@ == h && c.size as nat == n,
            Err(e) => r matches Err(x) && x == e,
        },
{
    if b.len() < 34 {
        return Err(CidError::Truncated);
    }
    if b[0] != CID_TYPE_PLAIN || b[1] != MHASH_BLAKE3 {
        return Err(CidError::WrongType);
    }
    if b.len() - 34 > 8 || (b.len() > 34 && b[b.len() - 1] == 0) {
        return Err(CidError::Malformed);
    }
    let mut hash: Vec<u8> = Vec::new();
    push_all(&mut hash, slice_range(b, 2, 34).as_slice());
    let size = le_bytes_value(b, 34);
    Ok(PlainCid { hash, size })
}

/// Bytes `b[from, to)`.
fn slice_range(b: &[u8], from: usize, to: usize) -> (r: Vec<u8>)
    requires
        from <= to <= b@.len(),
    ensures
        r@ == b@.subrange(from as int, to as int),
{
    let mut out: Vec<u8> = Vec::new();
    let mut i: usize = from;
    while i < to
        invariant
            from <= i <= to <= b@.len(),
            out@ == b@.subrange(from as int, i as int),
        decreases to - i,
    {
        proof {
            assert(b@.subrange(from as int, i + 1) =~= b@.subrange(from as int, i as int).push(b@[i as int]));
        }
        out.push(b[i]);
        i = i + 1;
    }
    out
}

/// Decodes a plain CID text: `u`, URL-safe base64 of the CID bytes, and
/// optionally an extension after a `.`.
pub fn decode_plain_cid(cid: &str) -> (r: Result<PlainCid, CidError>)
    ensures
        match plain_cid_text_fields(cid@) {
            Ok((h, n)) => r matches Ok(c) && c.hash@ == h && c.size as nat == n,
            Err(e) => r matches Err(x) && x == e,
        },
{
    let bytes = decode_cid_text(cid)?;
    parse_plain_cid(bytes.as_slice())
}

/// The text form of the plain CID of a blob with BLAKE3 hash `hash` and
/// `file_size` bytes: `u` followed by the URL-safe base64 of its bytes.
/// Decoding it gives back the hash and the size.
pub fn plain_cid_text(hash: Vec<u8>, file_size: u64) -> (r: String)
    ensures
        r@ == seq!['u'] + base64url_of(plain_cid_spec(hash@, file_size as nat)),
        hash@.len() == 32 ==> plain_cid_text_fields(r@) == Ok::<(Seq<u8>, nat), CidError>((hash@, file_size as nat)),
{
    let ghost h = hash@;
    let bytes = hash_bytes_to_cid(hash, file_size);
    let text = bytes_to_base64url(bytes.as_slice());
    let mut r = String::from_str("u");
    r.append(text.as_str());
    proof {
        reveal_strlit("u");
        lemma_cid_text_bytes(r@, bytes@);
        if h.len() == 32 {
            lemma_plain_cid_fields(h, file_size);
        }
    }
    r
}

/// Decoding the bytes of a plain CID gives back its hash and size.
pub proof fn lemma_plain_cid_fields(hash: Seq<u8>, size: u64)
    requires
        hash.len() == 32,
    ensures
        plain_cid_fields(plain_cid_spec(hash, size as nat)) == Ok::<(Seq<u8>, nat), CidError>((hash, size as nat)),
{
    let b = plain_cid_spec(hash, size as nat);
    let t = trimmed_le(size as nat);
    lemma_le_value_of_trimmed(size as nat);
    reveal_with_fuel(pow256, 9);
            assert(pow256(8) == 0x1_0000_0000_0000_0000);
    lemma_trimmed_len(size as nat, 8);
    assert(b.subrange(34, b.len() as int) =~= t);
    assert(b.subrange(2, 34) =~= hash);
}

/// Number of bytes that `v` needs: one, and one more for each factor of
/// 256 that it reaches.
pub open spec fn byte_count(v: nat) -> nat
    decreases v,
{
    if v < 256 {
        1
    } else {
        1 + byte_count(v / 256)
    }
}

/// Number of bytes needed to hold `value` (at least one).
pub fn number_of_bytes(value: u32) -> (r: usize)
    ensures
        r as nat == byte_count(value as nat),
{
    let mut v: u32 = value;
    let mut bytes: usize = 1;
    proof {
        assert(pow256(0) == 1);
        assert(v as nat * pow256(0) == value as nat);
    }
    while v >= 256
        invariant
            bytes as nat + byte_count(v as nat) == 1 + byte_count(value as nat),
            1 <= bytes <= 4,
            v as nat * pow256((bytes - 1) as nat) <= value as nat,
        decreases v,
    {
        proof {
            lemma_pow256_bytes(bytes as nat, v as nat, value as nat);
        }
        v = v / 256;
        bytes = bytes + 1;
    }
    bytes
}

proof fn lemma_pow256_bytes(bytes: nat, v: nat, value: nat)
    requires
        1 <= bytes <= 4,
        v >= 256,
        v * pow256((bytes - 1) as nat) <= value,
        value < 0x1_0000_0000,
    ensures
        bytes < 4,
        (v / 256) * pow256(bytes) <= value,
{
    reveal_with_fuel(pow256, 5);
    let p = pow256((bytes - 1) as nat);
    assert(pow256(bytes) == 256 * p);
    assert((v / 256) * (256 * p) <= v * p) by (nonlinear_arith)
        requires v >= 256, p >= 1;
    if bytes == 4 {
        assert(pow256(3) == 0x100_0000);
        assert(v * 0x100_0000 >= 0x1_0000_0000) by (nonlinear_arith)
            requires v >= 256;
    }
}

} // verus!

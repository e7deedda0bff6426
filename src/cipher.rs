//! The encrypted container: a file encrypted with XChaCha20-Poly1305 as a
//! sequence of chunks, each with its own nonce and authentication tag.
//!
//! Chunk `j` of the plaintext (262,144 bytes, the last one shorter) is sealed
//! under the nonce made of the 4-byte little-endian `j` and 20 zero bytes.
//! When the last chunk is short, `padding` more bytes are sealed with it: the
//! bytes that stood at those offsets in the previous full chunk (zeros when
//! there is none), as a reader that reuses one buffer leaves them. This keeps
//! the ciphertexts byte-for-byte compatible with existing containers; the
//! padding is authenticated and dropped again on decryption.
use chacha20poly1305::aead::generic_array::GenericArray;
use chacha20poly1305::aead::{Aead, KeyInit, OsRng};
use chacha20poly1305::{XChaCha20Poly1305, XNonce};
use vstd::prelude::*;

verus! {

/// A fresh random 32-byte key, for encrypting a file chunk by chunk.
pub fn fresh_key() -> (r: Vec<u8>)
    ensures
        r@.len() == 32,
{
    generate_key()
}

/// Plaintext bytes per chunk.
pub const CHUNK_SIZE: usize = 262144;

/// Bytes of the authentication tag added to each chunk.
pub const TAG_SIZE: usize = 16;

/// Ciphertext bytes per full chunk.
pub const ENCRYPTED_CHUNK_SIZE: usize = 262160;

/// Why decryption failed.
#[derive(Debug, Clone, Copy, PartialEq, Eq, Structural)]
pub enum CipherError {
    /// The authentication tag of this chunk did not verify.
    CipherAuthError(u32),
    /// The last chunk is shorter than the padding that is to be removed from it.
    PaddingExceedsChunk(u32),
}

/// What XChaCha20-Poly1305 makes of `plaintext` under `key` and `nonce`
/// (the ciphertext followed by the tag).
pub uninterp spec fn sealed_of(key: Seq<u8>, nonce: Seq<u8>, plaintext: Seq<u8>) -> Seq<u8>;

/// Relies on `XChaCha20Poly1305::generate_key` with the operating system's
/// random source: a fresh 32-byte key.
#[verifier::external_body]
fn generate_key() -> (r: Vec<u8>)
    ensures
        r@.len() == 32,
{
    XChaCha20Poly1305::generate_key(&mut OsRng).to_vec()
}

/// Relies on `XChaCha20Poly1305::encrypt` (aead 0.5): it fails only on
/// messages of 2^38 bytes or more, and appends a 16-byte tag.
#[verifier::external_body]
fn seal_chunk(key: &[u8], nonce: &[u8], plaintext: &[u8]) -> (r: Vec<u8>)
    requires
        key@.len() == 32,
        nonce@.len() == 24,
        plaintext@.len() <= CHUNK_SIZE,
    ensures
        r@ == sealed_of(key@, nonce@, plaintext@),
        r@.len() == plaintext@.len() + TAG_SIZE,
{
    let cipher = XChaCha20Poly1305::new(GenericArray::from_slice(key));
    cipher.encrypt(XNonce::from_slice(nonce), plaintext).unwrap_or_default()
}

/// Relies on `XChaCha20Poly1305::decrypt`: it succeeds exactly on the
/// ciphertexts that `encrypt` produces under the same key and nonce, and
/// then gives back the one plaintext that was sealed.
#[verifier::external_body]
fn open_chunk(key: &[u8], nonce: &[u8], ciphertext: &[u8]) -> (r: Option<Vec<u8>>)
    requires
        key@.len() == 32,
        nonce@.len() == 24,
    ensures
        r matches Some(p) ==> sealed_of(key@, nonce@, p@) == ciphertext@,
        r is Some <== exists|p: Seq<u8>| #[trigger] sealed_of(key@, nonce@, p) == ciphertext@,
        r matches Some(p) ==> forall|q: Seq<u8>| #[trigger] sealed_of(key@, nonce@, q) == ciphertext@ ==> q == p@,
{
    let cipher = XChaCha20Poly1305::new(GenericArray::from_slice(key));
    cipher.decrypt(XNonce::from_slice(nonce), ciphertext).ok()
}

/// Nonce of chunk `j`: `j` in 4 little-endian bytes, then 20 zero bytes.
pub open spec fn nonce_spec(j: nat) -> Seq<u8> {
    seq![(j % 256) as u8, ((j / 256) % 256) as u8, ((j / 65536) % 256) as u8, ((j / 16777216) % 256) as u8]
        + Seq::new(20, |i: int| 0u8)
}

/// Number of full plaintext chunks in `n` bytes.
pub open spec fn full_chunks(n: nat) -> nat {
    n / (CHUNK_SIZE as nat)
}

/// Bytes of the short last chunk of `n` bytes (zero when there is none).
pub open spec fn rest_len(n: nat) -> nat {
    n % (CHUNK_SIZE as nat)
}

/// Number of plaintext chunks in `n` bytes.
pub open spec fn plain_chunk_count(n: nat) -> nat {
    full_chunks(n) + if rest_len(n) > 0 { 1nat } else { 0nat }
}

/// The padding bytes sealed after a short last chunk: those of the previous
/// full chunk at the same offsets, or zeros where there is no full chunk.
pub open spec fn stale_padding(f: Seq<u8>, padding: nat) -> Seq<u8> {
    let full = full_chunks(f.len());
    let rest = rest_len(f.len());
    if full > 0 {
        f.subrange((full - 1) * CHUNK_SIZE + rest, (full - 1) * CHUNK_SIZE + rest + padding)
    } else {
        Seq::new(padding, |i: int| 0u8)
    }
}

/// The plaintext sealed as chunk `j` of `f`.
pub open spec fn plain_chunk(f: Seq<u8>, padding: nat, j: nat) -> Seq<u8> {
    let full = full_chunks(f.len());
    if j < full {
        f.subrange(j * CHUNK_SIZE, j * CHUNK_SIZE + CHUNK_SIZE)
    } else {
        f.subrange(full * CHUNK_SIZE, f.len() as int) + stale_padding(f, padding)
    }
}

/// Length of the encryption of `n` bytes.
pub open spec fn encrypted_len(n: nat, padding: nat) -> nat {
    (full_chunks(n) * ENCRYPTED_CHUNK_SIZE + if rest_len(n) > 0 {
        rest_len(n) + padding + TAG_SIZE
    } else {
        0
    }) as nat
}

/// Chunk `j` of a ciphertext: `ENCRYPTED_CHUNK_SIZE` bytes, the last one shorter.
pub open spec fn cipher_chunk(ct: Seq<u8>, j: nat) -> Seq<u8> {
    let start = j * ENCRYPTED_CHUNK_SIZE;
    let end = start + ENCRYPTED_CHUNK_SIZE;
    ct.subrange(start as int, if end <= ct.len() { end as int } else { ct.len() as int })
}

/// Number of ciphertext chunks in `n` bytes.
pub open spec fn cipher_chunk_count(n: nat) -> nat {
    (n + ENCRYPTED_CHUNK_SIZE - 1) as nat / (ENCRYPTED_CHUNK_SIZE as nat)
}

/// The padding fits in the short last chunk (there is room for it in the
/// chunk buffer).
pub open spec fn padding_fits(n: nat, padding: nat) -> bool {
    rest_len(n) == 0 || rest_len(n) + padding <= CHUNK_SIZE
}

/// `ct` is the encryption of `f` under `key` with `padding`: chunk `j` of
/// `ct` is the sealing of chunk `j` of `f` under the nonce of `j`.
pub open spec fn is_encryption_of(key: Seq<u8>, f: Seq<u8>, padding: nat, ct: Seq<u8>) -> bool {
    &&& ct.len() == encrypted_len(f.len(), padding)
    &&& forall|j: nat| j < plain_chunk_count(f.len()) ==>
        #[trigger] cipher_chunk(ct, j) == sealed_of(key, nonce_spec(j), plain_chunk(f, padding, j))
}

/// The one plaintext that seals to `c` under `key` and `nonce`, if any.
pub open spec fn opened(key: Seq<u8>, nonce: Seq<u8>, c: Seq<u8>) -> Option<Seq<u8>> {
    if exists|p: Seq<u8>| sealed_of(key, nonce, p) == c {
        Some(choose|p: Seq<u8>| sealed_of(key, nonce, p) == c)
    } else {
        None
    }
}

/// Decryption of the first `m` chunks of `ct`: each chunk is opened in
/// order; the first that does not authenticate ends it; from chunk `last`
/// the last `padding` bytes are dropped.
pub open spec fn decrypted_upto(
    key: Seq<u8>,
    ct: Seq<u8>,
    padding: nat,
    last: nat,
    m: nat,
) -> Result<Seq<u8>, CipherError>
    decreases m,
{
    if m == 0 {
        Ok(Seq::empty())
    } else {
        let j = (m - 1) as nat;
        match decrypted_upto(key, ct, padding, last, j) {
            Err(e) => Err(e),
            Ok(out) => match chunk_decrypted(key, j, cipher_chunk(ct, j), padding, j == last) {
                Err(e) => Err(e),
                Ok(p) => Ok(out + p),
            },
        }
    }
}

/// Decryption of one ciphertext chunk `c` with index `j`: it must open
/// under the nonce of `j`; from the last chunk the last `padding` bytes of
/// the plaintext are dropped.
pub open spec fn chunk_decrypted(key: Seq<u8>, j: nat, c: Seq<u8>, padding: nat, is_last: bool) -> Result<Seq<u8>, CipherError> {
    match opened(key, nonce_spec(j), c) {
        None => Err(CipherError::CipherAuthError(j as u32)),
        Some(p) => if is_last {
            if p.len() < padding {
                Err(CipherError::PaddingExceedsChunk(j as u32))
            } else {
                Ok(p.subrange(0, p.len() - padding))
            }
        } else {
            Ok(p)
        },
    }
}

/// Decryption of the whole of `ct`.
pub open spec fn decrypted(key: Seq<u8>, ct: Seq<u8>, padding: nat, last: nat) -> Result<Seq<u8>, CipherError> {
    decrypted_upto(key, ct, padding, last, cipher_chunk_count(ct.len()))
}

/// Nonce of chunk `j`.
fn chunk_nonce(j: u32) -> (r: Vec<u8>)
    ensures
        r@ == nonce_spec(j as nat),
{
    let mut n: Vec<u8> = Vec::new();
    n.push((j % 256) as u8);
    n.push(((j / 256) % 256) as u8);
    n.push(((j / 65536) % 256) as u8);
    n.push(((j / 16777216) % 256) as u8);
    let mut i: usize = 0;
    while i < 20
        invariant
            i <= 20,
            n@.len() == 4 + i,
            forall|k: int| 4 <= k < n@.len() ==> n@[k] == 0u8,
            n@.subrange(0, 4) == nonce_spec(j as nat).subrange(0, 4),
        decreases 20 - i,
    {
        proof {
            assert(n@.push(0u8).subrange(0, 4) =~= n@.subrange(0, 4));
        }
        n.push(0u8);
        i = i + 1;
    }
    proof {
        let sp = nonce_spec(j as nat);
        assert forall|k: int| 0 <= k < 24 implies n@[k] == sp[k] by {
            if k < 4 {
                assert(n@.subrange(0, 4)[k] == n@[k]);
                assert(sp.subrange(0, 4)[k] == sp[k]);
            }
        }
        assert(n@ =~= sp);
    }
    n
}

/// Appends `src[from, to)` to `out`.
fn push_range(out: &mut Vec<u8>, src: &[u8], from: usize, to: usize)
    requires
        from <= to <= src@.len(),
    ensures
        final(out)@ == old(out)@ + src@.subrange(from as int, to as int),
{
    let mut i: usize = from;
    while i < to
        invariant
            from <= i <= to <= src@.len(),
            out@ == old(out)@ + src@.subrange(from as int, i as int),
        decreases to - i,
    {
        proof {
            assert(src@.subrange(from as int, i + 1) =~= src@.subrange(from as int, i as int).push(src@[i as int]));
        }
        out.push(src[i]);
        i = i + 1;
    }
}

/// Plaintext of chunk `j` of `f`.
fn make_plain_chunk(f: &[u8], padding: usize, j: usize) -> (r: Vec<u8>)
    requires
        j < plain_chunk_count(f@.len()),
        padding_fits(f@.len(), padding as nat),
    ensures
        r@ == plain_chunk(f@, padding as nat, j as nat),
        r@.len() <= CHUNK_SIZE,
{
    let n = f.len();
    let full = n / CHUNK_SIZE;
    let rest = n % CHUNK_SIZE;
    let mut out: Vec<u8> = Vec::new();
    if j < full {
        push_range(&mut out, f, j * CHUNK_SIZE, j * CHUNK_SIZE + CHUNK_SIZE);
        proof {
            assert(out@ =~= plain_chunk(f@, padding as nat, j as nat));
        }
    } else {
        push_range(&mut out, f, full * CHUNK_SIZE, n);
        let ghost head = out@;
        if full > 0 {
            let s = (full - 1) * CHUNK_SIZE + rest;
            push_range(&mut out, f, s, s + padding);
        } else {
            let mut i: usize = 0;
            while i < padding
                invariant
                    i <= padding,
                    out@ == head + Seq::new(i as nat, |k: int| 0u8),
                decreases padding - i,
            {
                proof {
                    assert(head + Seq::new((i + 1) as nat, |k: int| 0u8) =~= out@.push(0u8));
                }
                out.push(0u8);
                i = i + 1;
            }
        }
        proof {
            assert(out@ =~= plain_chunk(f@, padding as nat, j as nat));
        }
    }
    out
}

/// Encrypts `plaintext` under `key` as the chunked container, with
/// `padding` bytes sealed after a short last chunk.
pub fn encrypt_with_key(key: &[u8], plaintext: &[u8], padding: usize) -> (r: Vec<u8>)
    requires
        key@.len() == 32,
        padding_fits(plaintext@.len(), padding as nat),
        plain_chunk_count(plaintext@.len()) <= 0x1_0000_0000,
        encrypted_len(plaintext@.len(), padding as nat) <= usize::MAX,
    ensures
        is_encryption_of(key@, plaintext@, padding as nat, r@),
{
    let n = plaintext.len();
    let count = n / CHUNK_SIZE + if n % CHUNK_SIZE > 0 { 1 } else { 0 };
    let mut out: Vec<u8> = Vec::new();
    let mut j: usize = 0;
    while j < count
        invariant
            count == plain_chunk_count(n as nat),
            n == plaintext@.len(),
            key@.len() == 32,
            padding_fits(n as nat, padding as nat),
            count <= 0x1_0000_0000,
            encrypted_len(n as nat, padding as nat) <= usize::MAX,
            j <= count,
            j < count || j == 0,
            out@.len() == j * ENCRYPTED_CHUNK_SIZE,
            forall|i: nat| i < j ==> #[trigger] cipher_chunk(out@, i) == sealed_of(
                key@,
                nonce_spec(i),
                plain_chunk(plaintext@, padding as nat, i),
            ),
        decreases count - j,
    {
        let pt = make_plain_chunk(plaintext, padding, j);
        let nonce = chunk_nonce(j as u32);
        let sealed = seal_chunk(key, nonce.as_slice(), pt.as_slice());
        let ghost before = out@;
        proof {
            if j + 1 < count {
                assert(j < n / CHUNK_SIZE);
                assert(pt@.len() == CHUNK_SIZE);
            }
            assert(encrypted_len(n as nat, padding as nat) >= j * ENCRYPTED_CHUNK_SIZE + sealed@.len());
        }
        push_range(&mut out, sealed.as_slice(), 0, sealed.len());
        proof {
            assert(sealed@.subrange(0, sealed@.len() as int) =~= sealed@);
            assert forall|i: nat| i < j + 1 implies #[trigger] cipher_chunk(out@, i) == sealed_of(
                key@,
                nonce_spec(i),
                plain_chunk(plaintext@, padding as nat, i),
            ) by {
                if i < j {
                    assert(cipher_chunk(out@, i) =~= cipher_chunk(before, i));
                } else {
                    assert(cipher_chunk(out@, i) =~= sealed@);
                }
            }
            if j + 1 < count {
                assert(out@.len() == (j + 1) * ENCRYPTED_CHUNK_SIZE);
            }
        }
        if j + 1 == count {
            j = j + 1;
            proof {
                assert(out@.len() == encrypted_len(n as nat, padding as nat));
            }
            return out;
        }
        j = j + 1;
    }
    proof {
        assert(n == 0);
    }
    out
}

/// Encrypts `plaintext` under a fresh random key; gives back the key and
/// the container.
pub fn encrypt_xchacha20(plaintext: &[u8], padding: usize) -> (r: (Vec<u8>, Vec<u8>))
    requires
        padding_fits(plaintext@.len(), padding as nat),
        plain_chunk_count(plaintext@.len()) <= 0x1_0000_0000,
        encrypted_len(plaintext@.len(), padding as nat) <= usize::MAX,
    ensures
        r.0@.len() == 32,
        is_encryption_of(r.0@, plaintext@, padding as nat, r.1@),
{
    let key = generate_key();
    let ct = encrypt_with_key(key.as_slice(), plaintext, padding);
    (key, ct)
}

/// The padding leaves the short last chunk shorter than a full one, so that
/// the last chunk's index is found from the container's length.
pub open spec fn padding_keeps_last_short(n: nat, padding: nat) -> bool {
    rest_len(n) == 0 || rest_len(n) + padding < CHUNK_SIZE
}

/// Index of the last chunk of a container of `encrypted_size` bytes, the one
/// from which the padding is removed: `floor(encrypted_size / 262160)`.
pub fn last_chunk_index(encrypted_size: u64) -> (r: u32)
    requires
        encrypted_size / (ENCRYPTED_CHUNK_SIZE as u64) <= u32::MAX,
    ensures
        r as nat == encrypted_size as nat / ENCRYPTED_CHUNK_SIZE as nat,
{
    (encrypted_size / (ENCRYPTED_CHUNK_SIZE as u64)) as u32
}

/// Chunk counts and the last index agree between a plaintext and its
/// encryption.
proof fn lemma_encryption_shape(n: nat, padding: nat, ct_len: nat)
    requires
        ct_len == encrypted_len(n, padding),
        padding_keeps_last_short(n, padding),
    ensures
        cipher_chunk_count(ct_len) == plain_chunk_count(n),
        ct_len / (ENCRYPTED_CHUNK_SIZE as nat) == full_chunks(n),
{
    let full = full_chunks(n);
    let x: int = if rest_len(n) > 0 { rest_len(n) + padding + TAG_SIZE } else { 0 };
    assert(0 <= x < ENCRYPTED_CHUNK_SIZE);
    assert(ct_len == full * 262160 + x);
    assert((full * 262160 + x) / 262160 == full) by (nonlinear_arith)
        requires 0 <= x < 262160, full >= 0;
    if x > 0 {
        assert((full * 262160 + x + 262159) / 262160 == full + 1) by (nonlinear_arith)
            requires 0 < x < 262160, full >= 0;
    } else {
        assert((full * 262160 + 262159) / 262160 == full) by (nonlinear_arith)
            requires full >= 0;
    }
}

/// Whether `f` is what `ct` decrypts back to: `ct` is its encryption with a
/// padding that keeps the last chunk short, and `last` is the index that the
/// container's length gives.
pub open spec fn decrypts_back_to(key: Seq<u8>, ct: Seq<u8>, padding: nat, last: nat, f: Seq<u8>) -> bool {
    &&& is_encryption_of(key, f, padding, ct)
    &&& padding_keeps_last_short(f.len(), padding)
    &&& last == ct.len() / (ENCRYPTED_CHUNK_SIZE as nat)
}

/// Decrypts the container `ciphertext` under `key`. Chunks are opened in
/// order; the first whose tag does not verify fails the whole call with its
/// index, and no plaintext is given back. From chunk `last_chunk_index` the
/// last `padding` plaintext bytes are dropped. Decrypting the encryption of
/// `f` with the same padding and the index that its length gives yields `f`.
pub fn decrypt_with_key(key: &[u8], ciphertext: &[u8], padding: usize, last_chunk_index: u32) -> (r: Result<Vec<u8>, CipherError>)
    requires
        key@.len() == 32,
        cipher_chunk_count(ciphertext@.len()) <= 0x1_0000_0000,
    ensures
        match decrypted(key@, ciphertext@, padding as nat, last_chunk_index as nat) {
            Ok(p) => r matches Ok(v) && v@ == p,
            Err(e) => r == Err::<Vec<u8>, CipherError>(e),
        },
        forall|f: Seq<u8>| #[trigger] decrypts_back_to(key@, ciphertext@, padding as nat, last_chunk_index as nat, f)
            ==> (r matches Ok(v) && v@ == f),
{
    let len = ciphertext.len();
    let ghost count = cipher_chunk_count(len as nat);
    let ghost k = key@;
    let ghost ct = ciphertext@;
    let ghost pd = padding as nat;
    let ghost last = last_chunk_index as nat;
    let mut out: Vec<u8> = Vec::new();
    let mut pos: usize = 0;
    let mut j: usize = 0;
    while pos < len
        invariant
            len == ct.len(),
            ct == ciphertext@,
            pd == padding as nat,
            last == last_chunk_index as nat,
            k == key@,
            key@.len() == 32,
            count == cipher_chunk_count(len as nat),
            count <= 0x1_0000_0000,
            pos < len ==> pos == j * ENCRYPTED_CHUNK_SIZE,
            pos <= len,
            j <= count,
            pos < len ==> j < count,
            pos >= len ==> j == count,
            decrypted_upto(k, ct, pd, last, j as nat) == Ok::<Seq<u8>, CipherError>(out@),
            forall|f: Seq<u8>| #[trigger] decrypts_back_to(k, ct, pd, last, f) ==> out@ == f.subrange(
                0,
                if j * CHUNK_SIZE <= f.len() { j * CHUNK_SIZE } else { f.len() as int },
            ),
        decreases len - pos,
    {
        let end = if len - pos > ENCRYPTED_CHUNK_SIZE { pos + ENCRYPTED_CHUNK_SIZE } else { len };
        let mut chunk: Vec<u8> = Vec::new();
        push_range(&mut chunk, ciphertext, pos, end);
        let nonce = chunk_nonce(j as u32);
        let opened_chunk = open_chunk(key, nonce.as_slice(), chunk.as_slice());
        proof {
            assert(chunk@ =~= cipher_chunk(ct, j as nat));
        }
        let ghost prev = out@;
        match opened_chunk {
            None => {
                proof {
                    assert(opened(k, nonce_spec(j as nat), cipher_chunk(ct, j as nat)) is None);
                    assert(decrypted_upto(k, ct, pd, last, (j + 1) as nat) == Err::<Seq<u8>, CipherError>(CipherError::CipherAuthError(j as u32)));
                    lemma_decrypted_err_stays(k, ct, pd, last, (j + 1) as nat, count);
                    assert forall|f: Seq<u8>| #[trigger] decrypts_back_to(k, ct, pd, last, f) implies false by {
                        lemma_chunk_of_encryption(k, ct, pd, f, j as nat);
                    }
                }
                return Err(CipherError::CipherAuthError(j as u32));
            },
            Some(p) => {
                proof {
                    let c = cipher_chunk(ct, j as nat);
                    let q = choose|q: Seq<u8>| sealed_of(k, nonce_spec(j as nat), q) == c;
                    assert(sealed_of(k, nonce_spec(j as nat), p@) == c);
                    assert(q == p@);
                    assert(opened(k, nonce_spec(j as nat), c) == Some(p@));
                }
                if j as u32 == last_chunk_index {
                    if p.len() < padding {
                        proof {
                            assert(decrypted_upto(k, ct, pd, last, (j + 1) as nat) == Err::<Seq<u8>, CipherError>(CipherError::PaddingExceedsChunk(j as u32)));
                            lemma_decrypted_err_stays(k, ct, pd, last, (j + 1) as nat, count);
                            assert forall|f: Seq<u8>| #[trigger] decrypts_back_to(k, ct, pd, last, f) implies false by {
                                lemma_chunk_of_encryption(k, ct, pd, f, j as nat);
                            }
                        }
                        return Err(CipherError::PaddingExceedsChunk(j as u32));
                    }
                    let keep = p.len() - padding;
                    push_range(&mut out, p.as_slice(), 0, keep);
                } else {
                    push_range(&mut out, p.as_slice(), 0, p.len());
                    proof {
                        assert(p@.subrange(0, p@.len() as int) =~= p@);
                    }
                }
                proof {
                    assert(decrypted_upto(k, ct, pd, last, (j + 1) as nat) == Ok::<Seq<u8>, CipherError>(out@));
                    assert forall|f: Seq<u8>| #[trigger] decrypts_back_to(k, ct, pd, last, f) implies out@ == f.subrange(
                        0,
                        if (j + 1) * CHUNK_SIZE <= f.len() { (j + 1) * CHUNK_SIZE } else { f.len() as int },
                    ) by {
                        lemma_chunk_of_encryption(k, ct, pd, f, j as nat);
                        let n = f.len();
                        let full = full_chunks(n);
                        assert(p@ == plain_chunk(f, pd, j as nat));
                        if j < full {
                            assert(j as nat != last);
                            assert(out@ =~= f.subrange(0, (j + 1) * CHUNK_SIZE));
                        } else {
                            assert(j as nat == full);
                            assert(j as nat == last);
                            assert(out@ =~= f.subrange(0, n as int));
                        }
                    }
                }
            },
        }
        let ghost old_pos = pos;
        let ghost old_j = j;
        pos = end;
        j = j + 1;
        proof {
            assert(old_pos == old_j * 262160);
            if pos < len {
                assert(pos == j * 262160);
                assert(j < count) by (nonlinear_arith)
                    requires pos == j * 262160, pos < len, count == (len + 262159) / 262160;
            } else {
                assert(j == count) by (nonlinear_arith)
                    requires pos == len, old_pos == old_j * 262160, old_pos < len, len <= old_pos + 262160,
                        j == old_j + 1, count == (len + 262159) / 262160;
            }
        }
    }
    proof {
        assert forall|f: Seq<u8>| #[trigger] decrypts_back_to(k, ct, pd, last, f) implies out@ == f by {
            lemma_encryption_shape(f.len(), pd, ct.len());
            assert(j * CHUNK_SIZE >= f.len()) by (nonlinear_arith)
                requires j == full_chunks(f.len()) + (if rest_len(f.len()) > 0 { 1int } else { 0int }),
                    full_chunks(f.len()) == f.len() / 262144, rest_len(f.len()) == f.len() % 262144;
            assert(f.subrange(0, f.len() as int) =~= f);
        }
    }
    Ok(out)
}

/// Once decryption has failed at some chunk, it fails there whatever follows.
proof fn lemma_decrypted_err_stays(key: Seq<u8>, ct: Seq<u8>, padding: nat, last: nat, m: nat, total: nat)
    requires
        m <= total,
        decrypted_upto(key, ct, padding, last, m) is Err,
    ensures
        decrypted_upto(key, ct, padding, last, total) == decrypted_upto(key, ct, padding, last, m),
    decreases total - m,
{
    if m < total {
        lemma_decrypted_err_stays(key, ct, padding, last, m + 1, total);
    }
}

/// In the encryption of `f`, chunk `j` (one of the container's chunks) is
/// the sealing of chunk `j` of `f`, which has the length the layout gives.
proof fn lemma_chunk_of_encryption(key: Seq<u8>, ct: Seq<u8>, padding: nat, f: Seq<u8>, j: nat)
    requires
        decrypts_back_to(key, ct, padding, ct.len() / (ENCRYPTED_CHUNK_SIZE as nat), f),
        j < cipher_chunk_count(ct.len()),
    ensures
        j < plain_chunk_count(f.len()),
        cipher_chunk(ct, j) == sealed_of(key, nonce_spec(j), plain_chunk(f, padding, j)),
        ct.len() / (ENCRYPTED_CHUNK_SIZE as nat) == full_chunks(f.len()),
        j >= full_chunks(f.len()) ==> rest_len(f.len()) > 0,
        plain_chunk(f, padding, j).len() == if j < full_chunks(f.len()) {
            CHUNK_SIZE as nat
        } else {
            rest_len(f.len()) + padding
        },
{
    lemma_encryption_shape(f.len(), padding, ct.len());
    let n = f.len();
    let full = full_chunks(n);
    assert(n == full * 262144 + rest_len(n));
    if j < full {
        assert(j * 262144 + 262144 <= n) by (nonlinear_arith)
            requires j < full, n == full * 262144 + rest_len(n), rest_len(n) >= 0;
    } else {
        if full > 0 {
            assert((full - 1) * 262144 + rest_len(n) + padding <= n) by (nonlinear_arith)
                requires full > 0, n == full * 262144 + rest_len(n), rest_len(n) + padding < 262144;
        }
    }
}

/// Decrypts one chunk of a container as it is read: chunk `index`, the last
/// one when `is_last` (from which the last `padding` bytes are dropped).
/// Decrypting the chunks in order and joining them is `decrypted`.
pub fn decrypt_chunk(key: &[u8], index: u32, chunk: &[u8], padding: usize, is_last: bool) -> (r: Result<Vec<u8>, CipherError>)
    requires
        key@.len() == 32,
    ensures
        match chunk_decrypted(key@, index as nat, chunk@, padding as nat, is_last) {
            Ok(p) => r matches Ok(v) && v@ == p,
            Err(e) => r == Err::<Vec<u8>, CipherError>(e),
        },
{
    let nonce = chunk_nonce(index);
    match open_chunk(key, nonce.as_slice(), chunk) {
        None => Err(CipherError::CipherAuthError(index)),
        Some(p) => {
            proof {
                let q = choose|q: Seq<u8>| sealed_of(key@, nonce_spec(index as nat), q) == chunk@;
                assert(sealed_of(key@, nonce_spec(index as nat), p@) == chunk@);
                assert(q == p@);
            }
            if is_last {
                if p.len() < padding {
                    return Err(CipherError::PaddingExceedsChunk(index));
                }
                let mut out: Vec<u8> = Vec::new();
                push_range(&mut out, p.as_slice(), 0, p.len() - padding);
                Ok(out)
            } else {
                Ok(p)
            }
        },
    }
}

/// The plaintext sealed for a chunk read into a reused buffer: a full chunk
/// as it is; a short (last) chunk followed by `padding` bytes of what the
/// buffer held before, the previous full chunk, or zeros when there was
/// none.
pub open spec fn buffered_plain(previous: Seq<u8>, chunk: Seq<u8>, padding: nat) -> Seq<u8> {
    if chunk.len() == CHUNK_SIZE {
        chunk
    } else if previous.len() > 0 {
        chunk + previous.subrange(chunk.len() as int, (chunk.len() + padding) as int)
    } else {
        chunk + Seq::new(padding, |i: int| 0u8)
    }
}

/// Seals chunk `index` as it is read: `chunk` is what was read (a full
/// chunk, or the short last one) and `previous` the full chunk read before
/// it (empty for the first). Sealing the chunks of a file in order gives its
/// container (see `lemma_buffered_chunk`).
pub fn encrypt_chunk(key: &[u8], index: u32, previous: &[u8], chunk: &[u8], padding: usize) -> (r: Vec<u8>)
    requires
        key@.len() == 32,
        previous@.len() == 0 || previous@.len() == CHUNK_SIZE,
        chunk@.len() <= CHUNK_SIZE,
        chunk@.len() == CHUNK_SIZE || chunk@.len() + padding <= CHUNK_SIZE,
    ensures
        r@ == sealed_of(key@, nonce_spec(index as nat), buffered_plain(previous@, chunk@, padding as nat)),
        r@.len() == buffered_plain(previous@, chunk@, padding as nat).len() + TAG_SIZE,
{
    let mut pt: Vec<u8> = Vec::new();
    push_range(&mut pt, chunk, 0, chunk.len());
    proof {
        assert(chunk@.subrange(0, chunk@.len() as int) =~= chunk@);
    }
    if chunk.len() < CHUNK_SIZE {
        if previous.len() > 0 {
            push_range(&mut pt, previous, chunk.len(), chunk.len() + padding);
        } else {
            let ghost head = pt@;
            let mut i: usize = 0;
            while i < padding
                invariant
                    i <= padding,
                    pt@ == head + Seq::new(i as nat, |k: int| 0u8),
                decreases padding - i,
            {
                proof {
                    assert(head + Seq::new((i + 1) as nat, |k: int| 0u8) =~= pt@.push(0u8));
                }
                pt.push(0u8);
                i = i + 1;
            }
        }
    }
    proof {
        assert(pt@ =~= buffered_plain(previous@, chunk@, padding as nat));
    }
    let nonce = chunk_nonce(index);
    seal_chunk(key, nonce.as_slice(), pt.as_slice())
}

/// Chunk `j` of a file, as a reader with one reused buffer gets it, sealed
/// as `encrypt_chunk` seals it, is chunk `j` of the file's container: the
/// file's chunk `j` and, before it, its full chunk `j - 1`.
pub proof fn lemma_buffered_chunk(f: Seq<u8>, padding: nat, j: nat)
    requires
        j < plain_chunk_count(f.len()),
        padding_fits(f.len(), padding),
    ensures
        plain_chunk(f, padding, j) == buffered_plain(
            if j > 0 { f.subrange((j - 1) * CHUNK_SIZE, j * CHUNK_SIZE) } else { Seq::empty() },
            f.subrange(j * CHUNK_SIZE, if (j + 1) * CHUNK_SIZE <= f.len() { (j + 1) * CHUNK_SIZE } else { f.len() as int }),
            padding,
        ),
{
    let n = f.len();
    let full = full_chunks(n);
    let rest = rest_len(n);
    assert(n == full * 262144 + rest);
    if j < full {
        assert((j + 1) * 262144 <= n) by (nonlinear_arith)
            requires j < full, n == full * 262144 + rest, rest >= 0;
    } else {
        assert(j == full);
        assert(rest > 0);
        assert((j + 1) * 262144 > n) by (nonlinear_arith)
            requires j == full, n == full * 262144 + rest, rest < 262144;
        let chunk = f.subrange(j * CHUNK_SIZE, n as int);
        assert(chunk.len() == rest);
        if j > 0 {
            let prev = f.subrange((j - 1) * CHUNK_SIZE, j * CHUNK_SIZE);
            assert(prev.subrange(rest as int, (rest + padding) as int) =~= stale_padding(f, padding));
        }
        assert(plain_chunk(f, padding, j) =~= buffered_plain(
            if j > 0 { f.subrange((j - 1) * CHUNK_SIZE, j * CHUNK_SIZE) } else { Seq::empty() },
            chunk,
            padding,
        ));
    }
}

} // verus!

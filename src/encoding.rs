//! Text encodings of byte strings: base64 (URL-safe and standard alphabets).
use base64::Engine;
use vstd::prelude::*;

verus! {

/// The base64 character of the six-bit value `v`: `A-Z a-z 0-9`, then
/// `-` and `_` in the URL-safe alphabet, `+` and `/` in the standard one.
pub open spec fn b64_char(v: int, url_safe: bool) -> char {
    if v < 26 {
        (65 + v) as u8 as char
    } else if v < 52 {
        (97 + v - 26) as u8 as char
    } else if v < 62 {
        (48 + v - 52) as u8 as char
    } else if v == 62 {
        if url_safe { '-' } else { '+' }
    } else {
        if url_safe { '_' } else { '/' }
    }
}

/// Base64 of `b` without padding: each group of three bytes, read as a
/// 24-bit number, gives four characters of six bits each, most significant
/// first; a last group of two bytes gives three, of one byte two.
#[verifier::opaque]
pub open spec fn base64_digits(b: Seq<u8>, url_safe: bool) -> Seq<char>
    decreases b.len(),
{
    if b.len() >= 3 {
        let n = b[0] as int * 65536 + b[1] as int * 256 + b[2] as int;
        seq![
            b64_char(n / 262144, url_safe),
            b64_char((n / 4096) % 64, url_safe),
            b64_char((n / 64) % 64, url_safe),
            b64_char(n % 64, url_safe),
        ] + base64_digits(b.subrange(3, b.len() as int), url_safe)
    } else if b.len() == 2 {
        let n = b[0] as int * 65536 + b[1] as int * 256;
        seq![b64_char(n / 262144, url_safe), b64_char((n / 4096) % 64, url_safe), b64_char((n / 64) % 64, url_safe)]
    } else if b.len() == 1 {
        let n = b[0] as int * 65536;
        seq![b64_char(n / 262144, url_safe), b64_char((n / 4096) % 64, url_safe)]
    } else {
        Seq::empty()
    }
}

/// The text that base64 with the URL-safe alphabet and without padding makes of `b`.
pub open spec fn base64url_of(b: Seq<u8>) -> Seq<char> {
    base64_digits(b, true)
}

/// The text that base64 with the standard alphabet and with padding makes
/// of `b`: `=` fills the last group up to four characters.
pub open spec fn base64_std_of(b: Seq<u8>) -> Seq<char> {
    base64_digits(b, false) + if b.len() % 3 == 1 {
        seq!['=', '=']
    } else if b.len() % 3 == 2 {
        seq!['=']
    } else {
        Seq::empty()
    }
}

/// Relies on base64's `URL_SAFE_NO_PAD` engine to encode `bytes`: the text
/// uses the alphabet `A-Z a-z 0-9 - _` and no padding, and decodes back to
/// `bytes` alone.
#[verifier::external_body]
pub fn bytes_to_base64url(bytes: &[u8]) -> (r: String)
    ensures
        r@ == base64url_of(bytes@),
        r@.len() == 0 <==> bytes@.len() == 0,
        forall|i: int| 0 <= i < r@.len() ==> is_base64url_char(#[trigger] r@[i]),
        forall|d: Seq<u8>| #[trigger] base64url_of(d) == r@ ==> d == bytes@,
{
    base64::engine::general_purpose::URL_SAFE_NO_PAD.encode(bytes)
}

/// Relies on base64's `URL_SAFE_NO_PAD` engine to decode `s`. It refuses
/// non-canonical trailing bits, so it accepts exactly the texts that it
/// produces, and gives back the bytes that were encoded.
#[verifier::external_body]
fn decode_base64url(s: &str) -> (r: Option<Vec<u8>>)
    ensures
        r matches Some(d) ==> base64url_of(d@) == s@,
        r is Some <== exists|d: Seq<u8>| #[trigger] base64url_of(d) == s@,
        r matches Some(v) ==> forall|d: Seq<u8>| #[trigger] base64url_of(d) == s@ ==> v@ == d,
{
    base64::engine::general_purpose::URL_SAFE_NO_PAD.decode(s).ok()
}

/// Relies on base64's `STANDARD` engine to encode `bytes`.
#[verifier::external_body]
pub(crate) fn encode_base64_std(bytes: &[u8]) -> (r: String)
    ensures
        r@ == base64_std_of(bytes@),
{
    base64::engine::general_purpose::STANDARD.encode(bytes)
}

/// Relies on base64's `STANDARD` engine to decode `s`: it requires canonical
/// padding and trailing bits, so it accepts exactly the texts that it produces.
#[verifier::external_body]
pub(crate) fn decode_base64_std(s: &str) -> (r: Option<Vec<u8>>)
    ensures
        r matches Some(d) ==> base64_std_of(d@) == s@,
        r is Some <== exists|d: Seq<u8>| #[trigger] base64_std_of(d) == s@,
        r matches Some(v) ==> forall|d: Seq<u8>| #[trigger] base64_std_of(d) == s@ ==> v@ == d,
{
    base64::engine::general_purpose::STANDARD.decode(s).ok()
}

/// A character of the URL-safe base64 alphabet.
pub open spec fn is_base64url_char(c: char) -> bool {
    ('A' <= c <= 'Z') || ('a' <= c <= 'z') || ('0' <= c <= '9') || c == '-' || c == '_'
}

/// Text made of URL-safe base64 characters only is left as it is by
/// `without_pad_chars`.
pub proof fn lemma_no_pad_chars(s: Seq<char>)
    requires
        forall|i: int| 0 <= i < s.len() ==> is_base64url_char(#[trigger] s[i]),
    ensures
        without_pad_chars(s) == s,
    decreases s.len(),
{
    if s.len() > 0 {
        let t = s.drop_last();
        assert forall|i: int| 0 <= i < t.len() implies is_base64url_char(#[trigger] t[i]) by {
            assert(t[i] == s[i]);
        }
        lemma_no_pad_chars(t);
        assert(is_base64url_char(s[s.len() - 1]));
        assert(t.push(s.last()) =~= s);
    }
}

/// Whether `s` is the URL-safe base64 text of some byte string.
pub open spec fn is_base64url(s: Seq<char>) -> bool {
    exists|d: Seq<u8>| base64url_of(d) == s
}

/// The bytes whose URL-safe base64 text is `s`, when there are any.
pub open spec fn base64url_bytes(s: Seq<char>) -> Option<Seq<u8>> {
    if is_base64url(s) {
        Some(choose|d: Seq<u8>| base64url_of(d) == s)
    } else {
        None
    }
}

/// `s` with every `=` taken out.
pub open spec fn without_pad_chars(s: Seq<char>) -> Seq<char>
    decreases s.len(),
{
    if s.len() == 0 {
        s
    } else if s.last() == '=' {
        without_pad_chars(s.drop_last())
    } else {
        without_pad_chars(s.drop_last()).push(s.last())
    }
}

/// `s` with every `=` taken out.
fn strip_pad_chars(s: &str) -> (r: String)
    ensures
        r@ == without_pad_chars(s@),
{
    let n = s.unicode_len();
    let mut out = String::from_str("");
    let mut start: usize = 0;
    let mut i: usize = 0;
    proof {
        reveal_strlit("");
        assert(s@.subrange(0, 0) =~= Seq::<char>::empty());
        assert(out@ + s@.subrange(0, 0) =~= Seq::<char>::empty());
    }
    while i < n
        invariant
            n == s@.len(),
            start <= i <= n,
            out@ + s@.subrange(start as int, i as int) == without_pad_chars(s@.subrange(0, i as int)),
            forall|k: int| start <= k < i ==> s@[k] != '=',
        decreases n - i,
    {
        let c = s.get_char(i);
        proof {
            let pre = s@.subrange(0, i as int);
            assert(s@.subrange(0, i + 1).drop_last() =~= pre);
            assert(s@.subrange(0, i + 1).last() == c);
        }
        if c == '=' {
            let piece = s.substring_char(start, i);
            out.append(piece);
            start = i + 1;
            proof {
                assert(s@.subrange(start as int, i + 1) =~= Seq::<char>::empty());
            }
        } else {
            proof {
                assert(s@.subrange(start as int, i + 1) =~= s@.subrange(start as int, i as int).push(c));
            }
        }
        i = i + 1;
    }
    let piece = s.substring_char(start, n);
    out.append(piece);
    proof {
        assert(s@.subrange(0, n as int) =~= s@);
    }
    out
}

/// Decodes URL-safe base64 text; `=` characters anywhere in it are ignored.
/// `None` where what is left is not the encoding of any byte string.
pub fn base64url_to_bytes(base64url: &str) -> (r: Option<Vec<u8>>)
    ensures
        match r {
            Some(d) => base64url_bytes(without_pad_chars(base64url@)) == Some(d@),
            None => base64url_bytes(without_pad_chars(base64url@)) is None,
        },
{
    let stripped = strip_pad_chars(base64url);
    let r = decode_base64url(stripped.as_str());
    proof {
        let t = without_pad_chars(base64url@);
        if is_base64url(t) {
            let d = choose|d: Seq<u8>| base64url_of(d) == t;
            assert(base64url_of(d) == t);
        }
    }
    r
}

} // verus!

//! A client for the tus resumable-upload protocol over an HTTP transport
//! that the user supplies (`HttpHandler`).
//!
//! Each operation is one HTTP exchange (the upload, a sequence of them).
//! What an operation makes of the server's answer is a public function of
//! its own (`info_from_response`, `patch_outcome`, ...) with an exact
//! contract; the operation hands the transport's answer to it.
use crate::encoding::{base64_std_of, decode_base64_std, encode_base64_std};
use crate::text::{
    decimal_of, matches_name, name_matches, parse_usize, parse_usize_spec, split_at_char,
    split_spec, trim_ascii_ws, trim_spec, u64_to_decimal, usize_to_decimal,
};
use vstd::prelude::*;
use vstd::utf8::{decode_utf8, valid_utf8};

verus! {

/// Bytes sent per `PATCH` request by `upload`.
pub const DEFAULT_CHUNK_SIZE: usize = 5242880;

pub const UPLOAD_OFFSET: &'static str = "upload-offset";
pub const UPLOAD_LENGTH: &'static str = "upload-length";
pub const UPLOAD_METADATA: &'static str = "upload-metadata";
pub const TUS_RESUMABLE: &'static str = "tus-resumable";
pub const TUS_VERSION: &'static str = "tus-version";
pub const TUS_EXTENSION: &'static str = "tus-extension";
pub const TUS_MAX_SIZE: &'static str = "tus-max-size";
pub const LOCATION: &'static str = "location";
pub const CONTENT_TYPE: &'static str = "content-type";
pub const X_HTTP_METHOD_OVERRIDE: &'static str = "x-http-method-override";
pub const AUTHORIZATION: &'static str = "Authorization";

/// HTTP methods that the client uses.
#[derive(Debug, Clone, Copy, PartialEq, Eq, Structural)]
pub enum HttpMethod {
    Get,
    Post,
    Put,
    Head,
    Patch,
    Options,
    Delete,
}

/// The name of a method as it goes on the wire.
pub open spec fn method_name(m: HttpMethod) -> Seq<char> {
    match m {
        HttpMethod::Get => "GET"@,
        HttpMethod::Post => "POST"@,
        HttpMethod::Put => "PUT"@,
        HttpMethod::Head => "HEAD"@,
        HttpMethod::Patch => "PATCH"@,
        HttpMethod::Options => "OPTIONS"@,
        HttpMethod::Delete => "DELETE"@,
    }
}

impl HttpMethod {
    /// The name of the method as it goes on the wire.
    pub fn name(&self) -> (r: String)
        ensures
            r@ == method_name(*self),
    {
        match self {
            HttpMethod::Get => String::from_str("GET"),
            HttpMethod::Post => String::from_str("POST"),
            HttpMethod::Put => String::from_str("PUT"),
            HttpMethod::Head => String::from_str("HEAD"),
            HttpMethod::Patch => String::from_str("PATCH"),
            HttpMethod::Options => String::from_str("OPTIONS"),
            HttpMethod::Delete => String::from_str("DELETE"),
        }
    }
}

/// Header name and value pairs, in the order in which they were set.
pub type Headers = Vec<(String, String)>;

/// Headers as text pairs.
pub open spec fn hview(h: Seq<(String, String)>) -> Seq<(Seq<char>, Seq<char>)> {
    h.map_values(|p: (String, String)| (p.0@, p.1@))
}

/// A request for the transport to send.
pub struct HttpRequest {
    pub method: HttpMethod,
    pub url: String,
    pub body: Option<Vec<u8>>,
    pub headers: Headers,
}

/// What the transport got back: a status code and the response headers.
pub struct HttpResponse {
    pub status_code: usize,
    pub headers: Headers,
}

/// The transport: sends one request and returns the server's answer.
/// An implementation says which answers it may give to a request, and
/// whether it may fail to deliver one; the client's contracts speak of
/// these. By default every answer and every failure may happen.
pub trait HttpHandler {
    /// Whether this transport may answer `req` with `resp`.
    open spec fn may_answer(&self, req: HttpRequest, resp: HttpResponse) -> bool {
        true
    }

    /// Whether this transport may fail to deliver `req`.
    open spec fn may_fail(&self, req: HttpRequest) -> bool {
        true
    }

    fn handle_request(&self, req: HttpRequest) -> (r: Result<HttpResponse, Error>)
        ensures
            r matches Ok(resp) ==> self.may_answer(req, resp),
            r is Err ==> self.may_fail(req),
    ;
}

/// A request body as bytes.
pub open spec fn body_view(b: Option<Vec<u8>>) -> Option<Seq<u8>> {
    match b {
        Some(v) => Some(v@),
        None => None,
    }
}

/// What `delete` makes of the answer `resp`.
pub open spec fn delete_reads(resp: HttpResponse, r: Result<(), Error>) -> bool {
    r == if resp.status_code == 204 {
        Ok::<(), Error>(())
    } else {
        Err(Error::UnexpectedStatusCode(resp.status_code))
    }
}

/// Errors of the client.
#[derive(Debug, PartialEq, Eq)]
pub enum Error {
    /// The status code returned by the server was not one of the expected ones.
    UnexpectedStatusCode(usize),
    /// The upload was not found by the server.
    NotFoundError,
    /// A required header (named here) was missing from the server response.
    MissingHeader(String),
    /// Reading the file or the network failed (the message is given).
    IoError(String),
    /// This header value should have been a decimal number.
    ParsingError(String),
    /// The size of the file and the size the server reports differ.
    UnequalSizeError,
    /// No bytes could be read from the file at the upload offset.
    FileReadError,
    /// The server did not accept the upload at the offset the client used.
    WrongUploadOffsetError,
    /// The file is larger than what the server accepts.
    FileTooLarge,
    /// The transport failed (the message is given).
    HttpHandlerError(String),
}

/// The text that describes an error.
pub open spec fn error_message(e: Error) -> Seq<char> {
    match e {
        Error::UnexpectedStatusCode(c) => "The status code returned by the server was not one of the expected ones: "@ + decimal_of(c as nat),
        Error::NotFoundError => "The file specified was not found by the server"@,
        Error::MissingHeader(h) => "The '"@ + h@ + "' header was missing from the server response"@,
        Error::IoError(m) => "An error occurred while doing disk IO. This may be while reading a file, or during a network call: "@ + m@,
        Error::ParsingError(t) => "Unable to parse a value, which should be an integer: "@ + t@,
        Error::UnequalSizeError => "The size of the specified file, and the file size reported by the server do not match"@,
        Error::FileReadError => "Unable to read the specified file"@,
        Error::WrongUploadOffsetError => "The client tried to upload the file with an incorrect offset"@,
        Error::FileTooLarge => "The specified file is larger that what is supported by the server"@,
        Error::HttpHandlerError(m) => "An error occurred in the HTTP handler: "@ + m@,
    }
}

impl Error {
    /// The text that describes the error.
    pub fn message(&self) -> (r: String)
        ensures
            r@ == error_message(*self),
    {
        match self {
            Error::UnexpectedStatusCode(c) => {
                let mut r = String::from_str("The status code returned by the server was not one of the expected ones: ");
                let d = usize_to_decimal(*c);
                r.append(d.as_str());
                r
            },
            Error::NotFoundError => String::from_str("The file specified was not found by the server"),
            Error::MissingHeader(h) => {
                let mut r = String::from_str("The '");
                r.append(h.as_str());
                r.append("' header was missing from the server response");
                r
            },
            Error::IoError(m) => {
                let mut r = String::from_str(
                    "An error occurred while doing disk IO. This may be while reading a file, or during a network call: ",
                );
                r.append(m.as_str());
                r
            },
            Error::ParsingError(t) => {
                let mut r = String::from_str("Unable to parse a value, which should be an integer: ");
                r.append(t.as_str());
                r
            },
            Error::UnequalSizeError => String::from_str(
                "The size of the specified file, and the file size reported by the server do not match",
            ),
            Error::FileReadError => String::from_str("Unable to read the specified file"),
            Error::WrongUploadOffsetError => String::from_str("The client tried to upload the file with an incorrect offset"),
            Error::FileTooLarge => String::from_str("The specified file is larger that what is supported by the server"),
            Error::HttpHandlerError(m) => {
                let mut r = String::from_str("An error occurred in the HTTP handler: ");
                r.append(m.as_str());
                r
            },
        }
    }
}

/// Extensions to the tus protocol.
#[derive(Debug, Clone, Copy, PartialEq, Eq, Structural)]
pub enum TusExtension {
    Creation,
    Expiration,
    Checksum,
    Termination,
    Concatenation,
}

/// The extension a token names, compared without ASCII case after
/// surrounding whitespace is removed.
pub open spec fn extension_spec(token: Seq<char>) -> Option<TusExtension> {
    let t = trim_spec(token);
    if name_matches(t, "creation"@) {
        Some(TusExtension::Creation)
    } else if name_matches(t, "expiration"@) {
        Some(TusExtension::Expiration)
    } else if name_matches(t, "checksum"@) {
        Some(TusExtension::Checksum)
    } else if name_matches(t, "termination"@) {
        Some(TusExtension::Termination)
    } else if name_matches(t, "concatenation"@) {
        Some(TusExtension::Concatenation)
    } else {
        None
    }
}

impl TusExtension {
    /// The extension that `s` names, if any.
    pub fn parse(s: &str) -> (r: Option<TusExtension>)
        ensures
            r == extension_spec(s@),
    {
        let t = trim_ascii_ws(s);
        let t = t.as_str();
        if matches_name(t, "creation") {
            Some(TusExtension::Creation)
        } else if matches_name(t, "expiration") {
            Some(TusExtension::Expiration)
        } else if matches_name(t, "checksum") {
            Some(TusExtension::Checksum)
        } else if matches_name(t, "termination") {
            Some(TusExtension::Termination)
        } else if matches_name(t, "concatenation") {
            Some(TusExtension::Concatenation)
        } else {
            None
        }
    }
}

impl std::str::FromStr for TusExtension {
    type Err = ();

    fn from_str(s: &str) -> Result<Self, Self::Err> {
        match TusExtension::parse(s) {
            Some(e) => Ok(e),
            None => Err(()),
        }
    }
}

/// What the server reports of an upload.
pub struct UploadInfo {
    /// How many bytes the server has accepted.
    pub bytes_uploaded: usize,
    /// The total size of the file, if the server knows it.
    pub total_size: Option<usize>,
    /// Metadata supplied when the upload was created.
    pub metadata: Option<Vec<(String, String)>>,
}

/// What the server reports of itself.
pub struct ServerInfo {
    /// Versions of the protocol the server supports, by preference.
    pub supported_versions: Vec<String>,
    /// Extensions the server supports.
    pub extensions: Vec<TusExtension>,
    /// The largest file the server accepts.
    pub max_upload_size: Option<usize>,
}

/// Index of the first header from `i` on whose name matches `key` without
/// regard to ASCII case.
pub open spec fn first_match(hv: Seq<(Seq<char>, Seq<char>)>, key: Seq<char>, i: int) -> Option<int>
    decreases hv.len() - i,
{
    if i < 0 || i >= hv.len() {
        None
    } else if name_matches(hv[i].0, key) {
        Some(i)
    } else {
        first_match(hv, key, i + 1)
    }
}

/// Value of the first header whose name matches the lower-case `key`.
pub open spec fn header_value(hv: Seq<(Seq<char>, Seq<char>)>, key: Seq<char>) -> Option<Seq<char>> {
    match first_match(hv, key, 0) {
        Some(i) => Some(hv[i].1),
        None => None,
    }
}

proof fn lemma_first_match_range(hv: Seq<(Seq<char>, Seq<char>)>, key: Seq<char>, i: int)
    ensures
        first_match(hv, key, i) matches Some(j) ==> i <= j < hv.len(),
    decreases hv.len() - i,
{
    if 0 <= i < hv.len() && !name_matches(hv[i].0, key) {
        lemma_first_match_range(hv, key, i + 1);
    }
}

/// Value of the first header named `key` (lower case), without regard to
/// ASCII case.
pub fn get_header(headers: &Headers, key: &str) -> (r: Option<String>)
    ensures
        match header_value(hview(headers@), key@) {
            Some(v) => r matches Some(s) && s@ == v,
            None => r is None,
        },
{
    let ghost hv = hview(headers@);
    let mut i: usize = 0;
    while i < headers.len()
        invariant
            hv == hview(headers@),
            i <= headers@.len(),
            first_match(hv, key@, 0) == first_match(hv, key@, i as int),
        decreases headers@.len() - i,
    {
        if matches_name(headers[i].0.as_str(), key) {
            proof {
                assert(hv[i as int] == (headers@[i as int].0@, headers@[i as int].1@));
            }
            return Some(headers[i].1.clone());
        }
        proof {
            assert(hv[i as int] == (headers@[i as int].0@, headers@[i as int].1@));
        }
        i = i + 1;
    }
    None
}

/// Index of the first header named exactly `k`.
pub open spec fn key_index(hv: Seq<(Seq<char>, Seq<char>)>, k: Seq<char>, i: int) -> Option<int>
    decreases hv.len() - i,
{
    if i < 0 || i >= hv.len() {
        None
    } else if hv[i].0 == k {
        Some(i)
    } else {
        key_index(hv, k, i + 1)
    }
}

/// Headers after setting `k` to `v`: an entry named exactly `k` is
/// replaced, otherwise the pair is added at the end.
pub open spec fn insert_spec(hv: Seq<(Seq<char>, Seq<char>)>, k: Seq<char>, v: Seq<char>) -> Seq<(Seq<char>, Seq<char>)> {
    match key_index(hv, k, 0) {
        Some(i) => hv.update(i, (k, v)),
        None => hv.push((k, v)),
    }
}

proof fn lemma_key_index_range(hv: Seq<(Seq<char>, Seq<char>)>, k: Seq<char>, i: int)
    ensures
        key_index(hv, k, i) matches Some(j) ==> i <= j < hv.len(),
    decreases hv.len() - i,
{
    if 0 <= i < hv.len() && hv[i].0 != k {
        lemma_key_index_range(hv, k, i + 1);
    }
}

/// Sets header `k` to `v`.
pub fn insert_header(headers: &mut Headers, k: String, v: String)
    ensures
        hview(final(headers)@) == insert_spec(hview(old(headers)@), k@, v@),
{
    let ghost hv = hview(headers@);
    let mut i: usize = 0;
    while i < headers.len()
        invariant
            hv == hview(headers@),
            hv == hview(old(headers)@),
            i <= headers@.len(),
            key_index(hv, k@, 0) == key_index(hv, k@, i as int),
        decreases headers@.len() - i,
    {
        proof {
            assert(hv[i as int] == (headers@[i as int].0@, headers@[i as int].1@));
        }
        if headers[i].0 == k {
            proof {
                assert(key_index(hv, k@, i as int) == Some(i as int));
            }
            let ghost kv = k@;
            let ghost vv = v@;
            headers.set(i, (k, v));
            proof {
                assert(hview(headers@) =~= hv.update(i as int, (kv, vv)));
            }
            return;
        }
        i = i + 1;
    }
    let ghost kv = k@;
    let ghost vv = v@;
    headers.push((k, v));
    proof {
        assert(hview(headers@) =~= hv.push((kv, vv)));
    }
}

/// The headers sent with every request: the protocol version.
pub open spec fn default_headers_spec() -> Seq<(Seq<char>, Seq<char>)> {
    seq![(TUS_RESUMABLE@, "1.0.0"@)]
}

/// The headers sent with every request: the protocol version.
pub fn default_headers() -> (r: Headers)
    ensures
        hview(r@) == default_headers_spec(),
{
    let mut h: Headers = Vec::new();
    h.push((String::from_str(TUS_RESUMABLE), String::from_str("1.0.0")));
    proof {
        assert(hview(h@) =~= default_headers_spec());
    }
    h
}

/// Headers of a `PATCH` request that sends bytes from offset `progress`.
pub open spec fn upload_headers_spec(progress: nat) -> Seq<(Seq<char>, Seq<char>)> {
    insert_spec(
        insert_spec(default_headers_spec(), CONTENT_TYPE@, "application/offset+octet-stream"@),
        UPLOAD_OFFSET@,
        decimal_of(progress),
    )
}

/// Headers of a `PATCH` request that sends bytes from offset `progress`.
pub fn create_upload_headers(progress: usize) -> (r: Headers)
    ensures
        hview(r@) == upload_headers_spec(progress as nat),
{
    let mut headers = default_headers();
    insert_header(&mut headers, String::from_str(CONTENT_TYPE), String::from_str("application/offset+octet-stream"));
    insert_header(&mut headers, String::from_str(UPLOAD_OFFSET), usize_to_decimal(progress));
    headers
}

/// The status code's decimal form starts with `4`.
pub open spec fn is_client_error(status: usize) -> bool {
    decimal_of(status as nat)[0] == '4'
}

proof fn lemma_decimal_nonempty(n: nat)
    ensures
        decimal_of(n).len() >= 1,
    decreases n,
{
    if n >= 10 {
        lemma_decimal_nonempty(n / 10);
    }
}

/// The number a header holds, when it is there and is a decimal number.
pub open spec fn number_header(hv: Seq<(Seq<char>, Seq<char>)>, key: Seq<char>) -> Option<nat> {
    match header_value(hv, key) {
        Some(v) => parse_usize_spec(v),
        None => None,
    }
}

/// Index of the first `c` in `s` from `i` on.
pub open spec fn index_of(s: Seq<char>, c: char, i: int) -> Option<int>
    decreases s.len() - i,
{
    if i < 0 || i >= s.len() {
        None
    } else if s[i] == c {
        Some(i)
    } else {
        index_of(s, c, i + 1)
    }
}

/// The bytes whose standard base64 text is `s`, when there are any.
pub open spec fn base64_std_bytes(s: Seq<char>) -> Option<Seq<u8>> {
    if exists|d: Seq<u8>| base64_std_of(d) == s {
        Some(choose|d: Seq<u8>| base64_std_of(d) == s)
    } else {
        None
    }
}

/// A metadata entry `key base64(value)`: the key stands before the first
/// space, the value after it is base64 of UTF-8 text. An entry without a
/// space is a key with an empty value.
pub open spec fn metadata_pair_spec(piece: Seq<char>) -> Option<(Seq<char>, Seq<char>)> {
    match index_of(piece, ' ', 0) {
        None => Some((piece, Seq::empty())),
        Some(i) => match base64_std_bytes(piece.subrange(i + 1, piece.len() as int)) {
            Some(b) => if valid_utf8(b) {
                Some((piece.subrange(0, i), decode_utf8(b)))
            } else {
                None
            },
            None => None,
        },
    }
}

/// The entries of a list of metadata pieces, or `None` if one is malformed;
/// a key given again takes the later value.
pub open spec fn metadata_pairs_spec(pieces: Seq<Seq<char>>) -> Option<Seq<(Seq<char>, Seq<char>)>>
    decreases pieces.len(),
{
    if pieces.len() == 0 {
        Some(Seq::empty())
    } else {
        match (metadata_pairs_spec(pieces.drop_last()), metadata_pair_spec(pieces.last())) {
            (Some(ps), Some(p)) => Some(insert_spec(ps, p.0, p.1)),
            _ => None,
        }
    }
}

/// The metadata header value: `;`-separated `key base64(value)` entries.
pub open spec fn metadata_spec(v: Seq<char>) -> Option<Seq<(Seq<char>, Seq<char>)>> {
    metadata_pairs_spec(split_spec(v, ';'))
}

/// Relies on std's `String::from_utf8`: it accepts exactly valid UTF-8 and
/// decodes it.
#[verifier::external_body]
fn utf8_to_string(b: Vec<u8>) -> (r: Option<String>)
    ensures
        r matches Some(s) ==> valid_utf8(b@) && s@ == decode_utf8(b@),
        r is Some <== valid_utf8(b@),
{
    String::from_utf8(b).ok()
}

/// Index of the first `c` in `s`.
fn find_char(s: &str, c: char) -> (r: Option<usize>)
    ensures
        match index_of(s@, c, 0) {
            Some(i) => r matches Some(j) && j as int == i,
            None => r is None,
        },
{
    let n = s.unicode_len();
    let mut i: usize = 0;
    while i < n
        invariant
            n == s@.len(),
            i <= n,
            index_of(s@, c, 0) == index_of(s@, c, i as int),
        decreases n - i,
    {
        if s.get_char(i) == c {
            return Some(i);
        }
        i = i + 1;
    }
    None
}

proof fn lemma_index_of_range(s: Seq<char>, c: char, i: int)
    ensures
        index_of(s, c, i) matches Some(j) ==> i <= j < s.len(),
    decreases s.len() - i,
{
    if 0 <= i < s.len() && s[i] != c {
        lemma_index_of_range(s, c, i + 1);
    }
}

/// One metadata entry (see `metadata_pair_spec`).
fn parse_metadata_pair(piece: &str) -> (r: Option<(String, String)>)
    ensures
        match metadata_pair_spec(piece@) {
            Some(p) => r matches Some(q) && q.0@ == p.0 && q.1@ == p.1,
            None => r is None,
        },
{
    proof {
        lemma_index_of_range(piece@, ' ', 0);
    }
    match find_char(piece, ' ') {
        None => {
            proof {
                reveal_strlit("");
            }
            Some((String::from_str(piece), String::from_str("")))
        },
        Some(i) => {
            let n = piece.unicode_len();
            let enc = piece.substring_char(i + 1, n);
            match decode_base64_std(enc) {
                Some(b) => {
                    proof {
                        assert(base64_std_of(b@) == enc@);
                        let d = choose|d: Seq<u8>| base64_std_of(d) == enc@;
                        assert(d == b@);
                        assert(base64_std_bytes(enc@) == Some(b@));
                        assert(enc@ == piece@.subrange(i + 1, piece@.len() as int));
                    }
                    match utf8_to_string(b) {
                        Some(v) => Some((String::from_str(piece.substring_char(0, i)), v)),
                        None => None,
                    }
                },
                None => None,
            }
        },
    }
}

/// Parses the metadata header value (see `metadata_spec`).
pub fn parse_metadata(v: &str) -> (r: Option<Vec<(String, String)>>)
    ensures
        match metadata_spec(v@) {
            Some(ps) => r matches Some(m) && hview(m@) == ps,
            None => r is None,
        },
{
    let pieces = split_at_char(v, ';');
    let ghost sp = split_spec(v@, ';');
    let mut out: Vec<(String, String)> = Vec::new();
    let mut i: usize = 0;
    while i < pieces.len()
        invariant
            pieces@.len() == sp.len(),
            sp == split_spec(v@, ';'),
            forall|k: int| 0 <= k < pieces@.len() ==> #[trigger] pieces@[k]@ == sp[k],
            i <= pieces@.len(),
            metadata_pairs_spec(sp.subrange(0, i as int)) == Some(hview(out@)),
        decreases pieces@.len() - i,
    {
        proof {
            assert(sp.subrange(0, i + 1).drop_last() =~= sp.subrange(0, i as int));
            assert(sp.subrange(0, i + 1).last() == pieces@[i as int]@);
        }
        match parse_metadata_pair(pieces[i].as_str()) {
            Some(p) => {
                insert_header(&mut out, p.0, p.1);
            },
            None => {
                proof {
                    assert(metadata_pair_spec(sp.subrange(0, i + 1).last()) is None);
                    assert(metadata_pairs_spec(sp.subrange(0, i + 1)) is None);
                    lemma_pairs_none_stays(sp, i as int + 1);
                }
                return None;
            },
        }
        i = i + 1;
    }
    proof {
        assert(sp.subrange(0, sp.len() as int) =~= sp);
    }
    Some(out)
}

proof fn lemma_pairs_none_stays(sp: Seq<Seq<char>>, i: int)
    requires
        0 <= i <= sp.len(),
        metadata_pairs_spec(sp.subrange(0, i)) is None,
    ensures
        metadata_pairs_spec(sp) is None,
    decreases sp.len() - i,
{
    if i < sp.len() {
        assert(sp.subrange(0, i + 1).drop_last() =~= sp.subrange(0, i));
        lemma_pairs_none_stays(sp, i + 1);
    } else {
        assert(sp.subrange(0, i) =~= sp);
    }
}

/// What `info_from_response` gives for the answer `resp`.
pub open spec fn info_reads(resp: HttpResponse, r: Result<UploadInfo, Error>) -> bool {
    ({
        let hv = hview(resp.headers@);
        match header_value(hv, UPLOAD_OFFSET@) {
            None => r == Err::<UploadInfo, Error>(Error::NotFoundError),
            Some(v) => match parse_usize_spec(v) {
                None => r matches Err(Error::ParsingError(t)) && t@ == v,
                Some(n) => if is_client_error(resp.status_code) {
                    r == Err::<UploadInfo, Error>(Error::NotFoundError)
                } else {
                    r matches Ok(info) && info.bytes_uploaded == n
                        && info.total_size == (match number_header(hv, UPLOAD_LENGTH@) {
                            Some(t) => Some(t as usize),
                            None => None,
                        })
                        && (match header_value(hv, UPLOAD_METADATA@) {
                            None => info.metadata is None,
                            Some(m) => match metadata_spec(m) {
                                None => info.metadata is None,
                                Some(ps) => info.metadata matches Some(md) && hview(md@) == ps,
                            },
                        })
                },
            },
        }
    })
}

/// What `get_info` makes of the server's answer: the accepted-bytes header
/// must be there (else `NotFoundError`) and be a number (else
/// `ParsingError`); a status whose decimal form starts with `4` is
/// `NotFoundError`; the total length and the metadata are read where they
/// are well-formed.
pub fn info_from_response(resp: &HttpResponse) -> (r: Result<UploadInfo, Error>)
    ensures
        info_reads(*resp, r),
{
    let bytes_uploaded = match get_header(&resp.headers, UPLOAD_OFFSET) {
        Some(val) => match parse_usize(val.as_str()) {
            Some(n) => n,
            None => return Err(Error::ParsingError(val)),
        },
        None => return Err(Error::NotFoundError),
    };
    let total_size = match get_header(&resp.headers, UPLOAD_LENGTH) {
        Some(l) => parse_usize(l.as_str()),
        None => None,
    };
    let metadata = match get_header(&resp.headers, UPLOAD_METADATA) {
        Some(m) => parse_metadata(m.as_str()),
        None => None,
    };
    let status = usize_to_decimal(resp.status_code);
    proof {
        lemma_decimal_nonempty(resp.status_code as nat);
    }
    if status.as_str().get_char(0) == '4' {
        return Err(Error::NotFoundError);
    }
    Ok(UploadInfo { bytes_uploaded, total_size, metadata })
}

/// The extensions named in a list of tokens, unknown ones left out.
pub open spec fn extensions_spec(tokens: Seq<Seq<char>>) -> Seq<TusExtension>
    decreases tokens.len(),
{
    if tokens.len() == 0 {
        Seq::empty()
    } else {
        match extension_spec(tokens.last()) {
            Some(e) => extensions_spec(tokens.drop_last()).push(e),
            None => extensions_spec(tokens.drop_last()),
        }
    }
}

/// What `server_info_from_response` gives for the answer `resp`.
pub open spec fn server_info_reads(resp: HttpResponse, r: Result<ServerInfo, Error>) -> bool {
    ({
        let hv = hview(resp.headers@);
        if resp.status_code != 200 && resp.status_code != 204 {
            r == Err::<ServerInfo, Error>(Error::UnexpectedStatusCode(resp.status_code))
        } else {
            match header_value(hv, TUS_VERSION@) {
                None => r matches Err(Error::MissingHeader(h)) && h@ == TUS_VERSION@,
                Some(v) => r matches Ok(info)
                    && info.supported_versions@.len() == split_spec(v, ',').len()
                    && (forall|i: int| 0 <= i < info.supported_versions@.len()
                        ==> #[trigger] info.supported_versions@[i]@ == split_spec(v, ',')[i])
                    && info.extensions@ == (match header_value(hv, TUS_EXTENSION@) {
                        Some(e) => extensions_spec(split_spec(e, ',')),
                        None => Seq::empty(),
                    })
                    && info.max_upload_size == (match number_header(hv, TUS_MAX_SIZE@) {
                        Some(t) => Some(t as usize),
                        None => None,
                    }),
            }
        }
    })
}

/// What `get_server_info` makes of the server's answer: the status must be
/// 200 or 204; the version header must be there and is cut at `,`; the
/// extension header, cut at `,`, gives the known extensions; the largest
/// size is read where it is a number.
pub fn server_info_from_response(resp: &HttpResponse) -> (r: Result<ServerInfo, Error>)
    ensures
        server_info_reads(*resp, r),
{
    if resp.status_code != 200 && resp.status_code != 204 {
        return Err(Error::UnexpectedStatusCode(resp.status_code));
    }
    let supported_versions = match get_header(&resp.headers, TUS_VERSION) {
        Some(v) => split_at_char(v.as_str(), ','),
        None => return Err(Error::MissingHeader(String::from_str(TUS_VERSION))),
    };
    let mut extensions: Vec<TusExtension> = Vec::new();
    match get_header(&resp.headers, TUS_EXTENSION) {
        Some(e) => {
            let tokens = split_at_char(e.as_str(), ',');
            let ghost sp = split_spec(e@, ',');
            let mut i: usize = 0;
            proof {
                assert(sp.subrange(0, 0) =~= Seq::<Seq<char>>::empty());
            }
            while i < tokens.len()
                invariant
                    tokens@.len() == sp.len(),
                    forall|k: int| 0 <= k < tokens@.len() ==> #[trigger] tokens@[k]@ == sp[k],
                    i <= tokens@.len(),
                    extensions@ == extensions_spec(sp.subrange(0, i as int)),
                decreases tokens@.len() - i,
            {
                proof {
                    assert(sp.subrange(0, i + 1).drop_last() =~= sp.subrange(0, i as int));
                    assert(sp.subrange(0, i + 1).last() == tokens@[i as int]@);
                }
                match TusExtension::parse(tokens[i].as_str()) {
                    Some(x) => extensions.push(x),
                    None => {},
                }
                i = i + 1;
            }
            proof {
                assert(sp.subrange(0, sp.len() as int) =~= sp);
            }
        },
        None => {},
    }
    let max_upload_size = match get_header(&resp.headers, TUS_MAX_SIZE) {
        Some(h) => parse_usize(h.as_str()),
        None => None,
    };
    Ok(ServerInfo { supported_versions, extensions, max_upload_size })
}

/// What `location_from_response` gives for the answer `resp`.
pub open spec fn location_reads(resp: HttpResponse, r: Result<String, Error>) -> bool {
    if resp.status_code == 413 {
        r == Err::<String, Error>(Error::FileTooLarge)
    } else if resp.status_code != 201 {
        r == Err::<String, Error>(Error::UnexpectedStatusCode(resp.status_code))
    } else {
        match header_value(hview(resp.headers@), LOCATION@) {
            None => r matches Err(Error::MissingHeader(h)) && h@ == LOCATION@,
            Some(l) => r matches Ok(u) && u@ == l,
        }
    }
}

/// What `create_with_metadata` makes of the server's answer: 413 is
/// `FileTooLarge`, any other status but 201 is unexpected, and the location
/// header must be there; it is the upload's URL.
pub fn location_from_response(resp: &HttpResponse) -> (r: Result<String, Error>)
    ensures
        location_reads(*resp, r),
{
    if resp.status_code == 413 {
        return Err(Error::FileTooLarge);
    }
    if resp.status_code != 201 {
        return Err(Error::UnexpectedStatusCode(resp.status_code));
    }
    match get_header(&resp.headers, LOCATION) {
        Some(l) => Ok(l),
        None => Err(Error::MissingHeader(String::from_str(LOCATION))),
    }
}

/// What `delete` makes of the server's status: 204 and nothing else.
pub fn delete_outcome(status_code: usize) -> (r: Result<(), Error>)
    ensures
        r == if status_code == 204 {
            Ok::<(), Error>(())
        } else {
            Err(Error::UnexpectedStatusCode(status_code))
        },
{
    if status_code != 204 {
        return Err(Error::UnexpectedStatusCode(status_code));
    }
    Ok(())
}

/// What `patch_outcome` gives for the answer `resp`.
pub open spec fn patch_reads(resp: HttpResponse, r: Result<usize, Error>) -> bool {
    if resp.status_code == 409 {
        r == Err::<usize, Error>(Error::WrongUploadOffsetError)
    } else if resp.status_code == 404 {
        r == Err::<usize, Error>(Error::NotFoundError)
    } else if resp.status_code != 204 {
        r == Err::<usize, Error>(Error::UnexpectedStatusCode(resp.status_code))
    } else {
        match header_value(hview(resp.headers@), UPLOAD_OFFSET@) {
            None => r matches Err(Error::MissingHeader(h)) && h@ == UPLOAD_OFFSET@,
            Some(v) => match parse_usize_spec(v) {
                None => r matches Err(Error::ParsingError(t)) && t@ == v,
                Some(n) => r == Ok::<usize, Error>(n as usize),
            },
        }
    }
}

/// What the upload makes of the answer to a `PATCH`: 409 is
/// `WrongUploadOffsetError`, 404 `NotFoundError`, any other status but 204
/// unexpected; then the new offset must be in the offset header.
pub fn patch_outcome(resp: &HttpResponse) -> (r: Result<usize, Error>)
    ensures
        patch_reads(*resp, r),
{
    if resp.status_code == 409 {
        return Err(Error::WrongUploadOffsetError);
    }
    if resp.status_code == 404 {
        return Err(Error::NotFoundError);
    }
    if resp.status_code != 204 {
        return Err(Error::UnexpectedStatusCode(resp.status_code));
    }
    match get_header(&resp.headers, UPLOAD_OFFSET) {
        Some(v) => match parse_usize(v.as_str()) {
            Some(n) => Ok(n),
            None => Err(Error::ParsingError(v)),
        },
        None => Err(Error::MissingHeader(String::from_str(UPLOAD_OFFSET))),
    }
}

/// What the upload does after the answer to the chunk sent at `progress`:
/// an error of `patch_outcome` ends it; a reported offset at or past the
/// file's end finishes it (`None`); an offset past `progress` is where the
/// next chunk starts (`Some`); an offset that does not move forward is
/// `WrongUploadOffsetError`. So an upload only moves forward from where the
/// server said it was, and never sends bytes before that again.
pub fn next_progress(progress: usize, file_len: usize, resp: &HttpResponse) -> (r: Result<Option<usize>, Error>)
    ensures
        next_reads(progress as nat, file_len as nat, *resp, r),
        r matches Ok(Some(p)) ==> progress < p < file_len,
{
    let reported = match patch_outcome(resp) {
        Ok(n) => n,
        Err(e) => return Err(e),
    };
    if reported >= file_len {
        return Ok(None);
    }
    if reported <= progress {
        return Err(Error::WrongUploadOffsetError);
    }
    Ok(Some(reported))
}

/// What `next_progress` gives at offset `progress` for the answer `resp`.
pub open spec fn next_reads(progress: nat, file_len: nat, resp: HttpResponse, r: Result<Option<usize>, Error>) -> bool {
    if resp.status_code == 409 {
        r == Err::<Option<usize>, Error>(Error::WrongUploadOffsetError)
    } else if resp.status_code == 404 {
        r == Err::<Option<usize>, Error>(Error::NotFoundError)
    } else if resp.status_code != 204 {
        r == Err::<Option<usize>, Error>(Error::UnexpectedStatusCode(resp.status_code))
    } else {
        match header_value(hview(resp.headers@), UPLOAD_OFFSET@) {
            None => r matches Err(Error::MissingHeader(h)) && h@ == UPLOAD_OFFSET@,
            Some(v) => match parse_usize_spec(v) {
                None => r matches Err(Error::ParsingError(t)) && t@ == v,
                Some(n) => if n >= file_len {
                    r == Ok::<Option<usize>, Error>(None)
                } else if n <= progress {
                    r == Err::<Option<usize>, Error>(Error::WrongUploadOffsetError)
                } else {
                    r == Ok::<Option<usize>, Error>(Some(n as usize))
                },
            },
        }
    }
}

/// What the upload does at offset `progress`: nothing more once the server
/// has the whole file (`None`); with a zero chunk size no byte can be read
/// (`FileReadError`); otherwise it sends `[progress, end)` and gives `end`.
pub fn upload_step(progress: usize, file_len: usize, chunk_size: usize) -> (r: Result<Option<usize>, Error>)
    ensures
        progress >= file_len ==> r == Ok::<Option<usize>, Error>(None),
        progress < file_len && chunk_size == 0 ==> r == Err::<Option<usize>, Error>(Error::FileReadError),
        progress < file_len && chunk_size > 0 ==> r == Ok::<Option<usize>, Error>(
            Some(chunk_end(progress as nat, chunk_size as nat, file_len as nat) as usize),
        ),
{
    if progress >= file_len {
        return Ok(None);
    }
    if chunk_size == 0 {
        return Err(Error::FileReadError);
    }
    if file_len - progress >= chunk_size {
        Ok(Some(progress + chunk_size))
    } else {
        Ok(Some(file_len))
    }
}

/// Where an upload resumes: at the offset the server reports, unless the
/// server knows a total size other than the file's, which is
/// `UnequalSizeError` (and nothing is sent).
pub fn upload_start(info: &UploadInfo, file_len: usize) -> (r: Result<usize, Error>)
    ensures
        match info.total_size {
            Some(t) => if t != file_len {
                r == Err::<usize, Error>(Error::UnequalSizeError)
            } else {
                r == Ok::<usize, Error>(info.bytes_uploaded)
            },
            None => r == Ok::<usize, Error>(info.bytes_uploaded),
        },
{
    match info.total_size {
        Some(t) => if t != file_len {
            return Err(Error::UnequalSizeError);
        },
        None => {},
    }
    Ok(info.bytes_uploaded)
}

/// End of the chunk that starts at `progress`.
pub open spec fn chunk_end(progress: nat, chunk_size: nat, file_len: nat) -> nat {
    if progress + chunk_size <= file_len {
        progress + chunk_size
    } else {
        file_len
    }
}

/// Bytes `data[from, to)`.
fn copy_range(data: &[u8], from: usize, to: usize) -> (r: Vec<u8>)
    requires
        from <= to <= data@.len(),
    ensures
        r@ == data@.subrange(from as int, to as int),
{
    let mut out: Vec<u8> = Vec::new();
    let mut i: usize = from;
    while i < to
        invariant
            from <= i <= to <= data@.len(),
            out@ == data@.subrange(from as int, i as int),
        decreases to - i,
    {
        proof {
            assert(data@.subrange(from as int, i + 1) =~= data@.subrange(from as int, i as int).push(data@[i as int]));
        }
        out.push(data[i]);
        i = i + 1;
    }
    out
}

/// The user-visible settings of a client.
pub struct Client<H: HttpHandler> {
    use_method_override: bool,
    http_handler: H,
    auth_token: Option<String>,
}

/// Headers of a request after the client's own ones are set: the bearer
/// token if there is one, and the true method when methods are overridden.
pub open spec fn request_headers_spec(
    use_method_override: bool,
    auth_token: Option<Seq<char>>,
    method: HttpMethod,
    given: Seq<(Seq<char>, Seq<char>)>,
) -> Seq<(Seq<char>, Seq<char>)> {
    let h1 = match auth_token {
        Some(t) => insert_spec(given, AUTHORIZATION@, "Bearer "@ + t),
        None => given,
    };
    if use_method_override {
        insert_spec(h1, X_HTTP_METHOD_OVERRIDE@, method_name(method))
    } else {
        h1
    }
}

impl<H: HttpHandler> Client<H> {
    /// Whether every request goes as `POST` with the true method in a header.
    pub closed spec fn uses_method_override(&self) -> bool {
        self.use_method_override
    }

    /// The bearer token sent with every request, if any.
    pub closed spec fn token(&self) -> Option<Seq<char>> {
        match self.auth_token {
            Some(t) => Some(t@),
            None => None,
        }
    }

    /// A client that sends requests through `http_handler`.
    pub fn new(http_handler: H) -> (r: Self)
        ensures
            !r.uses_method_override(),
            r.token() is None,
            r.handler() == http_handler,
    {
        Client { use_method_override: false, http_handler, auth_token: None }
    }

    /// A client for environments without `PATCH` and `DELETE`: every request
    /// goes as `POST`, with the true method in the `X-HTTP-Method-Override`
    /// header.
    pub fn with_method_override(http_handler: H) -> (r: Self)
        ensures
            r.uses_method_override(),
            r.token() is None,
            r.handler() == http_handler,
    {
        Client { use_method_override: true, http_handler, auth_token: None }
    }

    /// The same client, sending `auth_token` as a bearer token.
    pub fn with_auth_token(self, auth_token: String) -> (r: Self)
        ensures
            r.uses_method_override() == self.uses_method_override(),
            r.token() == Some(auth_token@),
            r.handler() == self.handler(),
    {
        Client { use_method_override: self.use_method_override, http_handler: self.http_handler, auth_token: Some(auth_token) }
    }

    /// A request with the client's own headers added; with method override
    /// it goes as `POST`.
    pub fn create_request(&self, method: HttpMethod, url: &str, body: Option<Vec<u8>>, headers: Option<Headers>) -> (r: HttpRequest)
        ensures
            r.method == if self.uses_method_override() { HttpMethod::Post } else { method },
            r.url@ == url@,
            r.body == body,
            hview(r.headers@) == request_headers_spec(
                self.uses_method_override(),
                self.token(),
                method,
                match headers {
                    Some(h) => hview(h@),
                    None => Seq::empty(),
                },
            ),
    {
        let mut h = match headers {
            Some(h) => h,
            None => {
                let e: Headers = Vec::new();
                proof {
                    assert(hview(e@) =~= Seq::empty());
                }
                e
            },
        };
        match &self.auth_token {
            Some(t) => {
                let mut v = String::from_str("Bearer ");
                v.append(t.as_str());
                insert_header(&mut h, String::from_str(AUTHORIZATION), v);
            },
            None => {},
        }
        let method = if self.use_method_override {
            insert_header(&mut h, String::from_str(X_HTTP_METHOD_OVERRIDE), method.name());
            HttpMethod::Post
        } else {
            method
        };
        HttpRequest { method, url: String::from_str(url), body, headers: h }
    }

    /// The transport the client sends through.
    pub closed spec fn handler(&self) -> H {
        self.http_handler
    }

    /// `req` is the request the client makes for a `method` request to
    /// `url` with `body` and the headers `given`.
    pub open spec fn sends(
        &self,
        req: HttpRequest,
        method: HttpMethod,
        url: Seq<char>,
        body: Option<Seq<u8>>,
        given: Seq<(Seq<char>, Seq<char>)>,
    ) -> bool {
        &&& req.method == if self.uses_method_override() { HttpMethod::Post } else { method }
        &&& req.url@ == url
        &&& body_view(req.body) == body
        &&& hview(req.headers@) == request_headers_spec(self.uses_method_override(), self.token(), method, given)
    }

    /// Asks the server how much of the upload at `url` it has: one `HEAD`
    /// request, whose answer `info_from_response` reads. The result is a
    /// failure of the transport to deliver that request, or what
    /// `info_from_response` makes of an answer the transport may give.
    pub fn get_info(&self, url: &str) -> (r: Result<UploadInfo, Error>)
        ensures
            exists|req: HttpRequest| #[trigger] self.sends(req, HttpMethod::Head, url@, None, default_headers_spec()) && (
                (r is Err && self.handler().may_fail(req))
                || exists|resp: HttpResponse| #[trigger] self.handler().may_answer(req, resp) && info_reads(resp, r)),
    {
        let req = self.create_request(HttpMethod::Head, url, None, Some(default_headers()));
        let ghost g = req;
        proof {
            assert(self.sends(g, HttpMethod::Head, url@, None, default_headers_spec()));
        }
        match self.http_handler.handle_request(req) {
            Err(e) => Err(e),
            Ok(response) => {
                let r = info_from_response(&response);
                proof {
                    assert(self.handler().may_answer(g, response) && info_reads(response, r));
                }
                r
            },
        }
    }

    /// Uploads `data` to `url` in chunks of `DEFAULT_CHUNK_SIZE` bytes.
    pub fn upload(&self, url: &str, data: &[u8]) -> (r: Result<(), Error>)
        ensures
            exists|hreq: HttpRequest| #[trigger] self.sends(hreq, HttpMethod::Head, url@, None, default_headers_spec()) && (
                (r is Err && self.handler().may_fail(hreq))
                || exists|hresp: HttpResponse| #[trigger] self.handler().may_answer(hreq, hresp)
                    && self.upload_after_head(url@, data@, DEFAULT_CHUNK_SIZE as nat, hresp, r)),
    {
        self.upload_with_chunk_size(url, data, DEFAULT_CHUNK_SIZE)
    }

    /// `req` sends the chunk of `data` at `progress`, the transport may
    /// answer it with `resp`, and the upload reads that answer as `next`.
    pub open spec fn patch_step(
        &self,
        url: Seq<char>,
        data: Seq<u8>,
        chunk_size: nat,
        progress: nat,
        req: HttpRequest,
        resp: HttpResponse,
        next: Result<Option<usize>, Error>,
    ) -> bool {
        &&& progress < data.len()
        &&& chunk_size > 0
        &&& self.sends(
            req,
            HttpMethod::Patch,
            url,
            Some(data.subrange(progress as int, chunk_end(progress, chunk_size, data.len()) as int)),
            upload_headers_spec(progress),
        )
        &&& self.handler().may_answer(req, resp)
        &&& next_reads(progress, data.len(), resp, next)
    }

    /// `steps` are `PATCH` exchanges that each moved the upload forward:
    /// step `k` sent the chunk at `offs[k]`, and its answer moved the upload
    /// to `offs[k + 1]` (past `offs[k]`, short of the end).
    pub open spec fn advances(
        &self,
        url: Seq<char>,
        data: Seq<u8>,
        chunk_size: nat,
        steps: Seq<(HttpRequest, HttpResponse)>,
        offs: Seq<usize>,
    ) -> bool {
        &&& offs.len() == steps.len() + 1
        &&& forall|k: int| 0 <= k < steps.len() ==> #[trigger] self.patch_step(
            url,
            data,
            chunk_size,
            offs[k] as nat,
            steps[k].0,
            steps[k].1,
            Ok(Some(offs[k + 1])),
        )
    }

    /// In a run of chunks as `upload_with_chunk_size` states it, no byte
    /// before the server's first offset is sent again: every chunk starts at
    /// `offs[0]` or later, each starts past the one before, and each carries
    /// the file's bytes from its own offset on.
    pub proof fn lemma_upload_never_resends(
        &self,
        url: Seq<char>,
        data: Seq<u8>,
        chunk_size: nat,
        steps: Seq<(HttpRequest, HttpResponse)>,
        offs: Seq<usize>,
    )
        requires
            self.advances(url, data, chunk_size, steps, offs),
        ensures
            forall|k: int| 0 <= k < offs.len() ==> offs[0] <= #[trigger] offs[k],
            forall|j: int, k: int| 0 <= j < k < offs.len() ==> offs[j] < offs[k],
            forall|k: int| 0 <= k < steps.len() ==> body_view((#[trigger] steps[k]).0.body) == Some(
                data.subrange(offs[k] as int, chunk_end(offs[k] as nat, chunk_size, data.len()) as int),
            ),
        decreases steps.len(),
    {
        assert forall|k: int| 0 <= k < steps.len() implies #[trigger] offs[k] < offs[k + 1] by {
            assert(self.patch_step(url, data, chunk_size, offs[k] as nat, steps[k].0, steps[k].1, Ok(Some(offs[k + 1]))));
        }
        assert forall|j: int, k: int| 0 <= j < k < offs.len() implies offs[j] < offs[k] by {
            lemma_increasing(offs, j, k);
        }
        assert forall|k: int| 0 <= k < offs.len() implies offs[0] <= #[trigger] offs[k] by {
            if k > 0 {
                lemma_increasing(offs, 0, k);
            }
        }
        assert forall|k: int| 0 <= k < steps.len() implies body_view((#[trigger] steps[k]).0.body) == Some(
            data.subrange(offs[k] as int, chunk_end(offs[k] as nat, chunk_size, data.len()) as int),
        ) by {
            assert(self.patch_step(url, data, chunk_size, offs[k] as nat, steps[k].0, steps[k].1, Ok(Some(offs[k + 1]))));
        }
    }

    /// How an upload at offset `o` ends with `r`: done when the server has
    /// the whole file; `FileReadError` with a zero chunk size; otherwise the
    /// chunk at `o` is sent, and the transport fails to deliver it or its
    /// answer finishes the upload or gives the error.
    pub open spec fn upload_ends(&self, url: Seq<char>, data: Seq<u8>, chunk_size: nat, o: nat, r: Result<(), Error>) -> bool {
        if o >= data.len() {
            r is Ok
        } else if chunk_size == 0 {
            r == Err::<(), Error>(Error::FileReadError)
        } else {
            exists|req: HttpRequest| #[trigger] self.sends(
                req,
                HttpMethod::Patch,
                url,
                Some(data.subrange(o as int, chunk_end(o, chunk_size, data.len()) as int)),
                upload_headers_spec(o),
            ) && (
                (r is Err && self.handler().may_fail(req))
                || exists|resp: HttpResponse| #[trigger] self.handler().may_answer(req, resp) && (
                    (r is Ok && next_reads(o, data.len(), resp, Ok(None)))
                    || (r matches Err(e) && next_reads(o, data.len(), resp, Err(e)))))
        }
    }

    /// How an upload ends with `r` after the `HEAD` request was answered
    /// with `hresp`: the reader's error; or `UnequalSizeError` when the
    /// server knows another size; or, from the offset the server reported,
    /// a run of chunks that each moved forward, then the end.
    pub open spec fn upload_after_head(&self, url: Seq<char>, data: Seq<u8>, chunk_size: nat, hresp: HttpResponse, r: Result<(), Error>) -> bool {
        (r matches Err(e) && info_reads(hresp, Err(e)))
        || exists|info: UploadInfo| #[trigger] info_reads(hresp, Ok(info)) && (
            (info.total_size matches Some(t) && t != data.len() && r == Err::<(), Error>(Error::UnequalSizeError))
            || ((info.total_size matches Some(t) ==> t == data.len())
                && exists|steps: Seq<(HttpRequest, HttpResponse)>, offs: Seq<usize>|
                    #[trigger] self.advances(url, data, chunk_size, steps, offs)
                    && offs[0] == info.bytes_uploaded
                    && self.upload_ends(url, data, chunk_size, offs.last() as nat, r)))
    }

    /// The `PATCH` request that sends `data[progress, progress + chunk_size)`
    /// (cut at the end of `data`), with `progress` as its offset.
    pub fn chunk_request(&self, url: &str, data: &[u8], progress: usize, chunk_size: usize) -> (r: HttpRequest)
        requires
            progress < data@.len(),
        ensures
            r.method == if self.uses_method_override() { HttpMethod::Post } else { HttpMethod::Patch },
            r.url@ == url@,
            r.body matches Some(b) && b@ == data@.subrange(
                progress as int,
                chunk_end(progress as nat, chunk_size as nat, data@.len()) as int,
            ),
            hview(r.headers@) == request_headers_spec(
                self.uses_method_override(),
                self.token(),
                HttpMethod::Patch,
                upload_headers_spec(progress as nat),
            ),
    {
        let end = if data.len() - progress >= chunk_size { progress + chunk_size } else { data.len() };
        let body = copy_range(data, progress, end);
        self.create_request(HttpMethod::Patch, url, Some(body), Some(create_upload_headers(progress)))
    }

    /// Uploads `data` (the whole file) to `url`, resuming where the server
    /// says it is: asks for the offset (`HEAD`), checks the sizes
    /// (`upload_start`), then sends chunks of `chunk_size` bytes from that
    /// offset on, each at the offset the server last reported, until the
    /// server has the whole file (at once, when it had it already). The
    /// first error ends the upload, without retries; with a chunk size of
    /// zero no chunk can be read, so an upload that is not complete fails
    /// with `FileReadError` after the size check. An offset
    /// that does not move forward after a chunk is `WrongUploadOffsetError`.
    pub fn upload_with_chunk_size(&self, url: &str, data: &[u8], chunk_size: usize) -> (r: Result<(), Error>)
        ensures
            exists|hreq: HttpRequest| #[trigger] self.sends(
                hreq,
                HttpMethod::Head,
                url@,
                None,
                default_headers_spec(),
            ) && (
                (r is Err && self.handler().may_fail(hreq))
                || exists|hresp: HttpResponse| #[trigger] self.handler().may_answer(hreq, hresp)
                    && self.upload_after_head(url@, data@, chunk_size as nat, hresp, r)),
    {
        let ghost u = url@;
        let ghost d = data@;
        let ghost cs = chunk_size as nat;
        let hreq = self.create_request(HttpMethod::Head, url, None, Some(default_headers()));
        let ghost hg = hreq;
        proof {
            assert(self.sends(hg, HttpMethod::Head, u, None, default_headers_spec()));
        }
        let hresp = match self.http_handler.handle_request(hreq) {
            Err(e) => return Err(e),
            Ok(x) => x,
        };
        proof {
            assert(self.handler().may_answer(hg, hresp));
        }
        let info = match info_from_response(&hresp) {
            Err(e) => {
                let res: Result<(), Error> = Err(e);
                proof {
                    assert(self.upload_after_head(u, d, cs, hresp, res));
                }
                return res;
            },
            Ok(i) => i,
        };
        let ghost gi = info;
        proof {
            assert(info_reads(hresp, Ok(gi)));
        }
        let start = match upload_start(&info, data.len()) {
            Err(e) => {
                let res: Result<(), Error> = Err(e);
                proof {
                    assert(self.upload_after_head(u, d, cs, hresp, res));
                }
                return res;
            },
            Ok(s) => s,
        };
        let mut progress = start;
        let ghost mut steps: Seq<(HttpRequest, HttpResponse)> = Seq::empty();
        let ghost mut offs: Seq<usize> = seq![start];
        loop
            invariant
                u == url@,
                d == data@,
                cs == chunk_size as nat,
                self.handler().may_answer(hg, hresp),
                self.sends(hg, HttpMethod::Head, u, None, default_headers_spec()),
                info_reads(hresp, Ok(gi)),
                gi.total_size matches Some(t) ==> t == data@.len(),
                self.advances(u, d, cs, steps, offs),
                offs[0] == gi.bytes_uploaded,
                offs.last() == progress,
            decreases data@.len() - progress,
        {
            let end = match upload_step(progress, data.len(), chunk_size) {
                Ok(None) => {
                    let res: Result<(), Error> = Ok(());
                    proof {
                        assert(self.upload_ends(u, d, cs, offs.last() as nat, res));
                        assert(self.upload_after_head(u, d, cs, hresp, res));
                    }
                    return res;
                },
                Err(e) => {
                    let res: Result<(), Error> = Err(e);
                    proof {
                        assert(self.upload_ends(u, d, cs, offs.last() as nat, res));
                        assert(self.upload_after_head(u, d, cs, hresp, res));
                    }
                    return res;
                },
                Ok(Some(end)) => end,
            };
            let req = self.chunk_request(url, data, progress, chunk_size);
            let ghost g = req;
            let ghost body = d.subrange(progress as int, chunk_end(progress as nat, cs, d.len()) as int);
            proof {
                assert(self.sends(g, HttpMethod::Patch, u, Some(body), upload_headers_spec(progress as nat)));
            }
            let response = match self.http_handler.handle_request(req) {
                Err(e) => {
                    let res: Result<(), Error> = Err(e);
                    proof {
                        assert(self.upload_ends(u, d, cs, offs.last() as nat, res));
                        assert(self.upload_after_head(u, d, cs, hresp, res));
                    }
                    return res;
                },
                Ok(x) => x,
            };
            proof {
                assert(self.handler().may_answer(g, response));
            }
            match next_progress(progress, data.len(), &response) {
                Ok(Some(p)) => {
                    proof {
                        assert(self.patch_step(u, d, cs, progress as nat, g, response, Ok(Some(p))));
                        let old_steps = steps;
                        let old_offs = offs;
                        steps = steps.push((g, response));
                        offs = offs.push(p);
                        assert forall|k: int| 0 <= k < steps.len() implies #[trigger] self.patch_step(
                            u,
                            d,
                            cs,
                            offs[k] as nat,
                            steps[k].0,
                            steps[k].1,
                            Ok(Some(offs[k + 1])),
                        ) by {
                            if k < old_steps.len() {
                                assert(steps[k] == old_steps[k]);
                                assert(offs[k] == old_offs[k] && offs[k + 1] == old_offs[k + 1]);
                            }
                        }
                    }
                    progress = p;
                },
                Ok(None) => {
                    let res: Result<(), Error> = Ok(());
                    proof {
                        assert(self.handler().may_answer(g, response) && next_reads(progress as nat, d.len(), response, Ok(None)));
                        assert(self.upload_ends(u, d, cs, offs.last() as nat, res));
                        assert(self.upload_after_head(u, d, cs, hresp, res));
                    }
                    return res;
                },
                Err(e) => {
                    let ghost ge = e;
                    let res: Result<(), Error> = Err(e);
                    proof {
                        assert(next_reads(progress as nat, d.len(), response, Err(ge)));
                        assert(self.upload_ends(u, d, cs, offs.last() as nat, res));
                        assert(self.upload_after_head(u, d, cs, hresp, res));
                    }
                    return res;
                },
            }
        }
    }

    /// Asks the server for its capabilities (an `OPTIONS` request); the
    /// answer is read by `server_info_from_response`.
    pub fn get_server_info(&self, url: &str) -> (r: Result<ServerInfo, Error>)
        ensures
            exists|req: HttpRequest| #[trigger] self.sends(req, HttpMethod::Options, url@, None, Seq::empty()) && (
                (r is Err && self.handler().may_fail(req))
                || exists|resp: HttpResponse| #[trigger] self.handler().may_answer(req, resp) && server_info_reads(resp, r)),
    {
        let req = self.create_request(HttpMethod::Options, url, None, None);
        let ghost g = req;
        proof {
            assert(self.sends(g, HttpMethod::Options, url@, None, Seq::empty()));
        }
        match self.http_handler.handle_request(req) {
            Err(e) => Err(e),
            Ok(response) => {
                let r = server_info_from_response(&response);
                proof {
                    assert(self.handler().may_answer(g, response) && server_info_reads(response, r));
                }
                r
            },
        }
    }

    /// Creates an upload of `file_len` bytes without metadata.
    pub fn create(&self, url: &str, file_len: u64) -> (r: Result<String, Error>)
        ensures
            exists|req: HttpRequest| #[trigger] self.sends(
                req,
                HttpMethod::Post,
                url@,
                None,
                creation_headers_spec(file_len as nat, Seq::empty()),
            ) && (
                (r is Err && self.handler().may_fail(req))
                || exists|resp: HttpResponse| #[trigger] self.handler().may_answer(req, resp) && location_reads(resp, r)),
    {
        let empty: Vec<(String, String)> = Vec::new();
        proof {
            assert(hview(empty@) =~= Seq::empty());
        }
        self.create_with_metadata(url, file_len, &empty)
    }

    /// The `POST` request that creates an upload of `file_len` bytes with
    /// `metadata`.
    pub fn creation_request(&self, url: &str, file_len: u64, metadata: &Vec<(String, String)>) -> (r: HttpRequest)
        ensures
            r.method == HttpMethod::Post,
            r.url@ == url@,
            r.body is None,
            hview(r.headers@) == request_headers_spec(
                self.uses_method_override(),
                self.token(),
                HttpMethod::Post,
                creation_headers_spec(file_len as nat, hview(metadata@)),
            ),
    {
        let mut headers = default_headers();
        insert_header(&mut headers, String::from_str(UPLOAD_LENGTH), u64_to_decimal(file_len));
        if metadata.len() > 0 {
            let data = metadata_header(metadata);
            insert_header(&mut headers, String::from_str(UPLOAD_METADATA), data);
        }
        self.create_request(HttpMethod::Post, url, None, Some(headers))
    }

    /// Creates an upload of `file_len` bytes at `url` with `metadata` (a
    /// `POST` request); the answer is read by `location_from_response`,
    /// which gives the new upload's URL.
    pub fn create_with_metadata(&self, url: &str, file_len: u64, metadata: &Vec<(String, String)>) -> (r: Result<String, Error>)
        ensures
            exists|req: HttpRequest| #[trigger] self.sends(
                req,
                HttpMethod::Post,
                url@,
                None,
                creation_headers_spec(file_len as nat, hview(metadata@)),
            ) && (
                (r is Err && self.handler().may_fail(req))
                || exists|resp: HttpResponse| #[trigger] self.handler().may_answer(req, resp) && location_reads(resp, r)),
    {
        let req = self.creation_request(url, file_len, metadata);
        let ghost g = req;
        proof {
            assert(self.sends(g, HttpMethod::Post, url@, None, creation_headers_spec(file_len as nat, hview(metadata@))));
        }
        match self.http_handler.handle_request(req) {
            Err(e) => Err(e),
            Ok(response) => {
                let r = location_from_response(&response);
                proof {
                    assert(self.handler().may_answer(g, response) && location_reads(response, r));
                }
                r
            },
        }
    }

    /// Deletes the upload at `url` (a `DELETE` request); only 204 is success.
    pub fn delete(&self, url: &str) -> (r: Result<(), Error>)
        ensures
            exists|req: HttpRequest| #[trigger] self.sends(req, HttpMethod::Delete, url@, None, default_headers_spec()) && (
                (r is Err && self.handler().may_fail(req))
                || exists|resp: HttpResponse| #[trigger] self.handler().may_answer(req, resp) && delete_reads(resp, r)),
    {
        let req = self.create_request(HttpMethod::Delete, url, None, Some(default_headers()));
        let ghost g = req;
        proof {
            assert(self.sends(g, HttpMethod::Delete, url@, None, default_headers_spec()));
        }
        match self.http_handler.handle_request(req) {
            Err(e) => Err(e),
            Ok(response) => {
                let r = delete_outcome(response.status_code);
                proof {
                    assert(self.handler().may_answer(g, response) && delete_reads(response, r));
                }
                r
            },
        }
    }
}

/// One metadata entry as sent: the key, a space, the value's UTF-8 bytes
/// in standard base64.
pub open spec fn metadata_entry_spec(p: (Seq<char>, Seq<char>)) -> Seq<char> {
    p.0 + " "@ + base64_std_of(vstd::utf8::encode_utf8(p.1))
}

/// The metadata header value: the entries joined with `;`.
pub open spec fn metadata_header_spec(m: Seq<(Seq<char>, Seq<char>)>) -> Seq<char>
    decreases m.len(),
{
    if m.len() == 0 {
        Seq::empty()
    } else if m.len() == 1 {
        metadata_entry_spec(m[0])
    } else {
        metadata_header_spec(m.drop_last()) + ";"@ + metadata_entry_spec(m.last())
    }
}

/// Headers of the creation request: the file's length, and the metadata
/// when there is any.
pub open spec fn creation_headers_spec(file_len: nat, m: Seq<(Seq<char>, Seq<char>)>) -> Seq<(Seq<char>, Seq<char>)> {
    let h = insert_spec(default_headers_spec(), UPLOAD_LENGTH@, decimal_of(file_len));
    if m.len() > 0 {
        insert_spec(h, UPLOAD_METADATA@, metadata_header_spec(m))
    } else {
        h
    }
}

/// The metadata header value (see `metadata_header_spec`).
pub fn metadata_header(metadata: &Vec<(String, String)>) -> (r: String)
    ensures
        r@ == metadata_header_spec(hview(metadata@)),
{
    let ghost m = hview(metadata@);
    let mut out = String::from_str("");
    let mut i: usize = 0;
    proof {
        reveal_strlit("");
        assert(m.subrange(0, 0) =~= Seq::<(Seq<char>, Seq<char>)>::empty());
    }
    while i < metadata.len()
        invariant
            m == hview(metadata@),
            i <= metadata@.len(),
            out@ == metadata_header_spec(m.subrange(0, i as int)),
        decreases metadata@.len() - i,
    {
        let ghost before = out@;
        if i > 0 {
            out.append(";");
        }
        out.append(metadata[i].0.as_str());
        out.append(" ");
        let enc = encode_base64_std(metadata[i].1.as_str().as_bytes());
        out.append(enc.as_str());
        proof {
            reveal_strlit(";");
            reveal_strlit(" ");
            let sub = m.subrange(0, i + 1);
            assert(sub.drop_last() =~= m.subrange(0, i as int));
            assert(sub.last() == m[i as int]);
            assert(m[i as int] == (metadata@[i as int].0@, metadata@[i as int].1@));
            if i == 0 {
                assert(out@ =~= metadata_entry_spec(m[0]));
            } else {
                assert(out@ =~= before + ";"@ + metadata_entry_spec(m[i as int]));
            }
        }
        i = i + 1;
    }
    proof {
        assert(m.subrange(0, m.len() as int) =~= m);
    }
    out
}

proof fn lemma_increasing(offs: Seq<usize>, j: int, k: int)
    requires
        0 <= j < k < offs.len(),
        forall|i: int| 0 <= i < offs.len() - 1 ==> #[trigger] offs[i] < offs[i + 1],
    ensures
        offs[j] < offs[k],
    decreases k - j,
{
    if k > j + 1 {
        lemma_increasing(offs, j, k - 1);
        assert(offs[k - 1] < offs[k]);
    } else {
        assert(offs[j] < offs[j + 1]);
    }
}

} // verus!

use std::cell::RefCell;
use transcode_core::tus::{
    info_from_response, metadata_header, parse_metadata, patch_outcome, upload_start, Client, Error,
    HttpHandler, HttpMethod, HttpRequest, HttpResponse, TusExtension, UploadInfo,
};

fn h(pairs: &[(&str, &str)]) -> Vec<(String, String)> {
    pairs.iter().map(|(k, v)| (k.to_string(), v.to_string())).collect()
}

fn header<'a>(req: &'a HttpRequest, name: &str) -> Option<&'a str> {
    req.headers
        .iter()
        .find(|(k, _)| k.eq_ignore_ascii_case(name))
        .map(|(_, v)| v.as_str())
}

/// A server that holds `len` bytes of an upload, `offset` of which it has.
struct FakeServer {
    len: usize,
    offset: RefCell<usize>,
    patch_status: usize,
    sent: RefCell<Vec<(HttpMethod, usize, Vec<u8>)>>,
}

impl FakeServer {
    fn new(len: usize, offset: usize) -> Self {
        FakeServer { len, offset: RefCell::new(offset), patch_status: 204, sent: RefCell::new(Vec::new()) }
    }
}

impl HttpHandler for FakeServer {
    fn handle_request(&self, req: HttpRequest) -> Result<HttpResponse, Error> {
        match req.method {
            HttpMethod::Head => Ok(HttpResponse {
                status_code: 200,
                headers: h(&[
                    ("Upload-Offset", &self.offset.borrow().to_string()),
                    ("Upload-Length", &self.len.to_string()),
                ]),
            }),
            HttpMethod::Patch => {
                let at: usize = header(&req, "upload-offset").unwrap().parse().unwrap();
                let body = req.body.clone().unwrap();
                self.sent.borrow_mut().push((req.method, at, body.clone()));
                if self.patch_status != 204 {
                    return Ok(HttpResponse { status_code: self.patch_status, headers: vec![] });
                }
                let new = at + body.len();
                *self.offset.borrow_mut() = new;
                Ok(HttpResponse { status_code: 204, headers: h(&[("upload-offset", &new.to_string())]) })
            }
            _ => Ok(HttpResponse { status_code: 500, headers: vec![] }),
        }
    }
}

fn data(len: usize) -> Vec<u8> {
    (0..len).map(|i| (i % 253) as u8).collect()
}

#[test]
fn upload_resumes_after_server_offset() {
    let server = FakeServer::new(100, 37);
    let client = Client::new(server);
    let d = data(100);
    assert_eq!(client.upload_with_chunk_size("http://x/u/1", &d, 30), Ok(()));
}

#[test]
fn upload_never_resends_accepted_bytes() {
    let server = FakeServer::new(100, 37);
    let d = data(100);
    let client = Client::new(&server);
    assert_eq!(client.upload_with_chunk_size("http://x/u/1", &d, 30), Ok(()));
    let sent = server.sent.borrow();
    assert_eq!(sent.len(), 3);
    assert_eq!(sent[0].1, 37);
    assert_eq!(sent[0].2, d[37..67].to_vec());
    assert_eq!(sent[1].1, 67);
    assert_eq!(sent[2].1, 97);
    assert_eq!(sent[2].2, d[97..100].to_vec());
    assert!(sent.iter().all(|(m, at, _)| *m == HttpMethod::Patch && *at >= 37));
}

impl<'a> HttpHandler for &'a FakeServer {
    fn handle_request(&self, req: HttpRequest) -> Result<HttpResponse, Error> {
        (**self).handle_request(req)
    }
}

#[test]
fn conflict_aborts_without_more_chunks() {
    let mut server = FakeServer::new(100, 0);
    server.patch_status = 409;
    let d = data(100);
    let client = Client::new(&server);
    assert_eq!(client.upload_with_chunk_size("u", &d, 10), Err(Error::WrongUploadOffsetError));
    assert_eq!(server.sent.borrow().len(), 1);
}

#[test]
fn not_found_and_unexpected_status_during_upload() {
    let mut server = FakeServer::new(10, 0);
    server.patch_status = 404;
    assert_eq!(Client::new(&server).upload_with_chunk_size("u", &data(10), 4), Err(Error::NotFoundError));
    let mut server = FakeServer::new(10, 0);
    server.patch_status = 500;
    assert_eq!(Client::new(&server).upload_with_chunk_size("u", &data(10), 4), Err(Error::UnexpectedStatusCode(500)));
}

#[test]
fn unequal_size_sends_nothing() {
    let server = FakeServer::new(99, 0);
    let client = Client::new(&server);
    assert_eq!(client.upload_with_chunk_size("u", &data(100), 10), Err(Error::UnequalSizeError));
    assert!(server.sent.borrow().is_empty());
}

#[test]
fn complete_upload_sends_nothing() {
    let server = FakeServer::new(10, 10);
    assert_eq!(Client::new(&server).upload_with_chunk_size("u", &data(10), 4), Ok(()));
    assert!(server.sent.borrow().is_empty());
    let empty = FakeServer::new(0, 0);
    assert_eq!(Client::new(&empty).upload_with_chunk_size("u", &[], 4), Ok(()));
    assert!(empty.sent.borrow().is_empty());
}

#[test]
fn zero_chunk_size_fails_after_head_without_patch() {
    let server = FakeServer::new(10, 0);
    assert_eq!(Client::new(&server).upload_with_chunk_size("u", &data(10), 0), Err(Error::FileReadError));
    assert!(server.sent.borrow().is_empty());
}

#[test]
fn zero_chunk_size_still_checks_size_and_completion() {
    let mismatch = FakeServer::new(11, 0);
    assert_eq!(Client::new(&mismatch).upload_with_chunk_size("u", &data(10), 0), Err(Error::UnequalSizeError));
    let complete = FakeServer::new(10, 10);
    assert_eq!(Client::new(&complete).upload_with_chunk_size("u", &data(10), 0), Ok(()));
    assert!(complete.sent.borrow().is_empty());
}

/// Accepts the upload's HEAD, then answers every chunk without an offset.
struct NoOffset(RefCell<usize>);

impl HttpHandler for NoOffset {
    fn handle_request(&self, req: HttpRequest) -> Result<HttpResponse, Error> {
        *self.0.borrow_mut() += 1;
        if req.method == HttpMethod::Head {
            return Ok(HttpResponse { status_code: 200, headers: h(&[("Upload-Offset", "0")]) });
        }
        Ok(HttpResponse { status_code: 204, headers: vec![] })
    }
}

#[test]
fn missing_offset_after_patch_stops_upload() {
    let c = Client::new(NoOffset(RefCell::new(0)));
    assert_eq!(
        c.upload_with_chunk_size("u", &data(10), 4),
        Err(Error::MissingHeader("upload-offset".to_string()))
    );
}

#[test]
fn upload_start_decisions() {
    let info = UploadInfo { bytes_uploaded: 5, total_size: Some(10), metadata: None };
    assert_eq!(upload_start(&info, 10), Ok(5));
    assert_eq!(upload_start(&info, 11), Err(Error::UnequalSizeError));
    let info = UploadInfo { bytes_uploaded: 0, total_size: None, metadata: None };
    assert_eq!(upload_start(&info, 11), Ok(0));
}

#[test]
fn patch_outcome_statuses() {
    let r = |s: usize, hs: &[(&str, &str)]| patch_outcome(&HttpResponse { status_code: s, headers: h(hs) });
    assert_eq!(r(409, &[]), Err(Error::WrongUploadOffsetError));
    assert_eq!(r(404, &[]), Err(Error::NotFoundError));
    assert_eq!(r(200, &[]), Err(Error::UnexpectedStatusCode(200)));
    assert_eq!(r(204, &[]), Err(Error::MissingHeader("upload-offset".to_string())));
    assert_eq!(r(204, &[("Upload-Offset", "x1")]), Err(Error::ParsingError("x1".to_string())));
    assert_eq!(r(204, &[("UPLOAD-OFFSET", "+42")]), Ok(42));
}

#[test]
fn info_from_response_reads_headers() {
    let resp = HttpResponse {
        status_code: 200,
        headers: h(&[
            ("Upload-Offset", "12"),
            ("Upload-Length", "100"),
            ("Upload-Metadata", "filename aGVsbG8udHh0;hash"),
        ]),
    };
    let info = info_from_response(&resp).unwrap();
    assert_eq!(info.bytes_uploaded, 12);
    assert_eq!(info.total_size, Some(100));
    assert_eq!(
        info.metadata,
        Some(vec![("filename".to_string(), "hello.txt".to_string()), ("hash".to_string(), String::new())])
    );
    let missing = HttpResponse { status_code: 200, headers: vec![] };
    assert!(matches!(info_from_response(&missing), Err(Error::NotFoundError)));
    let gone = HttpResponse { status_code: 410, headers: h(&[("upload-offset", "1")]) };
    assert!(matches!(info_from_response(&gone), Err(Error::NotFoundError)));
    let bad = HttpResponse { status_code: 200, headers: h(&[("upload-offset", "")]) };
    assert!(matches!(info_from_response(&bad), Err(Error::ParsingError(_))));
}

#[test]
fn metadata_round_trip() {
    let m = vec![("a".to_string(), "x y".to_string()), ("key2".to_string(), "".to_string())];
    let text = metadata_header(&m);
    assert_eq!(text, "a eCB5;key2 ");
    assert_eq!(parse_metadata(&text), Some(m));
    assert_eq!(parse_metadata("k !!!"), None);
    assert_eq!(
        parse_metadata("a eA==;b eQ==;a eg=="),
        Some(vec![("a".to_string(), "z".to_string()), ("b".to_string(), "y".to_string())])
    );
}

struct Options(usize, Vec<(String, String)>);

impl HttpHandler for Options {
    fn handle_request(&self, req: HttpRequest) -> Result<HttpResponse, Error> {
        assert_eq!(req.method, HttpMethod::Options);
        Ok(HttpResponse { status_code: self.0, headers: self.1.clone() })
    }
}

#[test]
fn server_info_parses_capabilities() {
    let c = Client::new(Options(
        204,
        h(&[
            ("Tus-Version", "1.0.0,0.2.2"),
            ("Tus-Extension", "creation, Termination,unknown,checksum"),
            ("Tus-Max-Size", "1073741824"),
        ]),
    ));
    let info = c.get_server_info("u").unwrap();
    assert_eq!(info.supported_versions, vec!["1.0.0".to_string(), "0.2.2".to_string()]);
    assert_eq!(info.extensions, vec![TusExtension::Creation, TusExtension::Termination, TusExtension::Checksum]);
    assert_eq!(info.max_upload_size, Some(1073741824));
    let c = Client::new(Options(200, vec![]));
    assert!(matches!(c.get_server_info("u"), Err(Error::MissingHeader(ref h)) if h == "tus-version"));
    let c = Client::new(Options(404, vec![]));
    assert!(matches!(c.get_server_info("u"), Err(Error::UnexpectedStatusCode(404))));
}

struct Recorder(RefCell<Vec<HttpRequest>>, usize, Vec<(String, String)>);

impl HttpHandler for Recorder {
    fn handle_request(&self, req: HttpRequest) -> Result<HttpResponse, Error> {
        self.0.borrow_mut().push(req);
        Ok(HttpResponse { status_code: self.1, headers: self.2.clone() })
    }
}

#[test]
fn create_with_metadata_sends_length_and_metadata() {
    let rec = Recorder(RefCell::new(Vec::new()), 201, h(&[("Location", "http://x/files/9")]));
    let c = Client::new(&rec).with_auth_token("tok".to_string());
    let m = vec![("hash".to_string(), "abc".to_string())];
    assert_eq!(c.create_with_metadata("http://x/files", 1234, &m), Ok("http://x/files/9".to_string()));
    let reqs = rec.0.borrow();
    assert_eq!(reqs[0].method, HttpMethod::Post);
    assert_eq!(header(&reqs[0], "upload-length"), Some("1234"));
    assert_eq!(header(&reqs[0], "upload-metadata"), Some("hash YWJj"));
    assert_eq!(header(&reqs[0], "authorization"), Some("Bearer tok"));
    assert_eq!(header(&reqs[0], "tus-resumable"), Some("1.0.0"));
}

impl<'a> HttpHandler for &'a Recorder {
    fn handle_request(&self, req: HttpRequest) -> Result<HttpResponse, Error> {
        (**self).handle_request(req)
    }
}

#[test]
fn create_statuses() {
    let c = Client::new(Recorder(RefCell::new(Vec::new()), 413, vec![]));
    assert_eq!(c.create("u", 5), Err(Error::FileTooLarge));
    let c = Client::new(Recorder(RefCell::new(Vec::new()), 200, vec![]));
    assert_eq!(c.create("u", 5), Err(Error::UnexpectedStatusCode(200)));
    let c = Client::new(Recorder(RefCell::new(Vec::new()), 201, vec![]));
    assert_eq!(c.create("u", 5), Err(Error::MissingHeader("location".to_string())));
}

#[test]
fn delete_requires_204() {
    let rec = Recorder(RefCell::new(Vec::new()), 204, vec![]);
    let c = Client::with_method_override(&rec);
    assert_eq!(c.delete("u"), Ok(()));
    let reqs = rec.0.borrow();
    assert_eq!(reqs[0].method, HttpMethod::Post);
    assert_eq!(header(&reqs[0], "x-http-method-override"), Some("DELETE"));
    let c = Client::new(Recorder(RefCell::new(Vec::new()), 200, vec![]));
    assert_eq!(c.delete("u"), Err(Error::UnexpectedStatusCode(200)));
}

#[test]
fn extension_names() {
    assert_eq!(TusExtension::parse(" Concatenation\t"), Some(TusExtension::Concatenation));
    assert_eq!(TusExtension::parse("EXPIRATION"), Some(TusExtension::Expiration));
    assert_eq!(TusExtension::parse("creation-defer"), None);
    assert_eq!("termination".parse::<TusExtension>(), Ok(TusExtension::Termination));
}

#[test]
fn error_messages() {
    assert_eq!(
        Error::UnexpectedStatusCode(418).message(),
        "The status code returned by the server was not one of the expected ones: 418"
    );
    assert_eq!(
        Error::MissingHeader("location".to_string()).message(),
        "The 'location' header was missing from the server response"
    );
    assert_eq!(Error::FileReadError.message(), "Unable to read the specified file");
    assert_eq!(
        Error::HttpHandlerError("timeout".to_string()).message(),
        "An error occurred in the HTTP handler: timeout"
    );
}

#[test]
fn method_override_sends_post_with_true_method() {
    let rec = Recorder(RefCell::new(Vec::new()), 200, h(&[("Upload-Offset", "0")]));
    let c = Client::with_method_override(&rec).with_auth_token("t".to_string());
    let req = c.create_request(HttpMethod::Patch, "http://x", None, None);
    assert_eq!(req.method, HttpMethod::Post);
    assert_eq!(header(&req, "x-http-method-override"), Some("PATCH"));
    assert_eq!(header(&req, "authorization"), Some("Bearer t"));
    let info = c.get_info("http://x").unwrap();
    assert_eq!(info.bytes_uploaded, 0);
    assert_eq!(rec.0.borrow()[0].method, HttpMethod::Post);
    assert_eq!(header(&rec.0.borrow()[0], "x-http-method-override"), Some("HEAD"));
}

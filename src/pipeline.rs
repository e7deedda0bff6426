//! The decisions of the transcoding pipeline: the transcoder's argument
//! list for a format, the names of its outputs, where a source is fetched
//! from, and the content identifiers of what is published.
use crate::cid::{
    encrypted_cid_spec, hash_bytes_to_cid, plain_cid_spec, plain_cid_text, encrypted_cid_text,
    CHUNK_SIZE_AS_POWER_OF_2, CID_TYPE_ENCRYPTED, ENCRYPTION_XCHACHA20_POLY1305, MHASH_BLAKE3,
};
use crate::encoding::base64url_of;
use crate::text::{decimal_of, usize_to_decimal};
use vstd::prelude::*;

verus! {

/// An output format: its id and file extension, and the encoder settings
/// that are given (codecs, bitrates, filter, channel count, compression
/// level), and where it is published.
pub struct VideoFormat {
    pub id: u32,
    pub ext: String,
    pub vcodec: Option<String>,
    pub acodec: Option<String>,
    pub preset: Option<String>,
    pub profile: Option<String>,
    pub ch: Option<u8>,
    pub vf: Option<String>,
    pub b_v: Option<String>,
    pub ar: Option<String>,
    pub minrate: Option<String>,
    pub maxrate: Option<String>,
    pub bufsize: Option<String>,
    pub gpu: Option<bool>,
    pub compression_level: Option<u8>,
    pub dest: Option<String>,
}

/// The outcome of transcoding and publishing one format.
pub struct TranscodeVideoResponse {
    pub status_code: i32,
    pub message: String,
    pub cid: String,
}

/// Why no argument list can be made for a format.
#[derive(Debug, Clone, Copy, PartialEq, Eq, Structural)]
pub enum FormatError {
    /// The video codec is given but empty.
    NoVideoCodec,
    /// There is no video codec, and the audio codec is given but empty.
    NoAudioCodec,
    /// Neither codec is given.
    NoCodec,
}

/// Arguments as text.
pub open spec fn args_view(a: Seq<String>) -> Seq<Seq<char>> {
    a.map_values(|s: String| s@)
}

/// `flag value` when the value is given, nothing otherwise.
pub open spec fn opt_arg(flag: Seq<char>, v: Option<String>) -> Seq<Seq<char>> {
    match v {
        Some(s) => seq![flag, s@],
        None => Seq::empty(),
    }
}

/// `flag number` when the number is given, nothing otherwise.
pub open spec fn num_arg(flag: Seq<char>, v: Option<u8>) -> Seq<Seq<char>> {
    match v {
        Some(n) => seq![flag, decimal_of(n as nat)],
        None => Seq::empty(),
    }
}

/// Arguments every run starts with: informative logging and progress
/// reports on the diagnostic stream every second.
pub open spec fn base_args() -> Seq<Seq<char>> {
    seq!["-v"@, "info"@, "-progress"@, "pipe:2"@, "-stats_period"@, "1"@]
}

/// The transcoder's arguments for `f`, reading `input` and writing `output`.
pub open spec fn ffmpeg_args_spec(f: VideoFormat, input: Seq<char>, output: Seq<char>, is_gpu: bool) -> Result<Seq<Seq<char>>, FormatError> {
    let audio = seq!["-c:a"@, "libopus"@, "-b:a"@, "192k"@];
    if is_gpu {
        Ok(base_args() + seq!["-i"@, input] + opt_arg("-c:v"@, f.vcodec) + opt_arg("-b:v"@, f.b_v) + audio
            + num_arg("-ac"@, f.ch) + opt_arg("-ar"@, f.ar) + opt_arg("-vf"@, f.vf)
            + opt_arg("-minrate"@, f.minrate) + opt_arg("-maxrate"@, f.maxrate) + opt_arg("-bufsize"@, f.bufsize)
            + seq!["-y"@, output])
    } else {
        match f.vcodec {
            Some(v) => if v@.len() == 0 {
                Err(FormatError::NoVideoCodec)
            } else {
                Ok(base_args() + seq!["-i"@, input, "-c:v"@, v@, "-cpu-used"@, "4"@] + opt_arg("-b:v"@, f.b_v)
                    + seq!["-crf"@, "30"@] + audio + num_arg("-ac"@, f.ch) + opt_arg("-vf"@, f.vf)
                    + seq!["-y"@, output])
            },
            None => match f.acodec {
                Some(a) => if a@.len() == 0 {
                    Err(FormatError::NoAudioCodec)
                } else {
                    Ok(base_args() + seq!["-i"@, input, "-acodec"@, a@] + num_arg("-ac"@, f.ch)
                        + opt_arg("-ar"@, f.ar) + num_arg("-compression_level"@, f.compression_level)
                        + seq!["-y"@, output])
                },
                None => Err(FormatError::NoCodec),
            },
        }
    }
}

fn push_str(out: &mut Vec<String>, s: &str)
    ensures
        args_view(final(out)@) == args_view(old(out)@).push(s@),
{
    let ghost before = args_view(out@);
    out.push(String::from_str(s));
    proof {
        assert(args_view(out@) =~= before.push(s@));
    }
}

fn push_opt(out: &mut Vec<String>, flag: &str, v: &Option<String>)
    ensures
        args_view(final(out)@) == args_view(old(out)@) + opt_arg(flag@, *v),
{
    let ghost before = args_view(out@);
    match v {
        Some(s) => {
            push_str(out, flag);
            push_str(out, s.as_str());
            proof {
                assert(args_view(out@) =~= before + opt_arg(flag@, *v));
            }
        },
        None => {
            proof {
                assert(args_view(out@) =~= before + opt_arg(flag@, *v));
            }
        },
    }
}

fn push_num(out: &mut Vec<String>, flag: &str, v: Option<u8>)
    ensures
        args_view(final(out)@) == args_view(old(out)@) + num_arg(flag@, v),
{
    let ghost before = args_view(out@);
    match v {
        Some(n) => {
            push_str(out, flag);
            let d = usize_to_decimal(n as usize);
            push_str(out, d.as_str());
            proof {
                assert(args_view(out@) =~= before + num_arg(flag@, v));
            }
        },
        None => {
            proof {
                assert(args_view(out@) =~= before + num_arg(flag@, v));
            }
        },
    }
}

/// The transcoder's argument list for `format`: on the accelerator, the
/// given video settings with Opus audio at 192k; otherwise a video encode
/// at speed 4 and quality 30 with Opus audio, or, without a video codec,
/// an audio encode. The output `output` is overwritten.
pub fn ffmpeg_args(format: &VideoFormat, input: &str, output: &str, is_gpu: bool) -> (r: Result<Vec<String>, FormatError>)
    ensures
        match ffmpeg_args_spec(*format, input@, output@, is_gpu) {
            Ok(a) => r matches Ok(v) && args_view(v@) == a,
            Err(e) => r == Err::<Vec<String>, FormatError>(e),
        },
{
    proof {
        reveal_strlit("-v");
        reveal_strlit("info");
        reveal_strlit("-progress");
        reveal_strlit("pipe:2");
        reveal_strlit("-stats_period");
        reveal_strlit("1");
    }
    let mut a: Vec<String> = Vec::new();
    push_str(&mut a, "-v");
    push_str(&mut a, "info");
    push_str(&mut a, "-progress");
    push_str(&mut a, "pipe:2");
    push_str(&mut a, "-stats_period");
    push_str(&mut a, "1");
    proof {
        assert(args_view(a@) =~= base_args());
    }
    if is_gpu {
        push_str(&mut a, "-i");
        push_str(&mut a, input);
        push_opt(&mut a, "-c:v", &format.vcodec);
        push_opt(&mut a, "-b:v", &format.b_v);
        let ghost mid = args_view(a@);
        push_str(&mut a, "-c:a");
        push_str(&mut a, "libopus");
        push_str(&mut a, "-b:a");
        push_str(&mut a, "192k");
        proof {
            assert(args_view(a@) =~= mid + seq!["-c:a"@, "libopus"@, "-b:a"@, "192k"@]);
        }
        push_num(&mut a, "-ac", format.ch);
        push_opt(&mut a, "-ar", &format.ar);
        push_opt(&mut a, "-vf", &format.vf);
        push_opt(&mut a, "-minrate", &format.minrate);
        push_opt(&mut a, "-maxrate", &format.maxrate);
        push_opt(&mut a, "-bufsize", &format.bufsize);
        let ghost end = args_view(a@);
        push_str(&mut a, "-y");
        push_str(&mut a, output);
        proof {
            assert(args_view(a@) =~= end + seq!["-y"@, output@]);
            assert(args_view(a@) =~= ffmpeg_args_spec(*format, input@, output@, is_gpu)->Ok_0);
        }
        return Ok(a);
    }
    match &format.vcodec {
        Some(v) => {
            if v.as_str().unicode_len() == 0 {
                return Err(FormatError::NoVideoCodec);
            }
            let ghost start = args_view(a@);
            push_str(&mut a, "-i");
            push_str(&mut a, input);
            push_str(&mut a, "-c:v");
            push_str(&mut a, v.as_str());
            push_str(&mut a, "-cpu-used");
            push_str(&mut a, "4");
            proof {
                assert(args_view(a@) =~= start + seq!["-i"@, input@, "-c:v"@, v@, "-cpu-used"@, "4"@]);
            }
            push_opt(&mut a, "-b:v", &format.b_v);
            let ghost mid = args_view(a@);
            push_str(&mut a, "-crf");
            push_str(&mut a, "30");
            push_str(&mut a, "-c:a");
            push_str(&mut a, "libopus");
            push_str(&mut a, "-b:a");
            push_str(&mut a, "192k");
            proof {
                assert(args_view(a@) =~= mid + seq!["-crf"@, "30"@] + seq!["-c:a"@, "libopus"@, "-b:a"@, "192k"@]);
            }
            push_num(&mut a, "-ac", format.ch);
            push_opt(&mut a, "-vf", &format.vf);
            let ghost end = args_view(a@);
            push_str(&mut a, "-y");
            push_str(&mut a, output);
            proof {
                assert(args_view(a@) =~= end + seq!["-y"@, output@]);
                assert(args_view(a@) =~= ffmpeg_args_spec(*format, input@, output@, is_gpu)->Ok_0);
            }
            Ok(a)
        },
        None => match &format.acodec {
            Some(c) => {
                if c.as_str().unicode_len() == 0 {
                    return Err(FormatError::NoAudioCodec);
                }
                let ghost start = args_view(a@);
                push_str(&mut a, "-i");
                push_str(&mut a, input);
                push_str(&mut a, "-acodec");
                push_str(&mut a, c.as_str());
                proof {
                    assert(args_view(a@) =~= start + seq!["-i"@, input@, "-acodec"@, c@]);
                }
                push_num(&mut a, "-ac", format.ch);
                push_opt(&mut a, "-ar", &format.ar);
                push_num(&mut a, "-compression_level", format.compression_level);
                let ghost end = args_view(a@);
                push_str(&mut a, "-y");
                push_str(&mut a, output);
                proof {
                    assert(args_view(a@) =~= end + seq!["-y"@, output@]);
                    assert(args_view(a@) =~= ffmpeg_args_spec(*format, input@, output@, is_gpu)->Ok_0);
                }
                Ok(a)
            },
            None => Err(FormatError::NoCodec),
        },
    }
}

/// Name of a format's output: the input's file name, `_`, the format id.
pub open spec fn output_name_spec(input_name: Seq<char>, id: u32) -> Seq<char> {
    input_name + "_"@ + decimal_of(id as nat)
}

/// Name of a format's output: the input's file name, `_`, the format id.
pub fn output_name(input_name: &str, id: u32) -> (r: String)
    ensures
        r@ == output_name_spec(input_name@, id),
{
    let mut r = String::from_str(input_name);
    r.append("_");
    let d = usize_to_decimal(id as usize);
    r.append(d.as_str());
    proof {
        reveal_strlit("_");
    }
    r
}

/// Path of the transcoder's (unencrypted) output: `dir`, the output name,
/// `_ue.`, the extension.
pub fn unencrypted_output_path(dir: &str, name: &str, ext: &str) -> (r: String)
    ensures
        r@ == dir@ + name@ + "_ue."@ + ext@,
{
    let mut r = String::from_str(dir);
    r.append(name);
    r.append("_ue.");
    r.append(ext);
    r
}

/// Path of the encrypted output: `dir`, the output name, `.`, the extension.
pub fn encrypted_output_path(dir: &str, name: &str, ext: &str) -> (r: String)
    ensures
        r@ == dir@ + name@ + "."@ + ext@,
{
    let mut r = String::from_str(dir);
    r.append(name);
    r.append(".");
    r.append(ext);
    r
}

/// Where an unencrypted source is fetched from: `portal/s5/blob/source`.
pub fn blob_url(portal_url: &str, source_cid: &str) -> (r: String)
    ensures
        r@ == portal_url@ + "/s5/blob/"@ + source_cid@,
{
    let mut r = String::from_str(portal_url);
    r.append("/s5/blob/");
    r.append(source_cid);
    r
}

/// Where the download locations of an encrypted source are listed:
/// `portal/api/locations/hash?types=5,3`.
pub fn locations_url(portal_url: &str, blob_hash: &str) -> (r: String)
    ensures
        r@ == portal_url@ + "/api/locations/"@ + blob_hash@ + "?types=5,3"@,
{
    let mut r = String::from_str(portal_url);
    r.append("/api/locations/");
    r.append(blob_hash);
    r.append("?types=5,3");
    r
}

/// Index of the last `c` in `s[0, j)`.
pub open spec fn last_index_before(s: Seq<char>, c: char, j: int) -> Option<int>
    decreases j,
{
    if j <= 0 || j > s.len() {
        None
    } else if s[j - 1] == c {
        Some(j - 1)
    } else {
        last_index_before(s, c, j - 1)
    }
}

/// The file name of a path: what follows its last `/`.
pub open spec fn file_name_spec(s: Seq<char>) -> Seq<char> {
    match last_index_before(s, '/', s.len() as int) {
        Some(i) => s.subrange(i + 1, s.len() as int),
        None => s,
    }
}

/// A file name without its extension: what stands before the last `.`,
/// unless that `.` is the name's first character.
pub open spec fn stem_spec(s: Seq<char>) -> Seq<char> {
    match last_index_before(s, '.', s.len() as int) {
        Some(i) => if i > 0 { s.subrange(0, i) } else { s },
        None => s,
    }
}

/// The source id of a submitted address: its file name, with the
/// extension removed and then the stem taken once more (so `x.tar.gz`
/// gives `x`); `None` when that leaves nothing.
pub open spec fn source_id_spec(s: Seq<char>) -> Option<Seq<char>> {
    let id = stem_spec(stem_spec(file_name_spec(s)));
    if id.len() == 0 {
        None
    } else {
        Some(id)
    }
}

proof fn lemma_last_index_range(s: Seq<char>, c: char, j: int)
    ensures
        last_index_before(s, c, j) matches Some(i) ==> 0 <= i < j <= s.len() && s[i] == c,
    decreases j,
{
    if 0 < j <= s.len() && s[j - 1] != c {
        lemma_last_index_range(s, c, j - 1);
    }
}

fn find_last(s: &str, c: char) -> (r: Option<usize>)
    ensures
        match last_index_before(s@, c, s@.len() as int) {
            Some(i) => r matches Some(j) && j as int == i,
            None => r is None,
        },
{
    let n = s.unicode_len();
    let mut j: usize = n;
    while j > 0
        invariant
            j <= n == s@.len(),
            last_index_before(s@, c, n as int) == last_index_before(s@, c, j as int),
        decreases j,
    {
        if s.get_char(j - 1) == c {
            return Some(j - 1);
        }
        j = j - 1;
    }
    None
}

fn stem(s: &str) -> (r: String)
    ensures
        r@ == stem_spec(s@),
{
    proof {
        lemma_last_index_range(s@, '.', s@.len() as int);
    }
    match find_last(s, '.') {
        Some(i) => if i > 0 {
            String::from_str(s.substring_char(0, i))
        } else {
            String::from_str(s)
        },
        None => String::from_str(s),
    }
}

/// The source id of a submitted address (see `source_id_spec`).
pub fn source_id(source: &str) -> (r: Option<String>)
    ensures
        match source_id_spec(source@) {
            Some(id) => r matches Some(t) && t@ == id,
            None => r is None,
        },
{
    proof {
        lemma_last_index_range(source@, '/', source@.len() as int);
    }
    let n = source.unicode_len();
    let name = match find_last(source, '/') {
        Some(i) => String::from_str(source.substring_char(i + 1, n)),
        None => String::from_str(source),
    };
    let once = stem(name.as_str());
    let id = stem(once.as_str());
    if id.as_str().unicode_len() == 0 {
        None
    } else {
        Some(id)
    }
}

/// The BLAKE3 hash of `data`.
pub uninterp spec fn blake3_of(data: Seq<u8>) -> Seq<u8>;

/// Relies on `blake3::hash`: the 32-byte BLAKE3 hash of `data`.
#[verifier::external_body]
fn blake3_digest(data: &[u8]) -> (r: Vec<u8>)
    ensures
        r@ == blake3_of(data@),
        r@.len() == 32,
{
    blake3::hash(data).as_bytes().to_vec()
}

/// The BLAKE3 hash of `data` as a multihash: the BLAKE3 tag, then the hash.
pub fn blake3_multihash(data: &[u8]) -> (r: Vec<u8>)
    ensures
        r@ == seq![MHASH_BLAKE3] + blake3_of(data@),
        r@.len() == 33,
{
    let h = blake3_digest(data);
    let mut r: Vec<u8> = Vec::new();
    r.push(MHASH_BLAKE3);
    let mut i: usize = 0;
    while i < h.len()
        invariant
            i <= h@.len(),
            r@ == seq![MHASH_BLAKE3] + h@.subrange(0, i as int),
        decreases h@.len() - i,
    {
        proof {
            assert(h@.subrange(0, i + 1) =~= h@.subrange(0, i as int).push(h@[i as int]));
        }
        r.push(h[i]);
        i = i + 1;
    }
    proof {
        assert(h@.subrange(0, h@.len() as int) =~= h@);
    }
    r
}

/// The CID of a published unencrypted output `data`: the plain CID of its
/// BLAKE3 hash and size, as text.
pub fn plain_output_cid(data: &[u8]) -> (r: String)
    requires
        data@.len() <= u64::MAX,
    ensures
        r@ == seq!['u'] + base64url_of(plain_cid_spec(blake3_of(data@), data@.len())),
{
    let h = blake3_digest(data);
    plain_cid_text(h, data.len() as u64)
}

/// The CID of a published encrypted output: the encrypted CID that carries
/// the BLAKE3 multihash of the encrypted bytes, the key, the padding, and
/// the plain CID of the unencrypted bytes, as text.
pub fn encrypted_output_cid(plain: &[u8], encrypted: &[u8], key: Vec<u8>, padding: u32) -> (r: String)
    requires
        plain@.len() <= u64::MAX,
    ensures
        r@ == seq!['u'] + base64url_of(encrypted_cid_spec(
            CID_TYPE_ENCRYPTED,
            ENCRYPTION_XCHACHA20_POLY1305,
            CHUNK_SIZE_AS_POWER_OF_2,
            seq![MHASH_BLAKE3] + blake3_of(encrypted@),
            key@,
            padding,
            plain_cid_spec(blake3_of(plain@), plain@.len()),
        )),
{
    let blob_hash = blake3_multihash(encrypted);
    let plain_hash = blake3_digest(plain);
    let inner = hash_bytes_to_cid(plain_hash, plain.len() as u64);
    encrypted_cid_text(blob_hash, key, padding, inner)
}

} // verus!

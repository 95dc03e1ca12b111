use vstd::prelude::*;
use vstd::slice::{slice_subrange, slice_to_vec};
use vstd::string::StringSliceAdditionalSpecFns;
use vstd::utf8::encode_utf8;

use crate::bytes_eq;
use crate::cond::{eval_preconditions, ConditionOutcome, HttpMethod, RequestContext};
use crate::etag::{build_cache_key, etag_bytes};
use crate::httpdate::{http_date, http_date_bytes, timestamp_of, valid_date, HttpDate, MAX_HTTP_DATE};
use crate::options::ServiceOptions;

verus! {

/// How the body of a response is to be produced by the caller.
pub enum ResponseBody {
    /// No body at all.
    Empty,
    /// The given bytes.
    Bytes(Vec<u8>),
    /// The caller streams the resolved file's bytes from disk; the engine
    /// never buffers the file.
    Stream,
    /// A rendered HTML document.
    Html(Vec<u8>),
}

/// A complete response plan: status, ordered headers, and the body plan.
pub struct ResponseDescriptor {
    pub status: u16,
    pub headers: Vec<(Vec<u8>, Vec<u8>)>,
    pub body: ResponseBody,
}

/// The abstract value of a header list.
pub open spec fn headers_model(h: Seq<(Vec<u8>, Vec<u8>)>) -> Seq<(Seq<u8>, Seq<u8>)> {
    Seq::new(h.len(), |i: int| (h[i].0@, h[i].1@))
}

/// The shortest decimal spelling of `n`.
pub open spec fn dec_seq(n: nat) -> Seq<u8>
    decreases n,
{
    if n < 10 {
        seq![(48 + n) as u8]
    } else {
        dec_seq(n / 10).push((48 + n % 10) as u8)
    }
}

/// The shortest decimal spelling of `n`, as bytes.
pub fn u64_to_dec(n: u64) -> (r: Vec<u8>)
    ensures
        r@ == dec_seq(n as nat),
{
    let mut digits: Vec<u8> = Vec::new();
    let mut cur: u64 = n;
    while cur >= 10
        invariant
            dec_seq(n as nat) == dec_seq(cur as nat) + digits@,
        decreases cur,
    {
        let digit: u8 = 48 + (cur % 10) as u8;
        let ghost old_digits = digits@;
        digits.insert(0, digit);
        proof {
            assert(digits@ =~= seq![digit] + old_digits);
            assert(dec_seq((cur as nat) / 10) + (seq![digit] + old_digits) =~= (dec_seq(
                (cur as nat) / 10,
            ).push(digit)) + old_digits);
            assert((cur / 10) as nat == (cur as nat) / 10);
        }
        cur = cur / 10;
    }
    let digit: u8 = 48 + cur as u8;
    let ghost old_digits = digits@;
    digits.insert(0, digit);
    proof {
        assert(dec_seq(cur as nat) == seq![digit]);
        assert(digits@ =~= seq![digit] + old_digits);
        assert(dec_seq(n as nat) =~= digits@);
    }
    digits
}

/// Index of the last `.` in `s`, or `-1` when none occurs.
pub open spec fn last_dot(s: Seq<u8>) -> int
    decreases s.len(),
{
    if s.len() == 0 {
        -1
    } else if s.last() == 46 {
        s.len() - 1
    } else {
        last_dot(s.drop_last())
    }
}

/// The extension of a file name: what follows the last dot, provided that
/// dot is neither the first byte nor absent.
pub open spec fn ext_of(name: Seq<u8>) -> Seq<u8> {
    if last_dot(name) > 0 {
        name.skip(last_dot(name) + 1)
    } else {
        Seq::empty()
    }
}

proof fn lemma_last_dot_char(s: Seq<u8>, k: int)
    requires
        -1 <= k < s.len(),
        k >= 0 ==> s[k] == 46,
        forall|j: int| k < j < s.len() ==> s[j] != 46,
    ensures
        last_dot(s) == k,
    decreases s.len(),
{
    if s.len() == 0 {
    } else if s.last() == 46 {
        assert(k == s.len() - 1);
    } else {
        assert(k < s.len() - 1);
        lemma_last_dot_char(s.drop_last(), k);
    }
}

/// The extension of `name`, lower seven-bit bytes as they stand.
pub fn file_extension(name: &[u8]) -> (r: Vec<u8>)
    ensures
        r@ == ext_of(name@),
{
    let mut i: usize = name.len();
    while i > 0 && name[i - 1] != 46
        invariant
            i <= name.len(),
            forall|j: int| i <= j < name@.len() ==> name@[j] != 46,
        decreases i,
    {
        i -= 1;
    }
    if i > 1 {
        proof {
            lemma_last_dot_char(name@, i - 1);
        }
        slice_to_vec(slice_subrange(name, i, name.len()))
    } else {
        proof {
            if i == 0 {
                lemma_last_dot_char(name@, -1);
            } else {
                lemma_last_dot_char(name@, 0);
            }
        }
        Vec::new()
    }
}

/// The media type for a file extension: a fixed mapping, with
/// `application/octet-stream` for everything unlisted.
pub open spec fn mime_of(ext: Seq<u8>) -> Seq<u8> {
    if ext == encode_utf8("html"@) || ext == encode_utf8("htm"@) {
        encode_utf8("text/html"@)
    } else if ext == encode_utf8("css"@) {
        encode_utf8("text/css"@)
    } else if ext == encode_utf8("js"@) {
        encode_utf8("application/javascript"@)
    } else if ext == encode_utf8("json"@) {
        encode_utf8("application/json"@)
    } else if ext == encode_utf8("txt"@) {
        encode_utf8("text/plain"@)
    } else if ext == encode_utf8("png"@) {
        encode_utf8("image/png"@)
    } else if ext == encode_utf8("jpg"@) || ext == encode_utf8("jpeg"@) {
        encode_utf8("image/jpeg"@)
    } else if ext == encode_utf8("gif"@) {
        encode_utf8("image/gif"@)
    } else if ext == encode_utf8("svg"@) {
        encode_utf8("image/svg+xml"@)
    } else if ext == encode_utf8("ico"@) {
        encode_utf8("image/x-icon"@)
    } else if ext == encode_utf8("pdf"@) {
        encode_utf8("application/pdf"@)
    } else if ext == encode_utf8("xml"@) {
        encode_utf8("application/xml"@)
    } else if ext == encode_utf8("wasm"@) {
        encode_utf8("application/wasm"@)
    } else {
        encode_utf8("application/octet-stream"@)
    }
}

/// The media type for a file extension.
pub fn mime_for(ext: &[u8]) -> (r: &'static str)
    ensures
        r.spec_bytes() == mime_of(ext@),
{
    if bytes_eq(ext, "html".as_bytes()) || bytes_eq(ext, "htm".as_bytes()) {
        "text/html"
    } else if bytes_eq(ext, "css".as_bytes()) {
        "text/css"
    } else if bytes_eq(ext, "js".as_bytes()) {
        "application/javascript"
    } else if bytes_eq(ext, "json".as_bytes()) {
        "application/json"
    } else if bytes_eq(ext, "txt".as_bytes()) {
        "text/plain"
    } else if bytes_eq(ext, "png".as_bytes()) {
        "image/png"
    } else if bytes_eq(ext, "jpg".as_bytes()) || bytes_eq(ext, "jpeg".as_bytes()) {
        "image/jpeg"
    } else if bytes_eq(ext, "gif".as_bytes()) {
        "image/gif"
    } else if bytes_eq(ext, "svg".as_bytes()) {
        "image/svg+xml"
    } else if bytes_eq(ext, "ico".as_bytes()) {
        "image/x-icon"
    } else if bytes_eq(ext, "pdf".as_bytes()) {
        "application/pdf"
    } else if bytes_eq(ext, "xml".as_bytes()) {
        "application/xml"
    } else if bytes_eq(ext, "wasm".as_bytes()) {
        "application/wasm"
    } else {
        "application/octet-stream"
    }
}

/// The escape of one byte inside a quoted `filename` parameter: quotes
/// and backslashes get a backslash, everything else stands for itself.
pub open spec fn cd_escaped_byte(b: u8) -> Seq<u8> {
    if b == 34 || b == 92 {
        seq![92u8, b]
    } else {
        seq![b]
    }
}

pub open spec fn cd_escaped(s: Seq<u8>) -> Seq<u8>
    decreases s.len(),
{
    if s.len() == 0 {
        Seq::empty()
    } else {
        cd_escaped(s.drop_last()) + cd_escaped_byte(s.last())
    }
}

/// The value of a `Content-Disposition` header naming the file inline.
pub open spec fn cd_value(name: Seq<u8>) -> Seq<u8> {
    encode_utf8("inline; filename=\""@) + cd_escaped(name) + encode_utf8("\""@)
}

/// Builds the `Content-Disposition` value for a file name.
pub fn build_cd_value(name: &[u8]) -> (r: Vec<u8>)
    ensures
        r@ == cd_value(name@),
{
    let mut out: Vec<u8> = Vec::new();
    out.extend_from_slice("inline; filename=\"".as_bytes());
    let ghost head = out@;
    let mut i: usize = 0;
    while i < name.len()
        invariant
            i <= name.len(),
            out@ == head + cd_escaped(name@.take(i as int)),
        decreases name.len() - i,
    {
        let b: u8 = name[i];
        if b == 34 || b == 92 {
            out.push(92);
        }
        out.push(b);
        proof {
            assert(name@.take(i + 1).drop_last() =~= name@.take(i as int));
            assert(name@.take(i + 1).last() == name@[i as int]);
            assert(out@ =~= head + cd_escaped(name@.take(i + 1)));
        }
        i += 1;
    }
    out.extend_from_slice("\"".as_bytes());
    proof {
        assert(name@.take(name@.len() as int) =~= name@);
        assert(out@ =~= cd_value(name@));
    }
    out
}

/// The entity tag the configuration yields for a file, when enabled.
pub open spec fn spec_etag_opt(opts: ServiceOptions, size: nat, mtime: nat) -> Option<Seq<u8>> {
    if opts.disable_etag {
        Option::None
    } else {
        Option::Some(etag_bytes(size, mtime))
    }
}

/// The last-modified validator the configuration yields, when enabled.
pub open spec fn spec_lm_opt(opts: ServiceOptions, mtime: u64) -> Option<u64> {
    if opts.disable_last_modified {
        Option::None
    } else {
        Option::Some(mtime)
    }
}

/// `lm` is acceptable as the last-modified spelling: when the validator
/// is disabled the spelling is irrelevant, otherwise it must be the RFC
/// 7231 spelling of the moment `t` denotes.
pub open spec fn lm_ok(opts: ServiceOptions, t: u64, lm: Seq<u8>) -> bool {
    opts.disable_last_modified || lm_matches(t, lm)
}

/// `lm` is the RFC 7231 spelling of the moment `t` denotes.
pub open spec fn lm_matches(t: u64, lm: Seq<u8>) -> bool {
    exists|d: HttpDate|
        #![trigger http_date_bytes(d)]
        valid_date(d) && timestamp_of(d) == t && d.weekday == ((t / 86400) + 4) % 7 && lm
            == http_date_bytes(d)
}

/// The validator headers the configuration asks for.
pub open spec fn validator_headers(
    opts: ServiceOptions,
    size: nat,
    mtime: nat,
    lm: Seq<u8>,
) -> Seq<(Seq<u8>, Seq<u8>)> {
    (if opts.disable_etag {
        Seq::<(Seq<u8>, Seq<u8>)>::empty()
    } else {
        seq![(encode_utf8("ETag"@), etag_bytes(size, mtime))]
    }) + (if opts.disable_last_modified {
        Seq::<(Seq<u8>, Seq<u8>)>::empty()
    } else {
        seq![(encode_utf8("Last-Modified"@), lm)]
    })
}

/// The full header list of a `200` file response: media type, exact
/// length, optional disposition, then the validators.
pub open spec fn file_ok_headers(
    opts: ServiceOptions,
    name: Seq<u8>,
    size: nat,
    mtime: nat,
    lm: Seq<u8>,
) -> Seq<(Seq<u8>, Seq<u8>)> {
    seq![
        (encode_utf8("Content-Type"@), mime_of(ext_of(name))),
        (encode_utf8("Content-Length"@), dec_seq(size)),
    ] + (if opts.disable_content_disposition {
        Seq::<(Seq<u8>, Seq<u8>)>::empty()
    } else {
        seq![(encode_utf8("Content-Disposition"@), cd_value(name))]
    }) + validator_headers(opts, size, mtime, lm)
}

/// What a response to a resolved regular file must look like, for every
/// outcome of the precondition evaluation: a full `200` with the file's
/// headers and a streamed body for `Serve`, a bodyless `304` carrying
/// only the validators for `NotModified` (never a `Content-Length`), and
/// a bare `412` for `PreconditionFailed`; `HEAD` always suppresses the
/// body while keeping the headers.
pub open spec fn file_response_ok(
    opts: ServiceOptions,
    req: RequestContext,
    name: Seq<u8>,
    size: u64,
    mtime: u64,
    r: ResponseDescriptor,
) -> bool {
    let outcome = eval_preconditions(
        req,
        spec_etag_opt(opts, size as nat, mtime as nat),
        spec_lm_opt(opts, mtime),
    );
    match outcome {
        ConditionOutcome::Serve => {
            &&& r.status == 200
            &&& exists|lm: Seq<u8>|
                #![trigger file_ok_headers(opts, name, size as nat, mtime as nat, lm)]
                lm_ok(opts, mtime, lm) && headers_model(r.headers@) == file_ok_headers(
                    opts,
                    name,
                    size as nat,
                    mtime as nat,
                    lm,
                )
            &&& if req.method is Head {
                r.body is Empty
            } else {
                r.body is Stream
            }
        },
        ConditionOutcome::NotModified => {
            &&& r.status == 304
            &&& exists|lm: Seq<u8>|
                #![trigger validator_headers(opts, size as nat, mtime as nat, lm)]
                lm_ok(opts, mtime, lm) && headers_model(r.headers@) == validator_headers(
                    opts,
                    size as nat,
                    mtime as nat,
                    lm,
                )
            &&& r.body is Empty
        },
        ConditionOutcome::PreconditionFailed => {
            &&& r.status == 412
            &&& headers_model(r.headers@) == Seq::<(Seq<u8>, Seq<u8>)>::empty()
            &&& r.body is Empty
        },
    }
}

fn push_validator_headers(
    out: &mut Vec<(Vec<u8>, Vec<u8>)>,
    opts: &ServiceOptions,
    size: u64,
    mtime: u64,
)
    requires
        mtime <= MAX_HTTP_DATE,
    ensures
        exists|lm: Seq<u8>|
            #![trigger validator_headers(*opts, size as nat, mtime as nat, lm)]
            lm_ok(*opts, mtime, lm) && headers_model(final(out)@) == headers_model(old(out)@)
                + validator_headers(*opts, size as nat, mtime as nat, lm),
{
    let ghost start = out@;
    if !opts.disable_etag {
        let tag = crate::etag::build_etag(size, mtime);
        out.push((slice_to_vec("ETag".as_bytes()), tag));
        proof {
            assert(headers_model(out@) =~= headers_model(start) + seq![
                (encode_utf8("ETag"@), etag_bytes(size as nat, mtime as nat)),
            ]);
        }
    }
    let ghost mid = out@;
    if !opts.disable_last_modified {
        let lm = http_date(mtime);
        out.push((slice_to_vec("Last-Modified".as_bytes()), lm));
        proof {
            let d = choose|d: HttpDate|
                #![trigger http_date_bytes(d)]
                valid_date(d) && timestamp_of(d) == mtime && d.weekday == ((mtime / 86400) + 4) % 7
                    && lm@ == http_date_bytes(d);
            assert(lm_matches(mtime, lm@));
            assert(lm_ok(*opts, mtime, lm@));
            assert(headers_model(out@) =~= headers_model(mid) + seq![
                (encode_utf8("Last-Modified"@), lm@),
            ]);
            assert(headers_model(out@) =~= headers_model(start) + validator_headers(
                *opts,
                size as nat,
                mtime as nat,
                lm@,
            ));
        }
    } else {
        proof {
            let lm = Seq::<u8>::empty();
            assert(lm_ok(*opts, mtime, lm));
            assert(headers_model(out@) =~= headers_model(start) + validator_headers(
                *opts,
                size as nat,
                mtime as nat,
                lm,
            ));
        }
    }
}

/// Assembles the response for a resolved regular file: derives the
/// validators, evaluates the request's preconditions, and produces the
/// one response plan HTTP prescribes for the outcome.
pub fn assemble_file_response(
    opts: &ServiceOptions,
    req: &RequestContext,
    name: &[u8],
    size: u64,
    mtime: u64,
) -> (r: ResponseDescriptor)
    requires
        mtime <= MAX_HTTP_DATE,
    ensures
        file_response_ok(*opts, *req, name@, size, mtime, r),
{
    let key = build_cache_key(opts, size, mtime);
    let outcome = crate::cond::evaluate(req, &key);
    proof {
        assert(crate::cond::key_etag_view(key) == spec_etag_opt(*opts, size as nat, mtime as nat));
        assert(key.last_modified == spec_lm_opt(*opts, mtime));
    }
    match outcome {
        ConditionOutcome::PreconditionFailed => {
            let r = ResponseDescriptor { status: 412, headers: Vec::new(), body: ResponseBody::Empty };
            proof {
                assert(headers_model(r.headers@) =~= Seq::<(Seq<u8>, Seq<u8>)>::empty());
            }
            r
        },
        ConditionOutcome::NotModified => {
            let mut headers: Vec<(Vec<u8>, Vec<u8>)> = Vec::new();
            push_validator_headers(&mut headers, opts, size, mtime);
            proof {
                let ghost lm = choose|lm: Seq<u8>|
                    #![trigger validator_headers(*opts, size as nat, mtime as nat, lm)]
                    lm_ok(*opts, mtime, lm) && headers_model(headers@) == headers_model(
                        Seq::<(Vec<u8>, Vec<u8>)>::empty(),
                    ) + validator_headers(*opts, size as nat, mtime as nat, lm);
                assert(headers_model(Seq::<(Vec<u8>, Vec<u8>)>::empty()) =~= Seq::<
                    (Seq<u8>, Seq<u8>),
                >::empty());
                assert(headers_model(headers@) == validator_headers(
                    *opts,
                    size as nat,
                    mtime as nat,
                    lm,
                ));
            }
            ResponseDescriptor { status: 304, headers, body: ResponseBody::Empty }
        },
        ConditionOutcome::Serve => {
            let mut headers: Vec<(Vec<u8>, Vec<u8>)> = Vec::new();
            let ext = file_extension(name);
            let mime = mime_for(ext.as_slice());
            headers.push((slice_to_vec("Content-Type".as_bytes()), slice_to_vec(mime.as_bytes())));
            headers.push((slice_to_vec("Content-Length".as_bytes()), u64_to_dec(size)));
            let ghost base = headers@;
            proof {
                assert(headers_model(base) =~= seq![
                    (encode_utf8("Content-Type"@), mime_of(ext_of(name@))),
                    (encode_utf8("Content-Length"@), dec_seq(size as nat)),
                ]);
            }
            if !opts.disable_content_disposition {
                let cd = build_cd_value(name);
                headers.push((slice_to_vec("Content-Disposition".as_bytes()), cd));
                proof {
                    assert(headers_model(headers@) =~= headers_model(base) + seq![
                        (encode_utf8("Content-Disposition"@), cd_value(name@)),
                    ]);
                }
            }
            let ghost with_cd = headers@;
            push_validator_headers(&mut headers, opts, size, mtime);
            proof {
                let ghost lm = choose|lm: Seq<u8>|
                    #![trigger validator_headers(*opts, size as nat, mtime as nat, lm)]
                    lm_ok(*opts, mtime, lm) && headers_model(headers@) == headers_model(with_cd)
                        + validator_headers(*opts, size as nat, mtime as nat, lm);
                assert(headers_model(headers@) =~= file_ok_headers(
                    *opts,
                    name@,
                    size as nat,
                    mtime as nat,
                    lm,
                ));
            }
            let body = if matches!(req.method, HttpMethod::Head) {
                ResponseBody::Empty
            } else {
                ResponseBody::Stream
            };
            ResponseDescriptor { status: 200, headers, body }
        },
    }
}

/// The short reason text of an error status; no path detail ever occurs.
pub open spec fn error_body(status: int) -> Seq<u8> {
    if status == 400 {
        encode_utf8("Bad Request"@)
    } else if status == 403 {
        encode_utf8("Forbidden"@)
    } else {
        encode_utf8("Not Found"@)
    }
}

/// A minimal error response: a plain-text reason phrase and nothing of
/// the file system.
pub fn error_response(status: u16, head_only: bool) -> (r: ResponseDescriptor)
    requires
        status == 400 || status == 403 || status == 404,
    ensures
        r.status == status,
        headers_model(r.headers@) == seq![
            (encode_utf8("Content-Type"@), encode_utf8("text/plain"@)),
        ],
        head_only ==> r.body is Empty,
        !head_only ==> (r.body matches ResponseBody::Bytes(b) && b@ == error_body(status as int)),
{
    let mut headers: Vec<(Vec<u8>, Vec<u8>)> = Vec::new();
    headers.push((slice_to_vec("Content-Type".as_bytes()), slice_to_vec("text/plain".as_bytes())));
    proof {
        assert(headers_model(headers@) =~= seq![
            (encode_utf8("Content-Type"@), encode_utf8("text/plain"@)),
        ]);
    }
    let body = if head_only {
        ResponseBody::Empty
    } else if status == 400 {
        ResponseBody::Bytes(slice_to_vec("Bad Request".as_bytes()))
    } else if status == 403 {
        ResponseBody::Bytes(slice_to_vec("Forbidden".as_bytes()))
    } else {
        ResponseBody::Bytes(slice_to_vec("Not Found".as_bytes()))
    };
    ResponseDescriptor { status, headers, body }
}

/// A permanent redirect adding the trailing slash: the `Location` is the
/// raw request path plus `/`, and no body accompanies it.
pub fn redirect_response(raw_path: &[u8]) -> (r: ResponseDescriptor)
    ensures
        r.status == 301,
        headers_model(r.headers@) == seq![(encode_utf8("Location"@), raw_path@ + seq![47u8])],
        r.body is Empty,
{
    let mut location = slice_to_vec(raw_path);
    location.push(47);
    proof {
        assert(location@ =~= raw_path@ + seq![47u8]);
    }
    let mut headers: Vec<(Vec<u8>, Vec<u8>)> = Vec::new();
    headers.push((slice_to_vec("Location".as_bytes()), location));
    proof {
        assert(headers_model(headers@) =~= seq![
            (encode_utf8("Location"@), raw_path@ + seq![47u8]),
        ]);
    }
    ResponseDescriptor { status: 301, headers, body: ResponseBody::Empty }
}

/// One moment has one Last-Modified spelling: any two byte sequences
/// that both spell the moment `t` are identical.
pub proof fn lemma_last_modified_unique(t: u64, lm1: Seq<u8>, lm2: Seq<u8>)
    requires
        lm_matches(t, lm1),
        lm_matches(t, lm2),
    ensures
        lm1 == lm2,
{
    let d1 = choose|d: HttpDate|
        #![trigger http_date_bytes(d)]
        valid_date(d) && timestamp_of(d) == t && d.weekday == ((t / 86400) + 4) % 7 && lm1
            == http_date_bytes(d);
    let d2 = choose|d: HttpDate|
        #![trigger http_date_bytes(d)]
        valid_date(d) && timestamp_of(d) == t && d.weekday == ((t / 86400) + 4) % 7 && lm2
            == http_date_bytes(d);
    crate::httpdate::lemma_date_unique(d1, d2);
}

} // verus!

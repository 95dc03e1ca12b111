use file_server::cond::{EtagToken, HttpMethod, RequestContext};
use file_server::etag::build_etag;
use file_server::httpdate::http_date;
use file_server::listing::{sort_entries, render_listing, DirEntry};
use file_server::options::ServiceOptions;
use file_server::resolve::{is_within_root, local_path, resolve, ResolveError};
use file_server::response::{ResponseBody, ResponseDescriptor};
use file_server::serve::{respond, FileMeta, FsProbe, ResolvedTarget};

fn make_opts(
    path: &str,
    directory: &str,
    index_file: &str,
    redirect: bool,
    listing: bool,
) -> ServiceOptions {
    ServiceOptions::new(
        path.to_string(),
        directory.to_string(),
        index_file.to_string(),
        false,
        false,
        false,
        redirect,
        listing,
    )
}

fn plain_request(method: HttpMethod) -> RequestContext {
    RequestContext {
        method,
        if_match: None,
        if_none_match: None,
        if_modified_since: None,
        if_unmodified_since: None,
    }
}

fn header_value(r: &ResponseDescriptor, name: &str) -> Option<Vec<u8>> {
    for (k, v) in r.headers.iter() {
        if k.as_slice() == name.as_bytes() {
            return Some(v.clone());
        }
    }
    None
}

#[test]
fn traversal_raw_dotdot_is_forbidden() {
    let opts = make_opts("/", "/srv", "index.html", false, false);
    let r = resolve(&opts, b"/../secret");
    assert!(matches!(r, Err(ResolveError::Forbidden)));
}

#[test]
fn traversal_encoded_dotdot_is_forbidden() {
    let opts = make_opts("/", "/srv", "index.html", false, false);
    let r = resolve(&opts, b"/%2e%2e/secret");
    assert!(matches!(r, Err(ResolveError::Forbidden)));
}

#[test]
fn traversal_embedded_dotdot_is_forbidden() {
    // The scenario from the serving rules: `/a%2e%2e/secret` under `/srv`.
    let opts = make_opts("/", "/srv", "index.html", false, false);
    let r = resolve(&opts, b"/a%2e%2e/secret");
    assert!(matches!(r, Err(ResolveError::Forbidden)));
}

#[test]
fn backslash_segment_is_forbidden() {
    let opts = make_opts("/", "/srv", "index.html", false, false);
    let r = resolve(&opts, b"/a%5cb");
    assert!(matches!(r, Err(ResolveError::Forbidden)));
}

#[test]
fn broken_percent_encoding_is_invalid() {
    let opts = make_opts("/", "/srv", "index.html", false, false);
    assert!(matches!(resolve(&opts, b"/a%zz"), Err(ResolveError::InvalidPath)));
    assert!(matches!(resolve(&opts, b"/a%4"), Err(ResolveError::InvalidPath)));
}

#[test]
fn embedded_null_is_invalid() {
    let opts = make_opts("/", "/srv", "index.html", false, false);
    assert!(matches!(resolve(&opts, b"/a%00b"), Err(ResolveError::InvalidPath)));
}

#[test]
fn non_utf8_bytes_are_invalid() {
    let opts = make_opts("/", "/srv", "index.html", false, false);
    assert!(matches!(resolve(&opts, b"/a%ffb"), Err(ResolveError::InvalidPath)));
}

#[test]
fn path_outside_mount_is_not_found() {
    let opts = make_opts("/files", "/srv", "index.html", false, false);
    assert!(matches!(resolve(&opts, b"/other/x"), Err(ResolveError::NotFound)));
    assert!(matches!(resolve(&opts, b"/filesx"), Err(ResolveError::NotFound)));
}

#[test]
fn ordinary_path_resolves_to_segments() {
    let opts = make_opts("/", "/srv", "index.html", false, false);
    let res = resolve(&opts, b"/a/b.txt").unwrap();
    assert_eq!(res.segments.len(), 2);
    assert_eq!(res.segments[0], b"a".to_vec());
    assert_eq!(res.segments[1], b"b.txt".to_vec());
    assert!(!res.trailing_slash);
    let joined = local_path(&opts, &res);
    assert_eq!(joined, b"/srv/a/b.txt".to_vec());
}

#[test]
fn empty_and_dot_segments_are_dropped() {
    let opts = make_opts("/", "/srv", "index.html", false, false);
    let res = resolve(&opts, b"//a/./b/").unwrap();
    assert_eq!(res.segments.len(), 2);
    assert_eq!(res.segments[0], b"a".to_vec());
    assert_eq!(res.segments[1], b"b".to_vec());
    assert!(res.trailing_slash);
}

#[test]
fn percent_decoding_applies_to_segments() {
    let opts = make_opts("/", "/srv", "index.html", false, false);
    let res = resolve(&opts, b"/caf%C3%A9%20bar").unwrap();
    assert_eq!(res.segments.len(), 1);
    assert_eq!(res.segments[0], "caf\u{e9} bar".as_bytes().to_vec());
}

#[test]
fn mounted_prefix_is_stripped() {
    let opts = make_opts("/files", "/srv", "index.html", false, false);
    let res = resolve(&opts, b"/files/a.txt").unwrap();
    assert_eq!(res.segments.len(), 1);
    assert_eq!(res.segments[0], b"a.txt".to_vec());
}

#[test]
fn within_root_checks_the_boundary() {
    assert!(is_within_root(b"/srv", b"/srv"));
    assert!(is_within_root(b"/srv", b"/srv/a/b"));
    assert!(!is_within_root(b"/srv", b"/srvx/a"));
    assert!(!is_within_root(b"/srv", b"/etc/passwd"));
}

#[test]
fn etag_is_deterministic_and_sensitive() {
    let a = build_etag(10, 20);
    let b = build_etag(10, 20);
    assert_eq!(a, b);
    assert_eq!(a, b"\"a-14\"".to_vec());
    assert_ne!(build_etag(11, 20), a);
    assert_ne!(build_etag(10, 21), a);
}

#[test]
fn http_date_formats_the_rfc_example() {
    assert_eq!(http_date(784111777), b"Sun, 06 Nov 1994 08:49:37 GMT".to_vec());
    assert_eq!(http_date(0), b"Thu, 01 Jan 1970 00:00:00 GMT".to_vec());
    assert_eq!(http_date(951827696), b"Tue, 29 Feb 2000 12:34:56 GMT".to_vec());
}

#[test]
fn if_none_match_hit_yields_304_without_body() {
    let opts = make_opts("/", "/srv", "index.html", false, false);
    let res = resolve(&opts, b"/a.txt").unwrap();
    let tag = build_etag(5, 1000);
    let req = RequestContext {
        method: HttpMethod::Get,
        if_match: None,
        if_none_match: Some(EtagToken { weak: false, opaque: tag }),
        if_modified_since: None,
        if_unmodified_since: None,
    };
    let probe = FsProbe {
        target: ResolvedTarget::File { size: 5, mtime: 1000 },
        index: None,
        entries: Vec::new(),
    };
    let r = respond(&opts, &req, b"/a.txt", &res, probe);
    assert_eq!(r.status, 304);
    assert!(matches!(r.body, ResponseBody::Empty));
    assert!(header_value(&r, "Content-Length").is_none());
    assert!(header_value(&r, "ETag").is_some());
}

#[test]
fn stale_if_none_match_yields_full_200() {
    let opts = make_opts("/", "/srv", "index.html", false, false);
    let res = resolve(&opts, b"/a.txt").unwrap();
    let req = RequestContext {
        method: HttpMethod::Get,
        if_match: None,
        if_none_match: Some(EtagToken { weak: false, opaque: b"\"stale\"".to_vec() }),
        if_modified_since: None,
        if_unmodified_since: None,
    };
    let probe = FsProbe {
        target: ResolvedTarget::File { size: 5, mtime: 1000 },
        index: None,
        entries: Vec::new(),
    };
    let r = respond(&opts, &req, b"/a.txt", &res, probe);
    assert_eq!(r.status, 200);
    assert!(matches!(r.body, ResponseBody::Stream));
    assert_eq!(header_value(&r, "Content-Length").unwrap(), b"5".to_vec());
}

#[test]
fn if_match_mismatch_yields_412() {
    let opts = make_opts("/", "/srv", "index.html", false, false);
    let res = resolve(&opts, b"/a.txt").unwrap();
    let req = RequestContext {
        method: HttpMethod::Get,
        if_match: Some(EtagToken { weak: false, opaque: b"\"other\"".to_vec() }),
        if_none_match: None,
        if_modified_since: None,
        if_unmodified_since: None,
    };
    let probe = FsProbe {
        target: ResolvedTarget::File { size: 5, mtime: 1000 },
        index: None,
        entries: Vec::new(),
    };
    let r = respond(&opts, &req, b"/a.txt", &res, probe);
    assert_eq!(r.status, 412);
    assert!(matches!(r.body, ResponseBody::Empty));
    assert!(r.headers.is_empty());
}

#[test]
fn if_modified_since_at_mtime_yields_304() {
    // The scenario: a request with `If-Modified-Since` at the file's own
    // modification time is answered not-modified.
    let opts = make_opts("/", "/srv", "index.html", false, false);
    let res = resolve(&opts, b"/big.bin").unwrap();
    let req = RequestContext {
        method: HttpMethod::Get,
        if_match: None,
        if_none_match: None,
        if_modified_since: Some(1700000000),
        if_unmodified_since: None,
    };
    let probe = FsProbe {
        target: ResolvedTarget::File { size: 1 << 30, mtime: 1700000000 },
        index: None,
        entries: Vec::new(),
    };
    let r = respond(&opts, &req, b"/big.bin", &res, probe);
    assert_eq!(r.status, 304);
    assert!(matches!(r.body, ResponseBody::Empty));
}

#[test]
fn head_request_keeps_headers_and_drops_body() {
    let opts = make_opts("/", "/srv", "index.html", false, false);
    let res = resolve(&opts, b"/a.txt").unwrap();
    let req = plain_request(HttpMethod::Head);
    let probe = FsProbe {
        target: ResolvedTarget::File { size: 42, mtime: 1000 },
        index: None,
        entries: Vec::new(),
    };
    let r = respond(&opts, &req, b"/a.txt", &res, probe);
    assert_eq!(r.status, 200);
    assert!(matches!(r.body, ResponseBody::Empty));
    assert_eq!(header_value(&r, "Content-Length").unwrap(), b"42".to_vec());
    assert_eq!(header_value(&r, "Content-Type").unwrap(), b"text/plain".to_vec());
}

#[test]
fn missing_target_yields_404() {
    let opts = make_opts("/", "/srv", "index.html", false, false);
    let res = resolve(&opts, b"/missing.txt").unwrap();
    let req = plain_request(HttpMethod::Get);
    let probe = FsProbe { target: ResolvedTarget::Missing, index: None, entries: Vec::new() };
    let r = respond(&opts, &req, b"/missing.txt", &res, probe);
    assert_eq!(r.status, 404);
    match r.body {
        ResponseBody::Bytes(b) => assert_eq!(b, b"Not Found".to_vec()),
        _ => panic!("expected a short body"),
    }
}

#[test]
fn root_with_index_serves_the_index_file() {
    let opts = make_opts("/", "/srv", "index.html", false, false);
    let res = resolve(&opts, b"/").unwrap();
    assert!(res.trailing_slash);
    let req = plain_request(HttpMethod::Get);
    let probe = FsProbe {
        target: ResolvedTarget::Directory,
        index: Some(FileMeta { size: 120, mtime: 1000 }),
        entries: Vec::new(),
    };
    let r = respond(&opts, &req, b"/", &res, probe);
    assert_eq!(r.status, 200);
    assert!(matches!(r.body, ResponseBody::Stream));
    assert_eq!(header_value(&r, "Content-Type").unwrap(), b"text/html".to_vec());
    assert_eq!(header_value(&r, "Content-Length").unwrap(), b"120".to_vec());
}

#[test]
fn directory_without_slash_is_redirected() {
    let opts = make_opts("/", "/srv", "index.html", true, true);
    let res = resolve(&opts, b"/dir").unwrap();
    let req = plain_request(HttpMethod::Get);
    let probe = FsProbe {
        target: ResolvedTarget::Directory,
        index: Some(FileMeta { size: 1, mtime: 1 }),
        entries: Vec::new(),
    };
    let r = respond(&opts, &req, b"/dir", &res, probe);
    assert_eq!(r.status, 301);
    assert_eq!(header_value(&r, "Location").unwrap(), b"/dir/".to_vec());
    assert!(matches!(r.body, ResponseBody::Empty));
}

#[test]
fn directory_without_index_and_listing_disabled_is_403() {
    let opts = make_opts("/", "/srv", "index.html", false, false);
    let res = resolve(&opts, b"/dir/").unwrap();
    let req = plain_request(HttpMethod::Get);
    let probe = FsProbe { target: ResolvedTarget::Directory, index: None, entries: Vec::new() };
    let r = respond(&opts, &req, b"/dir/", &res, probe);
    assert_eq!(r.status, 403);
    match r.body {
        ResponseBody::Bytes(b) => assert_eq!(b, b"Forbidden".to_vec()),
        _ => panic!("expected a short body"),
    }
}

#[test]
fn directory_listing_is_sorted_and_escaped() {
    let opts = make_opts("/", "/srv", "index.html", false, true);
    let res = resolve(&opts, b"/dir/").unwrap();
    let req = plain_request(HttpMethod::Get);
    let entries = vec![
        DirEntry { name: b"zeta.txt".to_vec(), is_directory: false, size: 3, modified: 7 },
        DirEntry { name: b"<evil>&name".to_vec(), is_directory: false, size: 1, modified: 2 },
        DirEntry { name: b"Alpha".to_vec(), is_directory: true, size: 0, modified: 1 },
    ];
    let probe = FsProbe { target: ResolvedTarget::Directory, index: None, entries };
    let r = respond(&opts, &req, b"/dir/", &res, probe);
    assert_eq!(r.status, 200);
    assert_eq!(
        header_value(&r, "Content-Type").unwrap(),
        b"text/html; charset=utf-8".to_vec()
    );
    let html = match r.body {
        ResponseBody::Html(h) => String::from_utf8(h).unwrap(),
        _ => panic!("expected a rendered listing"),
    };
    let evil = html.find("&lt;evil&gt;&amp;name").unwrap();
    let alpha = html.find("Alpha/").unwrap();
    let zeta = html.find("zeta.txt").unwrap();
    assert!(evil < alpha && alpha < zeta, "byte-wise order: '<' before 'A' before 'z'");
    assert!(html.contains("href=\"%3Cevil%3E%26name\""));
    assert!(html.contains("href=\"Alpha/\""));
    assert!(!html.contains("<evil>"));
}

#[test]
fn sort_entries_orders_by_name_bytes() {
    let entries = vec![
        DirEntry { name: b"b".to_vec(), is_directory: false, size: 0, modified: 0 },
        DirEntry { name: b"a".to_vec(), is_directory: false, size: 0, modified: 0 },
        DirEntry { name: b"Z".to_vec(), is_directory: false, size: 0, modified: 0 },
        DirEntry { name: b".hidden".to_vec(), is_directory: false, size: 0, modified: 0 },
    ];
    let sorted = sort_entries(entries);
    let names: Vec<Vec<u8>> = sorted.iter().map(|e| e.name.clone()).collect();
    assert_eq!(
        names,
        vec![b".hidden".to_vec(), b"Z".to_vec(), b"a".to_vec(), b"b".to_vec()]
    );
    let html = String::from_utf8(render_listing(&sorted)).unwrap();
    assert!(html.contains("<li><a href=\".hidden\">.hidden</a></li>"));
}

#[test]
fn unknown_extension_maps_to_octet_stream() {
    let opts = make_opts("/", "/srv", "index.html", false, false);
    let res = resolve(&opts, b"/data.weird").unwrap();
    let req = plain_request(HttpMethod::Get);
    let probe = FsProbe {
        target: ResolvedTarget::File { size: 9, mtime: 5 },
        index: None,
        entries: Vec::new(),
    };
    let r = respond(&opts, &req, b"/data.weird", &res, probe);
    assert_eq!(
        header_value(&r, "Content-Type").unwrap(),
        b"application/octet-stream".to_vec()
    );
}

#[test]
fn content_disposition_quotes_and_escapes_the_name() {
    let opts = make_opts("/", "/srv", "index.html", false, false);
    let res = resolve(&opts, b"/we%22ird.txt").unwrap();
    let req = plain_request(HttpMethod::Get);
    let probe = FsProbe {
        target: ResolvedTarget::File { size: 1, mtime: 1 },
        index: None,
        entries: Vec::new(),
    };
    let r = respond(&opts, &req, b"/we%22ird.txt", &res, probe);
    assert_eq!(
        header_value(&r, "Content-Disposition").unwrap(),
        b"inline; filename=\"we\\\"ird.txt\"".to_vec()
    );
}

#[test]
fn disabled_validators_leave_no_headers() {
    let opts = ServiceOptions::new(
        "/".to_string(),
        "/srv".to_string(),
        "index.html".to_string(),
        true,
        true,
        true,
        false,
        false,
    );
    let res = resolve(&opts, b"/a.txt").unwrap();
    let req = plain_request(HttpMethod::Get);
    let probe = FsProbe {
        target: ResolvedTarget::File { size: 3, mtime: 9 },
        index: None,
        entries: Vec::new(),
    };
    let r = respond(&opts, &req, b"/a.txt", &res, probe);
    assert_eq!(r.status, 200);
    assert!(header_value(&r, "ETag").is_none());
    assert!(header_value(&r, "Last-Modified").is_none());
    assert!(header_value(&r, "Content-Disposition").is_none());
}

#[test]
fn validators_are_sent_when_enabled() {
    let opts = make_opts("/", "/srv", "index.html", false, false);
    let res = resolve(&opts, b"/a.txt").unwrap();
    let req = plain_request(HttpMethod::Get);
    let probe = FsProbe {
        target: ResolvedTarget::File { size: 10, mtime: 784111777 },
        index: None,
        entries: Vec::new(),
    };
    let r = respond(&opts, &req, b"/a.txt", &res, probe);
    assert_eq!(header_value(&r, "ETag").unwrap(), b"\"a-2ebc98a1\"".to_vec());
    assert_eq!(
        header_value(&r, "Last-Modified").unwrap(),
        b"Sun, 06 Nov 1994 08:49:37 GMT".to_vec()
    );
}

#[test]
fn options_round_trip_their_fields() {
    let opts = ServiceOptions::new(
        "/files".to_string(),
        "./public".to_string(),
        "home.html".to_string(),
        true,
        false,
        true,
        false,
        true,
    );
    assert_eq!(opts.path(), "/files");
    assert_eq!(opts.directory(), "./public");
    assert_eq!(opts.index_file(), "home.html");
    assert!(opts.disable_etag());
    assert!(!opts.disable_last_modified());
    assert!(opts.disable_content_disposition());
    assert!(!opts.redirect_to_slash_directory());
    assert!(opts.show_files_listing());
}

#[test]
fn if_unmodified_since_in_the_past_yields_412() {
    let opts = make_opts("/", "/srv", "index.html", false, false);
    let res = resolve(&opts, b"/a.txt").unwrap();
    let req = RequestContext {
        method: HttpMethod::Get,
        if_match: None,
        if_none_match: None,
        if_modified_since: None,
        if_unmodified_since: Some(500),
    };
    let probe = FsProbe {
        target: ResolvedTarget::File { size: 5, mtime: 1000 },
        index: None,
        entries: Vec::new(),
    };
    let r = respond(&opts, &req, b"/a.txt", &res, probe);
    assert_eq!(r.status, 412);
}

#[test]
fn weak_token_never_strong_matches_if_match() {
    let opts = make_opts("/", "/srv", "index.html", false, false);
    let res = resolve(&opts, b"/a.txt").unwrap();
    let tag = build_etag(5, 1000);
    let req = RequestContext {
        method: HttpMethod::Get,
        if_match: Some(EtagToken { weak: true, opaque: tag }),
        if_none_match: None,
        if_modified_since: None,
        if_unmodified_since: None,
    };
    let probe = FsProbe {
        target: ResolvedTarget::File { size: 5, mtime: 1000 },
        index: None,
        entries: Vec::new(),
    };
    let r = respond(&opts, &req, b"/a.txt", &res, probe);
    assert_eq!(r.status, 412);
}

#[test]
fn if_none_match_takes_precedence_over_if_modified_since() {
    let opts = make_opts("/", "/srv", "index.html", false, false);
    let res = resolve(&opts, b"/a.txt").unwrap();
    let req = RequestContext {
        method: HttpMethod::Get,
        if_match: None,
        if_none_match: Some(EtagToken { weak: false, opaque: b"\"stale\"".to_vec() }),
        if_modified_since: Some(2000),
        if_unmodified_since: None,
    };
    let probe = FsProbe {
        target: ResolvedTarget::File { size: 5, mtime: 1000 },
        index: None,
        entries: Vec::new(),
    };
    let r = respond(&opts, &req, b"/a.txt", &res, probe);
    assert_eq!(r.status, 200, "a stale tag forces a full response even if IMS would say 304");
}

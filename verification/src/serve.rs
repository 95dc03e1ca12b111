use vstd::prelude::*;
use vstd::utf8::encode_utf8;

use crate::cond::RequestContext;
use crate::listing::{directory_listing_html, listing_html, sorted_by_name, DirEntry};
use crate::options::ServiceOptions;
use crate::resolve::PathResolution;
use crate::response::{
    assemble_file_response, error_response, file_response_ok, headers_model, redirect_response,
    ResponseBody, ResponseDescriptor,
};
use crate::httpdate::MAX_HTTP_DATE;
use crate::views_of;

verus! {

/// What the file system holds at the resolved path, as the caller probed
/// it: a regular file with its metadata, a directory, or nothing
/// servable (absent, or a special file).
pub enum ResolvedTarget {
    File { size: u64, mtime: u64 },
    Directory,
    Missing,
}

/// Metadata of a directory's index file, when it exists as a regular
/// file.
#[derive(Clone, Copy, Debug, PartialEq, Eq, Structural)]
pub struct FileMeta {
    pub size: u64,
    pub mtime: u64,
}

/// Everything the engine needs to know from the file system for one
/// request: the target's kind, the index file's metadata when the target
/// is a directory holding one, and the directory's immediate children
/// when they may be listed.
pub struct FsProbe {
    pub target: ResolvedTarget,
    pub index: Option<FileMeta>,
    pub entries: Vec<DirEntry>,
}

/// How a request for an existing directory is answered.
#[derive(Clone, Copy, Debug, PartialEq, Eq, Structural)]
pub enum DirDecision {
    /// Redirect to the same path with a trailing slash, before any index
    /// or listing work.
    Redirect,
    /// Serve the directory's index file in its place.
    ServeIndex,
    /// Render the listing of the directory's immediate children.
    RenderListing,
    /// The directory exists but may not be served: forbidden, not absent.
    Deny,
}

/// The decision rule for a directory target: the slash redirect is
/// considered first, then the index file, then the listing; a directory
/// with neither is forbidden rather than absent.
pub open spec fn spec_dir_decision(
    opts: ServiceOptions,
    trailing_slash: bool,
    has_index: bool,
) -> DirDecision {
    if !trailing_slash && opts.redirect_to_slash_directory {
        DirDecision::Redirect
    } else if opts.index_bytes().len() > 0 && has_index {
        DirDecision::ServeIndex
    } else if opts.show_files_listing {
        DirDecision::RenderListing
    } else {
        DirDecision::Deny
    }
}

/// Decides how to answer a request for an existing directory.
pub fn decide_directory(opts: &ServiceOptions, trailing_slash: bool, has_index: bool) -> (r:
    DirDecision)
    ensures
        r == spec_dir_decision(*opts, trailing_slash, has_index),
{
    if !trailing_slash && opts.redirect_to_slash_directory {
        DirDecision::Redirect
    } else if opts.index_file.as_str().as_bytes().len() > 0 && has_index {
        DirDecision::ServeIndex
    } else if opts.show_files_listing {
        DirDecision::RenderListing
    } else {
        DirDecision::Deny
    }
}

/// The name under which a resolved file is served: the last path segment,
/// or nothing for the root itself.
pub open spec fn target_name(segments: Seq<Seq<u8>>) -> Seq<u8> {
    if segments.len() > 0 {
        segments.last()
    } else {
        Seq::empty()
    }
}

/// Builds the response for a resolved request, given what the caller
/// probed on the file system.  Every case of the serving rule is pinned:
/// a missing target is `404`; a regular file goes through the
/// conditional-request evaluation; a directory is redirected, served
/// through its index file, listed, or refused with `403`, in that order
/// of precedence.
pub fn respond(
    opts: &ServiceOptions,
    req: &RequestContext,
    raw_path: &[u8],
    res: &PathResolution,
    probe: FsProbe,
) -> (r: ResponseDescriptor)
    requires
        probe.target matches ResolvedTarget::File { size, mtime } ==> mtime <= MAX_HTTP_DATE,
        probe.index matches Some(m) ==> m.mtime <= MAX_HTTP_DATE,
    ensures
        probe.target is Missing ==> r.status == 404 && headers_model(r.headers@) == seq![
            (encode_utf8("Content-Type"@), encode_utf8("text/plain"@)),
        ] && (if req.method is Head {
            r.body is Empty
        } else {
            r.body matches ResponseBody::Bytes(b) && b@ == crate::response::error_body(404)
        }),
        probe.target matches ResolvedTarget::File { size, mtime } ==> file_response_ok(
            *opts,
            *req,
            target_name(views_of(res.segments@)),
            size,
            mtime,
            r,
        ),
        probe.target is Directory ==> {
            let decision = spec_dir_decision(*opts, res.trailing_slash, probe.index is Some);
            &&& decision is Redirect ==> r.status == 301 && headers_model(r.headers@) == seq![
                (encode_utf8("Location"@), raw_path@ + seq![47u8]),
            ] && r.body is Empty
            &&& decision is ServeIndex ==> file_response_ok(
                *opts,
                *req,
                opts.index_bytes(),
                probe.index->0.size,
                probe.index->0.mtime,
                r,
            )
            &&& decision is RenderListing ==> r.status == 200 && headers_model(r.headers@)
                == seq![(encode_utf8("Content-Type"@), encode_utf8("text/html; charset=utf-8"@))]
                && (if req.method is Head {
                r.body is Empty
            } else {
                r.body matches ResponseBody::Html(h) && exists|s: Seq<DirEntry>|
                    #![trigger listing_html(s)]
                    sorted_by_name(s) && s.to_multiset() == probe.entries@.to_multiset() && h@
                        == listing_html(s)
            })
            &&& decision is Deny ==> r.status == 403 && headers_model(r.headers@) == seq![
                (encode_utf8("Content-Type"@), encode_utf8("text/plain"@)),
            ] && (if req.method is Head {
                r.body is Empty
            } else {
                r.body matches ResponseBody::Bytes(b) && b@ == crate::response::error_body(403)
            })
        },
{
    let head_only = matches!(req.method, crate::cond::HttpMethod::Head);
    match probe.target {
        ResolvedTarget::Missing => error_response(404, head_only),
        ResolvedTarget::File { size, mtime } => {
            if res.segments.len() > 0 {
                let name: &Vec<u8> = &res.segments[res.segments.len() - 1];
                proof {
                    assert(name@ == target_name(views_of(res.segments@)));
                }
                assemble_file_response(opts, req, name.as_slice(), size, mtime)
            } else {
                let empty_name: Vec<u8> = Vec::new();
                assemble_file_response(opts, req, empty_name.as_slice(), size, mtime)
            }
        },
        ResolvedTarget::Directory => {
            let has_index = probe.index.is_some();
            let decision = decide_directory(opts, res.trailing_slash, has_index);
            match decision {
                DirDecision::Redirect => redirect_response(raw_path),
                DirDecision::ServeIndex => {
                    match probe.index {
                        Some(meta) => {
                            let name = opts.index_file.as_str().as_bytes();
                            assemble_file_response(opts, req, name, meta.size, meta.mtime)
                        },
                        None => {
                            proof {
                                assert(false);
                            }
                            error_response(404, head_only)
                        },
                    }
                },
                DirDecision::RenderListing => {
                    let mut headers: Vec<(Vec<u8>, Vec<u8>)> = Vec::new();
                    headers.push(
                        (
                            vstd::slice::slice_to_vec("Content-Type".as_bytes()),
                            vstd::slice::slice_to_vec("text/html; charset=utf-8".as_bytes()),
                        ),
                    );
                    proof {
                        assert(headers_model(headers@) =~= seq![
                            (encode_utf8("Content-Type"@), encode_utf8("text/html; charset=utf-8"@)),
                        ]);
                    }
                    let body = if head_only {
                        ResponseBody::Empty
                    } else {
                        ResponseBody::Html(directory_listing_html(probe.entries))
                    };
                    ResponseDescriptor { status: 200, headers, body }
                },
                DirDecision::Deny => error_response(403, head_only),
            }
        },
    }
}

/// A directory requested without a trailing slash is redirected whenever
/// the redirect switch is on, whatever index file or listing switch is
/// set: the redirect precedes both.
pub proof fn lemma_redirect_precedes_everything(opts: ServiceOptions, has_index: bool)
    requires
        opts.redirect_to_slash_directory,
    ensures
        spec_dir_decision(opts, false, has_index) == DirDecision::Redirect,
{
}

/// A directory with no usable index file is listed when listing is
/// enabled and refused (never treated as absent) when it is not.
pub proof fn lemma_directory_without_index(opts: ServiceOptions, trailing_slash: bool)
    requires
        trailing_slash || !opts.redirect_to_slash_directory,
    ensures
        opts.show_files_listing ==> spec_dir_decision(opts, trailing_slash, false)
            == DirDecision::RenderListing,
        !opts.show_files_listing ==> spec_dir_decision(opts, trailing_slash, false)
            == DirDecision::Deny,
{
}

} // verus!

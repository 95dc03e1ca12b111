use vstd::prelude::*;

use crate::bytes_eq;
use crate::etag::CacheKey;

verus! {

/// The request methods this engine distinguishes: bodies are suppressed
/// for `Head` and sent for `Get`.
#[derive(Clone, Copy, Debug, PartialEq, Eq, Structural)]
pub enum HttpMethod {
    Get,
    Head,
}

/// One entity tag named by a conditional request header, with its
/// weakness flag; `opaque` holds the quoted token.
pub struct EtagToken {
    pub weak: bool,
    pub opaque: Vec<u8>,
}

/// The precondition headers of one request.  Times are seconds since the
/// Unix epoch, at the one-second resolution of HTTP dates.
pub struct RequestContext {
    pub method: HttpMethod,
    pub if_match: Option<EtagToken>,
    pub if_none_match: Option<EtagToken>,
    pub if_modified_since: Option<u64>,
    pub if_unmodified_since: Option<u64>,
}

/// What the precondition evaluation decided.
#[derive(Clone, Copy, Debug, PartialEq, Eq, Structural)]
pub enum ConditionOutcome {
    Serve,
    NotModified,
    PreconditionFailed,
}

/// Strong comparison: both tags strong and byte-identical.  The current
/// validator is always strong, so only the request tag's flag matters.
pub open spec fn strong_match(t: EtagToken, current: Option<Seq<u8>>) -> bool {
    &&& !t.weak
    &&& current is Some
    &&& t.opaque@ == current->0
}

/// Weak comparison: byte-identical tags, weakness ignored.
pub open spec fn weak_match(t: EtagToken, current: Option<Seq<u8>>) -> bool {
    &&& current is Some
    &&& t.opaque@ == current->0
}

/// The abstract value of an optional entity tag.
pub open spec fn key_etag_view_opt(v: Option<Vec<u8>>) -> Option<Seq<u8>> {
    match v {
        Option::Some(v) => Option::Some(v@),
        Option::None => Option::None,
    }
}

/// The abstract value of a key's entity tag.
pub open spec fn key_etag_view(key: CacheKey) -> Option<Seq<u8>> {
    key_etag_view_opt(key.etag)
}

/// The evaluation rule, in the precedence HTTP gives the four headers:
/// `If-Match` first, then `If-Unmodified-Since`, then `If-None-Match`
/// (which, when present, decides between not-modified and a full serve),
/// and `If-Modified-Since` only when no `If-None-Match` was sent.
pub open spec fn eval_preconditions(
    req: RequestContext,
    etag: Option<Seq<u8>>,
    last_modified: Option<u64>,
) -> ConditionOutcome {
    if req.if_match is Some && !strong_match(req.if_match->0, etag) {
        ConditionOutcome::PreconditionFailed
    } else if req.if_unmodified_since is Some && last_modified is Some && last_modified->0
        > req.if_unmodified_since->0 {
        ConditionOutcome::PreconditionFailed
    } else if req.if_none_match is Some {
        if weak_match(req.if_none_match->0, etag) {
            ConditionOutcome::NotModified
        } else {
            ConditionOutcome::Serve
        }
    } else if req.if_modified_since is Some && last_modified is Some && last_modified->0
        <= req.if_modified_since->0 {
        ConditionOutcome::NotModified
    } else {
        ConditionOutcome::Serve
    }
}

fn token_matches(t: &EtagToken, current: &Option<Vec<u8>>, strong: bool) -> (r: bool)
    ensures
        strong ==> r == strong_match(*t, key_etag_view_opt(*current)),
        !strong ==> r == weak_match(*t, key_etag_view_opt(*current)),
{
    if strong && t.weak {
        return false;
    }
    match current {
        Some(cur) => bytes_eq(t.opaque.as_slice(), cur.as_slice()),
        None => false,
    }
}

/// Evaluates the request's preconditions against the file's current
/// validators.
pub fn evaluate(req: &RequestContext, key: &CacheKey) -> (r: ConditionOutcome)
    ensures
        r == eval_preconditions(*req, key_etag_view(*key), key.last_modified),
{
    if let Some(t) = &req.if_match {
        if !token_matches(t, &key.etag, true) {
            return ConditionOutcome::PreconditionFailed;
        }
    }
    if let Some(ts) = &req.if_unmodified_since {
        if let Some(lm) = &key.last_modified {
            if *lm > *ts {
                return ConditionOutcome::PreconditionFailed;
            }
        }
    }
    if let Some(t) = &req.if_none_match {
        if token_matches(t, &key.etag, false) {
            return ConditionOutcome::NotModified;
        }
        return ConditionOutcome::Serve;
    }
    if let Some(ts) = &req.if_modified_since {
        if let Some(lm) = &key.last_modified {
            if *lm <= *ts {
                return ConditionOutcome::NotModified;
            }
        }
    }
    ConditionOutcome::Serve
}

/// A request whose `If-None-Match` carries the file's current entity tag
/// is answered not-modified, and one whose tag is stale is served in
/// full, whenever no earlier precondition intervenes.
pub proof fn lemma_if_none_match(req: RequestContext, etag: Seq<u8>, last_modified: Option<u64>)
    requires
        req.if_match is None,
        req.if_unmodified_since is None,
        req.if_none_match is Some,
    ensures
        req.if_none_match->0.opaque@ == etag ==> eval_preconditions(
            req,
            Option::Some(etag),
            last_modified,
        ) == ConditionOutcome::NotModified,
        req.if_none_match->0.opaque@ != etag ==> eval_preconditions(
            req,
            Option::Some(etag),
            last_modified,
        ) == ConditionOutcome::Serve,
{
}

} // verus!

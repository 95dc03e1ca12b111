use vstd::prelude::*;
use vstd::slice::{slice_subrange, slice_to_vec};
use vstd::utf8::valid_utf8;

use crate::bytes_eq;
use crate::options::ServiceOptions;
use crate::pct::{pct_decode, pct_decoded};
use crate::views_of;

verus! {

/// Why a request path could not be resolved to a target under the root.
#[derive(Clone, Copy, Debug, PartialEq, Eq, Structural)]
pub enum ResolveError {
    /// The path is not decodable: broken percent encoding, bytes that are
    /// not UTF-8, or an embedded null byte.
    InvalidPath,
    /// A path segment attempts traversal: it holds `..` or a backslash.
    Forbidden,
    /// The path does not lie under the configured mount path.
    NotFound,
}

/// A safely resolved request path: the cleaned segments relative to the
/// root directory, and whether the decoded path ended in a slash.
pub struct PathResolution {
    pub segments: Vec<Vec<u8>>,
    pub trailing_slash: bool,
}

/// Index of the first `/` in `s`, or `s.len()` when none occurs.
pub open spec fn first_sep(s: Seq<u8>) -> nat
    decreases s.len(),
{
    if s.len() == 0 {
        0
    } else if s[0] == 47 {
        0
    } else {
        (1 + first_sep(s.skip(1))) as nat
    }
}

pub proof fn lemma_first_sep(s: Seq<u8>)
    ensures
        first_sep(s) <= s.len(),
        first_sep(s) < s.len() ==> s[first_sep(s) as int] == 47,
        forall|j: int| 0 <= j < first_sep(s) ==> s[j] != 47,
    decreases s.len(),
{
    if s.len() == 0 {
    } else if s[0] == 47 {
    } else {
        lemma_first_sep(s.skip(1));
        assert forall|j: int| 0 <= j < first_sep(s) implies s[j] != 47 by {
            if j > 0 {
                assert(s.skip(1)[j - 1] == s[j]);
            }
        }
        if first_sep(s) < s.len() {
            assert(s.skip(1)[first_sep(s) as int - 1] == s[first_sep(s) as int]);
        }
    }
}

/// `first_sep` is the one index whose prefix is free of `/`.
pub proof fn lemma_first_sep_char(s: Seq<u8>, k: int)
    requires
        0 <= k <= s.len(),
        forall|j: int| 0 <= j < k ==> s[j] != 47,
        k < s.len() ==> s[k] == 47,
    ensures
        first_sep(s) == k,
    decreases s.len(),
{
    if s.len() == 0 {
    } else if s[0] == 47 {
        assert(k == 0);
    } else {
        assert(k >= 1);
        assert forall|j: int| 0 <= j < k - 1 implies s.skip(1)[j] != 47 by {
            assert(s.skip(1)[j] == s[j + 1]);
        }
        if k - 1 < s.skip(1).len() {
            assert(s.skip(1)[k - 1] == s[k]);
        }
        lemma_first_sep_char(s.skip(1), k - 1);
    }
}

/// The segments of `s` split on `/`; empty segments are kept.
pub open spec fn raw_segments(s: Seq<u8>) -> Seq<Seq<u8>>
    decreases s.len(),
{
    if first_sep(s) >= s.len() {
        seq![s]
    } else {
        seq![s.take(first_sep(s) as int)] + raw_segments(s.skip(first_sep(s) as int + 1))
    }
}

/// No raw segment holds a `/`.
pub proof fn lemma_raw_segments_no_slash(s: Seq<u8>)
    ensures
        forall|k: int, j: int|
            #![trigger raw_segments(s)[k][j]]
            0 <= k < raw_segments(s).len() && 0 <= j < raw_segments(s)[k].len()
                ==> raw_segments(s)[k][j] != 47,
    decreases s.len(),
{
    lemma_first_sep(s);
    let fs = first_sep(s) as int;
    if fs >= s.len() {
        assert(raw_segments(s) == seq![s]);
        assert forall|k: int, j: int|
            0 <= k < raw_segments(s).len() && 0 <= j < raw_segments(s)[k].len() implies raw_segments(
            s,
        )[k][j] != 47 by {
            assert(raw_segments(s)[k] == s);
        }
    } else {
        lemma_raw_segments_no_slash(s.skip(fs + 1));
        assert forall|k: int, j: int|
            0 <= k < raw_segments(s).len() && 0 <= j < raw_segments(s)[k].len() implies raw_segments(
            s,
        )[k][j] != 47 by {
            if k == 0 {
                assert(raw_segments(s)[0] == s.take(fs));
                assert(s.take(fs)[j] == s[j]);
            } else {
                assert(raw_segments(s)[k] == raw_segments(s.skip(fs + 1))[k - 1]);
            }
        }
    }
}

/// True when the segment holds two adjacent dots anywhere.
pub open spec fn seg_has_dotdot(seg: Seq<u8>) -> bool {
    exists|i: int| #![trigger seg[i]] 0 <= i && i + 1 < seg.len() && seg[i] == 46 && seg[i + 1] == 46
}

/// A traversal attempt: a dot-dot sequence or a backslash in a segment.
pub open spec fn seg_forbidden(seg: Seq<u8>) -> bool {
    seg_has_dotdot(seg) || seg.contains(92u8)
}

pub open spec fn any_seg_forbidden(parts: Seq<Seq<u8>>) -> bool {
    exists|k: int| 0 <= k < parts.len() && seg_forbidden(parts[k])
}

/// Segments that survive cleaning: non-empty and not the current-directory
/// marker `.`.
pub open spec fn keep_segment(seg: Seq<u8>) -> bool {
    seg.len() > 0 && seg != seq![46u8]
}

/// The raw segments with empty and `.` segments dropped.
pub open spec fn clean_segments(parts: Seq<Seq<u8>>) -> Seq<Seq<u8>>
    decreases parts.len(),
{
    if parts.len() == 0 {
        Seq::empty()
    } else if keep_segment(parts.last()) {
        clean_segments(parts.drop_last()).push(parts.last())
    } else {
        clean_segments(parts.drop_last())
    }
}

/// Every cleaned segment is one of the raw segments.
pub proof fn lemma_clean_from_raw(parts: Seq<Seq<u8>>)
    ensures
        forall|k: int|
            #![trigger clean_segments(parts)[k]]
            0 <= k < clean_segments(parts).len() ==> keep_segment(clean_segments(parts)[k])
                && exists|m: int| 0 <= m < parts.len() && clean_segments(parts)[k] == parts[m],
    decreases parts.len(),
{
    if parts.len() == 0 {
    } else {
        lemma_clean_from_raw(parts.drop_last());
        assert forall|k: int|
            0 <= k < clean_segments(parts).len() implies keep_segment(clean_segments(parts)[k])
            && exists|m: int| 0 <= m < parts.len() && clean_segments(parts)[k] == parts[m] by {
            let front = clean_segments(parts.drop_last());
            if k < front.len() {
                assert(clean_segments(parts)[k] == front[k]);
                let m0 = choose|m: int|
                    0 <= m < parts.drop_last().len() && front[k] == parts.drop_last()[m];
                assert(parts.drop_last()[m0] == parts[m0]);
            } else {
                assert(keep_segment(parts.last()));
                assert(clean_segments(parts)[k] == parts.last());
                assert(parts.last() == parts[parts.len() - 1]);
            }
        }
    }
}

/// True when the decoded request path lies under the mount path, with the
/// match ending at a segment boundary.
pub open spec fn mount_match(mount: Seq<u8>, d: Seq<u8>) -> bool {
    d.len() >= mount.len() && d.take(mount.len() as int) == mount && (mount.len() == 0
        || mount.last() == 47 || d.len() == mount.len() || d[mount.len() as int] == 47)
}

/// A decoded path is rejected outright when its bytes are not UTF-8 or a
/// null byte is embedded.
pub open spec fn decoded_rejected(d: Seq<u8>) -> bool {
    !valid_utf8(d) || d.contains(0u8)
}

/// The complete resolution rule, from the raw request path to either the
/// cleaned relative segments plus the trailing-slash flag, or the error.
pub open spec fn spec_resolve(mount: Seq<u8>, raw: Seq<u8>) -> Result<(Seq<Seq<u8>>, bool), ResolveError> {
    match pct_decoded(raw) {
        Option::None => Result::Err(ResolveError::InvalidPath),
        Option::Some(d) => {
            if decoded_rejected(d) {
                Result::Err(ResolveError::InvalidPath)
            } else if !mount_match(mount, d) {
                Result::Err(ResolveError::NotFound)
            } else if any_seg_forbidden(raw_segments(d.skip(mount.len() as int))) {
                Result::Err(ResolveError::Forbidden)
            } else {
                Result::Ok(
                    (
                        clean_segments(raw_segments(d.skip(mount.len() as int))),
                        d.len() > 0 && d.last() == 47,
                    ),
                )
            }
        },
    }
}

/// Whether `b` occurs in `s`.
pub fn contains_byte(s: &[u8], b: u8) -> (r: bool)
    ensures
        r == s@.contains(b),
{
    let mut i: usize = 0;
    while i < s.len()
        invariant
            i <= s.len(),
            forall|j: int| 0 <= j < i ==> s@[j] != b,
        decreases s.len() - i,
    {
        if s[i] == b {
            return true;
        }
        i += 1;
    }
    false
}

/// Splits on `/`, keeping empty segments.
pub fn split_segments(s: &[u8]) -> (r: Vec<Vec<u8>>)
    ensures
        views_of(r@) == raw_segments(s@),
{
    let mut out: Vec<Vec<u8>> = Vec::new();
    let mut start: usize = 0;
    proof {
        assert(s@.skip(0) =~= s@);
        assert(views_of(out@) + raw_segments(s@) =~= raw_segments(s@));
    }
    loop
        invariant
            start <= s.len(),
            raw_segments(s@) == views_of(out@) + raw_segments(s@.skip(start as int)),
        decreases s.len() - start,
    {
        let ghost pre = s@.skip(start as int);
        let mut j: usize = start;
        while j < s.len() && s[j] != 47
            invariant
                start <= j <= s.len(),
                forall|m: int| start <= m < j ==> s@[m] != 47,
            decreases s.len() - j,
        {
            j += 1;
        }
        proof {
            assert forall|m: int| 0 <= m < j - start implies pre[m] != 47 by {
                assert(pre[m] == s@[start + m]);
            }
            if j < s.len() {
                assert(pre[j - start] == s@[j as int]);
            }
            lemma_first_sep_char(pre, j - start);
        }
        let seg = slice_to_vec(slice_subrange(s, start, j));
        let ghost old_out = out@;
        out.push(seg);
        proof {
            assert(seg@ =~= pre.take(j - start));
            assert(views_of(out@) =~= views_of(old_out).push(seg@));
        }
        if j == s.len() {
            proof {
                assert(raw_segments(pre) == seq![pre]);
                assert(pre.take(j - start) =~= pre);
                assert(views_of(old_out) + raw_segments(pre) =~= views_of(out@));
            }
            return out;
        }
        proof {
            assert(raw_segments(pre) == seq![pre.take(j - start)] + raw_segments(
                pre.skip(j - start + 1),
            ));
            assert(pre.skip(j - start + 1) =~= s@.skip(j + 1));
            assert(views_of(old_out) + raw_segments(pre) =~= views_of(out@) + raw_segments(
                s@.skip(j + 1),
            ));
        }
        start = j + 1;
    }
}

/// Whether any segment of `parts` attempts traversal.
fn any_forbidden(parts: &Vec<Vec<u8>>) -> (r: bool)
    ensures
        r == any_seg_forbidden(views_of(parts@)),
{
    let mut k: usize = 0;
    while k < parts.len()
        invariant
            k <= parts@.len(),
            forall|m: int| 0 <= m < k ==> !seg_forbidden(views_of(parts@)[m]),
        decreases parts@.len() - k,
    {
        let seg: &Vec<u8> = &parts[k];
        let mut i: usize = 0;
        let mut bad: bool = false;
        while i < seg.len()
            invariant
                i <= seg@.len(),
                seg@ == views_of(parts@)[k as int],
                bad ==> seg_forbidden(seg@),
                !bad ==> forall|j: int|
                    #![trigger seg@[j]]
                    0 <= j < i ==> seg@[j] != 92 && !(j + 1 < seg@.len() && seg@[j] == 46
                        && seg@[j + 1] == 46),
            decreases seg@.len() - i,
        {
            if seg[i] == 92 {
                bad = true;
            }
            if i + 1 < seg.len() {
                if seg[i] == 46 && seg[i + 1] == 46 {
                    bad = true;
                }
            }
            i += 1;
        }
        if bad {
            return true;
        }
        proof {
            assert(!seg_forbidden(views_of(parts@)[k as int])) by {
                if seg_has_dotdot(seg@) {
                    let w = choose|w: int|
                        #![trigger seg@[w]]
                        0 <= w && w + 1 < seg@.len() && seg@[w] == 46 && seg@[w + 1] == 46;
                    assert(false);
                }
                if seg@.contains(92u8) {
                    let w = choose|w: int| 0 <= w < seg@.len() && seg@[w] == 92;
                    assert(false);
                }
            }
        }
        k += 1;
    }
    false
}

/// Resolves a raw request path against the mount path: decodes it, guards
/// every decoded segment against traversal, and returns the cleaned
/// segments relative to the root directory.
pub fn resolve(opts: &ServiceOptions, raw_path: &[u8]) -> (r: Result<PathResolution, ResolveError>)
    ensures
        r matches Ok(res) ==> spec_resolve(opts.mount_bytes(), raw_path@) == Result::<
            (Seq<Seq<u8>>, bool),
            ResolveError,
        >::Ok((views_of(res.segments@), res.trailing_slash)),
        r matches Err(e) ==> spec_resolve(opts.mount_bytes(), raw_path@) == Result::<
            (Seq<Seq<u8>>, bool),
            ResolveError,
        >::Err(e),
{
    let decoded: Vec<u8> = match pct_decode(raw_path) {
        Some(d) => d,
        None => {
            return Err(ResolveError::InvalidPath);
        },
    };
    if !crate::unicode::is_valid_utf8(decoded.as_slice()) {
        return Err(ResolveError::InvalidPath);
    }
    if contains_byte(decoded.as_slice(), 0) {
        return Err(ResolveError::InvalidPath);
    }
    let mount: &[u8] = opts.path.as_str().as_bytes();
    if decoded.len() < mount.len() {
        proof {
            assert(!mount_match(opts.mount_bytes(), decoded@));
        }
        return Err(ResolveError::NotFound);
    }
    let head: &[u8] = slice_subrange(decoded.as_slice(), 0, mount.len());
    if !bytes_eq(head, mount) {
        return Err(ResolveError::NotFound);
    }
    let boundary: bool = mount.len() == 0 || mount[mount.len() - 1] == 47 || decoded.len()
        == mount.len() || decoded[mount.len()] == 47;
    proof {
        if mount@.len() > 0 {
            assert(mount@.last() == mount@[mount@.len() - 1]);
        }
    }
    if !boundary {
        return Err(ResolveError::NotFound);
    }
    let rest: &[u8] = slice_subrange(decoded.as_slice(), mount.len(), decoded.len());
    let parts = split_segments(rest);
    if any_forbidden(&parts) {
        return Err(ResolveError::Forbidden);
    }
    let mut cleaned: Vec<Vec<u8>> = Vec::new();
    let mut k: usize = 0;
    proof {
        assert(views_of(parts@).take(0) =~= Seq::<Seq<u8>>::empty());
        assert(views_of(cleaned@) =~= clean_segments(views_of(parts@).take(0)));
    }
    while k < parts.len()
        invariant
            k <= parts@.len(),
            views_of(cleaned@) == clean_segments(views_of(parts@).take(k as int)),
        decreases parts@.len() - k,
    {
        let seg: &Vec<u8> = &parts[k];
        let keep: bool = seg.len() > 0 && !(seg.len() == 1 && seg[0] == 46);
        proof {
            let ghost sv = views_of(parts@)[k as int];
            if seg@.len() == 1 && seg@[0] == 46 {
                assert(seg@ =~= seq![46u8]);
            }
            if seg@.len() != 1 {
                assert(seg@ != seq![46u8]);
            }
            assert(keep == keep_segment(sv));
            assert(views_of(parts@).take(k + 1).drop_last() =~= views_of(parts@).take(k as int));
            assert(views_of(parts@).take(k + 1).last() == sv);
        }
        if keep {
            let ghost old_cleaned = cleaned@;
            let copy = seg.clone();
            proof {
                assert(copy@ == seg@);
            }
            cleaned.push(copy);
            proof {
                assert(views_of(cleaned@) =~= views_of(old_cleaned).push(seg@));
            }
        }
        k += 1;
    }
    proof {
        assert(views_of(parts@).take(parts@.len() as int) =~= views_of(parts@));
    }
    let trailing: bool = decoded.len() > 0 && decoded[decoded.len() - 1] == 47;
    proof {
        if decoded@.len() > 0 {
            assert(decoded@.last() == decoded@[decoded@.len() - 1]);
        }
    }
    Ok(PathResolution { segments: cleaned, trailing_slash: trailing })
}

/// True when `prefix` is a prefix of `s`.
pub open spec fn starts_with(s: Seq<u8>, prefix: Seq<u8>) -> bool {
    prefix.len() <= s.len() && s.take(prefix.len() as int) == prefix
}

/// The platform path of the cleaned segments under `root`, joined with `/`.
pub open spec fn joined_path(root: Seq<u8>, segs: Seq<Seq<u8>>) -> Seq<u8>
    decreases segs.len(),
{
    if segs.len() == 0 {
        root
    } else {
        joined_path(root, segs.drop_last()) + seq![47u8] + segs.last()
    }
}

/// `c` is `root` itself or lies strictly below it.
pub open spec fn inside_root(root: Seq<u8>, c: Seq<u8>) -> bool {
    c == root || starts_with(c, root.push(47u8))
}

/// A joined path always stays inside its root.
pub proof fn lemma_joined_inside(root: Seq<u8>, segs: Seq<Seq<u8>>)
    ensures
        inside_root(root, joined_path(root, segs)),
    decreases segs.len(),
{
    if segs.len() == 0 {
    } else {
        lemma_joined_inside(root, segs.drop_last());
        let front = joined_path(root, segs.drop_last());
        let whole = front + seq![47u8] + segs.last();
        if front == root {
            assert(whole.take(root.len() as int + 1) =~= root.push(47u8));
        } else {
            assert(whole.take(root.len() as int + 1) =~= front.take(root.len() as int + 1));
        }
    }
}

/// Joins the root directory and the resolved segments into one platform
/// path, separated by `/`.
pub fn local_path(opts: &ServiceOptions, res: &PathResolution) -> (r: Vec<u8>)
    ensures
        r@ == joined_path(opts.root_bytes(), views_of(res.segments@)),
{
    let mut out: Vec<u8> = slice_to_vec(opts.directory.as_str().as_bytes());
    let mut k: usize = 0;
    proof {
        assert(views_of(res.segments@).take(0) =~= Seq::<Seq<u8>>::empty());
    }
    while k < res.segments.len()
        invariant
            k <= res.segments@.len(),
            out@ == joined_path(opts.root_bytes(), views_of(res.segments@).take(k as int)),
        decreases res.segments@.len() - k,
    {
        out.push(47);
        let seg: &Vec<u8> = &res.segments[k];
        out.extend_from_slice(seg.as_slice());
        proof {
            let vs = views_of(res.segments@);
            assert(vs.take(k + 1).drop_last() =~= vs.take(k as int));
            assert(vs.take(k + 1).last() == vs[k as int]);
            assert(out@ =~= joined_path(opts.root_bytes(), vs.take(k as int)) + seq![47u8]
                + vs[k as int]);
        }
        k += 1;
    }
    proof {
        assert(views_of(res.segments@).take(res.segments@.len() as int) =~= views_of(
            res.segments@,
        ));
    }
    out
}

/// Decides whether a canonicalized candidate path is the root itself or
/// lies below it; the caller uses this after the operating system has
/// resolved symbolic links.
pub fn is_within_root(root: &[u8], candidate: &[u8]) -> (r: bool)
    ensures
        r == inside_root(root@, candidate@),
{
    if candidate.len() == root.len() {
        let e = bytes_eq(candidate, root);
        proof {
            assert(!starts_with(candidate@, root@.push(47u8)));
        }
        return e;
    }
    if candidate.len() < root.len() {
        proof {
            assert(!starts_with(candidate@, root@.push(47u8)));
        }
        return false;
    }
    let head: &[u8] = slice_subrange(candidate, 0, root.len());
    let boundary: bool = candidate[root.len()] == 47;
    let r = bytes_eq(head, root) && boundary;
    proof {
        if candidate@.take(root@.len() as int) == root@ && candidate@[root@.len() as int] == 47 {
            assert(candidate@.take(root@.len() as int + 1) =~= root@.push(47u8));
        }
        if candidate@.take(root@.len() as int + 1) == root@.push(47u8) {
            assert(candidate@.take(root@.len() as int) =~= candidate@.take(root@.len() as int + 1).take(
                root@.len() as int,
            ));
            assert(root@.push(47u8).take(root@.len() as int) =~= root@);
            assert(candidate@.take(root@.len() as int + 1)[root@.len() as int] == 47u8);
        }
    }
    r
}

/// For every root directory and every request path, a successful
/// resolution yields segments that are non-empty and free of separators
/// and of dot-dot sequences, so their joined path never leaves the root;
/// and a decoded path with a forbidden segment is always refused.
pub proof fn lemma_resolution_stays_inside(mount: Seq<u8>, raw: Seq<u8>, root: Seq<u8>)
    ensures
        spec_resolve(mount, raw) matches Ok(pair) ==> inside_root(
            root,
            joined_path(root, pair.0),
        ) && (forall|k: int|
            #![trigger pair.0[k]]
            0 <= k < pair.0.len() ==> pair.0[k].len() > 0 && !pair.0[k].contains(47u8)
                && !pair.0[k].contains(92u8) && !seg_has_dotdot(pair.0[k])),
        pct_decoded(raw) matches Some(d) ==> ((!decoded_rejected(d) && mount_match(mount, d)
            && any_seg_forbidden(raw_segments(d.skip(mount.len() as int)))) ==> spec_resolve(
            mount,
            raw,
        ) == Result::<(Seq<Seq<u8>>, bool), ResolveError>::Err(ResolveError::Forbidden)),
{
    if spec_resolve(mount, raw) is Ok {
        let pair = spec_resolve(mount, raw)->Ok_0;
        let d = pct_decoded(raw)->0;
        let rest = d.skip(mount.len() as int);
        let parts = raw_segments(rest);
        lemma_raw_segments_no_slash(rest);
        lemma_clean_from_raw(parts);
        assert forall|k: int|
            0 <= k < pair.0.len() implies pair.0[k].len() > 0 && !pair.0[k].contains(47u8)
            && !pair.0[k].contains(92u8) && !seg_has_dotdot(pair.0[k]) by {
            let m = choose|m: int| 0 <= m < parts.len() && pair.0[k] == parts[m];
            assert(!seg_forbidden(parts[m]));
            if parts[m].contains(47u8) {
                let j = choose|j: int| 0 <= j < parts[m].len() && parts[m][j] == 47u8;
                assert(raw_segments(rest)[m][j] != 47);
            }
        }
        lemma_joined_inside(root, pair.0);
    }
}

} // verus!

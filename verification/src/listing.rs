use vstd::prelude::*;
use vstd::multiset::Multiset;
use vstd::seq_lib::group_to_multiset_ensures;
use vstd::utf8::encode_utf8;

use crate::pct::{pct_encode, pct_encoded};

verus! {

/// One immediate child of a listed directory, as the caller read it from
/// a single directory scan.
pub struct DirEntry {
    pub name: Vec<u8>,
    pub is_directory: bool,
    pub size: u64,
    pub modified: u64,
}

/// Byte-wise lexicographic order on names.
pub open spec fn lex_le(a: Seq<u8>, b: Seq<u8>) -> bool
    decreases a.len(),
{
    if a.len() == 0 {
        true
    } else if b.len() == 0 {
        false
    } else if a[0] < b[0] {
        true
    } else if a[0] > b[0] {
        false
    } else {
        lex_le(a.skip(1), b.skip(1))
    }
}

/// The order is total.
pub proof fn lemma_lex_total(a: Seq<u8>, b: Seq<u8>)
    ensures
        lex_le(a, b) || lex_le(b, a),
    decreases a.len(),
{
    if a.len() == 0 || b.len() == 0 {
    } else if a[0] == b[0] {
        lemma_lex_total(a.skip(1), b.skip(1));
    }
}

/// The order is reflexive.
pub proof fn lemma_lex_refl(a: Seq<u8>)
    ensures
        lex_le(a, a),
    decreases a.len(),
{
    if a.len() > 0 {
        lemma_lex_refl(a.skip(1));
    }
}

/// The order is transitive.
pub proof fn lemma_lex_trans(a: Seq<u8>, b: Seq<u8>, c: Seq<u8>)
    requires
        lex_le(a, b),
        lex_le(b, c),
    ensures
        lex_le(a, c),
    decreases a.len(),
{
    if a.len() == 0 {
    } else if b.len() == 0 || c.len() == 0 {
    } else if a[0] == b[0] && b[0] == c[0] {
        lemma_lex_trans(a.skip(1), b.skip(1), c.skip(1));
    }
}

/// Byte-wise lexicographic comparison.
pub fn lex_le_bytes(a: &[u8], b: &[u8]) -> (r: bool)
    ensures
        r == lex_le(a@, b@),
{
    let mut i: usize = 0;
    proof {
        assert(a@.skip(0) =~= a@);
        assert(b@.skip(0) =~= b@);
    }
    while i < a.len() && i < b.len()
        invariant
            i <= a.len(),
            i <= b.len(),
            lex_le(a@, b@) == lex_le(a@.skip(i as int), b@.skip(i as int)),
        decreases a.len() - i,
    {
        let x: u8 = a[i];
        let y: u8 = b[i];
        proof {
            assert(a@.skip(i as int)[0] == a@[i as int]);
            assert(b@.skip(i as int)[0] == b@[i as int]);
            assert(a@.skip(i as int).skip(1) =~= a@.skip(i as int + 1));
            assert(b@.skip(i as int).skip(1) =~= b@.skip(i as int + 1));
        }
        if x < y {
            return true;
        }
        if x > y {
            return false;
        }
        i += 1;
    }
    if i == a.len() {
        proof {
            assert(a@.skip(i as int).len() == 0);
        }
        true
    } else {
        proof {
            assert(b@.skip(i as int).len() == 0);
            assert(a@.skip(i as int).len() > 0);
        }
        false
    }
}

/// Entries in non-descending byte-wise name order.
pub open spec fn sorted_by_name(s: Seq<DirEntry>) -> bool {
    forall|i: int, j: int| 0 <= i < j < s.len() ==> lex_le(s[i].name@, s[j].name@)
}

/// Sorts directory entries by name, byte-wise and case-sensitive; the
/// result is a permutation of the input.
pub fn sort_entries(entries: Vec<DirEntry>) -> (r: Vec<DirEntry>)
    ensures
        r@.to_multiset() == entries@.to_multiset(),
        sorted_by_name(r@),
{
    broadcast use group_to_multiset_ensures;

    let mut input = entries;
    let ghost orig = input@;
    let mut out: Vec<DirEntry> = Vec::new();
    proof {
        assert(orig.to_multiset() =~= out@.to_multiset().add(input@.to_multiset()));
    }
    while input.len() > 0
        invariant
            orig.to_multiset() == out@.to_multiset().add(input@.to_multiset()),
            sorted_by_name(out@),
            forall|i: int, j: int|
                #![trigger out@[i], input@[j]]
                0 <= i < out@.len() && 0 <= j < input@.len() ==> lex_le(
                    out@[i].name@,
                    input@[j].name@,
                ),
        decreases input@.len(),
    {
        let mut best: usize = 0;
        let mut k: usize = 1;
        proof {
            lemma_lex_refl(input@[0].name@);
        }
        while k < input.len()
            invariant
                input@.len() > 0,
                best < k <= input@.len(),
                forall|j: int| 0 <= j < k ==> lex_le(input@[best as int].name@, #[trigger] input@[j].name@),
            decreases input@.len() - k,
        {
            let le = lex_le_bytes(input[best].name.as_slice(), input[k].name.as_slice());
            proof {
                lemma_lex_refl(input@[k as int].name@);
            }
            if !le {
                proof {
                    lemma_lex_total(input@[best as int].name@, input@[k as int].name@);
                    assert forall|j: int| 0 <= j < k + 1 implies lex_le(
                        input@[k as int].name@,
                        #[trigger] input@[j].name@,
                    ) by {
                        if j < k {
                            lemma_lex_trans(
                                input@[k as int].name@,
                                input@[best as int].name@,
                                input@[j].name@,
                            );
                        }
                    }
                }
                best = k;
            }
            k += 1;
        }
        let ghost old_in = input@;
        let ghost old_out = out@;
        let e = input.remove(best);
        out.push(e);
        proof {
            broadcast use vstd::multiset::group_multiset_axioms;

            old_in.to_multiset_ensures();
            old_out.to_multiset_ensures();
            assert(input@.to_multiset() =~= old_in.to_multiset().remove(old_in[best as int]));
            assert(out@.to_multiset() =~= old_out.to_multiset().insert(old_in[best as int]));
            assert(old_in.to_multiset().contains(old_in[best as int])) by {
                assert(old_in.contains(old_in[best as int]));
            }
            assert forall|x: DirEntry|
                out@.to_multiset().add(input@.to_multiset()).count(x) == old_out.to_multiset().add(
                    old_in.to_multiset(),
                ).count(x) by {}
            assert(out@.to_multiset().add(input@.to_multiset()) =~= old_out.to_multiset().add(
                old_in.to_multiset(),
            ));
            assert forall|i: int, j: int|
                #![trigger out@[i], input@[j]]
                0 <= i < out@.len() && 0 <= j < input@.len() implies lex_le(
                out@[i].name@,
                input@[j].name@,
            ) by {
                let jj = if j < best as int {
                    j
                } else {
                    j + 1
                };
                assert(input@[j] == old_in[jj]);
                if i < old_out.len() {
                    assert(out@[i] == old_out[i]);
                } else {
                    assert(out@[i] == old_in[best as int]);
                }
            }
            assert(sorted_by_name(out@)) by {
                assert forall|i: int, j: int| 0 <= i < j < out@.len() implies lex_le(
                    out@[i].name@,
                    out@[j].name@,
                ) by {
                    if j < out@.len() - 1 {
                        assert(out@[i] == old_out[i] && out@[j] == old_out[j]);
                    } else {
                        assert(out@[j] == old_in[best as int]);
                        if i < old_out.len() {
                            assert(out@[i] == old_out[i]);
                        }
                    }
                }
            }
        }
    }
    proof {
        broadcast use vstd::multiset::group_multiset_axioms;

        input@.to_multiset_ensures();
        assert(input@.to_multiset() =~= Multiset::<DirEntry>::empty()) by {
            assert forall|x: DirEntry| input@.to_multiset().count(x) == 0 by {
                assert(!input@.contains(x));
            }
        }
        assert(out@.to_multiset().add(Multiset::<DirEntry>::empty()) =~= out@.to_multiset());
    }
    out
}

/// The HTML escape of one byte: the five characters HTML treats specially
/// become entities, every other byte stands for itself.
pub open spec fn html_escaped_byte(b: u8) -> Seq<u8> {
    if b == 38 {
        encode_utf8("&amp;"@)
    } else if b == 60 {
        encode_utf8("&lt;"@)
    } else if b == 62 {
        encode_utf8("&gt;"@)
    } else if b == 34 {
        encode_utf8("&quot;"@)
    } else if b == 39 {
        encode_utf8("&#x27;"@)
    } else {
        seq![b]
    }
}

pub open spec fn html_escaped(s: Seq<u8>) -> Seq<u8>
    decreases s.len(),
{
    if s.len() == 0 {
        Seq::empty()
    } else {
        html_escaped(s.drop_last()) + html_escaped_byte(s.last())
    }
}

/// HTML-escapes every byte of `s`.
pub fn html_escape(s: &[u8]) -> (r: Vec<u8>)
    ensures
        r@ == html_escaped(s@),
{
    let mut out: Vec<u8> = Vec::new();
    let mut i: usize = 0;
    while i < s.len()
        invariant
            i <= s.len(),
            out@ == html_escaped(s@.take(i as int)),
        decreases s.len() - i,
    {
        let b: u8 = s[i];
        if b == 38 {
            out.extend_from_slice("&amp;".as_bytes());
        } else if b == 60 {
            out.extend_from_slice("&lt;".as_bytes());
        } else if b == 62 {
            out.extend_from_slice("&gt;".as_bytes());
        } else if b == 34 {
            out.extend_from_slice("&quot;".as_bytes());
        } else if b == 39 {
            out.extend_from_slice("&#x27;".as_bytes());
        } else {
            out.push(b);
        }
        proof {
            assert(s@.take(i + 1).drop_last() =~= s@.take(i as int));
            assert(s@.take(i + 1).last() == s@[i as int]);
            assert(out@ =~= html_escaped(s@.take(i as int)) + html_escaped_byte(s@[i as int]));
        }
        i += 1;
    }
    proof {
        assert(s@.take(i as int) =~= s@);
    }
    out
}

/// One listing row: the entry's name percent-encoded in the hyperlink and
/// HTML-escaped in the text, with a `/` marking directories.
pub open spec fn listing_row(e: DirEntry) -> Seq<u8> {
    encode_utf8("<li><a href=\""@) + pct_encoded(e.name@) + (if e.is_directory {
        encode_utf8("/"@)
    } else {
        Seq::<u8>::empty()
    }) + encode_utf8("\">"@) + html_escaped(e.name@) + (if e.is_directory {
        encode_utf8("/"@)
    } else {
        Seq::<u8>::empty()
    }) + encode_utf8("</a></li>"@)
}

pub open spec fn listing_rows(s: Seq<DirEntry>) -> Seq<u8>
    decreases s.len(),
{
    if s.len() == 0 {
        Seq::empty()
    } else {
        listing_rows(s.drop_last()) + listing_row(s.last())
    }
}

/// The whole listing document around the rows.
pub open spec fn listing_html(s: Seq<DirEntry>) -> Seq<u8> {
    encode_utf8(
        "<!DOCTYPE html><html><head><meta charset=\"utf-8\"><title>Directory listing</title></head><body><h1>Directory listing</h1><ul>"@,
    ) + listing_rows(s) + encode_utf8("</ul></body></html>"@)
}

fn push_row(out: &mut Vec<u8>, e: &DirEntry)
    ensures
        final(out)@ == old(out)@ + listing_row(*e),
{
    out.extend_from_slice("<li><a href=\"".as_bytes());
    let enc = pct_encode(e.name.as_slice());
    out.extend_from_slice(enc.as_slice());
    if e.is_directory {
        out.extend_from_slice("/".as_bytes());
    }
    out.extend_from_slice("\">".as_bytes());
    let esc = html_escape(e.name.as_slice());
    out.extend_from_slice(esc.as_slice());
    if e.is_directory {
        out.extend_from_slice("/".as_bytes());
    }
    out.extend_from_slice("</a></li>".as_bytes());
    proof {
        assert(out@ =~= old(out)@ + listing_row(*e));
    }
}

/// Renders the rows of `entries` in the order given.
pub fn render_listing(entries: &Vec<DirEntry>) -> (r: Vec<u8>)
    ensures
        r@ == listing_html(entries@),
{
    let mut out: Vec<u8> = Vec::new();
    out.extend_from_slice(
        "<!DOCTYPE html><html><head><meta charset=\"utf-8\"><title>Directory listing</title></head><body><h1>Directory listing</h1><ul>".as_bytes(),
    );
    let ghost header = out@;
    let mut i: usize = 0;
    while i < entries.len()
        invariant
            i <= entries@.len(),
            out@ == header + listing_rows(entries@.take(i as int)),
        decreases entries@.len() - i,
    {
        push_row(&mut out, &entries[i]);
        proof {
            assert(entries@.take(i + 1).drop_last() =~= entries@.take(i as int));
            assert(entries@.take(i + 1).last() == entries@[i as int]);
            assert(out@ =~= header + listing_rows(entries@.take(i + 1)));
        }
        i += 1;
    }
    out.extend_from_slice("</ul></body></html>".as_bytes());
    proof {
        assert(entries@.take(entries@.len() as int) =~= entries@);
        assert(out@ =~= listing_html(entries@));
    }
    out
}

/// Sorts the entries by name and renders the escaped listing document:
/// the one deterministic listing of a directory's immediate children.
pub fn directory_listing_html(entries: Vec<DirEntry>) -> (r: Vec<u8>)
    ensures
        exists|s: Seq<DirEntry>|
            #![trigger listing_html(s)]
            sorted_by_name(s) && s.to_multiset() == entries@.to_multiset() && r@ == listing_html(s),
{
    let sorted = sort_entries(entries);
    render_listing(&sorted)
}

} // verus!

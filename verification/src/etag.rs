use vstd::prelude::*;

use crate::options::ServiceOptions;

verus! {

/// The lower-case hexadecimal digit for `d < 16`.
pub open spec fn lower_hex_digit(d: nat) -> u8
    recommends
        d < 16,
{
    if d < 10 {
        (48 + d) as u8
    } else {
        (87 + d) as u8
    }
}

pub open spec fn is_lower_hex(b: u8) -> bool {
    (48 <= b && b <= 57) || (97 <= b && b <= 102)
}

/// The shortest hexadecimal spelling of `n`.
pub open spec fn hex_seq(n: nat) -> Seq<u8>
    decreases n,
{
    if n < 16 {
        seq![lower_hex_digit(n)]
    } else {
        hex_seq(n / 16).push(lower_hex_digit(n % 16))
    }
}

pub proof fn lemma_hex_seq_len(n: nat)
    ensures
        hex_seq(n).len() >= 1,
        n >= 16 ==> hex_seq(n).len() >= 2,
    decreases n,
{
    if n >= 16 {
        lemma_hex_seq_len(n / 16);
    }
}

/// Every byte of a hexadecimal spelling is a lower-case hex digit.
pub proof fn lemma_hex_seq_digits(n: nat)
    ensures
        forall|i: int| 0 <= i < hex_seq(n).len() ==> is_lower_hex(#[trigger] hex_seq(n)[i]),
    decreases n,
{
    if n < 16 {
    } else {
        lemma_hex_seq_digits(n / 16);
        assert forall|i: int| 0 <= i < hex_seq(n).len() implies is_lower_hex(
            #[trigger] hex_seq(n)[i],
        ) by {
            if i < hex_seq(n).len() - 1 {
                assert(hex_seq(n)[i] == hex_seq(n / 16)[i]);
            } else {
                assert(hex_seq(n)[i] == lower_hex_digit(n % 16));
            }
        }
    }
}

/// The shortest hexadecimal spelling is one-to-one.
pub proof fn lemma_hex_seq_injective(a: nat, b: nat)
    requires
        hex_seq(a) == hex_seq(b),
    ensures
        a == b,
    decreases a,
{
    lemma_hex_seq_len(a);
    lemma_hex_seq_len(b);
    if a < 16 && b < 16 {
        assert(hex_seq(a)[0] == lower_hex_digit(a));
        assert(hex_seq(b)[0] == lower_hex_digit(b));
    } else if a >= 16 && b >= 16 {
        assert(hex_seq(a).last() == lower_hex_digit(a % 16));
        assert(hex_seq(b).last() == lower_hex_digit(b % 16));
        assert(hex_seq(a).drop_last() =~= hex_seq(a / 16));
        assert(hex_seq(b).drop_last() =~= hex_seq(b / 16));
        lemma_hex_seq_injective(a / 16, b / 16);
        assert(a % 16 == b % 16);
        assert(a == 16 * (a / 16) + a % 16);
        assert(b == 16 * (b / 16) + b % 16);
    } else {
        assert(hex_seq(a).len() == hex_seq(b).len());
        assert(false);
    }
}

/// The shortest hexadecimal spelling of `n`, as bytes.
pub fn u64_to_hex(n: u64) -> (r: Vec<u8>)
    ensures
        r@ == hex_seq(n as nat),
{
    let mut digits: Vec<u8> = Vec::new();
    let mut cur: u64 = n;
    while cur >= 16
        invariant
            hex_seq(n as nat) == hex_seq(cur as nat) + digits@,
        decreases cur,
    {
        let d: u8 = (cur % 16) as u8;
        let digit: u8 = if d < 10 {
            48 + d
        } else {
            87 + d
        };
        let ghost old_digits = digits@;
        digits.insert(0, digit);
        proof {
            assert(digit == lower_hex_digit((cur as nat) % 16));
            assert(digits@ =~= seq![digit] + old_digits);
            assert(hex_seq((cur as nat) / 16) + (seq![digit] + old_digits) =~= (hex_seq(
                (cur as nat) / 16,
            ).push(digit)) + old_digits);
            assert(hex_seq(cur as nat) == hex_seq((cur as nat) / 16).push(
                lower_hex_digit((cur as nat) % 16),
            ));
            assert((cur / 16) as nat == (cur as nat) / 16);
        }
        cur = cur / 16;
    }
    let d: u8 = cur as u8;
    let digit: u8 = if d < 10 {
        48 + d
    } else {
        87 + d
    };
    let ghost old_digits = digits@;
    digits.insert(0, digit);
    proof {
        assert(digit == lower_hex_digit(cur as nat));
        assert(hex_seq(cur as nat) == seq![digit]);
        assert(digits@ =~= seq![digit] + old_digits);
        assert(hex_seq(n as nat) =~= digits@);
    }
    digits
}

/// The entity tag for a regular file of the given size and modification
/// time: the two numbers in shortest hexadecimal, joined by a dash, inside
/// double quotes.  It is a strong validator: it changes whenever the size
/// or the modification time changes.
pub open spec fn etag_bytes(size: nat, mtime: nat) -> Seq<u8> {
    seq![34u8] + hex_seq(size) + seq![45u8] + hex_seq(mtime) + seq![34u8]
}

pub fn build_etag(size: u64, mtime: u64) -> (r: Vec<u8>)
    ensures
        r@ == etag_bytes(size as nat, mtime as nat),
{
    let mut out: Vec<u8> = Vec::new();
    out.push(34);
    let h1 = u64_to_hex(size);
    out.extend_from_slice(h1.as_slice());
    out.push(45);
    let h2 = u64_to_hex(mtime);
    out.extend_from_slice(h2.as_slice());
    out.push(34);
    proof {
        assert(out@ =~= etag_bytes(size as nat, mtime as nat));
    }
    out
}

/// Two files carry the same entity tag exactly when they agree in both
/// size and modification time: serving an unchanged file twice yields
/// byte-identical tags, and any change of size or time changes the tag.
pub proof fn lemma_etag_unique(s1: nat, m1: nat, s2: nat, m2: nat)
    ensures
        (etag_bytes(s1, m1) == etag_bytes(s2, m2)) <==> (s1 == s2 && m1 == m2),
{
    if etag_bytes(s1, m1) == etag_bytes(s2, m2) {
        let a1 = hex_seq(s1);
        let a2 = hex_seq(s2);
        let b1 = hex_seq(m1);
        let b2 = hex_seq(m2);
        let e1 = etag_bytes(s1, m1);
        let e2 = etag_bytes(s2, m2);
        lemma_hex_seq_digits(s1);
        lemma_hex_seq_digits(s2);
        lemma_hex_seq_digits(m1);
        lemma_hex_seq_digits(m2);
        lemma_hex_seq_len(s1);
        lemma_hex_seq_len(s2);
        lemma_hex_seq_len(m1);
        lemma_hex_seq_len(m2);
        assert(e1.len() == a1.len() + b1.len() + 3);
        assert(e2.len() == a2.len() + b2.len() + 3);
        if a1.len() < a2.len() {
            assert(e1[1 + a1.len() as int] == 45);
            assert(e2[1 + a1.len() as int] == a2[a1.len() as int]);
            assert(is_lower_hex(a2[a1.len() as int]));
            assert(false);
        }
        if a2.len() < a1.len() {
            assert(e2[1 + a2.len() as int] == 45);
            assert(e1[1 + a2.len() as int] == a1[a2.len() as int]);
            assert(is_lower_hex(a1[a2.len() as int]));
            assert(false);
        }
        assert(a1.len() == a2.len());
        assert(b1.len() == b2.len());
        assert forall|i: int| 0 <= i < a1.len() implies a1[i] == a2[i] by {
            assert(e1[1 + i] == a1[i]);
            assert(e2[1 + i] == a2[i]);
        }
        assert(a1 =~= a2);
        lemma_hex_seq_injective(s1, s2);
        assert forall|i: int| 0 <= i < b1.len() implies b1[i] == b2[i] by {
            assert(e1[2 + a1.len() + i] == b1[i]);
            assert(e2[2 + a2.len() + i] == b2[i]);
        }
        assert(b1 =~= b2);
        lemma_hex_seq_injective(m1, m2);
    }
}

/// The validators of one file at one moment: the entity tag and the
/// modification time, each present only when its use is enabled.
pub struct CacheKey {
    pub etag: Option<Vec<u8>>,
    pub last_modified: Option<u64>,
}

/// Derives the validators for a regular file of the given size and
/// modification time, honoring the configured switches.
pub fn build_cache_key(opts: &ServiceOptions, size: u64, mtime: u64) -> (r: CacheKey)
    ensures
        r.etag is Some <==> !opts.disable_etag,
        !opts.disable_etag ==> r.etag->0@ == etag_bytes(size as nat, mtime as nat),
        r.last_modified == (if opts.disable_last_modified {
            Option::<u64>::None
        } else {
            Option::Some(mtime)
        }),
{
    let etag = if opts.disable_etag {
        None
    } else {
        Some(build_etag(size, mtime))
    };
    let last_modified = if opts.disable_last_modified {
        None
    } else {
        Some(mtime)
    };
    CacheKey { etag, last_modified }
}

} // verus!

use vstd::prelude::*;

verus! {

/// True of the ASCII code of a hexadecimal digit.
pub open spec fn is_hex_digit(b: u8) -> bool {
    (48 <= b && b <= 57) || (65 <= b && b <= 70) || (97 <= b && b <= 102)
}

/// The numeric value of a hexadecimal digit.
pub open spec fn hex_val(b: u8) -> u8
    recommends
        is_hex_digit(b),
{
    if 48 <= b && b <= 57 {
        (b - 48) as u8
    } else if 65 <= b && b <= 70 {
        (b - 55) as u8
    } else {
        (b - 87) as u8
    }
}

/// Percent-decoding of a byte sequence: every `%XY` with two hexadecimal
/// digits stands for the byte `0xXY`; a `%` not followed by two such digits
/// makes the whole sequence undecodable.
pub open spec fn pct_decoded(s: Seq<u8>) -> Option<Seq<u8>>
    decreases s.len(),
{
    if s.len() == 0 {
        Option::Some(Seq::empty())
    } else if s[0] == 37 {
        if s.len() >= 3 && is_hex_digit(s[1]) && is_hex_digit(s[2]) {
            match pct_decoded(s.skip(3)) {
                Option::Some(r) => Option::Some(
                    seq![(hex_val(s[1]) * 16 + hex_val(s[2])) as u8] + r,
                ),
                Option::None => Option::None,
            }
        } else {
            Option::None
        }
    } else {
        match pct_decoded(s.skip(1)) {
            Option::Some(r) => Option::Some(seq![s[0]] + r),
            Option::None => Option::None,
        }
    }
}

fn hex_digit_value(b: u8) -> (r: Option<u8>)
    ensures
        r is Some <==> is_hex_digit(b),
        r is Some ==> r->0 == hex_val(b),
{
    if 48 <= b && b <= 57 {
        Some(b - 48)
    } else if 65 <= b && b <= 70 {
        Some(b - 55)
    } else if 97 <= b && b <= 102 {
        Some(b - 87)
    } else {
        None
    }
}

/// Percent-decodes `s`; `None` when a `%` is not followed by two
/// hexadecimal digits.
pub fn pct_decode(s: &[u8]) -> (r: Option<Vec<u8>>)
    ensures
        r is Some ==> pct_decoded(s@) == Option::Some(r->0@),
        r is None ==> pct_decoded(s@) is None,
{
    let mut out: Vec<u8> = Vec::new();
    let mut i: usize = 0;
    proof {
        assert(s@.skip(0) =~= s@);
    }
    while i < s.len()
        invariant
            i <= s.len(),
            pct_decoded(s@.skip(i as int)) is Some ==> pct_decoded(s@) == Option::Some(
                out@ + pct_decoded(s@.skip(i as int))->0,
            ),
            pct_decoded(s@.skip(i as int)) is None ==> pct_decoded(s@) is None,
        decreases s.len() - i,
    {
        let ghost pre = s@.skip(i as int);
        proof {
            assert(pre[0] == s@[i as int]);
        }
        if s[i] == 37 {
            if s.len() - i >= 3 {
                proof {
                    assert(pre[1] == s@[i as int + 1]);
                    assert(pre[2] == s@[i as int + 2]);
                }
                let d1 = hex_digit_value(s[i + 1]);
                let d2 = hex_digit_value(s[i + 2]);
                match (d1, d2) {
                    (Some(h1), Some(h2)) => {
                        let ghost old_out = out@;
                        out.push(h1 * 16 + h2);
                        proof {
                            assert(pre.skip(3) =~= s@.skip(i as int + 3));
                            if pct_decoded(s@.skip(i as int + 3)) is Some {
                                let rest = pct_decoded(s@.skip(i as int + 3))->0;
                                assert(pct_decoded(pre) == Option::Some(
                                    seq![(h1 * 16 + h2) as u8] + rest,
                                ));
                                assert(old_out + (seq![(h1 * 16 + h2) as u8] + rest) =~= out@
                                    + rest);
                            }
                        }
                        i += 3;
                    },
                    _ => {
                        proof {
                            assert(pct_decoded(pre) is None);
                        }
                        return None;
                    },
                }
            } else {
                proof {
                    assert(pre.len() < 3);
                    assert(pct_decoded(pre) is None);
                }
                return None;
            }
        } else {
            let b: u8 = s[i];
            let ghost old_out = out@;
            out.push(b);
            proof {
                assert(pre.skip(1) =~= s@.skip(i as int + 1));
                if pct_decoded(s@.skip(i as int + 1)) is Some {
                    let rest = pct_decoded(s@.skip(i as int + 1))->0;
                    assert(old_out + (seq![b] + rest) =~= out@ + rest);
                }
            }
            i += 1;
        }
    }
    proof {
        assert(s@.skip(i as int) =~= Seq::<u8>::empty());
        assert(out@ + Seq::<u8>::empty() =~= out@);
    }
    Some(out)
}

/// True of bytes that stand for themselves in a hyperlink: the unreserved
/// characters of a URL, and nothing else.
pub open spec fn is_unreserved(b: u8) -> bool {
    (48 <= b && b <= 57) || (65 <= b && b <= 90) || (97 <= b && b <= 122) || b == 45 || b == 46
        || b == 95 || b == 126
}

/// The ASCII code of the upper-case hexadecimal digit for `d < 16`.
pub open spec fn upper_hex_digit(d: u8) -> u8
    recommends
        d < 16,
{
    if d < 10 {
        (48 + d) as u8
    } else {
        (55 + d) as u8
    }
}

/// Percent-encoding of one byte for use in a hyperlink.
pub open spec fn pct_encoded_byte(b: u8) -> Seq<u8> {
    if is_unreserved(b) {
        seq![b]
    } else {
        seq![37u8, upper_hex_digit(b / 16), upper_hex_digit(b % 16)]
    }
}

/// Percent-encoding of a byte sequence for use in a hyperlink.
pub open spec fn pct_encoded(s: Seq<u8>) -> Seq<u8>
    decreases s.len(),
{
    if s.len() == 0 {
        Seq::empty()
    } else {
        pct_encoded(s.drop_last()) + pct_encoded_byte(s.last())
    }
}

/// Percent-encodes `s` for use in a hyperlink.
pub fn pct_encode(s: &[u8]) -> (r: Vec<u8>)
    ensures
        r@ == pct_encoded(s@),
{
    let mut out: Vec<u8> = Vec::new();
    let mut i: usize = 0;
    while i < s.len()
        invariant
            0 <= i <= s.len(),
            out@ == pct_encoded(s@.take(i as int)),
        decreases s.len() - i,
    {
        let b: u8 = s[i];
        if (48 <= b && b <= 57) || (65 <= b && b <= 90) || (97 <= b && b <= 122) || b == 45 || b
            == 46 || b == 95 || b == 126 {
            out.push(b);
        } else {
            out.push(37);
            let hi: u8 = b / 16;
            let lo: u8 = b % 16;
            out.push(if hi < 10 { 48 + hi } else { 55 + hi });
            out.push(if lo < 10 { 48 + lo } else { 55 + lo });
        }
        proof {
            assert(s@.take(i + 1).drop_last() =~= s@.take(i as int));
            assert(s@.take(i + 1).last() == s@[i as int]);
            assert(out@ =~= pct_encoded(s@.take(i as int)) + pct_encoded_byte(s@[i as int]));
        }
        i += 1;
    }
    proof {
        assert(s@.take(i as int) =~= s@);
    }
    out
}

} // verus!
